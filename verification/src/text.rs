use vstd::prelude::*;

verus! {

// Characters stripped by trimming: the ASCII whitespace found in thread-dump text.
pub open spec fn is_space(c: char) -> bool {
    c == ' ' || c == '\t' || c == '\n' || c == '\r'
}

pub fn is_space_exec(c: char) -> (r: bool)
    ensures
        r == is_space(c),
{
    c == ' ' || c == '\t' || c == '\n' || c == '\r'
}

/// The pattern `pat` occurs in `h` starting at position `i`.
pub open spec fn match_at(h: Seq<char>, pat: Seq<char>, i: int) -> bool {
    &&& 0 <= i
    &&& i + pat.len() <= h.len()
    &&& h.subrange(i, i + pat.len() as int) == pat
}

/// Position of the first occurrence of `pat` in `h` at or after `i`.
pub open spec fn find_from_spec(h: Seq<char>, pat: Seq<char>, i: int) -> Option<int>
    decreases h.len() - i + 1,
{
    if i < 0 || i + pat.len() > h.len() {
        None
    } else if h.subrange(i, i + pat.len() as int) == pat {
        Some(i)
    } else {
        find_from_spec(h, pat, i + 1)
    }
}

/// Position of the first occurrence of `pat` in `h`.
pub open spec fn find_spec(h: Seq<char>, pat: Seq<char>) -> Option<int> {
    find_from_spec(h, pat, 0)
}

/// Position of the last occurrence of `pat` in `h` at or before `i`.
pub open spec fn rfind_from_spec(h: Seq<char>, pat: Seq<char>, i: int) -> Option<int>
    decreases i + 1,
{
    if i < 0 || i + pat.len() > h.len() {
        None
    } else if h.subrange(i, i + pat.len() as int) == pat {
        Some(i)
    } else {
        rfind_from_spec(h, pat, i - 1)
    }
}

/// Position of the last occurrence of `pat` in `h`.
pub open spec fn rfind_spec(h: Seq<char>, pat: Seq<char>) -> Option<int> {
    rfind_from_spec(h, pat, h.len() - pat.len())
}

pub open spec fn contains_spec(h: Seq<char>, pat: Seq<char>) -> bool {
    find_spec(h, pat) is Some
}

/// `h` with everything before and including the first occurrence of `pat` removed.
pub open spec fn after_first_spec(h: Seq<char>, pat: Seq<char>) -> Seq<char>
    recommends
        contains_spec(h, pat),
{
    match find_spec(h, pat) {
        Some(i) => h.subrange(i + pat.len(), h.len() as int),
        None => Seq::empty(),
    }
}

/// The prefix of `h` up to (excluding) the first occurrence of `pat`,
/// or all of `h` when `pat` does not occur.
pub open spec fn before_first_spec(h: Seq<char>, pat: Seq<char>) -> Seq<char> {
    match find_spec(h, pat) {
        Some(i) => h.subrange(0, i),
        None => h,
    }
}

pub open spec fn trim_start_spec(s: Seq<char>) -> Seq<char>
    decreases s.len(),
{
    if s.len() > 0 && is_space(s[0]) {
        trim_start_spec(s.drop_first())
    } else {
        s
    }
}

pub open spec fn trim_end_spec(s: Seq<char>) -> Seq<char>
    decreases s.len(),
{
    if s.len() > 0 && is_space(s[s.len() - 1]) {
        trim_end_spec(s.drop_last())
    } else {
        s
    }
}

/// `s` with leading and trailing whitespace removed.
pub open spec fn trim_spec(s: Seq<char>) -> Seq<char> {
    trim_end_spec(trim_start_spec(s))
}

pub open spec fn mask_char(c: char) -> char {
    if '0' <= c && c <= '9' {
        'X'
    } else {
        c
    }
}

/// Every decimal digit replaced by the fixed placeholder.
pub open spec fn mask_spec(s: Seq<char>) -> Seq<char> {
    s.map_values(|c: char| mask_char(c))
}

pub proof fn lemma_find_from_step(h: Seq<char>, pat: Seq<char>, i: int)
    requires
        0 <= i,
        i + pat.len() <= h.len(),
        h.subrange(i, i + pat.len() as int) != pat,
    ensures
        find_from_spec(h, pat, i) == find_from_spec(h, pat, i + 1),
{
}

pub proof fn lemma_find_from_none(h: Seq<char>, pat: Seq<char>, i: int)
    requires
        i + pat.len() > h.len(),
    ensures
        find_from_spec(h, pat, i) is None,
{
}

pub proof fn lemma_find_from_some(h: Seq<char>, pat: Seq<char>, i: int, j: int)
    requires
        find_from_spec(h, pat, i) == Some(j),
    ensures
        match_at(h, pat, j),
        i <= j,
    decreases h.len() - i + 1,
{
    if !(i < 0 || i + pat.len() > h.len()) && h.subrange(i, i + pat.len() as int) != pat {
        lemma_find_from_some(h, pat, i + 1, j);
    }
}

pub proof fn lemma_rfind_from_some(h: Seq<char>, pat: Seq<char>, i: int, j: int)
    requires
        rfind_from_spec(h, pat, i) == Some(j),
    ensures
        match_at(h, pat, j),
        j <= i,
    decreases i + 1,
{
    if !(i < 0 || i + pat.len() > h.len()) && h.subrange(i, i + pat.len() as int) != pat {
        lemma_rfind_from_some(h, pat, i - 1, j);
    }
}

/// A position that matches, with no earlier match, is where `find_spec` points.
pub proof fn lemma_find_is_first(h: Seq<char>, pat: Seq<char>, s: int)
    requires
        match_at(h, pat, s),
        forall|i: int| 0 <= i < s ==> !match_at(h, pat, i),
    ensures
        find_spec(h, pat) == Some(s),
{
    lemma_find_is_first_from(h, pat, s, 0);
}

proof fn lemma_find_is_first_from(h: Seq<char>, pat: Seq<char>, s: int, i: int)
    requires
        match_at(h, pat, s),
        forall|j: int| i <= j < s ==> !match_at(h, pat, j),
        0 <= i <= s,
    ensures
        find_from_spec(h, pat, i) == Some(s),
    decreases s - i,
{
    if i < s {
        assert(!match_at(h, pat, i));
        lemma_find_is_first_from(h, pat, s, i + 1);
    }
}

/// A position that matches, with no later match, is where `rfind_spec` points.
pub proof fn lemma_rfind_is_last(h: Seq<char>, pat: Seq<char>, s: int)
    requires
        match_at(h, pat, s),
        forall|i: int| s < i ==> !match_at(h, pat, i),
    ensures
        rfind_spec(h, pat) == Some(s),
{
    lemma_rfind_is_last_from(h, pat, s, h.len() - pat.len());
}

proof fn lemma_rfind_is_last_from(h: Seq<char>, pat: Seq<char>, s: int, i: int)
    requires
        match_at(h, pat, s),
        forall|j: int| s < j <= i ==> !match_at(h, pat, j),
        s <= i,
        i + pat.len() <= h.len(),
    ensures
        rfind_from_spec(h, pat, i) == Some(s),
    decreases i - s,
{
    if s < i {
        assert(!match_at(h, pat, i));
        lemma_rfind_is_last_from(h, pat, s, i - 1);
    }
}

proof fn lemma_trim_start_idx(s: Seq<char>, k: int)
    requires
        0 <= k <= s.len(),
        forall|j: int| 0 <= j < k ==> is_space(s[j]),
        k == s.len() || !is_space(s[k]),
    ensures
        trim_start_spec(s) == s.subrange(k, s.len() as int),
    decreases k,
{
    if k == 0 {
        assert(s.subrange(0, s.len() as int) =~= s);
    } else {
        assert(is_space(s[0]));
        let t = s.drop_first();
        lemma_trim_start_idx(t, k - 1);
        assert(t.subrange(k - 1, t.len() as int) =~= s.subrange(k, s.len() as int));
    }
}

proof fn lemma_trim_end_idx(s: Seq<char>, m: int)
    requires
        0 <= m <= s.len(),
        forall|j: int| m <= j < s.len() ==> is_space(s[j]),
        m == 0 || !is_space(s[m - 1]),
    ensures
        trim_end_spec(s) == s.subrange(0, m),
    decreases s.len(),
{
    if s.len() > m {
        assert(is_space(s[s.len() - 1]));
        let t = s.drop_last();
        assert(forall|j: int| m <= j < t.len() ==> t[j] == s[j] && is_space(s[j]));
        lemma_trim_end_idx(t, m);
        assert(t.subrange(0, m) =~= s.subrange(0, m));
    } else {
        assert(s.subrange(0, m) =~= s);
    }
}

proof fn lemma_trim_start_no_leading(s: Seq<char>)
    ensures
        trim_start_spec(s).len() > 0 ==> !is_space(trim_start_spec(s)[0]),
    decreases s.len(),
{
    if s.len() > 0 && is_space(s[0]) {
        lemma_trim_start_no_leading(s.drop_first());
    }
}

proof fn lemma_trim_end_keeps_head(s: Seq<char>)
    ensures
        trim_end_spec(s).len() > 0 ==> trim_end_spec(s)[0] == s[0],
        trim_end_spec(s).len() <= s.len(),
    decreases s.len(),
{
    if s.len() > 0 && is_space(s[s.len() - 1]) {
        lemma_trim_end_keeps_head(s.drop_last());
    }
}

proof fn lemma_trim_end_no_trailing(s: Seq<char>)
    ensures
        trim_end_spec(s).len() > 0 ==> !is_space(trim_end_spec(s)[trim_end_spec(s).len() - 1]),
    decreases s.len(),
{
    if s.len() > 0 && is_space(s[s.len() - 1]) {
        lemma_trim_end_no_trailing(s.drop_last());
    }
}

/// Trimming is a projection: trimming a trimmed string changes nothing.
pub proof fn lemma_trim_idempotent(s: Seq<char>)
    ensures
        trim_spec(trim_spec(s)) == trim_spec(s),
{
    let t = trim_spec(s);
    if t.len() == 0 {
    } else {
        lemma_trim_start_no_leading(s);
        lemma_trim_end_keeps_head(trim_start_spec(s));
        lemma_trim_end_no_trailing(trim_start_spec(s));
        assert(!is_space(t[0]));
        assert(!is_space(t[t.len() - 1]));
        assert(trim_start_spec(t) == t);
        assert(trim_end_spec(t) == t);
    }
}

/// Whether `pat` occurs in `h` exactly at position `i`.
pub fn match_at_exec(h: &str, pat: &str, i: usize) -> (r: bool)
    ensures
        r == match_at(h@, pat@, i as int),
{
    let hl = h.unicode_len();
    let pl = pat.unicode_len();
    if pl > hl || i > hl - pl {
        return false;
    }
    let mut j: usize = 0;
    while j < pl
        invariant
            hl == h@.len(),
            pl == pat@.len(),
            i + pl <= hl,
            0 <= j <= pl,
            forall|k: int| 0 <= k < j ==> h@[i + k] == pat@[k],
        decreases pl - j,
    {
        if h.get_char(i + j) != pat.get_char(j) {
            proof {
                let sub = h@.subrange(i as int, i as int + pl as int);
                assert(sub[j as int] == h@[i + j]);
                assert(sub != pat@);
            }
            return false;
        }
        j += 1;
    }
    proof {
        assert(h@.subrange(i as int, i as int + pl as int) =~= pat@);
    }
    true
}

/// First occurrence of `pat` in `h`, if any.
pub fn find_str(h: &str, pat: &str) -> (r: Option<usize>)
    ensures
        match r {
            Some(i) => find_spec(h@, pat@) == Some(i as int),
            None => find_spec(h@, pat@) is None,
        },
{
    let hl = h.unicode_len();
    let pl = pat.unicode_len();
    if pl > hl {
        return None;
    }
    if pl == 0 {
        proof {
            assert(h@.subrange(0, 0) =~= pat@);
        }
        return Some(0);
    }
    let mut i: usize = 0;
    while i <= hl - pl
        invariant
            hl == h@.len(),
            pl == pat@.len(),
            1 <= pl <= hl,
            0 <= i <= hl - pl + 1,
            find_spec(h@, pat@) == find_from_spec(h@, pat@, i as int),
        decreases hl - pl - i + 1,
    {
        if match_at_exec(h, pat, i) {
            return Some(i);
        }
        proof {
            lemma_find_from_step(h@, pat@, i as int);
        }
        i += 1;
    }
    proof {
        lemma_find_from_none(h@, pat@, i as int);
    }
    None
}

/// Last occurrence of `pat` in `h`, if any.
pub fn rfind_str(h: &str, pat: &str) -> (r: Option<usize>)
    ensures
        match r {
            Some(i) => rfind_spec(h@, pat@) == Some(i as int),
            None => rfind_spec(h@, pat@) is None,
        },
{
    let hl = h.unicode_len();
    let pl = pat.unicode_len();
    if pl > hl {
        return None;
    }
    let mut i: usize = hl - pl;
    loop
        invariant
            hl == h@.len(),
            pl == pat@.len(),
            pl <= hl,
            0 <= i <= hl - pl,
            rfind_spec(h@, pat@) == rfind_from_spec(h@, pat@, i as int),
        decreases i + 1,
    {
        if match_at_exec(h, pat, i) {
            return Some(i);
        }
        proof {
            assert(h@.subrange(i as int, i as int + pl as int) != pat@);
        }
        if i == 0 {
            proof {
                assert(rfind_from_spec(h@, pat@, -1) is None);
            }
            return None;
        }
        i -= 1;
    }
}

pub fn contains_str(h: &str, pat: &str) -> (r: bool)
    ensures
        r == contains_spec(h@, pat@),
{
    find_str(h, pat).is_some()
}

pub fn starts_with_str(h: &str, pat: &str) -> (r: bool)
    ensures
        r == match_at(h@, pat@, 0),
{
    match_at_exec(h, pat, 0)
}

/// `h` with everything before and including the first occurrence of `pat` removed;
/// the empty suffix when `pat` does not occur.
pub fn after_first<'a>(h: &'a str, pat: &str) -> (r: &'a str)
    ensures
        r@ == after_first_spec(h@, pat@),
{
    let hl = h.unicode_len();
    let pl = pat.unicode_len();
    match find_str(h, pat) {
        Some(i) => {
            proof {
                lemma_find_from_some(h@, pat@, 0, i as int);
            }
            h.substring_char(i + pl, hl)
        },
        None => h.substring_char(hl, hl),
    }
}

/// The prefix of `h` up to (excluding) the first occurrence of `pat`,
/// or all of `h` when `pat` does not occur.
pub fn before_first<'a>(h: &'a str, pat: &str) -> (r: &'a str)
    ensures
        r@ == before_first_spec(h@, pat@),
{
    let hl = h.unicode_len();
    match find_str(h, pat) {
        Some(i) => {
            proof {
                lemma_find_from_some(h@, pat@, 0, i as int);
            }
            h.substring_char(0, i)
        },
        None => {
            let r = h.substring_char(0, hl);
            proof {
                assert(h@.subrange(0, hl as int) =~= h@);
            }
            r
        },
    }
}

/// `h` with leading and trailing whitespace removed.
pub fn trim(s: &str) -> (r: &str)
    ensures
        r@ == trim_spec(s@),
{
    let len = s.unicode_len();
    let mut a: usize = 0;
    while a < len && is_space_exec(s.get_char(a))
        invariant
            len == s@.len(),
            0 <= a <= len,
            forall|j: int| 0 <= j < a ==> is_space(s@[j]),
        decreases len - a,
    {
        a += 1;
    }
    let mut b: usize = len;
    while b > a && is_space_exec(s.get_char(b - 1))
        invariant
            len == s@.len(),
            a <= b <= len,
            forall|j: int| b <= j < len ==> is_space(s@[j]),
        decreases b,
    {
        b -= 1;
    }
    proof {
        lemma_trim_start_idx(s@, a as int);
        let t = s@.subrange(a as int, len as int);
        assert(forall|j: int| b - a <= j < t.len() ==> t[j] == s@[j + a] && is_space(t[j]));
        lemma_trim_end_idx(t, b - a);
        assert(t.subrange(0, b - a) =~= s@.subrange(a as int, b as int));
    }
    s.substring_char(a, b)
}

/// Whether `h` ends with `pat`.
pub fn ends_with_str(h: &str, pat: &str) -> (r: bool)
    ensures
        r == (pat@.len() <= h@.len() && match_at(h@, pat@, h@.len() - pat@.len())),
{
    let hl = h.unicode_len();
    let pl = pat.unicode_len();
    if pl > hl {
        false
    } else {
        match_at_exec(h, pat, hl - pl)
    }
}

/// The concatenation of two string slices.
pub fn concat_str(a: &str, b: &str) -> (r: String)
    ensures
        r@ == a@ + b@,
{
    let mut s = String::from_str(a);
    s.append(b);
    s
}

/// Equality of two string slices, character by character.
pub fn str_eq(a: &str, b: &str) -> (r: bool)
    ensures
        r == (a@ == b@),
{
    let al = a.unicode_len();
    let bl = b.unicode_len();
    if al != bl {
        return false;
    }
    let mut i: usize = 0;
    while i < al
        invariant
            al == a@.len(),
            bl == b@.len(),
            al == bl,
            0 <= i <= al,
            forall|j: int| 0 <= j < i ==> a@[j] == b@[j],
        decreases al - i,
    {
        if a.get_char(i) != b.get_char(i) {
            return false;
        }
        i += 1;
    }
    proof {
        assert(a@ =~= b@);
    }
    true
}

/// Equality of two optional strings.
pub fn opt_str_eq(a: &Option<String>, b: &Option<String>) -> (r: bool)
    ensures
        r == match (a, b) {
            (Some(x), Some(y)) => x@ == y@,
            (None, None) => true,
            _ => false,
        },
{
    match (a, b) {
        (Some(x), Some(y)) => str_eq(x.as_str(), y.as_str()),
        (None, None) => true,
        _ => false,
    }
}

/// Builds a `String` out of a vector of characters.
///
/// Relies on `String`'s `FromIterator<char>` implementation (through
/// `Iterator::collect`): the resulting string holds exactly the given
/// characters, in order.
#[verifier::external_body]
pub(crate) fn chars_to_string(v: &Vec<char>) -> (r: String)
    ensures
        r@ == v@,
{
    v.iter().collect()
}

/// `s` with every decimal digit replaced by the placeholder `X`.
pub fn mask_digits(s: &str) -> (r: String)
    ensures
        r@ == mask_spec(s@),
{
    let len = s.unicode_len();
    let mut v: Vec<char> = Vec::new();
    let mut i: usize = 0;
    while i < len
        invariant
            len == s@.len(),
            0 <= i <= len,
            v@ == s@.subrange(0, i as int).map_values(|c: char| mask_char(c)),
        decreases len - i,
    {
        let c = s.get_char(i);
        let m = if '0' <= c && c <= '9' {
            'X'
        } else {
            c
        };
        v.push(m);
        proof {
            assert(s@.subrange(0, i + 1).map_values(|c: char| mask_char(c)) =~= s@.subrange(
                0,
                i as int,
            ).map_values(|c: char| mask_char(c)).push(mask_char(s@[i as int])));
        }
        i += 1;
    }
    proof {
        assert(s@.subrange(0, len as int) =~= s@);
    }
    chars_to_string(&v)
}

/// Masking digits is a projection: applying it twice is the same as applying it once.
pub proof fn lemma_mask_idempotent(s: Seq<char>)
    ensures
        mask_spec(mask_spec(s)) == mask_spec(s),
{
    assert(mask_spec(mask_spec(s)) =~= mask_spec(s));
}

} // verus!
