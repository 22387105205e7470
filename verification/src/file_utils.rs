use vstd::prelude::*;

use crate::text;

verus! {

/// True when the string holds nothing but whitespace.
pub fn is_empty(s: &str) -> (r: bool)
    ensures
        r == (text::trim_spec(s@).len() == 0),
{
    let t = text::trim(s);
    t.unicode_len() == 0
}

pub open spec fn lower_char(c: char) -> char {
    if 'A' <= c && c <= 'Z' {
        ((c as u8) + 32) as char
    } else {
        c
    }
}

pub open spec fn lower_spec(s: Seq<char>) -> Seq<char> {
    s.map_values(|c: char| lower_char(c))
}

/// The ASCII-lowercased copy of a string.
pub fn ascii_lower(s: &str) -> (r: String)
    ensures
        r@ == lower_spec(s@),
{
    let len = s.unicode_len();
    let mut v: Vec<char> = Vec::new();
    let mut i: usize = 0;
    while i < len
        invariant
            len == s@.len(),
            0 <= i <= len,
            v@.len() == i,
            forall|k: int| 0 <= k < i ==> v@[k] == lower_char(s@[k]),
        decreases len - i,
    {
        let c = s.get_char(i);
        let m: char = if 'A' <= c && c <= 'Z' {
            (((c as u8) + 32) as char)
        } else {
            c
        };
        v.push(m);
        i += 1;
    }
    proof {
        assert(v@ =~= lower_spec(s@));
    }
    text::chars_to_string(&v)
}

/// The file suffix of a path: the lowercased text after the last `.` of the
/// last path component, absent when the component has no `.` past its first
/// character.
pub open spec fn suffix_spec(p: Seq<char>) -> Option<Seq<char>> {
    let comp = match text::rfind_spec(p, "/"@) {
        Some(i) => p.subrange(i + 1, p.len() as int),
        None => p,
    };
    match text::rfind_spec(comp, "."@) {
        Some(i) => if i > 0 {
            Some(lower_spec(comp.subrange(i + 1, comp.len() as int)))
        } else {
            None
        },
        None => None,
    }
}

/// The lowercased file suffix of a path, if any.
pub fn get_suffix(file_path: &str) -> (r: Option<String>)
    ensures
        match r {
            Some(s) => suffix_spec(file_path@) == Some(s@),
            None => suffix_spec(file_path@) is None,
        },
{
    proof {
        reveal_strlit("/");
        reveal_strlit(".");
    }
    let len = file_path.unicode_len();
    let comp = match text::rfind_str(file_path, "/") {
        Some(i) => {
            proof {
                text::lemma_rfind_from_some(file_path@, "/"@, file_path@.len() - "/"@.len(), i as int);
            }
            file_path.substring_char(i + 1, len)
        },
        None => {
            let c = file_path.substring_char(0, len);
            proof {
                assert(file_path@.subrange(0, len as int) =~= file_path@);
            }
            c
        },
    };
    let clen = comp.unicode_len();
    match text::rfind_str(comp, ".") {
        Some(i) => {
            proof {
                text::lemma_rfind_from_some(comp@, "."@, comp@.len() - "."@.len(), i as int);
            }
            if i > 0 {
                Some(ascii_lower(comp.substring_char(i + 1, clen)))
            } else {
                None
            }
        },
        None => None,
    }
}

/// Classifies a path by its suffix: 0 a directory, 1 an archive (`zip`,
/// `gz`), 2 a `rar` (unsupported), 3 a readable log (`log`, `txt`,
/// `bugreport`), -1 anything else or blank.  Whether the path is a directory
/// comes from the caller, who owns the file system.
pub fn get_file_type(file_path: &str, is_directory: bool) -> (r: i32)
    ensures
        text::trim_spec(file_path@).len() == 0 ==> r == -1,
        text::trim_spec(file_path@).len() > 0 && is_directory ==> r == 0,
        (text::trim_spec(file_path@).len() > 0 && !is_directory) ==> r == (match suffix_spec(
            file_path@,
        ) {
            Some(suf) => {
                if suf == "zip"@ || suf == "gz"@ {
                    1int
                } else if suf == "rar"@ {
                    2int
                } else if suf == "log"@ || suf == "txt"@ || suf == "bugreport"@ {
                    3int
                } else {
                    -1int
                }
            },
            None => -1int,
        }),
{
    if is_empty(file_path) {
        return -1;
    }
    if is_directory {
        return 0;
    }
    match get_suffix(file_path) {
        Some(suffix) => {
            let suf = suffix.as_str();
            if text::str_eq(suf, "zip") || text::str_eq(suf, "gz") {
                1
            } else if text::str_eq(suf, "rar") {
                2
            } else if text::str_eq(suf, "log") || text::str_eq(suf, "txt") || text::str_eq(
                suf,
                "bugreport",
            ) {
                3
            } else {
                -1
            }
        },
        None => -1,
    }
}

} // verus!
