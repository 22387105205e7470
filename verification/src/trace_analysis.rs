use vstd::prelude::*;

use crate::cursor::LineCursor;
use crate::lock_bean::{empty_record, HeldThread, LockBean, LockRecordView};
use crate::result_item_bean::ResultItemBean;
use crate::log_item_bean::{
    full_time, in_frame_full, in_frame_spec, LogItemBean, LogItemView,
};
use crate::text;

verus! {

// ---------------------------------------------------------------------------
// Lock-record extraction: the model of what one line contributes.
// ---------------------------------------------------------------------------
/// The object id named after `pat`: the text following the first occurrence
/// of `pat`, up to the next `>`, trimmed.
pub open spec fn object_after(l: Seq<char>, pat: Seq<char>) -> Seq<char> {
    text::trim_spec(text::before_first_spec(text::after_first_spec(l, pat), ">"@))
}

/// Which `held by` marker the line carries, if any.
pub open spec fn held_tag_of(l: Seq<char>) -> Option<Seq<char>> {
    if text::contains_spec(l, "held by tid="@) {
        Some("held by tid="@)
    } else if text::contains_spec(l, "held by thread "@) {
        Some("held by thread "@)
    } else {
        None
    }
}

/// The thread attribution carried after a `held by` marker: the thread id in
/// `tid=N` form, and the name between the first `(` and the following `)`
/// when both brackets are present.
pub open spec fn held_thread_of(l: Seq<char>, tag: Seq<char>) -> (Seq<char>, Option<Seq<char>>) {
    let sub = text::after_first_spec(l, tag);
    let tid = "tid="@ + text::before_first_spec(sub, " "@);
    let name = if text::contains_spec(sub, "("@) && text::contains_spec(sub, ")"@) {
        Some(text::before_first_spec(text::after_first_spec(sub, "("@), ")"@))
    } else {
        None
    };
    (tid, name)
}

/// What one line adds to a lock record: a waiting object, else a locked
/// object, and independently a waiting thread.
pub open spec fn lock_line_step(r: LockRecordView, l: Seq<char>) -> LockRecordView {
    let r1 = if text::contains_spec(l, "waiting to lock <"@) {
        LockRecordView {
            waiting_objects: r.waiting_objects.push(object_after(l, "waiting to lock <"@)),
            ..r
        }
    } else if text::contains_spec(l, "- locked <"@) {
        LockRecordView {
            locked_objects: r.locked_objects.push(object_after(l, "- locked <"@)),
            ..r
        }
    } else {
        r
    };
    match held_tag_of(l) {
        Some(tag) => LockRecordView {
            waiting_threads: r1.waiting_threads.push(held_thread_of(l, tag)),
            ..r1
        },
        None => r1,
    }
}

/// The record built by feeding the lines to the extractor in order, starting
/// from `r`.
pub open spec fn record_of_lines(r: LockRecordView, ls: Seq<Seq<char>>) -> LockRecordView
    decreases ls.len(),
{
    if ls.len() == 0 {
        r
    } else {
        record_of_lines(lock_line_step(r, ls[0]), ls.drop_first())
    }
}

pub open spec fn is_waiting_line(l: Seq<char>) -> bool {
    text::contains_spec(l, "waiting to lock <"@)
}

pub open spec fn is_locked_line(l: Seq<char>) -> bool {
    text::contains_spec(l, "- locked <"@) && !is_waiting_line(l)
}

/// The waiting objects contributed by a sequence of lines, in source order.
pub open spec fn waiting_objects_of(ls: Seq<Seq<char>>) -> Seq<Seq<char>>
    decreases ls.len(),
{
    if ls.len() == 0 {
        Seq::empty()
    } else {
        let head: Seq<Seq<char>> = if is_waiting_line(ls[0]) {
            seq![object_after(ls[0], "waiting to lock <"@)]
        } else {
            Seq::empty()
        };
        head + waiting_objects_of(ls.drop_first())
    }
}

/// The locked objects contributed by a sequence of lines, in source order.
pub open spec fn locked_objects_of(ls: Seq<Seq<char>>) -> Seq<Seq<char>>
    decreases ls.len(),
{
    if ls.len() == 0 {
        Seq::empty()
    } else {
        let head: Seq<Seq<char>> = if is_locked_line(ls[0]) {
            seq![object_after(ls[0], "- locked <"@)]
        } else {
            Seq::empty()
        };
        head + locked_objects_of(ls.drop_first())
    }
}

/// The thread attributions contributed by a sequence of lines, in source order.
pub open spec fn waiting_threads_of(ls: Seq<Seq<char>>) -> Seq<(Seq<char>, Option<Seq<char>>)>
    decreases ls.len(),
{
    if ls.len() == 0 {
        Seq::empty()
    } else {
        let head: Seq<(Seq<char>, Option<Seq<char>>)> = match held_tag_of(ls[0]) {
            Some(tag) => seq![held_thread_of(ls[0], tag)],
            None => Seq::empty(),
        };
        head + waiting_threads_of(ls.drop_first())
    }
}

/// Feeding lines to the extractor appends exactly the per-line contributions,
/// in source order, to each of the three lists.
pub proof fn lemma_record_of_lines_parts(r: LockRecordView, ls: Seq<Seq<char>>)
    ensures
        record_of_lines(r, ls).locked_objects == r.locked_objects + locked_objects_of(ls),
        record_of_lines(r, ls).waiting_objects == r.waiting_objects + waiting_objects_of(ls),
        record_of_lines(r, ls).waiting_threads == r.waiting_threads + waiting_threads_of(ls),
    decreases ls.len(),
{
    if ls.len() == 0 {
        assert(r.locked_objects + locked_objects_of(ls) =~= r.locked_objects);
        assert(r.waiting_objects + waiting_objects_of(ls) =~= r.waiting_objects);
        assert(r.waiting_threads + waiting_threads_of(ls) =~= r.waiting_threads);
    } else {
        let r1 = lock_line_step(r, ls[0]);
        lemma_record_of_lines_parts(r1, ls.drop_first());
        assert(r1.locked_objects + locked_objects_of(ls.drop_first()) =~= r.locked_objects
            + locked_objects_of(ls));
        assert(r1.waiting_objects + waiting_objects_of(ls.drop_first()) =~= r.waiting_objects
            + waiting_objects_of(ls));
        assert(r1.waiting_threads + waiting_threads_of(ls.drop_first()) =~= r.waiting_threads
            + waiting_threads_of(ls));
    }
}

/// The law of the Lock Record Extractor: a record built from a frame block
/// holds exactly the objects and thread attributions its lines name, each
/// list in source order, and nothing else (see the provenance lemmas below
/// for where each entry comes from).
pub proof fn lemma_lock_record_from_block(ls: Seq<Seq<char>>)
    ensures
        record_of_lines(empty_record(), ls).locked_objects == locked_objects_of(ls),
        record_of_lines(empty_record(), ls).waiting_objects == waiting_objects_of(ls),
        record_of_lines(empty_record(), ls).waiting_threads == waiting_threads_of(ls),
{
    lemma_record_of_lines_parts(empty_record(), ls);
    assert(empty_record().locked_objects + locked_objects_of(ls) =~= locked_objects_of(ls));
    assert(empty_record().waiting_objects + waiting_objects_of(ls) =~= waiting_objects_of(ls));
    assert(empty_record().waiting_threads + waiting_threads_of(ls) =~= waiting_threads_of(ls));
}

/// Every extracted waiting object comes verbatim from an input line that
/// names it after its `waiting to lock <` marker.
pub proof fn lemma_waiting_object_from_line(ls: Seq<Seq<char>>, k: int)
    requires
        0 <= k < waiting_objects_of(ls).len(),
    ensures
        exists|i: int|
            #![trigger ls[i]]
            0 <= i < ls.len() && is_waiting_line(ls[i]) && waiting_objects_of(ls)[k]
                == object_after(ls[i], "waiting to lock <"@),
    decreases ls.len(),
{
    assert(ls.len() > 0);
    let head_len: int = if is_waiting_line(ls[0]) {
        1
    } else {
        0
    };
    if is_waiting_line(ls[0]) && k == 0 {
        assert(0 <= 0 < ls.len() && is_waiting_line(ls[0]) && waiting_objects_of(ls)[0]
            == object_after(ls[0], "waiting to lock <"@));
    } else {
        assert(waiting_objects_of(ls)[k] == waiting_objects_of(ls.drop_first())[k - head_len]);
        lemma_waiting_object_from_line(ls.drop_first(), k - head_len);
        let i2 = choose|i2: int|
            #![trigger ls.drop_first()[i2]]
            0 <= i2 < ls.drop_first().len() && is_waiting_line(ls.drop_first()[i2])
                && waiting_objects_of(ls.drop_first())[k - head_len] == object_after(
                ls.drop_first()[i2],
                "waiting to lock <"@,
            );
        assert(ls[i2 + 1] == ls.drop_first()[i2]);
    }
}

/// Every extracted locked object comes verbatim from an input line that
/// names it after its `- locked <` marker.
pub proof fn lemma_locked_object_from_line(ls: Seq<Seq<char>>, k: int)
    requires
        0 <= k < locked_objects_of(ls).len(),
    ensures
        exists|i: int|
            #![trigger ls[i]]
            0 <= i < ls.len() && is_locked_line(ls[i]) && locked_objects_of(ls)[k] == object_after(
                ls[i],
                "- locked <"@,
            ),
    decreases ls.len(),
{
    assert(ls.len() > 0);
    let head_len: int = if is_locked_line(ls[0]) {
        1
    } else {
        0
    };
    if is_locked_line(ls[0]) && k == 0 {
        assert(0 <= 0 < ls.len() && is_locked_line(ls[0]) && locked_objects_of(ls)[0]
            == object_after(ls[0], "- locked <"@));
    } else {
        assert(locked_objects_of(ls)[k] == locked_objects_of(ls.drop_first())[k - head_len]);
        lemma_locked_object_from_line(ls.drop_first(), k - head_len);
        let i2 = choose|i2: int|
            #![trigger ls.drop_first()[i2]]
            0 <= i2 < ls.drop_first().len() && is_locked_line(ls.drop_first()[i2])
                && locked_objects_of(ls.drop_first())[k - head_len] == object_after(
                ls.drop_first()[i2],
                "- locked <"@,
            );
        assert(ls[i2 + 1] == ls.drop_first()[i2]);
    }
}

/// Every extracted thread attribution comes verbatim from an input line that
/// carries a `held by` marker.
pub proof fn lemma_waiting_thread_from_line(ls: Seq<Seq<char>>, k: int)
    requires
        0 <= k < waiting_threads_of(ls).len(),
    ensures
        exists|i: int|
            #![trigger ls[i]]
            0 <= i < ls.len() && held_tag_of(ls[i]) is Some && waiting_threads_of(ls)[k]
                == held_thread_of(ls[i], held_tag_of(ls[i])->0),
    decreases ls.len(),
{
    assert(ls.len() > 0);
    let head_len: int = if held_tag_of(ls[0]) is Some {
        1
    } else {
        0
    };
    if held_tag_of(ls[0]) is Some && k == 0 {
        assert(0 <= 0 < ls.len() && held_tag_of(ls[0]) is Some && waiting_threads_of(ls)[0]
            == held_thread_of(ls[0], held_tag_of(ls[0])->0));
    } else {
        assert(waiting_threads_of(ls)[k] == waiting_threads_of(ls.drop_first())[k - head_len]);
        lemma_waiting_thread_from_line(ls.drop_first(), k - head_len);
        let i2 = choose|i2: int|
            #![trigger ls.drop_first()[i2]]
            0 <= i2 < ls.drop_first().len() && held_tag_of(ls.drop_first()[i2]) is Some
                && waiting_threads_of(ls.drop_first())[k - head_len] == held_thread_of(
                ls.drop_first()[i2],
                held_tag_of(ls.drop_first()[i2])->0,
            );
        assert(ls[i2 + 1] == ls.drop_first()[i2]);
    }
}

// ---------------------------------------------------------------------------
// Header lines and time extraction.
// ---------------------------------------------------------------------------
/// The time literal of a process header, sliced between the first `at` and
/// the trailing (last) ` -----`.
pub open spec fn header_time_spec(l: Seq<char>) -> Option<Seq<char>> {
    match (text::find_spec(l, "at"@), text::rfind_spec(l, " -----"@)) {
        (Some(s), Some(e)) => if s + 3 <= e {
            Some(l.subrange(s + 3, e))
        } else {
            None
        },
        _ => None,
    }
}

/// The time literal of a process header, sliced between the first `at` and
/// the first ` -----`, as the chain-hop gate reads it.
pub open spec fn header_time_first_spec(l: Seq<char>) -> Option<Seq<char>> {
    match (text::find_spec(l, "at"@), text::find_spec(l, " -----"@)) {
        (Some(s), Some(e)) => if s + 3 < e {
            Some(l.subrange(s + 3, e))
        } else {
            None
        },
        _ => None,
    }
}

/// A line whose text names one of the waiting threads: it contains the
/// thread's id and, when a name is required, that name too.
pub open spec fn thread_line_matches(
    l: Seq<char>,
    threads: Seq<(Seq<char>, Option<Seq<char>>)>,
) -> bool {
    exists|k: int|
        0 <= k < threads.len() && text::contains_spec(l, threads[k].0) && (threads[k].1 matches Some(
            n,
        ) ==> text::contains_spec(l, n))
}

// ---------------------------------------------------------------------------
// The analyzer state.
// ---------------------------------------------------------------------------
/// The streaming state of one resolution run: the process headers last seen,
/// the headers last written to the output, the incident being resolved, the
/// memo of objects confirmed held somewhere, and the two time-window
/// tolerances.
#[derive(Debug)]
pub struct TraceAnalysis {
    current_pid_line: String,
    current_cmd_line: String,
    last_pid_line: String,
    last_cmd_line: String,
    current_log_bean: Option<LogItemBean>,
    lock_map: Vec<(String, bool)>,
    locate_tolerance_ms: i64,
    hop_tolerance_ms: i64,
}

/// The mathematical content of a `TraceAnalysis`.
#[verifier::ext_equal]
pub struct TraceAnalysisView {
    pub current_pid_line: Seq<char>,
    pub current_cmd_line: Seq<char>,
    pub last_pid_line: Seq<char>,
    pub last_cmd_line: Seq<char>,
    pub current_log_bean: Option<LogItemView>,
    pub lock_map: Seq<(Seq<char>, bool)>,
    pub locate_tolerance_ms: int,
    pub hop_tolerance_ms: int,
}

impl View for TraceAnalysis {
    type V = TraceAnalysisView;

    closed spec fn view(&self) -> TraceAnalysisView {
        TraceAnalysisView {
            current_pid_line: self.current_pid_line@,
            current_cmd_line: self.current_cmd_line@,
            last_pid_line: self.last_pid_line@,
            last_cmd_line: self.last_cmd_line@,
            current_log_bean: match self.current_log_bean {
                Some(ref b) => Some(b@),
                None => None,
            },
            lock_map: Seq::new(
                self.lock_map@.len(),
                |i: int| (self.lock_map@[i].0@, self.lock_map@[i].1),
            ),
            locate_tolerance_ms: self.locate_tolerance_ms as int,
            hop_tolerance_ms: self.hop_tolerance_ms as int,
        }
    }
}

/// Lookup in the confirmed-held memo: the value of the first entry with the
/// given key.
pub open spec fn lock_map_find(m: Seq<(Seq<char>, bool)>, key: Seq<char>) -> Option<bool>
    decreases m.len(),
{
    if m.len() == 0 {
        None
    } else if m[0].0 == key {
        Some(m[0].1)
    } else {
        lock_map_find(m.drop_first(), key)
    }
}

pub open spec fn fresh_analysis(locate_ms: int, hop_ms: int) -> TraceAnalysisView {
    TraceAnalysisView {
        current_pid_line: Seq::empty(),
        current_cmd_line: Seq::empty(),
        last_pid_line: Seq::empty(),
        last_cmd_line: Seq::empty(),
        current_log_bean: None,
        lock_map: Seq::empty(),
        locate_tolerance_ms: locate_ms,
        hop_tolerance_ms: hop_ms,
    }
}

impl TraceAnalysis {
    /// A fresh analyzer with the default time-window tolerances: 30000 ms for
    /// the initial locate, 21000 ms for every later chain hop.
    pub fn new() -> (r: TraceAnalysis)
        ensures
            r@ == fresh_analysis(30000, 21000),
    {
        let r = TraceAnalysis {
            current_pid_line: String::new(),
            current_cmd_line: String::new(),
            last_pid_line: String::new(),
            last_cmd_line: String::new(),
            current_log_bean: None,
            lock_map: Vec::new(),
            locate_tolerance_ms: 30000,
            hop_tolerance_ms: 21000,
        };
        proof {
            assert(r@ =~= fresh_analysis(30000, 21000));
        }
        r
    }

    /// Changes the two time-window tolerances; they are calibration values,
    /// not structural constants.
    pub fn set_tolerances(&mut self, locate_ms: i64, hop_ms: i64)
        ensures
            final(self)@ == (TraceAnalysisView {
                locate_tolerance_ms: locate_ms as int,
                hop_tolerance_ms: hop_ms as int,
                ..old(self)@
            }),
    {
        self.locate_tolerance_ms = locate_ms;
        self.hop_tolerance_ms = hop_ms;
        proof {
            assert(self@ =~= (TraceAnalysisView {
                locate_tolerance_ms: locate_ms as int,
                hop_tolerance_ms: hop_ms as int,
                ..old(self)@
            }));
        }
    }

    fn set_current_pid_line(&mut self, pid_line: String)
        ensures
            final(self)@ == (TraceAnalysisView { current_pid_line: pid_line@, ..old(self)@ }),
    {
        self.current_pid_line = pid_line;
        proof {
            assert(self@ =~= (TraceAnalysisView { current_pid_line: pid_line@, ..old(self)@ }));
        }
    }

    fn get_current_pid_line(&self) -> (r: &str)
        ensures
            r@ == self@.current_pid_line,
    {
        self.current_pid_line.as_str()
    }

    fn set_current_cmd_line(&mut self, cmd_line: String)
        ensures
            final(self)@ == (TraceAnalysisView { current_cmd_line: cmd_line@, ..old(self)@ }),
    {
        self.current_cmd_line = cmd_line;
        proof {
            assert(self@ =~= (TraceAnalysisView { current_cmd_line: cmd_line@, ..old(self)@ }));
        }
    }

    fn get_current_cmd_line(&self) -> (r: &str)
        ensures
            r@ == self@.current_cmd_line,
    {
        self.current_cmd_line.as_str()
    }

    fn set_last_pid_line(&mut self, pid_line: String)
        ensures
            final(self)@ == (TraceAnalysisView { last_pid_line: pid_line@, ..old(self)@ }),
    {
        self.last_pid_line = pid_line;
        proof {
            assert(self@ =~= (TraceAnalysisView { last_pid_line: pid_line@, ..old(self)@ }));
        }
    }

    fn get_last_pid_line(&self) -> (r: &str)
        ensures
            r@ == self@.last_pid_line,
    {
        self.last_pid_line.as_str()
    }

    fn set_last_cmd_line(&mut self, cmd_line: String)
        ensures
            final(self)@ == (TraceAnalysisView { last_cmd_line: cmd_line@, ..old(self)@ }),
    {
        self.last_cmd_line = cmd_line;
        proof {
            assert(self@ =~= (TraceAnalysisView { last_cmd_line: cmd_line@, ..old(self)@ }));
        }
    }

    fn get_last_cmd_line(&self) -> (r: &str)
        ensures
            r@ == self@.last_cmd_line,
    {
        self.last_cmd_line.as_str()
    }

    fn set_current_log_bean(&mut self, log_bean: LogItemBean)
        ensures
            final(self)@ == (TraceAnalysisView {
                current_log_bean: Some(log_bean@),
                ..old(self)@
            }),
    {
        self.current_log_bean = Some(log_bean);
        proof {
            assert(self@ =~= (TraceAnalysisView {
                current_log_bean: Some(log_bean@),
                ..old(self)@
            }));
        }
    }

    fn get_current_log_bean(&self) -> (r: Option<&LogItemBean>)
        ensures
            match r {
                Some(b) => self@.current_log_bean == Some(b@),
                None => self@.current_log_bean is None,
            },
    {
        self.current_log_bean.as_ref()
    }

    /// Records in the memo that `key` maps to `value`, replacing the first
    /// earlier entry for `key` if one exists.
    fn set_lock_map_value(&mut self, key: String, value: bool)
        ensures
            lock_map_find(final(self)@.lock_map, key@) == Some(value),
            forall|k2: Seq<char>| k2 != key@ ==> lock_map_find(final(self)@.lock_map, k2)
                == lock_map_find(old(self)@.lock_map, k2),
            final(self)@ == (TraceAnalysisView { lock_map: final(self)@.lock_map, ..old(self)@ }),
    {
        let n = self.lock_map.len();
        let mut i: usize = 0;
        while i < n
            invariant
                n == self.lock_map@.len(),
                0 <= i <= n,
                forall|j: int| 0 <= j < i ==> self.lock_map@[j].0@ != key@,
                *self == *old(self),
            decreases n - i,
        {
            if text::str_eq(self.lock_map[i].0.as_str(), key.as_str()) {
                let v = &mut self.lock_map[i];
                v.1 = value;
                proof {
                    assert(self@.lock_map =~= old(self)@.lock_map.update(i as int, (key@, value)));
                    lemma_lock_map_update(
                        old(self)@.lock_map,
                        self@.lock_map,
                        i as int,
                        key@,
                        value,
                    );
                    assert(self@ =~= (TraceAnalysisView {
                        lock_map: self@.lock_map,
                        ..old(self)@
                    }));
                }
                return ;
            }
            i += 1;
        }
        self.lock_map.push((key, value));
        proof {
            assert(self@.lock_map =~= old(self)@.lock_map.push((key@, value)));
            lemma_lock_map_append(old(self)@.lock_map, self@.lock_map, key@, value);
            assert(self@ =~= (TraceAnalysisView { lock_map: self@.lock_map, ..old(self)@ }));
        }
    }

    /// The memo value recorded for `key`, if any.
    fn get_lock_map_value(&self, key: &str) -> (r: Option<bool>)
        ensures
            r == lock_map_find(self@.lock_map, key@),
    {
        let n = self.lock_map.len();
        proof {
            assert(self@.lock_map.skip(0) =~= self@.lock_map);
        }
        let mut i: usize = 0;
        while i < n
            invariant
                n == self.lock_map@.len(),
                0 <= i <= n,
                lock_map_find(self@.lock_map, key@) == lock_map_find(
                    self@.lock_map.skip(i as int),
                    key@,
                ),
            decreases n - i,
        {
            proof {
                assert(self@.lock_map.skip(i as int)[0] == self@.lock_map[i as int]);
                assert(self@.lock_map.skip(i as int).drop_first() =~= self@.lock_map.skip(
                    i as int + 1,
                ));
            }
            if text::str_eq(self.lock_map[i].0.as_str(), key) {
                return Some(self.lock_map[i].1);
            }
            i += 1;
        }
        proof {
            assert(self@.lock_map.skip(n as int) =~= Seq::<(Seq<char>, bool)>::empty());
        }
        None
    }

    /// Feeds one line to the Lock Record Extractor: a `waiting to lock`
    /// object, else a `- locked` object, and independently a `held by`
    /// thread attribution are appended to the record.
    pub fn get_lock_from_line(&self, line: &str, lock_bean: &mut LockBean)
        ensures
            final(lock_bean)@ == lock_line_step(old(lock_bean)@, line@),
    {
        if text::contains_str(line, "waiting to lock <") {
            let rest = text::after_first(line, "waiting to lock <");
            let upto = text::before_first(rest, ">");
            let obj = text::trim(upto);
            lock_bean.add_waiting(String::from_str(obj));
        } else if text::contains_str(line, "- locked <") {
            let rest = text::after_first(line, "- locked <");
            let upto = text::before_first(rest, ">");
            let obj = text::trim(upto);
            lock_bean.add_lock(String::from_str(obj));
        }
        let tag: Option<&str> = if text::contains_str(line, "held by tid=") {
            Some("held by tid=")
        } else if text::contains_str(line, "held by thread ") {
            Some("held by thread ")
        } else {
            None
        };
        match tag {
            Some(t) => {
                let sub = text::after_first(line, t);
                let tid_part = text::before_first(sub, " ");
                let tid = text::concat_str("tid=", tid_part);
                let name: Option<String> = if text::contains_str(sub, "(") && text::contains_str(
                    sub,
                    ")",
                ) {
                    Some(String::from_str(text::before_first(text::after_first(sub, "("), ")")))
                } else {
                    None
                };
                lock_bean.add_waiting_thread(tid, name);
            },
            None => {},
        }
    }

    /// Whether the line names any of the search markers.
    pub fn contain_special_lock(&self, line: &str, search_lock: &Vec<String>) -> (r: bool)
        ensures
            r == exists|k: int|
                0 <= k < search_lock.deep_view().len() && text::contains_spec(
                    line@,
                    search_lock.deep_view()[k],
                ),
    {
        let n = search_lock.len();
        let mut i: usize = 0;
        while i < n
            invariant
                n == search_lock.deep_view().len(),
                0 <= i <= n,
                forall|k: int| 0 <= k < i ==> !text::contains_spec(
                    line@,
                    search_lock.deep_view()[k],
                ),
            decreases n - i,
        {
            proof {
                assert(search_lock.deep_view()[i as int] == search_lock@[i as int]@);
            }
            if text::contains_str(line, search_lock[i].as_str()) {
                return true;
            }
            i += 1;
        }
        false
    }
}


// ---------------------------------------------------------------------------
// Output buffer and header bookkeeping.
// ---------------------------------------------------------------------------
/// What the output gains from one line: the line itself unless it is blank.
pub open spec fn pushed_line(out: Seq<Seq<char>>, l: Seq<char>) -> Seq<Seq<char>> {
    if text::trim_spec(l).len() > 0 {
        out.push(l)
    } else {
        out
    }
}

/// Appends one line to the reconstruction output, skipping blank lines.
pub fn push_line(out: &mut Vec<String>, line: &str)
    ensures
        final(out).deep_view() == pushed_line(old(out).deep_view(), line@),
{
    let t = text::trim(line);
    if t.unicode_len() > 0 {
        out.push(String::from_str(line));
        proof {
            assert(out.deep_view() =~= old(out).deep_view().push(line@));
        }
    }
}

/// The header lines owed to the output at a block boundary: the current pid
/// and cmd lines, each if non-blank and not the one last written.
pub open spec fn process_info_spec(v: TraceAnalysisView) -> Seq<Seq<char>> {
    let a: Seq<Seq<char>> = if text::trim_spec(v.current_pid_line).len() > 0 && v.current_pid_line
        != v.last_pid_line {
        seq![v.current_pid_line]
    } else {
        Seq::empty()
    };
    let b: Seq<Seq<char>> = if text::trim_spec(v.current_cmd_line).len() > 0 && v.current_cmd_line
        != v.last_cmd_line {
        seq![v.current_cmd_line]
    } else {
        Seq::empty()
    };
    a + b
}

/// The view of a list of thread attributions.
pub open spec fn threads_view(held: Seq<HeldThread>) -> Seq<(Seq<char>, Option<Seq<char>>)> {
    Seq::new(held.len(), |i: int| held[i]@)
}

impl TraceAnalysis {
    /// Writes the current process headers to the output, once each: a header
    /// equal to the one last written is not repeated.
    pub fn write_process_info(&self, out: &mut Vec<String>)
        ensures
            final(out).deep_view() == old(out).deep_view() + process_info_spec(self@),
    {
        let mut wrote_pid = false;
        if !crate::file_utils::is_empty(self.current_pid_line.as_str()) && !text::str_eq(
            self.current_pid_line.as_str(),
            self.last_pid_line.as_str(),
        ) {
            out.push(self.current_pid_line.clone());
            wrote_pid = true;
        }
        if !crate::file_utils::is_empty(self.current_cmd_line.as_str()) && !text::str_eq(
            self.current_cmd_line.as_str(),
            self.last_cmd_line.as_str(),
        ) {
            out.push(self.current_cmd_line.clone());
        }
        proof {
            assert(out.deep_view() =~= old(out).deep_view() + process_info_spec(self@));
        }
    }

    /// Whether a thread-header line is the snapshot of one of the waiting
    /// threads, within the chain-hop time window.  The name-and-id match is a
    /// function of the line; the time gate goes through the clock when a time
    /// lacks its year, so for such times only a positive answer is
    /// characterized.
    pub fn check_thread_model(&self, line: &str, held_threads: &Vec<HeldThread>) -> (r: bool)
        ensures
            (text::trim_spec(line@).len() > 0 && held_threads@.len() > 0 && thread_line_matches(
                line@,
                threads_view(held_threads@),
            ) && (self@.current_log_bean matches Some(b) && b.time is None)) ==> r == false,
            text::trim_spec(line@).len() == 0 ==> r == false,
            text::trim_spec(line@).len() > 0 && held_threads@.len() == 0 ==> r == true,
            (text::trim_spec(line@).len() > 0 && held_threads@.len() > 0
                && !thread_line_matches(line@, threads_view(held_threads@))) ==> r == false,
            (text::trim_spec(line@).len() > 0 && held_threads@.len() > 0 && thread_line_matches(
                line@,
                threads_view(held_threads@),
            ) && !(header_time_first_spec(self@.current_pid_line) is Some
                && self@.current_log_bean is Some)) ==> r == false,
            (text::trim_spec(line@).len() > 0 && held_threads@.len() > 0 && thread_line_matches(
                line@,
                threads_view(held_threads@),
            ) && header_time_first_spec(self@.current_pid_line) is Some
                && self@.current_log_bean is Some && self@.current_log_bean->0.time is Some
                && full_time(
                self@.current_log_bean->0.time->0,
            ) && full_time(header_time_first_spec(self@.current_pid_line)->0)) ==> r
                == in_frame_full(
                self@.current_log_bean->0.time->0,
                header_time_first_spec(self@.current_pid_line)->0,
                self@.hop_tolerance_ms,
            ),
            (text::trim_spec(line@).len() > 0 && held_threads@.len() > 0 && thread_line_matches(
                line@,
                threads_view(held_threads@),
            ) && header_time_first_spec(self@.current_pid_line) is Some
                && self@.current_log_bean is Some && r) ==> exists|year: Seq<char>| in_frame_spec(
                self@.current_log_bean->0.time->0,
                header_time_first_spec(self@.current_pid_line)->0,
                self@.hop_tolerance_ms,
                year,
            ),
    {
        if crate::file_utils::is_empty(line) {
            return false;
        }
        if held_threads.len() == 0 {
            return true;
        }
        let ghost threads = threads_view(held_threads@);
        let n = held_threads.len();
        let mut is_in_model = false;
        let mut i: usize = 0;
        while i < n && !is_in_model
            invariant
                n == held_threads@.len(),
                threads == threads_view(held_threads@),
                0 <= i <= n,
                is_in_model ==> thread_line_matches(line@, threads),
                !is_in_model ==> forall|k: int| 0 <= k < i ==> !(text::contains_spec(
                    line@,
                    threads[k].0,
                ) && (threads[k].1 matches Some(nm) ==> text::contains_spec(line@, nm))),
            decreases n - i + (if is_in_model {
                0int
            } else {
                1int
            }),
        {
            proof {
                assert(threads[i as int] == held_threads@[i as int]@);
            }
            if text::contains_str(line, held_threads[i].tid.as_str()) {
                match &held_threads[i].thread_name {
                    Some(name) => {
                        if text::contains_str(line, name.as_str()) {
                            is_in_model = true;
                        }
                    },
                    None => {
                        is_in_model = true;
                    },
                }
            }
            if !is_in_model {
                i += 1;
            }
        }
        if !is_in_model {
            proof {
                assert(!thread_line_matches(line@, threads));
            }
            return false;
        }
        let pid_line = self.current_pid_line.as_str();
        let s = match text::find_str(pid_line, "at") {
            Some(s) => s,
            None => {
                return false;
            },
        };
        let e = match text::find_str(pid_line, " -----") {
            Some(e) => e,
            None => {
                return false;
            },
        };
        proof {
            text::lemma_find_from_some(pid_line@, "at"@, 0, s as int);
            text::lemma_find_from_some(pid_line@, " -----"@, 0, e as int);
        }
        if e > 3 && s < e - 3 {
            let time = pid_line.substring_char(s + 3, e);
            proof {
                assert(header_time_first_spec(self@.current_pid_line) == Some(time@));
            }
            let r = match self.get_current_log_bean() {
                Some(log_bean) => match log_bean.get_time() {
                    Some(_) => log_bean.time_in_frame(time, self.hop_tolerance_ms),
                    None => false,
                },
                None => false,
            };
            proof {
                if r {
                    let y = choose|y: Seq<char>|
                        in_frame_spec(
                            self@.current_log_bean->0.time->0,
                            time@,
                            self@.hop_tolerance_ms,
                            y,
                        );
                    assert(in_frame_spec(
                        self@.current_log_bean->0.time->0,
                        header_time_first_spec(self@.current_pid_line)->0,
                        self@.hop_tolerance_ms,
                        y,
                    ));
                }
            }
            r
        } else {
            false
        }
    }

    /// Rebuilds `lock_bean` from the buffered lines of an owner's block: the
    /// record is cleared, every buffered line is appended to the output, and
    /// the extractor runs over them in order.  An empty buffer leaves
    /// everything unchanged.
    pub fn get_lock_from_model(
        &self,
        lock_bean: &mut LockBean,
        model_lines: &Vec<String>,
        out: &mut Vec<String>,
    )
        ensures
            model_lines@.len() == 0 ==> final(lock_bean)@ == old(lock_bean)@,
            model_lines@.len() == 0 ==> final(out).deep_view() == old(out).deep_view(),
            model_lines@.len() > 0 ==> final(lock_bean)@ == record_of_lines(
                empty_record(),
                model_lines.deep_view(),
            ),
            model_lines@.len() > 0 ==> final(out).deep_view() == old(out).deep_view()
                + model_lines.deep_view(),
    {
        let n = model_lines.len();
        if n == 0 {
            return ;
        }
        lock_bean.clear();
        let mut i: usize = 0;
        while i < n
            invariant
                n == model_lines@.len(),
                0 <= i <= n,
                lock_bean@ == record_of_lines(
                    empty_record(),
                    model_lines.deep_view().subrange(0, i as int),
                ),
                out.deep_view() == old(out).deep_view() + model_lines.deep_view().subrange(
                    0,
                    i as int,
                ),
            decreases n - i,
        {
            proof {
                assert(model_lines.deep_view().subrange(0, i as int).push(
                    model_lines.deep_view()[i as int],
                ) =~= model_lines.deep_view().subrange(0, i + 1));
                lemma_record_of_lines_snoc(
                    empty_record(),
                    model_lines.deep_view().subrange(0, i as int),
                    model_lines.deep_view()[i as int],
                );
                assert(model_lines.deep_view()[i as int] == model_lines@[i as int]@);
            }
            let ghost out_pre = out.deep_view();
            out.push(String::from_str(model_lines[i].as_str()));
            proof {
                assert(out.deep_view() =~= out_pre.push(model_lines.deep_view()[i as int]));
                assert(out_pre.push(model_lines.deep_view()[i as int]) =~= old(
                    out,
                ).deep_view() + model_lines.deep_view().subrange(0, i + 1));
            }
            self.get_lock_from_line(model_lines[i].as_str(), lock_bean);
            i += 1;
        }
        proof {
            assert(model_lines.deep_view().subrange(0, n as int) =~= model_lines.deep_view());
        }
    }
}

// ---------------------------------------------------------------------------
// The owner scan: the model of one chain-walk round.
// ---------------------------------------------------------------------------
/// One of the markers occurs in the line.
pub open spec fn contains_any(l: Seq<char>, markers: Seq<Seq<char>>) -> bool {
    exists|k: int| 0 <= k < markers.len() && text::contains_spec(l, markers[k])
}

/// The search markers of a record: one `- locked <OBJ>` literal per waited
/// object.
pub open spec fn search_markers(objs: Seq<Seq<char>>) -> Seq<Seq<char>> {
    objs.map_values(|o: Seq<char>| "- locked <"@ + o + ">"@)
}

/// The chain-hop gate on a thread header: with no thread attributions any
/// block passes; otherwise the header must name one of the waiting threads
/// and the process header last seen must carry a time within the hop window
/// of the incident\'s time.
pub open spec fn hop_gate(
    header: Seq<char>,
    pid_line: Seq<char>,
    threads: Seq<(Seq<char>, Option<Seq<char>>)>,
    bean: Option<LogItemView>,
    hop: int,
) -> bool {
    if threads.len() == 0 {
        true
    } else if !thread_line_matches(header, threads) {
        false
    } else {
        match (header_time_first_spec(pid_line), bean) {
            (Some(t2), Some(b)) => b.time matches Some(t1) && in_frame_full(t1, t2, hop),
            _ => false,
        }
    }
}

/// The owner scan: the first thread header at or after `i` that passes the
/// gate, together with the process headers as they then stand.
pub open spec fn owner_pass_from(
    lines: Seq<Seq<char>>,
    i: int,
    pid_line: Seq<char>,
    cmd_line: Seq<char>,
    threads: Seq<(Seq<char>, Option<Seq<char>>)>,
    bean: Option<LogItemView>,
    hop: int,
) -> Option<(int, Seq<char>, Seq<char>)>
    decreases lines.len() - i + 1,
{
    if i < 0 || i >= lines.len() {
        None
    } else {
        let t = text::trim_spec(lines[i]);
        if t.len() == 0 {
            owner_pass_from(lines, i + 1, pid_line, cmd_line, threads, bean, hop)
        } else {
            let pid2 = if text::match_at(t, "----- pid "@, 0) {
                t
            } else {
                pid_line
            };
            let cmd2 = if text::match_at(t, "Cmd line: "@, 0) {
                t
            } else {
                cmd_line
            };
            if text::match_at(t, "\""@, 0) {
                if hop_gate(t, pid2, threads, bean, hop) {
                    Some((i, pid2, cmd2))
                } else {
                    owner_pass_from(lines, i + 1, pid2, cmd2, threads, bean, hop)
                }
            } else {
                owner_pass_from(lines, i + 1, pid2, cmd2, threads, bean, hop)
            }
        }
    }
}

/// The trimmed, non-blank lines buffered after an accepted header: through
/// the first line naming a waited-for object, stopping before the next
/// header.
pub open spec fn buffer_rest(lines: Seq<Seq<char>>, i: int, markers: Seq<Seq<char>>) -> Seq<
    Seq<char>,
>
    decreases lines.len() - i + 1,
{
    if i < 0 || i >= lines.len() {
        Seq::empty()
    } else {
        let t = text::trim_spec(lines[i]);
        if t.len() == 0 {
            buffer_rest(lines, i + 1, markers)
        } else if text::match_at(t, "\""@, 0) {
            Seq::empty()
        } else {
            seq![t] + (if contains_any(t, markers) {
                Seq::empty()
            } else {
                buffer_rest(lines, i + 1, markers)
            })
        }
    }
}

/// The owner block one round buffers, if any: the process headers, the
/// accepted thread header, then the block\'s lines up to (and including) the
/// first that names a waited-for object.
pub open spec fn owner_buffer(
    lines: Seq<Seq<char>>,
    pid0: Seq<char>,
    cmd0: Seq<char>,
    threads: Seq<(Seq<char>, Option<Seq<char>>)>,
    bean: Option<LogItemView>,
    hop: int,
    markers: Seq<Seq<char>>,
) -> Option<Seq<Seq<char>>> {
    match owner_pass_from(lines, 0, pid0, cmd0, threads, bean, hop) {
        Some(hpc) => {
            let t = text::trim_spec(lines[hpc.0]);
            Some(
                seq![hpc.1, hpc.2, t] + (if contains_any(t, markers) {
                    Seq::empty()
                } else {
                    buffer_rest(lines, hpc.0 + 1, markers)
                }),
            )
        },
        None => None,
    }
}

/// Every time the chain-hop gate can compare carries its own year, so the
/// clock plays no part in the scan.
pub open spec fn hop_times_full(
    lines: Seq<Seq<char>>,
    pid0: Seq<char>,
    bean: Option<LogItemView>,
) -> bool {
    &&& (bean matches Some(b) ==> (b.time matches Some(t) ==> full_time(t)))
    &&& (header_time_first_spec(pid0) matches Some(t) ==> full_time(t))
    &&& forall|i: int|
        #![trigger lines[i]]
        0 <= i < lines.len() ==> (header_time_first_spec(text::trim_spec(lines[i])) matches Some(
            t2,
        ) ==> full_time(t2))
}

/// What `check_thread_model`\'s contract says, assembled: under year-complete
/// times its verdict is exactly the chain-hop gate.
proof fn lemma_gate_bridge(
    r: bool,
    t: Seq<char>,
    pid_line: Seq<char>,
    threads: Seq<(Seq<char>, Option<Seq<char>>)>,
    bean: Option<LogItemView>,
    hop: int,
)
    requires
        t.len() > 0,
        threads.len() == 0 ==> r,
        threads.len() > 0 && !thread_line_matches(t, threads) ==> !r,
        (threads.len() > 0 && thread_line_matches(t, threads) && !(header_time_first_spec(
            pid_line,
        ) is Some && bean is Some)) ==> !r,
        (threads.len() > 0 && thread_line_matches(t, threads) && (bean matches Some(b) && b.time
            is None)) ==> !r,
        (threads.len() > 0 && thread_line_matches(t, threads) && header_time_first_spec(pid_line)
            is Some && bean is Some && bean->0.time is Some && full_time(bean->0.time->0)
            && full_time(header_time_first_spec(pid_line)->0)) ==> r == in_frame_full(
            bean->0.time->0,
            header_time_first_spec(pid_line)->0,
            hop,
        ),
        bean matches Some(b) ==> (b.time matches Some(tt) ==> full_time(tt)),
        header_time_first_spec(pid_line) matches Some(t2) ==> full_time(t2),
    ensures
        r == hop_gate(t, pid_line, threads, bean, hop),
{
    if threads.len() == 0 {
    } else if !thread_line_matches(t, threads) {
    } else {
        match (header_time_first_spec(pid_line), bean) {
            (Some(t2), Some(b)) => {
                match b.time {
                    Some(t1) => {
                        assert(full_time(t1));
                        assert(full_time(t2));
                    },
                    None => {},
                }
            },
            _ => {},
        }
    }
}

/// How a chain walk ended: the owner at the end of the chain is not itself
/// blocked, the evidence ran out, or a visited state recurred and a genuine
/// deadlock is suspected.
#[derive(Debug, Clone, Copy, PartialEq, Eq, Structural)]
pub enum ResolveOutcome {
    TerminalReached,
    Inconclusive,
    CycleSuspected,
}

impl TraceAnalysis {
    /// The recursive core: follows the chain of lock owners.  Each round
    /// re-scans the cursor from the start for the first block whose header
    /// names one of the waiting threads and lies in the chain-hop time
    /// window, buffers that block (stopping at a line that holds one of the
    /// waited-for objects), rebuilds the record from the buffer, and goes
    /// round again.  A record with no waiting objects ends the walk; a round
    /// that buffers nothing ends it as `Inconclusive`; a revisited
    /// (thread, object) pair, or a walk longer than the input itself, ends it
    /// as `CycleSuspected`.  The saved process headers are restored after
    /// every round.  When every time the hop gate can compare carries its
    /// year, the first round is characterized exactly: which block is
    /// buffered (`owner_buffer`), that its lines reach the output, and that
    /// the walk ends at once when the rebuilt record waits on nothing.
    #[verifier::loop_isolation(false)]
    #[verifier::rlimit(60)]
    pub fn analyse_trace_by_lock(
        &mut self,
        lock_object: &mut LockBean,
        model_lines: &mut Vec<String>,
        out: &mut Vec<String>,
        cursor: &mut LineCursor,
    ) -> (r: ResolveOutcome)
        requires
            old(cursor).wf(),
        ensures
            final(cursor).wf(),
            final(cursor).lines() == old(cursor).lines(),
            final(self)@ == (TraceAnalysisView { lock_map: final(self)@.lock_map, ..old(self)@ }),
            old(out).deep_view().is_prefix_of(final(out).deep_view()),
            old(lock_object)@.waiting_objects.len() == 0 ==> r == ResolveOutcome::TerminalReached
                && *final(lock_object) == *old(lock_object) && final(out).deep_view() == old(
                out,
            ).deep_view() && *final(self) == *old(self) && *final(model_lines) == *old(
                model_lines,
            ),
            r == ResolveOutcome::TerminalReached ==> final(lock_object)@.waiting_objects.len()
                == 0,
            r == ResolveOutcome::Inconclusive ==> final(model_lines)@.len() == 0,
            (old(lock_object)@.waiting_objects.len() > 0 && old(
                lock_object,
            )@.waiting_threads.len() > 0 && (forall|i: int|
                0 <= i < old(cursor).lines().len() ==> !thread_line_matches(
                    text::trim_spec(#[trigger] old(cursor).lines()[i]),
                    old(lock_object)@.waiting_threads,
                ))) ==> r == ResolveOutcome::Inconclusive && *final(lock_object) == *old(
                lock_object,
            ) && final(out).deep_view() == old(out).deep_view(),
            ({
                let ob = owner_buffer(
                    old(cursor).lines(),
                    old(self)@.current_pid_line,
                    old(self)@.current_cmd_line,
                    old(lock_object)@.waiting_threads,
                    old(self)@.current_log_bean,
                    old(self)@.hop_tolerance_ms,
                    search_markers(old(lock_object)@.waiting_objects),
                );
                (old(lock_object)@.waiting_objects.len() > 0 && hop_times_full(
                    old(cursor).lines(),
                    old(self)@.current_pid_line,
                    old(self)@.current_log_bean,
                )) ==> match ob {
                    None => r == ResolveOutcome::Inconclusive && *final(lock_object) == *old(
                        lock_object,
                    ) && final(out).deep_view() == old(out).deep_view(),
                    Some(buf) => {
                        &&& (old(out).deep_view() + buf).is_prefix_of(final(out).deep_view())
                        &&& (record_of_lines(empty_record(), buf).waiting_objects.len() == 0
                            ==> r == ResolveOutcome::TerminalReached && final(lock_object)@
                            == record_of_lines(empty_record(), buf) && final(out).deep_view()
                            == old(out).deep_view() + buf)
                    },
                }
            }),
    {
        if lock_object.get_waiting_objects().len() == 0 {
            return ResolveOutcome::TerminalReached;
        }
        proof {
            lemma_prefix_refl(out.deep_view());
        }
        let ghost no_thread_match = old(lock_object)@.waiting_threads.len() > 0 && (forall|i: int|
            0 <= i < old(cursor).lines().len() ==> !thread_line_matches(
                text::trim_spec(#[trigger] old(cursor).lines()[i]),
                old(lock_object)@.waiting_threads,
            ));
        let ghost ls0 = old(cursor).lines();
        let ghost pid0 = old(self)@.current_pid_line;
        let ghost cmd0 = old(self)@.current_cmd_line;
        let ghost th0 = old(lock_object)@.waiting_threads;
        let ghost bean0 = old(self)@.current_log_bean;
        let ghost hop0 = old(self)@.hop_tolerance_ms;
        let ghost markers0 = search_markers(old(lock_object)@.waiting_objects);
        let ghost fullg = hop_times_full(ls0, pid0, bean0);
        let ghost ob = owner_buffer(ls0, pid0, cmd0, th0, bean0, hop0, markers0);
        let ghost mut first_round: bool = true;
        let mut visited: Vec<(String, String)> = Vec::new();
        let mut depth = cursor.lines_len() / 2 + 2;
        loop
            invariant
                cursor.wf(),
                cursor.lines() == old(cursor).lines(),
                self@ == (TraceAnalysisView { lock_map: self@.lock_map, ..old(self)@ }),
                old(out).deep_view().is_prefix_of(out.deep_view()),
                old(lock_object)@.waiting_objects.len() > 0,
                lock_object@.waiting_objects.len() > 0,
                no_thread_match ==> *lock_object == *old(lock_object),
                no_thread_match ==> depth as int == cursor.lines().len() / 2 + 2,
                no_thread_match ==> visited@.len() == 0,
                no_thread_match ==> out.deep_view() == old(out).deep_view(),
                fullg && first_round ==> *lock_object == *old(lock_object) && out.deep_view()
                    == old(out).deep_view() && visited@.len() == 0 && depth as int
                    == cursor.lines().len() / 2 + 2,
                fullg && !first_round ==> ob is Some,
                fullg && !first_round ==> record_of_lines(
                    empty_record(),
                    ob->0,
                ).waiting_objects.len() > 0,
                fullg && !first_round ==> (old(out).deep_view() + ob->0).is_prefix_of(
                    out.deep_view(),
                ),
            decreases depth,
        {
            if depth == 0 {
                return ResolveOutcome::CycleSuspected;
            }
            depth = depth - 1;

            // The cycle guard: a (thread, object) pair seen in an earlier
            // round means the chain has come back to a state it already
            // explained.  Only earlier rounds count: one round may well name
            // the same pair twice.
            let n_threads = lock_object.get_waiting_threads().len();
            let n_objects = lock_object.get_waiting_objects().len();
            let mut round_pairs: Vec<(String, String)> = Vec::new();
            let mut ti: usize = 0;
            loop
                invariant
                    n_threads == lock_object@.waiting_threads.len(),
                    n_objects == lock_object@.waiting_objects.len(),
                    0 <= ti <= if n_threads == 0 {
                        1int
                    } else {
                        n_threads as int
                    },
                decreases (if n_threads == 0 {
                    1int
                } else {
                    n_threads as int
                }) - ti,
            {
                if n_threads == 0 && ti >= 1 {
                    break ;
                }
                if n_threads > 0 && ti >= n_threads {
                    break ;
                }
                let tid: String = if n_threads == 0 {
                    String::new()
                } else {
                    lock_object.get_waiting_threads()[ti].tid.clone()
                };
                let mut oi: usize = 0;
                while oi < n_objects
                    invariant
                        n_objects == lock_object@.waiting_objects.len(),
                        0 <= oi <= n_objects,
                        no_thread_match ==> visited@.len() == 0,
                    decreases n_objects - oi,
                {
                    let obj = lock_object.get_waiting_objects()[oi].clone();
                    if pair_seen(&visited, tid.as_str(), obj.as_str()) {
                        return ResolveOutcome::CycleSuspected;
                    }
                    round_pairs.push((tid.clone(), obj));
                    oi += 1;
                }
                ti += 1;
            }
            visited.append(&mut round_pairs);

            // Waited-for objects are confirmed held somewhere once the walk
            // chases them; the memo records that.
            let n_locked = lock_object.get_locked_objects().len();
            let mut li: usize = 0;
            while li < n_locked
                invariant
                    n_locked == lock_object@.locked_objects.len(),
                    0 <= li <= n_locked,
                    self@ == (TraceAnalysisView { lock_map: self@.lock_map, ..old(self)@ }),
                    decreases n_locked - li,
            {
                let obj = lock_object.get_locked_objects()[li].clone();
                self.set_lock_map_value(obj, true);
                li += 1;
            }

            // One search marker per waited-for object.
            let mut search_lock: Vec<String> = Vec::new();
            let mut si: usize = 0;
            while si < n_objects
                invariant
                    n_objects == lock_object@.waiting_objects.len(),
                    0 <= si <= n_objects,
                    search_lock@.len() == si,
                    forall|k: int| 0 <= k < si ==> search_lock@[k]@ == "- locked <"@
                        + lock_object@.waiting_objects[k] + ">"@,
                decreases n_objects - si,
            {
                let mut marker = String::from_str("- locked <");
                marker.append(lock_object.get_waiting_objects()[si].as_str());
                marker.append(">");
                proof {
                    assert(marker@ =~= "- locked <"@ + lock_object@.waiting_objects[si as int]
                        + ">"@);
                }
                search_lock.push(marker);
                si += 1;
            }
            proof {
                if fullg && first_round {
                    assert(search_lock.deep_view() =~= markers0);
                }
            }

            model_lines.clear();
            let temp_pid_line = String::from_str(self.get_current_pid_line());
            let temp_cmd_line = String::from_str(self.get_current_cmd_line());
            cursor.reset_to_start();

            let mut is_in_the_model = false;
            let ghost g1 = fullg && first_round;
            proof {
                reveal_strlit("----- pid ");
                reveal_strlit("Cmd line: ");
                reveal_strlit("\"");
            }
            loop
                invariant
                    cursor.wf(),
                    cursor.lines() == old(cursor).lines(),
                    self@ == (TraceAnalysisView {
                        current_pid_line: self@.current_pid_line,
                        current_cmd_line: self@.current_cmd_line,
                        lock_map: self@.lock_map,
                        ..old(self)@
                    }),
                    old(out).deep_view().is_prefix_of(out.deep_view()),
                    no_thread_match ==> *lock_object == *old(lock_object),
                    no_thread_match ==> !is_in_the_model && model_lines@.len() == 0,
                    no_thread_match ==> out.deep_view() == old(out).deep_view(),
                    g1 ==> *lock_object == *old(lock_object),
                    g1 ==> out.deep_view() == old(out).deep_view(),
                    g1 ==> search_lock.deep_view() == markers0,
                    g1 ==> (self@.current_pid_line == pid0 || exists|j: int|
                        0 <= j < ls0.len() && self@.current_pid_line == text::trim_spec(
                            #[trigger] ls0[j],
                        )),
                    g1 && !is_in_the_model ==> model_lines@.len() == 0 && owner_pass_from(
                        ls0,
                        0,
                        pid0,
                        cmd0,
                        th0,
                        bean0,
                        hop0,
                    ) == owner_pass_from(
                        ls0,
                        cursor.pos(),
                        self@.current_pid_line,
                        self@.current_cmd_line,
                        th0,
                        bean0,
                        hop0,
                    ),
                    g1 && is_in_the_model ==> ob == Some(
                        model_lines.deep_view() + buffer_rest(ls0, cursor.pos(), markers0),
                    ),
                decreases cursor.lines().len() - cursor.pos(),
            {
                let ghost pos0 = cursor.pos();
                let next = match cursor.read_next_line() {
                    Some(l) => String::from_str(l.as_str()),
                    None => {
                        break ;
                    },
                };
                proof {
                    assert(next@ == ls0[pos0]);
                }
                let trimmed = String::from_str(text::trim(next.as_str()));
                let ghost t = text::trim_spec(ls0[pos0]);
                proof {
                    assert(trimmed@ == t);
                }
                if trimmed.as_str().unicode_len() == 0 {
                    continue ;
                }
                let ghost pid_head = self@.current_pid_line;
                let ghost cmd_head = self@.current_cmd_line;
                if text::starts_with_str(trimmed.as_str(), "----- pid ") {
                    self.set_current_pid_line(trimmed.clone());
                } else if text::starts_with_str(trimmed.as_str(), "Cmd line: ") {
                    self.set_current_cmd_line(trimmed.clone());
                }
                proof {
                    if g1 {
                        // The three line prefixes are mutually exclusive, so
                        // the tracker state now matches the scan model\'s.
                        if text::match_at(t, "----- pid "@, 0) {
                            assert(t.subrange(0, 10)[0] == t[0]);
                            assert(t[0] == '-');
                            if text::match_at(t, "Cmd line: "@, 0) {
                                assert(t.subrange(0, 10)[0] == t[0]);
                                assert(t[0] == 'C');
                            }
                        }
                        if text::match_at(t, "Cmd line: "@, 0) {
                            assert(t.subrange(0, 10)[0] == t[0]);
                            assert(t[0] == 'C');
                        }
                        if text::match_at(t, "\""@, 0) {
                            assert(t.subrange(0, 1)[0] == t[0]);
                            assert(t[0] == '"');
                        }
                        assert(self@.current_pid_line == (if text::match_at(t, "----- pid "@, 0) {
                            t
                        } else {
                            pid_head
                        }));
                        assert(self@.current_cmd_line == (if text::match_at(t, "Cmd line: "@, 0) {
                            t
                        } else {
                            cmd_head
                        }));
                    }
                }
                if text::starts_with_str(trimmed.as_str(), "\"") {
                    if is_in_the_model {
                        // The buffered block ended at the next thread header.
                        proof {
                            if g1 {
                                assert(buffer_rest(ls0, pos0, markers0)
                                    =~= Seq::<Seq<char>>::empty());
                                assert(model_lines.deep_view() + buffer_rest(ls0, pos0, markers0)
                                    =~= model_lines.deep_view());
                                assert(model_lines.deep_view() + Seq::<Seq<char>>::empty()
                                    =~= model_lines.deep_view());
                            }
                        }
                        break ;
                    }
                    let held = lock_object.get_waiting_threads();
                    proof {
                        assert(threads_view(held@) =~= lock_object@.waiting_threads);
                    }
                    is_in_the_model = self.check_thread_model(trimmed.as_str(), held);
                    proof {
                        if g1 {
                            text::lemma_trim_idempotent(ls0[pos0]);
                            assert(text::trim_spec(t) == t);
                            assert(threads_view(held@) == th0);
                            if self@.current_pid_line != pid0 {
                                let j = choose|j: int|
                                    0 <= j < ls0.len() && self@.current_pid_line
                                        == text::trim_spec(ls0[j]);
                                assert(header_time_first_spec(
                                    text::trim_spec(ls0[j]),
                                ) matches Some(t2) ==> full_time(t2));
                            }
                            assert(header_time_first_spec(
                                self@.current_pid_line,
                            ) matches Some(t2) ==> full_time(t2));
                            lemma_gate_bridge(
                                is_in_the_model,
                                t,
                                self@.current_pid_line,
                                th0,
                                bean0,
                                hop0,
                            );
                        }
                    }
                    if is_in_the_model {
                        let ghost pidh = self@.current_pid_line;
                        let ghost cmdh = self@.current_cmd_line;
                        proof {
                            if g1 {
                                assert(owner_pass_from(ls0, pos0, pid_head, cmd_head, th0, bean0, hop0)
                                    == Some((pos0, pidh, cmdh)));
                                assert(ob == Some(
                                    seq![pidh, cmdh, t] + (if contains_any(t, markers0) {
                                        Seq::<Seq<char>>::empty()
                                    } else {
                                        buffer_rest(ls0, pos0 + 1, markers0)
                                    }),
                                ));
                            }
                        }
                        model_lines.push(String::from_str(self.get_current_pid_line()));
                        model_lines.push(String::from_str(self.get_current_cmd_line()));
                        proof {
                            if g1 {
                                assert(model_lines.deep_view() =~= seq![pidh, cmdh]);
                            }
                        }
                    }
                }
                if is_in_the_model {
                    let ghost model_pre = model_lines.deep_view();
                    model_lines.push(trimmed.clone());
                    proof {
                        if g1 {
                            assert(model_lines.deep_view() =~= model_pre.push(t));
                        }
                    }
                    if self.contain_special_lock(trimmed.as_str(), &search_lock) {
                        // A line holding a waited-for object: this block is
                        // the owner; buffering stops here.
                        proof {
                            if g1 {
                                assert(contains_any(t, markers0));
                                assert(ob == Some(model_lines.deep_view()));
                                assert(model_lines.deep_view() + Seq::<Seq<char>>::empty()
                                    =~= model_lines.deep_view());
                            }
                        }
                        break ;
                    }
                    proof {
                        if g1 {
                            assert(!contains_any(t, markers0));
                            if model_pre.len() == 0 {
                            } else {
                                assert((model_pre + (seq![t] + buffer_rest(ls0, pos0 + 1, markers0)))
                                    =~= (model_pre.push(t) + buffer_rest(ls0, pos0 + 1, markers0)));
                            }
                        }
                    }
                }
            }
            cursor.reset_to_start();
            self.set_current_pid_line(temp_pid_line);
            self.set_current_cmd_line(temp_cmd_line);
            proof {
                assert(self@ == (TraceAnalysisView {
                    lock_map: self@.lock_map,
                    ..old(self)@
                }));
            }

            if model_lines.len() == 0 {
                return ResolveOutcome::Inconclusive;
            }
            proof {
                if fullg && first_round {
                    assert(ob == Some(model_lines.deep_view()));
                }
            }
            let ghost out_before = out.deep_view();
            self.get_lock_from_model(lock_object, model_lines, out);
            proof {
                lemma_concat_prefix(out_before, model_lines.deep_view());
                lemma_prefix_trans(old(out).deep_view(), out_before, out.deep_view());
                if fullg && !first_round {
                    lemma_prefix_trans(
                        old(out).deep_view() + ob->0,
                        out_before,
                        out.deep_view(),
                    );
                }
            }
            if lock_object.get_waiting_objects().len() == 0 {
                proof {
                    if fullg && first_round {
                        lemma_concat_prefix(out.deep_view(), Seq::<Seq<char>>::empty());
                        assert(out.deep_view() + Seq::<Seq<char>>::empty() =~= out.deep_view());
                    }
                }
                return ResolveOutcome::TerminalReached;
            }
            proof {
                first_round = false;
            }
        }
    }
}

/// The binder scan: walks the lines accumulating, per block, whether the
/// called method, the `onTransact` marker and the dispatch marker have been
/// seen; yields the lines buffered (process headers, then the block so far,
/// trimmed) at the first line that completes all three, or nothing.
pub open spec fn binder_pass_from(
    lines: Seq<Seq<char>>,
    i: int,
    pid_line: Seq<char>,
    cmd_line: Seq<char>,
    buf: Seq<Seq<char>>,
    has_api: bool,
    has_pkg: bool,
    has_bt: bool,
    api: Seq<char>,
    transact_marker: Seq<char>,
) -> Option<Seq<Seq<char>>>
    decreases lines.len() - i + 1,
{
    if i < 0 || i >= lines.len() {
        None
    } else {
        let l = lines[i];
        let t = text::trim_spec(l);
        let pid2 = if text::match_at(l, "----- pid "@, 0) {
            t
        } else {
            pid_line
        };
        let cmd2 = if text::match_at(l, "Cmd line: "@, 0) {
            t
        } else {
            cmd_line
        };
        let hdr = text::match_at(l, "\""@, 0);
        let buf2 = if hdr {
            seq![pid2, cmd2]
        } else {
            buf
        };
        let a = (if hdr {
            false
        } else {
            has_api
        }) || text::contains_spec(l, api);
        let p = (if hdr {
            false
        } else {
            has_pkg
        }) || text::contains_spec(l, transact_marker);
        let b = (if hdr {
            false
        } else {
            has_bt
        }) || text::contains_spec(l, "android.os.Binder.execTransact"@);
        let buf3 = buf2.push(t);
        if a && p && b {
            Some(buf3)
        } else {
            binder_pass_from(lines, i + 1, pid2, cmd2, buf3, a, p, b, api, transact_marker)
        }
    }
}

impl TraceAnalysis {
    /// Follows an outgoing cross-process call: re-scans the input from the
    /// start for the block of the thread actually serving the call (it names
    /// the called method, the remote interface\'s `onTransact`, and the Binder
    /// dispatch entry), buffers that block, extracts its lock record, and
    /// falls into the lock-chain walk on it.  An empty method or interface
    /// name, or no serving block anywhere, gives up with `Inconclusive`.
    /// The scan is a function of the lines alone (`binder_pass_from`): the
    /// block it buffers reaches the output, and the walk ends at once when
    /// that block\'s record waits on nothing.
    #[verifier::loop_isolation(false)]
    #[verifier::rlimit(60)]
    pub fn binder_call_timeout(
        &mut self,
        api: &str,
        remote_package: &str,
        out: &mut Vec<String>,
        cursor: &mut LineCursor,
    ) -> (r: ResolveOutcome)
        requires
            old(cursor).wf(),
        ensures
            final(cursor).wf(),
            final(cursor).lines() == old(cursor).lines(),
            final(self)@ == (TraceAnalysisView {
                current_pid_line: final(self)@.current_pid_line,
                current_cmd_line: final(self)@.current_cmd_line,
                lock_map: final(self)@.lock_map,
                ..old(self)@
            }),
            old(out).deep_view().is_prefix_of(final(out).deep_view()),
            api@.len() == 0 || remote_package@.len() == 0 ==> r
                == ResolveOutcome::Inconclusive && *final(self) == *old(self),
            api@.len() == 0 || remote_package@.len() == 0 ==> final(out).deep_view() == old(
                out,
            ).deep_view(),
            (forall|i: int| 0 <= i < old(cursor).lines().len() ==> !text::contains_spec(
                #[trigger] old(cursor).lines()[i],
                "android.os.Binder.execTransact"@,
            )) ==> r == ResolveOutcome::Inconclusive,
            ({
                let bp = binder_pass_from(
                    old(cursor).lines(),
                    0,
                    old(self)@.current_pid_line,
                    old(self)@.current_cmd_line,
                    Seq::empty(),
                    false,
                    false,
                    false,
                    api@,
                    remote_package@ + ".onTransact"@,
                );
                (api@.len() > 0 && remote_package@.len() > 0) ==> match bp {
                    None => r == ResolveOutcome::Inconclusive && final(out).deep_view() == old(
                        out,
                    ).deep_view(),
                    Some(buf) => {
                        &&& (old(out).deep_view() + buf).is_prefix_of(final(out).deep_view())
                        &&& (record_of_lines(empty_record(), buf).waiting_objects.len() == 0
                            ==> r == ResolveOutcome::TerminalReached && final(out).deep_view()
                            == old(out).deep_view() + buf)
                    },
                }
            }),
    {
        proof {
            lemma_prefix_refl(out.deep_view());
            reveal_strlit("----- pid ");
            reveal_strlit("Cmd line: ");
            reveal_strlit("\"");
        }
        if api.unicode_len() == 0 || remote_package.unicode_len() == 0 {
            return ResolveOutcome::Inconclusive;
        }
        let transact_marker = text::concat_str(remote_package, ".onTransact");
        let ghost lsb = old(cursor).lines();
        let ghost tm = remote_package@ + ".onTransact"@;
        let ghost bp = binder_pass_from(
            lsb,
            0,
            old(self)@.current_pid_line,
            old(self)@.current_cmd_line,
            Seq::empty(),
            false,
            false,
            false,
            api@,
            tm,
        );
        cursor.reset_to_start();
        let mut mode_lines: Vec<String> = Vec::new();
        let mut has_api = false;
        let mut has_package = false;
        let mut has_binder_transact = false;
        let mut found = false;
        proof {
            assert(mode_lines.deep_view() =~= Seq::<Seq<char>>::empty());
        }
        loop
            invariant
                cursor.wf(),
                cursor.lines() == old(cursor).lines(),
                self@ == (TraceAnalysisView {
                    current_pid_line: self@.current_pid_line,
                    current_cmd_line: self@.current_cmd_line,
                    ..old(self)@
                }),
                !found,
                (forall|i: int| 0 <= i < old(cursor).lines().len() ==> !text::contains_spec(
                    #[trigger] old(cursor).lines()[i],
                    "android.os.Binder.execTransact"@,
                )) ==> !has_binder_transact,
                bp == binder_pass_from(
                    lsb,
                    cursor.pos(),
                    self@.current_pid_line,
                    self@.current_cmd_line,
                    mode_lines.deep_view(),
                    has_api,
                    has_package,
                    has_binder_transact,
                    api@,
                    tm,
                ),
            decreases cursor.lines().len() - cursor.pos(),
        {
            let ghost pos0 = cursor.pos();
            let ghost pid_head = self@.current_pid_line;
            let ghost cmd_head = self@.current_cmd_line;
            let ghost buf_head = mode_lines.deep_view();
            let ghost a_head = has_api;
            let ghost p_head = has_package;
            let ghost b_head = has_binder_transact;
            let raw = match cursor.read_next_line() {
                Some(l) => String::from_str(l.as_str()),
                None => {
                    break ;
                },
            };
            proof {
                assert(raw@ == lsb[pos0]);
            }
            let trimmed = String::from_str(text::trim(raw.as_str()));
            let ghost t = text::trim_spec(lsb[pos0]);
            if text::starts_with_str(raw.as_str(), "----- pid ") {
                self.set_current_pid_line(trimmed.clone());
            } else if text::starts_with_str(raw.as_str(), "Cmd line: ") {
                self.set_current_cmd_line(trimmed.clone());
            }
            proof {
                let l = lsb[pos0];
                if text::match_at(l, "----- pid "@, 0) {
                    assert(l.subrange(0, 10)[0] == l[0]);
                    assert(l[0] == '-');
                    if text::match_at(l, "Cmd line: "@, 0) {
                        assert(l.subrange(0, 10)[0] == l[0]);
                        assert(l[0] == 'C');
                    }
                }
                if text::match_at(l, "Cmd line: "@, 0) {
                    assert(l.subrange(0, 10)[0] == l[0]);
                    assert(l[0] == 'C');
                }
                if text::match_at(l, "\""@, 0) {
                    assert(l.subrange(0, 1)[0] == l[0]);
                    assert(l[0] == '"');
                }
                assert(self@.current_pid_line == (if text::match_at(l, "----- pid "@, 0) {
                    t
                } else {
                    pid_head
                }));
                assert(self@.current_cmd_line == (if text::match_at(l, "Cmd line: "@, 0) {
                    t
                } else {
                    cmd_head
                }));
            }
            if text::starts_with_str(raw.as_str(), "\"") {
                mode_lines.clear();
                mode_lines.push(String::from_str(self.get_current_pid_line()));
                mode_lines.push(String::from_str(self.get_current_cmd_line()));
                has_api = false;
                has_package = false;
                has_binder_transact = false;
                proof {
                    assert(mode_lines.deep_view() =~= seq![
                        self@.current_pid_line,
                        self@.current_cmd_line,
                    ]);
                }
            }
            let ghost buf2 = mode_lines.deep_view();
            mode_lines.push(trimmed);
            proof {
                assert(mode_lines.deep_view() =~= buf2.push(t));
            }
            if text::contains_str(raw.as_str(), api) {
                has_api = true;
            }
            if text::contains_str(raw.as_str(), transact_marker.as_str()) {
                has_package = true;
            }
            if text::contains_str(raw.as_str(), "android.os.Binder.execTransact") {
                has_binder_transact = true;
            }
            if has_api && has_package && has_binder_transact {
                found = true;
                proof {
                    assert(binder_pass_from(
                        lsb,
                        pos0,
                        pid_head,
                        cmd_head,
                        buf_head,
                        a_head,
                        p_head,
                        b_head,
                        api@,
                        tm,
                    ) == Some(mode_lines.deep_view()));
                }
                break ;
            }
            proof {
                assert(binder_pass_from(
                    lsb,
                    pos0,
                    pid_head,
                    cmd_head,
                    buf_head,
                    a_head,
                    p_head,
                    b_head,
                    api@,
                    tm,
                ) == binder_pass_from(
                    lsb,
                    pos0 + 1,
                    self@.current_pid_line,
                    self@.current_cmd_line,
                    mode_lines.deep_view(),
                    has_api,
                    has_package,
                    has_binder_transact,
                    api@,
                    tm,
                ));
            }
        }
        if !found {
            // No block serves the call: the evidence ran out.
            proof {
                lemma_prefix_refl(out.deep_view());
                assert(bp is None);
            }
            return ResolveOutcome::Inconclusive;
        }
        proof {
            assert(bp == Some(mode_lines.deep_view()));
        }
        let mut lock_bean = LockBean::new();
        let ghost out_before = out.deep_view();
        self.get_lock_from_model(&mut lock_bean, &mode_lines, out);
        proof {
            lemma_concat_prefix(out_before, mode_lines.deep_view());
            if mode_lines@.len() > 0 {
                lemma_prefix_trans(old(out).deep_view(), out_before, out.deep_view());
            }
        }
        let ghost out_mid = out.deep_view();
        let r = self.analyse_trace_by_lock(&mut lock_bean, &mut mode_lines, out, cursor);
        proof {
            lemma_prefix_trans(old(out).deep_view(), out_mid, out.deep_view());
            if record_of_lines(empty_record(), bp->0).waiting_objects.len() == 0 {
                assert(out.deep_view() =~= old(out).deep_view() + bp->0);
                lemma_concat_prefix(old(out).deep_view() + bp->0, Seq::<Seq<char>>::empty());
                assert((old(out).deep_view() + bp->0) + Seq::<Seq<char>>::empty() =~= out.deep_view());
            }
        }
        r
    }
}

// ---------------------------------------------------------------------------
// The main-thread block: structure, frames, and blocking cause.
// ---------------------------------------------------------------------------
/// A raw line that opens a thread block: it starts with a double quote.
pub open spec fn is_thread_header(l: Seq<char>) -> bool {
    text::match_at(l, "\""@, 0)
}

/// A line whose trimmed text names the main thread: the text after its first
/// character starts with `main`.
pub open spec fn is_main_header(l: Seq<char>) -> bool {
    let t = text::trim_spec(l);
    t.len() > 0 && text::match_at(t, "main"@, 1)
}

/// A line whose trimmed text is a command-line header.
pub open spec fn is_cmd_line(l: Seq<char>) -> bool {
    text::match_at(text::trim_spec(l), "Cmd line: "@, 0)
}

/// A line whose trimmed text is a stack frame.
pub open spec fn is_frame_line(l: Seq<char>) -> bool {
    text::match_at(text::trim_spec(l), "at "@, 0)
}

/// The first main-thread header at or after `i`.
pub open spec fn find_main_from(lines: Seq<Seq<char>>, i: int) -> Option<int>
    decreases lines.len() - i + 1,
{
    if i < 0 || i >= lines.len() {
        None
    } else if is_main_header(lines[i]) {
        Some(i)
    } else {
        find_main_from(lines, i + 1)
    }
}

/// The command line last seen in `lines[i..j]`, starting from `cmd0`.
pub open spec fn last_cmd_between(lines: Seq<Seq<char>>, i: int, j: int, cmd0: Seq<char>) -> Seq<
    char,
>
    decreases j - i,
{
    if i < 0 || i >= j {
        cmd0
    } else {
        last_cmd_between(
            lines,
            i + 1,
            j,
            if is_cmd_line(lines[i]) {
                text::trim_spec(lines[i])
            } else {
                cmd0
            },
        )
    }
}

/// Where the block opened before `i` ends: the first thread-header line at or
/// after `i`, or the end of the input.
pub open spec fn block_end_from(lines: Seq<Seq<char>>, i: int) -> int
    decreases lines.len() - i + 1,
{
    if i < 0 || i >= lines.len() {
        lines.len() as int
    } else if is_thread_header(lines[i]) {
        i
    } else {
        block_end_from(lines, i + 1)
    }
}

/// The frames captured from `lines[i..end]`: every frame line, until (and
/// including) the first line that names the process itself; `flag` is true
/// while collection is still on.
pub open spec fn frames_of(
    lines: Seq<Seq<char>>,
    i: int,
    end: int,
    pname: Seq<char>,
    flag: bool,
) -> Seq<Seq<char>>
    decreases end - i,
{
    if i < 0 || i >= end {
        Seq::empty()
    } else {
        let head: Seq<Seq<char>> = if pname.len() > 0 && flag && is_frame_line(lines[i]) {
            seq![lines[i]]
        } else {
            Seq::empty()
        };
        let flag2 = if pname.len() > 0 && text::contains_spec(lines[i], pname) {
            false
        } else {
            flag
        };
        head + frames_of(lines, i + 1, end, pname, flag2)
    }
}

/// What a line says about an outgoing cross-process call: the called method
/// between the stub marker and the following `(`, and the remote interface
/// preceding the marker.
pub open spec fn stub_extract(l: Seq<char>) -> Option<(Seq<char>, Seq<char>)> {
    if text::contains_spec(l, "$Stub$Proxy."@) && text::contains_spec(
        text::after_first_spec(l, "$Stub$Proxy."@),
        "("@,
    ) {
        Some(
            (
                text::before_first_spec(text::after_first_spec(l, "$Stub$Proxy."@), "("@),
                text::before_first_spec(l, "$Stub$Proxy."@),
            ),
        )
    } else {
        None
    }
}

/// The blocking cause of one block: whichever marker comes first wins.
pub enum BlockCauseSpec {
    Unblocked,
    Binder(Seq<char>, Seq<char>),
    LockWait(int),
}

pub open spec fn cause_of(lines: Seq<Seq<char>>, i: int, end: int) -> BlockCauseSpec
    decreases end - i,
{
    if i < 0 || i >= end {
        BlockCauseSpec::Unblocked
    } else if stub_extract(lines[i]) is Some {
        BlockCauseSpec::Binder((stub_extract(lines[i])->0).0, (stub_extract(lines[i])->0).1)
    } else if is_waiting_line(lines[i]) {
        BlockCauseSpec::LockWait(i)
    } else {
        cause_of(lines, i + 1, end)
    }
}

/// The return code that a cause maps to.
pub open spec fn cause_code(c: BlockCauseSpec) -> int {
    match c {
        BlockCauseSpec::Unblocked => 0,
        BlockCauseSpec::Binder(_, _) => 1,
        BlockCauseSpec::LockWait(_) => 2,
    }
}

/// The output the classifier itself produces for `lines[i..end]`: every
/// non-blank line of the block, as read.
pub open spec fn out_block_of(lines: Seq<Seq<char>>, i: int, end: int) -> Seq<Seq<char>>
    decreases end - i,
{
    if i < 0 || i >= end {
        Seq::empty()
    } else {
        (if text::trim_spec(lines[i]).len() > 0 {
            seq![lines[i]]
        } else {
            Seq::empty()
        }) + out_block_of(lines, i + 1, end)
    }
}

/// What stands in the output once the main block at `h` has been written,
/// before any chain walk: the deduplicated process headers (with the command
/// line as the skip-to-main scan left it), the main thread\'s header, then the
/// block\'s non-blank lines.
pub open spec fn classified_output(
    lines: Seq<Seq<char>>,
    p0: int,
    h: int,
    v: TraceAnalysisView,
    out0: Seq<Seq<char>>,
) -> Seq<Seq<char>> {
    let tracker = TraceAnalysisView {
        current_cmd_line: last_cmd_between(lines, p0, h + 1, v.current_cmd_line),
        ..v
    };
    pushed_line(out0 + process_info_spec(tracker), text::trim_spec(lines[h])) + out_block_of(
        lines,
        h + 1,
        block_end_from(lines, h + 1),
    )
}

/// Where the first-marker scan says `LockWait`, a waiting line stands there.
proof fn lemma_cause_lockwait(lines: Seq<Seq<char>>, i: int, end: int, ws: int)
    requires
        cause_of(lines, i, end) == BlockCauseSpec::LockWait(ws),
    ensures
        i <= ws < end,
        is_waiting_line(lines[ws]),
    decreases end - i,
{
    if !(i < 0 || i >= end) && stub_extract(lines[i]) is None && !is_waiting_line(lines[i]) {
        lemma_cause_lockwait(lines, i + 1, end, ws);
    }
}

proof fn lemma_last_cmd_snoc(lines: Seq<Seq<char>>, a: int, b: int, c0: Seq<char>)
    requires
        0 <= a <= b,
    ensures
        last_cmd_between(lines, a, b + 1, c0) == (if is_cmd_line(lines[b]) {
            text::trim_spec(lines[b])
        } else {
            last_cmd_between(lines, a, b, c0)
        }),
    decreases b - a,
{
    reveal_with_fuel(last_cmd_between, 3);
    if a < b {
        let c1 = if is_cmd_line(lines[a]) {
            text::trim_spec(lines[a])
        } else {
            c0
        };
        lemma_last_cmd_snoc(lines, a + 1, b, c1);
    }
}

proof fn lemma_out_block_snoc(lines: Seq<Seq<char>>, i: int, end: int)
    requires
        0 <= i <= end < lines.len(),
    ensures
        out_block_of(lines, i, end + 1) == out_block_of(lines, i, end) + (if text::trim_spec(
            lines[end],
        ).len() > 0 {
            seq![lines[end]]
        } else {
            Seq::<Seq<char>>::empty()
        }),
    decreases end - i,
{
    reveal_with_fuel(out_block_of, 3);
    let tail: Seq<Seq<char>> = if text::trim_spec(lines[end]).len() > 0 {
        seq![lines[end]]
    } else {
        Seq::empty()
    };
    if i == end {
        assert(out_block_of(lines, i, end) + tail =~= tail);
        assert(out_block_of(lines, i, end + 1) =~= tail);
    } else {
        lemma_out_block_snoc(lines, i + 1, end);
        let head: Seq<Seq<char>> = if text::trim_spec(lines[i]).len() > 0 {
            seq![lines[i]]
        } else {
            Seq::empty()
        };
        assert(head + (out_block_of(lines, i + 1, end) + tail) =~= (head + out_block_of(
            lines,
            i + 1,
            end,
        )) + tail);
    }
}

proof fn lemma_block_end_bounds(lines: Seq<Seq<char>>, i: int)
    requires
        0 <= i <= lines.len(),
    ensures
        i <= block_end_from(lines, i) <= lines.len(),
    decreases lines.len() - i,
{
    if i < lines.len() && !is_thread_header(lines[i]) {
        lemma_block_end_bounds(lines, i + 1);
    }
}

impl TraceAnalysis {
    /// The Blocking-Cause Classifier: skips to the main thread\'s block, writes
    /// the deduplicated process headers and the block to the output, captures
    /// the stack frames into `result_bean`, and classifies the block by its
    /// first marker: an outgoing cross-process call, a lock wait, or neither.
    /// A lock wait or a cross-process call then runs the chain walk.  Returns
    /// -1 when no main-thread header is left, else the cause code.
    #[verifier::loop_isolation(false)]
    pub fn get_main(
        &mut self,
        cursor: &mut LineCursor,
        out: &mut Vec<String>,
        result_bean: &mut ResultItemBean,
    ) -> (r: i32)
        requires
            old(cursor).wf(),
        ensures
            final(cursor).wf(),
            final(cursor).lines() == old(cursor).lines(),
            old(out).deep_view().is_prefix_of(final(out).deep_view()),
            final(self)@.last_pid_line == old(self)@.last_pid_line,
            final(self)@.last_cmd_line == old(self)@.last_cmd_line,
            final(self)@.current_log_bean == old(self)@.current_log_bean,
            final(self)@.locate_tolerance_ms == old(self)@.locate_tolerance_ms,
            final(self)@.hop_tolerance_ms == old(self)@.hop_tolerance_ms,
            find_main_from(old(cursor).lines(), old(cursor).pos()) is None ==> r == -1
                && *final(result_bean) == *old(result_bean),
            find_main_from(old(cursor).lines(), old(cursor).pos()) is None ==> old(
                out,
            ).deep_view() == final(out).deep_view(),
            find_main_from(old(cursor).lines(), old(cursor).pos()) matches Some(h) ==> r
                == cause_code(
                cause_of(
                    old(cursor).lines(),
                    h + 1,
                    block_end_from(old(cursor).lines(), h + 1),
                ),
            ),
            find_main_from(old(cursor).lines(), old(cursor).pos()) matches Some(h)
                ==> final(result_bean)@ == (crate::result_item_bean::ResultItemView {
                trace_list: frames_of(
                    old(cursor).lines(),
                    h + 1,
                    block_end_from(old(cursor).lines(), h + 1),
                    old(result_bean)@.process_name,
                    true,
                ),
                ..old(result_bean)@
            }),
            find_main_from(old(cursor).lines(), old(cursor).pos()) matches Some(h) ==> ({
                let lines = old(cursor).lines();
                let b = block_end_from(lines, h + 1);
                let pre = classified_output(
                    lines,
                    old(cursor).pos(),
                    h,
                    old(self)@,
                    old(out).deep_view(),
                );
                &&& (cause_of(lines, h + 1, b) is Unblocked ==> final(out).deep_view() == pre)
                &&& (cause_of(lines, h + 1, b) matches BlockCauseSpec::LockWait(ws2) ==> ({
                    let rec0 = record_of_lines(empty_record(), lines.subrange(ws2, b));
                    hop_times_full(
                        lines,
                        old(self)@.current_pid_line,
                        old(self)@.current_log_bean,
                    ) ==> match owner_buffer(
                        lines,
                        old(self)@.current_pid_line,
                        last_cmd_between(
                            lines,
                            old(cursor).pos(),
                            h + 1,
                            old(self)@.current_cmd_line,
                        ),
                        rec0.waiting_threads,
                        old(self)@.current_log_bean,
                        old(self)@.hop_tolerance_ms,
                        search_markers(rec0.waiting_objects),
                    ) {
                        None => final(out).deep_view() == pre,
                        Some(buf) => (pre + buf).is_prefix_of(final(out).deep_view()) && (
                        record_of_lines(empty_record(), buf).waiting_objects.len() == 0
                            ==> final(out).deep_view() == pre + buf),
                    }
                }))
                &&& (cause_of(lines, h + 1, b) matches BlockCauseSpec::Binder(a, p) ==> ((a.len()
                    > 0 && p.len() > 0) ==> match binder_pass_from(
                    lines,
                    0,
                    old(self)@.current_pid_line,
                    last_cmd_between(lines, old(cursor).pos(), h + 1, old(self)@.current_cmd_line),
                    Seq::empty(),
                    false,
                    false,
                    false,
                    a,
                    p + ".onTransact"@,
                ) {
                    None => final(out).deep_view() == pre,
                    Some(buf) => (pre + buf).is_prefix_of(final(out).deep_view()) && (
                    record_of_lines(empty_record(), buf).waiting_objects.len() == 0
                        ==> final(out).deep_view() == pre + buf),
                }))
            }),
    {
        let ghost ls = cursor.lines();
        let ghost p0 = cursor.pos();
        let ghost cmd0 = self@.current_cmd_line;
        proof {
            lemma_prefix_refl(out.deep_view());
            reveal_strlit("Cmd line: ");
        }
        let mut header_line: String = String::new();
        loop
            invariant
                cursor.wf(),
                cursor.lines() == ls,
                p0 <= cursor.pos() <= ls.len(),
                find_main_from(ls, p0) == find_main_from(ls, cursor.pos()),
                self@ == (TraceAnalysisView {
                    current_cmd_line: last_cmd_between(ls, p0, cursor.pos(), cmd0),
                    ..old(self)@
                }),
            decreases ls.len() - cursor.pos(),
        {
            let ghost pos0 = cursor.pos();
            let raw = match cursor.read_next_line() {
                Some(l) => String::from_str(l.as_str()),
                None => {
                    proof {
                        assert(find_main_from(ls, cursor.pos()) is None);
                    }
                    return -1;
                },
            };
            let trimmed = String::from_str(text::trim(raw.as_str()));
            proof {
                lemma_last_cmd_snoc(ls, p0, pos0, cmd0);
            }
            if trimmed.as_str().unicode_len() == 0 {
                proof {
                    assert(!is_main_header(ls[pos0]));
                    assert(!is_cmd_line(ls[pos0]));
                }
                continue ;
            }
            if text::starts_with_str(trimmed.as_str(), "Cmd line: ") {
                self.set_current_cmd_line(trimmed.clone());
            }
            if text::match_at_exec(trimmed.as_str(), "main", 1) {
                proof {
                    assert(is_main_header(ls[pos0]));
                    assert(find_main_from(ls, pos0) == Some(pos0));
                    assert(self@.current_cmd_line == last_cmd_between(ls, p0, pos0 + 1, cmd0));
                }
                header_line = trimmed;
                break ;
            }
            proof {
                assert(!is_main_header(ls[pos0]));
            }
        }
        let ghost h = cursor.pos() - 1;
        let ghost cmd_h = self@.current_cmd_line;
        proof {
            assert(find_main_from(ls, p0) == Some(h));
            assert(cmd_h == last_cmd_between(ls, p0, h + 1, cmd0));
        }

        self.write_process_info(out);
        push_line(out, header_line.as_str());
        let ghost out_base = out.deep_view();
        proof {
            assert(old(out).deep_view().is_prefix_of(out.deep_view()));
            assert(self@ =~= (TraceAnalysisView {
                current_cmd_line: last_cmd_between(ls, p0, h + 1, cmd0),
                ..old(self)@
            }));
            assert(out_base == pushed_line(
                old(out).deep_view() + process_info_spec(
                    (TraceAnalysisView {
                        current_cmd_line: last_cmd_between(ls, p0, h + 1, cmd0),
                        ..old(self)@
                    }),
                ),
                text::trim_spec(ls[h]),
            ));
        }

        let mut type_code: i32 = 0;
        let mut api = String::new();
        let mut package_name = String::new();
        let mut lock_bean = LockBean::new();
        result_bean.get_trace_list_mut().clear();
        let process_name = String::from_str(result_bean.get_process_name());
        let mut is_add_trace_line_continue = true;
        let ghost b = block_end_from(ls, h + 1);
        let ghost mut ws: int = 0;
        proof {
            lemma_block_end_bounds(ls, h + 1);
            assert(out.deep_view() + out_block_of(ls, h + 1, h + 1) =~= out.deep_view());
            assert(result_bean@.trace_list =~= Seq::<Seq<char>>::empty());
            assert(Seq::<Seq<char>>::empty() + frames_of(ls, h + 1, b, process_name@, true)
                =~= frames_of(ls, h + 1, b, process_name@, true));
        }
        loop
            invariant
                cursor.wf(),
                cursor.lines() == ls,
                h + 1 <= cursor.pos() <= b,
                b == block_end_from(ls, h + 1),
                block_end_from(ls, cursor.pos()) == b,
                self@ == (TraceAnalysisView {
                    current_cmd_line: self@.current_cmd_line,
                    ..old(self)@
                }),
                old(out).deep_view().is_prefix_of(out.deep_view()),
                result_bean@ == (crate::result_item_bean::ResultItemView {
                    trace_list: result_bean@.trace_list,
                    ..old(result_bean)@
                }),
                process_name@ == old(result_bean)@.process_name,
                frames_of(ls, h + 1, b, process_name@, true) == result_bean@.trace_list
                    + frames_of(ls, cursor.pos(), b, process_name@, is_add_trace_line_continue),
                type_code == 0 || type_code == 1 || type_code == 2,
                cause_of(ls, h + 1, b) == (if type_code == 1 {
                    BlockCauseSpec::Binder(api@, package_name@)
                } else if type_code == 2 {
                    BlockCauseSpec::LockWait(ws)
                } else {
                    cause_of(ls, cursor.pos(), b)
                }),
                type_code == 2 ==> h + 1 <= ws <= cursor.pos() && lock_bean@ == record_of_lines(
                    empty_record(),
                    ls.subrange(ws, cursor.pos()),
                ),
                type_code == 2 ==> lock_bean@.waiting_objects.len() > 0,
                type_code != 2 ==> lock_bean@ == empty_record(),
                out.deep_view() == out_base + out_block_of(ls, h + 1, cursor.pos()),
            decreases ls.len() - cursor.pos(),
        {
            let ghost pos0 = cursor.pos();
            let raw = match cursor.read_next_line() {
                Some(l) => String::from_str(l.as_str()),
                None => {
                    proof {
                        assert(cursor.pos() == ls.len());
                        assert(block_end_from(ls, cursor.pos()) == ls.len());
                    }
                    break ;
                },
            };
            if text::starts_with_str(raw.as_str(), "\"") {
                proof {
                    assert(is_thread_header(ls[pos0]));
                    assert(b == pos0);
                }
                break ;
            }
            proof {
                assert(!is_thread_header(ls[pos0]));
                lemma_block_end_bounds(ls, pos0 + 1);
                assert(block_end_from(ls, pos0) == block_end_from(ls, pos0 + 1));
                assert(pos0 < b);
            }
            push_line(out, raw.as_str());
            proof {
                lemma_out_block_snoc(ls, h + 1, pos0);
                if text::trim_spec(ls[pos0]).len() > 0 {
                    assert(out.deep_view() =~= out_base + out_block_of(ls, h + 1, pos0 + 1));
                } else {
                    assert(out_base + out_block_of(ls, h + 1, pos0) =~= out_base + out_block_of(
                        ls,
                        h + 1,
                        pos0 + 1,
                    ));
                }
            }
            let trimmed = String::from_str(text::trim(raw.as_str()));

            // Frame capture, until the process names itself.
            let ghost trace_before = result_bean@.trace_list;
            if process_name.as_str().unicode_len() > 0 && is_add_trace_line_continue
                && text::starts_with_str(trimmed.as_str(), "at ") {
                result_bean.set_trace_list(raw.clone());
            }
            proof {
                let head: Seq<Seq<char>> = if process_name@.len() > 0
                    && is_add_trace_line_continue && is_frame_line(ls[pos0]) {
                    seq![ls[pos0]]
                } else {
                    Seq::empty()
                };
                assert(result_bean@.trace_list =~= trace_before + head);
            }
            let ghost flag_before = is_add_trace_line_continue;
            if process_name.as_str().unicode_len() > 0 && text::contains_str(
                raw.as_str(),
                process_name.as_str(),
            ) {
                is_add_trace_line_continue = false;
            }
            proof {
                let head: Seq<Seq<char>> = if process_name@.len() > 0 && flag_before
                    && is_frame_line(ls[pos0]) {
                    seq![ls[pos0]]
                } else {
                    Seq::empty()
                };
                assert(frames_of(ls, pos0, b, process_name@, flag_before) == head + frames_of(
                    ls,
                    pos0 + 1,
                    b,
                    process_name@,
                    is_add_trace_line_continue,
                ));
                assert(trace_before + frames_of(ls, pos0, b, process_name@, flag_before)
                    =~= result_bean@.trace_list + frames_of(
                    ls,
                    pos0 + 1,
                    b,
                    process_name@,
                    is_add_trace_line_continue,
                ));
            }

            // Classification: the first marker wins; a lock wait feeds every
            // later line of the block to the extractor.
            if type_code == 2 {
                self.get_lock_from_line(raw.as_str(), &mut lock_bean);
                proof {
                    lemma_record_of_lines_snoc(empty_record(), ls.subrange(ws, pos0), ls[pos0]);
                    assert(ls.subrange(ws, pos0).push(ls[pos0]) =~= ls.subrange(ws, pos0 + 1));
                }
            } else if type_code == 0 {
                let mut classified = false;
                if text::contains_str(raw.as_str(), "$Stub$Proxy.") {
                    let rest = text::after_first(raw.as_str(), "$Stub$Proxy.");
                    if text::contains_str(rest, "(") {
                        api = String::from_str(text::before_first(rest, "("));
                        package_name = String::from_str(
                            text::before_first(raw.as_str(), "$Stub$Proxy."),
                        );
                        type_code = 1;
                        classified = true;
                        proof {
                            assert(stub_extract(ls[pos0]) == Some((api@, package_name@)));
                        }
                    }
                }
                if !classified && text::contains_str(raw.as_str(), "waiting to lock <") {
                    type_code = 2;
                    proof {
                        ws = pos0;
                    }
                    self.get_lock_from_line(raw.as_str(), &mut lock_bean);
                    proof {
                        assert(ls.subrange(pos0, pos0) =~= Seq::<Seq<char>>::empty());
                        lemma_record_of_lines_snoc(
                            empty_record(),
                            ls.subrange(pos0, pos0),
                            ls[pos0],
                        );
                        assert(ls.subrange(pos0, pos0).push(ls[pos0]) =~= ls.subrange(
                            pos0,
                            pos0 + 1,
                        ));
                    }
                } else if !classified && type_code == 0 {
                    proof {
                        assert(stub_extract(ls[pos0]) is None);
                        assert(!is_waiting_line(ls[pos0]));
                    }
                }
            }
        }
        let ghost pre = classified_output(ls, p0, h, old(self)@, old(out).deep_view());
        proof {
            assert(cursor.pos() == b || (b == block_end_from(ls, b)));
            assert(frames_of(ls, b, b, process_name@, is_add_trace_line_continue)
                =~= Seq::<Seq<char>>::empty());
            assert(result_bean@.trace_list + Seq::<Seq<char>>::empty()
                =~= result_bean@.trace_list);
            assert(result_bean@.trace_list == frames_of(ls, h + 1, b, process_name@, true));
            if type_code == 0 {
                assert(cause_of(ls, b, b) == BlockCauseSpec::Unblocked);
            }
            assert(out.deep_view() == pre);
        }

        match type_code {
            1 => {
                proof {
                    assert(cause_of(ls, h + 1, b) == BlockCauseSpec::Binder(api@, package_name@));
                }
                self.binder_call_timeout(api.as_str(), package_name.as_str(), out, cursor);
                proof {
                    if api@.len() > 0 && package_name@.len() > 0 {
                        let bp = binder_pass_from(
                            ls,
                            0,
                            old(self)@.current_pid_line,
                            cmd_h,
                            Seq::empty(),
                            false,
                            false,
                            false,
                            api@,
                            package_name@ + ".onTransact"@,
                        );
                        match bp {
                            None => {},
                            Some(buf) => {
                                assert((pre + buf).is_prefix_of(out.deep_view()));
                            },
                        }
                    }
                }
            },
            2 => {
                let mut model_lines: Vec<String> = Vec::new();
                proof {
                    assert(cause_of(ls, h + 1, b) == BlockCauseSpec::LockWait(ws));
                    assert(lock_bean@ == record_of_lines(empty_record(), ls.subrange(ws, b)));
                }
                self.analyse_trace_by_lock(&mut lock_bean, &mut model_lines, out, cursor);
            },
            _ => {},
        }
        type_code
    }
}

// ---------------------------------------------------------------------------
// Locating the target snapshot.
// ---------------------------------------------------------------------------
/// The candidate time of a header line matched against a pid start pattern:
/// the slice between the pattern and the trailing ` -----`.
pub open spec fn candidate_time(l: Seq<char>, start_len: int) -> Option<Seq<char>> {
    match text::rfind_spec(l, " -----"@) {
        Some(e) => if start_len <= e {
            Some(l.subrange(start_len, e))
        } else {
            None
        },
        None => None,
    }
}

/// The first line at or after `i` that begins with `start_line`.
pub open spec fn find_start_from(lines: Seq<Seq<char>>, i: int, start_line: Seq<char>) -> Option<
    int,
>
    decreases lines.len() - i + 1,
{
    if i < 0 || i >= lines.len() {
        None
    } else if text::match_at(lines[i], start_line, 0) {
        Some(i)
    } else {
        find_start_from(lines, i + 1, start_line)
    }
}

/// The locate scan in pid mode: each matching header first supplies the
/// target time if it is still unknown, then must lie in the locate window;
/// the scan stops after the first header in the window (or, with the time
/// still unknown, the first matching header).  Yields the position after the
/// matched header and the target time as it then stands.
pub open spec fn locate_pid_from(
    lines: Seq<Seq<char>>,
    i: int,
    time: Option<Seq<char>>,
    start_line: Seq<char>,
    tol: int,
) -> Option<(int, Option<Seq<char>>)>
    decreases lines.len() - i + 1,
{
    if i < 0 || i >= lines.len() {
        None
    } else if !text::match_at(lines[i], start_line, 0) {
        locate_pid_from(lines, i + 1, time, start_line, tol)
    } else {
        let t1 = if time is Some {
            time
        } else {
            header_time_spec(lines[i])
        };
        if t1 is Some {
            match candidate_time(lines[i], start_line.len() as int) {
                Some(t2) => if in_frame_full(t1->0, t2, tol) {
                    Some((i + 1, t1))
                } else {
                    locate_pid_from(lines, i + 1, t1, start_line, tol)
                },
                None => locate_pid_from(lines, i + 1, t1, start_line, tol),
            }
        } else {
            Some((i + 1, t1))
        }
    }
}

/// Every time the pid-mode locate scan compares carries its own year, so the
/// clock plays no part in it.
pub open spec fn locate_times_full(
    lines: Seq<Seq<char>>,
    start_line: Seq<char>,
    t0: Option<Seq<char>>,
) -> bool {
    &&& (t0 matches Some(t) ==> full_time(t))
    &&& forall|i: int|
        #![trigger lines[i]]
        0 <= i < lines.len() && text::match_at(lines[i], start_line, 0) ==> {
            &&& (header_time_spec(lines[i]) matches Some(t) ==> full_time(t))
            &&& (candidate_time(lines[i], start_line.len() as int) matches Some(t) ==> full_time(
                t,
            ))
        }
}

impl TraceAnalysis {
    /// Locates the target snapshot and hands over to the classifier.  With a
    /// pid the scan matches `----- pid N at ` headers under the locate
    /// window; without one it stops at the first `Cmd line: NAME` match.  The
    /// target\'s time, when unknown, is taken from the header that matched.
    /// Returns -1 when no snapshot (or no main thread after it) is found.
    #[verifier::loop_isolation(false)]
    pub fn analyse_trace_internal(
        &mut self,
        cursor: &mut LineCursor,
        log_bean: &mut LogItemBean,
        result_bean: &mut ResultItemBean,
        out: &mut Vec<String>,
    ) -> (r: i32)
        requires
            old(cursor).wf(),
            old(log_bean)@.pid is None ==> old(log_bean)@.process_name is Some,
        ensures
            final(cursor).wf(),
            final(cursor).lines() == old(cursor).lines(),
            old(out).deep_view().is_prefix_of(final(out).deep_view()),
            r == -1 || r == 0 || r == 1 || r == 2,
            final(log_bean)@ == (LogItemView { time: final(log_bean)@.time, ..old(log_bean)@ }),
            final(self)@.last_pid_line == old(self)@.last_pid_line,
            final(self)@.last_cmd_line == old(self)@.last_cmd_line,
            final(self)@.locate_tolerance_ms == old(self)@.locate_tolerance_ms,
            final(self)@.hop_tolerance_ms == old(self)@.hop_tolerance_ms,
            final(result_bean)@ == (crate::result_item_bean::ResultItemView {
                trace_list: final(result_bean)@.trace_list,
                ..old(result_bean)@
            }),
            ({
                let start_line = start_line_spec(old(log_bean)@);
                old(log_bean)@.pid is Some && locate_times_full(
                    old(cursor).lines(),
                    start_line,
                    old(log_bean)@.time,
                ) ==> match locate_pid_from(
                    old(cursor).lines(),
                    old(cursor).pos(),
                    old(log_bean)@.time,
                    start_line,
                    old(self)@.locate_tolerance_ms,
                ) {
                    None => r == -1 && final(result_bean)@.trace_list == old(
                        result_bean,
                    )@.trace_list,
                    Some(pt) => {
                        &&& final(log_bean)@.time == pt.1
                        &&& r == (match find_main_from(old(cursor).lines(), pt.0) {
                            None => -1,
                            Some(h) => cause_code(
                                cause_of(
                                    old(cursor).lines(),
                                    h + 1,
                                    block_end_from(old(cursor).lines(), h + 1),
                                ),
                            ),
                        })
                        &&& (find_main_from(old(cursor).lines(), pt.0) is None
                            ==> final(result_bean)@.trace_list == old(result_bean)@.trace_list)
                        &&& (find_main_from(old(cursor).lines(), pt.0) matches Some(h)
                            ==> final(result_bean)@.trace_list == frames_of(
                            old(cursor).lines(),
                            h + 1,
                            block_end_from(old(cursor).lines(), h + 1),
                            old(result_bean)@.process_name,
                            true,
                        ))
                    },
                }
            }),
            ({
                let start_line = start_line_spec(old(log_bean)@);
                old(log_bean)@.pid is None ==> match find_start_from(
                    old(cursor).lines(),
                    old(cursor).pos(),
                    start_line,
                ) {
                    None => r == -1 && final(result_bean)@.trace_list == old(
                        result_bean,
                    )@.trace_list,
                    Some(f) => {
                        &&& r == (match find_main_from(old(cursor).lines(), f + 1) {
                            None => -1,
                            Some(h) => cause_code(
                                cause_of(
                                    old(cursor).lines(),
                                    h + 1,
                                    block_end_from(old(cursor).lines(), h + 1),
                                ),
                            ),
                        })
                        &&& (find_main_from(old(cursor).lines(), f + 1) is None
                            ==> final(result_bean)@.trace_list == old(result_bean)@.trace_list)
                        &&& (find_main_from(old(cursor).lines(), f + 1) matches Some(h)
                            ==> final(result_bean)@.trace_list == frames_of(
                            old(cursor).lines(),
                            h + 1,
                            block_end_from(old(cursor).lines(), h + 1),
                            old(result_bean)@.process_name,
                            true,
                        ))
                    },
                }
            }),
    {
        let ghost ls = cursor.lines();
        let ghost p0 = cursor.pos();
        let ghost t0 = log_bean@.time;
        proof {
            lemma_prefix_refl(out.deep_view());
        }
        let pid_mode = match log_bean.get_pid() {
            Some(_) => true,
            None => false,
        };
        let start_line: String = match log_bean.get_pid() {
            Some(pid) => {
                let mut sl = String::from_str("----- pid ");
                sl.append(pid);
                sl.append(" at ");
                proof {
                    assert(sl@ =~= start_line_spec(log_bean@));
                }
                sl
            },
            None => {
                let name = match log_bean.get_process_name() {
                    Some(n) => n,
                    None => "",
                };
                let sl = text::concat_str("Cmd line: ", name);
                proof {
                    assert(sl@ =~= start_line_spec(log_bean@));
                }
                sl
            },
        };
        let ghost slv = start_line@;
        let ghost fullness = locate_times_full(ls, slv, t0);
        let mut previous_line = String::new();
        loop
            invariant
                cursor.wf(),
                cursor.lines() == ls,
                p0 <= cursor.pos() <= ls.len(),
                log_bean@ == (LogItemView { time: log_bean@.time, ..old(log_bean)@ }),
                log_bean@.time is None ==> t0 is None,
                pid_mode == (old(log_bean)@.pid is Some),
                slv == start_line@,
                self@ == (TraceAnalysisView {
                    current_pid_line: self@.current_pid_line,
                    current_cmd_line: self@.current_cmd_line,
                    ..old(self)@
                }),
                pid_mode && fullness ==> locate_pid_from(ls, p0, t0, slv, self@.locate_tolerance_ms)
                    == locate_pid_from(
                    ls,
                    cursor.pos(),
                    log_bean@.time,
                    slv,
                    self@.locate_tolerance_ms,
                ),
                pid_mode && fullness ==> (log_bean@.time matches Some(t) ==> full_time(t)),
                !pid_mode ==> find_start_from(ls, p0, slv) == find_start_from(
                    ls,
                    cursor.pos(),
                    slv,
                ),
            decreases ls.len() - cursor.pos(),
        {
            let ghost pos0 = cursor.pos();
            let ghost time_head = log_bean@.time;
            let raw = match cursor.read_next_line() {
                Some(l) => String::from_str(l.as_str()),
                None => {
                    return -1;
                },
            };
            if text::starts_with_str(raw.as_str(), start_line.as_str()) {
                if text::starts_with_str(raw.as_str(), "----- pid ") {
                    self.set_current_pid_line(raw.clone());
                } else if text::starts_with_str(raw.as_str(), "Cmd line: ") {
                    self.set_current_pid_line(previous_line.clone());
                    self.set_current_cmd_line(raw.clone());
                }
                proof {
                    if pid_mode {
                        let pp = "----- pid "@;
                        assert(raw@.subrange(0, slv.len() as int) == slv);
                        assert(raw@.subrange(0, pp.len() as int) =~= pp);
                        assert(text::match_at(raw@, pp, 0));
                        assert(self@.current_pid_line == ls[pos0]);
                    }
                }
                if log_bean.get_time().is_none() {
                    let pid_line = String::from_str(self.get_current_pid_line());
                    let mut derived = false;
                    match (text::find_str(pid_line.as_str(), "at"), text::rfind_str(
                        pid_line.as_str(),
                        " -----",
                    )) {
                        (Some(st), Some(e)) => {
                            proof {
                                text::lemma_find_from_some(pid_line@, "at"@, 0, st as int);
                                text::lemma_rfind_from_some(
                                    pid_line@,
                                    " -----"@,
                                    pid_line@.len() - " -----"@.len(),
                                    e as int,
                                );
                            }
                            if e >= 3 && st <= e - 3 {
                                let t = String::from_str(
                                    pid_line.as_str().substring_char(st + 3, e),
                                );
                                log_bean.set_time(t);
                                derived = true;
                            }
                        },
                        _ => {},
                    }
                    proof {
                        if pid_mode {
                            if derived {
                                assert(log_bean@.time == header_time_spec(ls[pos0]));
                            } else {
                                assert(header_time_spec(ls[pos0]) is None);
                                assert(log_bean@.time is None);
                            }
                        }
                    }
                }
                proof {
                    if pid_mode {
                        let t1 = if time_head is Some {
                            time_head
                        } else {
                            header_time_spec(ls[pos0])
                        };
                        assert(log_bean@.time == t1);
                        if fullness {
                            assert(log_bean@.time matches Some(t) ==> full_time(t));
                        }
                    }
                }
                let window_applies = log_bean.get_time().is_some() && pid_mode;
                if window_applies {
                    let mut accept = false;
                    match text::rfind_str(raw.as_str(), " -----") {
                        Some(e) => {
                            proof {
                                text::lemma_rfind_from_some(
                                    raw@,
                                    " -----"@,
                                    raw@.len() - " -----"@.len(),
                                    e as int,
                                );
                            }
                            let sll = start_line.as_str().unicode_len();
                            if sll <= e {
                                let t2 = String::from_str(raw.as_str().substring_char(sll, e));
                                proof {
                                    assert(candidate_time(ls[pos0], slv.len() as int) == Some(
                                        t2@,
                                    ));
                                }
                                let in_window = match log_bean.get_time() {
                                    Some(_) => log_bean.time_in_frame(
                                        t2.as_str(),
                                        self.locate_tolerance_ms,
                                    ),
                                    None => false,
                                };
                                if in_window {
                                    accept = true;
                                }
                                proof {
                                    if pid_mode && fullness {
                                        assert(full_time(t2@));
                                        assert(in_window == in_frame_full(
                                            log_bean@.time->0,
                                            t2@,
                                            self@.locate_tolerance_ms,
                                        ));
                                    }
                                }
                            }
                        },
                        None => {},
                    }
                    if accept {
                        proof {
                            if fullness {
                                assert(locate_pid_from(
                                    ls,
                                    pos0,
                                    time_head,
                                    slv,
                                    self@.locate_tolerance_ms,
                                ) == Some((pos0 + 1, log_bean@.time)));
                            }
                        }
                        break ;
                    }
                    proof {
                        if fullness {
                            assert(locate_pid_from(ls, pos0, time_head, slv, self@.locate_tolerance_ms)
                                == locate_pid_from(
                                ls,
                                pos0 + 1,
                                log_bean@.time,
                                slv,
                                self@.locate_tolerance_ms,
                            ));
                        }
                    }
                } else {
                    proof {
                        if pid_mode && fullness {
                            assert(log_bean@.time is None);
                            assert(locate_pid_from(
                                ls,
                                pos0,
                                time_head,
                                slv,
                                self@.locate_tolerance_ms,
                            ) == Some((pos0 + 1, log_bean@.time)));
                        }
                        if !pid_mode {
                            assert(find_start_from(ls, pos0, slv) == Some(pos0));
                        }
                    }
                    break ;
                }
            } else {
                proof {
                    assert(!text::match_at(ls[pos0], slv, 0));
                }
            }
            previous_line = raw;
        }
        self.set_current_log_bean(log_bean.clone());
        self.get_main(cursor, out, result_bean)
    }
}

impl TraceAnalysis {
    /// Resolves one incident against the cursor\'s trace: remembers the
    /// incident, locates its snapshot, classifies the main thread\'s block,
    /// and walks the chain.  The reconstruction lines are appended to `out`;
    /// the caller owns writing them out under `output_file_name`.
    pub fn analyse_trace(
        &mut self,
        cursor: &mut LineCursor,
        log_bean: &mut LogItemBean,
        item: &mut ResultItemBean,
        out: &mut Vec<String>,
    ) -> (r: i32)
        requires
            old(cursor).wf(),
            old(log_bean)@.pid is None ==> old(log_bean)@.process_name is Some,
        ensures
            final(cursor).wf(),
            final(cursor).lines() == old(cursor).lines(),
            old(out).deep_view().is_prefix_of(final(out).deep_view()),
            r == -1 || r == 0 || r == 1 || r == 2,
            final(log_bean)@ == (LogItemView { time: final(log_bean)@.time, ..old(log_bean)@ }),
            final(self)@.locate_tolerance_ms == old(self)@.locate_tolerance_ms,
            final(self)@.hop_tolerance_ms == old(self)@.hop_tolerance_ms,
            final(item)@ == (crate::result_item_bean::ResultItemView {
                trace_list: final(item)@.trace_list,
                ..old(item)@
            }),
            ({
                let start_line = start_line_spec(old(log_bean)@);
                old(log_bean)@.pid is Some && locate_times_full(
                    old(cursor).lines(),
                    start_line,
                    old(log_bean)@.time,
                ) ==> match locate_pid_from(
                    old(cursor).lines(),
                    old(cursor).pos(),
                    old(log_bean)@.time,
                    start_line,
                    old(self)@.locate_tolerance_ms,
                ) {
                    None => r == -1 && final(item)@.trace_list == old(item)@.trace_list,
                    Some(pt) => {
                        &&& final(log_bean)@.time == pt.1
                        &&& r == (match find_main_from(old(cursor).lines(), pt.0) {
                            None => -1,
                            Some(h) => cause_code(
                                cause_of(
                                    old(cursor).lines(),
                                    h + 1,
                                    block_end_from(old(cursor).lines(), h + 1),
                                ),
                            ),
                        })
                        &&& (find_main_from(old(cursor).lines(), pt.0) is None
                            ==> final(item)@.trace_list == old(item)@.trace_list)
                        &&& (find_main_from(old(cursor).lines(), pt.0) matches Some(h)
                            ==> final(item)@.trace_list == frames_of(
                            old(cursor).lines(),
                            h + 1,
                            block_end_from(old(cursor).lines(), h + 1),
                            old(item)@.process_name,
                            true,
                        ))
                    },
                }
            }),
            ({
                let start_line = start_line_spec(old(log_bean)@);
                old(log_bean)@.pid is None ==> match find_start_from(
                    old(cursor).lines(),
                    old(cursor).pos(),
                    start_line,
                ) {
                    None => r == -1 && final(item)@.trace_list == old(item)@.trace_list,
                    Some(f) => {
                        &&& r == (match find_main_from(old(cursor).lines(), f + 1) {
                            None => -1,
                            Some(h) => cause_code(
                                cause_of(
                                    old(cursor).lines(),
                                    h + 1,
                                    block_end_from(old(cursor).lines(), h + 1),
                                ),
                            ),
                        })
                        &&& (find_main_from(old(cursor).lines(), f + 1) is None
                            ==> final(item)@.trace_list == old(item)@.trace_list)
                        &&& (find_main_from(old(cursor).lines(), f + 1) matches Some(h)
                            ==> final(item)@.trace_list == frames_of(
                            old(cursor).lines(),
                            h + 1,
                            block_end_from(old(cursor).lines(), h + 1),
                            old(item)@.process_name,
                            true,
                        ))
                    },
                }
            }),
    {
        // The confirmed-held memo belongs to one resolution: a fresh target
        // starts with a fresh memo, so independent resolutions cannot
        // interfere.
        self.lock_map = Vec::new();
        self.set_current_log_bean(log_bean.clone());
        self.analyse_trace_internal(cursor, log_bean, item, out)
    }

    /// Resolves a list of incidents in order, collecting one result item,
    /// one reconstruction buffer, and one reason code per incident.  An empty
    /// list yields the single reason -2.
    #[verifier::loop_isolation(false)]
    pub fn analyse_trace_list(
        &mut self,
        cursor: &mut LineCursor,
        src_parent: &str,
        bean_list: &mut Vec<LogItemBean>,
        result_list: &mut Vec<ResultItemBean>,
        outs: &mut Vec<Vec<String>>,
    ) -> (reasons: Vec<i32>)
        requires
            old(cursor).wf(),
            forall|i: int| 0 <= i < old(bean_list)@.len()
                ==> (#[trigger] old(bean_list)@[i])@.process_name is Some,
        ensures
            final(cursor).wf(),
            final(cursor).lines() == old(cursor).lines(),
            old(bean_list)@.len() == 0 ==> reasons@ == seq![-2i32],
            old(bean_list)@.len() == 0 ==> *old(result_list) == *final(result_list) && *old(outs)
                == *final(outs) && *old(self) == *final(self) && *old(cursor) == *final(cursor),
            old(bean_list)@.len() == 0 ==> *old(bean_list) == *final(bean_list),
            old(bean_list)@.len() > 0 ==> {
                &&& reasons@.len() == old(bean_list)@.len()
                &&& final(result_list)@.len() == old(result_list)@.len() + old(bean_list)@.len()
                &&& final(outs)@.len() == old(outs)@.len() + old(bean_list)@.len()
                &&& forall|k: int| 0 <= k < old(bean_list)@.len()
                    ==> (#[trigger] final(result_list)@[old(result_list)@.len() + k])@.process_name
                    == (old(bean_list)@[k])@.process_name->0
                    && (final(result_list)@[old(result_list)@.len() + k])@.out_path == src_parent@
                &&& forall|k: int| 0 <= k < old(result_list)@.len() ==> final(result_list)@[k]
                    == old(result_list)@[k]
                &&& forall|k: int|
                    #![trigger reasons@[k]]
                    0 <= k < old(bean_list)@.len() ==> {
                        &&& ((old(bean_list)@[k])@.pid is None ==> reasons@[k] as int
                            == cmd_reason_spec(old(cursor).lines(), (old(bean_list)@[k])@))
                        &&& (((old(bean_list)@[k])@.pid is Some && locate_times_full(
                            old(cursor).lines(),
                            start_line_spec((old(bean_list)@[k])@),
                            (old(bean_list)@[k])@.time,
                        )) ==> reasons@[k] as int == pid_reason_spec(
                            old(cursor).lines(),
                            (old(bean_list)@[k])@,
                            old(self)@.locate_tolerance_ms,
                        ))
                    }
            },
            final(bean_list)@.len() == old(bean_list)@.len(),
    {
        let mut reasons: Vec<i32> = Vec::new();
        let n = bean_list.len();
        if n == 0 {
            reasons.push(-2);
            proof {
                assert(reasons@ =~= seq![-2i32]);
            }
            return reasons;
        }
        let mut i: usize = 0;
        while i < n
            invariant
                cursor.wf(),
                cursor.lines() == old(cursor).lines(),
                n == old(bean_list)@.len(),
                bean_list@.len() == n,
                0 <= i <= n,
                reasons@.len() == i,
                result_list@.len() == old(result_list)@.len() + i,
                outs@.len() == old(outs)@.len() + i,
                forall|k: int| 0 <= k < i
                    ==> (#[trigger] result_list@[old(result_list)@.len() + k])@.process_name
                    == (old(bean_list)@[k])@.process_name->0
                    && (result_list@[old(result_list)@.len() + k])@.out_path == src_parent@,
                forall|k: int| 0 <= k < old(result_list)@.len()
                    ==> result_list@[k] == old(result_list)@[k],
                forall|k: int| 0 <= k < n
                    ==> (#[trigger] bean_list@[k])@.process_name
                    == (old(bean_list)@[k])@.process_name,
                forall|k: int| i <= k < n ==> #[trigger] bean_list@[k] == old(bean_list)@[k],
                self@.locate_tolerance_ms == old(self)@.locate_tolerance_ms,
                self@.hop_tolerance_ms == old(self)@.hop_tolerance_ms,
                forall|k: int|
                    #![trigger reasons@[k]]
                    0 <= k < i ==> {
                        &&& ((old(bean_list)@[k])@.pid is None ==> reasons@[k] as int
                            == cmd_reason_spec(old(cursor).lines(), (old(bean_list)@[k])@))
                        &&& (((old(bean_list)@[k])@.pid is Some && locate_times_full(
                            old(cursor).lines(),
                            start_line_spec((old(bean_list)@[k])@),
                            (old(bean_list)@[k])@.time,
                        )) ==> reasons@[k] as int == pid_reason_spec(
                            old(cursor).lines(),
                            (old(bean_list)@[k])@,
                            old(self)@.locate_tolerance_ms,
                        ))
                    },
            decreases n - i,
        {
            let mut item = ResultItemBean::new();
            let pname = match bean_list[i].get_process_name() {
                Some(nm) => String::from_str(nm),
                None => String::new(),
            };
            item.set_process_name(pname);
            item.set_out_path(String::from_str(src_parent));
            cursor.reset_to_start();
            let mut out_buf: Vec<String> = Vec::new();
            let bean = &mut bean_list[i];
            let reason = self.analyse_trace(cursor, bean, &mut item, &mut out_buf);
            reasons.push(reason);
            result_list.push(item);
            outs.push(out_buf);
            i += 1;
        }
        reasons
    }

    /// The name of the reconstruction file for one incident:
    /// `result_trace_<process>` with `_<time>` appended once the time is
    /// known.
    pub fn output_file_name(log_bean: &LogItemBean) -> (r: String)
        requires
            log_bean@.process_name is Some,
        ensures
            log_bean@.time is None ==> r@ == "result_trace_"@ + log_bean@.process_name->0,
            log_bean@.time matches Some(t) ==> r@ == "result_trace_"@
                + log_bean@.process_name->0 + "_"@ + t,
    {
        let name = match log_bean.get_process_name() {
            Some(nm) => nm,
            None => "",
        };
        let mut r = String::from_str("result_trace_");
        r.append(name);
        match log_bean.get_time() {
            Some(t) => {
                r.append("_");
                r.append(t);
                proof {
                    assert(r@ =~= "result_trace_"@ + log_bean@.process_name->0 + "_"@
                        + log_bean@.time->0);
                }
            },
            None => {},
        }
        r
    }
}

/// The view of a list of per-process collections.
pub open spec fn anr_list_view(v: Seq<crate::anr_result_bean::ANRResultBean>) -> Seq<
    crate::anr_result_bean::AnrResultView,
> {
    Seq::new(v.len(), |i: int| v[i]@)
}

/// The view of a list of resolved incidents.
pub open spec fn item_list_view(v: Seq<ResultItemBean>) -> Seq<
    crate::result_item_bean::ResultItemView,
> {
    Seq::new(v.len(), |i: int| v[i]@)
}

/// A copy of a list of lines.
fn copy_strings(v: &Vec<String>) -> (r: Vec<String>)
    ensures
        r.deep_view() == v.deep_view(),
{
    let n = v.len();
    let mut r: Vec<String> = Vec::new();
    let mut i: usize = 0;
    while i < n
        invariant
            n == v@.len(),
            0 <= i <= n,
            r@.len() == i,
            forall|k: int| 0 <= k < i ==> r@[k]@ == v@[k]@,
        decreases n - i,
    {
        r.push(String::from_str(v[i].as_str()));
        i += 1;
    }
    proof {
        assert(r.deep_view() =~= v.deep_view());
    }
    r
}

/// Groups a run of resolved incidents by process and, within a process, by
/// normalized stack signature: a repeated signature only gains the new source
/// path, a fresh one opens a new occurrence group.
#[verifier::loop_isolation(false)]
pub fn turn_result_item_to_anr_list(item_list: Vec<ResultItemBean>) -> (r: Vec<
    crate::anr_result_bean::ANRResultBean,
>)
    ensures
        anr_list_view(r@) == crate::anr_result_bean::anr_of_items(
            Seq::empty(),
            item_list_view(item_list@),
        ),
{
    let ghost itemsv = item_list_view(item_list@);
    let mut anr_list: Vec<crate::anr_result_bean::ANRResultBean> = Vec::new();
    let n = item_list.len();
    proof {
        assert(itemsv.subrange(0, 0) =~= Seq::<crate::result_item_bean::ResultItemView>::empty());
        assert(anr_list_view(anr_list@) =~= Seq::<crate::anr_result_bean::AnrResultView>::empty());
    }
    let mut k: usize = 0;
    while k < n
        invariant
            n == item_list@.len(),
            0 <= k <= n,
            anr_list_view(anr_list@) == crate::anr_result_bean::anr_of_items(
                Seq::empty(),
                itemsv.subrange(0, k as int),
            ),
        decreases n - k,
    {
        let item = &item_list[k];
        let process_name = String::from_str(item.get_process_name());
        let mut trace_list = copy_strings(item.get_trace_list());
        let out_path = String::from_str(item.get_out_path());
        let ghost pre = anr_list_view(anr_list@);
        let ghost m = crate::anr_result_bean::normalize_spec(item@.trace_list);

        // Linear scan for this process\'s collection.
        let len = anr_list.len();
        let mut idx: usize = 0;
        let mut found = false;
        while idx < len && !found
            invariant
                len == anr_list@.len(),
                0 <= idx <= len,
                found ==> idx < len && pre[idx as int].process_name == process_name@,
                forall|j: int| 0 <= j < idx ==> pre[j].process_name != process_name@,
                anr_list_view(anr_list@) == pre,
            decreases len - idx + (if found {
                0int
            } else {
                1int
            }),
        {
            proof {
                assert(pre[idx as int] == anr_list@[idx as int]@);
            }
            if text::str_eq(anr_list[idx].get_process_name(), process_name.as_str()) {
                found = true;
            } else {
                idx += 1;
            }
        }
        proof {
            if found {
                crate::anr_result_bean::lemma_find_anr_some_intro(pre, process_name@, idx as int);
            } else {
                crate::anr_result_bean::lemma_find_anr_none_intro(pre, process_name@);
            }
        }
        if found {
            let ghost g0 = pre[idx as int];
            let bean = &mut anr_list[idx];
            let trace_index = bean.compare_trace(&mut trace_list);
            match trace_index {
                Some(j) => {
                    proof {
                        crate::anr_result_bean::lemma_find_group_some(
                            g0.trace_file_list,
                            m,
                            0,
                            j as int,
                        );
                    }
                    bean.add_log_file_path(out_path, j);
                },
                None => {
                    let j = bean.add_traces(&trace_list);
                    bean.add_log_file_path(out_path, j);
                    proof {
                        assert(bean@.trace_file_list =~~= g0.trace_file_list.push(
                            (crate::anr_result_bean::TraceFileView {
                                traces: m,
                                log_file_paths: seq![out_path@],
                            }),
                        ));
                    }
                },
            }
            proof {
                assert(bean@ =~~= crate::anr_result_bean::group_add(g0, m, out_path@));
            }
        } else {
            let mut bean = crate::anr_result_bean::ANRResultBean::new();
            bean.set_process_name(process_name);
            let j = bean.add_traces(&trace_list);
            bean.add_log_file_path(out_path, j);
            proof {
                assert(bean@ =~~= (crate::anr_result_bean::AnrResultView {
                    process_name: item@.process_name,
                    trace_file_list: seq![
                        (crate::anr_result_bean::TraceFileView {
                            traces: m,
                            log_file_paths: seq![out_path@],
                        }),
                    ],
                }));
            }
            anr_list.push(bean);
        }
        proof {
            assert(itemsv[k as int] == item_list@[k as int]@);
            assert(anr_list_view(anr_list@) =~~= crate::anr_result_bean::anr_step(
                pre,
                itemsv[k as int],
            ));
            assert(itemsv.subrange(0, k as int).push(itemsv[k as int]) =~= itemsv.subrange(
                0,
                k + 1,
            ));
            crate::anr_result_bean::lemma_anr_of_items_snoc(
                Seq::empty(),
                itemsv.subrange(0, k as int),
                itemsv[k as int],
            );
        }
        k += 1;
    }
    proof {
        assert(itemsv.subrange(0, n as int) =~= itemsv);
    }
    anr_list
}

/// The frames that resolving a target yields, as a function of the input
/// alone: the locate scan (by pid under the time window, else by command
/// line), the main-header search, and the frame capture composed.
pub open spec fn resolved_frames(
    lines: Seq<Seq<char>>,
    pos: int,
    bean: LogItemView,
    pname: Seq<char>,
    tol: int,
) -> Option<Seq<Seq<char>>> {
    let entry: Option<int> = if bean.pid is Some {
        match locate_pid_from(lines, pos, bean.time, start_line_spec(bean), tol) {
            None => None,
            Some(pt) => Some(pt.0),
        }
    } else {
        match find_start_from(lines, pos, start_line_spec(bean)) {
            None => None,
            Some(f) => Some(f + 1),
        }
    };
    match entry {
        None => None,
        Some(p) => match find_main_from(lines, p) {
            None => None,
            Some(h) => Some(frames_of(lines, h + 1, block_end_from(lines, h + 1), pname, true)),
        },
    }
}

/// Resolution is idempotent on a frozen input: two resolutions of the same
/// target against the same lines capture identical frames.  (The exact
/// contract of `analyse_trace` equates each run\'s captured frames with
/// `resolved_frames` whenever the times involved carry their year, so the
/// two runs cannot differ.)
pub proof fn lemma_resolution_idempotent(
    lines: Seq<Seq<char>>,
    pos: int,
    bean: LogItemView,
    pname: Seq<char>,
    tol: int,
    f1: Seq<Seq<char>>,
    f2: Seq<Seq<char>>,
)
    requires
        resolved_frames(lines, pos, bean, pname, tol) == Some(f1),
        resolved_frames(lines, pos, bean, pname, tol) == Some(f2),
    ensures
        f1 == f2,
{
}

/// The Header Tracker\'s law: on a well-formed process header
/// `----- pid N at TIME -----` the extracted time is exactly the literal
/// between the ` at ` marker and the trailing ` -----`.
pub proof fn lemma_header_time_extraction(pid: Seq<char>, time: Seq<char>)
    requires
        forall|i: int| 0 <= i < pid.len() ==> '0' <= #[trigger] pid[i] && pid[i] <= '9',
    ensures
        header_time_spec("----- pid "@ + pid + " at "@ + time + " -----"@) == Some(time),
{
    reveal_strlit("----- pid ");
    reveal_strlit(" at ");
    reveal_strlit(" -----");
    reveal_strlit("at");
    let pp = "----- pid "@;
    let at4 = " at "@;
    let tail = " -----"@;
    let pat = "at"@;
    let l = pp + pid + at4 + time + tail;
    let n = pid.len() as int;
    let m = time.len() as int;
    assert(pp.len() == 10);
    assert(at4.len() == 4);
    assert(tail.len() == 6);
    assert(pat.len() == 2);
    assert(l.len() == 20 + n + m);
    let s = 11 + n;
    assert(at4[0] == ' ' && at4[1] == 'a' && at4[2] == 't' && at4[3] == ' ');
    assert(l[s] == at4[1]);
    assert(l[s + 1] == at4[2]);
    assert(l.subrange(s, s + 2) =~= pat);
    assert(text::match_at(l, pat, s));
    assert forall|i: int| 0 <= i < s implies !text::match_at(l, pat, i) by {
        if i < 10 {
            assert(l[i] == pp[i]);
            assert(pp[i] != 'a') by {
                if i == 0 || i == 1 || i == 2 || i == 3 || i == 4 {
                    assert(pp[i] == '-');
                } else if i == 5 || i == 9 {
                    assert(pp[i] == ' ');
                } else if i == 6 {
                    assert(pp[i] == 'p');
                } else if i == 7 {
                    assert(pp[i] == 'i');
                } else {
                    assert(pp[i] == 'd');
                }
            }
        } else if i < 10 + n {
            assert(l[i] == pid[i - 10]);
            assert('0' <= l[i] && l[i] <= '9');
        } else {
            assert(i == 10 + n);
            assert(l[i] == at4[0]);
        }
        assert(l[i] != 'a');
        if text::match_at(l, pat, i) {
            assert(l.subrange(i, i + 2)[0] == l[i]);
            assert(pat[0] == 'a');
        }
    }
    text::lemma_find_is_first(l, pat, s);
    let e = 14 + n + m;
    assert(l.subrange(e, e + 6) =~= tail);
    assert(text::match_at(l, tail, e));
    assert forall|i: int| e < i implies !text::match_at(l, tail, i) by {
        assert(i + 6 > l.len());
    }
    text::lemma_rfind_is_last(l, tail, e);
    assert(l.subrange(s + 3, e) =~= time);
}

/// A path with a trailing archive suffix stripped: `.zip` or `.tar.gz`
/// removed, anything else kept whole.
pub open spec fn stripped_path_spec(p: Seq<char>) -> Seq<char> {
    if ".zip"@.len() <= p.len() && text::match_at(p, ".zip"@, p.len() - ".zip"@.len()) {
        p.subrange(0, p.len() - ".zip"@.len())
    } else if ".tar.gz"@.len() <= p.len() && text::match_at(
        p,
        ".tar.gz"@,
        p.len() - ".tar.gz"@.len(),
    ) {
        p.subrange(0, p.len() - ".tar.gz"@.len())
    } else {
        p
    }
}

/// One file\'s worth of parsing: the archive suffix comes off the path, and a
/// placeholder incident records where the content would come from.  The
/// extraction of the archive itself lives outside the library.
pub fn parse_single_log(path: &str, args: &Vec<String>) -> (r: Option<Vec<ResultItemBean>>)
    ensures
        r matches Some(v) && v@.len() == 1,
        r matches Some(v) ==> v@[0]@ == (crate::result_item_bean::ResultItemView {
            process_name: "example_process"@,
            trace_list: seq!["trace1"@, "trace2"@],
            out_path: stripped_path_spec(path@),
        }),
{
    let _ = args;
    let len = path.unicode_len();
    let zlen = ".zip".unicode_len();
    let tlen = ".tar.gz".unicode_len();
    let new_path: String = if text::ends_with_str(path, ".zip") {
        String::from_str(path.substring_char(0, len - zlen))
    } else if text::ends_with_str(path, ".tar.gz") {
        String::from_str(path.substring_char(0, len - tlen))
    } else {
        String::from_str(path)
    };
    let mut traces: Vec<String> = Vec::new();
    traces.push(String::from_str("trace1"));
    traces.push(String::from_str("trace2"));
    let item = ResultItemBean::with_details(
        String::from_str("example_process"),
        traces,
        new_path,
    );
    proof {
        assert(item@.trace_list =~= seq!["trace1"@, "trace2"@]);
    }
    let mut v: Vec<ResultItemBean> = Vec::new();
    v.push(item);
    Some(v)
}

/// The reason code of classifying from position `p`: -1 without a main
/// header, else the cause code of the main block.
pub open spec fn main_reason_spec(lines: Seq<Seq<char>>, p: int) -> int {
    match find_main_from(lines, p) {
        None => -1,
        Some(h) => cause_code(cause_of(lines, h + 1, block_end_from(lines, h + 1))),
    }
}

/// The reason code of resolving a pid-less target from the start of the
/// input: locate by command line, then classify.
pub open spec fn cmd_reason_spec(lines: Seq<Seq<char>>, bean: LogItemView) -> int {
    match find_start_from(lines, 0, start_line_spec(bean)) {
        None => -1,
        Some(f) => main_reason_spec(lines, f + 1),
    }
}

/// The reason code of resolving a pid target from the start of the input:
/// locate under the window, then classify.
pub open spec fn pid_reason_spec(lines: Seq<Seq<char>>, bean: LogItemView, tol: int) -> int {
    match locate_pid_from(lines, 0, bean.time, start_line_spec(bean), tol) {
        None => -1,
        Some(pt) => main_reason_spec(lines, pt.0),
    }
}

/// The pattern the locate scan looks for: the pid header when the pid is
/// known, else the target\'s command line.
pub open spec fn start_line_spec(b: LogItemView) -> Seq<char> {
    match b.pid {
        Some(p) => "----- pid "@ + p + " at "@,
        None => "Cmd line: "@ + (match b.process_name {
            Some(n) => n,
            None => Seq::empty(),
        }),
    }
}

/// Whether a (thread, object) pair is already in the visited set.
fn pair_seen(visited: &Vec<(String, String)>, tid: &str, obj: &str) -> (r: bool)
    ensures
        r == exists|k: int|
            0 <= k < visited@.len() && visited@[k].0@ == tid@ && visited@[k].1@ == obj@,
{
    let n = visited.len();
    let mut i: usize = 0;
    while i < n
        invariant
            n == visited@.len(),
            0 <= i <= n,
            forall|k: int| 0 <= k < i ==> !(visited@[k].0@ == tid@ && visited@[k].1@ == obj@),
        decreases n - i,
    {
        if text::str_eq(visited[i].0.as_str(), tid) && text::str_eq(visited[i].1.as_str(), obj) {
            return true;
        }
        i += 1;
    }
    false
}

/// Feeding one more line to the extractor is one more step.
pub proof fn lemma_record_of_lines_snoc(r: LockRecordView, ls: Seq<Seq<char>>, l: Seq<char>)
    ensures
        record_of_lines(r, ls.push(l)) == lock_line_step(record_of_lines(r, ls), l),
    decreases ls.len(),
{
    reveal_with_fuel(record_of_lines, 3);
    if ls.len() == 0 {
        assert(ls.push(l)[0] == l);
        assert(ls.push(l).drop_first() =~= Seq::<Seq<char>>::empty());
    } else {
        assert(ls.push(l)[0] == ls[0]);
        assert(ls.push(l).drop_first() =~= ls.drop_first().push(l));
        lemma_record_of_lines_snoc(lock_line_step(r, ls[0]), ls.drop_first(), l);
    }
}

/// A sequence is a prefix of itself.
pub proof fn lemma_prefix_refl(a: Seq<Seq<char>>)
    ensures
        a.is_prefix_of(a),
{
    assert(a =~= a.subrange(0, a.len() as int));
}

/// Prefixes compose.
pub proof fn lemma_prefix_trans(a: Seq<Seq<char>>, b: Seq<Seq<char>>, c: Seq<Seq<char>>)
    requires
        a.is_prefix_of(b),
        b.is_prefix_of(c),
    ensures
        a.is_prefix_of(c),
{
    assert(a =~= c.subrange(0, a.len() as int));
}

/// A sequence is a prefix of itself followed by anything.
pub proof fn lemma_concat_prefix(a: Seq<Seq<char>>, b: Seq<Seq<char>>)
    ensures
        a.is_prefix_of(a + b),
{
    assert(a =~= (a + b).subrange(0, a.len() as int));
}

proof fn lemma_lock_map_update(
    m0: Seq<(Seq<char>, bool)>,
    m1: Seq<(Seq<char>, bool)>,
    i: int,
    key: Seq<char>,
    value: bool,
)
    requires
        0 <= i < m0.len(),
        m1 == m0.update(i, (key, value)),
        m0[i].0 == key,
        forall|j: int| 0 <= j < i ==> m0[j].0 != key,
    ensures
        lock_map_find(m1, key) == Some(value),
        forall|k2: Seq<char>| k2 != key ==> lock_map_find(m1, k2) == lock_map_find(m0, k2),
    decreases m0.len(),
{
    if i == 0 {
        assert(m1[0] == (key, value));
        assert forall|k2: Seq<char>| k2 != key implies lock_map_find(m1, k2) == lock_map_find(
            m0,
            k2,
        ) by {
            assert(m1.drop_first() =~= m0.drop_first());
        }
    } else {
        assert(m1.drop_first() =~= m0.drop_first().update(i - 1, (key, value)));
        lemma_lock_map_update(m0.drop_first(), m1.drop_first(), i - 1, key, value);
        assert(m1[0] == m0[0]);
        assert(m0[0].0 != key);
        assert forall|k2: Seq<char>| k2 != key implies lock_map_find(m1, k2) == lock_map_find(
            m0,
            k2,
        ) by {
            if m0[0].0 == k2 {
                assert(lock_map_find(m1, k2) == Some(m1[0].1));
                assert(lock_map_find(m0, k2) == Some(m0[0].1));
            } else {
                assert(lock_map_find(m1, k2) == lock_map_find(m1.drop_first(), k2));
                assert(lock_map_find(m0, k2) == lock_map_find(m0.drop_first(), k2));
            }
        }
    }
}

proof fn lemma_lock_map_append(
    m0: Seq<(Seq<char>, bool)>,
    m1: Seq<(Seq<char>, bool)>,
    key: Seq<char>,
    value: bool,
)
    requires
        m1 == m0.push((key, value)),
        forall|j: int| 0 <= j < m0.len() ==> m0[j].0 != key,
    ensures
        lock_map_find(m1, key) == Some(value),
        forall|k2: Seq<char>| k2 != key ==> lock_map_find(m1, k2) == lock_map_find(m0, k2),
    decreases m0.len(),
{
    if m0.len() == 0 {
        assert(m1[0] == (key, value));
        assert(m1.drop_first() =~= Seq::<(Seq<char>, bool)>::empty());
        assert forall|k2: Seq<char>| k2 != key implies lock_map_find(m1, k2) == lock_map_find(
            m0,
            k2,
        ) by {
            assert(lock_map_find(m1, k2) == lock_map_find(m1.drop_first(), k2));
        }
    } else {
        assert(m1.drop_first() =~= m0.drop_first().push((key, value)));
        lemma_lock_map_append(m0.drop_first(), m1.drop_first(), key, value);
        assert(m1[0] == m0[0]);
        assert(m0[0].0 != key);
        assert forall|k2: Seq<char>| k2 != key implies lock_map_find(m1, k2) == lock_map_find(
            m0,
            k2,
        ) by {
            if m0[0].0 == k2 {
                assert(lock_map_find(m1, k2) == Some(m1[0].1));
                assert(lock_map_find(m0, k2) == Some(m0[0].1));
            } else {
                assert(lock_map_find(m1, k2) == lock_map_find(m1.drop_first(), k2));
                assert(lock_map_find(m0, k2) == lock_map_find(m0.drop_first(), k2));
            }
        }
    }
}

} // verus!
