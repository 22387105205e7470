use vstd::prelude::*;

use crate::text;

verus! {

/// The millisecond count that the datetime parser assigns to a string of the
/// form `YYYY-MM-DD hh:mm:ss`, or nothing when the string is not of that form.
pub uninterp spec fn datetime_millis_of(s: Seq<char>) -> Option<i64>;

/// Relies on `chrono::NaiveDateTime::parse_from_str` with the format
/// `%Y-%m-%d %H:%M:%S`, followed by `and_utc().timestamp_millis()`: whether the
/// string parses, and the millisecond count when it does, are functions of the
/// string alone.
#[verifier::external_body]
fn parse_datetime_millis(s: &str) -> (r: Option<i64>)
    ensures
        r == datetime_millis_of(s@),
{
    chrono::NaiveDateTime::parse_from_str(s, "%Y-%m-%d %H:%M:%S").ok().map(
        |d| d.and_utc().timestamp_millis(),
    )
}

/// Relies on `chrono::Utc::now` formatted with `%Y`: the current year as text.
/// The value depends on the clock, so nothing is promised of it.  `Utc::now`
/// aborts on a host clock set before the Unix epoch; callers inherit that.
#[verifier::external_body]
fn current_year_string() -> String {
    chrono::Utc::now().format("%Y").to_string()
}

pub open spec fn view_opt(o: Option<String>) -> Option<Seq<char>> {
    match o {
        Some(s) => Some(s@),
        None => None,
    }
}

/// A time string that carries its own year: the first `-` stands at index 4,
/// as in `2024-08-16 10:02:11`.
pub open spec fn full_time(t: Seq<char>) -> bool {
    t.len() > 0 && text::find_spec(t, "-"@) == Some(4int)
}

/// The year completion step: an empty time is rejected; a time with its year in
/// place is kept; any other time gets `year-` prepended.
pub open spec fn check_time_spec(time: Seq<char>, year: Seq<char>) -> Option<Seq<char>> {
    if time.len() == 0 {
        None
    } else if text::find_spec(time, "-"@) == Some(4int) {
        Some(time)
    } else {
        Some(year + "-"@ + time)
    }
}

pub open spec fn millis_of_checked(o: Option<Seq<char>>) -> Option<i64> {
    match o {
        Some(s) => datetime_millis_of(s),
        None => None,
    }
}

/// Two time strings lie within `max` milliseconds of each other, after year
/// completion with `year`; false when either fails to parse.
pub open spec fn in_frame_spec(t1: Seq<char>, t2: Seq<char>, max: int, year: Seq<char>) -> bool {
    match (millis_of_checked(check_time_spec(t1, year)), millis_of_checked(
        check_time_spec(t2, year),
    )) {
        (Some(m1), Some(m2)) => (if m1 >= m2 {
            m1 - m2
        } else {
            m2 - m1
        }) < max,
        _ => false,
    }
}

/// `in_frame_spec` for two times that carry their own year: no completion
/// happens, so the clock plays no part.
pub open spec fn in_frame_full(t1: Seq<char>, t2: Seq<char>, max: int) -> bool {
    match (datetime_millis_of(t1), datetime_millis_of(t2)) {
        (Some(m1), Some(m2)) => (if m1 >= m2 {
            m1 - m2
        } else {
            m2 - m1
        }) < max,
        _ => false,
    }
}

/// One incident to resolve: the process, optional pid/tid, the approximate
/// time once known, and free-text description and content.
#[derive(Debug)]
pub struct LogItemBean {
    time: Option<String>,
    pid: Option<String>,
    tid: Option<String>,
    description: Option<String>,
    content: Option<String>,
    process_name: Option<String>,
    reason: Option<String>,
}

/// The mathematical content of a `LogItemBean`.
#[verifier::ext_equal]
pub struct LogItemView {
    pub time: Option<Seq<char>>,
    pub pid: Option<Seq<char>>,
    pub tid: Option<Seq<char>>,
    pub description: Option<Seq<char>>,
    pub content: Option<Seq<char>>,
    pub process_name: Option<Seq<char>>,
    pub reason: Option<Seq<char>>,
}

impl View for LogItemBean {
    type V = LogItemView;

    closed spec fn view(&self) -> LogItemView {
        LogItemView {
            time: view_opt(self.time),
            pid: view_opt(self.pid),
            tid: view_opt(self.tid),
            description: view_opt(self.description),
            content: view_opt(self.content),
            process_name: view_opt(self.process_name),
            reason: view_opt(self.reason),
        }
    }
}

pub open spec fn empty_log_item() -> LogItemView {
    LogItemView {
        time: None,
        pid: None,
        tid: None,
        description: None,
        content: None,
        process_name: None,
        reason: None,
    }
}

impl Default for LogItemBean {
    fn default() -> (r: LogItemBean)
        ensures
            r@ == empty_log_item(),
    {
        LogItemBean {
            time: None,
            pid: None,
            tid: None,
            description: None,
            content: None,
            process_name: None,
            reason: None,
        }
    }
}

impl Clone for LogItemBean {
    fn clone(&self) -> (r: LogItemBean)
        ensures
            r@ == self@,
    {
        LogItemBean {
            time: clone_opt(&self.time),
            pid: clone_opt(&self.pid),
            tid: clone_opt(&self.tid),
            description: clone_opt(&self.description),
            content: clone_opt(&self.content),
            process_name: clone_opt(&self.process_name),
            reason: clone_opt(&self.reason),
        }
    }
}

fn clone_opt(o: &Option<String>) -> (r: Option<String>)
    ensures
        view_opt(r) == view_opt(*o),
{
    match o {
        Some(s) => Some(s.clone()),
        None => None,
    }
}

impl LogItemBean {
    pub fn new() -> (r: LogItemBean)
        ensures
            r@ == empty_log_item(),
    {
        LogItemBean {
            time: None,
            pid: None,
            tid: None,
            description: None,
            content: None,
            process_name: None,
            reason: None,
        }
    }

    pub fn with_details(
        time: String,
        pid: String,
        tid: String,
        description: String,
        content: String,
    ) -> (r: LogItemBean)
        ensures
            r@ == (LogItemView {
                time: Some(time@),
                pid: Some(pid@),
                tid: Some(tid@),
                description: Some(description@),
                content: Some(content@),
                process_name: None,
                reason: None,
            }),
    {
        LogItemBean {
            time: Some(time),
            pid: Some(pid),
            tid: Some(tid),
            description: Some(description),
            content: Some(content),
            process_name: None,
            reason: None,
        }
    }

    pub fn get_reason(&self) -> (r: Option<&str>)
        ensures
            view_ref_opt(r) == self@.reason,
    {
        match &self.reason {
            Some(s) => Some(s.as_str()),
            None => None,
        }
    }

    pub fn set_reason(&mut self, reason: String)
        ensures
            final(self)@ == (LogItemView { reason: Some(reason@), ..old(self)@ }),
    {
        self.reason = Some(reason);
    }

    pub fn get_process_name(&self) -> (r: Option<&str>)
        ensures
            view_ref_opt(r) == self@.process_name,
    {
        match &self.process_name {
            Some(s) => Some(s.as_str()),
            None => None,
        }
    }

    pub fn set_process_name(&mut self, process_name: String)
        ensures
            final(self)@ == (LogItemView { process_name: Some(process_name@), ..old(self)@ }),
    {
        self.process_name = Some(process_name);
    }

    pub fn get_time(&self) -> (r: Option<&str>)
        ensures
            view_ref_opt(r) == self@.time,
    {
        match &self.time {
            Some(s) => Some(s.as_str()),
            None => None,
        }
    }

    pub fn set_time(&mut self, time: String)
        ensures
            final(self)@ == (LogItemView { time: Some(time@), ..old(self)@ }),
    {
        self.time = Some(time);
    }

    pub fn get_pid(&self) -> (r: Option<&str>)
        ensures
            view_ref_opt(r) == self@.pid,
    {
        match &self.pid {
            Some(s) => Some(s.as_str()),
            None => None,
        }
    }

    pub fn set_pid(&mut self, pid: String)
        ensures
            final(self)@ == (LogItemView { pid: Some(pid@), ..old(self)@ }),
    {
        self.pid = Some(pid);
    }

    pub fn get_tid(&self) -> (r: Option<&str>)
        ensures
            view_ref_opt(r) == self@.tid,
    {
        match &self.tid {
            Some(s) => Some(s.as_str()),
            None => None,
        }
    }

    pub fn set_tid(&mut self, tid: String)
        ensures
            final(self)@ == (LogItemView { tid: Some(tid@), ..old(self)@ }),
    {
        self.tid = Some(tid);
    }

    pub fn get_description(&self) -> (r: Option<&str>)
        ensures
            view_ref_opt(r) == self@.description,
    {
        match &self.description {
            Some(s) => Some(s.as_str()),
            None => None,
        }
    }

    pub fn set_description(&mut self, description: String)
        ensures
            final(self)@ == (LogItemView { description: Some(description@), ..old(self)@ }),
    {
        self.description = Some(description);
    }

    pub fn get_content(&self) -> (r: Option<&str>)
        ensures
            view_ref_opt(r) == self@.content,
    {
        match &self.content {
            Some(s) => Some(s.as_str()),
            None => None,
        }
    }

    pub fn set_content(&mut self, content: String)
        ensures
            final(self)@ == (LogItemView { content: Some(content@), ..old(self)@ }),
    {
        self.content = Some(content);
    }

    /// Two incidents describe the same event: equal pid, and, when both carry
    /// a time, times within `max_time_diff` milliseconds.
    pub fn equals(&self, other: &LogItemBean, max_time_diff: i64) -> (r: bool)
        ensures
            other@.time is None ==> r == (self@.pid == other@.pid),
            other@.time is Some && self@.time is None ==> r == false,
            (other@.time is Some && self@.time is Some && full_time(self@.time->0) && full_time(
                other@.time->0,
            )) ==> r == (self@.pid == other@.pid && in_frame_full(
                self@.time->0,
                other@.time->0,
                max_time_diff as int,
            )),
    {
        match other.get_time() {
            None => text::opt_str_eq(&self.pid, &other.pid),
            Some(t2) => {
                if self.time.is_none() {
                    return false;
                }
                if text::opt_str_eq(&self.pid, &other.pid) {
                    self.time_in_frame(t2, max_time_diff)
                } else {
                    false
                }
            },
        }
    }

    /// Whether `time2` lies within `max_time_diff` milliseconds of this
    /// incident's own time.  When both times carry their year the result is a
    /// function of the two strings; otherwise the missing year is taken from
    /// the clock, and all that is promised is that a positive answer means the
    /// two times agree under some year completion.
    pub fn time_in_frame(&self, time2: &str, max_time_diff: i64) -> (r: bool)
        requires
            self@.time is Some,
        ensures
            (full_time(self@.time->0) && full_time(time2@)) ==> r == in_frame_full(
                self@.time->0,
                time2@,
                max_time_diff as int,
            ),
            r ==> exists|year: Seq<char>| in_frame_spec(
                self@.time->0,
                time2@,
                max_time_diff as int,
                year,
            ),
    {
        let year = current_year_string();
        let t1 = match &self.time {
            Some(t) => check_time(t.as_str(), year.as_str()),
            None => None,
        };
        let t2 = check_time(time2, year.as_str());
        let m1 = match t1 {
            Some(s) => parse_datetime_millis(s.as_str()),
            None => None,
        };
        let m2 = match t2 {
            Some(s) => parse_datetime_millis(s.as_str()),
            None => None,
        };
        let r = match (m1, m2) {
            (Some(a), Some(b)) => {
                let big = if a >= b {
                    a
                } else {
                    b
                };
                let small = if a >= b {
                    b
                } else {
                    a
                };
                match big.checked_sub(small) {
                    Some(diff) => diff < max_time_diff,
                    None => false,
                }
            },
            _ => false,
        };
        proof {
            if r {
                assert(in_frame_spec(self@.time->0, time2@, max_time_diff as int, year@));
            }
        }
        r
    }
}

pub open spec fn view_ref_opt(o: Option<&str>) -> Option<Seq<char>> {
    match o {
        Some(s) => Some(s@),
        None => None,
    }
}

/// The year completion step of `check_time_spec`, with the year handed in.
fn check_time(time: &str, year: &str) -> (r: Option<String>)
    ensures
        view_opt(r) == check_time_spec(time@, year@),
{
    let len = time.unicode_len();
    if len == 0 {
        return None;
    }
    let at_four = match text::find_str(time, "-") {
        Some(i) => i == 4,
        None => false,
    };
    if at_four {
        Some(String::from_str(time))
    } else {
        let mut s = String::from_str(year);
        s.append("-");
        s.append(time);
        proof {
            assert(s@ =~= year@ + "-"@ + time@);
        }
        Some(s)
    }
}

} // verus!
