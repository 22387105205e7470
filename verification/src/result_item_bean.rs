use vstd::prelude::*;

verus! {

/// One resolved incident: the owning process, the captured stack frames, and
/// the path recorded for the reconstruction output.
#[derive(Debug)]
pub struct ResultItemBean {
    process_name: String,
    trace_list: Vec<String>,
    out_path: String,
}

/// The mathematical content of a `ResultItemBean`.
#[verifier::ext_equal]
pub struct ResultItemView {
    pub process_name: Seq<char>,
    pub trace_list: Seq<Seq<char>>,
    pub out_path: Seq<char>,
}

impl View for ResultItemBean {
    type V = ResultItemView;

    closed spec fn view(&self) -> ResultItemView {
        ResultItemView {
            process_name: self.process_name@,
            trace_list: self.trace_list.deep_view(),
            out_path: self.out_path@,
        }
    }
}

pub open spec fn empty_result_item() -> ResultItemView {
    ResultItemView {
        process_name: Seq::empty(),
        trace_list: Seq::empty(),
        out_path: Seq::empty(),
    }
}

impl ResultItemBean {
    pub fn new() -> (r: ResultItemBean)
        ensures
            r@ == empty_result_item(),
    {
        let r = ResultItemBean {
            process_name: String::new(),
            trace_list: Vec::new(),
            out_path: String::new(),
        };
        proof {
            assert(r@.trace_list =~= empty_result_item().trace_list);
        }
        r
    }

    pub fn with_details(process_name: String, trace_list: Vec<String>, out_path: String) -> (r:
        ResultItemBean)
        ensures
            r@ == (ResultItemView {
                process_name: process_name@,
                trace_list: trace_list.deep_view(),
                out_path: out_path@,
            }),
    {
        ResultItemBean { process_name, trace_list, out_path }
    }

    pub fn set_process_name(&mut self, name: String)
        ensures
            final(self)@ == (ResultItemView { process_name: name@, ..old(self)@ }),
    {
        self.process_name = name;
    }

    /// Appends one line to the trace list.
    pub fn set_trace_list(&mut self, line: String)
        ensures
            final(self)@ == (ResultItemView {
                trace_list: old(self)@.trace_list.push(line@),
                ..old(self)@
            }),
    {
        self.trace_list.push(line);
        proof {
            assert(self@.trace_list =~= old(self)@.trace_list.push(line@));
        }
    }

    pub fn set_out_path(&mut self, path: String)
        ensures
            final(self)@ == (ResultItemView { out_path: path@, ..old(self)@ }),
    {
        self.out_path = path;
    }

    pub fn get_process_name(&self) -> (r: &str)
        ensures
            r@ == self@.process_name,
    {
        self.process_name.as_str()
    }

    pub fn get_trace_list(&self) -> (r: &Vec<String>)
        ensures
            r.deep_view() == self@.trace_list,
    {
        &self.trace_list
    }

    pub fn get_out_path(&self) -> (r: &str)
        ensures
            r@ == self@.out_path,
    {
        self.out_path.as_str()
    }

    pub fn get_process_name_mut(&mut self) -> (r: &mut String)
        ensures
            r@ == old(self)@.process_name,
            final(self)@ == (ResultItemView { process_name: final(r)@, ..old(self)@ }),
    {
        &mut self.process_name
    }

    pub fn get_trace_list_mut(&mut self) -> (r: &mut Vec<String>)
        ensures
            r.deep_view() == old(self)@.trace_list,
            final(self)@ == (ResultItemView { trace_list: final(r).deep_view(), ..old(self)@ }),
    {
        &mut self.trace_list
    }

    pub fn get_out_path_mut(&mut self) -> (r: &mut String)
        ensures
            r@ == old(self)@.out_path,
            final(self)@ == (ResultItemView { out_path: final(r)@, ..old(self)@ }),
    {
        &mut self.out_path
    }
}

} // verus!
