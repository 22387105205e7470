use vstd::prelude::*;

verus! {

/// A re-scannable cursor over the lines of a trace file.  All resolution
/// passes run over the same cursor; a pass that must start over resets it
/// rather than reopening anything.
pub struct LineCursor {
    lines: Vec<String>,
    pos: usize,
}

impl LineCursor {
    /// The lines the cursor ranges over.
    pub closed spec fn lines(&self) -> Seq<Seq<char>> {
        self.lines.deep_view()
    }

    /// The position of the next line to be read.
    pub closed spec fn pos(&self) -> int {
        self.pos as int
    }

    pub open spec fn wf(&self) -> bool {
        0 <= self.pos() <= self.lines().len()
    }

    pub fn new(lines: Vec<String>) -> (r: LineCursor)
        ensures
            r.lines() == lines.deep_view(),
            r.pos() == 0,
            r.wf(),
    {
        LineCursor { lines, pos: 0 }
    }

    /// Reads the next line and advances, or reports the end of the input.
    pub fn read_next_line(&mut self) -> (r: Option<&String>)
        requires
            old(self).wf(),
        ensures
            final(self).wf(),
            final(self).lines() == old(self).lines(),
            match r {
                Some(l) => {
                    &&& old(self).pos() < old(self).lines().len()
                    &&& l@ == old(self).lines()[old(self).pos()]
                    &&& final(self).pos() == old(self).pos() + 1
                },
                None => {
                    &&& old(self).pos() == old(self).lines().len()
                    &&& final(self).pos() == old(self).pos()
                },
            },
    {
        if self.pos < self.lines.len() {
            let i = self.pos;
            self.pos = self.pos + 1;
            Some(&self.lines[i])
        } else {
            None
        }
    }

    /// How many lines the cursor ranges over.
    pub fn lines_len(&self) -> (r: usize)
        ensures
            r == self.lines().len(),
    {
        self.lines.len()
    }

    /// Rewinds the cursor to the first line.
    pub fn reset_to_start(&mut self)
        ensures
            final(self).wf(),
            final(self).lines() == old(self).lines(),
            final(self).pos() == 0,
    {
        self.pos = 0;
    }
}

} // verus!
