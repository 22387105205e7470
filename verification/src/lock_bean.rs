use vstd::prelude::*;

verus! {

/// One `held by` attribution: a thread id (always in `tid=N` form) and,
/// when the source line carried one, the thread's name.
#[derive(Debug, Clone)]
pub struct HeldThread {
    pub tid: String,
    pub thread_name: Option<String>,
}

impl View for HeldThread {
    type V = (Seq<char>, Option<Seq<char>>);

    open spec fn view(&self) -> (Seq<char>, Option<Seq<char>>) {
        (
            self.tid@,
            match self.thread_name {
                Some(ref n) => Some(n@),
                None => None,
            },
        )
    }
}

impl HeldThread {
    pub fn new(tid: String, thread_name: Option<String>) -> (r: HeldThread)
        ensures
            r.tid == tid,
            r.thread_name == thread_name,
    {
        HeldThread { tid, thread_name }
    }
}

/// The lock-ownership facts extracted from one thread's frame block:
/// which objects the thread holds, which it waits for, and which threads
/// were named as the holders it waits on.  Each list preserves the order
/// in which the facts appeared in the input.
#[derive(Debug)]
pub struct LockBean {
    locked_objects: Vec<String>,
    waiting_objects: Vec<String>,
    waiting_threads: Vec<HeldThread>,
}

/// The mathematical content of a `LockBean`.
#[verifier::ext_equal]
pub struct LockRecordView {
    pub locked_objects: Seq<Seq<char>>,
    pub waiting_objects: Seq<Seq<char>>,
    pub waiting_threads: Seq<(Seq<char>, Option<Seq<char>>)>,
}

impl View for LockBean {
    type V = LockRecordView;

    closed spec fn view(&self) -> LockRecordView {
        LockRecordView {
            locked_objects: self.locked_objects.deep_view(),
            waiting_objects: self.waiting_objects.deep_view(),
            waiting_threads: Seq::new(
                self.waiting_threads@.len(),
                |i: int| self.waiting_threads@[i]@,
            ),
        }
    }
}

pub open spec fn empty_record() -> LockRecordView {
    LockRecordView {
        locked_objects: Seq::empty(),
        waiting_objects: Seq::empty(),
        waiting_threads: Seq::empty(),
    }
}

impl LockBean {
    pub fn new() -> (r: LockBean)
        ensures
            r@ == empty_record(),
    {
        let r = LockBean {
            locked_objects: Vec::new(),
            waiting_objects: Vec::new(),
            waiting_threads: Vec::new(),
        };
        proof {
            assert(r@.waiting_threads =~= empty_record().waiting_threads);
            assert(r@.locked_objects =~= empty_record().locked_objects);
            assert(r@.waiting_objects =~= empty_record().waiting_objects);
        }
        r
    }

    pub fn add_lock(&mut self, object: String)
        ensures
            final(self)@.locked_objects == old(self)@.locked_objects.push(object@),
            final(self)@.waiting_objects == old(self)@.waiting_objects,
            final(self)@.waiting_threads == old(self)@.waiting_threads,
    {
        self.locked_objects.push(object);
        proof {
            assert(self@.locked_objects =~= old(self)@.locked_objects.push(object@));
            assert(self@.waiting_threads =~= old(self)@.waiting_threads);
        }
    }

    pub fn add_waiting(&mut self, object: String)
        ensures
            final(self)@.waiting_objects == old(self)@.waiting_objects.push(object@),
            final(self)@.locked_objects == old(self)@.locked_objects,
            final(self)@.waiting_threads == old(self)@.waiting_threads,
    {
        self.waiting_objects.push(object);
        proof {
            assert(self@.waiting_objects =~= old(self)@.waiting_objects.push(object@));
            assert(self@.waiting_threads =~= old(self)@.waiting_threads);
        }
    }

    pub fn add_waiting_thread(&mut self, tid: String, thread_name: Option<String>)
        ensures
            final(self)@.waiting_threads == old(self)@.waiting_threads.push(
                (HeldThread { tid, thread_name })@,
            ),
            final(self)@.locked_objects == old(self)@.locked_objects,
            final(self)@.waiting_objects == old(self)@.waiting_objects,
    {
        let t = HeldThread { tid, thread_name };
        self.waiting_threads.push(t);
        proof {
            assert(self@.waiting_threads =~= old(self)@.waiting_threads.push(t@));
        }
    }

    pub fn get_locked_objects(&self) -> (r: &Vec<String>)
        ensures
            r.deep_view() == self@.locked_objects,
    {
        &self.locked_objects
    }

    pub fn get_waiting_objects(&self) -> (r: &Vec<String>)
        ensures
            r.deep_view() == self@.waiting_objects,
    {
        &self.waiting_objects
    }

    pub fn get_waiting_threads(&self) -> (r: &Vec<HeldThread>)
        ensures
            r@.len() == self@.waiting_threads.len(),
            forall|i: int| 0 <= i < r@.len() ==> r@[i]@ == self@.waiting_threads[i],
    {
        &self.waiting_threads
    }

    pub fn clear(&mut self)
        ensures
            final(self)@ == empty_record(),
    {
        self.locked_objects.clear();
        self.waiting_objects.clear();
        self.waiting_threads.clear();
        proof {
            assert(self@.locked_objects =~= empty_record().locked_objects);
            assert(self@.waiting_objects =~= empty_record().waiting_objects);
            assert(self@.waiting_threads =~= empty_record().waiting_threads);
        }
    }
}

} // verus!
