use vstd::prelude::*;

use crate::text;
use vstd::multiset::Multiset;

verus! {

/// One occurrence group: a normalized stack signature and the source paths of
/// every incident that matched it.
#[derive(Debug)]
struct TraceAndFile {
    traces: Vec<String>,
    log_file_paths: Vec<String>,
}

/// The mathematical content of one occurrence group.
#[verifier::ext_equal]
pub struct TraceFileView {
    pub traces: Seq<Seq<char>>,
    pub log_file_paths: Seq<Seq<char>>,
}

impl View for TraceAndFile {
    type V = TraceFileView;

    closed spec fn view(&self) -> TraceFileView {
        TraceFileView {
            traces: self.traces.deep_view(),
            log_file_paths: self.log_file_paths.deep_view(),
        }
    }
}

/// All occurrence groups collected for one process.
#[derive(Debug)]
pub struct ANRResultBean {
    process_name: String,
    trace_file_list: Vec<TraceAndFile>,
}

/// The mathematical content of an `ANRResultBean`.
#[verifier::ext_equal]
pub struct AnrResultView {
    pub process_name: Seq<char>,
    pub trace_file_list: Seq<TraceFileView>,
}

impl View for ANRResultBean {
    type V = AnrResultView;

    closed spec fn view(&self) -> AnrResultView {
        AnrResultView {
            process_name: self.process_name@,
            trace_file_list: Seq::new(
                self.trace_file_list@.len(),
                |i: int| self.trace_file_list@[i]@,
            ),
        }
    }
}

/// Frame-wise normalization: every digit of every frame replaced by the
/// placeholder.
pub open spec fn normalize_spec(ts: Seq<Seq<char>>) -> Seq<Seq<char>> {
    ts.map_values(|t: Seq<char>| text::mask_spec(t))
}

/// Normalization is a projection: applying it twice is the same as applying
/// it once.
pub proof fn lemma_normalize_projection(ts: Seq<Seq<char>>)
    ensures
        normalize_spec(normalize_spec(ts)) == normalize_spec(ts),
{
    assert forall|i: int| 0 <= i < ts.len() implies normalize_spec(normalize_spec(ts))[i]
        == normalize_spec(ts)[i] by {
        text::lemma_mask_idempotent(ts[i]);
    }
    assert(normalize_spec(normalize_spec(ts)) =~= normalize_spec(ts));
}

/// Position of the first occurrence group whose signature equals `m`, starting
/// the search at `i`.
pub open spec fn find_group_from(list: Seq<TraceFileView>, m: Seq<Seq<char>>, i: int) -> Option<
    int,
>
    decreases list.len() - i + 1,
{
    if i < 0 || i >= list.len() {
        None
    } else if list[i].traces == m {
        Some(i)
    } else {
        find_group_from(list, m, i + 1)
    }
}

pub open spec fn find_group(list: Seq<TraceFileView>, m: Seq<Seq<char>>) -> Option<int> {
    find_group_from(list, m, 0)
}

/// Adding one normalized incident to a process\'s groups: the first group
/// with the same signature gains the path; failing that, a new group opens.
pub open spec fn group_add(g: AnrResultView, m: Seq<Seq<char>>, path: Seq<char>) -> AnrResultView {
    match find_group(g.trace_file_list, m) {
        Some(j) => AnrResultView {
            trace_file_list: g.trace_file_list.update(
                j,
                (TraceFileView {
                    log_file_paths: g.trace_file_list[j].log_file_paths.push(path),
                    ..g.trace_file_list[j]
                }),
            ),
            ..g
        },
        None => AnrResultView {
            trace_file_list: g.trace_file_list.push(
                (TraceFileView { traces: m, log_file_paths: seq![path] }),
            ),
            ..g
        },
    }
}

/// The source paths that the groups with signature `m` hold, as a multiset:
/// their order is no part of the grouping.
pub open spec fn sig_paths(list: Seq<TraceFileView>, m: Seq<Seq<char>>) -> Multiset<Seq<char>>
    decreases list.len(),
{
    if list.len() == 0 {
        Multiset::empty()
    } else {
        (if list[0].traces == m {
            list[0].log_file_paths.to_multiset()
        } else {
            Multiset::empty()
        }).add(sig_paths(list.drop_first(), m))
    }
}

/// A signature-preserving update leaves every group search unchanged.
proof fn lemma_find_group_update(
    list: Seq<TraceFileView>,
    j: int,
    e: TraceFileView,
    m: Seq<Seq<char>>,
    i: int,
)
    requires
        0 <= j < list.len(),
        e.traces == list[j].traces,
    ensures
        find_group_from(list.update(j, e), m, i) == find_group_from(list, m, i),
    decreases list.len() - i + 1,
{
    if !(i < 0 || i >= list.len()) {
        assert(list.update(j, e)[i].traces == list[i].traces);
        if list[i].traces != m {
            lemma_find_group_update(list, j, e, m, i + 1);
        }
    }
}

/// Searching after a push: an existing match is kept; a fresh signature is
/// found at the new end, and only there.
proof fn lemma_find_group_push(
    list: Seq<TraceFileView>,
    e: TraceFileView,
    m: Seq<Seq<char>>,
    i: int,
)
    requires
        0 <= i <= list.len(),
    ensures
        find_group_from(list.push(e), m, i) == match find_group_from(list, m, i) {
            Some(j) => Some(j),
            None => if e.traces == m {
                Some(list.len() as int)
            } else {
                None
            },
        },
    decreases list.len() - i + 1,
{
    if i < list.len() {
        assert(list.push(e)[i] == list[i]);
        if list[i].traces != m {
            lemma_find_group_push(list, e, m, i + 1);
        }
    } else {
        assert(list.push(e)[i] == e);
        reveal_with_fuel(find_group_from, 3);
    }
}

/// Two paths appended to one group in either order carry the same multiset.
proof fn lemma_sig_paths_update_two(
    list: Seq<TraceFileView>,
    j: int,
    p1: Seq<char>,
    p2: Seq<char>,
    m: Seq<Seq<char>>,
)
    requires
        0 <= j < list.len(),
    ensures
        sig_paths(
            list.update(
                j,
                (TraceFileView {
                    log_file_paths: list[j].log_file_paths.push(p1).push(p2),
                    ..list[j]
                }),
            ),
            m,
        ) == sig_paths(
            list.update(
                j,
                (TraceFileView {
                    log_file_paths: list[j].log_file_paths.push(p2).push(p1),
                    ..list[j]
                }),
            ),
            m,
        ),
    decreases list.len(),
{
    broadcast use vstd::seq_lib::group_to_multiset_ensures;

    let ea = TraceFileView {
        log_file_paths: list[j].log_file_paths.push(p1).push(p2),
        ..list[j]
    };
    let eb = TraceFileView {
        log_file_paths: list[j].log_file_paths.push(p2).push(p1),
        ..list[j]
    };
    let la = list.update(j, ea);
    let lb = list.update(j, eb);
    if j == 0 {
        assert(la.drop_first() =~= list.drop_first());
        assert(lb.drop_first() =~= list.drop_first());
        if list[0].traces == m {
            let base = list[0].log_file_paths;
            assert(base.push(p1).push(p2).to_multiset() =~= base.to_multiset().insert(p1).insert(
                p2,
            ));
            assert(base.push(p2).push(p1).to_multiset() =~= base.to_multiset().insert(p2).insert(
                p1,
            ));
            assert(base.to_multiset().insert(p1).insert(p2) =~= base.to_multiset().insert(
                p2,
            ).insert(p1));
        }
    } else {
        assert(la[0] == list[0]);
        assert(lb[0] == list[0]);
        assert(la.drop_first() =~= list.drop_first().update(j - 1, ea));
        assert(lb.drop_first() =~= list.drop_first().update(j - 1, eb));
        assert(list.drop_first()[j - 1] == list[j]);
        lemma_sig_paths_update_two(list.drop_first(), j - 1, p1, p2, m);
    }
}

/// A fresh group pushed with its two paths in either order carries the same
/// multiset.
proof fn lemma_sig_paths_push_two(
    list: Seq<TraceFileView>,
    mm: Seq<Seq<char>>,
    p1: Seq<char>,
    p2: Seq<char>,
    m: Seq<Seq<char>>,
)
    ensures
        sig_paths(
            list.push((TraceFileView { traces: mm, log_file_paths: seq![p1, p2] })),
            m,
        ) == sig_paths(
            list.push((TraceFileView { traces: mm, log_file_paths: seq![p2, p1] })),
            m,
        ),
    decreases list.len(),
{
    broadcast use vstd::seq_lib::group_to_multiset_ensures;

    let ea = TraceFileView { traces: mm, log_file_paths: seq![p1, p2] };
    let eb = TraceFileView { traces: mm, log_file_paths: seq![p2, p1] };
    if list.len() == 0 {
        reveal_with_fuel(sig_paths, 3);
        assert(list.push(ea)[0] == ea);
        assert(list.push(eb)[0] == eb);
        assert(list.push(ea).drop_first() =~= Seq::<TraceFileView>::empty());
        assert(list.push(eb).drop_first() =~= Seq::<TraceFileView>::empty());
        if mm == m {
            let base = Seq::<Seq<char>>::empty();
            assert(seq![p1, p2] =~= base.push(p1).push(p2));
            assert(seq![p2, p1] =~= base.push(p2).push(p1));
            assert(seq![p1, p2].to_multiset() =~= base.to_multiset().insert(p1).insert(p2));
            assert(seq![p2, p1].to_multiset() =~= base.to_multiset().insert(p2).insert(p1));
            assert(base.to_multiset().insert(p1).insert(p2) =~= base.to_multiset().insert(
                p2,
            ).insert(p1));
        }
    } else {
        assert(list.push(ea)[0] == list[0]);
        assert(list.push(eb)[0] == list[0]);
        assert(list.push(ea).drop_first() =~= list.drop_first().push(ea));
        assert(list.push(eb).drop_first() =~= list.drop_first().push(eb));
        lemma_sig_paths_push_two(list.drop_first(), mm, p1, p2, m);
    }
}

/// Grouping is symmetric in the order of incidents: the same two incidents
/// for one process, grouped in either order into the same starting
/// collection, give the same number of occurrence groups, and every
/// signature carries the same multiset of source paths (only the order
/// inside a path list may differ).
pub proof fn lemma_grouping_symmetric(
    g: AnrResultView,
    m1: Seq<Seq<char>>,
    p1: Seq<char>,
    m2: Seq<Seq<char>>,
    p2: Seq<char>,
)
    ensures
        ({
            let ga = group_add(group_add(g, m1, p1), m2, p2);
            let gb = group_add(group_add(g, m2, p2), m1, p1);
            &&& ga.trace_file_list.len() == gb.trace_file_list.len()
            &&& forall|m: Seq<Seq<char>>| #![trigger sig_paths(ga.trace_file_list, m)] sig_paths(
                ga.trace_file_list,
                m,
            ) == sig_paths(gb.trace_file_list, m)
        }),
{
    let l = g.trace_file_list;
    let ga = group_add(group_add(g, m1, p1), m2, p2);
    let gb = group_add(group_add(g, m2, p2), m1, p1);
    match (find_group(l, m1), find_group(l, m2)) {
        (Some(j1), Some(j2)) => {
            lemma_find_group_some(l, m1, 0, j1);
            lemma_find_group_some(l, m2, 0, j2);
            let e1 = TraceFileView {
                log_file_paths: l[j1].log_file_paths.push(p1),
                ..l[j1]
            };
            let e2 = TraceFileView {
                log_file_paths: l[j2].log_file_paths.push(p2),
                ..l[j2]
            };
            lemma_find_group_update(l, j1, e1, m2, 0);
            lemma_find_group_update(l, j2, e2, m1, 0);
            if m1 == m2 {
                assert(j1 == j2);
                assert(ga.trace_file_list =~= l.update(
                    j1,
                    (TraceFileView {
                        log_file_paths: l[j1].log_file_paths.push(p1).push(p2),
                        ..l[j1]
                    }),
                ));
                assert(gb.trace_file_list =~= l.update(
                    j1,
                    (TraceFileView {
                        log_file_paths: l[j1].log_file_paths.push(p2).push(p1),
                        ..l[j1]
                    }),
                ));
                assert forall|m: Seq<Seq<char>>| #![trigger sig_paths(ga.trace_file_list, m)]
                    sig_paths(ga.trace_file_list, m) == sig_paths(gb.trace_file_list, m) by {
                    lemma_sig_paths_update_two(l, j1, p1, p2, m);
                }
            } else {
                assert(j1 != j2);
                assert(ga.trace_file_list =~= gb.trace_file_list);
            }
        },
        (Some(j1), None) => {
            lemma_find_group_some(l, m1, 0, j1);
            let e1 = TraceFileView {
                log_file_paths: l[j1].log_file_paths.push(p1),
                ..l[j1]
            };
            let e2 = TraceFileView { traces: m2, log_file_paths: seq![p2] };
            lemma_find_group_update(l, j1, e1, m2, 0);
            lemma_find_group_push(l, e2, m1, 0);
            assert(m1 != m2);
            assert(ga.trace_file_list =~= l.update(j1, e1).push(e2));
            assert(gb.trace_file_list =~= l.push(e2).update(j1, e1));
            assert(ga.trace_file_list =~= gb.trace_file_list);
        },
        (None, Some(j2)) => {
            lemma_find_group_some(l, m2, 0, j2);
            let e1 = TraceFileView { traces: m1, log_file_paths: seq![p1] };
            let e2 = TraceFileView {
                log_file_paths: l[j2].log_file_paths.push(p2),
                ..l[j2]
            };
            lemma_find_group_update(l, j2, e2, m1, 0);
            lemma_find_group_push(l, e1, m2, 0);
            assert(m1 != m2);
            assert(ga.trace_file_list =~= l.push(e1).update(j2, e2));
            assert(gb.trace_file_list =~= l.update(j2, e2).push(e1));
            assert(ga.trace_file_list =~= gb.trace_file_list);
        },
        (None, None) => {
            let e1 = TraceFileView { traces: m1, log_file_paths: seq![p1] };
            let e2 = TraceFileView { traces: m2, log_file_paths: seq![p2] };
            lemma_find_group_push(l, e1, m2, 0);
            lemma_find_group_push(l, e2, m1, 0);
            if m1 == m2 {
                assert(ga.trace_file_list =~~= l.push(
                    (TraceFileView { traces: m1, log_file_paths: seq![p1, p2] }),
                ));
                assert(gb.trace_file_list =~~= l.push(
                    (TraceFileView { traces: m1, log_file_paths: seq![p2, p1] }),
                ));
                assert forall|m: Seq<Seq<char>>| #![trigger sig_paths(ga.trace_file_list, m)]
                    sig_paths(ga.trace_file_list, m) == sig_paths(gb.trace_file_list, m) by {
                    lemma_sig_paths_push_two(l, m1, p1, p2, m);
                }
            } else {
                let la = l.push(e1).push(e2);
                let lb = l.push(e2).push(e1);
                assert(ga.trace_file_list =~= la);
                assert(gb.trace_file_list =~= lb);
                assert forall|m: Seq<Seq<char>>| #![trigger sig_paths(ga.trace_file_list, m)]
                    sig_paths(ga.trace_file_list, m) == sig_paths(gb.trace_file_list, m) by {
                    lemma_sig_paths_swap_tail(l, e1, e2, m);
                }
            }
        },
    }
}

/// Two distinct fresh groups pushed in either order carry the same multisets.
proof fn lemma_sig_paths_swap_tail(
    list: Seq<TraceFileView>,
    e1: TraceFileView,
    e2: TraceFileView,
    m: Seq<Seq<char>>,
)
    ensures
        sig_paths(list.push(e1).push(e2), m) == sig_paths(list.push(e2).push(e1), m),
    decreases list.len(),
{
    if list.len() == 0 {
        reveal_with_fuel(sig_paths, 4);
        let la = list.push(e1).push(e2);
        let lb = list.push(e2).push(e1);
        assert(la[0] == e1 && la[1] == e2);
        assert(lb[0] == e2 && lb[1] == e1);
        assert(la.drop_first() =~= Seq::<TraceFileView>::empty().push(e2));
        assert(lb.drop_first() =~= Seq::<TraceFileView>::empty().push(e1));
        assert(la.drop_first().drop_first() =~= Seq::<TraceFileView>::empty());
        assert(lb.drop_first().drop_first() =~= Seq::<TraceFileView>::empty());
        assert(la.drop_first()[0] == e2);
        assert(lb.drop_first()[0] == e1);
        assert(sig_paths(la, m) =~= sig_paths(lb, m));
    } else {
        let la = list.push(e1).push(e2);
        let lb = list.push(e2).push(e1);
        assert(la[0] == list[0]);
        assert(lb[0] == list[0]);
        assert(la.drop_first() =~= list.drop_first().push(e1).push(e2));
        assert(lb.drop_first() =~= list.drop_first().push(e2).push(e1));
        lemma_sig_paths_swap_tail(list.drop_first(), e1, e2, m);
    }
}

/// Where `find_group_from` points, the signature matches, inside the list.
pub proof fn lemma_find_group_some(list: Seq<TraceFileView>, m: Seq<Seq<char>>, i: int, j: int)
    requires
        find_group_from(list, m, i) == Some(j),
    ensures
        i <= j < list.len(),
        list[j].traces == m,
    decreases list.len() - i + 1,
{
    if !(i < 0 || i >= list.len()) && list[i].traces != m {
        lemma_find_group_some(list, m, i + 1, j);
    }
}

/// Position of the first per-process collection with the given name.
pub open spec fn find_anr_from(list: Seq<AnrResultView>, pname: Seq<char>, i: int) -> Option<int>
    decreases list.len() - i + 1,
{
    if i < 0 || i >= list.len() {
        None
    } else if list[i].process_name == pname {
        Some(i)
    } else {
        find_anr_from(list, pname, i + 1)
    }
}

pub open spec fn find_anr(list: Seq<AnrResultView>, pname: Seq<char>) -> Option<int> {
    find_anr_from(list, pname, 0)
}

/// Where `find_anr_from` points, the name matches, inside the list.
pub proof fn lemma_find_anr_some(list: Seq<AnrResultView>, pname: Seq<char>, i: int, j: int)
    requires
        find_anr_from(list, pname, i) == Some(j),
    ensures
        i <= j < list.len(),
        list[j].process_name == pname,
    decreases list.len() - i + 1,
{
    if !(i < 0 || i >= list.len()) && list[i].process_name != pname {
        lemma_find_anr_some(list, pname, i + 1, j);
    }
}

/// A matching position with no earlier match is where `find_anr` points.
pub proof fn lemma_find_anr_some_intro(list: Seq<AnrResultView>, pname: Seq<char>, j: int)
    requires
        0 <= j < list.len(),
        list[j].process_name == pname,
        forall|i: int| 0 <= i < j ==> list[i].process_name != pname,
    ensures
        find_anr(list, pname) == Some(j),
{
    lemma_find_anr_some_intro_from(list, pname, j, 0);
}

proof fn lemma_find_anr_some_intro_from(list: Seq<AnrResultView>, pname: Seq<char>, j: int, i: int)
    requires
        0 <= i <= j < list.len(),
        list[j].process_name == pname,
        forall|k: int| i <= k < j ==> list[k].process_name != pname,
    ensures
        find_anr_from(list, pname, i) == Some(j),
    decreases j - i,
{
    if i < j {
        lemma_find_anr_some_intro_from(list, pname, j, i + 1);
    }
}

/// With no matching name anywhere, `find_anr` finds nothing.
pub proof fn lemma_find_anr_none_intro(list: Seq<AnrResultView>, pname: Seq<char>)
    requires
        forall|i: int| 0 <= i < list.len() ==> list[i].process_name != pname,
    ensures
        find_anr(list, pname) is None,
{
    lemma_find_anr_none_intro_from(list, pname, 0);
}

proof fn lemma_find_anr_none_intro_from(list: Seq<AnrResultView>, pname: Seq<char>, i: int)
    requires
        0 <= i,
        forall|k: int| i <= k < list.len() ==> list[k].process_name != pname,
    ensures
        find_anr_from(list, pname, i) is None,
    decreases list.len() - i + 1,
{
    if i < list.len() {
        lemma_find_anr_none_intro_from(list, pname, i + 1);
    }
}

/// Folding one resolved incident into the per-process collections: the
/// incident\'s normalized signature joins its process\'s groups, and a process
/// not seen before gets a collection of its own.
pub open spec fn anr_step(
    list: Seq<AnrResultView>,
    item: crate::result_item_bean::ResultItemView,
) -> Seq<AnrResultView> {
    let m = normalize_spec(item.trace_list);
    match find_anr(list, item.process_name) {
        Some(i) => list.update(i, group_add(list[i], m, item.out_path)),
        None => list.push(
            (AnrResultView {
                process_name: item.process_name,
                trace_file_list: seq![
                    (TraceFileView { traces: m, log_file_paths: seq![item.out_path] }),
                ],
            }),
        ),
    }
}

/// The per-process collections that a run of resolved incidents builds up.
pub open spec fn anr_of_items(
    list: Seq<AnrResultView>,
    items: Seq<crate::result_item_bean::ResultItemView>,
) -> Seq<AnrResultView>
    decreases items.len(),
{
    if items.len() == 0 {
        list
    } else {
        anr_of_items(anr_step(list, items[0]), items.drop_first())
    }
}

/// Folding one more incident is one more step.
pub proof fn lemma_anr_of_items_snoc(
    list: Seq<AnrResultView>,
    items: Seq<crate::result_item_bean::ResultItemView>,
    item: crate::result_item_bean::ResultItemView,
)
    ensures
        anr_of_items(list, items.push(item)) == anr_step(anr_of_items(list, items), item),
    decreases items.len(),
{
    reveal_with_fuel(anr_of_items, 3);
    if items.len() == 0 {
        assert(items.push(item)[0] == item);
        assert(items.push(item).drop_first()
            =~= Seq::<crate::result_item_bean::ResultItemView>::empty());
    } else {
        assert(items.push(item)[0] == items[0]);
        assert(items.push(item).drop_first() =~= items.drop_first().push(item));
        lemma_anr_of_items_snoc(anr_step(list, items[0]), items.drop_first(), item);
    }
}

impl ANRResultBean {
    pub fn new() -> (r: ANRResultBean)
        ensures
            r@.process_name == Seq::<char>::empty(),
            r@.trace_file_list == Seq::<TraceFileView>::empty(),
    {
        let r = ANRResultBean { process_name: String::new(), trace_file_list: Vec::new() };
        proof {
            assert(r@.trace_file_list =~= Seq::<TraceFileView>::empty());
        }
        r
    }

    pub fn set_process_name(&mut self, name: String)
        ensures
            final(self)@.process_name == name@,
            final(self)@.trace_file_list == old(self)@.trace_file_list,
    {
        self.process_name = name;
        proof {
            assert(self@.trace_file_list =~= old(self)@.trace_file_list);
        }
    }

    pub fn get_process_name(&self) -> (r: &str)
        ensures
            r@ == self@.process_name,
    {
        self.process_name.as_str()
    }

    /// How many distinct occurrence groups this process has.
    pub fn group_count(&self) -> (r: usize)
        ensures
            r == self@.trace_file_list.len(),
    {
        self.trace_file_list.len()
    }

    /// The normalized signature of the group at `index`.
    pub fn get_group_traces(&self, index: usize) -> (r: &Vec<String>)
        requires
            index < self@.trace_file_list.len(),
        ensures
            r.deep_view() == self@.trace_file_list[index as int].traces,
    {
        &self.trace_file_list[index].traces
    }

    /// The source paths recorded for the group at `index`; their number is the
    /// group's occurrence count.
    pub fn get_group_paths(&self, index: usize) -> (r: &Vec<String>)
        requires
            index < self@.trace_file_list.len(),
        ensures
            r.deep_view() == self@.trace_file_list[index as int].log_file_paths,
    {
        &self.trace_file_list[index].log_file_paths
    }

    /// Opens a new occurrence group holding the normalized form of `traces`,
    /// and returns its position.
    pub fn add_traces(&mut self, traces: &Vec<String>) -> (idx: usize)
        ensures
            final(self)@.process_name == old(self)@.process_name,
            final(self)@.trace_file_list == old(self)@.trace_file_list.push(
                (TraceFileView {
                    traces: normalize_spec(traces.deep_view()),
                    log_file_paths: Seq::empty(),
                }),
            ),
            idx == old(self)@.trace_file_list.len(),
    {
        let masked = mask_list(traces);
        let entry = TraceAndFile { traces: masked, log_file_paths: Vec::new() };
        proof {
            assert(entry@.log_file_paths =~= Seq::<Seq<char>>::empty());
        }
        self.trace_file_list.push(entry);
        proof {
            assert(self@.trace_file_list =~= old(self)@.trace_file_list.push(entry@));
        }
        self.trace_file_list.len() - 1
    }

    /// Replaces the signature of the group at `index` with the normalized form
    /// of `traces`; out-of-range indices leave the groups unchanged.
    pub fn set_traces(&mut self, traces: &Vec<String>, index: usize)
        ensures
            final(self)@.process_name == old(self)@.process_name,
            index >= old(self)@.trace_file_list.len() ==> final(self)@ == old(self)@,
            index < old(self)@.trace_file_list.len() ==> final(self)@.trace_file_list == old(
                self,
            )@.trace_file_list.update(
                index as int,
                (TraceFileView {
                    traces: normalize_spec(traces.deep_view()),
                    ..old(self)@.trace_file_list[index as int]
                }),
            ),
    {
        if index >= self.trace_file_list.len() {
            return ;
        }
        let masked = mask_list(traces);
        let entry = &mut self.trace_file_list[index];
        entry.traces = masked;
        proof {
            assert(self@.trace_file_list =~~= old(self)@.trace_file_list.update(
                index as int,
                (TraceFileView {
                    traces: normalize_spec(traces.deep_view()),
                    ..old(self)@.trace_file_list[index as int]
                }),
            ));
        }
    }

    /// Position of the first occurrence group whose signature equals the
    /// normalized form of `traces`, if any.  The trace list is left unchanged.
    pub fn compare_trace(&self, traces: &mut Vec<String>) -> (r: Option<usize>)
        ensures
            *final(traces) == *old(traces),
            match r {
                Some(i) => find_group(
                    self@.trace_file_list,
                    normalize_spec(old(traces).deep_view()),
                ) == Some(i as int),
                None => find_group(
                    self@.trace_file_list,
                    normalize_spec(old(traces).deep_view()),
                ) is None,
            },
    {
        let masked = mask_list(traces);
        let n = self.trace_file_list.len();
        let mut i: usize = 0;
        while i < n
            invariant
                n == self@.trace_file_list.len(),
                masked.deep_view() == normalize_spec(traces.deep_view()),
                0 <= i <= n,
                find_group(self@.trace_file_list, masked.deep_view()) == find_group_from(
                    self@.trace_file_list,
                    masked.deep_view(),
                    i as int,
                ),
            decreases n - i,
        {
            if str_lists_equal(&masked, &self.trace_file_list[i].traces) {
                return Some(i);
            }
            i += 1;
        }
        None
    }

    /// Whether the two lists hold the same lines in the same order.
    pub fn is_same_list(list1: &Vec<String>, list2: &Vec<String>) -> (r: bool)
        ensures
            r == (list1.deep_view() == list2.deep_view()),
    {
        str_lists_equal(list1, list2)
    }

    /// Records one more source path for the group at `index`; out-of-range
    /// indices leave the groups unchanged.
    pub fn add_log_file_path(&mut self, path: String, index: usize)
        ensures
            final(self)@.process_name == old(self)@.process_name,
            index >= old(self)@.trace_file_list.len() ==> final(self)@ == old(self)@,
            index < old(self)@.trace_file_list.len() ==> final(self)@.trace_file_list == old(
                self,
            )@.trace_file_list.update(
                index as int,
                (TraceFileView {
                    log_file_paths: old(self)@.trace_file_list[index as int].log_file_paths.push(
                        path@,
                    ),
                    ..old(self)@.trace_file_list[index as int]
                }),
            ),
    {
        if index >= self.trace_file_list.len() {
            proof {
                assert(self@ =~= old(self)@);
            }
            return ;
        }
        let entry = &mut self.trace_file_list[index];
        entry.log_file_paths.push(path);
        proof {
            assert(self@.trace_file_list =~~= old(self)@.trace_file_list.update(
                index as int,
                (TraceFileView {
                    log_file_paths: old(self)@.trace_file_list[index as int].log_file_paths.push(
                        path@,
                    ),
                    ..old(self)@.trace_file_list[index as int]
                }),
            ));
        }
    }
}

/// Element-wise equality of two string lists.
fn str_lists_equal(list1: &Vec<String>, list2: &Vec<String>) -> (r: bool)
    ensures
        r == (list1.deep_view() == list2.deep_view()),
{
    let n1 = list1.len();
    let n2 = list2.len();
    if n1 != n2 {
        proof {
            assert(list1.deep_view().len() == n1);
            assert(list2.deep_view().len() == n2);
        }
        return false;
    }
    let mut i: usize = 0;
    while i < n1
        invariant
            n1 == list1.deep_view().len(),
            n1 == list2.deep_view().len(),
            0 <= i <= n1,
            forall|j: int| 0 <= j < i ==> list1.deep_view()[j] == list2.deep_view()[j],
        decreases n1 - i,
    {
        if !text::str_eq(list1[i].as_str(), list2[i].as_str()) {
            proof {
                assert(list1.deep_view()[i as int] != list2.deep_view()[i as int]);
            }
            return false;
        }
        i += 1;
    }
    proof {
        assert(list1.deep_view() =~= list2.deep_view());
    }
    true
}

/// The normalized copy of a list of frames.
fn mask_list(traces: &Vec<String>) -> (r: Vec<String>)
    ensures
        r.deep_view() == normalize_spec(traces.deep_view()),
{
    let n = traces.len();
    let mut r: Vec<String> = Vec::new();
    let mut i: usize = 0;
    while i < n
        invariant
            n == traces@.len(),
            0 <= i <= n,
            r@.len() == i,
            forall|k: int| 0 <= k < i ==> r@[k]@ == text::mask_spec(traces@[k]@),
        decreases n - i,
    {
        let m = text::mask_digits(traces[i].as_str());
        r.push(m);
        i += 1;
    }
    proof {
        assert forall|k: int| 0 <= k < n implies r.deep_view()[k] == normalize_spec(
            traces.deep_view(),
        )[k] by {
            assert(r.deep_view()[k] == r@[k]@);
            assert(traces.deep_view()[k] == traces@[k]@);
        }
        assert(r.deep_view() =~= normalize_spec(traces.deep_view()));
    }
    r
}

} // verus!
