//! The search scanner: a cancellable, work-list driven recursive scan
//! that matches the query case-insensitively against file names and
//! reports matches and progress as a stream of events. The caller (or a
//! background thread around it) feeds it one directory listing per step.

use vstd::prelude::*;

verus! {

use crate::memfs::{DirEntryInfo, MemFs, NodeData, status_of};
use vstd::map::*;
use crate::pathname::FsPath;
use crate::text::{chars_vec, contains_chars, contains_seq, lower_of, lowercase};

/// A match: the full path of a file whose name contains the query.
pub struct SearchMsg {
    pub path: FsPath,
}

impl Clone for SearchMsg {
    fn clone(&self) -> (r: Self)
        ensures
            r.path@ == self.path@,
    {
        SearchMsg { path: self.path.clone() }
    }
}

/// A progress report: how much has been scanned, and whether the scan is
/// over. Exactly one report with `done` set ends every scan.
#[derive(Clone, Copy, Debug, PartialEq, Eq, Structural)]
pub struct ProgressMsg {
    pub scanned_files: u64,
    pub scanned_dirs: u64,
    pub done: bool,
}

/// One emitted event: a match or a progress report.
pub enum SearchEvent {
    Found(SearchMsg),
    Progress(ProgressMsg),
}

/// Whether a file name matches the query: the case folding of the name
/// contains the case-folded query.
pub open spec fn name_matches(name: Seq<char>, query_lower: Seq<char>) -> bool {
    contains_seq(lower_of(name), query_lower)
}

/// The paths carried by the match events of a stream, in emission order.
pub open spec fn found_paths(evs: Seq<SearchEvent>) -> Seq<Seq<Seq<char>>> {
    evs.filter(|e: SearchEvent| e is Found).map_values(|e: SearchEvent| e->Found_0.path@)
}

/// The paths of the files in a listing of `d` whose names match the
/// folded query, in listing order.
pub open spec fn matching_files(
    d: Seq<Seq<char>>,
    l: Seq<DirEntryInfo>,
    q: Seq<char>,
) -> Seq<Seq<Seq<char>>> {
    l.filter(|e: DirEntryInfo| !e.is_dir && name_matches(e.name@, q)).map_values(
        |e: DirEntryInfo| d.push(e.name@),
    )
}

/// Filtering past one more element keeps it exactly when it satisfies
/// the predicate.
pub proof fn lemma_filter_push<A>(s: Seq<A>, pred: spec_fn(A) -> bool, x: A)
    ensures
        s.push(x).filter(pred) == (if pred(x) {
            s.filter(pred).push(x)
        } else {
            s.filter(pred)
        }),
{
    reveal_with_fuel(Seq::<_>::filter, 2);
    assert(s.push(x).drop_last() =~= s);
    assert(s.push(x).last() == x);
    assert(s.push(x).filter(pred) == (if pred(x) {
        s.push(x).drop_last().filter(pred).push(x)
    } else {
        s.push(x).drop_last().filter(pred)
    }));
}

/// A counter bumped by one, saturating at the top.
pub open spec fn inc_sat(x: u64) -> u64 {
    if x < u64::MAX {
        (x + 1) as u64
    } else {
        x
    }
}

/// A counter bumped by `n`, saturating at the top.
pub open spec fn add_sat(x: u64, n: nat) -> u64 {
    if x + n <= u64::MAX {
        (x + n) as u64
    } else {
        u64::MAX
    }
}

/// The number of file (non-directory) entries in a listing.
pub open spec fn file_count(l: Seq<DirEntryInfo>) -> nat {
    l.filter(|e: DirEntryInfo| !e.is_dir).len()
}

/// The paths of the subdirectory entries of a listing of `d`, in listing
/// order.
pub open spec fn dir_children(d: Seq<Seq<char>>, l: Seq<DirEntryInfo>) -> Seq<Seq<Seq<char>>> {
    l.filter(|e: DirEntryInfo| e.is_dir).map_values(|e: DirEntryInfo| d.push(e.name@))
}

/// A filtered listing still comes from the listing, and keeps its names
/// unique.
proof fn lemma_filter_elements(l: Seq<DirEntryInfo>, pred: spec_fn(DirEntryInfo) -> bool)
    requires
        forall|i: int, j: int| 0 <= i < j < l.len() ==> l[i].name@ != l[j].name@,
    ensures
        forall|k: int|
            0 <= k < l.filter(pred).len() ==> exists|j: int|
                0 <= j < l.len() && #[trigger] l.filter(pred)[k] == l[j],
        forall|i: int, j: int|
            0 <= i < j < l.filter(pred).len() ==> l.filter(pred)[i].name@ != l.filter(
                pred,
            )[j].name@,
    decreases l.len(),
{
    reveal_with_fuel(Seq::<_>::filter, 2);
    if l.len() > 0 {
        let dl = l.drop_last();
        assert(forall|i: int, j: int| 0 <= i < j < dl.len() ==> dl[i].name@ != dl[j].name@);
        lemma_filter_elements(dl, pred);
        lemma_filter_push(dl, pred, l.last());
        assert(dl.push(l.last()) =~= l);
        let out = l.filter(pred);
        if pred(l.last()) {
            assert(out == dl.filter(pred).push(l.last()));
            assert forall|k: int| 0 <= k < out.len() implies exists|j: int|
                0 <= j < l.len() && #[trigger] out[k] == l[j] by {
                if k < out.len() - 1 {
                    let j = choose|j: int| 0 <= j < dl.len() && dl.filter(pred)[k] == dl[j];
                    assert(out[k] == l[j]);
                } else {
                    assert(out[k] == l[l.len() - 1]);
                }
            }
            assert forall|i: int, j: int|
                0 <= i < j < out.len() implies out[i].name@ != out[j].name@ by {
                if j == out.len() - 1 {
                    let w = choose|w: int| 0 <= w < dl.len() && dl.filter(pred)[i] == dl[w];
                    assert(out[i].name@ == l[w].name@);
                    assert(out[j].name@ == l[l.len() - 1].name@);
                }
            }
        } else {
            assert(out == dl.filter(pred));
            assert forall|k: int| 0 <= k < out.len() implies exists|j: int|
                0 <= j < l.len() && #[trigger] out[k] == l[j] by {
                let j = choose|j: int| 0 <= j < dl.len() && dl.filter(pred)[k] == dl[j];
                assert(out[k] == l[j]);
            }
        }
    }
}

/// `p` is the path of a listed entry of `d` selected by `pred`.
spec fn from_listing(
    p: Seq<Seq<char>>,
    d: Seq<Seq<char>>,
    l: Seq<DirEntryInfo>,
    pred: spec_fn(DirEntryInfo) -> bool,
) -> bool {
    exists|j: int| 0 <= j < l.len() && #[trigger] pred(l[j]) && p == d.push(l[j].name@)
}

/// The child paths a filtered listing of `d` denotes: no duplicates, one
/// for each selected entry, nothing else.
proof fn lemma_listing_paths(d: Seq<Seq<char>>, l: Seq<DirEntryInfo>, pred: spec_fn(
    DirEntryInfo,
) -> bool)
    requires
        forall|i: int, j: int| 0 <= i < j < l.len() ==> l[i].name@ != l[j].name@,
    ensures
        ({
            let out = l.filter(pred).map_values(|e: DirEntryInfo| d.push(e.name@));
            &&& out.no_duplicates()
            &&& out.len() == l.filter(pred).len()
            &&& forall|k: int| 0 <= k < out.len() ==> from_listing(#[trigger] out[k], d, l, pred)
            &&& forall|j: int|
                0 <= j < l.len() && #[trigger] pred(l[j]) ==> out.contains(d.push(l[j].name@))
        }),
{
    broadcast use vstd::seq_lib::group_filter_ensures;

    lemma_filter_elements(l, pred);
    let f = l.filter(pred);
    let out = f.map_values(|e: DirEntryInfo| d.push(e.name@));
    assert forall|i: int, j: int| 0 <= i < j < out.len() implies out[i] != out[j] by {
        assert(out[i].last() == f[i].name@);
        assert(out[j].last() == f[j].name@);
    }
    assert forall|k: int| 0 <= k < out.len() implies from_listing(#[trigger] out[k], d, l, pred) by {
        let j = choose|j: int| 0 <= j < l.len() && f[k] == l[j];
        assert(pred(f[k]));
        assert(out[k] == d.push(l[j].name@));
        assert(0 <= j < l.len() && pred(l[j]) && out[k] == d.push(l[j].name@));
    }
    assert forall|j: int|
        0 <= j < l.len() && #[trigger] pred(l[j]) implies out.contains(d.push(l[j].name@)) by {
        assert(f.contains(l[j]));
        let k = choose|k: int| 0 <= k < f.len() && f[k] == l[j];
        assert(out[k] == d.push(l[j].name@));
    }
}

/// The files under `root` (the search's result universe).
pub open spec fn file_set(m: Map<Seq<Seq<char>>, NodeData>, root: Seq<Seq<char>>) -> Set<
    Seq<Seq<char>>,
> {
    Set::new(
        |p: Seq<Seq<char>>| root.is_prefix_of(p) && m.dom().contains(p) && m[p] is File,
    )
}

/// The directories the scan of `root` visits: `root` itself and every
/// directory below it.
pub open spec fn dir_region(m: Map<Seq<Seq<char>>, NodeData>, root: Seq<Seq<char>>) -> Set<
    Seq<Seq<char>>,
> {
    Set::new(
        |p: Seq<Seq<char>>|
            root.is_prefix_of(p) && (p == root || (m.dom().contains(p) && m[p] is Dir)),
    )
}

/// The files under `root` whose names match the folded query.
pub open spec fn search_hits(
    m: Map<Seq<Seq<char>>, NodeData>,
    root: Seq<Seq<char>>,
    q: Seq<char>,
) -> Set<Seq<Seq<char>>> {
    Set::new(
        |p: Seq<Seq<char>>|
            root.is_prefix_of(p) && m.dom().contains(p) && m[p] is File && name_matches(
                p.last(),
                q,
            ),
    )
}

/// What remains to scan below `s`: `s` itself and every stored path
/// under it.
pub open spec fn rgn(m: Map<Seq<Seq<char>>, NodeData>, s: Seq<Seq<char>>) -> Set<Seq<Seq<char>>> {
    Set::new(|q: Seq<Seq<char>>| s.is_prefix_of(q) && (m.dom().contains(q) || q == s))
}

/// The total work the pending stack still represents.
pub open spec fn stack_measure(m: Map<Seq<Seq<char>>, NodeData>, st: Seq<Seq<Seq<char>>>) -> nat
    decreases st.len(),
{
    if st.len() == 0 {
        0
    } else {
        stack_measure(m, st.drop_last()) + rgn(m, st.last()).len()
    }
}

/// The measure adds up over concatenation.
proof fn lemma_stack_measure_concat(
    m: Map<Seq<Seq<char>>, NodeData>,
    a: Seq<Seq<Seq<char>>>,
    b: Seq<Seq<Seq<char>>>,
)
    ensures
        stack_measure(m, a + b) == stack_measure(m, a) + stack_measure(m, b),
    decreases b.len(),
{
    if b.len() == 0 {
        assert(a + b =~= a);
    } else {
        assert((a + b).drop_last() =~= a + b.drop_last());
        assert((a + b).last() == b.last());
        lemma_stack_measure_concat(m, a, b.drop_last());
    }
}

/// Pairwise prefix-free paths whose regions sit inside a finite set have
/// total region size at most that set's size.
proof fn lemma_regions_bound(
    m: Map<Seq<Seq<char>>, NodeData>,
    cs: Seq<Seq<Seq<char>>>,
    big: Set<Seq<Seq<char>>>,
)
    requires
        big.finite(),
        forall|i: int| 0 <= i < cs.len() ==> rgn(m, #[trigger] cs[i]).subset_of(big),
        forall|i: int, j: int|
            0 <= i < j < cs.len() ==> !(#[trigger] cs[i]).is_prefix_of(#[trigger] cs[j]) && !cs[
                j
            ].is_prefix_of(cs[i]),
    ensures
        stack_measure(m, cs) <= big.len(),
    decreases cs.len(),
{
    if cs.len() > 0 {
        let last = cs.last();
        let r = rgn(m, last);
        assert(r.subset_of(big));
        vstd::set_lib::lemma_len_subset(r, big);
        let big2 = big.difference(r);
        assert forall|i: int|
            0 <= i < cs.drop_last().len() implies rgn(
            m,
            #[trigger] cs.drop_last()[i],
        ).subset_of(big2) by {
            assert(cs.drop_last()[i] == cs[i]);
            assert forall|q: Seq<Seq<char>>| rgn(m, cs[i]).contains(q) implies big2.contains(
                q,
            ) by {
                if r.contains(q) {
                    // q would extend two prefix-free paths of equal standing
                    assert(cs[i].is_prefix_of(q) && last.is_prefix_of(q));
                    if cs[i].len() <= last.len() {
                        assert(cs[i] =~= last.subrange(0, cs[i].len() as int)) by {
                            assert(forall|x: int| 0 <= x < cs[i].len() ==> q[x] == cs[i][x]);
                            assert(forall|x: int| 0 <= x < last.len() ==> q[x] == last[x]);
                        }
                        assert(cs[i].is_prefix_of(last));
                    } else {
                        assert(last =~= cs[i].subrange(0, last.len() as int)) by {
                            assert(forall|x: int| 0 <= x < cs[i].len() ==> q[x] == cs[i][x]);
                            assert(forall|x: int| 0 <= x < last.len() ==> q[x] == last[x]);
                        }
                        assert(last.is_prefix_of(cs[i]));
                    }
                    assert(false);
                }
            }
        }
        lemma_regions_bound(m, cs.drop_last(), big2);
        assert(big =~= big2.union(r));
        vstd::set_lib::lemma_set_disjoint_lens(big2, r);
    }
}

fn inc_u64(x: u64) -> (r: u64)
    ensures
        r == inc_sat(x),
{
    if x < u64::MAX {
        x + 1
    } else {
        x
    }
}

/// The scan state: directories still to visit (a stack — depth first),
/// the folded query, the counters, and whether the final report went out.
pub struct SearchScan {
    stack: Vec<FsPath>,
    query_lower: Vec<char>,
    scanned_files: u64,
    scanned_dirs: u64,
    finished: bool,
}

impl SearchScan {
    /// The pending directories, next on top (at the end).
    pub closed spec fn stack_view(self) -> Seq<Seq<Seq<char>>> {
        self.stack@.map_values(|p: FsPath| p@)
    }

    /// The case-folded query.
    pub closed spec fn qlow(self) -> Seq<char> {
        self.query_lower@
    }

    /// Files scanned so far.
    pub closed spec fn files(self) -> u64 {
        self.scanned_files
    }

    /// Directories scanned so far.
    pub closed spec fn dirs(self) -> u64 {
        self.scanned_dirs
    }

    /// Whether the final `done` report has been emitted. A finished scan
    /// has nothing pending and emits nothing further.
    pub closed spec fn is_finished(self) -> bool {
        self.finished
    }

    /// A finished scan holds no pending work.
    pub open spec fn wf(self) -> bool {
        self.is_finished() ==> self.stack_view().len() == 0
    }

    /// Starts a scan of the tree under `root` for `query`.
    pub fn new(root: FsPath, query: &str) -> (s: SearchScan)
        ensures
            s.stack_view() == seq![root@],
            s.qlow() == lower_of(query@),
            s.files() == 0,
            s.dirs() == 0,
            !s.is_finished(),
            s.wf(),
    {
        let ghost rv = root@;
        let low = lowercase(query);
        let query_lower = chars_vec(low.as_str());
        let mut stack: Vec<FsPath> = Vec::new();
        stack.push(root);
        let s = SearchScan { stack, query_lower, scanned_files: 0, scanned_dirs: 0, finished: false };
        proof {
            assert(s.stack_view() =~= seq![rv]);
        }
        s
    }

    /// The directory the next step will process, if any.
    pub fn pending(&self) -> (r: Option<FsPath>)
        ensures
            (r is Some) <==> self.stack_view().len() > 0,
            r matches Some(d) ==> d@ == self.stack_view().last(),
    {
        if self.stack.len() == 0 {
            None
        } else {
            Some(self.stack[self.stack.len() - 1].clone())
        }
    }

    /// Processes the top pending directory against its listing (`None`
    /// when the directory cannot be read — it is skipped silently, not
    /// counted). A set cancellation flag stops the scan at once: the
    /// pending work is dropped and no further match can ever be emitted —
    /// only the final `done` report goes out, with the counts reached.
    /// Whenever the scan finishes, the one `done` report is the last
    /// event; no other event ever carries `done`.
    #[verifier::rlimit(100)]
    #[verifier::spinoff_prover]
    pub fn step(&mut self, cancelled: bool, listing: Option<&Vec<DirEntryInfo>>) -> (events: Vec<
        SearchEvent,
    >)
        requires
            !old(self).is_finished(),
            old(self).stack_view().len() > 0,
        ensures
            final(self).qlow() == old(self).qlow(),
            final(self).wf(),
            final(self).is_finished() <==> final(self).stack_view().len() == 0,
            cancelled ==> ({
                &&& final(self).is_finished()
                &&& final(self).files() == old(self).files() && final(self).dirs() == old(
                    self,
                ).dirs()
                &&& events@ =~= seq![
                    SearchEvent::Progress(
                        ProgressMsg {
                            scanned_files: old(self).files(),
                            scanned_dirs: old(self).dirs(),
                            done: true,
                        },
                    ),
                ]
            }),
            !cancelled && listing is None ==> ({
                &&& final(self).stack_view() == old(self).stack_view().drop_last()
                &&& final(self).files() == old(self).files() && final(self).dirs() == old(
                    self,
                ).dirs()
                &&& (final(self).is_finished() ==> events@ =~= seq![
                    SearchEvent::Progress(
                        ProgressMsg {
                            scanned_files: old(self).files(),
                            scanned_dirs: old(self).dirs(),
                            done: true,
                        },
                    ),
                ])
                &&& (!final(self).is_finished() ==> events@ =~= Seq::<SearchEvent>::empty())
            }),
            !cancelled ==> (listing matches Some(l) ==> ({
                let d = old(self).stack_view().last();
                &&& final(self).dirs() == inc_sat(old(self).dirs())
                &&& final(self).files() == add_sat(old(self).files(), file_count(l@))
                &&& final(self).stack_view() == old(self).stack_view().drop_last()
                    + dir_children(d, l@)
                &&& found_paths(events@) == matching_files(d, l@, old(self).qlow())
                &&& forall|k: int|
                    0 <= k < events@.len() ==> ((#[trigger] events@[k]) matches
                    SearchEvent::Progress(pm) && pm.done ==> final(self).is_finished() && k
                        == events@.len() - 1)
                &&& (final(self).is_finished() ==> events@.len() > 0 && events@.last()
                    == SearchEvent::Progress(
                    ProgressMsg {
                        scanned_files: final(self).files(),
                        scanned_dirs: final(self).dirs(),
                        done: true,
                    },
                ))
            })),
    {
        broadcast use vstd::seq_lib::group_filter_ensures;

        let d = match self.stack.pop() {
            Some(d) => d,
            None => {
                proof {
                    assert(false);
                }
                FsPath::root()
            },
        };
        proof {
            assert(self.stack_view() =~= old(self).stack_view().drop_last());
        }
        let mut events: Vec<SearchEvent> = Vec::new();
        if cancelled {
            self.stack = Vec::new();
            self.finished = true;
            events.push(
                SearchEvent::Progress(
                    ProgressMsg {
                        scanned_files: self.scanned_files,
                        scanned_dirs: self.scanned_dirs,
                        done: true,
                    },
                ),
            );
            proof {
                assert(self.stack_view() =~= Seq::<Seq<Seq<char>>>::empty());
            }
            return events;
        }
        match listing {
            None => {
                if self.stack.len() == 0 {
                    self.finished = true;
                    events.push(
                        SearchEvent::Progress(
                            ProgressMsg {
                                scanned_files: self.scanned_files,
                                scanned_dirs: self.scanned_dirs,
                                done: true,
                            },
                        ),
                    );
                }
                events
            },
            Some(l) => {
                let ghost base = self.stack_view();
                let ghost f0 = self.scanned_files;
                let ghost dv = d@;
                let ghost q = self.query_lower@;
                self.scanned_dirs = inc_u64(self.scanned_dirs);
                events.push(
                    SearchEvent::Progress(
                        ProgressMsg {
                            scanned_files: self.scanned_files,
                            scanned_dirs: self.scanned_dirs,
                            done: false,
                        },
                    ),
                );
                proof {
                    assert(l@.take(0) =~= Seq::<DirEntryInfo>::empty());
                    assert(dir_children(dv, l@.take(0)) =~= Seq::<Seq<Seq<char>>>::empty());
                    assert(file_count(l@.take(0)) == 0);
                    assert(matching_files(dv, l@.take(0), q) =~= Seq::<Seq<Seq<char>>>::empty());
                    assert(found_paths(events@) =~= Seq::<Seq<Seq<char>>>::empty()) by {
                        lemma_filter_push(
                            Seq::<SearchEvent>::empty(),
                            |e: SearchEvent| e is Found,
                            events@[0],
                        );
                        assert(Seq::<SearchEvent>::empty().push(events@[0]) =~= events@);
                    }
                    assert(self.stack_view() =~= base + dir_children(dv, l@.take(0)));
                }
                for j in 0..l.len()
                    invariant
                        self.query_lower@ == q,
                        q == old(self).qlow(),
                        self.finished == false,
                        self.scanned_dirs == inc_sat(old(self).dirs()),
                        self.scanned_files == add_sat(f0, file_count(l@.take(j as int))),
                        f0 == old(self).files(),
                        old(self).stack_view().len() > 0,
                        d@ == dv,
                        dv == old(self).stack_view().last(),
                        base == old(self).stack_view().drop_last(),
                        self.stack_view() == base + dir_children(dv, l@.take(j as int)),
                        found_paths(events@) == matching_files(dv, l@.take(j as int), q),
                        forall|k: int|
                            0 <= k < events@.len() ==> ((#[trigger] events@[k]) matches
                            SearchEvent::Progress(pm) ==> !pm.done),
                {
                    let ghost evs0 = events@;
                    proof {
                        assert(l@.take(j + 1) =~= l@.take(j as int).push(l@[j as int]));
                        lemma_filter_push(
                            l@.take(j as int),
                            |e: DirEntryInfo| e.is_dir,
                            l@[j as int],
                        );
                        lemma_filter_push(
                            l@.take(j as int),
                            |e: DirEntryInfo| !e.is_dir,
                            l@[j as int],
                        );
                        lemma_filter_push(
                            l@.take(j as int),
                            |e: DirEntryInfo| !e.is_dir && name_matches(e.name@, q),
                            l@[j as int],
                        );
                    }
                    let e = &l[j];
                    if e.is_dir {
                        let ghost sv0 = self.stack_view();
                        self.stack.push(d.join(e.name.as_str()));
                        proof {
                            assert(self.stack_view() =~= sv0.push(dv.push(l@[j as int].name@)));
                            assert(dir_children(dv, l@.take(j + 1)) =~= dir_children(
                                dv,
                                l@.take(j as int),
                            ).push(dv.push(l@[j as int].name@)));
                            assert(self.stack_view() =~= base + dir_children(dv, l@.take(j + 1)));
                            assert(matching_files(dv, l@.take(j + 1), q) =~= matching_files(
                                dv,
                                l@.take(j as int),
                                q,
                            ));
                        }
                    } else {
                        self.scanned_files = inc_u64(self.scanned_files);
                        proof {
                            assert(file_count(l@.take(j + 1)) == file_count(l@.take(j as int))
                                + 1);
                            assert(dir_children(dv, l@.take(j + 1)) =~= dir_children(
                                dv,
                                l@.take(j as int),
                            ));
                            assert(self.stack_view() =~= base + dir_children(dv, l@.take(j + 1)));
                        }
                        let low = lowercase(e.name.as_str());
                        let lowv = chars_vec(low.as_str());
                        if contains_chars(&lowv, &self.query_lower) {
                            let m = SearchMsg { path: d.join(e.name.as_str()) };
                            proof {
                                assert(m.path@ == dv.push(l@[j as int].name@));
                                assert(name_matches(l@[j as int].name@, q));
                            }
                            events.push(SearchEvent::Found(m));
                            proof {
                                lemma_filter_push(
                                    evs0,
                                    |e: SearchEvent| e is Found,
                                    events@.last(),
                                );
                                assert(evs0.push(events@.last()) =~= events@);
                                assert(found_paths(events@) =~= found_paths(evs0).push(
                                    dv.push(l@[j as int].name@),
                                ));
                                assert(matching_files(dv, l@.take(j + 1), q) =~= matching_files(
                                    dv,
                                    l@.take(j as int),
                                    q,
                                ).push(dv.push(l@[j as int].name@)));
                            }
                        } else {
                            proof {
                                assert(matching_files(dv, l@.take(j + 1), q) =~= matching_files(
                                    dv,
                                    l@.take(j as int),
                                    q,
                                ));
                            }
                        }
                        let ghost evs1 = events@;
                        events.push(
                            SearchEvent::Progress(
                                ProgressMsg {
                                    scanned_files: self.scanned_files,
                                    scanned_dirs: self.scanned_dirs,
                                    done: false,
                                },
                            ),
                        );
                        proof {
                            lemma_filter_push(evs1, |e: SearchEvent| e is Found, events@.last());
                            assert(evs1.push(events@.last()) =~= events@);
                            assert(found_paths(events@) =~= found_paths(evs1));
                        }
                    }
                }
                proof {
                    assert(l@.take(l@.len() as int) =~= l@);
                }
                if self.stack.len() == 0 {
                    self.finished = true;
                    let ghost evs1 = events@;
                    events.push(
                        SearchEvent::Progress(
                            ProgressMsg {
                                scanned_files: self.scanned_files,
                                scanned_dirs: self.scanned_dirs,
                                done: true,
                            },
                        ),
                    );
                    proof {
                        lemma_filter_push(evs1, |e: SearchEvent| e is Found, events@.last());
                        assert(evs1.push(events@.last()) =~= events@);
                        assert(found_paths(events@) =~= found_paths(evs1));
                    }
                }
                events
            },
        }
    }
}


/// Scans the whole tree under `root` in the given state, feeding the
/// scanner one listing per step, and returns the full event stream.
/// With a directory root, the match events carry exactly the files under
/// the root whose names contain the query case-insensitively, each
/// exactly once, and the one final `done` report — always the last
/// event, and the only one marked done — carries the total number of
/// files and of directories visited. With anything else as root, the
/// stream is just the final report with zero counts.
#[verifier::rlimit(100)]
#[verifier::spinoff_prover]
pub fn run_search(fs: &MemFs, root: &FsPath, query: &str) -> (events: Vec<SearchEvent>)
    requires
        fs.wf(),
    ensures
        found_paths(events@).no_duplicates(),
        events@.len() > 0,
        forall|k: int|
            0 <= k < events@.len() - 1 ==> ((#[trigger] events@[k]) matches SearchEvent::Progress(
                pm,
            ) ==> !pm.done),
        !(status_of(fs@, root@) is IsDir) ==> events@ =~= seq![
            SearchEvent::Progress(ProgressMsg { scanned_files: 0, scanned_dirs: 0, done: true }),
        ],
        status_of(fs@, root@) is IsDir ==> ({
            &&& found_paths(events@).to_set() == search_hits(fs@, root@, lower_of(query@))
            &&& events@.last() == SearchEvent::Progress(
                ProgressMsg {
                    scanned_files: add_sat(0, file_set(fs@, root@).len()),
                    scanned_dirs: add_sat(0, dir_region(fs@, root@).len()),
                    done: true,
                },
            )
        }),
{
    broadcast use vstd::seq_lib::group_filter_ensures;
    broadcast use vstd::seq_lib::seq_to_set_is_finite;

    let ghost m = fs@;
    let ghost rv = root@;
    let ghost q = lower_of(query@);
    let mut scan = SearchScan::new(root.clone(), query);
    let mut events: Vec<SearchEvent> = Vec::new();
    proof {
        reveal_with_fuel(Seq::<_>::filter, 1);
        assert(events@.filter(|e: SearchEvent| e is Found) =~= Seq::<SearchEvent>::empty());
        assert(found_paths(events@) =~= Seq::<Seq<Seq<char>>>::empty());
    }
    let probe = fs.list_dir(root);
    if probe.is_none() {
        let evs = scan.step(false, None);
        proof {
            assert(evs@ =~= seq![
                SearchEvent::Progress(
                    ProgressMsg { scanned_files: 0, scanned_dirs: 0, done: true },
                ),
            ]);
            reveal_with_fuel(Seq::<_>::filter, 2);
            assert(Seq::<SearchEvent>::empty().push(evs@[0]) =~= evs@);
            lemma_filter_push(Seq::<SearchEvent>::empty(), |e: SearchEvent| e is Found, evs@[0]);
            assert(found_paths(evs@) =~= Seq::<Seq<Seq<char>>>::empty());
        }
        return evs;
    }
    let _ = fs.node_count();
    let ghost mut done_dirs: Set<Seq<Seq<char>>> = Set::empty();
    let ghost mut done_files: Set<Seq<Seq<char>>> = Set::empty();
    proof {
        assert(found_paths(events@).to_set() =~= done_files.intersect(search_hits(m, rv, q)));
        assert(scan.stack_view()[0] == rv);
        assert forall|p: Seq<Seq<char>>|
            dir_region(m, rv).contains(p) || file_set(m, rv).contains(p) implies exists|i: int|
            0 <= i < scan.stack_view().len() && (#[trigger] scan.stack_view()[i]).is_prefix_of(
            p,
        ) by {
            assert(rv.is_prefix_of(p));
            assert(0 <= 0 < scan.stack_view().len() && scan.stack_view()[0].is_prefix_of(p));
        }
    }
    loop
        invariant
            fs.wf(),
            m == fs@,
            rv == root@,
            q == lower_of(query@),
            m.dom().finite(),
            status_of(m, rv) is IsDir,
            scan.qlow() == q,
            scan.is_finished() <==> scan.stack_view().len() == 0,
            forall|i: int|
                0 <= i < scan.stack_view().len() ==> rv.is_prefix_of(
                    #[trigger] scan.stack_view()[i],
                ) && status_of(m, scan.stack_view()[i]) is IsDir,
            forall|i: int, j: int|
                0 <= i < j < scan.stack_view().len() ==> !(#[trigger] scan.stack_view()[
                    i
                ]).is_prefix_of(#[trigger] scan.stack_view()[j]) && !scan.stack_view()[
                    j
                ].is_prefix_of(scan.stack_view()[i]),
            done_dirs.finite(),
            done_files.finite(),
            done_dirs.subset_of(dir_region(m, rv)),
            done_files.subset_of(file_set(m, rv)),
            forall|i: int, p: Seq<Seq<char>>|
                0 <= i < scan.stack_view().len() && #[trigger] scan.stack_view()[i].is_prefix_of(
                    p,
                ) ==> !done_dirs.contains(p) && !done_files.contains(p),
            forall|p: Seq<Seq<char>>|
                dir_region(m, rv).contains(p) ==> done_dirs.contains(p) || (exists|i: int|
                    0 <= i < scan.stack_view().len() && (#[trigger] scan.stack_view()[
                        i
                    ]).is_prefix_of(p)),
            forall|p: Seq<Seq<char>>|
                file_set(m, rv).contains(p) ==> done_files.contains(p) || (exists|i: int|
                    0 <= i < scan.stack_view().len() && (#[trigger] scan.stack_view()[
                        i
                    ]).is_prefix_of(p)),
            scan.files() == add_sat(0, done_files.len()),
            scan.dirs() == add_sat(0, done_dirs.len()),
            found_paths(events@).no_duplicates(),
            found_paths(events@).to_set() == done_files.intersect(search_hits(m, rv, q)),
            !scan.is_finished() ==> (forall|k: int|
                0 <= k < events@.len() ==> ((#[trigger] events@[k]) matches SearchEvent::Progress(
                    pm,
                ) ==> !pm.done)),
            scan.is_finished() ==> events@.len() > 0 && events@.last() == SearchEvent::Progress(
                ProgressMsg { scanned_files: scan.files(), scanned_dirs: scan.dirs(), done: true },
            ) && (forall|k: int|
                0 <= k < events@.len() - 1 ==> ((#[trigger] events@[k]) matches
                SearchEvent::Progress(pm) ==> !pm.done)),
        ensures
            scan.is_finished(),
        decreases stack_measure(m, scan.stack_view()),
    {
        let pend = scan.pending();
        match pend {
            None => {
                break ;
            },
            Some(d) => {
                let ghost sv = scan.stack_view();
                let ghost dv = d@;
                let ghost rest = sv.drop_last();
                let ghost odd = done_dirs;
                let ghost odf = done_files;
                let listing = fs.list_dir(&d);
                let l = match listing {
                    Some(l) => l,
                    None => {
                        proof {
                            assert(false);
                        }
                        Vec::new()
                    },
                };
                let ghost is_dir_pred = |e: DirEntryInfo| e.is_dir;
                let ghost is_file_pred = |e: DirEntryInfo| !e.is_dir;
                let ghost match_pred = |e: DirEntryInfo| !e.is_dir && name_matches(e.name@, q);
                let ghost cseq = dir_children(dv, l@);
                let ghost fileseq = l@.filter(is_file_pred).map_values(
                    |e: DirEntryInfo| dv.push(e.name@),
                );
                let ghost matchseq = matching_files(dv, l@, q);
                let ghost fc_set = fileseq.to_set();
                proof {
                    lemma_listing_paths(dv, l@, is_dir_pred);
                    lemma_listing_paths(dv, l@, is_file_pred);
                    lemma_listing_paths(dv, l@, match_pred);
                    assert(cseq =~= l@.filter(is_dir_pred).map_values(
                        |e: DirEntryInfo| dv.push(e.name@),
                    ));
                    assert(matchseq =~= l@.filter(match_pred).map_values(
                        |e: DirEntryInfo| dv.push(e.name@),
                    ));
                    // facts about the listed children
                    assert forall|k: int| 0 <= k < cseq.len() implies rv.is_prefix_of(
                        #[trigger] cseq[k],
                    ) && m.dom().contains(cseq[k]) && m[cseq[k]] is Dir && cseq[k].len()
                        == dv.len() + 1 && dv.is_prefix_of(cseq[k]) by {
                        assert(from_listing(cseq[k], dv, l@, is_dir_pred));
                        let j = choose|j: int|
                            0 <= j < l@.len() && #[trigger] is_dir_pred(l@[j]) && cseq[k]
                                == dv.push(l@[j].name@);
                        assert(dv.is_prefix_of(dv.push(l@[j].name@))) by {
                            assert(dv =~= dv.push(l@[j].name@).subrange(0, dv.len() as int));
                        }
                        assert(rv.is_prefix_of(dv));
                        crate::memfs::lemma_prefix_trans(rv, dv, cseq[k]);
                    }
                    assert forall|k: int| 0 <= k < fileseq.len() implies rv.is_prefix_of(
                        #[trigger] fileseq[k],
                    ) && m.dom().contains(fileseq[k]) && m[fileseq[k]] is File && fileseq[k].len()
                        == dv.len() + 1 && dv.is_prefix_of(fileseq[k]) by {
                        assert(from_listing(fileseq[k], dv, l@, is_file_pred));
                        let j = choose|j: int|
                            0 <= j < l@.len() && #[trigger] is_file_pred(l@[j]) && fileseq[k]
                                == dv.push(l@[j].name@);
                        assert(dv.is_prefix_of(dv.push(l@[j].name@))) by {
                            assert(dv =~= dv.push(l@[j].name@).subrange(0, dv.len() as int));
                        }
                        assert(rv.is_prefix_of(dv));
                        crate::memfs::lemma_prefix_trans(rv, dv, fileseq[k]);
                    }
                    // the directory and its file children are fresh
                    assert(sv[sv.len() - 1].is_prefix_of(dv)) by {
                        assert(dv =~= dv.subrange(0, dv.len() as int));
                    }
                    assert(!odd.contains(dv) && !odf.contains(dv));
                    assert forall|p: Seq<Seq<char>>| fc_set.contains(p) implies !odf.contains(p)
                        && !found_paths(events@).contains(p) && file_set(m, rv).contains(p) by {
                        let k = choose|k: int| 0 <= k < fileseq.len() && fileseq[k] == p;
                        assert(sv[sv.len() - 1].is_prefix_of(p));
                        if found_paths(events@).contains(p) {
                            assert(found_paths(events@).to_set().contains(p));
                            assert(odf.contains(p));
                            assert(false);
                        }
                    }
                    done_dirs = odd.insert(dv);
                    done_files = odf.union(fc_set);
                }
                let mut evs = scan.step(false, Some(&l));
                let ghost ev0 = events@;
                let ghost evsv = evs@;
                events.append(&mut evs);
                let ghost sv2 = scan.stack_view();
                proof {
                    assert(events@ == ev0 + evsv);
                    assert(sv2 == rest + cseq);
                    // the new stack holds present directories under the root
                    assert forall|i: int|
                        0 <= i < sv2.len() implies rv.is_prefix_of(#[trigger] sv2[i])
                        && status_of(m, sv2[i]) is IsDir by {
                        if i < rest.len() {
                            assert(sv2[i] == sv[i]);
                        } else {
                            assert(sv2[i] == cseq[i - rest.len()]);
                        }
                    }
                    // prefix-freedom of the new stack
                    assert forall|i: int, j: int|
                        0 <= i < j < sv2.len() implies !(#[trigger] sv2[i]).is_prefix_of(
                        #[trigger] sv2[j],
                    ) && !sv2[j].is_prefix_of(sv2[i]) by {
                        if i < rest.len() && j < rest.len() {
                            assert(sv2[i] == sv[i] && sv2[j] == sv[j]);
                        } else if i < rest.len() {
                            let c = cseq[j - rest.len()];
                            assert(sv2[j] == c && sv2[i] == sv[i]);
                            if sv[i].is_prefix_of(c) {
                                if sv[i].len() <= dv.len() {
                                    assert(sv[i] =~= dv.subrange(0, sv[i].len() as int)) by {
                                        assert(forall|x: int|
                                            0 <= x < sv[i].len() ==> c[x] == sv[i][x]);
                                        assert(forall|x: int| 0 <= x < dv.len() ==> c[x] == dv[x]);
                                    }
                                    assert(sv[i].is_prefix_of(sv[sv.len() - 1]));
                                    assert(false);
                                } else {
                                    assert(sv[i].len() == c.len());
                                    assert(sv[i] =~= c);
                                    assert(dv.is_prefix_of(sv[i]));
                                    assert(sv[sv.len() - 1].is_prefix_of(sv[i]));
                                    assert(false);
                                }
                            }
                            if c.is_prefix_of(sv[i]) {
                                crate::memfs::lemma_prefix_trans(dv, c, sv[i]);
                                assert(sv[sv.len() - 1].is_prefix_of(sv[i]));
                                assert(false);
                            }
                        } else {
                            let c1 = cseq[i - rest.len()];
                            let c2 = cseq[j - rest.len()];
                            assert(sv2[i] == c1 && sv2[j] == c2);
                            assert(c1 != c2);
                            if c1.is_prefix_of(c2) {
                                assert(c1 =~= c2);
                            }
                            if c2.is_prefix_of(c1) {
                                assert(c2 =~= c1);
                            }
                        }
                    }
                    // regions of the new stack are still unvisited
                    assert forall|i: int, p: Seq<Seq<char>>|
                        0 <= i < sv2.len() && #[trigger] sv2[i].is_prefix_of(p) implies
                        !done_dirs.contains(p) && !done_files.contains(p) by {
                        if i < rest.len() {
                            assert(sv2[i] == sv[i]);
                            assert(!odd.contains(p) && !odf.contains(p));
                            if p == dv {
                                assert(sv[i].is_prefix_of(dv));
                                if sv[i].len() <= dv.len() {
                                    assert(sv[i].is_prefix_of(sv[sv.len() - 1])) by {
                                        assert(sv[i] =~= dv.subrange(0, sv[i].len() as int));
                                    }
                                }
                                assert(false);
                            }
                            if fc_set.contains(p) {
                                let k = choose|k: int| 0 <= k < fileseq.len() && fileseq[k] == p;
                                if sv[i].len() <= dv.len() {
                                    assert(sv[i] =~= dv.subrange(0, sv[i].len() as int)) by {
                                        assert(forall|x: int|
                                            0 <= x < sv[i].len() ==> p[x] == sv[i][x]);
                                        assert(forall|x: int| 0 <= x < dv.len() ==> p[x] == dv[x]);
                                    }
                                    assert(sv[i].is_prefix_of(sv[sv.len() - 1]));
                                    assert(false);
                                } else {
                                    assert(sv[i].len() == p.len());
                                    assert(sv[i] =~= p);
                                    assert(status_of(m, p) is IsDir);
                                    assert(false);
                                }
                            }
                        } else {
                            let c = cseq[i - rest.len()];
                            assert(sv2[i] == c);
                            crate::memfs::lemma_prefix_trans(dv, c, p);
                            assert(sv[sv.len() - 1].is_prefix_of(p));
                            assert(!odd.contains(p) && !odf.contains(p));
                            if p == dv {
                                assert(dv.len() < c.len() && c.len() <= p.len());
                                assert(false);
                            }
                            if fc_set.contains(p) {
                                assert(p.len() == dv.len() + 1);
                                assert(c =~= p);
                                assert(status_of(m, p) is IsDir);
                                assert(false);
                            }
                        }
                    }
                    // coverage is maintained
                    assert forall|p: Seq<Seq<char>>|
                        dir_region(m, rv).contains(p) implies done_dirs.contains(p) || (exists|
                        i: int,
                    |
                        0 <= i < sv2.len() && (#[trigger] sv2[i]).is_prefix_of(p)) by {
                        if !done_dirs.contains(p) {
                            assert(!odd.contains(p) && p != dv);
                            let i0 = choose|i0: int|
                                0 <= i0 < sv.len() && (#[trigger] sv[i0]).is_prefix_of(p);
                            if i0 < rest.len() {
                                assert(sv2[i0] == sv[i0]);
                                assert(0 <= i0 < sv2.len() && sv2[i0].is_prefix_of(p));
                            } else {
                                assert(dv.is_prefix_of(p));
                                assert(p.len() > dv.len()) by {
                                    if p.len() == dv.len() {
                                        assert(p =~= dv);
                                    }
                                }
                                assert(m.dom().contains(p));
                                let c0 = p.take(dv.len() as int + 1);
                                crate::memfs::lemma_ancestors_present(m, p, dv.len() as int + 1);
                                assert(dv.is_prefix_of(c0)) by {
                                    assert(dv =~= c0.subrange(0, dv.len() as int));
                                }
                                assert(m.dom().contains(dv.push(c0.last()))) by {
                                    assert(c0 =~= dv.push(c0.last()));
                                }
                                let kk = choose|kk: int|
                                    0 <= kk < l@.len() && #[trigger] l@[kk].name@ == c0.last();
                                assert(m[c0] is Dir) by {
                                    if c0.len() == p.len() {
                                        assert(c0 =~= p);
                                        assert(dir_region(m, rv).contains(p) && p != rv);
                                    }
                                }
                                assert(l@[kk].is_dir) by {
                                    assert(dv.push(l@[kk].name@) =~= c0);
                                    assert(l@[kk].is_dir <==> m[dv.push(l@[kk].name@)] is Dir);
                                }
                                assert(is_dir_pred(l@[kk]));
                                assert(cseq.contains(dv.push(l@[kk].name@)));
                                let kc = choose|kc: int|
                                    0 <= kc < cseq.len() && cseq[kc] == dv.push(l@[kk].name@);
                                assert(sv2[rest.len() + kc] == cseq[kc]);
                                assert(cseq[kc].is_prefix_of(p)) by {
                                    assert(dv.push(l@[kk].name@) =~= c0);
                                    assert(c0 =~= p.subrange(0, c0.len() as int));
                                }
                                assert(0 <= rest.len() + kc < sv2.len() && sv2[rest.len()
                                    + kc].is_prefix_of(p));
                            }
                        }
                    }
                    assert forall|p: Seq<Seq<char>>|
                        file_set(m, rv).contains(p) implies done_files.contains(p) || (exists|
                        i: int,
                    |
                        0 <= i < sv2.len() && (#[trigger] sv2[i]).is_prefix_of(p)) by {
                        if !done_files.contains(p) {
                            assert(!odf.contains(p) && !fc_set.contains(p));
                            let i0 = choose|i0: int|
                                0 <= i0 < sv.len() && (#[trigger] sv[i0]).is_prefix_of(p);
                            if i0 < rest.len() {
                                assert(sv2[i0] == sv[i0]);
                                assert(0 <= i0 < sv2.len() && sv2[i0].is_prefix_of(p));
                            } else {
                                assert(dv.is_prefix_of(p));
                                assert(m.dom().contains(p) && m[p] is File);
                                assert(p.len() > dv.len()) by {
                                    if p.len() == dv.len() {
                                        assert(p =~= dv);
                                        assert(status_of(m, dv) is IsDir);
                                    }
                                }
                                let c0 = p.take(dv.len() as int + 1);
                                crate::memfs::lemma_ancestors_present(m, p, dv.len() as int + 1);
                                assert(dv.is_prefix_of(c0)) by {
                                    assert(dv =~= c0.subrange(0, dv.len() as int));
                                }
                                assert(m.dom().contains(dv.push(c0.last()))) by {
                                    assert(c0 =~= dv.push(c0.last()));
                                }
                                let kk = choose|kk: int|
                                    0 <= kk < l@.len() && #[trigger] l@[kk].name@ == c0.last();
                                if c0.len() < p.len() {
                                    assert(m[c0] is Dir);
                                    assert(l@[kk].is_dir) by {
                                        assert(dv.push(l@[kk].name@) =~= c0);
                                        assert(l@[kk].is_dir <==> m[dv.push(l@[kk].name@)] is Dir);
                                    }
                                    assert(is_dir_pred(l@[kk]));
                                    assert(cseq.contains(dv.push(l@[kk].name@)));
                                    let kc = choose|kc: int|
                                        0 <= kc < cseq.len() && cseq[kc] == dv.push(l@[kk].name@);
                                    assert(sv2[rest.len() + kc] == cseq[kc]);
                                    assert(cseq[kc].is_prefix_of(p)) by {
                                        assert(dv.push(l@[kk].name@) =~= c0);
                                        assert(c0 =~= p.subrange(0, c0.len() as int));
                                    }
                                    assert(0 <= rest.len() + kc < sv2.len() && sv2[rest.len()
                                        + kc].is_prefix_of(p));
                                } else {
                                    assert(c0 =~= p);
                                    assert(!l@[kk].is_dir) by {
                                        assert(dv.push(l@[kk].name@) =~= c0);
                                        assert(l@[kk].is_dir <==> m[dv.push(l@[kk].name@)] is Dir);
                                    }
                                    assert(is_file_pred(l@[kk]));
                                    assert(fileseq.contains(dv.push(l@[kk].name@)));
                                    assert(fc_set.contains(p)) by {
                                        assert(dv.push(l@[kk].name@) =~= p);
                                    }
                                    assert(false);
                                }
                            }
                        }
                    }
                    // counters stay exact
                    assert(fileseq.no_duplicates());
                    fileseq.unique_seq_to_set();
                    assert(fc_set.len() == file_count(l@));
                    assert(odf.disjoint(fc_set)) by {
                        assert forall|p: Seq<Seq<char>>| fc_set.contains(p) implies !odf.contains(
                            p,
                        ) by {}
                    }
                    vstd::set_lib::lemma_set_disjoint_lens(odf, fc_set);
                    assert(done_files.len() == odf.len() + fc_set.len());
                    assert(done_dirs.len() == odd.len() + 1);
                    assert(scan.files() == add_sat(0, done_files.len()));
                    assert(scan.dirs() == add_sat(0, done_dirs.len()));
                    // the match stream stays exact
                    assert(found_paths(events@) =~= found_paths(ev0) + found_paths(evsv));
                    assert(found_paths(evsv) == matchseq);
                    assert forall|e: Seq<Seq<char>>| matchseq.contains(e) implies fc_set.contains(
                        e,
                    ) && search_hits(m, rv, q).contains(e) by {
                        let k = choose|k: int| 0 <= k < matchseq.len() && matchseq[k] == e;
                        assert(from_listing(matchseq[k], dv, l@, match_pred));
                        let j = choose|j: int|
                            0 <= j < l@.len() && #[trigger] match_pred(l@[j]) && e == dv.push(
                                l@[j].name@,
                            );
                        assert(is_file_pred(l@[j]));
                        assert(fileseq.contains(dv.push(l@[j].name@)));
                        let kf = choose|kf: int|
                            0 <= kf < fileseq.len() && fileseq[kf] == dv.push(l@[j].name@);
                        assert(e.last() == l@[j].name@);
                        assert(name_matches(e.last(), q));
                    }
                    assert forall|e: Seq<Seq<char>>|
                        fc_set.contains(e) && search_hits(m, rv, q).contains(e) implies matchseq
                        .contains(e) by {
                        let k = choose|k: int| 0 <= k < fileseq.len() && fileseq[k] == e;
                        assert(from_listing(fileseq[k], dv, l@, is_file_pred));
                        let j = choose|j: int|
                            0 <= j < l@.len() && #[trigger] is_file_pred(l@[j]) && e == dv.push(
                                l@[j].name@,
                            );
                        assert(e.last() == l@[j].name@);
                        assert(match_pred(l@[j]));
                        assert(matchseq.contains(dv.push(l@[j].name@)));
                    }
                    assert(found_paths(events@).no_duplicates()) by {
                        assert forall|x: int, y: int|
                            0 <= x < found_paths(ev0).len() && 0 <= y < matchseq.len() implies
                            found_paths(ev0)[x] != matchseq[y] by {
                            if found_paths(ev0)[x] == matchseq[y] {
                                assert(matchseq.contains(matchseq[y]));
                                assert(fc_set.contains(matchseq[y]));
                                assert(found_paths(ev0).contains(matchseq[y]));
                                assert(false);
                            }
                        }
                        vstd::seq_lib::lemma_no_dup_in_concat(found_paths(ev0), matchseq);
                    }
                    assert(found_paths(events@).to_set() =~= done_files.intersect(
                        search_hits(m, rv, q),
                    )) by {
                        assert forall|e: Seq<Seq<char>>|
                            #[trigger] found_paths(events@).to_set().contains(e) implies
                            done_files.intersect(search_hits(m, rv, q)).contains(e) by {
                            let k = choose|k: int|
                                0 <= k < found_paths(events@).len() && found_paths(events@)[k]
                                    == e;
                            if k < found_paths(ev0).len() {
                                assert(found_paths(ev0).contains(e));
                                assert(found_paths(ev0).to_set().contains(e));
                                assert(odf.intersect(search_hits(m, rv, q)).contains(e));
                            } else {
                                assert(matchseq[k - found_paths(ev0).len()] == e);
                                assert(matchseq.contains(e));
                            }
                        }
                        assert forall|e: Seq<Seq<char>>|
                            done_files.intersect(search_hits(m, rv, q)).contains(e) implies
                            #[trigger] found_paths(events@).to_set().contains(e) by {
                            if odf.contains(e) {
                                assert(odf.intersect(search_hits(m, rv, q)).contains(e));
                                assert(found_paths(ev0).to_set().contains(e));
                                let k = choose|k: int|
                                    0 <= k < found_paths(ev0).len() && found_paths(ev0)[k] == e;
                                assert(found_paths(events@)[k] == e);
                                assert(found_paths(events@).contains(e));
                            } else {
                                assert(fc_set.contains(e));
                                assert(matchseq.contains(e));
                                let k = choose|k: int|
                                    0 <= k < matchseq.len() && matchseq[k] == e;
                                assert(found_paths(events@)[found_paths(ev0).len() + k] == e);
                                assert(found_paths(events@).contains(e));
                            }
                        }
                    }
                    // report discipline
                    assert forall|k: int|
                        0 <= k < events@.len() - 1 implies ((#[trigger] events@[k]) matches
                    SearchEvent::Progress(pm) ==> !pm.done) by {
                        if k < ev0.len() {
                            assert(events@[k] == ev0[k]);
                        } else {
                            assert(events@[k] == evsv[k - ev0.len()]);
                        }
                    }
                    if scan.is_finished() {
                        assert(events@.last() == evsv.last());
                    } else {
                        assert forall|k: int|
                            0 <= k < events@.len() implies ((#[trigger] events@[k]) matches
                        SearchEvent::Progress(pm) ==> !pm.done) by {
                            if k < ev0.len() {
                                assert(events@[k] == ev0[k]);
                            } else {
                                assert(events@[k] == evsv[k - ev0.len()]);
                            }
                        }
                    }
                    // the remaining work shrank
                    assert(stack_measure(m, sv) == stack_measure(m, rest) + rgn(m, dv).len());
                    lemma_stack_measure_concat(m, rest, cseq);
                    assert(rgn(m, dv).subset_of(m.dom().insert(dv))) by {
                        assert forall|x: Seq<Seq<char>>| rgn(m, dv).contains(x) implies m.dom()
                            .insert(dv).contains(x) by {}
                    }
                    vstd::set_lib::lemma_len_subset(rgn(m, dv), m.dom().insert(dv));
                    let big = rgn(m, dv).remove(dv);
                    assert(rgn(m, dv).contains(dv)) by {
                        assert(dv =~= dv.subrange(0, dv.len() as int));
                    }
                    assert forall|i: int| 0 <= i < cseq.len() implies rgn(
                        m,
                        #[trigger] cseq[i],
                    ).subset_of(big) by {
                        assert forall|x: Seq<Seq<char>>| rgn(m, cseq[i]).contains(x) implies big
                            .contains(x) by {
                            assert(cseq[i].is_prefix_of(x));
                            assert(m.dom().contains(x) || x == cseq[i]);
                            assert(m.dom().contains(x));
                            crate::memfs::lemma_prefix_trans(dv, cseq[i], x);
                            assert(x.len() >= cseq[i].len());
                            assert(x != dv);
                        }
                    }
                    assert forall|i: int, j: int|
                        0 <= i < j < cseq.len() implies !(#[trigger] cseq[i]).is_prefix_of(
                        #[trigger] cseq[j],
                    ) && !cseq[j].is_prefix_of(cseq[i]) by {
                        assert(cseq[i] != cseq[j]);
                        if cseq[i].is_prefix_of(cseq[j]) {
                            assert(cseq[i] =~= cseq[j]);
                        }
                        if cseq[j].is_prefix_of(cseq[i]) {
                            assert(cseq[j] =~= cseq[i]);
                        }
                    }
                    lemma_regions_bound(m, cseq, big);
                    assert(big.len() == rgn(m, dv).len() - 1);
                    assert(stack_measure(m, sv2) < stack_measure(m, sv));
                }
            },
        }
    }
    proof {
        assert(done_dirs =~= dir_region(m, rv));
        assert(done_files =~= file_set(m, rv));
        assert(done_files.intersect(search_hits(m, rv, q)) =~= search_hits(m, rv, q));
    }
    events
}

} // verus!
