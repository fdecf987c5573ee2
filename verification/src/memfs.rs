//! The filesystem state that the mutation engine works on: a finite map
//! from absolute paths to nodes (directories or files with byte content).
//! The root directory is implicit; every stored path is non-empty.

use vstd::prelude::*;

verus! {

use vstd::map::*;
use crate::pathname::FsPath;

/// A node of the tree: a directory or a file with its bytes.
pub enum Node {
    Dir,
    File(Vec<u8>),
}

/// The mathematical value of a node.
pub enum NodeData {
    Dir,
    File(Seq<u8>),
}

impl View for Node {
    type V = NodeData;

    open spec fn view(&self) -> NodeData {
        match self {
            Node::Dir => NodeData::Dir,
            Node::File(b) => NodeData::File(b@),
        }
    }
}

impl Clone for Node {
    fn clone(&self) -> (r: Self)
        ensures
            r@ == self@,
    {
        match self {
            Node::Dir => Node::Dir,
            Node::File(b) => {
                let mut v: Vec<u8> = Vec::new();
                for i in 0..b.len()
                    invariant
                        v@ == b@.take(i as int),
                {
                    v.push(b[i]);
                    proof {
                        assert(v@ =~= b@.take(i + 1));
                    }
                }
                proof {
                    assert(b@.take(b@.len() as int) =~= b@);
                }
                Node::File(v)
            },
        }
    }
}

/// One stored path with its node.
pub struct FsEntry {
    pub path: FsPath,
    pub node: Node,
}

impl Clone for FsEntry {
    fn clone(&self) -> (r: Self)
        ensures
            r.path@ == self.path@,
            r.node@ == self.node@,
    {
        FsEntry { path: self.path.clone(), node: self.node.clone() }
    }
}

/// The map that a sequence of entries denotes (later entries win, but the
/// well-formed state keeps paths unique).
pub open spec fn map_of(s: Seq<FsEntry>) -> Map<Seq<Seq<char>>, NodeData>
    decreases s.len(),
{
    if s.len() == 0 {
        Map::empty()
    } else {
        map_of(s.drop_last()).insert(s.last().path@, s.last().node@)
    }
}

/// No two entries share a path.
pub open spec fn paths_unique(s: Seq<FsEntry>) -> bool {
    forall|i: int, j: int|
        0 <= i < j < s.len() ==> s[i].path@ != s[j].path@
}

/// Well-formedness of a filesystem map: stored paths are non-empty, and
/// the parent of every stored path of depth two or more is a stored
/// directory (the root, depth zero, is implicitly a directory).
pub open spec fn fs_wf(m: Map<Seq<Seq<char>>, NodeData>) -> bool {
    &&& forall|q: Seq<Seq<char>>| #[trigger] m.dom().contains(q) ==> q.len() > 0
    &&& forall|q: Seq<Seq<char>>|
        #[trigger] m.dom().contains(q) && q.len() > 1 ==> m.dom().contains(q.drop_last())
            && m[q.drop_last()] is Dir
}

/// The keys at or below `t`.
pub open spec fn subtree_set(t: Seq<Seq<char>>) -> Set<Seq<Seq<char>>> {
    Set::new(|q: Seq<Seq<char>>| t.is_prefix_of(q))
}

/// The subtree of `m` at `from`, re-rooted at `to`.
pub open spec fn copy_map(
    m: Map<Seq<Seq<char>>, NodeData>,
    from: Seq<Seq<char>>,
    to: Seq<Seq<char>>,
) -> Map<Seq<Seq<char>>, NodeData> {
    Map::new(
        |q: Seq<Seq<char>>|
            to.is_prefix_of(q) && m.dom().contains(from + q.skip(to.len() as int)),
        |q: Seq<Seq<char>>| m[from + q.skip(to.len() as int)],
    )
}

/// A prefix, extended by the rest, is the whole.
pub proof fn lemma_prefix_recompose<T>(a: Seq<T>, q: Seq<T>)
    requires
        a.is_prefix_of(q),
    ensures
        a + q.skip(a.len() as int) == q,
{
    assert(a + q.skip(a.len() as int) =~= q);
}

/// Concatenation facts: the extension can be read back off, and the base
/// is a prefix of the whole.
pub proof fn lemma_concat_parts<T>(a: Seq<T>, s: Seq<T>)
    ensures
        (a + s).skip(a.len() as int) == s,
        a.is_prefix_of(a + s),
{
    assert((a + s).skip(a.len() as int) =~= s);
    assert((a + s).subrange(0, a.len() as int) =~= a);
}

/// Prefixes compose.
pub proof fn lemma_prefix_trans<T>(a: Seq<T>, b: Seq<T>, c: Seq<T>)
    requires
        a.is_prefix_of(b),
        b.is_prefix_of(c),
    ensures
        a.is_prefix_of(c),
{
    assert(a =~= c.subrange(0, a.len() as int));
}

/// Inserting a path below `from` grows the re-rooted image by exactly the
/// image of that path.
pub proof fn lemma_copy_map_insert_under(
    m: Map<Seq<Seq<char>>, NodeData>,
    from: Seq<Seq<char>>,
    to: Seq<Seq<char>>,
    p: Seq<Seq<char>>,
    n: NodeData,
)
    requires
        from.is_prefix_of(p),
    ensures
        copy_map(m.insert(p, n), from, to) == copy_map(m, from, to).insert(
            to + p.skip(from.len() as int),
            n,
        ),
{
    let q0 = to + p.skip(from.len() as int);
    lemma_concat_parts(to, p.skip(from.len() as int));
    lemma_prefix_recompose(from, p);
    assert(q0.skip(to.len() as int) == p.skip(from.len() as int));
    let a = copy_map(m.insert(p, n), from, to);
    let b = copy_map(m, from, to).insert(q0, n);
    assert forall|q: Seq<Seq<char>>| #[trigger] a.dom().contains(q) implies b.dom().contains(q)
        && a[q] == b[q] by {
        lemma_prefix_recompose(to, q);
        if from + q.skip(to.len() as int) == p {
            assert(q =~= to + p.skip(from.len() as int));
        } else {
            assert(m.dom().contains(from + q.skip(to.len() as int)));
            if q == q0 {
                assert(from + q.skip(to.len() as int) == p);
                assert(false);
            }
        }
    }
    assert forall|q: Seq<Seq<char>>| #[trigger] b.dom().contains(q) implies a.dom().contains(
        q,
    ) by {
        if q == q0 {
            assert(from + q0.skip(to.len() as int) == p);
            assert(m.insert(p, n).dom().contains(p));
        } else {
            assert(copy_map(m, from, to).dom().contains(q));
            if from + q.skip(to.len() as int) == p {
                lemma_prefix_recompose(to, q);
                assert(q =~= q0);
                assert(false);
            }
        }
    }
    assert(a =~= b);
}

/// Inserting a path outside the subtree at `from` leaves the re-rooted
/// image unchanged.
pub proof fn lemma_copy_map_insert_outside(
    m: Map<Seq<Seq<char>>, NodeData>,
    from: Seq<Seq<char>>,
    to: Seq<Seq<char>>,
    p: Seq<Seq<char>>,
    n: NodeData,
)
    requires
        !from.is_prefix_of(p),
    ensures
        copy_map(m.insert(p, n), from, to) == copy_map(m, from, to),
{
    let a = copy_map(m.insert(p, n), from, to);
    let b = copy_map(m, from, to);
    assert forall|q: Seq<Seq<char>>|
        #[trigger] a.dom().contains(q) == b.dom().contains(q) && (a.dom().contains(q) ==> a[q]
            == b[q]) by {
        if to.is_prefix_of(q) {
            if from + q.skip(to.len() as int) == p {
                lemma_concat_parts(from, q.skip(to.len() as int));
                assert(false);
            }
        }
    }
    assert(a =~= b);
}

/// A key is in `map_of(s)` exactly when some entry holds it.
pub proof fn lemma_map_of_contains(s: Seq<FsEntry>, p: Seq<Seq<char>>)
    ensures
        map_of(s).dom().contains(p) <==> exists|i: int| 0 <= i < s.len() && s[i].path@ == p,
    decreases s.len(),
{
    if s.len() == 0 {
    } else {
        lemma_map_of_contains(s.drop_last(), p);
        if s.last().path@ == p {
            assert(s[s.len() - 1].path@ == p);
        } else {
            if exists|i: int| 0 <= i < s.len() && s[i].path@ == p {
                let i = choose|i: int| 0 <= i < s.len() && s[i].path@ == p;
                assert(s.drop_last()[i].path@ == p);
            }
        }
    }
}

/// With unique paths, the map agrees with each entry.
pub proof fn lemma_map_of_index(s: Seq<FsEntry>, i: int)
    requires
        paths_unique(s),
        0 <= i < s.len(),
    ensures
        map_of(s).dom().contains(s[i].path@),
        map_of(s)[s[i].path@] == s[i].node@,
    decreases s.len(),
{
    if i == s.len() - 1 {
    } else {
        assert(paths_unique(s.drop_last())) by {
            assert(forall|a: int, b: int|
                0 <= a < b < s.drop_last().len() ==> s.drop_last()[a].path@ != s.drop_last()[
                    b
                ].path@);
        }
        lemma_map_of_index(s.drop_last(), i);
        assert(s[i].path@ != s.last().path@);
    }
}

/// The denoted map is finite and no larger than the entry list.
pub proof fn lemma_map_of_finite(s: Seq<FsEntry>)
    ensures
        map_of(s).dom().finite(),
        map_of(s).dom().len() <= s.len(),
    decreases s.len(),
{
    if s.len() == 0 {
        assert(map_of(s).dom() =~= Set::<Seq<Seq<char>>>::empty());
    } else {
        lemma_map_of_finite(s.drop_last());
    }
}

/// In a well-formed map, every non-empty prefix of a stored path is a
/// stored directory (except the path itself, which may be a file).
pub proof fn lemma_ancestors_present(m: Map<Seq<Seq<char>>, NodeData>, q: Seq<Seq<char>>, j: int)
    requires
        fs_wf(m),
        m.dom().contains(q),
        1 <= j <= q.len(),
    ensures
        m.dom().contains(q.take(j)),
        j < q.len() ==> m[q.take(j)] is Dir,
    decreases q.len() - j,
{
    if j == q.len() {
        assert(q.take(j) =~= q);
    } else {
        lemma_ancestors_present(m, q, j + 1);
        let qj1 = q.take(j + 1);
        assert(qj1.len() > 1 || j == 0);
        if j >= 1 {
            assert(qj1.drop_last() =~= q.take(j));
            if j + 1 < q.len() {
                assert(m[qj1] is Dir);
            }
            assert(m.dom().contains(qj1) && qj1.len() > 1);
        }
    }
}

/// A path absent from a well-formed map has an empty subtree.
pub proof fn lemma_empty_subtree(m: Map<Seq<Seq<char>>, NodeData>, t: Seq<Seq<char>>)
    requires
        fs_wf(m),
        t.len() >= 1,
        !m.dom().contains(t),
    ensures
        forall|q: Seq<Seq<char>>| t.is_prefix_of(q) ==> !m.dom().contains(q),
{
    assert forall|q: Seq<Seq<char>>| t.is_prefix_of(q) implies !m.dom().contains(q) by {
        if m.dom().contains(q) {
            lemma_ancestors_present(m, q, t.len() as int);
            assert(q.take(t.len() as int) =~= t);
        }
    }
}

/// Removing a whole subtree keeps a map well-formed.
pub proof fn lemma_wf_remove_subtree(m: Map<Seq<Seq<char>>, NodeData>, t: Seq<Seq<char>>)
    requires
        fs_wf(m),
    ensures
        fs_wf(m.remove_keys(subtree_set(t))),
{
    let m2 = m.remove_keys(subtree_set(t));
    assert forall|q: Seq<Seq<char>>|
        #[trigger] m2.dom().contains(q) && q.len() > 1 implies m2.dom().contains(q.drop_last())
        && m2[q.drop_last()] is Dir by {
        assert(m.dom().contains(q));
        if t.is_prefix_of(q.drop_last()) {
            assert(q.drop_last() =~= q.subrange(0, q.len() - 1));
            assert(t =~= q.subrange(0, t.len() as int));
            assert(t.is_prefix_of(q));
        }
    }
}

/// The filesystem state: a list of entries with unique, non-empty paths.
pub struct MemFs {
    entries: Vec<FsEntry>,
}

impl View for MemFs {
    type V = Map<Seq<Seq<char>>, NodeData>;

    closed spec fn view(&self) -> Map<Seq<Seq<char>>, NodeData> {
        map_of(self.entries@)
    }
}

/// One child of a listed directory: its name and whether it is itself a
/// directory.
pub struct DirEntryInfo {
    pub name: String,
    pub is_dir: bool,
}

/// Whether a path is missing, a directory, or a file.
#[derive(Clone, Copy, Debug, PartialEq, Eq, Structural)]
pub enum PathStatus {
    Missing,
    IsDir,
    IsFile,
}

/// The status of `p` in `m`; the root is always a directory.
pub open spec fn status_of(m: Map<Seq<Seq<char>>, NodeData>, p: Seq<Seq<char>>) -> PathStatus {
    if p.len() == 0 {
        PathStatus::IsDir
    } else if !m.dom().contains(p) {
        PathStatus::Missing
    } else if m[p] is Dir {
        PathStatus::IsDir
    } else {
        PathStatus::IsFile
    }
}

impl MemFs {
    /// Representation invariant: unique, non-empty paths.
    pub closed spec fn inv(self) -> bool {
        &&& paths_unique(self.entries@)
        &&& forall|i: int| 0 <= i < self.entries@.len() ==> self.entries@[i].path@.len() > 0
    }

    /// Full well-formedness: the invariant plus tree structure.
    pub open spec fn wf(self) -> bool {
        self.inv() && fs_wf(self@)
    }

    /// The empty filesystem (just the implicit root).
    pub fn new() -> (fs: MemFs)
        ensures
            fs.wf(),
            fs@ == Map::<Seq<Seq<char>>, NodeData>::empty(),
    {
        let fs = MemFs { entries: Vec::new() };
        proof {
            assert(fs@ =~= Map::<Seq<Seq<char>>, NodeData>::empty());
        }
        fs
    }

    /// The status of `p`: missing, directory, or file.
    pub fn status(&self, p: &FsPath) -> (r: PathStatus)
        requires
            self.inv(),
        ensures
            r == status_of(self@, p@),
    {
        if p.depth() == 0 {
            return PathStatus::IsDir;
        }
        for i in 0..self.entries.len()
            invariant
                self.inv(),
                forall|j: int| 0 <= j < i ==> self.entries@[j].path@ != p@,
        {
            if self.entries[i].path.path_eq(p) {
                proof {
                    lemma_map_of_index(self.entries@, i as int);
                }
                let r = match &self.entries[i].node {
                    Node::Dir => PathStatus::IsDir,
                    Node::File(_) => PathStatus::IsFile,
                };
                return r;
            }
        }
        proof {
            lemma_map_of_contains(self.entries@, p@);
        }
        PathStatus::Missing
    }

    /// The bytes of the file at `p`, if `p` is a file.
    pub fn read_file(&self, p: &FsPath) -> (r: Option<&Vec<u8>>)
        requires
            self.inv(),
        ensures
            (r is Some) <==> (self@.dom().contains(p@) && self@[p@] is File),
            r matches Some(b) ==> self@[p@] == NodeData::File(b@),
    {
        if p.depth() == 0 {
            proof {
                lemma_map_of_contains(self.entries@, p@);
                if self@.dom().contains(p@) {
                    let i = choose|i: int|
                        0 <= i < self.entries@.len() && self.entries@[i].path@ == p@;
                    assert(self.entries@[i].path@.len() > 0);
                }
            }
            return None;
        }
        for i in 0..self.entries.len()
            invariant
                self.inv(),
                forall|j: int| 0 <= j < i ==> self.entries@[j].path@ != p@,
        {
            if self.entries[i].path.path_eq(p) {
                proof {
                    lemma_map_of_index(self.entries@, i as int);
                }
                match &self.entries[i].node {
                    Node::Dir => {
                        return None;
                    },
                    Node::File(b) => {
                        return Some(b);
                    },
                }
            }
        }
        proof {
            lemma_map_of_contains(self.entries@, p@);
        }
        None
    }

    /// An upper bound on how many paths are stored.
    pub fn node_count(&self) -> (n: usize)
        ensures
            self@.dom().finite(),
            self@.dom().len() <= n,
    {
        proof {
            lemma_map_of_finite(self.entries@);
        }
        self.entries.len()
    }

    /// Lists the children of the directory `d`: `None` when `d` is not a
    /// present directory (the root always is); otherwise each child's
    /// name and kind, each child exactly once.
    pub fn list_dir(&self, d: &FsPath) -> (r: Option<Vec<DirEntryInfo>>)
        requires
            self.inv(),
        ensures
            (r is Some) <==> status_of(self@, d@) is IsDir,
            r matches Some(l) ==> ({
                &&& forall|k: int|
                    0 <= k < l@.len() ==> self@.dom().contains(d@.push(#[trigger] l@[k].name@))
                        && (l@[k].is_dir <==> self@[d@.push(l@[k].name@)] is Dir)
                &&& forall|q: Seq<Seq<char>>|
                    #[trigger] self@.dom().contains(q) && q.len() == d@.len() + 1
                        && d@.is_prefix_of(q) ==> exists|k: int|
                        0 <= k < l@.len() && l@[k].name@ == q.last()
                &&& forall|k1: int, k2: int|
                    0 <= k1 < k2 < l@.len() ==> l@[k1].name@ != l@[k2].name@
            }),
    {
        if !(self.status(d) == PathStatus::IsDir) {
            return None;
        }
        let dn: usize = d.depth();
        let mut l: Vec<DirEntryInfo> = Vec::new();
        for i in 0..self.entries.len()
            invariant
                self.inv(),
                dn == d@.len(),
                forall|k: int|
                    0 <= k < l@.len() ==> self@.dom().contains(d@.push(#[trigger] l@[k].name@))
                        && (l@[k].is_dir <==> self@[d@.push(l@[k].name@)] is Dir),
                forall|j: int|
                    0 <= j < i && self.entries@[j].path@.len() == d@.len() + 1
                        && d@.is_prefix_of(#[trigger] self.entries@[j].path@) ==> exists|k: int|
                        0 <= k < l@.len() && l@[k].name@ == self.entries@[j].path@.last(),
                forall|k: int|
                    0 <= k < l@.len() ==> map_of(self.entries@.take(i as int)).dom().contains(
                        d@.push(#[trigger] l@[k].name@),
                    ),
                forall|k1: int, k2: int| 0 <= k1 < k2 < l@.len() ==> l@[k1].name@ != l@[k2].name@,
        {
            let ghost pre = self.entries@.take(i as int);
            proof {
                assert(self.entries@.take(i + 1).drop_last() =~= pre);
                assert(self.entries@.take(i + 1).last() == self.entries@[i as int]);
            }
            let pd: usize = self.entries[i].path.depth();
            let is_child = pd > dn && pd - 1 == dn && d.is_ancestor_of(&self.entries[i].path);
            if is_child {
                let name: String = match self.entries[i].path.file_name() {
                    Some(n) => n.clone(),
                    None => {
                        proof {
                            assert(false);
                        }
                        String::new()
                    },
                };
                let is_dir = match &self.entries[i].node {
                    Node::Dir => true,
                    Node::File(_) => false,
                };
                let ghost l0 = l@;
                proof {
                    assert(self.entries@[i as int].path@ =~= d@.push(name@)) by {
                        assert(d@.is_prefix_of(self.entries@[i as int].path@));
                        assert(self.entries@[i as int].path@.len() == d@.len() + 1);
                    }
                    lemma_map_of_index(self.entries@, i as int);
                }
                l.push(DirEntryInfo { name, is_dir });
                proof {
                    // an equal name would repeat an earlier entry's path
                    assert forall|k1: int, k2: int|
                        0 <= k1 < k2 < l@.len() implies l@[k1].name@ != l@[k2].name@ by {
                        if k2 == l@.len() - 1 {
                            if l@[k1].name@ == l@[k2].name@ {
                                lemma_map_of_contains(pre, d@.push(l0[k1].name@));
                                let j = choose|j: int|
                                    0 <= j < pre.len() && pre[j].path@ == d@.push(l0[k1].name@);
                                assert(self.entries@[j].path@ == self.entries@[i as int].path@);
                                assert(false);
                            }
                        }
                    }
                    // every listed name denotes a path seen so far
                    assert(map_of(self.entries@.take(i + 1)) == map_of(pre).insert(
                        self.entries@[i as int].path@,
                        self.entries@[i as int].node@,
                    ));
                    assert forall|k: int|
                        0 <= k < l@.len() implies map_of(self.entries@.take(i + 1)).dom().contains(
                        d@.push(#[trigger] l@[k].name@),
                    ) by {
                        if k < l@.len() - 1 {
                            assert(map_of(pre).dom().contains(d@.push(l@[k].name@)));
                        } else {
                            assert(d@.push(l@[k].name@) == self.entries@[i as int].path@);
                        }
                    }
                    // the new entry is listed
                    assert forall|j: int|
                        0 <= j < i + 1 && self.entries@[j].path@.len() == d@.len() + 1
                            && d@.is_prefix_of(#[trigger] self.entries@[j].path@) implies exists|
                        k: int,
                    |
                        0 <= k < l@.len() && l@[k].name@ == self.entries@[j].path@.last() by {
                        if j < i {
                            let k = choose|k: int|
                                0 <= k < l0.len() && l0[k].name@ == self.entries@[j].path@.last();
                            assert(0 <= k < l@.len() && l@[k].name@ == self.entries@[
                                j
                            ].path@.last());
                        } else {
                            let k = l@.len() - 1;
                            assert(0 <= k < l@.len() && l@[k].name@ == self.entries@[
                                j
                            ].path@.last());
                        }
                    }
                }
            } else {
                proof {
                    assert forall|k: int|
                        0 <= k < l@.len() implies map_of(self.entries@.take(i + 1)).dom().contains(
                        d@.push(#[trigger] l@[k].name@),
                    ) by {
                        assert(map_of(pre).dom().contains(d@.push(l@[k].name@)));
                        assert(map_of(self.entries@.take(i + 1)) == map_of(pre).insert(
                            self.entries@[i as int].path@,
                            self.entries@[i as int].node@,
                        ));
                    }
                }
            }
        }
        proof {
            assert forall|q: Seq<Seq<char>>|
                #[trigger] self@.dom().contains(q) && q.len() == d@.len() + 1 && d@.is_prefix_of(
                q,
            ) implies exists|k: int| 0 <= k < l@.len() && l@[k].name@ == q.last() by {
                lemma_map_of_contains(self.entries@, q);
                let j = choose|j: int|
                    0 <= j < self.entries@.len() && self.entries@[j].path@ == q;
            }
        }
        Some(l)
    }

    /// Adds one fresh path.
    pub(crate) fn raw_insert(&mut self, p: FsPath, n: Node)
        requires
            old(self).inv(),
            p@.len() > 0,
            !old(self)@.dom().contains(p@),
        ensures
            final(self).inv(),
            final(self)@ == old(self)@.insert(p@, n@),
    {
        let ghost pv = p@;
        let ghost nv = n@;
        let ghost before = self.entries@;
        proof {
            lemma_map_of_contains(before, pv);
        }
        self.entries.push(FsEntry { path: p, node: n });
        proof {
            assert(self.entries@.drop_last() =~= before);
            assert(self.entries@.last().path@ == pv && self.entries@.last().node@ == nv);
            assert(self@ == map_of(before).insert(pv, nv));
            assert forall|i: int, j: int|
                0 <= i < j < self.entries@.len() implies self.entries@[i].path@ != self.entries@[
                j
            ].path@ by {
                if j == self.entries@.len() - 1 {
                    assert(self.entries@[i] == before[i]);
                }
            }
        }
    }

    /// Removes every path at or below `t`.
    pub(crate) fn remove_subtree(&mut self, t: &FsPath)
        requires
            old(self).inv(),
        ensures
            final(self).inv(),
            final(self)@ == old(self)@.remove_keys(subtree_set(t@)),
    {
        let ghost all = self.entries@;
        let mut kept: Vec<FsEntry> = Vec::new();
        for i in 0..self.entries.len()
            invariant
                self.entries@ == all,
                self.inv(),
                paths_unique(kept@),
                map_of(kept@) == map_of(all.take(i as int)).remove_keys(subtree_set(t@)),
                forall|x: int|
                    0 <= x < kept@.len() ==> map_of(all.take(i as int)).dom().contains(
                        #[trigger] kept@[x].path@,
                    ) && kept@[x].path@.len() > 0,
        {
            let ghost mi = map_of(all.take(i as int));
            let e = &self.entries[i];
            proof {
                assert(all.take(i + 1).drop_last() =~= all.take(i as int));
                assert(all.take(i + 1).last() == all[i as int]);
                lemma_map_of_contains(all.take(i as int), all[i as int].path@);
            }
            if t.is_ancestor_of(&e.path) {
                proof {
                    assert(subtree_set(t@).contains(all[i as int].path@));
                    assert(map_of(all.take(i + 1)).remove_keys(subtree_set(t@)) =~= mi.remove_keys(subtree_set(t@)));
                }
            } else {
                let ghost kept0 = kept@;
                kept.push(e.clone());
                proof {
                    assert(kept@.drop_last() =~= kept0);
                    assert(!subtree_set(t@).contains(all[i as int].path@));
                    assert(map_of(all.take(i + 1)).remove_keys(subtree_set(t@))
                        =~= mi.remove_keys(subtree_set(t@)).insert(
                        all[i as int].path@,
                        all[i as int].node@,
                    ));
                    assert(map_of(kept@) == map_of(kept0).insert(
                        kept@.last().path@,
                        kept@.last().node@,
                    ));
                    // the new path was not among the kept ones
                    assert forall|x: int, y: int|
                        0 <= x < y < kept@.len() implies kept@[x].path@ != kept@[y].path@ by {
                        if y == kept@.len() - 1 {
                            assert(mi.dom().contains(kept@[x].path@));
                            lemma_map_of_contains(all.take(i as int), kept@[x].path@);
                            let w = choose|w: int|
                                0 <= w < i && all.take(i as int)[w].path@ == kept@[x].path@;
                            assert(all[w].path@ == kept@[x].path@);
                            assert(all[w].path@ != all[i as int].path@);
                        }
                    }
                    assert forall|x: int|
                        0 <= x < kept@.len() implies map_of(all.take(i + 1)).dom().contains(
                        #[trigger] kept@[x].path@,
                    ) && kept@[x].path@.len() > 0 by {
                        if x < kept@.len() - 1 {
                            assert(mi.dom().contains(kept@[x].path@));
                        } else {
                            assert(kept@[x].path@ == all[i as int].path@);
                            assert(all[i as int].path@.len() > 0);
                        }
                    }
                }
            }
        }
        proof {
            assert(all.take(all.len() as int) =~= all);
        }
        self.entries = kept;
    }

    /// Duplicates the subtree at `from` under the fresh path `to`.
    pub(crate) fn copy_subtree(&mut self, from: &FsPath, to: &FsPath)
        requires
            old(self).inv(),
            from@.len() > 0,
            to@.len() > 0,
            old(self)@.dom().contains(from@),
            !old(self)@.dom().contains(to@),
            forall|q: Seq<Seq<char>>|
                to@.is_prefix_of(q) ==> !old(self)@.dom().contains(q),
        ensures
            final(self).inv(),
            final(self)@ == old(self)@.union_prefer_right(copy_map(old(self)@, from@, to@)),
    {
        let ghost m0 = self@;
        let ghost all = self.entries@;
        let mut image: Vec<FsEntry> = Vec::new();
        proof {
            assert(map_of(image@) =~= copy_map(map_of(all.take(0)), from@, to@)) by {
                assert(all.take(0).len() == 0);
                assert(copy_map(map_of(all.take(0)), from@, to@) =~= Map::<
                    Seq<Seq<char>>,
                    NodeData,
                >::empty());
            }
        }
        for i in 0..self.entries.len()
            invariant
                self.entries@ == all,
                self.inv(),
                paths_unique(image@),
                map_of(image@) == copy_map(map_of(all.take(i as int)), from@, to@),
                forall|x: int|
                    0 <= x < image@.len() ==> to@.is_prefix_of(#[trigger] image@[x].path@),
        {
            let ghost mi = map_of(all.take(i as int));
            proof {
                assert(all.take(i + 1).drop_last() =~= all.take(i as int));
                assert(all.take(i + 1).last() == all[i as int]);
            }
            if from.is_ancestor_of(&self.entries[i].path) {
                let q = self.entries[i].path.rebase(from, to);
                let nd = self.entries[i].node.clone();
                let ghost image0 = image@;
                proof {
                    lemma_copy_map_insert_under(mi, from@, to@, all[i as int].path@, all[
                        i as int
                    ].node@);
                    lemma_concat_parts(to@, all[i as int].path@.skip(from@.len() as int));
                }
                image.push(FsEntry { path: q, node: nd });
                proof {
                    let qv = to@ + all[i as int].path@.skip(from@.len() as int);
                    assert(image@.drop_last() =~= image0);
                    assert(map_of(image@) == map_of(image0).insert(qv, all[i as int].node@));
                    // the new image path is fresh among the image paths
                    assert forall|x: int, y: int|
                        0 <= x < y < image@.len() implies image@[x].path@ != image@[y].path@ by {
                        if y == image@.len() - 1 {
                            if image@[x].path@ == qv {
                                lemma_map_of_index(image0, x);
                                assert(copy_map(mi, from@, to@).dom().contains(qv));
                                lemma_prefix_recompose(from@, all[i as int].path@);
                                assert(mi.dom().contains(all[i as int].path@));
                                lemma_map_of_contains(all.take(i as int), all[i as int].path@);
                                let w = choose|w: int|
                                    0 <= w < i && all.take(i as int)[w].path@ == all[
                                        i as int
                                    ].path@;
                                assert(all[w].path@ == all[i as int].path@);
                                assert(false);
                            }
                        }
                    }
                }
            } else {
                proof {
                    lemma_copy_map_insert_outside(mi, from@, to@, all[i as int].path@, all[
                        i as int
                    ].node@);
                }
            }
        }
        proof {
            assert(all.take(all.len() as int) =~= all);
            assert(map_of(image@) == copy_map(m0, from@, to@));
        }
        // insert the image
        let n: usize = image.len();
        proof {
            assert(self@ =~= m0.union_prefer_right(map_of(image@.take(0)))) by {
                assert(image@.take(0).len() == 0);
                assert(map_of(image@.take(0)) =~= Map::<Seq<Seq<char>>, NodeData>::empty());
            }
        }
        for j in 0..n
            invariant
                n == image@.len(),
                image@.len() == image.len(),
                self.inv(),
                paths_unique(image@),
                map_of(image@) == copy_map(m0, from@, to@),
                forall|x: int|
                    0 <= x < image@.len() ==> to@.is_prefix_of(#[trigger] image@[x].path@),
                forall|q: Seq<Seq<char>>| to@.is_prefix_of(q) ==> !m0.dom().contains(q),
                to@.len() > 0,
                self@ == m0.union_prefer_right(map_of(image@.take(j as int))),
        {
            let ent = image[j].clone();
            proof {
                assert(to@.is_prefix_of(ent.path@));
                assert(ent.path@.len() >= to@.len());
                // not yet present: not in m0, and not among the earlier inserts
                assert(!m0.dom().contains(ent.path@));
                lemma_map_of_contains(image@.take(j as int), ent.path@);
                if map_of(image@.take(j as int)).dom().contains(ent.path@) {
                    let w = choose|w: int|
                        0 <= w < j && image@.take(j as int)[w].path@ == ent.path@;
                    assert(image@[w].path@ == image@[j as int].path@);
                    assert(false);
                }
                assert(!self@.dom().contains(ent.path@));
            }
            let FsEntry { path, node } = ent;
            self.raw_insert(path, node);
            proof {
                assert(image@.take(j + 1).drop_last() =~= image@.take(j as int));
                assert(image@.take(j + 1).last() == image@[j as int]);
                assert(map_of(image@.take(j + 1)) == map_of(image@.take(j as int)).insert(
                    image@[j as int].path@,
                    image@[j as int].node@,
                ));
                assert(self@ =~= m0.union_prefer_right(map_of(image@.take(j + 1))));
            }
        }
        proof {
            assert(image@.take(image@.len() as int) =~= image@);
        }
    }

    /// Moves the subtree at `from` to the fresh path `to`: the copied
    /// image appears at `to` and the source disappears.
    pub(crate) fn move_subtree(&mut self, from: &FsPath, to: &FsPath)
        requires
            old(self).inv(),
            from@.len() > 0,
            to@.len() > 0,
            old(self)@.dom().contains(from@),
            !old(self)@.dom().contains(to@),
            !from@.is_prefix_of(to@),
            forall|q: Seq<Seq<char>>|
                to@.is_prefix_of(q) ==> !old(self)@.dom().contains(q),
        ensures
            final(self).inv(),
            final(self)@ == old(self)@.union_prefer_right(
                copy_map(old(self)@, from@, to@),
            ).remove_keys(subtree_set(from@)),
    {
        self.copy_subtree(from, to);
        self.remove_subtree(from);
    }
}

} // verus!
