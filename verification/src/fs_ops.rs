//! The mutation engine: collision-free naming, and the reversible
//! operations copy, move, rename, mkdir, touch, delete-to-trash and undo,
//! all specified as transitions of the filesystem map.

use vstd::prelude::*;

verus! {

use vstd::map::*;
use vstd::seq_lib::*;
use vstd::set_lib::lemma_len_subset;
use crate::pathname::FsPath;
use crate::memfs::{
    MemFs, Node, NodeData, PathStatus, status_of, fs_wf, subtree_set, copy_map,
    lemma_concat_parts, lemma_ancestors_present, lemma_empty_subtree, lemma_wf_remove_subtree,
};
use crate::text::{dec_str, lemma_dec_str_len, lemma_dec_str_injective, u64_to_string};
use vstd::string::StringExecFns;

/// A completed mutation, carrying exactly the paths needed to invert it.
pub enum Op {
    Rename { from: FsPath, to: FsPath },
    Move { from: FsPath, to: FsPath },
    Copy { to: FsPath },
    Delete { trashed: FsPath, original: FsPath },
    MkDir { path: FsPath },
    Touch { path: FsPath },
}

/// A failure, attributable to the path it names.
#[derive(Debug)]
pub enum IoError {
    NotFound { path: FsPath },
    AlreadyExists { path: FsPath },
    NotADirectory { path: FsPath },
    IsADirectory { path: FsPath },
    InvalidTarget { path: FsPath },
}

/// The `k`-th candidate for a desired name: the name itself, then
/// `name (1)`, `name (2)`, and so on — the suffix goes after the whole
/// name, extension included.
pub open spec fn cand_name(name: Seq<char>, k: nat) -> Seq<char> {
    if k == 0 {
        name
    } else {
        name + seq![' ', '('] + dec_str(k) + seq![')']
    }
}

/// Distinct candidate indices give distinct names.
pub proof fn lemma_cand_name_injective(name: Seq<char>, j: nat, k: nat)
    requires
        j != k,
    ensures
        cand_name(name, j) != cand_name(name, k),
{
    lemma_dec_str_len(j);
    lemma_dec_str_len(k);
    if j == 0 || k == 0 {
        assert(cand_name(name, j).len() != cand_name(name, k).len());
    } else {
        if cand_name(name, j) == cand_name(name, k) {
            let sj = seq![' ', '('] + dec_str(j) + seq![')'];
            let sk = seq![' ', '('] + dec_str(k) + seq![')'];
            assert(cand_name(name, j) =~= name + sj);
            assert(cand_name(name, k) =~= name + sk);
            lemma_concat_parts(name, sj);
            lemma_concat_parts(name, sk);
            assert(sj == sk);
            assert(sj.drop_last() =~= seq![' ', '('] + dec_str(j));
            assert(sk.drop_last() =~= seq![' ', '('] + dec_str(k));
            lemma_concat_parts(seq![' ', '('], dec_str(j));
            lemma_concat_parts(seq![' ', '('], dec_str(k));
            assert(dec_str(j) == dec_str(k));
            lemma_dec_str_injective(j, k);
            assert(false);
        }
    }
}

/// Whether the `k`-th candidate under `dir` is taken in `m`.
pub open spec fn cand_occupied(
    m: Map<Seq<Seq<char>>, NodeData>,
    dir: Seq<Seq<char>>,
    name: Seq<char>,
    k: nat,
) -> bool {
    m.dom().contains(dir.push(cand_name(name, k)))
}

/// The least free candidate index under `dir` for `name`.
pub open spec fn least_free(
    m: Map<Seq<Seq<char>>, NodeData>,
    dir: Seq<Seq<char>>,
    name: Seq<char>,
) -> nat {
    choose|k: nat|
        !cand_occupied(m, dir, name, k) && (forall|j: nat|
            j < k ==> cand_occupied(m, dir, name, j))
}

/// The collision-free destination that the resolver picks.
pub open spec fn resolve_spec(
    m: Map<Seq<Seq<char>>, NodeData>,
    dir: Seq<Seq<char>>,
    name: Seq<char>,
) -> Seq<Seq<char>> {
    dir.push(cand_name(name, least_free(m, dir, name)))
}

/// A witness of the minimal free index pins `least_free` down.
pub proof fn lemma_least_free_is(
    m: Map<Seq<Seq<char>>, NodeData>,
    dir: Seq<Seq<char>>,
    name: Seq<char>,
    k: nat,
)
    requires
        !cand_occupied(m, dir, name, k),
        forall|j: nat| j < k ==> cand_occupied(m, dir, name, j),
    ensures
        least_free(m, dir, name) == k,
{
    assert(!cand_occupied(m, dir, name, k) && (forall|j: nat|
        j < k ==> cand_occupied(m, dir, name, j)));
    let k2 = least_free(m, dir, name);
    assert(!cand_occupied(m, dir, name, k2) && (forall|j: nat|
        j < k2 ==> cand_occupied(m, dir, name, j)));
    if k2 < k {
        assert(cand_occupied(m, dir, name, k2));
        assert(false);
    }
    if k < k2 {
        assert(cand_occupied(m, dir, name, k));
        assert(false);
    }
}

/// A finite map cannot occupy every candidate: among the first
/// `n + 1` candidate indices, where `n` bounds the key count, one is free.
pub proof fn lemma_free_candidate_exists(
    m: Map<Seq<Seq<char>>, NodeData>,
    dir: Seq<Seq<char>>,
    name: Seq<char>,
    n: nat,
)
    requires
        m.dom().finite(),
        m.dom().len() <= n,
    ensures
        exists|j: nat| j <= n && !cand_occupied(m, dir, name, j),
{
    broadcast use vstd::seq_lib::seq_to_set_is_finite;

    if !(exists|j: nat| j <= n && !cand_occupied(m, dir, name, j)) {
        assert(forall|j: nat| j <= n ==> cand_occupied(m, dir, name, j));
        let cands = Seq::new(n + 1, |j: int| dir.push(cand_name(name, j as nat)));
        assert(cands.no_duplicates()) by {
            assert forall|i: int, j: int|
                0 <= i < cands.len() && 0 <= j < cands.len() && i != j implies cands[i] != cands[
                j
            ] by {
                lemma_cand_name_injective(name, i as nat, j as nat);
                assert(cands[i].last() == cand_name(name, i as nat));
                assert(cands[j].last() == cand_name(name, j as nat));
            }
        }
        cands.unique_seq_to_set();
        assert(cands.to_set().subset_of(m.dom())) by {
            assert forall|p: Seq<Seq<char>>| cands.to_set().contains(p) implies m.dom().contains(
                p,
            ) by {
                let i = choose|i: int| 0 <= i < cands.len() && cands[i] == p;
                assert(cand_occupied(m, dir, name, i as nat));
            }
        }
        lemma_len_subset(cands.to_set(), m.dom());
    }
}

/// Some minimal free candidate index exists below any free one.
proof fn lemma_least_exists(
    m: Map<Seq<Seq<char>>, NodeData>,
    dir: Seq<Seq<char>>,
    name: Seq<char>,
    j: nat,
)
    requires
        !cand_occupied(m, dir, name, j),
    ensures
        exists|k: nat|
            !cand_occupied(m, dir, name, k) && (forall|i: nat|
                i < k ==> cand_occupied(m, dir, name, i)),
    decreases j,
{
    if forall|i: nat| i < j ==> cand_occupied(m, dir, name, i) {
        assert(!cand_occupied(m, dir, name, j) && (forall|i: nat|
            i < j ==> cand_occupied(m, dir, name, i)));
    } else {
        let i = choose|i: nat| i < j && !cand_occupied(m, dir, name, i);
        lemma_least_exists(m, dir, name, i);
    }
}

/// Over a finite state the resolver's index is grounded: its candidate
/// is free and every smaller one is taken.
pub proof fn lemma_resolver_minimal(
    m: Map<Seq<Seq<char>>, NodeData>,
    dir: Seq<Seq<char>>,
    name: Seq<char>,
)
    requires
        m.dom().finite(),
    ensures
        !cand_occupied(m, dir, name, least_free(m, dir, name)),
        forall|j: nat| j < least_free(m, dir, name) ==> cand_occupied(m, dir, name, j),
        !m.dom().contains(resolve_spec(m, dir, name)),
{
    lemma_free_candidate_exists(m, dir, name, m.dom().len());
    let j = choose|j: nat| j <= m.dom().len() && !cand_occupied(m, dir, name, j);
    lemma_least_exists(m, dir, name, j);
    let k = choose|k: nat|
        !cand_occupied(m, dir, name, k) && (forall|i: nat|
            i < k ==> cand_occupied(m, dir, name, i));
    lemma_least_free_is(m, dir, name, k);
}

/// Creating directories along an already present chain changes nothing.
pub proof fn lemma_with_dirs_present_id(
    m: Map<Seq<Seq<char>>, NodeData>,
    p: Seq<Seq<char>>,
    k: int,
)
    requires
        0 <= k <= p.len(),
        forall|j: int| 1 <= j <= k ==> m.dom().contains(#[trigger] p.take(j)),
    ensures
        with_dirs(m, p, k) == m,
    decreases k,
{
    if k > 0 {
        lemma_with_dirs_present_id(m, p, k - 1);
    }
}

/// Builds the `k`-th candidate name.
pub fn candidate(name: &str, k: u64) -> (r: String)
    ensures
        r@ == cand_name(name@, k as nat),
{
    if k == 0 {
        name.to_owned()
    } else {
        let mut r = name.to_owned();
        proof {
            reveal_strlit(" (");
            reveal_strlit(")");
        }
        r.append(" (");
        let digits = u64_to_string(k);
        r.append(digits.as_str());
        r.append(")");
        proof {
            assert(" ("@ =~= seq![' ', '(']);
            assert(")"@ =~= seq![')']);
            assert(r@ =~= cand_name(name@, k as nat));
        }
        r
    }
}

/// Picks a destination under `dir` that does not collide with anything
/// present: the desired name if free, else the first free numbered
/// variant. The chosen index is minimal, so repeated resolution against a
/// growing directory yields strictly increasing suffixes.
pub fn unique_in(fs: &MemFs, dir: &FsPath, name: &str) -> (dst: FsPath)
    requires
        fs.inv(),
    ensures
        dst@ == resolve_spec(fs@, dir@, name@),
        dst@ == dir@.push(cand_name(name@, least_free(fs@, dir@, name@))),
        !fs@.dom().contains(dst@),
        forall|j: nat| j < least_free(fs@, dir@, name@) ==> cand_occupied(fs@, dir@, name@, j),
    {
    let n: usize = fs.node_count();
    let mut k: usize = 0;
    loop
        invariant
            fs.inv(),
            k <= n,
            fs@.dom().finite(),
            fs@.dom().len() <= n,
            forall|j: nat| j < k ==> cand_occupied(fs@, dir@, name@, j),
        decreases n - k,
    {
        let cname = candidate(name, k as u64);
        let cand = dir.join(cname.as_str());
        if fs.status(&cand) == PathStatus::Missing {
            proof {
                assert(cand@.len() > 0);
                assert(!fs@.dom().contains(cand@));
                lemma_least_free_is(fs@, dir@, name@, k as nat);
            }
            return cand;
        }
        proof {
            assert(cand_occupied(fs@, dir@, name@, k as nat));
            lemma_free_candidate_exists(fs@, dir@, name@, n as nat);
            let jf = choose|j: nat| j <= n as nat && !cand_occupied(fs@, dir@, name@, j);
            assert(jf > k as nat);
            assert(k < n);
        }
        k = k + 1;
    }
}

/// Creating the directories along `p` can succeed: every present
/// non-empty prefix of `p` is a directory.
pub open spec fn can_make_dirs(m: Map<Seq<Seq<char>>, NodeData>, p: Seq<Seq<char>>) -> bool {
    forall|j: int|
        1 <= j <= p.len() && m.dom().contains(#[trigger] p.take(j)) ==> m[p.take(j)] is Dir
}

/// `m` with the missing directories along the first `k` components of `p`
/// created.
pub open spec fn with_dirs(
    m: Map<Seq<Seq<char>>, NodeData>,
    p: Seq<Seq<char>>,
    k: int,
) -> Map<Seq<Seq<char>>, NodeData>
    decreases k,
{
    if k <= 0 {
        m
    } else {
        let m2 = with_dirs(m, p, k - 1);
        if m2.dom().contains(p.take(k)) {
            m2
        } else {
            m2.insert(p.take(k), NodeData::Dir)
        }
    }
}

/// `m` with the whole directory chain of `p` created.
pub open spec fn with_all_dirs(
    m: Map<Seq<Seq<char>>, NodeData>,
    p: Seq<Seq<char>>,
) -> Map<Seq<Seq<char>>, NodeData> {
    with_dirs(m, p, p.len() as int)
}

/// What creating directories does: it adds exactly the missing prefixes,
/// as directories, and changes nothing else.
pub proof fn lemma_with_dirs_facts(m: Map<Seq<Seq<char>>, NodeData>, p: Seq<Seq<char>>, k: int)
    requires
        0 <= k <= p.len(),
    ensures
        forall|q: Seq<Seq<char>>|
            #[trigger] with_dirs(m, p, k).dom().contains(q) <==> (m.dom().contains(q) || (
            exists|j: int| 1 <= j <= k && q == p.take(j))),
        forall|q: Seq<Seq<char>>|
            m.dom().contains(q) ==> with_dirs(m, p, k)[q] == m[q],
        forall|q: Seq<Seq<char>>|
            #[trigger] with_dirs(m, p, k).dom().contains(q) && !m.dom().contains(q) ==> with_dirs(
                m,
                p,
                k,
            )[q] is Dir,
    decreases k,
{
    if k > 0 {
        lemma_with_dirs_facts(m, p, k - 1);
        assert forall|q: Seq<Seq<char>>|
            #[trigger] with_dirs(m, p, k).dom().contains(q) implies (m.dom().contains(q) || (
        exists|j: int| 1 <= j <= k && q == p.take(j))) by {
            if !m.dom().contains(q) {
                if with_dirs(m, p, k - 1).dom().contains(q) {
                    let j = choose|j: int| 1 <= j <= k - 1 && q == p.take(j);
                    assert(1 <= j <= k && q == p.take(j));
                } else {
                    assert(q == p.take(k));
                }
            }
        }
        assert forall|q: Seq<Seq<char>>|
            (m.dom().contains(q) || (exists|j: int|
                1 <= j <= k && q == p.take(j))) implies #[trigger] with_dirs(
            m,
            p,
            k,
        ).dom().contains(q) by {
            if !m.dom().contains(q) {
                let j = choose|j: int| 1 <= j <= k && q == p.take(j);
                if j <= k - 1 {
                    assert(with_dirs(m, p, k - 1).dom().contains(q));
                }
            }
        }
    }
}

/// Creating directories preserves well-formedness.
pub proof fn lemma_with_dirs_wf(m: Map<Seq<Seq<char>>, NodeData>, p: Seq<Seq<char>>)
    requires
        fs_wf(m),
        can_make_dirs(m, p),
    ensures
        fs_wf(with_all_dirs(m, p)),
{
    lemma_with_dirs_facts(m, p, p.len() as int);
    let u = with_all_dirs(m, p);
    assert forall|q: Seq<Seq<char>>| #[trigger] u.dom().contains(q) implies q.len() > 0 by {
        if !m.dom().contains(q) {
            let j = choose|j: int| 1 <= j <= p.len() && q == p.take(j);
        }
    }
    assert forall|q: Seq<Seq<char>>|
        #[trigger] u.dom().contains(q) && q.len() > 1 implies u.dom().contains(q.drop_last())
        && u[q.drop_last()] is Dir by {
        if m.dom().contains(q) {
            assert(m.dom().contains(q.drop_last()) && m[q.drop_last()] is Dir);
        } else {
            let j = choose|j: int| 1 <= j <= p.len() && q == p.take(j);
            assert(q.len() == j);
            assert(q.drop_last() =~= p.take(j - 1));
            if m.dom().contains(p.take(j - 1)) {
                assert(m[p.take(j - 1)] is Dir);
            } else {
                assert(u.dom().contains(p.take(j - 1)));
                assert(u[p.take(j - 1)] is Dir);
            }
        }
    }
}

/// Inserting a fresh leaf whose parent is a present directory preserves
/// well-formedness.
pub proof fn lemma_wf_insert_leaf(m: Map<Seq<Seq<char>>, NodeData>, t: Seq<Seq<char>>, n: NodeData)
    requires
        fs_wf(m),
        t.len() >= 1,
        !m.dom().contains(t),
        t.len() > 1 ==> m.dom().contains(t.drop_last()) && m[t.drop_last()] is Dir,
    ensures
        fs_wf(m.insert(t, n)),
{
    let u = m.insert(t, n);
    assert forall|q: Seq<Seq<char>>|
        #[trigger] u.dom().contains(q) && q.len() > 1 implies u.dom().contains(q.drop_last())
        && u[q.drop_last()] is Dir by {
        if q == t {
            assert(q.drop_last() != t) by {
                assert(q.drop_last().len() != t.len());
            }
        } else {
            assert(m.dom().contains(q));
            assert(q.drop_last() != t || !(q.drop_last() =~= t)) by {}
            if q.drop_last() == t {
                lemma_concat_parts(t, seq![q.last()]);
                assert(t.is_prefix_of(q)) by {
                    assert(q =~= t + seq![q.last()]);
                }
                lemma_empty_subtree(m, t);
                assert(false);
            }
        }
    }
}

/// The copied image of a present subtree, placed at a fresh path whose
/// parent is a present directory, preserves well-formedness.
#[verifier::rlimit(50)]
#[verifier::spinoff_prover]
pub proof fn lemma_wf_copy_union(
    m: Map<Seq<Seq<char>>, NodeData>,
    from: Seq<Seq<char>>,
    dst: Seq<Seq<char>>,
)
    requires
        fs_wf(m),
        m.dom().contains(from),
        from.len() > 0,
        dst.len() > 0,
        !m.dom().contains(dst),
        dst.len() > 1 ==> m.dom().contains(dst.drop_last()) && m[dst.drop_last()] is Dir,
    ensures
        fs_wf(m.union_prefer_right(copy_map(m, from, dst))),
        forall|q: Seq<Seq<char>>|
            m.dom().contains(q) ==> m.union_prefer_right(copy_map(m, from, dst)).dom().contains(q)
                && m.union_prefer_right(copy_map(m, from, dst))[q] == m[q],
{
    lemma_empty_subtree(m, dst);
    let cm = copy_map(m, from, dst);
    let u = m.union_prefer_right(cm);
    assert forall|q: Seq<Seq<char>>| m.dom().contains(q) implies u.dom().contains(q) && u[q]
        == m[q] by {
        if cm.dom().contains(q) {
            assert(dst.is_prefix_of(q));
            assert(false);
        }
    }
    assert forall|q: Seq<Seq<char>>| #[trigger] u.dom().contains(q) implies q.len() > 0 by {
        if cm.dom().contains(q) {
            assert(dst.is_prefix_of(q));
        }
    }
    assert forall|q: Seq<Seq<char>>|
        #[trigger] u.dom().contains(q) && q.len() > 1 implies u.dom().contains(q.drop_last())
        && u[q.drop_last()] is Dir by {
        if cm.dom().contains(q) {
            assert(dst.is_prefix_of(q));
            let s = q.skip(dst.len() as int);
            let src = from + s;
            assert(m.dom().contains(src));
            if q.len() == dst.len() {
                assert(q =~= dst);
                assert(!dst.is_prefix_of(q.drop_last()));
                assert(u[q.drop_last()] == m[q.drop_last()]) by {
                    if cm.dom().contains(q.drop_last()) {
                        assert(false);
                    }
                }
            } else {
                // q = dst + s with s non-empty
                assert(s.len() > 0);
                assert(q.drop_last() =~= dst + s.drop_last());
                lemma_concat_parts(dst, s.drop_last());
                assert((dst + s.drop_last()).skip(dst.len() as int) == s.drop_last());
                assert(src.len() > 1);
                assert(m.dom().contains(src.drop_last()) && m[src.drop_last()] is Dir);
                assert(src.drop_last() =~= from + s.drop_last());
                assert(cm.dom().contains(q.drop_last()));
                assert(cm[q.drop_last()] == m[from + s.drop_last()]);
                assert(u[q.drop_last()] == cm[q.drop_last()]);
            }
        } else {
            assert(m.dom().contains(q));
            assert(m.dom().contains(q.drop_last()) && m[q.drop_last()] is Dir);
            assert(u[q.drop_last()] == m[q.drop_last()]) by {
                if cm.dom().contains(q.drop_last()) {
                    assert(dst.is_prefix_of(q.drop_last()));
                    assert(q.drop_last().is_prefix_of(q)) by {
                        assert(q.drop_last() =~= q.subrange(0, q.len() - 1));
                    }
                    crate::memfs::lemma_prefix_trans(dst, q.drop_last(), q);
                    assert(false);
                }
            }
        }
    }
}

/// Whether the directory chain of `p` can be created.
fn dirs_ok(fs: &MemFs, p: &FsPath) -> (r: bool)
    requires
        fs.inv(),
    ensures
        r == can_make_dirs(fs@, p@),
{
    let n: usize = p.depth();
    for j in 0..n
        invariant
            fs.inv(),
            n == p@.len(),
            forall|t: int|
                1 <= t <= j && fs@.dom().contains(#[trigger] p@.take(t)) ==> fs@[p@.take(
                    t,
                )] is Dir,
    {
        let pre = p.prefix(j + 1);
        if fs.status(&pre) == PathStatus::IsFile {
            proof {
                assert(fs@.dom().contains(p@.take(j + 1)) && !(fs@[p@.take(j + 1)] is Dir));
            }
            return false;
        }
        proof {
            assert(pre@.len() > 0);
            assert(fs@.dom().contains(p@.take(j + 1)) ==> fs@[p@.take(j + 1)] is Dir);
        }
    }
    true
}

/// Creates the missing directories along `p`.
fn ensure_dirs(fs: &mut MemFs, p: &FsPath)
    requires
        old(fs).inv(),
    ensures
        final(fs).inv(),
        final(fs)@ == with_all_dirs(old(fs)@, p@),
{
    let n: usize = p.depth();
    for j in 0..n
        invariant
            fs.inv(),
            n == p@.len(),
            fs@ == with_dirs(old(fs)@, p@, j as int),
    {
        let pre = p.prefix(j + 1);
        if fs.status(&pre) == PathStatus::Missing {
            proof {
                assert(pre@.len() > 0);
            }
            fs.raw_insert(pre, Node::Dir);
        }
        proof {
            assert(fs@ == with_dirs(old(fs)@, p@, j + 1));
        }
    }
}

/// When a copy succeeds: the source exists and the destination
/// directory chain can be created.
pub open spec fn copy_ok(
    m: Map<Seq<Seq<char>>, NodeData>,
    from: Seq<Seq<char>>,
    to_dir: Seq<Seq<char>>,
) -> bool {
    m.dom().contains(from) && can_make_dirs(m, to_dir)
}

/// The destination a copy or move into `to_dir` resolves to.
pub open spec fn copy_dst(
    m: Map<Seq<Seq<char>>, NodeData>,
    from: Seq<Seq<char>>,
    to_dir: Seq<Seq<char>>,
) -> Seq<Seq<char>> {
    resolve_spec(m, to_dir, from.last())
}

/// The state after a successful copy: the destination directory chain is
/// completed, then the whole subtree at `from` is duplicated at the
/// resolved destination.
pub open spec fn copy_effect(
    m: Map<Seq<Seq<char>>, NodeData>,
    from: Seq<Seq<char>>,
    to_dir: Seq<Seq<char>>,
) -> Map<Seq<Seq<char>>, NodeData> {
    let dst = copy_dst(m, from, to_dir);
    let m1 = with_all_dirs(m, to_dir);
    m1.union_prefer_right(copy_map(m1, from, dst))
}

/// Recursively copies `from` into `to_dir` under a collision-free name.
/// On success the whole state before the call is preserved, the resolved
/// destination carries a copy of the subtree at `from`, and the returned
/// record names that destination. On failure nothing changes.
pub fn copy(fs: &mut MemFs, from: &FsPath, to_dir: &FsPath) -> (r: Result<Op, IoError>)
    requires
        old(fs).wf(),
        from@.len() > 0,
    ensures
        final(fs).wf(),
        r is Ok <==> copy_ok(old(fs)@, from@, to_dir@),
        r matches Ok(op) ==> ({
            &&& (op matches Op::Copy { to } && to@ == copy_dst(old(fs)@, from@, to_dir@))
            &&& final(fs)@ == copy_effect(old(fs)@, from@, to_dir@)
            &&& forall|q: Seq<Seq<char>>|
                old(fs)@.dom().contains(q) ==> final(fs)@.dom().contains(q) && final(fs)@[q]
                    == old(fs)@[q]
            &&& final(fs)@.dom().contains(copy_dst(old(fs)@, from@, to_dir@))
            &&& final(fs)@[copy_dst(old(fs)@, from@, to_dir@)] == old(fs)@[from@]
        }),
        r matches Err(e) ==> final(fs)@ == old(fs)@ && ({
            ||| (e matches IoError::NotFound { path } && path@ == from@ && !old(
                fs,
            )@.dom().contains(from@))
            ||| (e matches IoError::NotADirectory { path } && path@ == to_dir@ && old(
                fs,
            )@.dom().contains(from@) && !can_make_dirs(old(fs)@, to_dir@))
        }),
{
    let ghost m0 = fs@;
    if fs.status(from) == PathStatus::Missing {
        return Err(IoError::NotFound { path: from.clone() });
    }
    if !dirs_ok(fs, to_dir) {
        return Err(IoError::NotADirectory { path: to_dir.clone() });
    }
    let name: String = match from.file_name() {
        Some(n) => n.clone(),
        None => {
            proof {
                assert(false);
            }
            String::new()
        },
    };
    let dst = unique_in(fs, to_dir, name.as_str());
    let ghost dv = dst@;
    proof {
        assert(dv == copy_dst(m0, from@, to_dir@));
    }
    ensure_dirs(fs, to_dir);
    let ghost m1 = fs@;
    proof {
        lemma_with_dirs_facts(m0, to_dir@, to_dir@.len() as int);
        lemma_with_dirs_wf(m0, to_dir@);
        // the resolved destination is still fresh after completing the chain
        assert(!m1.dom().contains(dv)) by {
            if m1.dom().contains(dv) {
                let j = choose|j: int| 1 <= j <= to_dir@.len() && dv == to_dir@.take(j);
                assert(dv.len() == to_dir@.len() + 1);
            }
        }
        lemma_empty_subtree(m1, dv);
        assert(m1.dom().contains(from@));
    }
    fs.copy_subtree(from, &dst);
    proof {
        // well-formedness of the result
        assert(dv.drop_last() =~= to_dir@);
        if to_dir@.len() > 0 {
            assert(m1.dom().contains(to_dir@)) by {
                if !m0.dom().contains(to_dir@) {
                    assert(to_dir@.take(to_dir@.len() as int) =~= to_dir@);
                }
            }
            assert(m1[to_dir@] is Dir) by {
                if m0.dom().contains(to_dir@) {
                    assert(to_dir@.take(to_dir@.len() as int) =~= to_dir@);
                    assert(m0[to_dir@] is Dir);
                }
            }
        }
        lemma_wf_copy_union(m1, from@, dv);
        assert(fs@ == copy_effect(m0, from@, to_dir@));
        assert(fs@[dv] == m1[from@]) by {
            assert(copy_map(m1, from@, dv).dom().contains(dv)) by {
                assert(dv.skip(dv.len() as int - 1 + 1) =~= Seq::<Seq<char>>::empty());
                assert(dv.is_prefix_of(dv)) by {
                    assert(dv =~= dv.subrange(0, dv.len() as int));
                }
                assert(from@ + dv.skip(dv.len() as int) =~= from@);
            }
            assert(copy_map(m1, from@, dv)[dv] == m1[from@ + dv.skip(dv.len() as int)]);
            assert(from@ + dv.skip(dv.len() as int) =~= from@);
        }
        assert(m1[from@] == m0[from@]);
    }
    Ok(Op::Copy { to: dst })
}

/// When a move succeeds: the source exists, the destination chain can be
/// created, and the source is not moved into its own subtree.
pub open spec fn move_ok(
    m: Map<Seq<Seq<char>>, NodeData>,
    from: Seq<Seq<char>>,
    to_dir: Seq<Seq<char>>,
) -> bool {
    m.dom().contains(from) && can_make_dirs(m, to_dir) && !from.is_prefix_of(to_dir)
}

/// The state after a successful move: as after the copy, with the source
/// subtree removed.
pub open spec fn move_effect(
    m: Map<Seq<Seq<char>>, NodeData>,
    from: Seq<Seq<char>>,
    to_dir: Seq<Seq<char>>,
) -> Map<Seq<Seq<char>>, NodeData> {
    copy_effect(m, from, to_dir).remove_keys(subtree_set(from))
}

/// Moves `from` into `to_dir` under a collision-free name. Whether the
/// underlying rename is atomic or falls back to copy-then-remove, the
/// result is the same: afterwards the source is gone and the resolved
/// destination holds its subtree, with everything else untouched. On
/// failure nothing changes.
#[verifier::rlimit(50)]
#[verifier::spinoff_prover]
pub fn mv(fs: &mut MemFs, from: &FsPath, to_dir: &FsPath) -> (r: Result<Op, IoError>)
    requires
        old(fs).wf(),
        from@.len() > 0,
    ensures
        final(fs).wf(),
        r is Ok <==> move_ok(old(fs)@, from@, to_dir@),
        r matches Ok(op) ==> ({
            &&& (op matches Op::Move { from: f, to } && f@ == from@ && to@ == copy_dst(
                old(fs)@,
                from@,
                to_dir@,
            ))
            &&& final(fs)@ == move_effect(old(fs)@, from@, to_dir@)
            &&& !final(fs)@.dom().contains(from@)
            &&& final(fs)@.dom().contains(copy_dst(old(fs)@, from@, to_dir@))
            &&& final(fs)@[copy_dst(old(fs)@, from@, to_dir@)] == old(fs)@[from@]
            &&& forall|q: Seq<Seq<char>>|
                old(fs)@.dom().contains(q) && !from@.is_prefix_of(q) ==> final(fs)@.dom().contains(q) && final(fs)@[q] == old(fs)@[q]
        }),
        r matches Err(e) ==> final(fs)@ == old(fs)@ && ({
            ||| (e matches IoError::NotFound { path } && path@ == from@ && !old(
                fs,
            )@.dom().contains(from@))
            ||| (e matches IoError::NotADirectory { path } && path@ == to_dir@ && old(
                fs,
            )@.dom().contains(from@) && !can_make_dirs(old(fs)@, to_dir@))
            ||| (e matches IoError::InvalidTarget { path } && path@ == to_dir@ && old(
                fs,
            )@.dom().contains(from@) && can_make_dirs(old(fs)@, to_dir@) && from@.is_prefix_of(
                to_dir@,
            ))
        }),
{
    let ghost m0 = fs@;
    if fs.status(from) == PathStatus::Missing {
        return Err(IoError::NotFound { path: from.clone() });
    }
    if !dirs_ok(fs, to_dir) {
        return Err(IoError::NotADirectory { path: to_dir.clone() });
    }
    if from.is_ancestor_of(to_dir) {
        return Err(IoError::InvalidTarget { path: to_dir.clone() });
    }
    let name: String = match from.file_name() {
        Some(n) => n.clone(),
        None => {
            proof {
                assert(false);
            }
            String::new()
        },
    };
    let dst = unique_in(fs, to_dir, name.as_str());
    let ghost dv = dst@;
    ensure_dirs(fs, to_dir);
    let ghost m1 = fs@;
    proof {
        lemma_with_dirs_facts(m0, to_dir@, to_dir@.len() as int);
        lemma_with_dirs_wf(m0, to_dir@);
        assert(!m1.dom().contains(dv)) by {
            if m1.dom().contains(dv) {
                let j = choose|j: int| 1 <= j <= to_dir@.len() && dv == to_dir@.take(j);
                assert(dv.len() == to_dir@.len() + 1);
            }
        }
        lemma_empty_subtree(m1, dv);
        assert(m1.dom().contains(from@));
        // the source is not an ancestor of the fresh destination
        assert(!from@.is_prefix_of(dv)) by {
            if from@.is_prefix_of(dv) {
                if from@.len() <= to_dir@.len() {
                    assert(from@ =~= to_dir@.subrange(0, from@.len() as int)) by {
                        assert(forall|x: int|
                            0 <= x < from@.len() ==> dv[x] == to_dir@[x]);
                    }
                    assert(from@.is_prefix_of(to_dir@));
                } else {
                    assert(from@.len() == dv.len());
                    assert(from@ =~= dv);
                }
            }
        }
    }
    fs.move_subtree(from, &dst);
    proof {
        assert(dv.drop_last() =~= to_dir@);
        if to_dir@.len() > 0 {
            assert(m1.dom().contains(to_dir@) && m1[to_dir@] is Dir) by {
                assert(to_dir@.take(to_dir@.len() as int) =~= to_dir@);
                if m0.dom().contains(to_dir@) {
                    assert(m0[to_dir@] is Dir);
                }
            }
        }
        lemma_wf_copy_union(m1, from@, dv);
        lemma_wf_remove_subtree(m1.union_prefer_right(copy_map(m1, from@, dv)), from@);
        assert(fs@ == move_effect(m0, from@, to_dir@));
        // the moved subtree reached the destination
        assert(fs@.dom().contains(dv) && fs@[dv] == m0[from@]) by {
            assert(copy_map(m1, from@, dv).dom().contains(dv) && copy_map(m1, from@, dv)[dv]
                == m1[from@]) by {
                assert(dv.is_prefix_of(dv)) by {
                    assert(dv =~= dv.subrange(0, dv.len() as int));
                }
                assert(from@ + dv.skip(dv.len() as int) =~= from@);
            }
            assert(!subtree_set(from@).contains(dv));
        }
        assert(!fs@.dom().contains(from@)) by {
            assert(from@.is_prefix_of(from@)) by {
                assert(from@ =~= from@.subrange(0, from@.len() as int));
            }
        }
        // everything outside the source subtree is preserved
        assert forall|q: Seq<Seq<char>>|
            m0.dom().contains(q) && !from@.is_prefix_of(q) implies fs@.dom().contains(q) && fs@[q]
            == m0[q] by {
            assert(m1.dom().contains(q) && m1[q] == m0[q]);
            assert(!subtree_set(from@).contains(q));
        }
    }
    Ok(Op::Move { from: from.clone(), to: dst })
}

/// When a rename succeeds: the source exists and the new name is free.
pub open spec fn rename_ok(
    m: Map<Seq<Seq<char>>, NodeData>,
    from: Seq<Seq<char>>,
    to: Seq<Seq<char>>,
) -> bool {
    m.dom().contains(from) && !m.dom().contains(to)
}

/// The new path of a rename: the source's parent joined with the new
/// name, with no collision renumbering.
pub open spec fn rename_to(from: Seq<Seq<char>>, new_name: Seq<char>) -> Seq<Seq<char>> {
    from.drop_last().push(new_name)
}

/// The state after a successful rename.
pub open spec fn rename_effect(
    m: Map<Seq<Seq<char>>, NodeData>,
    from: Seq<Seq<char>>,
    to: Seq<Seq<char>>,
) -> Map<Seq<Seq<char>>, NodeData> {
    m.union_prefer_right(copy_map(m, from, to)).remove_keys(subtree_set(from))
}

/// Renames `from` to its parent joined with `new_name`. A destination
/// that already exists is an error, never silently renumbered. On failure
/// nothing changes.
pub fn rename(fs: &mut MemFs, from: &FsPath, new_name: &str) -> (r: Result<Op, IoError>)
    requires
        old(fs).wf(),
        from@.len() > 0,
    ensures
        final(fs).wf(),
        r is Ok <==> rename_ok(old(fs)@, from@, rename_to(from@, new_name@)),
        r matches Ok(op) ==> ({
            &&& (op matches Op::Rename { from: f, to } && f@ == from@ && to@ == rename_to(
                from@,
                new_name@,
            ))
            &&& final(fs)@ == rename_effect(old(fs)@, from@, rename_to(from@, new_name@))
            &&& !final(fs)@.dom().contains(from@)
            &&& final(fs)@.dom().contains(rename_to(from@, new_name@))
            &&& final(fs)@[rename_to(from@, new_name@)] == old(fs)@[from@]
            &&& forall|q: Seq<Seq<char>>|
                old(fs)@.dom().contains(q) && !from@.is_prefix_of(q) ==> final(fs)@.dom().contains(q) && final(fs)@[q] == old(fs)@[q]
        }),
        r matches Err(e) ==> final(fs)@ == old(fs)@ && ({
            ||| (e matches IoError::NotFound { path } && path@ == from@ && !old(
                fs,
            )@.dom().contains(from@))
            ||| (e matches IoError::AlreadyExists { path } && path@ == rename_to(from@, new_name@)
                && old(fs)@.dom().contains(from@) && old(fs)@.dom().contains(rename_to(
                from@,
                new_name@,
            )))
        }),
{
    let ghost m0 = fs@;
    let parent = match from.parent() {
        Some(p) => p,
        None => {
            proof {
                assert(false);
            }
            FsPath::root()
        },
    };
    let to = parent.join(new_name);
    proof {
        assert(to@ == rename_to(from@, new_name@));
    }
    if fs.status(from) == PathStatus::Missing {
        return Err(IoError::NotFound { path: from.clone() });
    }
    if !(fs.status(&to) == PathStatus::Missing) {
        proof {
            assert(to@.len() > 0);
        }
        return Err(IoError::AlreadyExists { path: to });
    }
    proof {
        lemma_empty_subtree(m0, to@);
        assert(!from@.is_prefix_of(to@)) by {
            if from@.is_prefix_of(to@) {
                assert(from@.len() <= to@.len());
                assert(from@ =~= to@);
            }
        }
    }
    fs.move_subtree(from, &to);
    proof {
        let tv = rename_to(from@, new_name@);
        if from@.len() > 1 {
            assert(m0.dom().contains(from@.drop_last()) && m0[from@.drop_last()] is Dir);
        }
        assert(tv.drop_last() =~= from@.drop_last());
        lemma_wf_copy_union(m0, from@, tv);
        lemma_wf_remove_subtree(m0.union_prefer_right(copy_map(m0, from@, tv)), from@);
        assert(fs@ == rename_effect(m0, from@, tv));
        assert(fs@.dom().contains(tv) && fs@[tv] == m0[from@]) by {
            assert(copy_map(m0, from@, tv).dom().contains(tv) && copy_map(m0, from@, tv)[tv]
                == m0[from@]) by {
                assert(tv.is_prefix_of(tv)) by {
                    assert(tv =~= tv.subrange(0, tv.len() as int));
                }
                assert(from@ + tv.skip(tv.len() as int) =~= from@);
            }
            assert(!subtree_set(from@).contains(tv));
        }
        assert(!fs@.dom().contains(from@)) by {
            assert(from@.is_prefix_of(from@)) by {
                assert(from@ =~= from@.subrange(0, from@.len() as int));
            }
        }
        assert forall|q: Seq<Seq<char>>|
            m0.dom().contains(q) && !from@.is_prefix_of(q) implies fs@.dom().contains(q) && fs@[q]
            == m0[q] by {
            assert(!subtree_set(from@).contains(q));
        }
    }
    Ok(Op::Rename { from: from.clone(), to: to })
}

/// Creates the directory `where_/name`, with any missing intermediate
/// directories. Creating over an existing directory succeeds and changes
/// nothing. On failure nothing changes.
pub fn mkdir(fs: &mut MemFs, where_: &FsPath, name: &str) -> (r: Result<Op, IoError>)
    requires
        old(fs).wf(),
    ensures
        final(fs).wf(),
        r is Ok <==> can_make_dirs(old(fs)@, where_@.push(name@)),
        r matches Ok(op) ==> ({
            &&& (op matches Op::MkDir { path } && path@ == where_@.push(name@))
            &&& final(fs)@ == with_all_dirs(old(fs)@, where_@.push(name@))
            &&& final(fs)@.dom().contains(where_@.push(name@))
            &&& final(fs)@[where_@.push(name@)] is Dir
            &&& forall|q: Seq<Seq<char>>|
                old(fs)@.dom().contains(q) ==> final(fs)@.dom().contains(q) && final(fs)@[q]
                    == old(fs)@[q]
        }),
        r matches Err(e) ==> final(fs)@ == old(fs)@ && (e matches IoError::NotADirectory { path }
            && path@ == where_@.push(name@) && !can_make_dirs(old(fs)@, where_@.push(name@))),
{
    let ghost m0 = fs@;
    let target = where_.join(name);
    if !dirs_ok(fs, &target) {
        return Err(IoError::NotADirectory { path: target });
    }
    ensure_dirs(fs, &target);
    proof {
        let tv = where_@.push(name@);
        lemma_with_dirs_facts(m0, tv, tv.len() as int);
        lemma_with_dirs_wf(m0, tv);
        assert(fs@.dom().contains(tv) && fs@[tv] is Dir) by {
            assert(tv.take(tv.len() as int) =~= tv);
            if m0.dom().contains(tv) {
                assert(m0[tv] is Dir);
            }
        }
    }
    Ok(Op::MkDir { path: target })
}

/// When a touch succeeds: the parent chain can be created and the target
/// is not an existing directory.
pub open spec fn touch_ok(
    m: Map<Seq<Seq<char>>, NodeData>,
    where_: Seq<Seq<char>>,
    name: Seq<char>,
) -> bool {
    can_make_dirs(m, where_) && !(m.dom().contains(where_.push(name)) && m[where_.push(
        name,
    )] is Dir)
}

/// The state after a successful touch: the parent chain is completed and
/// the file exists; bytes of an already existing file are kept.
pub open spec fn touch_effect(
    m: Map<Seq<Seq<char>>, NodeData>,
    where_: Seq<Seq<char>>,
    name: Seq<char>,
) -> Map<Seq<Seq<char>>, NodeData> {
    let m1 = with_all_dirs(m, where_);
    if m.dom().contains(where_.push(name)) {
        m1
    } else {
        m1.insert(where_.push(name), NodeData::File(Seq::empty()))
    }
}

/// Creates (or opens, keeping its content) the file `where_/name`,
/// creating missing parent directories first. On failure nothing changes.
pub fn touch(fs: &mut MemFs, where_: &FsPath, name: &str) -> (r: Result<Op, IoError>)
    requires
        old(fs).wf(),
    ensures
        final(fs).wf(),
        r is Ok <==> touch_ok(old(fs)@, where_@, name@),
        r matches Ok(op) ==> ({
            &&& (op matches Op::Touch { path } && path@ == where_@.push(name@))
            &&& final(fs)@ == touch_effect(old(fs)@, where_@, name@)
            &&& final(fs)@.dom().contains(where_@.push(name@))
            &&& final(fs)@[where_@.push(name@)] == (if old(fs)@.dom().contains(where_@.push(
                name@,
            )) {
                old(fs)@[where_@.push(name@)]
            } else {
                NodeData::File(Seq::<u8>::empty())
            })
            &&& forall|q: Seq<Seq<char>>|
                old(fs)@.dom().contains(q) ==> final(fs)@.dom().contains(q) && final(fs)@[q]
                    == old(fs)@[q]
        }),
        r matches Err(e) ==> final(fs)@ == old(fs)@ && ({
            ||| (e matches IoError::NotADirectory { path } && path@ == where_@ && !can_make_dirs(
                old(fs)@,
                where_@,
            ))
            ||| (e matches IoError::IsADirectory { path } && path@ == where_@.push(name@)
                && can_make_dirs(old(fs)@, where_@) && old(fs)@.dom().contains(where_@.push(name@))
                && old(fs)@[where_@.push(name@)] is Dir)
        }),
{
    let ghost m0 = fs@;
    let target = where_.join(name);
    let ghost tv = target@;
    if !dirs_ok(fs, where_) {
        return Err(IoError::NotADirectory { path: where_.clone() });
    }
    let st = fs.status(&target);
    if st == PathStatus::IsDir {
        proof {
            assert(tv.len() > 0);
        }
        return Err(IoError::IsADirectory { path: target });
    }
    ensure_dirs(fs, where_);
    let ghost m1 = fs@;
    proof {
        lemma_with_dirs_facts(m0, where_@, where_@.len() as int);
        lemma_with_dirs_wf(m0, where_@);
        assert(m1.dom().contains(tv) == m0.dom().contains(tv)) by {
            if m1.dom().contains(tv) && !m0.dom().contains(tv) {
                let j = choose|j: int| 1 <= j <= where_@.len() && tv == where_@.take(j);
                assert(tv.len() == where_@.len() + 1);
            }
        }
    }
    if st == PathStatus::Missing {
        proof {
            if where_@.len() > 0 {
                assert(m1.dom().contains(where_@) && m1[where_@] is Dir) by {
                    assert(where_@.take(where_@.len() as int) =~= where_@);
                    if m0.dom().contains(where_@) {
                        assert(m0[where_@] is Dir);
                    }
                }
            }
            assert(tv.drop_last() =~= where_@);
            lemma_wf_insert_leaf(m1, tv, NodeData::File(Seq::empty()));
        }
        fs.raw_insert(target, Node::File(Vec::new()));
        proof {
            assert(fs@ == touch_effect(m0, where_@, name@));
        }
        return Ok(Op::Touch { path: where_.join(name) });
    }
    proof {
        assert(m0.dom().contains(tv) && !(m0[tv] is Dir));
        assert(m1[tv] == m0[tv]);
        assert(fs@ == touch_effect(m0, where_@, name@));
    }
    Ok(Op::Touch { path: target })
}

/// When a soft delete succeeds: the trash chain can be created, the
/// target exists, and the trash does not sit inside the target.
pub open spec fn delete_ok(
    m: Map<Seq<Seq<char>>, NodeData>,
    p: Seq<Seq<char>>,
    trash: Seq<Seq<char>>,
) -> bool {
    can_make_dirs(m, trash) && m.dom().contains(p) && !p.is_prefix_of(trash)
}

/// The destination a soft delete resolves to, inside the completed trash
/// directory.
pub open spec fn delete_dst(
    m: Map<Seq<Seq<char>>, NodeData>,
    p: Seq<Seq<char>>,
    trash: Seq<Seq<char>>,
) -> Seq<Seq<char>> {
    resolve_spec(with_all_dirs(m, trash), trash, p.last())
}

/// The state after a successful soft delete: the trash chain exists and
/// the subtree at `p` has moved to the resolved spot in the trash.
pub open spec fn delete_effect(
    m: Map<Seq<Seq<char>>, NodeData>,
    p: Seq<Seq<char>>,
    trash: Seq<Seq<char>>,
) -> Map<Seq<Seq<char>>, NodeData> {
    let m1 = with_all_dirs(m, trash);
    let dst = delete_dst(m, p, trash);
    m1.union_prefer_right(copy_map(m1, p, dst)).remove_keys(subtree_set(p))
}

/// Soft-deletes `p`: moves it, under a collision-free name, into the
/// caller-supplied trash directory, creating that directory if missing.
/// The bytes are never destroyed. On failure nothing changes.
#[verifier::rlimit(50)]
#[verifier::spinoff_prover]
pub fn delete_to_trash(fs: &mut MemFs, p: &FsPath, trash: &FsPath) -> (r: Result<Op, IoError>)
    requires
        old(fs).wf(),
        p@.len() > 0,
    ensures
        final(fs).wf(),
        r is Ok <==> delete_ok(old(fs)@, p@, trash@),
        r matches Ok(op) ==> ({
            &&& (op matches Op::Delete { trashed, original } && trashed@ == delete_dst(
                old(fs)@,
                p@,
                trash@,
            ) && original@ == p@)
            &&& final(fs)@ == delete_effect(old(fs)@, p@, trash@)
            &&& !final(fs)@.dom().contains(p@)
            &&& final(fs)@.dom().contains(delete_dst(old(fs)@, p@, trash@))
            &&& final(fs)@[delete_dst(old(fs)@, p@, trash@)] == old(fs)@[p@]
            &&& forall|q: Seq<Seq<char>>|
                old(fs)@.dom().contains(q) && !p@.is_prefix_of(q) ==> final(fs)@.dom().contains(q)
                    && final(fs)@[q] == old(fs)@[q]
        }),
        r matches Err(e) ==> final(fs)@ == old(fs)@ && ({
            ||| (e matches IoError::NotADirectory { path } && path@ == trash@ && !can_make_dirs(
                old(fs)@,
                trash@,
            ))
            ||| (e matches IoError::NotFound { path } && path@ == p@ && can_make_dirs(
                old(fs)@,
                trash@,
            ) && !old(fs)@.dom().contains(p@))
            ||| (e matches IoError::InvalidTarget { path } && path@ == trash@ && can_make_dirs(
                old(fs)@,
                trash@,
            ) && old(fs)@.dom().contains(p@) && p@.is_prefix_of(trash@))
        }),
{
    let ghost m0 = fs@;
    if !dirs_ok(fs, trash) {
        return Err(IoError::NotADirectory { path: trash.clone() });
    }
    if fs.status(p) == PathStatus::Missing {
        return Err(IoError::NotFound { path: p.clone() });
    }
    if p.is_ancestor_of(trash) {
        return Err(IoError::InvalidTarget { path: trash.clone() });
    }
    let name: String = match p.file_name() {
        Some(n) => n.clone(),
        None => {
            proof {
                assert(false);
            }
            String::new()
        },
    };
    ensure_dirs(fs, trash);
    let ghost m1 = fs@;
    proof {
        lemma_with_dirs_facts(m0, trash@, trash@.len() as int);
        lemma_with_dirs_wf(m0, trash@);
        assert(m1.dom().contains(p@));
    }
    let dst = unique_in(fs, trash, name.as_str());
    let ghost dv = dst@;
    proof {
        assert(dv == delete_dst(m0, p@, trash@));
        lemma_empty_subtree(m1, dv);
        assert(!p@.is_prefix_of(dv)) by {
            if p@.is_prefix_of(dv) {
                if p@.len() <= trash@.len() {
                    assert(p@ =~= trash@.subrange(0, p@.len() as int)) by {
                        assert(forall|x: int| 0 <= x < p@.len() ==> dv[x] == trash@[x]);
                    }
                    assert(p@.is_prefix_of(trash@));
                } else {
                    assert(p@.len() == dv.len());
                    assert(p@ =~= dv);
                }
            }
        }
    }
    fs.move_subtree(p, &dst);
    proof {
        assert(dv.drop_last() =~= trash@);
        if trash@.len() > 0 {
            assert(m1.dom().contains(trash@) && m1[trash@] is Dir) by {
                assert(trash@.take(trash@.len() as int) =~= trash@);
                if m0.dom().contains(trash@) {
                    assert(m0[trash@] is Dir);
                }
            }
        }
        lemma_wf_copy_union(m1, p@, dv);
        lemma_wf_remove_subtree(m1.union_prefer_right(copy_map(m1, p@, dv)), p@);
        assert(fs@ == delete_effect(m0, p@, trash@));
        assert(fs@.dom().contains(dv) && fs@[dv] == m0[p@]) by {
            assert(copy_map(m1, p@, dv).dom().contains(dv) && copy_map(m1, p@, dv)[dv] == m1[p@])
                by {
                assert(dv.is_prefix_of(dv)) by {
                    assert(dv =~= dv.subrange(0, dv.len() as int));
                }
                assert(p@ + dv.skip(dv.len() as int) =~= p@);
            }
            assert(!subtree_set(p@).contains(dv));
        }
        assert(!fs@.dom().contains(p@)) by {
            assert(p@.is_prefix_of(p@)) by {
                assert(p@ =~= p@.subrange(0, p@.len() as int));
            }
        }
        assert forall|q: Seq<Seq<char>>|
            m0.dom().contains(q) && !p@.is_prefix_of(q) implies fs@.dom().contains(q) && fs@[q]
            == m0[q] by {
            assert(m1.dom().contains(q) && m1[q] == m0[q]);
            assert(!subtree_set(p@).contains(q));
        }
    }
    Ok(Op::Delete { trashed: dst, original: p.clone() })
}

/// The paths an engine-produced record carries are never the root.
pub open spec fn op_paths_ok(op: Op) -> bool {
    match op {
        Op::Rename { from, to } => from@.len() > 0 && to@.len() > 0,
        Op::Move { from, to } => from@.len() > 0 && to@.len() > 0,
        Op::Copy { to } => to@.len() > 0,
        Op::Delete { trashed, original } => trashed@.len() > 0 && original@.len() > 0,
        Op::MkDir { path } => path@.len() > 0,
        Op::Touch { path } => path@.len() > 0,
    }
}

/// When moving `src` back to the free spot `dstp` succeeds.
pub open spec fn unmove_ok(
    m: Map<Seq<Seq<char>>, NodeData>,
    src: Seq<Seq<char>>,
    dstp: Seq<Seq<char>>,
) -> bool {
    &&& m.dom().contains(src)
    &&& !m.dom().contains(dstp)
    &&& !src.is_prefix_of(dstp)
    &&& can_make_dirs(m, dstp.drop_last())
}

/// The state after moving `src` back to `dstp`: the destination's parent
/// chain is completed and the subtree moves.
pub open spec fn unmove_effect(
    m: Map<Seq<Seq<char>>, NodeData>,
    src: Seq<Seq<char>>,
    dstp: Seq<Seq<char>>,
) -> Map<Seq<Seq<char>>, NodeData> {
    let m1 = with_all_dirs(m, dstp.drop_last());
    m1.union_prefer_right(copy_map(m1, src, dstp)).remove_keys(subtree_set(src))
}

/// The inverse move that undoing a move, rename or soft delete performs:
/// `src` (the record's destination) goes back to `dstp` (the record's
/// origin). On failure nothing changes.
#[verifier::rlimit(50)]
#[verifier::spinoff_prover]
fn move_back(fs: &mut MemFs, src: &FsPath, dstp: &FsPath) -> (r: Result<(), IoError>)
    requires
        old(fs).wf(),
        src@.len() > 0,
        dstp@.len() > 0,
    ensures
        final(fs).wf(),
        r is Ok <==> unmove_ok(old(fs)@, src@, dstp@),
        r is Ok ==> ({
            &&& final(fs)@ == unmove_effect(old(fs)@, src@, dstp@)
            &&& !final(fs)@.dom().contains(src@)
            &&& final(fs)@.dom().contains(dstp@)
            &&& final(fs)@[dstp@] == old(fs)@[src@]
            &&& forall|q: Seq<Seq<char>>|
                old(fs)@.dom().contains(q) && !src@.is_prefix_of(q) ==> final(fs)@.dom().contains(
                    q,
                ) && final(fs)@[q] == old(fs)@[q]
        }),
        r matches Err(e) ==> final(fs)@ == old(fs)@ && ({
            ||| (e matches IoError::NotFound { path } && path@ == src@ && !old(
                fs,
            )@.dom().contains(src@))
            ||| (e matches IoError::AlreadyExists { path } && path@ == dstp@ && old(
                fs,
            )@.dom().contains(src@) && old(fs)@.dom().contains(dstp@))
            ||| (e matches IoError::InvalidTarget { path } && path@ == dstp@ && old(
                fs,
            )@.dom().contains(src@) && !old(fs)@.dom().contains(dstp@) && src@.is_prefix_of(dstp@))
            ||| (e matches IoError::NotADirectory { path } && path@ == dstp@.drop_last() && old(
                fs,
            )@.dom().contains(src@) && !old(fs)@.dom().contains(dstp@) && !src@.is_prefix_of(dstp@)
                && !can_make_dirs(old(fs)@, dstp@.drop_last()))
        }),
{
    let ghost m0 = fs@;
    if fs.status(src) == PathStatus::Missing {
        return Err(IoError::NotFound { path: src.clone() });
    }
    if !(fs.status(dstp) == PathStatus::Missing) {
        return Err(IoError::AlreadyExists { path: dstp.clone() });
    }
    if src.is_ancestor_of(dstp) {
        return Err(IoError::InvalidTarget { path: dstp.clone() });
    }
    let parent = match dstp.parent() {
        Some(q) => q,
        None => {
            proof {
                assert(false);
            }
            FsPath::root()
        },
    };
    if !dirs_ok(fs, &parent) {
        return Err(IoError::NotADirectory { path: parent });
    }
    ensure_dirs(fs, &parent);
    let ghost m1 = fs@;
    proof {
        lemma_with_dirs_facts(m0, parent@, parent@.len() as int);
        lemma_with_dirs_wf(m0, parent@);
        assert(m1.dom().contains(src@));
        assert(!m1.dom().contains(dstp@)) by {
            if m1.dom().contains(dstp@) {
                let j = choose|j: int| 1 <= j <= parent@.len() && dstp@ == parent@.take(j);
                assert(parent@.take(j).len() <= parent@.len());
                assert(dstp@.len() == parent@.len() + 1);
            }
        }
        lemma_empty_subtree(m1, dstp@);
    }
    fs.move_subtree(src, dstp);
    proof {
        assert(dstp@.drop_last() =~= parent@);
        if parent@.len() > 0 {
            assert(m1.dom().contains(parent@) && m1[parent@] is Dir) by {
                assert(parent@.take(parent@.len() as int) =~= parent@);
                if m0.dom().contains(parent@) {
                    assert(m0[parent@] is Dir);
                }
            }
        }
        lemma_wf_copy_union(m1, src@, dstp@);
        lemma_wf_remove_subtree(m1.union_prefer_right(copy_map(m1, src@, dstp@)), src@);
        assert(fs@ == unmove_effect(m0, src@, dstp@));
        assert(fs@.dom().contains(dstp@) && fs@[dstp@] == m0[src@]) by {
            assert(copy_map(m1, src@, dstp@).dom().contains(dstp@) && copy_map(m1, src@, dstp@)[
                dstp@
            ] == m1[src@]) by {
                assert(dstp@.is_prefix_of(dstp@)) by {
                    assert(dstp@ =~= dstp@.subrange(0, dstp@.len() as int));
                }
                assert(src@ + dstp@.skip(dstp@.len() as int) =~= src@);
            }
            assert(!subtree_set(src@).contains(dstp@));
        }
        assert(!fs@.dom().contains(src@)) by {
            assert(src@.is_prefix_of(src@)) by {
                assert(src@ =~= src@.subrange(0, src@.len() as int));
            }
        }
        assert forall|q: Seq<Seq<char>>|
            m0.dom().contains(q) && !src@.is_prefix_of(q) implies fs@.dom().contains(q) && fs@[q]
            == m0[q] by {
            assert(m1.dom().contains(q) && m1[q] == m0[q]);
            assert(!subtree_set(src@).contains(q));
        }
    }
    Ok(())
}

/// When undoing a record succeeds.
pub open spec fn undo_ok(m: Map<Seq<Seq<char>>, NodeData>, op: Op) -> bool {
    match op {
        Op::Copy { to } => m.dom().contains(to@),
        Op::Move { from, to } => unmove_ok(m, to@, from@),
        Op::Rename { from, to } => unmove_ok(m, to@, from@),
        Op::Delete { trashed, original } => unmove_ok(m, trashed@, original@),
        Op::MkDir { path } => m.dom().contains(path@),
        Op::Touch { path } => m.dom().contains(path@),
    }
}

/// The state after a successful undo: the structural inverse of the
/// record.
pub open spec fn undo_effect(m: Map<Seq<Seq<char>>, NodeData>, op: Op) -> Map<
    Seq<Seq<char>>,
    NodeData,
> {
    match op {
        Op::Copy { to } => m.remove_keys(subtree_set(to@)),
        Op::Move { from, to } => unmove_effect(m, to@, from@),
        Op::Rename { from, to } => unmove_effect(m, to@, from@),
        Op::Delete { trashed, original } => unmove_effect(m, trashed@, original@),
        Op::MkDir { path } => m.remove_keys(subtree_set(path@)),
        Op::Touch { path } => m.remove_keys(subtree_set(path@)),
    }
}

/// Applies the structural inverse of `op`: a copy, mkdir or touch is
/// removed; a move, rename or soft delete is moved back where it came
/// from. One-shot: a failed undo leaves whatever the inverse reached and
/// surfaces the error. On failure nothing in the model changes.
pub fn undo(fs: &mut MemFs, op: &Op) -> (r: Result<(), IoError>)
    requires
        old(fs).wf(),
        op_paths_ok(*op),
    ensures
        final(fs).wf(),
        r is Ok <==> undo_ok(old(fs)@, *op),
        r is Ok ==> final(fs)@ == undo_effect(old(fs)@, *op),
        r is Err ==> final(fs)@ == old(fs)@,
        r matches Err(e) ==> match *op {
            Op::Copy { to } => e matches IoError::NotFound { path } && path@ == to@ && !old(
                fs,
            )@.dom().contains(to@),
            Op::MkDir { path: t } => e matches IoError::NotFound { path } && path@ == t@ && !old(
                fs,
            )@.dom().contains(t@),
            Op::Touch { path: t } => e matches IoError::NotFound { path } && path@ == t@ && !old(
                fs,
            )@.dom().contains(t@),
            _ => true,
        },
{
    match op {
        Op::Copy { to } => {
            if fs.status(to) == PathStatus::Missing {
                return Err(IoError::NotFound { path: to.clone() });
            }
            fs.remove_subtree(to);
            proof {
                lemma_wf_remove_subtree(old(fs)@, to@);
            }
            Ok(())
        },
        Op::Move { from, to } => move_back(fs, to, from),
        Op::Rename { from, to } => move_back(fs, to, from),
        Op::Delete { trashed, original } => move_back(fs, trashed, original),
        Op::MkDir { path } => {
            if fs.status(path) == PathStatus::Missing {
                return Err(IoError::NotFound { path: path.clone() });
            }
            fs.remove_subtree(path);
            proof {
                lemma_wf_remove_subtree(old(fs)@, path@);
            }
            Ok(())
        },
        Op::Touch { path } => {
            if fs.status(path) == PathStatus::Missing {
                return Err(IoError::NotFound { path: path.clone() });
            }
            fs.remove_subtree(path);
            proof {
                lemma_wf_remove_subtree(old(fs)@, path@);
            }
            Ok(())
        },
    }
}

/// The mathematical value of a record: the same shape over path values.
pub enum OpView {
    Rename { from: Seq<Seq<char>>, to: Seq<Seq<char>> },
    Move { from: Seq<Seq<char>>, to: Seq<Seq<char>> },
    Copy { to: Seq<Seq<char>> },
    Delete { trashed: Seq<Seq<char>>, original: Seq<Seq<char>> },
    MkDir { path: Seq<Seq<char>> },
    Touch { path: Seq<Seq<char>> },
}

/// The value of a record.
pub open spec fn op_view(op: Op) -> OpView {
    match op {
        Op::Rename { from, to } => OpView::Rename { from: from@, to: to@ },
        Op::Move { from, to } => OpView::Move { from: from@, to: to@ },
        Op::Copy { to } => OpView::Copy { to: to@ },
        Op::Delete { trashed, original } => OpView::Delete {
            trashed: trashed@,
            original: original@,
        },
        Op::MkDir { path } => OpView::MkDir { path: path@ },
        Op::Touch { path } => OpView::Touch { path: path@ },
    }
}

/// What pasting one clipboard item does to the state: a copy or a move
/// into the target, or nothing when that item fails.
pub open spec fn paste_one_map(
    m: Map<Seq<Seq<char>>, NodeData>,
    item: Seq<Seq<char>>,
    target: Seq<Seq<char>>,
    is_copy: bool,
) -> Map<Seq<Seq<char>>, NodeData> {
    if item.len() == 0 {
        m
    } else if is_copy {
        if copy_ok(m, item, target) {
            copy_effect(m, item, target)
        } else {
            m
        }
    } else {
        if move_ok(m, item, target) {
            move_effect(m, item, target)
        } else {
            m
        }
    }
}

/// The record one pasted item produces, if it succeeds.
pub open spec fn paste_one_rec(
    m: Map<Seq<Seq<char>>, NodeData>,
    item: Seq<Seq<char>>,
    target: Seq<Seq<char>>,
    is_copy: bool,
) -> Option<OpView> {
    if item.len() == 0 {
        None
    } else if is_copy {
        if copy_ok(m, item, target) {
            Some(OpView::Copy { to: copy_dst(m, item, target) })
        } else {
            None
        }
    } else {
        if move_ok(m, item, target) {
            Some(OpView::Move { from: item, to: copy_dst(m, item, target) })
        } else {
            None
        }
    }
}

/// The state after pasting the items in order.
pub open spec fn paste_fold(
    m: Map<Seq<Seq<char>>, NodeData>,
    items: Seq<Seq<Seq<char>>>,
    target: Seq<Seq<char>>,
    is_copy: bool,
) -> Map<Seq<Seq<char>>, NodeData>
    decreases items.len(),
{
    if items.len() == 0 {
        m
    } else {
        paste_fold(
            paste_one_map(m, items.first(), target, is_copy),
            items.drop_first(),
            target,
            is_copy,
        )
    }
}

/// The records the paste produces, in order.
pub open spec fn paste_recs(
    m: Map<Seq<Seq<char>>, NodeData>,
    items: Seq<Seq<Seq<char>>>,
    target: Seq<Seq<char>>,
    is_copy: bool,
) -> Seq<OpView>
    decreases items.len(),
{
    if items.len() == 0 {
        Seq::empty()
    } else {
        let rest = paste_recs(
            paste_one_map(m, items.first(), target, is_copy),
            items.drop_first(),
            target,
            is_copy,
        );
        match paste_one_rec(m, items.first(), target, is_copy) {
            Some(v) => seq![v] + rest,
            None => rest,
        }
    }
}

/// Pushing into a bounded log: at capacity the oldest leaves.
pub open spec fn push_evict(h: Seq<OpView>, v: OpView, cap: nat) -> Seq<OpView> {
    if h.len() < cap {
        h.push(v)
    } else {
        h.drop_first().push(v)
    }
}

/// Pushing several records in order.
pub open spec fn push_all(h: Seq<OpView>, vs: Seq<OpView>, cap: nat) -> Seq<OpView>
    decreases vs.len(),
{
    if vs.len() == 0 {
        h
    } else {
        push_all(push_evict(h, vs.first(), cap), vs.drop_first(), cap)
    }
}

/// Pasting extends from the right, one item at a time.
pub proof fn lemma_paste_fold_snoc(
    m: Map<Seq<Seq<char>>, NodeData>,
    items: Seq<Seq<Seq<char>>>,
    x: Seq<Seq<char>>,
    target: Seq<Seq<char>>,
    is_copy: bool,
)
    ensures
        paste_fold(m, items.push(x), target, is_copy) == paste_one_map(
            paste_fold(m, items, target, is_copy),
            x,
            target,
            is_copy,
        ),
        paste_recs(m, items.push(x), target, is_copy) == (match paste_one_rec(
            paste_fold(m, items, target, is_copy),
            x,
            target,
            is_copy,
        ) {
            Some(v) => paste_recs(m, items, target, is_copy).push(v),
            None => paste_recs(m, items, target, is_copy),
        }),
    decreases items.len(),
{
    reveal_with_fuel(paste_fold, 3);
    reveal_with_fuel(paste_recs, 3);
    if items.len() == 0 {
        assert(items.push(x).drop_first() =~= Seq::<Seq<Seq<char>>>::empty());
        assert(items.push(x).first() == x);
        match paste_one_rec(m, x, target, is_copy) {
            Some(v) => {
                assert(paste_recs(m, items.push(x), target, is_copy) =~= paste_recs(
                    m,
                    items,
                    target,
                    is_copy,
                ).push(v));
            },
            None => {},
        }
    } else {
        assert(items.push(x).drop_first() =~= items.drop_first().push(x));
        assert(items.push(x).first() == items.first());
        let m1 = paste_one_map(m, items.first(), target, is_copy);
        lemma_paste_fold_snoc(m1, items.drop_first(), x, target, is_copy);
        match paste_one_rec(m, items.first(), target, is_copy) {
            Some(v) => {
                match paste_one_rec(paste_fold(m, items, target, is_copy), x, target, is_copy) {
                    Some(w) => {
                        assert(seq![v] + paste_recs(m1, items.drop_first(), target, is_copy).push(
                            w,
                        ) =~= (seq![v] + paste_recs(m1, items.drop_first(), target, is_copy)).push(
                            w,
                        ));
                    },
                    None => {},
                }
            },
            None => {},
        }
    }
}

/// Logging extends from the right, one record at a time.
pub proof fn lemma_push_all_snoc(h: Seq<OpView>, vs: Seq<OpView>, v: OpView, cap: nat)
    ensures
        push_all(h, vs.push(v), cap) == push_evict(push_all(h, vs, cap), v, cap),
    decreases vs.len(),
{
    reveal_with_fuel(push_all, 3);
    if vs.len() == 0 {
        assert(vs.push(v).drop_first() =~= Seq::<OpView>::empty());
        assert(vs.push(v).first() == v);
    } else {
        assert(vs.push(v).drop_first() =~= vs.drop_first().push(v));
        assert(vs.push(v).first() == vs.first());
        lemma_push_all_snoc(push_evict(h, vs.first(), cap), vs.drop_first(), v, cap);
    }
}

/// The records a log holds, as values.
pub open spec fn log_views(h: crate::history::OpsHistory) -> Seq<OpView> {
    h@.map_values(|op: Op| op_view(op))
}

/// Pastes the clipboard into `target_dir`: each held item is copied or
/// moved there under a collision-free name, in order; each success is
/// recorded in the undo log; each failure is returned. After any success
/// a cut clipboard clears itself; a copy clipboard persists.
pub fn paste_into(
    fs: &mut MemFs,
    cb: &mut crate::clipboard::Clipboard,
    hist: &mut crate::history::OpsHistory,
    target_dir: &FsPath,
) -> (errs: Vec<IoError>)
    requires
        old(fs).wf(),
        old(hist).wf(),
        old(hist).records_ok(),
        old(hist).cap() >= 1,
        old(cb).wf(),
    ensures
        final(fs).wf(),
        final(hist).wf(),
        final(hist).records_ok(),
        final(hist).cap() == old(hist).cap(),
        final(cb).wf(),
        !(old(cb).items@.len() > 0 && old(cb).mode is Some) ==> final(fs)@ == old(fs)@
            && final(hist)@ == old(hist)@ && *final(cb) == *old(cb),
        (old(cb).items@.len() > 0 && old(cb).mode is Some) ==> ({
            let is_copy = old(cb).mode == Some(crate::clipboard::Mode::Copy);
            let items = old(cb).items_view();
            let recs = paste_recs(old(fs)@, items, target_dir@, is_copy);
            &&& final(fs)@ == paste_fold(old(fs)@, items, target_dir@, is_copy)
            &&& log_views(*final(hist)) == push_all(
                log_views(*old(hist)),
                recs,
                old(hist).cap(),
            )
            &&& errs@.len() + recs.len() == items.len()
            &&& (!is_copy && recs.len() > 0) ==> (final(cb).items@.len() == 0
                && final(cb).mode is None)
            &&& (is_copy || recs.len() == 0) ==> *final(cb) == *old(cb)
        }),
{
    let mut errs: Vec<IoError> = Vec::new();
    if !cb.has_items() {
        return errs;
    }
    let is_copy = match cb.mode {
        Some(crate::clipboard::Mode::Copy) => true,
        _ => false,
    };
    let ghost m0 = fs@;
    let ghost items = cb.items_view();
    let ghost h0 = log_views(*hist);
    let ghost cap = hist.cap();
    let n: usize = cb.items.len();
    let mut any_ok: bool = false;
    proof {
        assert(items.take(0) =~= Seq::<Seq<Seq<char>>>::empty());
    }
    for i in 0..n
        invariant
            fs.wf(),
            hist.wf(),
            hist.records_ok(),
            hist.cap() == cap,
            cap >= 1,
            n == cb.items@.len(),
            *cb == *old(cb),
            cb.items@.len() > 0 && cb.mode is Some,
            items == cb.items_view(),
            h0 == log_views(*old(hist)),
            fs@ == paste_fold(m0, items.take(i as int), target_dir@, is_copy),
            log_views(*hist) == push_all(
                h0,
                paste_recs(m0, items.take(i as int), target_dir@, is_copy),
                cap,
            ),
            errs@.len() + paste_recs(m0, items.take(i as int), target_dir@, is_copy).len()
                == i,
            any_ok == (paste_recs(m0, items.take(i as int), target_dir@, is_copy).len() > 0),
    {
        let ghost mcur = fs@;
        let ghost taken = items.take(i as int);
        let ghost recs0 = paste_recs(m0, taken, target_dir@, is_copy);
        proof {
            assert(items.take(i + 1) =~= taken.push(items[i as int]));
            lemma_paste_fold_snoc(m0, taken, items[i as int], target_dir@, is_copy);
            assert(items[i as int] == cb.items@[i as int]@);
        }
        let item = cb.items[i].clone();
        if item.depth() == 0 {
            errs.push(IoError::NotFound { path: item });
            proof {
                assert(paste_one_rec(mcur, items[i as int], target_dir@, is_copy) is None);
                assert(paste_recs(m0, items.take(i + 1), target_dir@, is_copy) == recs0);
            }
        } else {
            let res = if is_copy {
                copy(fs, &item, target_dir)
            } else {
                mv(fs, &item, target_dir)
            };
            match res {
                Ok(op) => {
                    proof {
                        assert(op_paths_ok(op));
                        assert(paste_one_rec(mcur, items[i as int], target_dir@, is_copy)
                            == Some(op_view(op)));
                        assert(paste_recs(m0, items.take(i + 1), target_dir@, is_copy) == recs0
                            .push(op_view(op)));
                    }
                    let ghost hv0 = log_views(*hist);
                    let ghost opv = op_view(op);
                    hist.push(op);
                    proof {
                        assert(log_views(*hist) =~= push_evict(hv0, opv, cap));
                        lemma_push_all_snoc(
                            h0,
                            recs0,
                            opv,
                            cap,
                        );
                    }
                    any_ok = true;
                },
                Err(e) => {
                    errs.push(e);
                    proof {
                        assert(paste_one_rec(mcur, items[i as int], target_dir@, is_copy)
                            is None);
                        assert(paste_recs(m0, items.take(i + 1), target_dir@, is_copy)
                            == recs0);
                    }
                },
            }
        }
    }
    proof {
        assert(items.take(n as int) =~= items);
    }
    if any_ok && !is_copy {
        cb.clear();
    }
    errs
}

/// Undoes the most recent recorded operation, if any: pops it and
/// applies its inverse. One-shot: a failed undo does not put the record
/// back; the error is surfaced.
pub fn try_undo(fs: &mut MemFs, hist: &mut crate::history::OpsHistory) -> (r: Result<
    bool,
    IoError,
>)
    requires
        old(fs).wf(),
        old(hist).records_ok(),
    ensures
        final(fs).wf(),
        final(hist).records_ok(),
        final(hist).cap() == old(hist).cap(),
        old(hist)@.len() == 0 ==> r == Result::<bool, IoError>::Ok(false) && final(fs)@ == old(
            fs,
        )@ && final(hist)@ == old(hist)@,
        old(hist)@.len() > 0 ==> ({
            let op = old(hist)@.last();
            &&& final(hist)@ == old(hist)@.drop_last()
            &&& undo_ok(old(fs)@, op) ==> r == Result::<bool, IoError>::Ok(true) && final(fs)@
                == undo_effect(old(fs)@, op)
            &&& !undo_ok(old(fs)@, op) ==> r is Err && final(fs)@ == old(fs)@
        }),
{
    match hist.pop_undo() {
        Some(op) => {
            match undo(fs, &op) {
                Ok(()) => Ok(true),
                Err(e) => Err(e),
            }
        },
        None => Ok(false),
    }
}

/// Writes a file: the given bytes end up at `p`, replacing the bytes of
/// an existing file. The parent must be a present directory and `p` must
/// not be a directory. On failure nothing changes.
pub fn write_file(fs: &mut MemFs, p: &FsPath, bytes: Vec<u8>) -> (r: Result<(), IoError>)
    requires
        old(fs).wf(),
    ensures
        final(fs).wf(),
        r is Ok <==> (p@.len() > 0 && status_of(old(fs)@, p@.drop_last()) is IsDir && !(status_of(
            old(fs)@,
            p@,
        ) is IsDir)),
        r is Ok ==> final(fs)@ == old(fs)@.insert(p@, NodeData::File(bytes@)),
        r is Err ==> final(fs)@ == old(fs)@,
{
    let ghost m0 = fs@;
    if p.depth() == 0 {
        return Err(IoError::InvalidTarget { path: p.clone() });
    }
    let parent = match p.parent() {
        Some(q) => q,
        None => {
            proof {
                assert(false);
            }
            FsPath::root()
        },
    };
    if !(fs.status(&parent) == PathStatus::IsDir) {
        return Err(IoError::NotADirectory { path: parent });
    }
    let st = fs.status(p);
    if st == PathStatus::IsDir {
        return Err(IoError::IsADirectory { path: p.clone() });
    }
    if st == PathStatus::IsFile {
        fs.remove_subtree(p);
        proof {
            lemma_wf_remove_subtree(m0, p@);
            assert(!fs@.dom().contains(p@)) by {
                assert(p@.is_prefix_of(p@)) by {
                    assert(p@ =~= p@.subrange(0, p@.len() as int));
                }
            }
            if p@.len() > 1 {
                assert(fs@.dom().contains(p@.drop_last()) && fs@[p@.drop_last()] is Dir) by {
                    assert(!subtree_set(p@).contains(p@.drop_last())) by {
                        if p@.is_prefix_of(p@.drop_last()) {
                            assert(p@.len() <= p@.drop_last().len());
                        }
                    }
                }
            }
            // a file has no descendants, so only `p` itself was removed
            assert forall|v: Seq<Seq<char>>|
                subtree_set(p@).contains(v) && m0.dom().contains(v) implies v == p@ by {
                if v != p@ {
                    assert(p@.is_prefix_of(v));
                    if v.len() == p@.len() {
                        assert(v =~= p@);
                    }
                    lemma_ancestors_present(m0, v, p@.len() as int);
                    assert(v.take(p@.len() as int) =~= p@);
                    assert(m0[p@] is Dir);
                }
            }
        }
    }
    let ghost m1 = fs@;
    proof {
        assert(!m1.dom().contains(p@)) by {
            if !(st is IsFile) {
                assert(m1 == m0);
            }
        }
        lemma_wf_insert_leaf(m1, p@, NodeData::File(bytes@));
    }
    let ghost bv = bytes@;
    fs.raw_insert(p.clone(), Node::File(bytes));
    proof {
        if st is IsFile {
            assert(fs@ =~= m0.insert(p@, NodeData::File(bv)));
        }
    }
    Ok(())
}

} // verus!
