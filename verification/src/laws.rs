//! The library's laws, proved over the map transitions the engine is
//! specified by: the naming resolver never collides and renumbers
//! strictly upward, and every successful copy, move, rename and soft
//! delete is exactly inverted by undoing its record.

use vstd::prelude::*;

verus! {

use vstd::map::*;
use crate::memfs::{
    NodeData, fs_wf, subtree_set, copy_map, lemma_prefix_trans, lemma_prefix_recompose,
    lemma_concat_parts, lemma_ancestors_present, lemma_empty_subtree,
};
use crate::fs_ops::{
    cand_occupied, least_free, resolve_spec, can_make_dirs, with_all_dirs, copy_ok, copy_dst,
    copy_effect, move_ok, move_effect, rename_ok, rename_to, rename_effect, delete_ok, delete_dst,
    delete_effect, unmove_ok, unmove_effect, lemma_resolver_minimal, lemma_with_dirs_present_id,
};

/// The resolver's pick collides with nothing present, and when the
/// desired name itself is taken the pick differs from it.
pub proof fn lemma_resolver_collision_free(
    m: Map<Seq<Seq<char>>, NodeData>,
    dir: Seq<Seq<char>>,
    name: Seq<char>,
)
    requires
        m.dom().finite(),
    ensures
        !m.dom().contains(resolve_spec(m, dir, name)),
        forall|q: Seq<Seq<char>>|
            m.dom().contains(q) ==> q != resolve_spec(m, dir, name),
        m.dom().contains(dir.push(name)) ==> resolve_spec(m, dir, name) != dir.push(name),
{
    lemma_resolver_minimal(m, dir, name);
    if m.dom().contains(dir.push(name)) {
        assert(cand_occupied(m, dir, name, 0));
        assert(least_free(m, dir, name) != 0);
    }
}

/// Resolving the same collision again, after the first pick was created
/// (and nothing removed), yields a strictly larger suffix index.
pub proof fn lemma_resolver_suffixes_increase(
    m1: Map<Seq<Seq<char>>, NodeData>,
    m2: Map<Seq<Seq<char>>, NodeData>,
    dir: Seq<Seq<char>>,
    name: Seq<char>,
)
    requires
        m1.dom().finite(),
        m2.dom().finite(),
        forall|q: Seq<Seq<char>>| m1.dom().contains(q) ==> m2.dom().contains(q),
        m2.dom().contains(resolve_spec(m1, dir, name)),
    ensures
        least_free(m2, dir, name) > least_free(m1, dir, name),
{
    lemma_resolver_minimal(m1, dir, name);
    lemma_resolver_minimal(m2, dir, name);
    let k1 = least_free(m1, dir, name);
    let k2 = least_free(m2, dir, name);
    assert(cand_occupied(m2, dir, name, k1));
    if k2 <= k1 {
        if k2 < k1 {
            assert(cand_occupied(m1, dir, name, k2));
            assert(cand_occupied(m2, dir, name, k2));
        }
        assert(false);
    }
}

/// Moving the subtree at `from` to the fresh, unrelated spot `dst` can
/// be undone: moving `dst` back is possible and restores the original
/// state exactly.
#[verifier::rlimit(100)]
#[verifier::spinoff_prover]
pub proof fn lemma_move_back_restores(
    m: Map<Seq<Seq<char>>, NodeData>,
    from: Seq<Seq<char>>,
    dst: Seq<Seq<char>>,
)
    requires
        fs_wf(m),
        m.dom().contains(from),
        from.len() > 0,
        dst.len() > 0,
        !m.dom().contains(dst),
        !from.is_prefix_of(dst),
        !dst.is_prefix_of(from),
    ensures
        unmove_ok(
            m.union_prefer_right(copy_map(m, from, dst)).remove_keys(subtree_set(from)),
            dst,
            from,
        ),
        unmove_effect(
            m.union_prefer_right(copy_map(m, from, dst)).remove_keys(subtree_set(from)),
            dst,
            from,
        ) == m,
{
    lemma_empty_subtree(m, dst);
    let cm = copy_map(m, from, dst);
    let mres = m.union_prefer_right(cm).remove_keys(subtree_set(from));
    assert(from.is_prefix_of(from)) by {
        assert(from =~= from.subrange(0, from.len() as int));
    }
    assert(dst.is_prefix_of(dst)) by {
        assert(dst =~= dst.subrange(0, dst.len() as int));
    }
    // dst carries the moved subtree root, from is gone
    assert(cm.dom().contains(dst)) by {
        assert(from + dst.skip(dst.len() as int) =~= from);
    }
    assert(!subtree_set(from).contains(dst));
    assert(mres.dom().contains(dst));
    assert(!mres.dom().contains(from));
    // membership of the image: dst + s present exactly when from + s was
    assert forall|q: Seq<Seq<char>>| #[trigger] cm.dom().contains(q) implies mres.dom().contains(
        q,
    ) && mres[q] == cm[q] by {
        if from.is_prefix_of(q) {
            if from.len() <= dst.len() {
                assert(from =~= dst.subrange(0, from.len() as int));
            } else {
                assert(dst =~= from.subrange(0, dst.len() as int)) by {
                    assert(dst.is_prefix_of(q));
                    assert(forall|x: int| 0 <= x < dst.len() ==> from[x] == q[x]);
                }
            }
            assert(false);
        }
        assert(!m.dom().contains(q)) by {
            assert(dst.is_prefix_of(q));
        }
    }
    // the parent chain of `from` survives the move, as directories
    assert forall|j: int|
        1 <= j <= from.len() - 1 implies mres.dom().contains(#[trigger] from.take(j)) && mres[
        from.take(j)
    ] is Dir by {
        lemma_ancestors_present(m, from, j);
        let q = from.take(j);
        assert(!cm.dom().contains(q)) by {
            if dst.is_prefix_of(q) {
                lemma_prefix_trans(dst, q, from);
            }
        }
        assert(!subtree_set(from).contains(q)) by {
            if from.is_prefix_of(q) {
                assert(from.len() <= q.len());
            }
        }
    }
    assert(can_make_dirs(mres, from.drop_last())) by {
        assert forall|j: int|
            1 <= j <= from.drop_last().len() && mres.dom().contains(
                #[trigger] from.drop_last().take(j),
            ) implies mres[from.drop_last().take(j)] is Dir by {
            assert(from.drop_last().take(j) =~= from.take(j));
        }
    }
    assert(unmove_ok(mres, dst, from));
    // and undoing restores m exactly
    let m2 = with_all_dirs(mres, from.drop_last());
    assert(m2 == mres) by {
        assert forall|j: int|
            1 <= j <= from.drop_last().len() implies mres.dom().contains(
            #[trigger] from.drop_last().take(j),
        ) by {
            assert(from.drop_last().take(j) =~= from.take(j));
        }
        lemma_with_dirs_present_id(mres, from.drop_last(), from.drop_last().len() as int);
    }
    let cm2 = copy_map(mres, dst, from);
    // the image of the image is the original subtree
    assert forall|q: Seq<Seq<char>>|
        #[trigger] cm2.dom().contains(q) implies m.dom().contains(q) && cm2[q] == m[q]
        && from.is_prefix_of(q) by {
        assert(from.is_prefix_of(q));
        let s = q.skip(from.len() as int);
        assert(mres.dom().contains(dst + s));
        assert(cm.dom().contains(dst + s)) by {
            if m.dom().contains(dst + s) {
                lemma_concat_parts(dst, s);
                assert(false);
            }
        }
        lemma_concat_parts(dst, s);
        assert(cm[dst + s] == m[from + s]);
        lemma_prefix_recompose(from, q);
        assert(from + s == q);
    }
    assert forall|q: Seq<Seq<char>>|
        m.dom().contains(q) && from.is_prefix_of(q) implies #[trigger] cm2.dom().contains(q) by {
        lemma_prefix_recompose(from, q);
        let s = q.skip(from.len() as int);
        assert(cm.dom().contains(dst + s)) by {
            lemma_concat_parts(dst, s);
            assert(from + (dst + s).skip(dst.len() as int) == q);
        }
        assert(!subtree_set(from).contains(dst + s)) by {
            if from.is_prefix_of(dst + s) {
                if from.len() <= dst.len() {
                    assert(from =~= dst.subrange(0, from.len() as int));
                } else {
                    assert(dst =~= from.subrange(0, dst.len() as int)) by {
                        assert(forall|x: int| 0 <= x < dst.len() ==> from[x] == (dst + s)[x]);
                    }
                }
                assert(false);
            }
        }
        assert(mres.dom().contains(dst + s));
    }
    let back = m2.union_prefer_right(cm2).remove_keys(subtree_set(dst));
    assert(unmove_effect(mres, dst, from) == back);
    assert forall|q: Seq<Seq<char>>|
        #[trigger] back.dom().contains(q) == m.dom().contains(q) && (m.dom().contains(q) ==> back[
        q
    ] == m[q]) by {
        if subtree_set(dst).contains(q) {
            assert(!m.dom().contains(q));
        } else {
            if cm2.dom().contains(q) {
                assert(m.dom().contains(q) && back[q] == cm2[q] && cm2[q] == m[q]);
            } else {
                if m.dom().contains(q) {
                    if from.is_prefix_of(q) {
                        assert(cm2.dom().contains(q));
                        assert(false);
                    }
                    assert(!cm.dom().contains(q)) by {
                        if dst.is_prefix_of(q) {
                            assert(false);
                        }
                    }
                    assert(mres.dom().contains(q) && mres[q] == m[q]);
                    assert(back[q] == m[q]);
                } else {
                    if back.dom().contains(q) {
                        assert(mres.dom().contains(q));
                        assert(m.union_prefer_right(cm).dom().contains(q));
                        assert(cm.dom().contains(q)) by {
                            if m.dom().contains(q) {
                                assert(false);
                            }
                        }
                        assert(mres[q] == cm[q]);
                        assert(false);
                    }
                }
            }
        }
    }
    assert(back =~= m);
}

/// A successful move into an already existing directory chain is exactly
/// inverted by undoing its record: the destination disappears and the
/// source reappears, bytes and all.
pub proof fn lemma_move_undo_round_trip(
    m: Map<Seq<Seq<char>>, NodeData>,
    from: Seq<Seq<char>>,
    to_dir: Seq<Seq<char>>,
)
    requires
        fs_wf(m),
        m.dom().finite(),
        move_ok(m, from, to_dir),
        from.len() > 0,
        forall|j: int| 1 <= j <= to_dir.len() ==> m.dom().contains(#[trigger] to_dir.take(j)),
    ensures
        unmove_ok(move_effect(m, from, to_dir), copy_dst(m, from, to_dir), from),
        unmove_effect(move_effect(m, from, to_dir), copy_dst(m, from, to_dir), from) == m,
{
    let dst = copy_dst(m, from, to_dir);
    lemma_resolver_minimal(m, to_dir, from.last());
    lemma_with_dirs_present_id(m, to_dir, to_dir.len() as int);
    assert(move_effect(m, from, to_dir) == m.union_prefer_right(copy_map(m, from, dst)).remove_keys(
        subtree_set(from),
    ));
    assert(!from.is_prefix_of(dst)) by {
        if from.is_prefix_of(dst) {
            if from.len() <= to_dir.len() {
                assert(from =~= to_dir.subrange(0, from.len() as int)) by {
                    assert(forall|x: int| 0 <= x < from.len() ==> dst[x] == to_dir[x]);
                }
                assert(from.is_prefix_of(to_dir));
            } else {
                assert(from.len() == dst.len());
                assert(from =~= dst);
            }
            assert(false);
        }
    }
    assert(!dst.is_prefix_of(from)) by {
        if dst.is_prefix_of(from) {
            lemma_ancestors_present(m, from, dst.len() as int);
            assert(from.take(dst.len() as int) =~= dst);
        }
    }
    lemma_move_back_restores(m, from, dst);
}

/// A successful rename is exactly inverted by undoing its record.
pub proof fn lemma_rename_undo_round_trip(
    m: Map<Seq<Seq<char>>, NodeData>,
    from: Seq<Seq<char>>,
    new_name: Seq<char>,
)
    requires
        fs_wf(m),
        rename_ok(m, from, rename_to(from, new_name)),
        from.len() > 0,
    ensures
        unmove_ok(rename_effect(m, from, rename_to(from, new_name)), rename_to(from, new_name), from),
        unmove_effect(
            rename_effect(m, from, rename_to(from, new_name)),
            rename_to(from, new_name),
            from,
        ) == m,
{
    let to = rename_to(from, new_name);
    assert(to.len() == from.len());
    assert(!from.is_prefix_of(to)) by {
        if from.is_prefix_of(to) {
            assert(from =~= to);
        }
    }
    assert(!to.is_prefix_of(from)) by {
        if to.is_prefix_of(from) {
            assert(to =~= from);
        }
    }
    lemma_move_back_restores(m, from, to);
}

/// A soft delete into an already existing trash directory, undone at
/// once, leaves a state observably identical to the one before the
/// delete. (If the trash chain had to be created first, those directories
/// remain afterwards: creating them is not part of the record.)
pub proof fn lemma_delete_undo_round_trip(
    m: Map<Seq<Seq<char>>, NodeData>,
    p: Seq<Seq<char>>,
    trash: Seq<Seq<char>>,
)
    requires
        fs_wf(m),
        m.dom().finite(),
        delete_ok(m, p, trash),
        p.len() > 0,
        forall|j: int| 1 <= j <= trash.len() ==> m.dom().contains(#[trigger] trash.take(j)),
    ensures
        unmove_ok(delete_effect(m, p, trash), delete_dst(m, p, trash), p),
        unmove_effect(delete_effect(m, p, trash), delete_dst(m, p, trash), p) == m,
{
    lemma_with_dirs_present_id(m, trash, trash.len() as int);
    let dst = delete_dst(m, p, trash);
    assert(dst == resolve_spec(m, trash, p.last()));
    lemma_resolver_minimal(m, trash, p.last());
    assert(delete_effect(m, p, trash) == m.union_prefer_right(copy_map(m, p, dst)).remove_keys(
        subtree_set(p),
    ));
    assert(!p.is_prefix_of(dst)) by {
        if p.is_prefix_of(dst) {
            if p.len() <= trash.len() {
                assert(p =~= trash.subrange(0, p.len() as int)) by {
                    assert(forall|x: int| 0 <= x < p.len() ==> dst[x] == trash[x]);
                }
                assert(p.is_prefix_of(trash));
            } else {
                assert(p.len() == dst.len());
                assert(p =~= dst);
            }
            assert(false);
        }
    }
    assert(!dst.is_prefix_of(p)) by {
        if dst.is_prefix_of(p) {
            lemma_ancestors_present(m, p, dst.len() as int);
            assert(p.take(dst.len() as int) =~= dst);
        }
    }
    lemma_move_back_restores(m, p, dst);
}

/// A successful copy leaves the source untouched, and undoing its record
/// (removing the fresh destination subtree) restores the state before
/// the copy exactly, provided the destination directory chain already
/// existed. (Directories created for the chain remain: creating them is
/// not part of the record.)
pub proof fn lemma_copy_undo_round_trip(
    m: Map<Seq<Seq<char>>, NodeData>,
    from: Seq<Seq<char>>,
    to_dir: Seq<Seq<char>>,
)
    requires
        fs_wf(m),
        m.dom().finite(),
        copy_ok(m, from, to_dir),
        from.len() > 0,
        forall|j: int| 1 <= j <= to_dir.len() ==> m.dom().contains(#[trigger] to_dir.take(j)),
    ensures
        copy_effect(m, from, to_dir).dom().contains(copy_dst(m, from, to_dir)),
        forall|q: Seq<Seq<char>>|
            m.dom().contains(q) ==> copy_effect(m, from, to_dir).dom().contains(q) && copy_effect(
                m,
                from,
                to_dir,
            )[q] == m[q],
        // the destination subtree is structurally identical to the source
        forall|s: Seq<Seq<char>>|
            copy_effect(m, from, to_dir).dom().contains(
                #[trigger] (copy_dst(m, from, to_dir) + s),
            ) <==> m.dom().contains(from + s),
        forall|s: Seq<Seq<char>>|
            m.dom().contains(#[trigger] (from + s)) ==> copy_effect(m, from, to_dir)[copy_dst(
                m,
                from,
                to_dir,
            ) + s] == m[from + s],
        copy_effect(m, from, to_dir).remove_keys(subtree_set(copy_dst(m, from, to_dir))) == m,
{
    let dst = copy_dst(m, from, to_dir);
    lemma_resolver_minimal(m, to_dir, from.last());
    lemma_with_dirs_present_id(m, to_dir, to_dir.len() as int);
    lemma_empty_subtree(m, dst);
    let cm = copy_map(m, from, dst);
    assert(copy_effect(m, from, to_dir) == m.union_prefer_right(cm));
    assert(dst.is_prefix_of(dst)) by {
        assert(dst =~= dst.subrange(0, dst.len() as int));
    }
    assert(cm.dom().contains(dst)) by {
        assert(from + dst.skip(dst.len() as int) =~= from);
    }
    assert forall|q: Seq<Seq<char>>|
        m.dom().contains(q) implies m.union_prefer_right(cm).dom().contains(q)
        && m.union_prefer_right(cm)[q] == m[q] by {
        if cm.dom().contains(q) {
            assert(dst.is_prefix_of(q));
            assert(false);
        }
    }
    assert forall|q: Seq<Seq<char>>| #[trigger] cm.dom().contains(q) implies subtree_set(
        dst,
    ).contains(q) by {
        assert(dst.is_prefix_of(q));
    }
    assert(m.union_prefer_right(cm).remove_keys(subtree_set(dst)) =~= m);
    assert forall|s: Seq<Seq<char>>|
        m.union_prefer_right(cm).dom().contains(#[trigger] (dst + s)) <==> m.dom().contains(
        from + s,
    ) by {
        lemma_concat_parts(dst, s);
        if m.dom().contains(dst + s) {
            assert(false);
        }
    }
    assert forall|s: Seq<Seq<char>>|
        m.dom().contains(#[trigger] (from + s)) implies m.union_prefer_right(cm)[dst + s] == m[
        from + s
    ] by {
        lemma_concat_parts(dst, s);
        assert(cm.dom().contains(dst + s));
    }
}

} // verus!
