use vstd::prelude::*;

use crate::field::FieldElem;
use crate::hash::hash2;
use crate::tree::{
    lemma_levels_spec_structure, levels_spec, next_level_spec, path_from, path_segment, root_spec,
    sibling_index_spec, MerkleTree,
};
use vstd::arithmetic::div_mod::{lemma_div_is_ordered, lemma_fundamental_div_mod};

verus! {

/// The leaf sequence reached by appending the elements of `rest`, one at a
/// time, to a tree whose leaves are `l0`; each single append takes a leaf
/// sequence `s` to `s.push(x)`, exactly as `add_one_leaf` ensures.
pub open spec fn append_all(l0: Seq<FieldElem>, rest: Seq<FieldElem>) -> Seq<FieldElem>
    decreases rest.len(),
{
    if rest.len() == 0 {
        l0
    } else {
        append_all(l0.push(rest[0]), rest.drop_first())
    }
}

proof fn lemma_append_all_concat(l0: Seq<FieldElem>, rest: Seq<FieldElem>)
    ensures
        append_all(l0, rest) == l0 + rest,
    decreases rest.len(),
{
    if rest.len() == 0 {
        assert(l0 + rest =~= l0);
    } else {
        lemma_append_all_concat(l0.push(rest[0]), rest.drop_first());
        assert(l0.push(rest[0]) + rest.drop_first() =~= l0 + rest);
    }
}

/// Build/append equivalence: building a tree from the first `k` leaves of
/// `l` and then appending the remaining leaves one by one ends with the leaf
/// sequence `l` itself, and hence (every well-formed tree's levels being
/// exactly `levels_spec` of its leaves) with the same level structure and
/// root as building the whole of `l` in one shot.
pub proof fn lemma_build_append_equivalence(l: Seq<FieldElem>, k: int)
    requires
        0 <= k <= l.len(),
    ensures
        append_all(l.subrange(0, k), l.subrange(k, l.len() as int)) == l,
        root_spec(append_all(l.subrange(0, k), l.subrange(k, l.len() as int))) == root_spec(l),
{
    lemma_append_all_concat(l.subrange(0, k), l.subrange(k, l.len() as int));
    assert(l.subrange(0, k) + l.subrange(k, l.len() as int) =~= l);
}

/// Determinism: two well-formed trees over the same leaf sequence hold the
/// same hashes at every level, and the same root.
pub proof fn lemma_determinism(a: MerkleTree, b: MerkleTree)
    requires
        a.wf(),
        b.wf(),
        a.leaves() == b.leaves(),
    ensures
        a.hashes() == b.hashes(),
        root_spec(a.leaves()) == root_spec(b.leaves()),
{
}

/// Isolation: a well-formed tree's whole level structure, and so its root,
/// is a function of its own leaf sequence alone. Each execution context owns
/// its `MerkleTree` value outright and no storage is shared, so no operation
/// on one context's tree can change what another context reads.
pub proof fn lemma_isolation(a: MerkleTree, b: MerkleTree)
    requires
        a.wf(),
        b.wf(),
    ensures
        a.hashes() == levels_spec(a.leaves()),
        b.hashes() == levels_spec(b.leaves()),
        a.leaves() == b.leaves() ==> root_spec(a.leaves()) == root_spec(b.leaves()),
{
}

/// Clear resets to identity: a tree with no stored levels has an empty leaf
/// sequence, and its root is the field's additive identity. `clear_levels`
/// leaves exactly this state, so `get_root` then returns the identity and
/// `leaf_count` returns zero.
pub proof fn lemma_clear_resets_to_identity(t: MerkleTree)
    requires
        t.levels@.len() == 0,
    ensures
        t.leaves().len() == 0,
        root_spec(t.leaves()) == FieldElem::zero_spec(),
{
}

/// A single-leaf tree's root is the leaf itself: no hash is applied.
pub proof fn lemma_single_leaf(x: FieldElem)
    ensures
        root_spec(seq![x]) == x,
{
    let l = seq![x];
    assert(levels_spec(l) == seq![l]);
    assert(levels_spec(l).last() == l);
}

/// Odd-carry rule: pairing a level of odd width carries the trailing node's
/// hash into the next level unchanged; with every stored level equal to
/// `next_level_spec` of the one below, this holds at every level of a
/// well-formed tree.
pub proof fn lemma_odd_carry(l: Seq<FieldElem>)
    requires
        l.len() % 2 == 1,
    ensures
        next_level_spec(l).last() == l.last(),
{
    let n = next_level_spec(l);
    let j = n.len() - 1;
    lemma_fundamental_div_mod(l.len() as int + 1, 2);
    assert(2 * j == l.len() - 1);
    assert(!(2 * j + 1 < l.len()));
    assert(n[j] == l[2 * j]);
}

/// The position of the leaf's ancestor at level `k`: halved once per level
/// climbed.
pub open spec fn ancestor_index(i: int, k: nat) -> int
    decreases k,
{
    if k == 0 {
        i
    } else {
        ancestor_index(i, (k - 1) as nat) / 2
    }
}

/// Climbing one level keeps an in-range position in range: a level of width
/// `w` has a parent level of width `(w + 1) / 2`.
proof fn lemma_half_index_valid(i: int, w: int)
    requires
        0 <= i < w,
    ensures
        0 <= i / 2 < (w + 1) / 2,
{
    lemma_div_is_ordered(i, w - 1, 2);
    lemma_fundamental_div_mod(w - 1, 2);
    lemma_fundamental_div_mod(w + 1, 2);
}

/// The ancestor position is valid at every level of the tree.
pub proof fn lemma_ancestor_valid(l: Seq<FieldElem>, i: int, k: int)
    requires
        l.len() >= 1,
        0 <= i < l.len(),
        0 <= k < levels_spec(l).len(),
    ensures
        0 <= ancestor_index(i, k as nat) < levels_spec(l)[k].len(),
    decreases k,
{
    lemma_levels_spec_structure(l);
    let lsp = levels_spec(l);
    if k == 0 {
        assert(ancestor_index(i, 0) == i);
    } else {
        lemma_ancestor_valid(l, i, k - 1);
        let a = ancestor_index(i, (k - 1) as nat);
        assert(lsp[k] == next_level_spec(lsp[k - 1]));
        lemma_half_index_valid(a, lsp[k - 1].len() as int);
        assert(ancestor_index(i, k as nat) == a / 2);
    }
}

/// One step of the path, starting from the leaf's ancestor at level `k`,
/// emits that ancestor's segment and then continues at level `k + 1` from
/// the next ancestor.
pub proof fn lemma_path_unfold(l: Seq<FieldElem>, i: int, k: int)
    requires
        l.len() >= 1,
        0 <= i < l.len(),
        0 <= k < levels_spec(l).len() - 1,
    ensures
        path_from(levels_spec(l), k, ancestor_index(i, k as nat)) == path_segment(
            levels_spec(l)[k],
            ancestor_index(i, k as nat),
        ) + path_from(levels_spec(l), k + 1, ancestor_index(i, (k + 1) as nat)),
{
    lemma_ancestor_valid(l, i, k);
    assert(ancestor_index(i, (k + 1) as nat) == ancestor_index(i, k as nat) / 2);
}

/// Path-root replay, one level at a time: the segment the path emits at
/// level `k` determines the leaf's ancestor at level `k + 1`. A two-element
/// segment hashes to it in the emitted order; a one-element segment is the
/// carried ancestor itself, unchanged. So replaying the path pairwise
/// through the hash reproduces each ancestor hash in turn, in builder order.
pub proof fn lemma_path_replay_step(l: Seq<FieldElem>, i: int, k: int)
    requires
        l.len() >= 1,
        0 <= i < l.len(),
        0 <= k < levels_spec(l).len() - 1,
    ensures
        ({
            let lsp = levels_spec(l);
            let a = ancestor_index(i, k as nat);
            let seg = path_segment(lsp[k], a);
            let up = lsp[k + 1][ancestor_index(i, (k + 1) as nat)];
            &&& seg.len() == 2 ==> up == hash2(seg[0], seg[1])
            &&& seg.len() == 1 ==> up == seg[0] && seg[0] == lsp[k][a]
        }),
{
    let lsp = levels_spec(l);
    let lv = lsp[k];
    let w = lv.len() as int;
    let a = ancestor_index(i, k as nat);
    let j = ancestor_index(i, (k + 1) as nat);
    assert(lsp[k + 1] == next_level_spec(lv)) by {
        lemma_levels_spec_structure(l);
    }
    assert(0 <= a < w) by {
        lemma_ancestor_valid(l, i, k);
    }
    assert(0 <= j < next_level_spec(lv).len()) by {
        lemma_ancestor_valid(l, i, k + 1);
    }
    assert(j == a / 2);
    assert(a == 2 * (a / 2) + a % 2) by {
        lemma_fundamental_div_mod(a, 2);
    }
    let up = next_level_spec(lv)[j];
    assert(up == if 2 * j + 1 < w {
        hash2(lv[2 * j], lv[2 * j + 1])
    } else {
        lv[2 * j]
    });
    let s = sibling_index_spec(a, w);
    let seg = path_segment(lv, a);
    if a % 2 == 0 {
        assert(2 * j == a);
        if a + 1 < w {
            assert(s == a + 1);
            assert(seg =~= seq![lv[a], lv[a + 1]]);
            assert(up == hash2(lv[a], lv[a + 1]));
        } else {
            assert(s == w - 1 && s == a);
            assert(seg =~= seq![lv[a]]);
            assert(up == lv[a]);
        }
    } else {
        assert(2 * j == a - 1 && 2 * j + 1 == a);
        assert(s == a - 1);
        assert(seg =~= seq![lv[a - 1], lv[a]]);
        assert(up == hash2(lv[a - 1], lv[a]));
    }
}

/// The replay ends at the root: the leaf's ancestor at the last level is the
/// root itself, and the walk starts at the leaf.
pub proof fn lemma_path_replay_root(l: Seq<FieldElem>, i: int)
    requires
        l.len() >= 1,
        0 <= i < l.len(),
    ensures
        ancestor_index(i, 0) == i,
        levels_spec(l)[0][i] == l[i],
        levels_spec(l).last()[ancestor_index(
            i,
            (levels_spec(l).len() - 1) as nat,
        )] == root_spec(l),
{
    lemma_levels_spec_structure(l);
    let h = levels_spec(l).len() - 1;
    lemma_ancestor_valid(l, i, h);
    assert(levels_spec(l)[h].len() == 1);
    assert(ancestor_index(i, h as nat) == 0);
}

/// Dropping the leaf level: paths that start above it are paths of the tree
/// over the paired level.
proof fn lemma_path_from_shift(head: Seq<FieldElem>, rest: Seq<Seq<FieldElem>>, k: int, i: int)
    requires
        k >= 1,
    ensures
        path_from(seq![head] + rest, k, i) == path_from(rest, k - 1, i),
    decreases rest.len() + 1 - k,
{
    let lsp = seq![head] + rest;
    if k >= lsp.len() - 1 {
        assert(path_from(lsp, k, i) == Seq::<FieldElem>::empty());
        assert(path_from(rest, k - 1, i) == Seq::<FieldElem>::empty());
    } else {
        assert(lsp[k] == rest[k - 1]);
        if i < 0 || i >= lsp[k].len() {
            assert(path_from(lsp, k, i) == Seq::<FieldElem>::empty());
            assert(path_from(rest, k - 1, i) == Seq::<FieldElem>::empty());
        } else {
            lemma_path_from_shift(head, rest, k + 1, i / 2);
            assert(path_from(lsp, k, i) == path_segment(lsp[k], i) + path_from(lsp, k + 1, i / 2));
            assert(path_from(rest, k - 1, i) == path_segment(rest[k - 1], i) + path_from(
                rest,
                k,
                i / 2,
            ));
        }
    }
}

/// Path length bound: for a tree of height `h` (its level count less one),
/// every in-range leaf's path has at most `2 * h` elements, and exactly
/// `2 * h` when every level below the root has even width.
pub proof fn lemma_path_length(l: Seq<FieldElem>, i: int)
    requires
        l.len() >= 1,
        0 <= i < l.len(),
    ensures
        path_from(levels_spec(l), 0, i).len() <= 2 * (levels_spec(l).len() - 1),
        (forall|k: int|
            0 <= k < levels_spec(l).len() - 1 ==> (#[trigger] levels_spec(l)[k]).len() % 2
                == 0) ==> path_from(levels_spec(l), 0, i).len() == 2 * (levels_spec(l).len() - 1),
    decreases l.len(),
{
    let lsp = levels_spec(l);
    if l.len() == 1 {
        assert(lsp == seq![l]);
        assert(path_from(lsp, 0, i) == Seq::<FieldElem>::empty());
    } else {
        let n = next_level_spec(l);
        let lspn = levels_spec(n);
        assert(lsp == seq![l] + lspn);
        assert(n.len() == (l.len() + 1) / 2);
        lemma_half_index_valid(i, l.len() as int);
        lemma_path_length(n, i / 2);
        lemma_path_from_shift(l, lspn, 1, i / 2);
        assert(lsp[0] == l);
        let seg = path_segment(l, i);
        assert(path_from(lsp, 0, i) == seg + path_from(lsp, 1, i / 2));
        assert(seg.len() <= 2);
        assert(lsp.len() - 1 == 1 + (lspn.len() - 1));
        if forall|k: int|
            0 <= k < lsp.len() - 1 ==> (#[trigger] lsp[k]).len() % 2 == 0 {
            assert(lsp[0].len() % 2 == 0);
            lemma_fundamental_div_mod(i, 2);
            let s = sibling_index_spec(i, l.len() as int);
            if i % 2 == 0 {
                assert(i != l.len() - 1);
                assert(s == i + 1);
            } else {
                assert(s == i - 1);
            }
            assert(seg.len() == 2);
            assert forall|k: int| 0 <= k < lspn.len() - 1 implies (#[trigger] lspn[k]).len() % 2
                == 0 by {
                assert(lspn[k] == lsp[k + 1]);
            }
            assert(path_from(lspn, 0, i / 2).len() == 2 * (lspn.len() - 1));
        }
    }
}

} // verus!

