use vstd::prelude::*;

use crate::field::FieldElem;
use crate::hash::{hash2, hashpd};

verus! {

/// One stored node: a hash, and the positions of its children in the level
/// below (`None` for leaves; `right` is `None` for a carried-forward node).
/// Children are addressed by position, not by reference, so the links stay
/// valid when a level's storage is reallocated.
#[derive(Clone, Copy, PartialEq, Eq, Structural, Debug)]
pub struct MerkleNode {
    pub hash: FieldElem,
    pub left: Option<usize>,
    pub right: Option<usize>,
}

impl MerkleNode {
    /// A node with no children, as stored for each leaf.
    pub fn new(hash: FieldElem) -> (r: MerkleNode)
        ensures
            r == (MerkleNode { hash, left: None, right: None }),
    {
        MerkleNode { hash, left: None, right: None }
    }
}

/// The errors of the boundary operations.
#[derive(Clone, Copy, PartialEq, Eq, Structural, Debug)]
pub enum MerkleError {
    /// An empty or missing leaf batch on one-shot construction.
    InvalidInput,
    /// A node or leaf index beyond the current bounds.
    IndexOutOfRange,
    /// An output buffer shorter than the produced path.
    BufferTooSmall,
}

/// The hashes held by one stored level.
pub open spec fn level_hashes(lv: Seq<MerkleNode>) -> Seq<FieldElem> {
    lv.map_values(|n: MerkleNode| n.hash)
}

/// The pairing rule: consecutive nodes are hashed pairwise, and the trailing
/// node of an odd-length level is carried forward unchanged.
pub open spec fn next_level_spec(l: Seq<FieldElem>) -> Seq<FieldElem> {
    Seq::new(
        ((l.len() + 1) / 2) as nat,
        |j: int|
            if 2 * j + 1 < l.len() {
                hash2(l[2 * j], l[2 * j + 1])
            } else {
                l[2 * j]
            },
    )
}

/// All levels of the tree over `l`: level 0 is `l` itself, each further level
/// pairs the one below it, until a single-node root level. An empty leaf
/// sequence has no levels at all.
pub open spec fn levels_spec(l: Seq<FieldElem>) -> Seq<Seq<FieldElem>>
    decreases l.len(),
{
    if l.len() == 0 {
        Seq::empty()
    } else if l.len() == 1 {
        seq![l]
    } else {
        seq![l] + levels_spec(next_level_spec(l))
    }
}

/// The root over `l`: the field's additive identity when `l` is empty, else
/// the single node of the last level.
pub open spec fn root_spec(l: Seq<FieldElem>) -> FieldElem {
    if l.len() == 0 {
        FieldElem::zero_spec()
    } else {
        levels_spec(l).last()[0]
    }
}

/// The sibling of position `i` in a level of width `w`: flip the low bit,
/// then clamp to the last valid position (the carried-forward case).
pub open spec fn sibling_index_spec(i: int, w: int) -> int {
    let s = if i % 2 == 0 {
        i + 1
    } else {
        i - 1
    };
    if s > w - 1 {
        w - 1
    } else {
        s
    }
}

/// The elements an inclusion path emits at one level: self and sibling in
/// left-to-right order, or the node alone when it coincides with its clamped
/// sibling (the carried-forward case).
pub open spec fn path_segment(lv: Seq<FieldElem>, i: int) -> Seq<FieldElem> {
    let s = sibling_index_spec(i, lv.len() as int);
    if i < s {
        seq![lv[i], lv[s]]
    } else if s < i {
        seq![lv[s], lv[i]]
    } else {
        seq![lv[i]]
    }
}

/// The inclusion path gathered from level `k` upward, starting at position
/// `i`. A position beyond a level's width ends the walk early with the
/// partial path gathered so far (the defined truncation policy); so does
/// reaching the root level.
pub open spec fn path_from(levels: Seq<Seq<FieldElem>>, k: int, i: int) -> Seq<FieldElem>
    decreases levels.len() - k,
{
    if k < 0 || k >= levels.len() - 1 {
        Seq::empty()
    } else if i < 0 || i >= levels[k].len() {
        Seq::empty()
    } else {
        path_segment(levels[k], i) + path_from(levels, k + 1, i / 2)
    }
}

/// Leaf nodes carry no child links.
pub open spec fn leaf_links_ok(lv: Seq<MerkleNode>) -> bool {
    forall|j: int|
        0 <= j < lv.len() ==> (#[trigger] lv[j]).left is None && lv[j].right is None
}

/// A parent level's links point at exactly the pair (or the carried single
/// node) of the level below that produced each node.
pub open spec fn parent_links_ok(parent: Seq<MerkleNode>, child_len: int) -> bool {
    forall|j: int|
        0 <= j < parent.len() ==> {
            &&& (#[trigger] parent[j]).left matches Some(li) && li as int == 2 * j
            &&& if 2 * j + 1 < child_len {
                parent[j].right matches Some(ri) && ri as int == 2 * j + 1
            } else {
                parent[j].right is None
            }
        }
}

/// One tree: the owned sequence of levels, level 0 the leaves, the last
/// level the single root. Each execution context owns one `MerkleTree`
/// outright, so concurrent contexts never observe each other's state; only
/// the construction and append operations below mutate it.
pub struct MerkleTree {
    pub levels: Vec<Vec<MerkleNode>>,
}

impl MerkleTree {
    /// The stored hashes, level by level.
    pub open spec fn hashes(self) -> Seq<Seq<FieldElem>> {
        self.levels@.map_values(|lv: Vec<MerkleNode>| level_hashes(lv@))
    }

    /// The stored leaf values (level 0).
    pub open spec fn leaves(self) -> Seq<FieldElem> {
        if self.levels@.len() == 0 {
            Seq::empty()
        } else {
            level_hashes(self.levels@[0]@)
        }
    }

    /// Every node's child links are exactly the pairing rule's.
    pub open spec fn links_ok(self) -> bool {
        &&& self.levels@.len() > 0 ==> leaf_links_ok(self.levels@[0]@)
        &&& forall|k: int|
            1 <= k < self.levels@.len() ==> parent_links_ok(
                (#[trigger] self.levels@[k])@,
                self.levels@[k - 1]@.len() as int,
            )
    }

    /// Well-formedness: the stored levels are exactly the levels built from
    /// the stored leaves, and the links match the pairing rule.
    pub open spec fn wf(self) -> bool {
        &&& self.hashes() == levels_spec(self.leaves())
        &&& self.links_ok()
    }

    /// An empty tree.
    pub fn new() -> (r: MerkleTree)
        ensures
            r.wf(),
            r.leaves() == Seq::<FieldElem>::empty(),
            r.levels@.len() == 0,
    {
        let t = MerkleTree { levels: Vec::new() };
        proof {
            assert(t.hashes() =~= levels_spec(t.leaves()));
        }
        t
    }

    /// Discards all levels, leaving the empty tree.
    pub fn clear_levels(&mut self)
        ensures
            final(self).wf(),
            final(self).leaves() == Seq::<FieldElem>::empty(),
            final(self).levels@.len() == 0,
    {
        self.levels.clear();
        proof {
            assert(self.hashes() =~= levels_spec(self.leaves()));
        }
    }

    /// Discards the calling context's tree.
    pub fn clear_merkle_tree(&mut self)
        ensures
            final(self).wf(),
            final(self).leaves() == Seq::<FieldElem>::empty(),
            final(self).levels@.len() == 0,
    {
        self.clear_levels()
    }

    /// The number of stored levels.
    pub fn level_count(&self) -> (r: usize)
        ensures
            r == self.levels@.len(),
    {
        self.levels.len()
    }

    /// The number of stored leaves.
    pub fn leaf_count(&self) -> (r: usize)
        ensures
            r == self.leaves().len(),
    {
        if self.levels.len() == 0 {
            0
        } else {
            self.levels[0].len()
        }
    }

    /// The node at a level and position, or `IndexOutOfRange` beyond the
    /// current bounds.
    pub fn node_at(&self, level: usize, index: usize) -> (r: Result<MerkleNode, MerkleError>)
        ensures
            level < self.levels@.len() && index < self.levels@[level as int]@.len() ==> r
                == Ok::<MerkleNode, MerkleError>(self.levels@[level as int]@[index as int]),
            !(level < self.levels@.len() && index < self.levels@[level as int]@.len()) ==> r
                == Err::<MerkleNode, MerkleError>(MerkleError::IndexOutOfRange),
    {
        if level < self.levels.len() && index < self.levels[level].len() {
            Ok(self.levels[level][index])
        } else {
            Err(MerkleError::IndexOutOfRange)
        }
    }
}

/// The levels over a non-empty leaf sequence: there is at least one level,
/// level 0 is the leaves, every level is non-empty, each level pairs the one
/// below it, and the last level holds exactly one node.
pub proof fn lemma_levels_spec_structure(l: Seq<FieldElem>)
    requires
        l.len() >= 1,
    ensures
        levels_spec(l).len() >= 1,
        levels_spec(l)[0] == l,
        levels_spec(l).last().len() == 1,
        forall|k: int| 0 <= k < levels_spec(l).len() ==> (#[trigger] levels_spec(l)[k]).len() >= 1,
        forall|k: int|
            0 <= k < levels_spec(l).len() - 1 ==> levels_spec(l)[k + 1] == next_level_spec(
                #[trigger] levels_spec(l)[k],
            ),
    decreases l.len(),
{
    if l.len() == 1 {
        assert(levels_spec(l) == seq![l]);
        assert(levels_spec(l).last() == l);
    } else {
        let n = next_level_spec(l);
        assert(n.len() == (l.len() + 1) / 2);
        assert(1 <= n.len() < l.len());
        lemma_levels_spec_structure(n);
        let ls = levels_spec(l);
        let lsn = levels_spec(n);
        assert(ls == seq![l] + lsn);
        assert(ls.len() == 1 + lsn.len());
        assert(ls[0] == l);
        assert(ls.last() == lsn.last());
        assert forall|k: int| 0 <= k < ls.len() implies (#[trigger] ls[k]).len() >= 1 by {
            if k >= 1 {
                assert(ls[k] == lsn[k - 1]);
            }
        }
        assert forall|k: int| 0 <= k < ls.len() - 1 implies ls[k + 1] == next_level_spec(
            #[trigger] ls[k],
        ) by {
            if k == 0 {
                assert(ls[1] == lsn[0]);
                assert(lsn[0] == n);
            } else {
                assert(ls[k] == lsn[k - 1]);
                assert(ls[k + 1] == lsn[k]);
                assert(lsn[(k - 1) + 1] == next_level_spec(lsn[k - 1]));
            }
        }
    }
}

/// Builds the parent level of `cur` under the pairing rule, with links to
/// the children's positions.
fn next_level(cur: &Vec<MerkleNode>) -> (r: Vec<MerkleNode>)
    ensures
        level_hashes(r@) == next_level_spec(level_hashes(cur@)),
        parent_links_ok(r@, cur@.len() as int),
{
    let ghost lh = level_hashes(cur@);
    let ghost target = next_level_spec(lh);
    let mut out: Vec<MerkleNode> = Vec::new();
    let mut i: usize = 0;
    while i + 1 < cur.len()
        invariant
            i == 2 * out@.len(),
            i <= cur@.len(),
            lh == level_hashes(cur@),
            target == next_level_spec(lh),
            forall|j: int| 0 <= j < out@.len() ==> (#[trigger] out@[j]).hash == target[j],
            forall|j: int|
                0 <= j < out@.len() ==> (#[trigger] out@[j]).left == Some((2 * j) as usize)
                    && out@[j].right == Some((2 * j + 1) as usize),
        decreases cur@.len() - i,
    {
        let left = read_node(cur, i);
        let right = read_node(cur, i + 1);
        let h = hashpd(left.hash, right.hash);
        proof {
            let j = out@.len() as int;
            assert(2 * j + 1 < lh.len());
            assert(target[j] == hash2(lh[2 * j], lh[2 * j + 1]));
            assert(lh[2 * j] == cur@[2 * j].hash);
            assert(lh[2 * j + 1] == cur@[2 * j + 1].hash);
        }
        out.push(MerkleNode { hash: h, left: Some(i), right: Some(i + 1) });
        i = i + 2;
    }
    if i < cur.len() {
        let left = read_node(cur, i);
        proof {
            let j = out@.len() as int;
            assert(i as int == cur@.len() - 1);
            assert(!(2 * j + 1 < lh.len()));
            assert(target[j] == lh[2 * j]);
            assert(lh[2 * j] == cur@[2 * j].hash);
        }
        out.push(MerkleNode { hash: left.hash, left: Some(i), right: None });
    }
    proof {
        assert(level_hashes(out@) =~= target);
        assert(parent_links_ok(out@, cur@.len() as int));
    }
    out
}

/// Reads one node by position.
fn read_node(lv: &Vec<MerkleNode>, i: usize) -> (r: MerkleNode)
    requires
        i < lv@.len(),
    ensures
        r == lv@[i as int],
{
    lv[i]
}

impl MerkleTree {
    /// Rebuilds every level above the leaves, bottom-up, until a single-node
    /// root level stands.
    fn rebuild_upward(&mut self)
        requires
            old(self).levels@.len() == 1,
            old(self).levels@[0]@.len() >= 1,
            leaf_links_ok(old(self).levels@[0]@),
        ensures
            final(self).wf(),
            final(self).leaves() == old(self).leaves(),
    {
        let ghost leaves0 = old(self).leaves();
        proof {
            assert(self.hashes().len() == 1);
            assert(self.hashes()[0] == leaves0);
            assert(self.hashes().drop_last() =~= Seq::<Seq<FieldElem>>::empty());
            assert(self.hashes().drop_last() + levels_spec(leaves0) =~= levels_spec(leaves0));
        }
        while self.levels[self.levels.len() - 1].len() > 1
            invariant
                self.levels@.len() >= 1,
                self.leaves() == leaves0,
                leaves0.len() >= 1,
                self.levels@.last()@.len() >= 1,
                levels_spec(leaves0) == self.hashes().drop_last() + levels_spec(
                    level_hashes(self.levels@.last()@),
                ),
                self.links_ok(),
            decreases self.levels@.last()@.len(),
        {
            let k = self.levels.len() - 1;
            let ghost hs = self.hashes();
            let ghost last = level_hashes(self.levels@.last()@);
            let nl = next_level(&self.levels[k]);
            proof {
                assert(last.len() >= 2);
                assert(levels_spec(last) == seq![last] + levels_spec(next_level_spec(last)));
            }
            let ghost prev = self.levels@;
            self.levels.push(nl);
            proof {
                let hs2 = self.hashes();
                assert(hs2 =~= hs.push(next_level_spec(last)));
                assert(hs2.drop_last() =~= hs);
                assert(hs =~= hs.drop_last() + seq![last]);
                assert(hs.drop_last() + (seq![last] + levels_spec(next_level_spec(last)))
                    =~= (hs.drop_last() + seq![last]) + levels_spec(next_level_spec(last)));
                assert(levels_spec(leaves0) == hs2.drop_last() + levels_spec(
                    level_hashes(self.levels@.last()@),
                ));
                assert(self.levels@[0] == prev[0]);
                let newk = self.levels@.len() - 1;
                assert forall|kk: int| 1 <= kk < self.levels@.len() implies parent_links_ok(
                    (#[trigger] self.levels@[kk])@,
                    self.levels@[kk - 1]@.len() as int,
                ) by {
                    if kk < newk {
                        assert(self.levels@[kk] == prev[kk]);
                        assert(self.levels@[kk - 1] == prev[kk - 1]);
                        assert(parent_links_ok(prev[kk]@, prev[kk - 1]@.len() as int));
                    } else {
                        assert(self.levels@[kk]@ == nl@);
                        assert(self.levels@[kk - 1] == prev[kk - 1]);
                        assert(prev[kk - 1] == prev[prev.len() - 1]);
                    }
                }
            }
        }
        proof {
            let last = level_hashes(self.levels@.last()@);
            assert(last.len() == 1);
            assert(levels_spec(last) == seq![last]);
            assert(self.hashes() =~= self.hashes().drop_last() + seq![last]);
            assert(self.hashes() == levels_spec(leaves0));
        }
    }

    /// Replaces the whole tree with the one built from `data`, in one
    /// bottom-up pass; an empty batch leaves the empty tree.
    pub fn build_full_merkle_tree(&mut self, data: &Vec<FieldElem>)
        ensures
            final(self).wf(),
            final(self).leaves() == data@,
    {
        self.levels = Vec::new();
        if data.len() == 0 {
            proof {
                assert(self.hashes() =~= levels_spec(self.leaves()));
                assert(self.leaves() =~= data@);
            }
            return ;
        }
        let mut nodes: Vec<MerkleNode> = Vec::new();
        let mut idx: usize = 0;
        while idx < data.len()
            invariant
                idx == nodes@.len(),
                idx <= data@.len(),
                forall|j: int|
                    0 <= j < nodes@.len() ==> #[trigger] nodes@[j] == (MerkleNode {
                        hash: data@[j],
                        left: None,
                        right: None,
                    }),
            decreases data@.len() - idx,
        {
            let v = data[idx];
            nodes.push(MerkleNode::new(v));
            idx = idx + 1;
        }
        self.levels.push(nodes);
        proof {
            assert(level_hashes(self.levels@[0]@) =~= data@);
            assert(self.leaves() == data@);
        }
        self.rebuild_upward();
    }

    /// Appends one leaf: extends level 0 and rebuilds every level above it,
    /// so the tree afterwards is exactly the one built from the old leaves
    /// followed by `new_leaf`. On an empty tree this builds the single-leaf
    /// tree.
    pub fn add_one_leaf(&mut self, new_leaf: FieldElem)
        requires
            old(self).wf(),
        ensures
            final(self).wf(),
            final(self).leaves() == old(self).leaves().push(new_leaf),
    {
        let ghost oldleaves = old(self).leaves();
        if self.levels.len() == 0 {
            let mut nodes: Vec<MerkleNode> = Vec::new();
            nodes.push(MerkleNode::new(new_leaf));
            self.levels.push(nodes);
            proof {
                assert(self.leaves() =~= oldleaves.push(new_leaf));
                assert(levels_spec(self.leaves()) == seq![self.leaves()]);
                assert(self.hashes() =~= seq![self.leaves()]);
            }
        } else {
            self.levels.truncate(1);
            let mut level0 = match self.levels.pop() {
                Some(lv) => lv,
                None => Vec::new(),
            };
            level0.push(MerkleNode::new(new_leaf));
            proof {
                assert(level_hashes(level0@) =~= oldleaves.push(new_leaf));
                assert(leaf_links_ok(level0@));
            }
            self.levels.push(level0);
            proof {
                assert(self.levels@ =~= seq![level0]);
                assert(self.leaves() == oldleaves.push(new_leaf));
            }
            self.rebuild_upward();
        }
    }

    /// Appends one leaf to the calling context's tree.
    pub fn add_leaf_to_tree(&mut self, new_leaf: FieldElem)
        requires
            old(self).wf(),
        ensures
            final(self).wf(),
            final(self).leaves() == old(self).leaves().push(new_leaf),
    {
        self.add_one_leaf(new_leaf)
    }

    /// Rejects an empty batch with `InvalidInput`, leaving the tree as it
    /// was; otherwise builds the tree from `data` and hands back its root
    /// node.
    pub fn create_merkle_tree(&mut self, data: &Vec<FieldElem>) -> (r: Result<
        MerkleNode,
        MerkleError,
    >)
        ensures
            data@.len() == 0 ==> r == Err::<MerkleNode, MerkleError>(MerkleError::InvalidInput)
                && *final(self) == *old(self),
            data@.len() > 0 ==> final(self).wf() && final(self).leaves() == data@ && (r matches Ok(n)
                && n.hash == root_spec(data@)),
    {
        if data.len() == 0 {
            return Err(MerkleError::InvalidInput);
        }
        self.build_full_merkle_tree(data);
        proof {
            lemma_levels_spec_structure(data@);
            assert(self.hashes().len() >= 1);
            assert(self.hashes().last().len() == 1);
        }
        let k = self.levels.len() - 1;
        let root = read_node(&self.levels[k], 0);
        proof {
            assert(root.hash == self.hashes().last()[0]);
        }
        Ok(root)
    }

    /// The root hash: the field's additive identity for an empty tree, else
    /// the single node of the last level.
    pub fn get_root(&self) -> (r: FieldElem)
        requires
            self.wf(),
        ensures
            r == root_spec(self.leaves()),
    {
        if self.levels.len() == 0 {
            FieldElem::zero()
        } else {
            proof {
                lemma_nonempty_levels_nonempty_leaves(*self);
                lemma_levels_spec_structure(self.leaves());
                assert(self.hashes().last().len() == 1);
            }
            let k = self.levels.len() - 1;
            let root = read_node(&self.levels[k], 0);
            proof {
                assert(root.hash == self.hashes().last()[0]);
            }
            root.hash
        }
    }

    /// The inclusion path for the leaf at `leaf_index`: for each level below
    /// the root, the leaf's ancestor and its sibling in left-to-right order
    /// (the ancestor alone where it was carried forward). An index beyond a
    /// level's width yields the partial path gathered so far; an empty tree
    /// yields an empty path.
    pub fn get_merkle_path_impl(&self, leaf_index: usize) -> (r: Vec<FieldElem>)
        ensures
            r@ == path_from(self.hashes(), 0, leaf_index as int),
    {
        let ghost hs = self.hashes();
        let mut path: Vec<FieldElem> = Vec::new();
        if self.levels.len() == 0 {
            return path;
        }
        let mut current_index = leaf_index;
        let mut level: usize = 0;
        while level < self.levels.len() - 1 && current_index < self.levels[level].len()
            invariant
                hs == self.hashes(),
                self.levels@.len() >= 1,
                level <= self.levels@.len() - 1,
                path_from(hs, 0, leaf_index as int) == path@ + path_from(
                    hs,
                    level as int,
                    current_index as int,
                ),
            decreases self.levels@.len() - level,
        {
            let ghost segsrc = hs[level as int];
            let ghost cur = current_index as int;
            let nodes_len = self.levels[level].len();
            let sibling0 = if current_index % 2 == 0 {
                current_index + 1
            } else {
                current_index - 1
            };
            let last = nodes_len - 1;
            let sibling = if sibling0 > last {
                last
            } else {
                sibling0
            };
            proof {
                assert(segsrc == level_hashes(self.levels@[level as int]@));
                assert(segsrc.len() == nodes_len as int);
                assert(sibling as int == sibling_index_spec(cur, segsrc.len() as int));
            }
            let ghost before = path@;
            if current_index < sibling {
                let a = read_node(&self.levels[level], current_index);
                let b = read_node(&self.levels[level], sibling);
                path.push(a.hash);
                path.push(b.hash);
            } else if sibling < current_index {
                let a = read_node(&self.levels[level], sibling);
                let b = read_node(&self.levels[level], current_index);
                path.push(a.hash);
                path.push(b.hash);
            } else {
                let a = read_node(&self.levels[level], current_index);
                path.push(a.hash);
            }
            proof {
                assert(path@ =~= before + path_segment(segsrc, cur));
                assert(path_from(hs, level as int, cur) == path_segment(segsrc, cur) + path_from(
                    hs,
                    level as int + 1,
                    cur / 2,
                ));
                assert((before + path_segment(segsrc, cur)) + path_from(hs, level as int + 1, cur / 2)
                    =~= before + (path_segment(segsrc, cur) + path_from(hs, level as int + 1, cur / 2)));
            }
            current_index = current_index / 2;
            level = level + 1;
        }
        proof {
            assert(path_from(hs, level as int, current_index as int) =~= Seq::<FieldElem>::empty());
            assert(path@ + Seq::<FieldElem>::empty() =~= path@);
        }
        path
    }

    /// Copies as much of the inclusion path as the caller's capacity holds
    /// and reports the full length, so a caller with a short buffer learns
    /// how much room the whole path needs.
    pub fn get_merkle_path(&self, leaf_index: usize, capacity: usize) -> (r: (Vec<FieldElem>, usize))
        ensures
            r.1 == path_from(self.hashes(), 0, leaf_index as int).len(),
            r.0@ == (if capacity as int <= r.1 as int {
                path_from(self.hashes(), 0, leaf_index as int).take(capacity as int)
            } else {
                path_from(self.hashes(), 0, leaf_index as int)
            }),
    {
        let mut out = self.get_merkle_path_impl(leaf_index);
        let total = out.len();
        out.truncate(capacity);
        proof {
            if capacity as int <= total as int {
                assert(out@ =~= path_from(self.hashes(), 0, leaf_index as int).take(
                    capacity as int,
                ));
            }
        }
        (out, total)
    }

    /// The calling context's root.
    pub fn get_merkle_root(&self) -> (r: FieldElem)
        requires
            self.wf(),
        ensures
            r == root_spec(self.leaves()),
    {
        self.get_root()
    }
}

/// Computes just the root over a batch, without keeping any level.
pub fn build_merkle_tree(data: Vec<FieldElem>) -> (r: FieldElem)
    requires
        data@.len() >= 1,
    ensures
        r == root_spec(data@),
{
    let mut current = data;
    while current.len() > 1
        invariant
            current@.len() >= 1,
            root_spec(current@) == root_spec(data@),
        decreases current@.len(),
    {
        let ghost lh = current@;
        let ghost target = next_level_spec(lh);
        let mut next: Vec<FieldElem> = Vec::new();
        let mut i: usize = 0;
        while i + 1 < current.len()
            invariant
                i == 2 * next@.len(),
                i <= current@.len(),
                lh == current@,
                target == next_level_spec(lh),
                forall|j: int| 0 <= j < next@.len() ==> #[trigger] next@[j] == target[j],
            decreases current@.len() - i,
        {
            let a = current[i];
            let b = current[i + 1];
            let h = hashpd(a, b);
            proof {
                let j = next@.len() as int;
                assert(2 * j + 1 < lh.len());
                assert(target[j] == hash2(lh[2 * j], lh[2 * j + 1]));
            }
            next.push(h);
            i = i + 2;
        }
        if i < current.len() {
            let a = current[i];
            proof {
                let j = next@.len() as int;
                assert(i as int == lh.len() - 1);
                assert(target[j] == lh[2 * j]);
            }
            next.push(a);
        }
        proof {
            assert(next@ =~= target);
            lemma_root_next(lh);
        }
        current = next;
    }
    proof {
        assert(levels_spec(current@) == seq![current@]);
        assert(root_spec(current@) == current@[0]);
    }
    current[0]
}

/// A well-formed tree with at least one stored level holds at least one
/// leaf.
pub proof fn lemma_nonempty_levels_nonempty_leaves(t: MerkleTree)
    requires
        t.wf(),
        t.levels@.len() > 0,
    ensures
        t.leaves().len() >= 1,
{
    if t.leaves().len() == 0 {
        assert(levels_spec(t.leaves()) =~= Seq::<Seq<FieldElem>>::empty());
        assert(t.hashes().len() == t.levels@.len());
    }
}

/// Collapsing one level does not change the root: the tree over `l` and the
/// tree over `l`'s pairing have the same last level.
pub proof fn lemma_root_next(l: Seq<FieldElem>)
    requires
        l.len() >= 2,
    ensures
        root_spec(next_level_spec(l)) == root_spec(l),
{
    let n = next_level_spec(l);
    assert(n.len() == (l.len() + 1) / 2);
    assert(1 <= n.len());
    lemma_levels_spec_structure(n);
    assert(levels_spec(l) == seq![l] + levels_spec(n));
    assert(levels_spec(l).last() == levels_spec(n).last());
}

} // verus!
