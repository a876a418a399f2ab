//! The merge plan: a Huffman tree over run lengths, so that the total number
//! of records moved by pairwise merging is least.

use vstd::prelude::*;
use vstd::multiset::Multiset;

verus! {

broadcast use vstd::multiset::group_multiset_axioms;

/// A leaf stands for one run (its id, its length as weight); an internal node
/// merges its two children.
pub struct MergeNode {
    pub weight: u64,
    pub leaf_id: Option<u32>,
    pub left: Option<Box<MergeNode>>,
    pub right: Option<Box<MergeNode>>,
}

/// A full binary tree: leaves of positive weight, internal nodes weighing as
/// much as their two children together.
pub open spec fn node_wf(n: MergeNode) -> bool
    decreases n,
{
    match n.leaf_id {
        Some(_) => n.left is None && n.right is None && n.weight > 0,
        None => match (n.left, n.right) {
            (Some(l), Some(r)) => node_wf(*l) && node_wf(*r) && n.weight == l.weight + r.weight,
            _ => false,
        },
    }
}

/// The leaves as (run id, length), from left to right.
pub open spec fn leaves(n: MergeNode) -> Seq<(u32, u64)>
    decreases n,
{
    match n.leaf_id {
        Some(id) => seq![(id, n.weight)],
        None => match (n.left, n.right) {
            (Some(l), Some(r)) => leaves(*l) + leaves(*r),
            _ => Seq::empty(),
        },
    }
}

/// Records moved by executing the plan: the weight of every internal node.
pub open spec fn merge_cost(n: MergeNode) -> int
    decreases n,
{
    match n.leaf_id {
        Some(_) => 0,
        None => match (n.left, n.right) {
            (Some(l), Some(r)) => n.weight + merge_cost(*l) + merge_cost(*r),
            _ => 0,
        },
    }
}

/// Sum of each leaf's weight times its depth, for a subtree at depth `d`.
pub open spec fn path_length(n: MergeNode, d: int) -> int
    decreases n,
{
    match n.leaf_id {
        Some(_) => n.weight * d,
        None => match (n.left, n.right) {
            (Some(l), Some(r)) => path_length(*l, d + 1) + path_length(*r, d + 1),
            _ => 0,
        },
    }
}

/// The weighted external path length of a plan is the number of records its
/// merges move.
pub proof fn lemma_path_length_is_cost(n: MergeNode, d: int)
    requires
        node_wf(n),
    ensures
        path_length(n, d) == merge_cost(n) + d * n.weight,
    decreases n,
{
    match n.leaf_id {
        Some(_) => {
            assert(n.weight * d == d * n.weight) by (nonlinear_arith);
        },
        None => match (n.left, n.right) {
            (Some(l), Some(r)) => {
                lemma_path_length_is_cost(*l, d + 1);
                lemma_path_length_is_cost(*r, d + 1);
                let (wl, wr) = (l.weight as int, r.weight as int);
                assert((d + 1) * wl + (d + 1) * wr == (wl + wr) + d * (wl + wr)) by (nonlinear_arith);
            },
            _ => {},
        },
    }
}

/// The entries of positive length.
pub open spec fn positive(s: Seq<(u32, u64)>) -> Multiset<(u32, u64)>
    decreases s.len(),
{
    if s.len() == 0 {
        Multiset::empty()
    } else if s.last().1 > 0 {
        positive(s.drop_last()).insert(s.last())
    } else {
        positive(s.drop_last())
    }
}

/// Total length of the entries.
pub open spec fn total_length(s: Seq<(u32, u64)>) -> int
    decreases s.len(),
{
    if s.len() == 0 {
        0
    } else {
        total_length(s.drop_last()) + s.last().1
    }
}

/// The leaves of all the trees in a queue.
pub open spec fn queue_leaves(q: Seq<Box<MergeNode>>) -> Multiset<(u32, u64)>
    decreases q.len(),
{
    if q.len() == 0 {
        Multiset::empty()
    } else {
        queue_leaves(q.drop_last()).add(leaves(*q.last()).to_multiset())
    }
}

pub open spec fn queue_weight(q: Seq<Box<MergeNode>>) -> int
    decreases q.len(),
{
    if q.len() == 0 {
        0
    } else {
        queue_weight(q.drop_last()) + q.last().weight
    }
}

proof fn lemma_queue_remove(q: Seq<Box<MergeNode>>, i: int)
    requires
        0 <= i < q.len(),
    ensures
        queue_leaves(q) == queue_leaves(q.remove(i)).add(leaves(*q[i]).to_multiset()),
        queue_weight(q) == queue_weight(q.remove(i)) + q[i].weight,
    decreases q.len(),
{
    if i == q.len() - 1 {
        assert(q.remove(i) =~= q.drop_last());
    } else {
        lemma_queue_remove(q.drop_last(), i);
        assert(q.remove(i).drop_last() =~= q.drop_last().remove(i));
        assert(q.remove(i).last() == q.last());
        assert(queue_leaves(q) =~= queue_leaves(q.remove(i)).add(leaves(*q[i]).to_multiset()));
    }
}

proof fn lemma_queue_weight_nonneg(q: Seq<Box<MergeNode>>)
    ensures
        queue_weight(q) >= 0,
        forall|i: int| 0 <= i < q.len() ==> q[i].weight <= queue_weight(q),
    decreases q.len(),
{
    if q.len() > 0 {
        lemma_queue_weight_nonneg(q.drop_last());
        assert forall|i: int| 0 <= i < q.len() implies q[i].weight <= queue_weight(q) by {
            if i < q.len() - 1 {
                assert(q[i] == q.drop_last()[i]);
            }
        }
    }
}

/// `r` is the first position of least weight.
pub open spec fn is_first_min(q: Seq<Box<MergeNode>>, r: int) -> bool {
    &&& 0 <= r < q.len()
    &&& forall|j: int| 0 <= j < q.len() ==> q[r].weight <= #[trigger] q[j].weight
    &&& forall|j: int| 0 <= j < r ==> q[r].weight < #[trigger] q[j].weight
}

/// The first position of least weight: the tree inserted earliest among the
/// lightest.
pub open spec fn first_min(q: Seq<Box<MergeNode>>) -> int {
    choose|r: int| is_first_min(q, r)
}

proof fn lemma_first_min(q: Seq<Box<MergeNode>>)
    requires
        q.len() > 0,
    ensures
        is_first_min(q, first_min(q)),
        forall|r: int| #[trigger] is_first_min(q, r) ==> r == first_min(q),
    decreases q.len(),
{
    lemma_first_min_witness(q);
    let w = first_min_witness(q);
    assert(is_first_min(q, w));
    assert forall|r: int| #[trigger] is_first_min(q, r) implies r == first_min(q) by {
        let c = first_min(q);
        assert(is_first_min(q, c));
        if r < c {
            assert(q[c].weight < q[r].weight);
        } else if c < r {
            assert(q[r].weight < q[c].weight);
        }
    }
}

spec fn first_min_witness(q: Seq<Box<MergeNode>>) -> int
    decreases q.len(),
{
    if q.len() <= 1 {
        0
    } else {
        let r = first_min_witness(q.drop_last());
        if q.last().weight < q[r].weight {
            q.len() - 1
        } else {
            r
        }
    }
}

proof fn lemma_first_min_witness(q: Seq<Box<MergeNode>>)
    requires
        q.len() > 0,
    ensures
        is_first_min(q, first_min_witness(q)),
    decreases q.len(),
{
    if q.len() > 1 {
        let d = q.drop_last();
        lemma_first_min_witness(d);
        let r = first_min_witness(d);
        assert forall|j: int| 0 <= j < q.len() - 1 implies #[trigger] q[j] == d[j] by {}
    }
}

/// The plan the greedy merge yields from a queue of trees: the two trees
/// found first of least weight are merged, the new tree joins the end of the
/// queue, until one tree is left.
pub open spec fn huffman(q: Seq<Box<MergeNode>>) -> Option<MergeNode>
    decreases q.len(),
{
    if q.len() == 0 {
        None
    } else if q.len() == 1 {
        Some(*q[0])
    } else {
        let i1 = first_min(q);
        let q1 = q.remove(i1);
        let i2 = first_min(q1);
        let q2 = q1.remove(i2);
        let node = MergeNode {
            weight: (q[i1].weight + q1[i2].weight) as u64,
            leaf_id: None,
            left: Some(q[i1]),
            right: Some(q1[i2]),
        };
        if 0 <= i1 < q.len() && 0 <= i2 < q1.len() {
            huffman(q2.push(Box::new(node)))
        } else {
            None
        }
    }
}

/// One leaf per entry of positive length, in order.
pub open spec fn leaf_queue(s: Seq<(u32, u64)>) -> Seq<Box<MergeNode>>
    decreases s.len(),
{
    if s.len() == 0 {
        Seq::empty()
    } else if s.last().1 > 0 {
        leaf_queue(s.drop_last()).push(
            Box::new(MergeNode { weight: s.last().1, leaf_id: Some(s.last().0), left: None, right: None }),
        )
    } else {
        leaf_queue(s.drop_last())
    }
}

/// Index of the first node of least weight.
fn min_index(q: &Vec<Box<MergeNode>>) -> (r: usize)
    requires
        q.len() > 0,
    ensures
        r < q.len(),
        forall|j: int| 0 <= j < q.len() ==> q@[r as int].weight <= #[trigger] q@[j].weight,
        forall|j: int| 0 <= j < r ==> q@[r as int].weight < #[trigger] q@[j].weight,
        r == first_min(q@),
{
    let mut best: usize = 0;
    let mut i: usize = 1;
    while i < q.len()
        invariant
            1 <= i <= q.len(),
            best < i,
            forall|j: int| 0 <= j < i ==> q@[best as int].weight <= #[trigger] q@[j].weight,
            forall|j: int| 0 <= j < best ==> q@[best as int].weight < #[trigger] q@[j].weight,
        decreases q.len() - i,
    {
        if q[i].weight < q[best].weight {
            best = i;
        }
        i = i + 1;
    }
    proof {
        lemma_first_min(q@);
        assert(is_first_min(q@, best as int));
    }
    best
}

/// Builds the Huffman plan over the runs of positive length: the two lightest
/// trees are merged until one is left, the earlier inserted first among equal
/// weights. `None` when no run holds a record.
pub fn build_merge_plan(entries: &Vec<(u32, u64)>) -> (r: Option<Box<MergeNode>>)
    requires
        total_length(entries@) <= u64::MAX,
    ensures
        r is None <==> positive(entries@).len() == 0,
        r matches Some(root) ==> node_wf(*root) && leaves(*root).to_multiset() == positive(
            entries@,
        ) && root.weight == total_length(entries@),
        match r {
            Some(root) => huffman(leaf_queue(entries@)) == Some(*root),
            None => huffman(leaf_queue(entries@)) is None,
        },
{
    let mut heap: Vec<Box<MergeNode>> = Vec::new();
    let mut i: usize = 0;
    while i < entries.len()
        invariant
            i <= entries.len(),
            total_length(entries@) <= u64::MAX,
            forall|j: int| 0 <= j < heap.len() ==> node_wf(*#[trigger] heap@[j]),
            queue_leaves(heap@) == positive(entries@.take(i as int)),
            queue_weight(heap@) == total_length(entries@.take(i as int)),
            heap.len() == 0 <==> positive(entries@.take(i as int)).len() == 0,
            heap@ == leaf_queue(entries@.take(i as int)),
        decreases entries.len() - i,
    {
        let (id, len) = entries[i];
        let ghost t = entries@.take(i + 1);
        assert(t.drop_last() =~= entries@.take(i as int));
        if len > 0 {
            let ghost old_heap = heap@;
            let leaf = MergeNode { weight: len, leaf_id: Some(id), left: None, right: None };
            heap.push(Box::new(leaf));
            assert(heap@.drop_last() =~= old_heap);
            assert(leaves(leaf) =~= seq![(id, len)]);
            assert(seq![(id, len)].to_multiset() =~= Multiset::singleton((id, len))) by {
                broadcast use vstd::seq_lib::group_to_multiset_ensures;
                assert(seq![(id, len)] =~= Seq::<(u32, u64)>::empty().push((id, len)));
            }
            assert(positive(t).len() > 0);
        }
        i = i + 1;
    }
    assert(entries@.take(entries.len() as int) =~= entries@);
    while heap.len() > 1
        invariant
            forall|j: int| 0 <= j < heap.len() ==> node_wf(*#[trigger] heap@[j]),
            queue_leaves(heap@) == positive(entries@),
            queue_weight(heap@) == total_length(entries@),
            total_length(entries@) <= u64::MAX,
            heap.len() == 0 <==> positive(entries@).len() == 0,
            huffman(heap@) == huffman(leaf_queue(entries@)),
        decreases heap.len(),
    {
        let ghost q0 = heap@;
        let i1 = min_index(&heap);
        let n1 = heap.remove(i1);
        proof {
            lemma_queue_remove(q0, i1 as int);
        }
        let ghost q1 = heap@;
        let i2 = min_index(&heap);
        let n2 = heap.remove(i2);
        proof {
            lemma_queue_remove(q1, i2 as int);
            lemma_queue_weight_nonneg(heap@);
            assert(node_wf(*n1));
            assert(node_wf(*q1[i2 as int]));
        }
        let weight = n1.weight + n2.weight;
        let ghost q2 = heap@;
        let node = MergeNode { weight, leaf_id: None, left: Some(n1), right: Some(n2) };
        heap.push(Box::new(node));
        proof {
            assert(q1 == q0.remove(i1 as int));
            assert(q2 == q1.remove(i2 as int));
            assert(huffman(q0) == huffman(heap@));
            assert(heap@.drop_last() =~= q2);
            assert(leaves(node) == leaves(*n1) + leaves(*n2));
            vstd::seq_lib::lemma_multiset_commutative(leaves(*n1), leaves(*n2));
            assert(queue_leaves(heap@) =~= positive(entries@));
            assert forall|j: int| 0 <= j < heap.len() implies node_wf(*#[trigger] heap@[j]) by {
                if j < heap.len() - 1 {
                    assert(heap@[j] == q2[j]);
                    assert(q2[j] == q1.remove(i2 as int)[j]);
                }
            }
        }
    }
    if heap.len() == 0 {
        None
    } else {
        let ghost q = heap@;
        let root = heap.pop().unwrap();
        proof {
            assert(q.drop_last().len() == 0);
            assert(queue_leaves(q.drop_last()) =~= Multiset::empty());
            assert(q.len() == 1);
            assert(*root == *q.last());
            assert(queue_leaves(q) =~= leaves(*root).to_multiset());
            assert(queue_weight(q.drop_last()) == 0);
            assert(queue_weight(q) == queue_weight(q.drop_last()) + q.last().weight);
            assert(queue_weight(q) == root.weight);
            assert(node_wf(*q[0]));
        }
        Some(root)
    }
}


/// Depth of the deepest leaf.
pub open spec fn depth(n: MergeNode) -> nat
    decreases n,
{
    match n.leaf_id {
        Some(_) => 0,
        None => match (n.left, n.right) {
            (Some(l), Some(r)) => 1 + if depth(*l) >= depth(*r) {
                depth(*l)
            } else {
                depth(*r)
            },
            _ => 0,
        },
    }
}

proof fn lemma_path_length_nonneg(n: MergeNode, d: int)
    requires
        d >= 0,
    ensures
        path_length(n, d) >= 0,
    decreases n,
{
    match n.leaf_id {
        Some(_) => {
            assert(n.weight * d >= 0) by (nonlinear_arith)
                requires
                    d >= 0,
            ;
        },
        None => match (n.left, n.right) {
            (Some(l), Some(r)) => {
                lemma_path_length_nonneg(*l, d + 1);
                lemma_path_length_nonneg(*r, d + 1);
            },
            _ => {},
        },
    }
}

/// Shape of a plan: its leaves, its depth and its weighted external path
/// length.
/// One pairwise merge of a plan: what goes in on each side (a run id for a
/// run, `None` for the result of an earlier merge) and what comes out.
#[derive(Clone, Copy, Debug, PartialEq, Eq, Structural)]
pub struct MergeStep {
    pub left_id: Option<u32>,
    pub left_weight: u64,
    pub right_id: Option<u32>,
    pub right_weight: u64,
    pub weight: u64,
}

/// The merges of a plan in the order they run: both subtrees first, then the
/// node itself.
pub open spec fn steps_of(n: MergeNode) -> Seq<MergeStep>
    decreases n,
{
    match n.leaf_id {
        Some(_) => Seq::empty(),
        None => match (n.left, n.right) {
            (Some(l), Some(r)) => steps_of(*l) + steps_of(*r) + seq![
                MergeStep {
                    left_id: l.leaf_id,
                    left_weight: l.weight,
                    right_id: r.leaf_id,
                    right_weight: r.weight,
                    weight: n.weight,
                },
            ],
            _ => Seq::empty(),
        },
    }
}

/// A plan over `n` runs takes `n - 1` merges.
pub proof fn lemma_steps_count(n: MergeNode)
    requires
        node_wf(n),
    ensures
        steps_of(n).len() + 1 == leaves(n).len(),
    decreases n,
{
    match n.leaf_id {
        Some(_) => {},
        None => match (n.left, n.right) {
            (Some(l), Some(r)) => {
                lemma_steps_count(*l);
                lemma_steps_count(*r);
            },
            _ => {},
        },
    }
}

pub struct MergePlanSummary {
    pub merge_steps: Vec<MergeStep>,
    pub leaf_count: usize,
    pub max_depth: u32,
    pub weighted_path_len: u64,
}

impl MergePlanSummary {
    pub fn from_root(node: &MergeNode) -> (r: Self)
        requires
            node_wf(*node),
            path_length(*node, 0) <= u64::MAX,
            leaves(*node).len() <= usize::MAX,
            depth(*node) <= u32::MAX,
        ensures
            r.leaf_count == leaves(*node).len(),
            r.max_depth == depth(*node),
            r.weighted_path_len == path_length(*node, 0),
            r.merge_steps@ == steps_of(*node),
            r.merge_steps@.len() + 1 == leaves(*node).len(),
    {
        proof {
            lemma_steps_count(*node);
        }
        let mut summary = MergePlanSummary {
            merge_steps: Vec::new(),
            leaf_count: 0,
            max_depth: 0,
            weighted_path_len: 0,
        };
        summary.collect(node, 0);
        assert(summary.merge_steps@ =~= steps_of(*node));
        summary
    }

    fn collect(&mut self, node: &MergeNode, d: u32)
        requires
            node_wf(*node),
            old(self).weighted_path_len + path_length(*node, d as int) <= u64::MAX,
            old(self).leaf_count + leaves(*node).len() <= usize::MAX,
            d + depth(*node) <= u32::MAX,
        ensures
            final(self).leaf_count == old(self).leaf_count + leaves(*node).len(),
            final(self).weighted_path_len == old(self).weighted_path_len + path_length(*node, d as int),
            final(self).merge_steps@ == old(self).merge_steps@ + steps_of(*node),
            final(self).max_depth == if old(self).max_depth >= d + depth(*node) {
                old(self).max_depth as int
            } else {
                d + depth(*node)
            },
        decreases *node,
    {
        if self.max_depth < d {
            self.max_depth = d;
        }
        match node.leaf_id {
            Some(_) => {
                self.leaf_count = self.leaf_count + 1;
                self.weighted_path_len = self.weighted_path_len + node.weight * d as u64;
            },
            None => match (&node.left, &node.right) {
                (Some(l), Some(r)) => {
                    proof {
                        lemma_path_length_nonneg(**l, d + 1);
                        lemma_path_length_nonneg(**r, d + 1);
                    }
                    let ghost s0 = self.merge_steps@;
                    self.collect(l, d + 1);
                    self.collect(r, d + 1);
                    self.merge_steps.push(
                        MergeStep {
                            left_id: l.leaf_id,
                            left_weight: l.weight,
                            right_id: r.leaf_id,
                            right_weight: r.weight,
                            weight: node.weight,
                        },
                    );
                    assert(self.merge_steps@ =~= s0 + steps_of(*node));
                },
                _ => {},
            },
        }
        proof {
            if node.leaf_id is Some {
                assert(self.merge_steps@ =~= old(self).merge_steps@ + steps_of(*node));
            }
        }
    }
}

} // verus!
