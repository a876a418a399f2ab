//! Executes a merge plan over in-memory runs, and the whole sort: runs by
//! replacement selection, a Huffman plan, then pairwise merges.

use vstd::prelude::*;
use vstd::multiset::Multiset;
use crate::merge_plan::{MergeNode, node_wf, leaves, positive, total_length, build_merge_plan};
use crate::reader::{InputError, parse_all, parse_records};
use crate::run_gen::{RunGenerator, sorted, runs_view, runs_ok};

verus! {

broadcast use vstd::seq_lib::group_to_multiset_ensures, vstd::multiset::group_multiset_axioms;

/// The records of the runs that the leaves name.
pub open spec fn leaf_records(ls: Seq<(u32, u64)>, rs: Seq<Seq<i32>>) -> Multiset<i32>
    decreases ls.len(),
{
    if ls.len() == 0 {
        Multiset::empty()
    } else {
        leaf_records(ls.drop_last(), rs).add(rs[ls.last().0 as int].to_multiset())
    }
}

/// Every run that a leaf names is sorted.
pub open spec fn leaf_runs_sorted(ls: Seq<(u32, u64)>, rs: Seq<Seq<i32>>) -> bool {
    forall|i: int| 0 <= i < ls.len() ==> sorted(#[trigger] rs[ls[i].0 as int])
}

/// Every leaf names a run.
pub open spec fn ids_in(ls: Seq<(u32, u64)>, n: int) -> bool {
    forall|i: int| 0 <= i < ls.len() ==> (#[trigger] ls[i]).0 < n
}

proof fn lemma_leaf_records_concat(a: Seq<(u32, u64)>, b: Seq<(u32, u64)>, rs: Seq<Seq<i32>>)
    ensures
        leaf_records(a + b, rs) =~= leaf_records(a, rs).add(leaf_records(b, rs)),
    decreases b.len(),
{
    if b.len() == 0 {
        assert(a + b =~= a);
    } else {
        lemma_leaf_records_concat(a, b.drop_last(), rs);
        assert((a + b).drop_last() =~= a + b.drop_last());
        assert((a + b).last() == b.last());
    }
}

proof fn lemma_leaf_records_remove(s: Seq<(u32, u64)>, i: int, rs: Seq<Seq<i32>>)
    requires
        0 <= i < s.len(),
    ensures
        leaf_records(s, rs) =~= leaf_records(s.remove(i), rs).add(rs[s[i].0 as int].to_multiset()),
    decreases s.len(),
{
    if i == s.len() - 1 {
        assert(s.remove(i) =~= s.drop_last());
    } else {
        lemma_leaf_records_remove(s.drop_last(), i, rs);
        assert(s.remove(i).drop_last() =~= s.drop_last().remove(i));
        assert(s.remove(i).last() == s.last());
    }
}

/// The records named by a list of leaves do not depend on their order.
pub proof fn lemma_leaf_records_perm(a: Seq<(u32, u64)>, b: Seq<(u32, u64)>, rs: Seq<Seq<i32>>)
    requires
        a.to_multiset() == b.to_multiset(),
    ensures
        leaf_records(a, rs) == leaf_records(b, rs),
    decreases a.len(),
{
    if a.len() == 0 {
        assert(b.to_multiset().len() == 0);
        assert(b =~= Seq::<(u32, u64)>::empty());
    } else {
        let x = a.last();
        let d = a.drop_last();
        assert(a =~= d.push(x));
        assert(b.to_multiset().count(x) > 0);
        assert(b.contains(x));
        let i = choose|i: int| 0 <= i < b.len() && b[i] == x;
        let b2 = b.remove(i);
        assert(d.to_multiset() =~= b2.to_multiset());
        lemma_leaf_records_perm(d, b2, rs);
        lemma_leaf_records_remove(b, i, rs);
    }
}

/// Merges two sequences; where both are sorted, so is the result. On equal
/// records the first input goes first.
pub fn perform_2_way_merge(a: &Vec<i32>, b: &Vec<i32>) -> (r: Vec<i32>)
    ensures
        r@.to_multiset() == a@.to_multiset().add(b@.to_multiset()),
        r@.len() == a@.len() + b@.len(),
        sorted(a@) && sorted(b@) ==> sorted(r@),
{
    let mut out: Vec<i32> = Vec::new();
    let mut i: usize = 0;
    let mut j: usize = 0;
    while i < a.len() || j < b.len()
        invariant
            i <= a.len(),
            j <= b.len(),
            out@.to_multiset() == a@.take(i as int).to_multiset().add(b@.take(j as int).to_multiset()),
            out@.len() == i + j,
            sorted(a@) && sorted(b@) ==> sorted(out@),
            sorted(a@) && sorted(b@) && out@.len() > 0 ==> (i < a.len() ==> out@.last() <= a@[i as int])
                && (j < b.len() ==> out@.last() <= b@[j as int]),
        decreases a.len() + b.len() - i - j,
    {
        let ghost o = out@;
        let take_a = j >= b.len() || (i < a.len() && a[i] <= b[j]);
        if take_a {
            let v = a[i];
            out.push(v);
            proof {
                assert(a@.take(i + 1) =~= a@.take(i as int).push(v));
            }
            i = i + 1;
        } else {
            let v = b[j];
            out.push(v);
            proof {
                assert(b@.take(j + 1) =~= b@.take(j as int).push(v));
            }
            j = j + 1;
        }
        proof {
            if sorted(a@) && sorted(b@) {
                assert forall|x: int, y: int| 0 <= x < y < out@.len() implies out@[x] <= out@[y] by {
                    if y == out@.len() - 1 && x < o.len() {
                        assert(o[x] <= o.last());
                    }
                }
            }
        }
    }
    assert(a@.take(i as int) =~= a@);
    assert(b@.take(j as int) =~= b@);
    out
}

pub(crate) fn copy_run(v: &Vec<i32>) -> (r: Vec<i32>)
    ensures
        r@ == v@,
{
    let r = v.clone();
    assert(r@ =~= v@);
    r
}

/// Merges the runs below a node, in post-order: a leaf yields its run, an
/// internal node the merge of what its two children yield.
pub fn execute_merge_node(node: &MergeNode, runs: &Vec<Vec<i32>>) -> (r: Vec<i32>)
    requires
        node_wf(*node),
        ids_in(leaves(*node), runs.len() as int),
    ensures
        r@.to_multiset() == leaf_records(leaves(*node), runs_view(runs@)),
        node.leaf_id matches Some(id) ==> r@ == runs@[id as int]@,
        leaf_runs_sorted(leaves(*node), runs_view(runs@)) ==> sorted(r@),
    decreases *node,
{
    match node.leaf_id {
        Some(id) => {
            let ghost ls = leaves(*node);
            assert(ls[0].0 == id);
            assert(ls.drop_last() =~= Seq::<(u32, u64)>::empty());
            assert(ls.last() == ls[0]);
            assert(runs_view(runs@)[id as int] == runs@[id as int]@);
            assert(leaf_records(ls.drop_last(), runs_view(runs@)) == Multiset::<i32>::empty());
            assert(leaf_records(ls, runs_view(runs@)) == leaf_records(ls.drop_last(), runs_view(runs@)).add(
                runs_view(runs@)[ls.last().0 as int].to_multiset(),
            ));
            assert(leaf_records(ls, runs_view(runs@)) =~= runs@[id as int]@.to_multiset());
            assert(ls[0] == (id, node.weight));
            copy_run(&runs[id as usize])
        },
        None => match (&node.left, &node.right) {
            (Some(l), Some(r)) => {
                let ghost (ll, rl) = (leaves(**l), leaves(**r));
                assert(leaves(*node) == ll + rl);
                assert(ids_in(ll, runs.len() as int)) by {
                    assert forall|i: int| 0 <= i < ll.len() implies (#[trigger] ll[i]).0 < runs.len() by {
                        assert((ll + rl)[i] == ll[i]);
                    }
                }
                assert(ids_in(rl, runs.len() as int)) by {
                    assert forall|i: int| 0 <= i < rl.len() implies (#[trigger] rl[i]).0 < runs.len() by {
                        assert((ll + rl)[ll.len() + i] == rl[i]);
                    }
                }
                let x = execute_merge_node(l, runs);
                let y = execute_merge_node(r, runs);
                proof {
                    lemma_leaf_records_concat(ll, rl, runs_view(runs@));
                    let rv = runs_view(runs@);
                    if leaf_runs_sorted(leaves(*node), rv) {
                        assert forall|i: int| 0 <= i < ll.len() implies sorted(#[trigger] rv[ll[i].0 as int]) by {
                            assert((ll + rl)[i] == ll[i]);
                        }
                        assert forall|i: int| 0 <= i < rl.len() implies sorted(#[trigger] rv[rl[i].0 as int]) by {
                            assert((ll + rl)[ll.len() + i] == rl[i]);
                        }
                    }
                }
                perform_2_way_merge(&x, &y)
            },
            _ => Vec::new(),
        },
    }
}

/// Executes a whole plan; an empty plan yields no records.
pub fn merge_loop(plan: &Option<Box<MergeNode>>, runs: &Vec<Vec<i32>>) -> (r: Vec<i32>)
    requires
        plan matches Some(root) ==> node_wf(**root) && ids_in(leaves(**root), runs.len() as int),
    ensures
        plan is None ==> r@.len() == 0,
        plan matches Some(root) ==> r@.to_multiset() == leaf_records(leaves(**root), runs_view(runs@)),
        plan matches Some(root) ==> (leaf_runs_sorted(leaves(**root), runs_view(runs@)) ==> sorted(r@)),
{
    match plan {
        Some(root) => execute_merge_node(root, runs),
        None => Vec::new(),
    }
}

/// Sorts records: replacement selection with a tree of `k` slots, then the
/// Huffman plan over the run lengths, then its merges.
pub fn sort_records(records: Vec<i32>, k: usize) -> (r: Vec<i32>)
    requires
        1 <= k < usize::MAX / 2,
        records.len() <= u32::MAX,
    ensures
        sorted(r@),
        r@.to_multiset() == records@.to_multiset(),
{
    let ghost input = records@;
    let mut generator = RunGenerator::new(records, k);
    let runs = generator.generate_run_file();
    let ghost rv = runs_view(runs@);
    proof {
        assert(rv.flatten().to_multiset().len() == input.to_multiset().len());
    }
    let mut entries: Vec<(u32, u64)> = Vec::new();
    let mut j: usize = 0;
    while j < runs.len()
        invariant
            j <= runs.len(),
            rv == runs_view(runs@),
            runs_ok(rv),
            rv.flatten().len() == input.len() <= u32::MAX,
            entries@.len() == j,
            forall|i: int| 0 <= i < j ==> #[trigger] entries@[i] == (i as u32, runs@[i]@.len() as u64),
            leaf_records(entries@, rv) == rv.take(j as int).flatten().to_multiset(),
            positive(entries@) == entries@.to_multiset(),
            total_length(entries@) == rv.take(j as int).flatten().len(),
            j <= rv.take(j as int).flatten().len(),
        decreases runs.len() - j,
    {
        let ghost e0 = entries@;
        let ghost t = rv.take(j as int);
        proof {
            assert(rv.take(j + 1) =~= t.push(rv[j as int]));
            t.lemma_flatten_push(rv[j as int]);
            rv.take(j + 1).lemma_flatten_and_flatten_alt_are_equivalent();
            rv.lemma_flatten_and_flatten_alt_are_equivalent();
            assert(rv.take(j + 1).flatten().len() <= rv.flatten().len()) by {
                assert(rv =~= rv.take(j + 1) + rv.skip(j + 1));
                vstd::seq_lib::lemma_flatten_concat(rv.take(j + 1), rv.skip(j + 1));
            }
            vstd::seq_lib::lemma_multiset_commutative(t.flatten(), rv[j as int]);
            assert(rv[j as int].len() > 0);
        }
        let len = runs[j].len();
        entries.push((j as u32, len as u64));
        proof {
            assert(entries@.drop_last() =~= e0);
            assert(entries@.last() == (j as u32, len as u64));
        }
        j = j + 1;
    }
    proof {
        assert(rv.take(j as int) =~= rv);
        assert forall|i: int| 0 <= i < runs.len() implies sorted(#[trigger] runs@[i]@) by {
            assert(rv[i] == runs@[i]@);
        }
    }
    let plan = build_merge_plan(&entries);
    proof {
        match &plan {
            Some(root) => {
                lemma_leaf_records_perm(leaves(**root), entries@, rv);
                assert forall|i: int| 0 <= i < leaves(**root).len() implies (#[trigger] leaves(
                    **root,
                )[i]).0 < runs.len() by {
                    let e = leaves(**root)[i];
                    assert(leaves(**root).to_multiset().count(e) > 0);
                    assert(entries@.contains(e));
                }
                assert(runs_view(runs@) == rv);
            },
            None => {
                assert(entries@.to_multiset().len() == 0);
                assert(input.to_multiset().len() == 0);
            },
        }
    }
    let out = merge_loop(&plan, &runs);
    proof {
        if plan is None {
            assert(out@ =~= Seq::<i32>::empty());
            assert(out@.to_multiset() =~= Multiset::empty());
            assert(input.to_multiset() =~= Multiset::empty());
        }
    }
    out
}

/// Parses an input and sorts its records, or reports its first bad token.
pub fn external_sort(bytes: Vec<u8>, k: usize) -> (r: Result<Vec<i32>, InputError>)
    requires
        1 <= k < usize::MAX / 2,
        bytes.len() <= u32::MAX,
    ensures
        match parse_all(bytes@) {
            Ok(v) => match r {
                Ok(out) => sorted(out@) && out@.to_multiset() == v.to_multiset(),
                Err(_) => false,
            },
            Err(o) => r == Err::<Vec<i32>, InputError>(InputError { offset: o as usize }),
        },
{
    proof {
        crate::reader::lemma_parse_len(bytes@, 0);
    }
    match parse_records(bytes) {
        Ok(records) => Ok(sort_records(records, k)),
        Err(e) => Err(e),
    }
}

} // verus!
