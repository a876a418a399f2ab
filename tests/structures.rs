use external_sort::kway::{k_way_merge, BufferPool, KWayLoserTreeMerger, Project4Config, RunBuffer, RunStatisticsSummary};
use external_sort::loser_tree::{LoserTree, INF};
use external_sort::merge::{execute_merge_node, merge_loop};
use external_sort::merge_plan::{build_merge_plan, MergePlanSummary, MergeStep};
use external_sort::reader::{parse_records, InputElementReader, InputError};

#[test]
fn loser_tree_winner_is_least_key() {
    let tree = LoserTree::new(vec![5, 6, 1, 9]);
    assert_eq!(tree.get_winner_idx(), 2);
    assert_eq!(tree.get_key(2), 1);
    let tree = LoserTree::new(vec![4, 8, 7, 3, 6]);
    assert_eq!(tree.get_winner_idx(), 3);
}

#[test]
fn loser_tree_replay_after_replacing_winner() {
    let mut tree = LoserTree::new(vec![5, 6, 1, 9]);
    tree.replace_and_replay(2, (7, false));
    assert_eq!(tree.get_winner_idx(), 0);
    let w = tree.get_winner_idx();
    tree.replace_and_replay(w, (2, true));
    assert_eq!(tree.get_winner_idx(), 1);
    assert_eq!(tree.get_key(0), INF);
    tree.unfreeze_all_elements();
    tree.build();
    assert_eq!(tree.get_winner_idx(), 0);
    assert_eq!(tree.get_key(0), 2);
}

#[test]
fn loser_tree_ties_and_single_slot() {
    let tree = LoserTree::new(vec![3, 3, 3]);
    assert_eq!(tree.get_key(tree.get_winner_idx()), 3);
    let mut one = LoserTree::new(vec![10]);
    assert_eq!(one.get_winner_idx(), 0);
    one.replace_and_replay(0, (INF, false));
    assert_eq!(one.get_key(0), INF);
}

#[test]
fn reader_yields_records_then_none() {
    let mut reader = InputElementReader::new(b" 12 -7\n".to_vec());
    assert_eq!(reader.next_element(), Ok(Some(12)));
    assert_eq!(reader.next_element(), Ok(Some(-7)));
    assert_eq!(reader.next_element(), Ok(None));
    assert_eq!(reader.next_element(), Ok(None));
    assert_eq!(parse_records(b"1 2 ".to_vec()), Ok(vec![1, 2]));
    assert_eq!(parse_records(b"1 2 a".to_vec()), Err(InputError { offset: 4 }));
}

#[test]
fn huffman_plan_weighted_path_length() {
    let entries = vec![(0u32, 1u64), (1, 1), (2, 2), (3, 3), (4, 5)];
    let plan = build_merge_plan(&entries).expect("plan");
    assert_eq!(plan.weight, 12);
    let summary = MergePlanSummary::from_root(&plan);
    assert_eq!(summary.leaf_count, 5);
    assert_eq!(summary.weighted_path_len, 25);
    assert_eq!(summary.max_depth, 4);
    let left = plan.left.as_ref().expect("left");
    let right = plan.right.as_ref().expect("right");
    assert_eq!((left.weight, right.weight), (5, 7));
    let right_left = right.left.as_ref().expect("right left");
    let right_right = right.right.as_ref().expect("right right");
    assert_eq!((right_left.weight, right_right.weight), (3, 4));
}

#[test]
fn huffman_plan_ignores_empty_runs() {
    assert!(build_merge_plan(&Vec::new()).is_none());
    assert!(build_merge_plan(&vec![(0, 0), (1, 0)]).is_none());
    let plan = build_merge_plan(&vec![(0, 0), (7, 4)]).expect("plan");
    assert_eq!(plan.leaf_id, Some(7));
    assert_eq!(plan.weight, 4);
}

#[test]
fn plan_execution_merges_runs() {
    let runs = vec![vec![1, 4], vec![2, 3, 9], vec![0]];
    let entries = vec![(0u32, 2u64), (1, 3), (2, 1)];
    let plan = build_merge_plan(&entries);
    assert_eq!(merge_loop(&plan, &runs), vec![0, 1, 2, 3, 4, 9]);
    let root = plan.expect("plan");
    assert_eq!(execute_merge_node(&root, &runs), vec![0, 1, 2, 3, 4, 9]);
    assert_eq!(merge_loop(&None, &runs), Vec::<i32>::new());
}

#[test]
fn buffer_pool_counts_idle_buffers() {
    let mut pool = BufferPool::new(2, 4);
    assert_eq!(pool.available(), 2);
    let a = pool.acquire();
    assert!(a.is_empty());
    let b = pool.acquire();
    assert_eq!(pool.available(), 0);
    let c = pool.acquire();
    assert_eq!(pool.available(), 0);
    pool.release(vec![1, 2, 3]);
    assert_eq!(pool.available(), 1);
    assert!(pool.acquire().is_empty());
    pool.release(a);
    pool.release(b);
    pool.release(c);
    assert_eq!(pool.available(), 3);
}

#[test]
fn run_buffer_refills_and_finishes() {
    let mut pool = BufferPool::new(2, 2);
    let mut rb = RunBuffer::new(0, vec![1, 2, 3], 2, &mut pool);
    assert_eq!(pool.available(), 1);
    assert_eq!(rb.current_value(), Some(1));
    assert_eq!(rb.refill_count(), 1);
    rb.advance(&mut pool);
    assert_eq!(rb.current_value(), Some(2));
    rb.advance(&mut pool);
    assert_eq!(rb.current_value(), Some(3));
    assert_eq!(rb.refill_count(), 2);
    assert_eq!(pool.available(), 1);
    rb.advance(&mut pool);
    assert_eq!(rb.current_value(), None);
    assert!(rb.is_finished());
    assert_eq!(pool.available(), 2);
}

#[test]
fn prefetch_goes_to_hottest_run() {
    let mut pool = BufferPool::new(4, 1);
    let mut runs = vec![
        RunBuffer::new(0, vec![1, 2], 1, &mut pool),
        RunBuffer::new(1, vec![5, 6, 7], 1, &mut pool),
    ];
    runs[1].advance(&mut pool);
    assert_eq!(runs[1].refill_count(), 2);
    pool.assign_extra_buffer(&mut runs);
    assert!(runs[1].has_secondary_buffer());
    assert!(!runs[0].has_secondary_buffer());
    assert_eq!(pool.available(), 1);
    pool.assign_extra_buffer(&mut runs);
    assert!(runs[0].has_secondary_buffer());
    assert_eq!(pool.available(), 0);
    let mut small = BufferPool::new(1, 1);
    let mut empty = RunBuffer::new(2, Vec::new(), 1, &mut small);
    assert!(empty.is_finished());
    assert_eq!(small.available(), 1);
    empty.release_all_buffers(&mut small);
    assert_eq!(small.available(), 1);
}

#[test]
fn pool_conservation_during_merge_steps() {
    let mut pool = BufferPool::new(3, 2);
    let mut runs = vec![RunBuffer::new(0, vec![1, 2, 3, 4, 5], 2, &mut pool)];
    pool.assign_extra_buffer(&mut runs);
    let held = |r: &RunBuffer| if r.is_finished() { 0 } else if r.has_secondary_buffer() { 2 } else { 1 };
    assert_eq!(pool.available() + held(&runs[0]), 3);
    for _ in 0..5 {
        runs[0].advance(&mut pool);
        pool.assign_extra_buffer(&mut runs);
        assert_eq!(pool.available() + held(&runs[0]), 3);
    }
    assert!(runs[0].is_finished());
    assert_eq!(pool.available(), 3);
}

#[test]
fn k_way_merge_of_sorted_runs() {
    let runs = vec![vec![1, 5, 9], vec![], vec![2, 2, 8], vec![0, 10]];
    assert_eq!(k_way_merge(&runs, 2, 2), vec![0, 1, 2, 2, 5, 8, 9, 10]);
    assert_eq!(k_way_merge(&Vec::new(), 2, 2), Vec::<i32>::new());
}

#[test]
fn merger_makes_several_passes() {
    let mut config = Project4Config::with_paths("runs".to_string(), "out.txt".to_string());
    assert_eq!(config.max_k, 16);
    config.max_k = 2;
    config.buffer_capacity = 1;
    let runs = vec![vec![3, 7], vec![1], vec![4, 4, 6], vec![0, 9], vec![2]];
    let mut merger = KWayLoserTreeMerger::new(config, runs);
    assert_eq!(merger.merge(), vec![0, 1, 2, 3, 4, 4, 6, 7, 9]);
}

#[test]
fn run_statistics_summary() {
    let stats = RunStatisticsSummary::from_runs(&vec![vec![1, 2, 3], vec![4], vec![5, 6]]);
    assert_eq!(stats.entries.len(), 3);
    assert_eq!(stats.entries[2].run_id, 2);
    assert_eq!(stats.summary(), Some((3, 6, 1, 3)));
    let empty = RunStatisticsSummary::from_runs(&Vec::new());
    assert_eq!(empty.summary(), None);
}

#[test]
fn huffman_plan_is_least_cost() {
    let weights = [45u64, 13, 12, 16, 9, 5];
    let entries: Vec<(u32, u64)> = weights.iter().enumerate().map(|(i, w)| (i as u32, *w)).collect();
    let plan = build_merge_plan(&entries).expect("plan");
    assert_eq!(plan.weight, 100);
    let summary = MergePlanSummary::from_root(&plan);
    assert_eq!(summary.weighted_path_len, 224);
    assert_eq!(summary.leaf_count, 6);
}

#[test]
fn huffman_plan_lists_its_merges() {
    let entries = vec![(0u32, 1u64), (1, 1), (2, 2), (3, 3), (4, 5)];
    let plan = build_merge_plan(&entries).expect("plan");
    let summary = MergePlanSummary::from_root(&plan);
    assert_eq!(summary.merge_steps.len(), 4);
    assert_eq!(
        summary.merge_steps[0],
        MergeStep { left_id: Some(0), left_weight: 1, right_id: Some(1), right_weight: 1, weight: 2 }
    );
    let weights: Vec<u64> = summary.merge_steps.iter().map(|s| s.weight).collect();
    let mut sorted_weights = weights.clone();
    sorted_weights.sort();
    assert_eq!(sorted_weights, vec![2, 4, 7, 12]);
    assert_eq!(*weights.last().expect("root"), 12);
}

#[test]
fn replayed_slot_wins_ties() {
    let mut tree = LoserTree::new(vec![3, 1, 2]);
    assert_eq!(tree.get_winner_idx(), 1);
    tree.replace_and_replay(1, (2, false));
    assert_eq!(tree.get_winner_idx(), 1);
    tree.replace_and_replay(1, (3, false));
    assert_eq!(tree.get_key(tree.get_winner_idx()), 2);
    assert_eq!(tree.get_winner_idx(), 2);
}

#[test]
fn run_buffer_counts_refills_and_hands_back_empty_buffers() {
    let mut pool = BufferPool::new(3, 2);
    let empty = RunBuffer::new(0, Vec::new(), 2, &mut pool);
    assert!(empty.is_finished());
    assert_eq!(empty.refill_count(), 0);
    assert_eq!(pool.available(), 3);
    let mut rb = RunBuffer::new(1, vec![4, 5], 2, &mut pool);
    assert_eq!(rb.refill_count(), 1);
    assert_eq!(pool.available(), 2);
    let handed_back = rb.try_prefetch(vec![9, 9]);
    assert_eq!(handed_back, Some(Vec::new()));
    rb.advance(&mut pool);
    rb.advance(&mut pool);
    assert!(rb.is_finished());
    assert_eq!(rb.refill_count(), 1);
    assert_eq!(pool.available(), 3);
    rb.advance(&mut pool);
    assert!(rb.is_finished());
    assert_eq!(rb.current_value(), None);
    assert_eq!(pool.available(), 3);
}
