use external_sort::merge::{external_sort, perform_2_way_merge, sort_records};
use external_sort::reader::InputError;
use external_sort::run_gen::RunGenerator;

fn runs_of(records: Vec<i32>, k: usize) -> Vec<Vec<i32>> {
    let mut generator = RunGenerator::new(records, k);
    generator.generate_run_file()
}

fn is_sorted(v: &[i32]) -> bool {
    v.windows(2).all(|w| w[0] <= w[1])
}

#[test]
fn already_sorted_input_gives_one_run() {
    let input = vec![1, 2, 3, 4, 5, 6, 7, 8];
    let runs = runs_of(input.clone(), 4);
    assert_eq!(runs, vec![vec![1, 2, 3, 4, 5, 6, 7, 8]]);
    assert_eq!(sort_records(input, 4), vec![1, 2, 3, 4, 5, 6, 7, 8]);
}

#[test]
fn reverse_sorted_input() {
    let input = vec![8, 7, 6, 5, 4, 3, 2, 1];
    let runs = runs_of(input.clone(), 4);
    assert_eq!(runs, vec![vec![5, 6, 7, 8], vec![1, 2, 3, 4]]);
    assert_eq!(sort_records(input, 4), vec![1, 2, 3, 4, 5, 6, 7, 8]);
}

#[test]
fn random_input_with_duplicates() {
    let input = vec![3, 1, 4, 1, 5, 9, 2, 6, 5, 3, 5];
    let out = sort_records(input.clone(), 3);
    assert_eq!(out, vec![1, 1, 2, 3, 3, 4, 5, 5, 5, 6, 9]);
    let runs = runs_of(input, 3);
    for run in &runs {
        assert!(!run.is_empty());
        assert!(is_sorted(run));
    }
    assert_eq!(runs.iter().map(|r| r.len()).sum::<usize>(), 11);
}

#[test]
fn empty_input() {
    assert_eq!(runs_of(Vec::new(), 4).len(), 0);
    assert_eq!(sort_records(Vec::new(), 4), Vec::<i32>::new());
    assert_eq!(external_sort(Vec::new(), 4), Ok(Vec::new()));
    assert_eq!(external_sort(b"  \n\t ".to_vec(), 4), Ok(Vec::new()));
}

#[test]
fn single_record() {
    assert_eq!(runs_of(vec![42], 4), vec![vec![42]]);
    assert_eq!(external_sort(b"42".to_vec(), 4), Ok(vec![42]));
}

#[test]
fn runs_are_at_least_tree_size_except_last() {
    let input: Vec<i32> = (0..200).map(|i| ((i * 7919) % 101) - 50).collect();
    for k in 1..9usize {
        let runs = runs_of(input.clone(), k);
        for (i, run) in runs.iter().enumerate() {
            assert!(is_sorted(run));
            if i + 1 < runs.len() {
                assert!(run.len() >= k);
            }
        }
        assert!(runs.len() <= (input.len() + k - 1) / k);
        let mut expected = input.clone();
        expected.sort();
        assert_eq!(sort_records(input.clone(), k), expected);
    }
}

#[test]
fn extreme_values_are_records() {
    let input = vec![i32::MAX, i32::MIN, 0, i32::MAX, -1];
    assert_eq!(sort_records(input, 2), vec![i32::MIN, -1, 0, i32::MAX, i32::MAX]);
    let text = b"2147483647 -2147483648 2147483647".to_vec();
    assert_eq!(external_sort(text, 1), Ok(vec![i32::MIN, i32::MAX, i32::MAX]));
}

#[test]
fn parses_whitespace_separated_text() {
    let text = b"  3\t1\r\n-2 \n10".to_vec();
    assert_eq!(external_sort(text, 2), Ok(vec![-2, 1, 3, 10]));
}

#[test]
fn rejects_bad_token_with_offset() {
    assert_eq!(external_sort(b"1 x2 3".to_vec(), 2), Err(InputError { offset: 2 }));
    assert_eq!(external_sort(b"1 2147483648".to_vec(), 2), Err(InputError { offset: 2 }));
    assert_eq!(external_sort(b"-2147483649".to_vec(), 2), Err(InputError { offset: 0 }));
    assert_eq!(external_sort(b"5 - 6".to_vec(), 2), Err(InputError { offset: 2 }));
    assert_eq!(external_sort(b"5 +6".to_vec(), 2), Err(InputError { offset: 2 }));
    assert_eq!(external_sort(b"4 1-2".to_vec(), 2), Err(InputError { offset: 2 }));
}

#[test]
fn two_way_merge_keeps_every_record() {
    let a = vec![1, 3, 3, 9];
    let b = vec![2, 3, 10];
    assert_eq!(perform_2_way_merge(&a, &b), vec![1, 2, 3, 3, 3, 9, 10]);
    assert_eq!(perform_2_way_merge(&Vec::new(), &b), b);
}

#[test]
fn each_run_starts_below_the_last_record_before() {
    let input = vec![3, 1, 4, 1, 5, 9, 2, 6, 5, 3, 5, 8, 9, 7, 9, 3, 2, 3, 8, 4];
    let runs = runs_of(input, 3);
    assert!(runs.len() >= 2);
    for pair in runs.windows(2) {
        assert!(pair[1][0] < *pair[0].last().expect("non-empty"));
    }
}
