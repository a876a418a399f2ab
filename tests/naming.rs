use external_sort::reader::{count_elements, parse_run_id, InputError};
use external_sort::stats::{RunLengthEntry, RunStatistics};

#[test]
fn run_ids_from_file_names() {
    assert_eq!(parse_run_id("run_0.txt"), Some(0));
    assert_eq!(parse_run_id("run_12.txt"), Some(12));
    assert_eq!(parse_run_id("run_+7.txt"), Some(7));
    assert_eq!(parse_run_id("run_4294967295.txt"), Some(u32::MAX));
    assert_eq!(parse_run_id("run_4294967296.txt"), None);
    assert_eq!(parse_run_id("run_.txt"), None);
    assert_eq!(parse_run_id("run_+.txt"), None);
    assert_eq!(parse_run_id("run_-1.txt"), None);
    assert_eq!(parse_run_id("run_1a.txt"), None);
    assert_eq!(parse_run_id("run_12.csv"), None);
    assert_eq!(parse_run_id("temp_1.txt"), None);
}

#[test]
fn counts_records() {
    assert_eq!(count_elements(b" 1 2\n3 ".to_vec()), Ok(3));
    assert_eq!(count_elements(Vec::new()), Ok(0));
    assert_eq!(count_elements(b"1 2 three".to_vec()), Err(InputError { offset: 4 }));
}

#[test]
fn run_statistics_ordered_by_id() {
    let stats = RunStatistics::from_entries(vec![
        RunLengthEntry { run_id: 3, length: 8 },
        RunLengthEntry { run_id: 0, length: 5 },
        RunLengthEntry { run_id: 10, length: 2 },
        RunLengthEntry { run_id: 1, length: 9 },
    ]);
    let ids: Vec<u32> = stats.entries.iter().map(|e| e.run_id).collect();
    assert_eq!(ids, vec![0, 1, 3, 10]);
    let summary = stats.summary().expect("summary");
    assert_eq!(summary.run_count, 4);
    assert_eq!(summary.total_length, 24);
    assert_eq!(summary.min_length, 2);
    assert_eq!(summary.max_length, 9);
    assert!(RunStatistics::from_entries(Vec::new()).summary().is_none());
}
