use pot2dict::disk::{
    available_space_for, disks_are_stale, ensure_disk_space, input_exceeds_space, recall_space,
    watchdog_threshold, watchdog_warns, KnownSpace, MergeWatch, Mount, SpaceVerdict,
};
use pot2dict::options::{
    answered_sort_mode, counting_budget, flagged_sort_mode, interactive_choice, is_yes,
    reads_files_in_parallel,
};
use pot2dict::premerge::{group_runs, parallel_merge_counting_runs, Grouping};
use pot2dict::threads::{batch_size, batch_size_for, spill_writer_threads, spill_writers};

const GIB: u64 = 1024 * 1024 * 1024;

#[test]
fn few_runs_are_kept() {
    for (n, threads) in [(0, 4), (7, 4), (100, 1), (100, 0), (3, usize::MAX)] {
        let runs: Vec<usize> = (0..n).collect();
        match group_runs(runs.clone(), threads) {
            Grouping::Keep(kept) => assert_eq!(kept, runs),
            Grouping::Groups(_) => panic!("grouping does not help"),
        }
    }
}

#[test]
fn many_runs_are_grouped() {
    match group_runs((0..9).collect::<Vec<usize>>(), 4) {
        Grouping::Groups(groups) => {
            assert_eq!(groups, vec![vec![0, 1, 2], vec![3, 4, 5], vec![6, 7, 8]])
        }
        Grouping::Keep(_) => panic!("there are two runs for each thread"),
    }
    match group_runs((0..8).collect::<Vec<usize>>(), 4) {
        Grouping::Groups(groups) => {
            assert_eq!(groups, vec![vec![0, 1], vec![2, 3], vec![4, 5], vec![6, 7]])
        }
        Grouping::Keep(_) => panic!("there are two runs for each thread"),
    }
}

#[test]
fn grouping_loses_no_run() {
    for n in 0..40 {
        let runs: Vec<usize> = (0..n).collect();
        let back = match parallel_merge_counting_runs(runs.clone()) {
            Grouping::Keep(kept) => kept,
            Grouping::Groups(groups) => {
                assert!(groups.len() >= 2);
                groups.into_iter().flatten().collect()
            }
        };
        assert_eq!(back, runs);
    }
}

#[test]
fn spill_writers_are_a_quarter_of_the_threads() {
    assert_eq!(spill_writers(0), 2);
    assert_eq!(spill_writers(8), 2);
    assert_eq!(spill_writers(12), 3);
    assert_eq!(spill_writers(35), 8);
    assert_eq!(spill_writers(1000), 8);
    assert_eq!(spill_writer_threads(), spill_writers(rayon::current_num_threads()));
}

#[test]
fn batches_have_a_chunk_for_each_thread() {
    assert_eq!(batch_size_for(None, 6), 6);
    assert_eq!(batch_size_for(None, 0), 1);
    assert_eq!(batch_size_for(Some(9), 6), 9);
    assert_eq!(batch_size_for(Some(0), 6), 1);
    assert_eq!(batch_size(Some(5)), 5);
    assert_eq!(batch_size(Some(0)), 1);
    assert_eq!(batch_size(None), rayon::current_num_threads());
}

#[test]
fn flags_choose_the_sort_mode() {
    assert_eq!(flagged_sort_mode(true, true), Some("unique"));
    assert_eq!(flagged_sort_mode(true, false), Some("unique"));
    assert_eq!(flagged_sort_mode(false, true), Some("frequency"));
    assert_eq!(flagged_sort_mode(false, false), None);
    assert_eq!(answered_sort_mode(true), "frequency");
    assert_eq!(answered_sort_mode(false), "unique");
}

#[test]
fn answers_that_mean_yes() {
    for yes in ["y", "Y\n", " yes ", "YES\r\n", "True", "1\n", "\ty", "\u{3000}yes\u{a0}\u{85}"] {
        assert!(interactive_choice(yes));
    }
    for no in ["", "\n", "n", "no", "yess", "10", "y e s", "yy", "\u{200b}yes"] {
        assert!(!interactive_choice(no));
    }
    assert!(is_yes("true"));
    assert!(!is_yes("True"));
}

#[test]
fn many_files_are_read_in_parallel() {
    assert!(!reads_files_in_parallel(false, 100));
    assert!(reads_files_in_parallel(false, 101));
    assert!(reads_files_in_parallel(true, 1));
}

#[test]
fn counting_budget_has_a_floor() {
    assert_eq!(counting_budget(None), usize::MAX);
    assert_eq!(counting_budget(Some(5)), 256 * 1024 * 1024);
    assert_eq!(counting_budget(Some(300 * 1024 * 1024)), 300 * 1024 * 1024);
}

#[test]
fn disks_are_asked_again_after_two_seconds() {
    assert!(!disks_are_stale(1_999_999_999));
    assert!(disks_are_stale(2_000_000_000));
    let fresh = KnownSpace { age_nanos: 5, available: None };
    assert_eq!(recall_space(Some(fresh)), Some(None));
    let fresh = KnownSpace { age_nanos: 1_999_999_999, available: Some(7) };
    assert_eq!(recall_space(Some(fresh)), Some(Some(7)));
    let old = KnownSpace { age_nanos: 2_000_000_000, available: Some(7) };
    assert_eq!(recall_space(Some(old)), None);
    assert_eq!(recall_space(None), None);
}

fn mount(holds_dir: bool, path_len: usize, available: u64) -> Mount {
    Mount { holds_dir, path_len, available }
}

#[test]
fn directory_is_on_the_disk_with_the_longest_path() {
    let mounts = [mount(true, 1, 10), mount(false, 9, 20), mount(true, 5, 30), mount(true, 4, 40)];
    assert_eq!(available_space_for(&mounts), Some(30));
    let ties = [mount(true, 5, 10), mount(true, 5, 20), mount(true, 1, 30)];
    assert_eq!(available_space_for(&ties), Some(20));
    assert_eq!(available_space_for(&[mount(false, 1, 1)]), None);
    assert_eq!(available_space_for(&[]), None);
}

#[test]
fn work_stops_when_space_is_short() {
    assert_eq!(ensure_disk_space(None, 100, false), SpaceVerdict::Enough);
    assert_eq!(
        ensure_disk_space(Some(99), 100, false),
        SpaceVerdict::NotEnough { available: 99 }
    );
    assert_eq!(ensure_disk_space(Some(100), 100, false), SpaceVerdict::Low { available: 100 });
    assert_eq!(ensure_disk_space(Some(200), 100, true), SpaceVerdict::Enough);
}

#[test]
fn watchdog_scales_with_the_input() {
    assert_eq!(watchdog_threshold(0), 2 * GIB);
    assert_eq!(watchdog_threshold(20 * GIB + 10), 2 * GIB + 1);
    assert!(watchdog_warns(Some(1), 2, None));
    assert!(!watchdog_warns(Some(2), 2, None));
    assert!(!watchdog_warns(None, 2, None));
    assert!(!watchdog_warns(Some(1), 2, Some(29_999_999_999)));
    assert!(watchdog_warns(Some(1), 2, Some(30_000_000_000)));
}

#[test]
fn merge_watch_warns_once_each_time_space_gets_low() {
    let mut watch = MergeWatch::new();
    assert!(!watch.observe(Some(2 * GIB)));
    assert!(watch.observe(Some(2 * GIB - 1)));
    assert!(!watch.observe(Some(1)));
    assert!(!watch.observe(None));
    assert!(!watch.observe(Some(1)));
    assert!(!watch.observe(Some(3 * GIB)));
    assert!(watch.observe(Some(1)));
}

#[test]
fn input_larger_than_the_space_is_noticed() {
    assert!(input_exceeds_space(9, 10));
    assert!(!input_exceeds_space(10, 10));
    assert!(!input_exceeds_space(0, 0));
}
