use std::cmp::Ordering;

use pot2dict::codec::{RunError, RunReader};
use pot2dict::external::{external_sort_spilled_runs, plan_chunks, read_sorted_chunk};
use pot2dict::heap::MergeOrder;
use pot2dict::merge::RunMerger;
use pot2dict::output::{plan_output, write_lines, OutputPlan};
use pot2dict::record::Record;
use pot2dict::sort::{
    merge_sorted_and_write, plan_sort, sort_chunks, sort_records, total_size, SortPlan,
};
use pot2dict::spill::write_records_to_temp;

fn rec(key: i64, pw: &[u8]) -> Record {
    Record::new(key, pw.to_vec())
}

fn lines(records: &[Record]) -> Vec<u8> {
    let mut out = Vec::new();
    let next = write_lines(records, 0, &mut out, usize::MAX);
    assert_eq!(next, records.len());
    out
}

fn sample() -> Vec<Record> {
    vec![
        rec(-1, b"pear"),
        rec(-7, b"zoo"),
        rec(-1, b"apple"),
        rec(-3, b"kiwi"),
        rec(-7, b"ant"),
        rec(0, b""),
        rec(-3, b"kiwi"),
    ]
}

fn merge_runs(runs: &[Vec<u8>]) -> Vec<u8> {
    let parts: Vec<&[u8]> = runs.iter().map(|r| &r[..]).collect();
    let mut m = match RunMerger::new(MergeOrder::ByRecord, &parts) {
        Ok(m) => m,
        Err(e) => panic!("{:?}", e),
    };
    let mut out = Vec::new();
    merge_sorted_and_write(&mut m, &mut out, usize::MAX).unwrap();
    out
}

#[test]
fn records_are_ordered_by_key_then_password() {
    assert_eq!(rec(1, b"a").cmp(&rec(2, b"a")), Ordering::Less);
    assert_eq!(rec(1, b"b").cmp(&rec(1, b"a")), Ordering::Greater);
    assert_eq!(rec(1, b"a").cmp(&rec(1, b"ab")), Ordering::Less);
    assert_eq!(rec(1, b"a").cmp(&rec(1, b"a")), Ordering::Equal);
    assert!(rec(-1, b"z") < rec(0, b"a"));
    assert!(rec(1, &[200]) > rec(1, &[100]));
    assert!(rec(1, b"a") != rec(1, b"b"));
}

#[test]
fn sorting_puts_the_most_common_first() {
    let mut records = sample();
    sort_records(&mut records);
    assert_eq!(lines(&records), b"ant\nzoo\nkiwi\nkiwi\napple\npear\n\n".to_vec());
}

#[test]
fn sorting_in_chunks_gives_the_same_dictionary() {
    let mut whole = sample();
    sort_records(&mut whole);
    let expected = lines(&whole);
    for chunk_len in 1..9 {
        let mut records = sample();
        let cuts = sort_chunks(&mut records, chunk_len);
        assert_eq!(cuts[0], 0);
        assert_eq!(*cuts.last().unwrap(), 7);
        let mut runs = Vec::new();
        for w in cuts.windows(2) {
            assert_eq!(w[1] - w[0], chunk_len.min(7 - w[0]));
            let mut run = Vec::new();
            write_records_to_temp(&records[w[0]..w[1]], &mut run);
            runs.push(run);
        }
        assert_eq!(merge_runs(&runs), expected);
    }
}

#[test]
fn no_records_are_no_chunks() {
    let mut records = Vec::new();
    assert_eq!(sort_chunks(&mut records, 5), vec![0]);
}

#[test]
fn sizes_add_up() {
    assert_eq!(total_size(&sample(), 40), Some(4 + 3 + 5 + 4 + 3 + 0 + 4 + 7 * 40));
    assert_eq!(total_size(&sample(), usize::MAX), None);
    assert_eq!(total_size(&[], usize::MAX), Some(0));
}

#[test]
fn sort_plan_goes_by_the_estimate() {
    assert_eq!(plan_sort(&sample(), 303), Some((303, SortPlan::InMemory)));
    assert_eq!(plan_sort(&sample(), 302), Some((303, SortPlan::Spill { chunk_len: 20 })));
    assert_eq!(plan_sort(&sample(), 31), Some((303, SortPlan::Spill { chunk_len: 2 })));
    assert_eq!(plan_sort(&sample(), 0), Some((303, SortPlan::Spill { chunk_len: 1 })));
}

#[test]
fn sort_plan_limits_the_number_of_runs() {
    let records: Vec<Record> = (0..1025).map(|i| rec(i, b"pw")).collect();
    let plan = plan_sort(&records, 1);
    assert_eq!(plan, Some((1025 * 42, SortPlan::Spill { chunk_len: 3 })));
    let mut records = records;
    let cuts = sort_chunks(&mut records, 3);
    assert!(cuts.len() - 1 <= 512);
    assert_eq!(cuts.len() - 1, 342);
}

#[test]
fn output_is_streamed_unless_it_is_large() {
    let streamed = OutputPlan::Streamed { sort: SortPlan::InMemory };
    assert_eq!(plan_output(&sample(), true, true, 1000), Some((303, streamed)));
    assert_eq!(plan_output(&sample(), false, false, 303), Some((303, streamed)));
    assert_eq!(
        plan_output(&sample(), true, true, 302),
        Some((303, OutputPlan::Streamed { sort: SortPlan::Spill { chunk_len: 20 } }))
    );
}

#[test]
fn lines_are_written_up_to_a_limit() {
    let records = sample();
    let mut out = Vec::new();
    let next = write_lines(&records, 0, &mut out, 6);
    assert_eq!((next, &out[..]), (2, &b"pear\nzoo\n"[..]));
    out.clear();
    let next = write_lines(&records, next, &mut out, 1);
    assert_eq!((next, &out[..]), (3, &b"apple\n"[..]));
    let same = write_lines(&records, 3, &mut out, 0);
    assert_eq!(same, 3);
}

#[test]
fn chunks_of_a_run_fit_the_budget() {
    let mut run = Vec::new();
    write_records_to_temp(&[rec(-1, b"abcdefgh"), rec(-2, b"b")], &mut run);
    assert_eq!(plan_chunks(&run, 100), Ok(3));
    assert_eq!(plan_chunks(&run, 31), Ok(1));
    assert_eq!(plan_chunks(&[], 64), Ok(2));
    assert_eq!(plan_chunks(&run[..9], 64), Err(RunError::UnexpectedEof));
}

#[test]
fn external_sort_gives_the_dictionary_of_an_in_memory_sort() {
    let mut whole = sample();
    sort_records(&mut whole);
    let expected = lines(&whole);
    let mut run = Vec::new();
    write_records_to_temp(&sample(), &mut run);
    for max_mem in [0, 1, 28, 29, 60, 100, 1000] {
        let mut sort = match external_sort_spilled_runs(&run, max_mem) {
            Ok(s) => s,
            Err(e) => panic!("{:?}", e),
        };
        let mut runs = Vec::new();
        while let Ok(Some(piece)) = sort.next_piece() {
            let mut out = Vec::new();
            write_records_to_temp(&piece.records, &mut out);
            runs.push(out);
        }
        assert_eq!(merge_runs(&runs), expected);
    }
}

#[test]
fn external_sort_without_budget_has_a_piece_for_each_record() {
    let mut run = Vec::new();
    write_records_to_temp(&sample(), &mut run);
    let mut sort = match external_sort_spilled_runs(&run, 0) {
        Ok(s) => s,
        Err(e) => panic!("{:?}", e),
    };
    for r in sample() {
        match sort.next_piece() {
            Ok(Some(piece)) => {
                assert_eq!(piece.records.len(), 1);
                assert!(piece.records[0] == r);
            }
            _ => panic!("every record is in a piece"),
        }
    }
    assert!(matches!(sort.next_piece(), Ok(None)));
}

#[test]
fn pieces_say_how_much_memory_they_need() {
    let mut run = Vec::new();
    write_records_to_temp(&[rec(2, b"abc"), rec(1, b"d")], &mut run);
    let mut reader = RunReader::new(&run);
    match read_sorted_chunk(&mut reader, 10, 1000) {
        Ok(chunk) => {
            assert_eq!(chunk.bytes, 27 + 25);
            assert_eq!(lines(&chunk.records), b"d\nabc\n".to_vec());
        }
        Err(e) => panic!("{:?}", e),
    }
}

#[test]
fn external_sort_reports_a_damaged_run() {
    let mut run = Vec::new();
    write_records_to_temp(&[rec(2, b"abc"), rec(1, b"d")], &mut run);
    let cut = &run[..run.len() - 1];
    match external_sort_spilled_runs(cut, 1000) {
        Ok(mut sort) => match sort.next_piece() {
            Err(e) => assert_eq!(e, RunError::UnexpectedEof),
            Ok(_) => panic!("the run is cut short"),
        },
        Err(e) => panic!("{:?}", e),
    }
    match external_sort_spilled_runs(cut, 0) {
        Ok(mut sort) => {
            assert!(matches!(sort.next_piece(), Ok(Some(_))));
            assert!(matches!(sort.next_piece(), Err(RunError::UnexpectedEof)));
        }
        Err(e) => panic!("{:?}", e),
    }
    match external_sort_spilled_runs(&run[..8], 1000) {
        Err(e) => assert_eq!(e, RunError::UnexpectedEof),
        Ok(_) => panic!("the run has no whole record"),
    }
}
