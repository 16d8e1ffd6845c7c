use pot2dict::codec::{
    append_record, count_records, count_records_in_runs, record_encoded_len, write_record, RunError,
    RunReader,
};
use pot2dict::dedup::{merge_dedup_group, stream_merge_and_write, Progress};
use pot2dict::heap::MergeOrder;
use pot2dict::merge::RunMerger;
use pot2dict::record::Record;
use pot2dict::sort::merge_sorted_and_write;
use pot2dict::spill::{write_entries_to_temp, write_records_to_temp};

fn run(entries: &[(&[u8], u64)]) -> Vec<u8> {
    let owned: Vec<(Vec<u8>, u64)> = entries.iter().map(|e| (e.0.to_vec(), e.1)).collect();
    let mut out = Vec::new();
    write_entries_to_temp(&owned, false, &mut out);
    out
}

fn merger<'a>(order: MergeOrder, runs: &[&'a [u8]]) -> RunMerger<'a> {
    match RunMerger::new(order, runs) {
        Ok(m) => m,
        Err(e) => panic!("{:?}", e),
    }
}

#[test]
fn record_layout() {
    let mut out = Vec::new();
    append_record(&mut out, -2, b"pw");
    assert_eq!(
        out,
        vec![0xfe, 0xff, 0xff, 0xff, 0xff, 0xff, 0xff, 0xff, 2, 0, 0, 0, b'p', b'w']
    );
    assert_eq!(record_encoded_len(2), out.len());
}

#[test]
fn records_read_back() {
    let records = vec![
        Record::new(i64::MIN, b"".to_vec()),
        Record::new(0x0102_0304_0506_0708, b"x:y\n".to_vec()),
        Record::new(-1, vec![7; 300]),
    ];
    let mut out = Vec::new();
    for r in &records {
        write_record(&mut out, r);
    }
    let mut all = Vec::new();
    write_records_to_temp(&records, &mut all);
    assert_eq!(out, all);
    assert_eq!(count_records(&out), 3);
    let mut reader = RunReader::new(&out);
    for r in &records {
        let read = reader.read_record().unwrap().unwrap();
        assert_eq!(read.key, r.key);
        assert_eq!(read.pw, r.pw);
        assert!(read == *r);
    }
    assert_eq!(reader.read_record().unwrap().is_none(), true);
}

#[test]
fn cut_short_record_is_an_error() {
    let full = run(&[(b"abc", 1)]);
    for len in 0..full.len() {
        let mut reader = RunReader::new(&full[..len]);
        match reader.read_record() {
            Ok(None) => assert!(len < 8),
            Ok(Some(_)) => panic!("read a record that is not there"),
            Err(RunError::UnexpectedEof) => assert!(len >= 8),
        }
    }
}

#[test]
fn headers_are_counted_over_all_runs() {
    let a = run(&[(b"a", 1), (b"b", 2)]);
    let b = run(&[(b"b", 3), (b"c", 4), (b"d", 5)]);
    assert_eq!(count_records_in_runs(&[&a[..], &b[..], &[][..]]), 5);
    assert_eq!(count_records(&a[..a.len() - 1]), 2);
    assert_eq!(count_records(&a[..a.len() - 2]), 1);
}

#[test]
fn merging_adds_counts_of_equal_passwords() {
    let a = run(&[(b"a", 1), (b"c", 10)]);
    let b = run(&[(b"a", 2), (b"b", 5), (b"c", 20)]);
    let c = run(&[(b"c", 30)]);
    let mut m = merger(MergeOrder::ByPassword, &[&a[..], &b[..], &c[..]]);
    let mut out = Vec::new();
    let p = merge_dedup_group(&mut m, false, &mut out, usize::MAX).unwrap();
    assert_eq!(p, Progress { records: 3, done: true });
    assert_eq!(out, run(&[(b"a", 3), (b"b", 5), (b"c", 60)]));
}

#[test]
fn merging_can_negate_counts() {
    let a = run(&[(b"a", 1)]);
    let b = run(&[(b"a", 2)]);
    let mut m = merger(MergeOrder::ByPassword, &[&a[..], &b[..]]);
    let mut out = Vec::new();
    merge_dedup_group(&mut m, true, &mut out, usize::MAX).unwrap();
    let mut reader = RunReader::new(&out);
    assert_eq!(reader.read_record().unwrap().unwrap().key, -3);
}

#[test]
fn merging_in_groups_first_changes_nothing() {
    let runs = [
        run(&[(b"a", 1), (b"d", 2)]),
        run(&[(b"b", 3), (b"d", 4)]),
        run(&[(b"a", 5), (b"c", 6)]),
        run(&[(b"d", 7)]),
    ];
    let all: Vec<&[u8]> = runs.iter().map(|r| &r[..]).collect();
    let mut direct = Vec::new();
    let mut m = merger(MergeOrder::ByPassword, &all);
    merge_dedup_group(&mut m, false, &mut direct, usize::MAX).unwrap();
    let mut grouped = Vec::new();
    for pair in all.chunks(2) {
        let mut out = Vec::new();
        let mut m = merger(MergeOrder::ByPassword, pair);
        merge_dedup_group(&mut m, false, &mut out, usize::MAX).unwrap();
        grouped.push(out);
    }
    let parts: Vec<&[u8]> = grouped.iter().map(|r| &r[..]).collect();
    let mut m = merger(MergeOrder::ByPassword, &parts);
    let mut out = Vec::new();
    merge_dedup_group(&mut m, false, &mut out, usize::MAX).unwrap();
    assert_eq!(out, direct);
    assert_eq!(out, run(&[(b"a", 6), (b"b", 3), (b"c", 6), (b"d", 13)]));
}

#[test]
fn merged_passwords_stream_out_in_pieces() {
    let a = run(&[(b"aa", 1), (b"cc", 1)]);
    let b = run(&[(b"aa", 1), (b"bb", 1)]);
    let mut m = merger(MergeOrder::ByPassword, &[&a[..], &b[..]]);
    let mut text = Vec::new();
    let mut total = 0;
    loop {
        let mut out = Vec::new();
        let p = stream_merge_and_write(&mut m, &mut out, 4).unwrap();
        assert!(out.len() < 7);
        text.extend_from_slice(&out);
        total += p.records;
        if p.done {
            break;
        }
    }
    assert_eq!(text, b"aa\nbb\ncc\n".to_vec());
    assert_eq!(total, 3);
}

#[test]
fn no_runs_merge_to_nothing() {
    let mut m = merger(MergeOrder::ByPassword, &[]);
    let mut out = Vec::new();
    let p = stream_merge_and_write(&mut m, &mut out, usize::MAX).unwrap();
    assert_eq!(p, Progress { records: 0, done: true });
    assert!(out.is_empty());
}

#[test]
fn damaged_run_stops_the_merge() {
    let a = run(&[(b"a", 1), (b"b", 1), (b"c", 1)]);
    let b = run(&[(b"a", 1), (b"z", 1)]);
    let cut = &a[..a.len() - 1];
    let mut m = merger(MergeOrder::ByPassword, &[cut, &b[..]]);
    let mut out = Vec::new();
    let r = stream_merge_and_write(&mut m, &mut out, usize::MAX);
    assert_eq!(r, Err(RunError::UnexpectedEof));
    assert_eq!(out, b"a\n".to_vec());
    match RunMerger::new(MergeOrder::ByPassword, &[&b[..], &b[..9]]) {
        Ok(_) => panic!("the second run has no whole record"),
        Err(e) => assert_eq!(e, RunError::UnexpectedEof),
    }
}

#[test]
fn sorted_runs_merge_in_record_order() {
    let mut a = Vec::new();
    append_record(&mut a, -5, b"m");
    append_record(&mut a, -1, b"a");
    let mut b = Vec::new();
    append_record(&mut b, -5, b"b");
    append_record(&mut b, -5, b"m");
    append_record(&mut b, 0, b"");
    let mut m = merger(MergeOrder::ByRecord, &[&a[..], &b[..]]);
    let mut out = Vec::new();
    let p = merge_sorted_and_write(&mut m, &mut out, usize::MAX).unwrap();
    assert_eq!(p, Progress { records: 5, done: true });
    assert_eq!(out, b"b\nm\nm\na\n\n".to_vec());
}

#[test]
fn record_before_damage_is_still_written() {
    let mut a = Vec::new();
    append_record(&mut a, 1, b"a");
    append_record(&mut a, 2, b"b");
    let cut = &a[..a.len() - 1];
    let mut m = merger(MergeOrder::ByRecord, &[cut]);
    let mut out = Vec::new();
    assert_eq!(
        merge_sorted_and_write(&mut m, &mut out, usize::MAX),
        Err(RunError::UnexpectedEof)
    );
    assert_eq!(out, b"a\n".to_vec());
}

#[test]
fn headers_bound_the_distinct_passwords() {
    let a = run(&[(b"a", 1), (b"b", 1)]);
    let b = run(&[(b"b", 1), (b"c", 1)]);
    let mut m = merger(MergeOrder::ByPassword, &[&a[..], &b[..]]);
    let mut out = Vec::new();
    let p = stream_merge_and_write(&mut m, &mut out, usize::MAX).unwrap();
    assert_eq!(p.records, 3);
    assert_eq!(count_records_in_runs(&[&a[..], &b[..]]), 4);
}

#[test]
fn headers_count_distinct_passwords_if_none_is_repeated() {
    let a = run(&[(b"a", 1), (b"c", 1)]);
    let b = run(&[(b"b", 1)]);
    let mut m = merger(MergeOrder::ByPassword, &[&a[..], &b[..]]);
    let mut out = Vec::new();
    let p = stream_merge_and_write(&mut m, &mut out, usize::MAX).unwrap();
    assert_eq!(p.records, 3);
    assert_eq!(count_records_in_runs(&[&a[..], &b[..]]), 3);
    assert_eq!(count_records_in_runs(&[]), 0);
}

#[test]
fn damage_is_met_however_the_merge_is_driven() {
    let a = run(&[(b"a", 1), (b"b", 1), (b"c", 1)]);
    let b = run(&[(b"a", 1), (b"z", 1)]);
    for limit in [1, 2, 3, 100] {
        let mut m = merger(MergeOrder::ByPassword, &[&b[..], &a[..a.len() - 1]]);
        let failed = loop {
            let mut out = Vec::new();
            match stream_merge_and_write(&mut m, &mut out, limit) {
                Ok(p) => {
                    if p.done {
                        break false;
                    }
                }
                Err(RunError::UnexpectedEof) => break true,
            }
        };
        assert!(failed);
    }
}
