use pot2dict::layout::{
    entry_offsets, fill_entries, fill_lines, fill_records, plan_parts, put_line, put_record,
    record_offsets, Part,
};
use pot2dict::output::write_lines;
use pot2dict::record::Record;
use pot2dict::spill::{
    entries_size, plan_run, write_entries_to_temp, write_records_to_temp, RunLayout,
};

fn entries() -> Vec<(Vec<u8>, u64)> {
    vec![(b"a".to_vec(), 7), (b"".to_vec(), 1), (b"ccc".to_vec(), 1 << 40)]
}

fn records() -> Vec<Record> {
    vec![
        Record::new(-9, b"nine".to_vec()),
        Record::new(3, b"".to_vec()),
        Record::new(i64::MAX, b"max".to_vec()),
    ]
}

#[test]
fn offsets_are_running_sizes() {
    assert_eq!(entry_offsets(&entries()), Some(vec![0, 13, 25, 40]));
    assert_eq!(record_offsets(&records(), 12), Some(vec![0, 16, 28, 43]));
    assert_eq!(record_offsets(&records(), 1), Some(vec![0, 5, 6, 10]));
    assert_eq!(record_offsets(&[], 1), Some(vec![0]));
    assert_eq!(record_offsets(&records(), usize::MAX), None);
}

#[test]
fn sizes_of_entries() {
    assert_eq!(entries_size(&entries(), 12), Some(40));
    assert_eq!(entries_size(&entries(), 48), Some(148));
    assert_eq!(entries_size(&entries(), usize::MAX), None);
    assert_eq!(entries_size(&[], 48), Some(0));
}

#[test]
fn large_runs_are_mapped() {
    assert_eq!(plan_run(32 * 1024 * 1024), RunLayout::Mapped);
    assert_eq!(plan_run(32 * 1024 * 1024 - 1), RunLayout::Buffered);
}

#[test]
fn filling_in_place_is_writing() {
    for negate in [false, true] {
        let mut written = Vec::new();
        write_entries_to_temp(&entries(), negate, &mut written);
        let mut filled = vec![0xaa; 40];
        fill_entries(&entries(), negate, &mut filled);
        assert_eq!(filled, written);
    }
    let mut written = Vec::new();
    write_records_to_temp(&records(), &mut written);
    let mut filled = vec![0xaa; 43];
    fill_records(&records(), &mut filled);
    assert_eq!(filled, written);
    let mut lines = Vec::new();
    write_lines(&records(), 0, &mut lines, usize::MAX);
    let mut filled = vec![0xaa; 10];
    fill_lines(&records(), &mut filled);
    assert_eq!(filled, lines);
    assert_eq!(filled, b"nine\n\nmax\n".to_vec());
}

#[test]
fn parts_can_be_filled_apart() {
    let all = entries();
    let offsets = entry_offsets(&all).unwrap();
    let mut written = Vec::new();
    write_entries_to_temp(&all, false, &mut written);
    let mut filled = vec![0; 40];
    for i in [2, 0, 1] {
        fill_entries(&all[i..i + 1], false, &mut filled[offsets[i]..offsets[i + 1]]);
    }
    assert_eq!(filled, written);
}

#[test]
fn places_outside_stay_as_they_were() {
    let mut dst = vec![0xee; 20];
    assert_eq!(put_record(&mut dst, 3, 1, b"hi"), 17);
    assert_eq!(&dst[..3], &[0xee; 3][..]);
    assert_eq!(&dst[3..17], &[1, 0, 0, 0, 0, 0, 0, 0, 2, 0, 0, 0, b'h', b'i'][..]);
    assert_eq!(&dst[17..], &[0xee; 3][..]);
    assert_eq!(put_line(&mut dst, 0, b"x"), 2);
    assert_eq!(&dst[..3], &[b'x', b'\n', 0xee][..]);
}

#[test]
fn parts_follow_each_other() {
    let offsets = [0, 5, 6, 10, 30, 31];
    assert_eq!(
        plan_parts(&offsets, 2),
        vec![
            Part { from: 0, to: 2, bytes: 6 },
            Part { from: 2, to: 4, bytes: 24 },
            Part { from: 4, to: 5, bytes: 1 },
        ]
    );
    assert_eq!(plan_parts(&offsets, 100), vec![Part { from: 0, to: 5, bytes: 31 }]);
    assert_eq!(plan_parts(&[0], 3), vec![]);
}

#[test]
fn planned_parts_fill_the_whole() {
    let all = records();
    let offsets = record_offsets(&all, 1).unwrap();
    let mut filled = vec![0; 10];
    for part in plan_parts(&offsets, 2) {
        let start = offsets[part.from];
        fill_lines(&all[part.from..part.to], &mut filled[start..start + part.bytes]);
    }
    assert_eq!(filled, b"nine\n\nmax\n".to_vec());
}
