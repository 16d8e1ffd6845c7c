use pot2dict::arena::arena_pool;
use pot2dict::codec::RunReader;
use pot2dict::chunk::split_into_chunks;
use pot2dict::count::{collect_arena, count_batch, count_chunk, count_chunk_arena};
use pot2dict::dedup::{merge_dedup_group, stream_merge_and_write};
use pot2dict::external::external_sort_spilled_runs;
use pot2dict::fast_map::{add_count, FastMap};
use pot2dict::heap::MergeOrder;
use pot2dict::index::{
    absorb, absorb_arena, fold_into_dashmap, fold_into_dashmap_arena, CountingIndex,
    FinalizedResult, SpillJob,
};
use pot2dict::merge::RunMerger;
use pot2dict::output::write_lines;
use pot2dict::sort::{merge_sorted_and_write, sort_records};
use pot2dict::spill::{sort_entries, write_entries_to_temp, write_records_to_temp};
use tempfile::{NamedTempFile, TempPath};

fn entry(pw: &[u8], n: u64) -> (Vec<u8>, u64) {
    (pw.to_vec(), n)
}

fn some_path() -> TempPath {
    NamedTempFile::new().unwrap().into_temp_path()
}

fn in_memory(index: CountingIndex, mode: &str) -> (u64, Vec<u8>, Vec<i64>) {
    match index.finalize(mode, Vec::new()) {
        FinalizedResult::InMemory(unique, mut records) => {
            sort_records(&mut records);
            let mut out = Vec::new();
            write_lines(&records, 0, &mut out, usize::MAX);
            (unique, out, records.iter().map(|r| r.key).collect())
        }
        FinalizedResult::Spilled { .. } => panic!("nothing was spilled"),
    }
}

#[test]
fn empty_index_has_no_passwords() {
    let index = CountingIndex::new(100);
    assert_eq!(in_memory(index, "unique"), (0, vec![], vec![]));
}

#[test]
fn folding_adds_counts_up() {
    let mut index = CountingIndex::new(usize::MAX);
    fold_into_dashmap(&mut index, count_chunk(b"a\nb\na\n", false));
    fold_into_dashmap(&mut index, count_chunk(b"b\nc\na\n", false));
    fold_into_dashmap(&mut index, FastMap::new());
    assert_eq!(
        in_memory(index, "frequency"),
        (3, b"a\nb\nc\n".to_vec(), vec![-3, -2, -1])
    );
}

#[test]
fn unique_mode_ignores_counts() {
    let mut index = CountingIndex::new(usize::MAX);
    fold_into_dashmap(&mut index, count_chunk(b"zz\nzz\nmm\naa\n", false));
    assert_eq!(in_memory(index, "unique"), (3, b"aa\nmm\nzz\n".to_vec(), vec![0, 0, 0]));
}

#[test]
fn equally_common_passwords_come_in_rising_order() {
    let mut index = CountingIndex::new(usize::MAX);
    fold_into_dashmap(&mut index, count_chunk(b"d\nc\nb\nb\na\na\n", false));
    assert_eq!(in_memory(index, "frequency").1, b"a\nb\nc\nd\n".to_vec());
}

#[test]
fn arena_counts_fold_too() {
    let pool = arena_pool(2);
    let mut index = CountingIndex::new(usize::MAX);
    fold_into_dashmap_arena(&mut index, count_chunk_arena(b"x\ny\nx\n", false, &pool).map);
    fold_into_dashmap(&mut index, count_chunk(b"x\n", false));
    assert_eq!(in_memory(index, "frequency"), (2, b"x\ny\n".to_vec(), vec![-3, -1]));
}

#[test]
fn index_spills_only_at_its_budget() {
    let mut index = CountingIndex::new(3 * (1 + 48));
    fold_into_dashmap(&mut index, count_chunk(b"a\nb\na\n", false));
    assert!(index.maybe_spill().is_none());
    fold_into_dashmap(&mut index, count_chunk(b"a\nc\n", false));
    let job = index.maybe_spill().unwrap();
    let mut entries = job.entries;
    sort_entries(&mut entries);
    assert_eq!(entries, vec![entry(b"a", 3), entry(b"b", 1), entry(b"c", 1)]);
    assert_eq!(job.run_number, 1);
    assert!(index.maybe_spill().is_none());
    fold_into_dashmap(&mut index, count_chunk(b"d\ne\nf\n", false));
    assert_eq!(index.maybe_spill().unwrap().run_number, 2);
}

#[test]
fn empty_index_does_not_spill() {
    let mut index = CountingIndex::new(0);
    assert!(index.maybe_spill().is_none());
    fold_into_dashmap(&mut index, count_chunk(b"a\n", false));
    assert!(index.maybe_spill().is_some());
    assert!(index.maybe_spill().is_none());
}

#[test]
fn what_is_left_after_spills_becomes_the_last_run() {
    let mut index = CountingIndex::new(usize::MAX);
    fold_into_dashmap(&mut index, count_chunk(b"b\na\nb\n", false));
    match index.finalize("frequency", vec![some_path(), some_path()]) {
        FinalizedResult::Spilled { runs, last_run, sort_mode } => {
            assert_eq!(runs.len(), 2);
            assert_eq!(last_run, Some(vec![entry(b"a", 1), entry(b"b", 2)]));
            assert_eq!(sort_mode, "frequency");
        }
        FinalizedResult::InMemory(..) => panic!("there are spilled runs"),
    }
    match CountingIndex::new(1).finalize("unique", vec![some_path()]) {
        FinalizedResult::Spilled { runs, last_run, sort_mode } => {
            assert_eq!(runs.len(), 1);
            assert_eq!(last_run, None);
            assert_eq!(sort_mode, "unique");
        }
        FinalizedResult::InMemory(..) => panic!("there are spilled runs"),
    }
}

fn spilled_runs(data: &[&[u8]], budget: usize) -> Vec<Vec<u8>> {
    let mut index = CountingIndex::new(budget);
    let mut runs = Vec::new();
    for part in data {
        fold_into_dashmap(&mut index, count_chunk(part, false));
        if let Some(SpillJob { entries, .. }) = index.maybe_spill() {
            let mut entries = entries;
            sort_entries(&mut entries);
            let mut run = Vec::new();
            write_entries_to_temp(&entries, false, &mut run);
            runs.push(run);
        }
    }
    if let FinalizedResult::Spilled { last_run: Some(entries), .. } =
        index.finalize("unique", vec![some_path()])
    {
        let mut run = Vec::new();
        write_entries_to_temp(&entries, false, &mut run);
        runs.push(run);
    }
    runs
}

fn merger<'a>(order: MergeOrder, runs: &[&'a [u8]]) -> RunMerger<'a> {
    match RunMerger::new(order, runs) {
        Ok(m) => m,
        Err(e) => panic!("{:?}", e),
    }
}

const DATA: [&[u8]; 4] = [b"p\nq\nh:p\n", b"r\nq\n", b"p\ns\nt\n", b"q\n"];

#[test]
fn spilling_does_not_change_the_unique_dictionary() {
    let mut whole = CountingIndex::new(usize::MAX);
    for part in DATA {
        fold_into_dashmap(&mut whole, count_chunk(part, false));
    }
    let (unique, expected, _) = in_memory(whole, "unique");
    for budget in [0, 1, 60, 150, 1000] {
        let runs = spilled_runs(&DATA, budget);
        let parts: Vec<&[u8]> = runs.iter().map(|r| &r[..]).collect();
        let mut m = merger(MergeOrder::ByPassword, &parts);
        let mut out = Vec::new();
        let p = stream_merge_and_write(&mut m, &mut out, usize::MAX).unwrap();
        assert_eq!(p.records as u64, unique);
        assert_eq!(out, expected);
    }
}

#[test]
fn spilling_does_not_change_the_dictionary_by_frequency() {
    let mut whole = CountingIndex::new(usize::MAX);
    for part in DATA {
        fold_into_dashmap(&mut whole, count_chunk(part, false));
    }
    let (_, expected, keys) = in_memory(whole, "frequency");
    assert_eq!(expected, b"p\nq\nr\ns\nt\n".to_vec());
    assert_eq!(keys, vec![-3, -3, -1, -1, -1]);
    for budget in [0, 60, 150] {
        let runs = spilled_runs(&DATA, budget);
        let parts: Vec<&[u8]> = runs.iter().map(|r| &r[..]).collect();
        let mut m = merger(MergeOrder::ByPassword, &parts);
        let mut merged = Vec::new();
        merge_dedup_group(&mut m, true, &mut merged, usize::MAX).unwrap();
        for max_mem in [0, 1, 50, 500] {
            let mut sort = match external_sort_spilled_runs(&merged, max_mem) {
                Ok(s) => s,
                Err(e) => panic!("{:?}", e),
            };
            let mut pieces = Vec::new();
            while let Ok(Some(piece)) = sort.next_piece() {
                let mut out = Vec::new();
                write_records_to_temp(&piece.records, &mut out);
                pieces.push(out);
            }
            let parts: Vec<&[u8]> = pieces.iter().map(|r| &r[..]).collect();
            let mut m = merger(MergeOrder::ByRecord, &parts);
            let mut out = Vec::new();
            merge_sorted_and_write(&mut m, &mut out, usize::MAX).unwrap();
            assert_eq!(out, expected);
        }
    }
}

#[test]
fn dictionary_reads_back_as_input() {
    let data = b"h:one\nh2:two\r\none\nthree:\nfour";
    for keep in [false, true] {
        let mut index = CountingIndex::new(usize::MAX);
        fold_into_dashmap(&mut index, count_chunk(data, keep));
        let (_, once, _) = in_memory(index, "unique");
        let mut again = CountingIndex::new(usize::MAX);
        fold_into_dashmap(&mut again, count_chunk(&once, keep));
        assert_eq!(in_memory(again, "unique").1, once);
    }
}

#[test]
fn absorbing_adds_and_spills() {
    let mut index = CountingIndex::new(2 * 49);
    assert!(absorb(&mut index, count_chunk(b"a\na\n", false)).is_none());
    let pool = arena_pool(1);
    let maps = vec![
        count_chunk_arena(b"a\n", false, &pool).map,
        count_chunk_arena(b"b\n", false, &pool).map,
    ];
    let job = absorb_arena(&mut index, maps).unwrap();
    let mut entries = job.entries;
    sort_entries(&mut entries);
    assert_eq!(entries, vec![entry(b"a", 3), entry(b"b", 1)]);
    assert_eq!(job.run_number, 1);
    assert!(absorb_arena(&mut index, Vec::new()).is_none());
    assert_eq!(in_memory(index, "unique").0, 0);
}

#[test]
fn counts_over_all_runs_are_those_that_were_folded_in() {
    for budget in [0, 60, 150, 1000] {
        let mut total = FastMap::new();
        for run in spilled_runs(&DATA, budget) {
            let mut reader = RunReader::new(&run);
            let mut last: Option<Vec<u8>> = None;
            while let Ok(Some(rec)) = reader.read_record() {
                assert!(rec.key > 0);
                assert!(last < Some(rec.pw.clone()));
                add_count(&mut total, &rec.pw, rec.key as u64);
                last = Some(rec.pw);
            }
        }
        let mut entries = total.into_entries();
        sort_entries(&mut entries);
        assert_eq!(
            entries,
            vec![entry(b"p", 3), entry(b"q", 3), entry(b"r", 1), entry(b"s", 1), entry(b"t", 1)]
        );
    }
}

#[test]
fn arenas_batches_and_spills_do_not_change_the_counts() {
    let data = b"h:one\ntwo\nh:one\nthree\nh:two\r\none\n";
    let chunks = split_into_chunks(data, 5);
    let pool = arena_pool(2);
    for budget in [0, 100, usize::MAX] {
        for batch in 1..chunks.len() + 1 {
            for use_arena in [false, true] {
                let mut index = CountingIndex::new(budget);
                let mut total = FastMap::new();
                let mut lines = 0;
                for part in chunks.chunks(batch) {
                    let job = if use_arena {
                        let counted: Vec<_> = part
                            .iter()
                            .map(|chunk| count_chunk_arena(chunk, false, &pool))
                            .collect();
                        let distinct: u64 = counted.iter().map(|c| c.copies).sum();
                        let counted = collect_arena(counted);
                        assert_eq!(counted.copies, distinct);
                        assert_eq!(counted.maps.len(), part.len());
                        lines += counted.lines;
                        absorb_arena(&mut index, counted.maps)
                    } else {
                        let (map, n) = count_batch(part, false);
                        lines += n;
                        absorb(&mut index, map)
                    };
                    if let Some(job) = job {
                        for (pw, n) in job.entries {
                            add_count(&mut total, &pw, n);
                        }
                    }
                }
                if let FinalizedResult::InMemory(_, records) =
                    index.finalize("frequency", Vec::new())
                {
                    for r in records {
                        add_count(&mut total, &r.pw, -r.key as u64);
                    }
                }
                let mut entries = total.into_entries();
                sort_entries(&mut entries);
                assert_eq!(lines, 6);
                assert_eq!(
                    entries,
                    vec![entry(b"one", 3), entry(b"three", 1), entry(b"two", 2)]
                );
            }
        }
    }
}
