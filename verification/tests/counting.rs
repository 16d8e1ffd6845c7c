use pot2dict::arena::{arena_alloc, arena_for, arena_pool, bump_count_arena};
use pot2dict::chunk::split_into_chunks;
use pot2dict::count::{count_batch, count_chunk, count_chunk_arena, read_file, split_line};
use pot2dict::fast_map::{add_count, bump_count, merge_counts, FastMap};

fn sorted(mut entries: Vec<(Vec<u8>, u64)>) -> Vec<(Vec<u8>, u64)> {
    entries.sort();
    entries
}

fn entry(pw: &[u8], n: u64) -> (Vec<u8>, u64) {
    (pw.to_vec(), n)
}

#[test]
fn bumping_counts_occurrences() {
    let mut map = FastMap::new();
    bump_count(&mut map, b"a");
    bump_count(&mut map, b"b");
    bump_count(&mut map, b"a");
    assert_eq!(sorted(map.into_entries()), vec![entry(b"a", 2), entry(b"b", 1)]);
}

#[test]
fn long_passwords_are_counted_too() {
    let long = vec![b'x'; 100];
    let mut map = FastMap::new();
    bump_count(&mut map, &long);
    bump_count(&mut map, &long);
    bump_count(&mut map, &long[..24]);
    assert_eq!(sorted(map.into_entries()), vec![(vec![b'x'; 24], 1), (long, 2)]);
}

#[test]
fn counts_wrap() {
    let mut map = FastMap::new();
    add_count(&mut map, b"a", u64::MAX);
    add_count(&mut map, b"a", 3);
    assert_eq!(map.into_entries(), vec![entry(b"a", 2)]);
}

#[test]
fn merging_counts_adds_them_up_and_returns_the_lines() {
    let mut map = FastMap::new();
    bump_count(&mut map, b"a");
    let mut more = FastMap::new();
    bump_count(&mut more, b"a");
    bump_count(&mut more, b"b");
    bump_count(&mut more, b"b");
    assert_eq!(merge_counts(&mut map, more), 3);
    assert_eq!(sorted(map.into_entries()), vec![entry(b"a", 2), entry(b"b", 2)]);
}

#[test]
fn chunk_is_counted_line_by_line() {
    let data = b"h1:alpha\nbeta\r\n\nh2:alpha\nh3:\ngamma";
    let map = count_chunk(data, false);
    assert_eq!(
        sorted(map.into_entries()),
        vec![entry(b"alpha", 2), entry(b"beta", 1), entry(b"gamma", 1)]
    );
    let map = count_chunk(data, true);
    assert_eq!(
        sorted(map.into_entries()),
        vec![entry(b"alpha", 2), entry(b"beta", 1), entry(b"gamma", 1), entry(b"h3:", 1)]
    );
}

#[test]
fn empty_chunk_has_no_counts() {
    assert!(count_chunk(b"", false).into_entries().is_empty());
    assert!(count_chunk(b"\n\n\r\n", true).into_entries().is_empty());
}

#[test]
fn line_is_split_off_at_the_line_feed() {
    assert_eq!(split_line(b"ab\ncd\n"), (&b"ab"[..], &b"cd\n"[..]));
    assert_eq!(split_line(b"ab"), (&b"ab"[..], &b""[..]));
    assert_eq!(split_line(b"\nab"), (&b""[..], &b"ab"[..]));
}

#[test]
fn arena_counts_agree_with_map_counts() {
    let data = b"h1:alpha\nbeta\r\nh2:alpha\nh3:\ngamma";
    let pool = arena_pool(3);
    assert_eq!(pool.len(), 3);
    let counted = count_chunk_arena(data, true, &pool);
    assert_eq!(counted.copies, 4);
    assert_eq!(counted.lines, 5);
    assert_eq!(
        sorted(counted.map.into_entries()),
        sorted(count_chunk(data, true).into_entries())
    );
}

#[test]
fn arena_keeps_copies() {
    let pool = arena_pool(0);
    assert_eq!(pool.len(), 1);
    let kept = {
        let bytes = vec![1u8, 2, 3];
        arena_alloc(&pool, &bytes)
    };
    assert_eq!(kept, &[1u8, 2, 3][..]);
    let mut counted = count_chunk_arena(b"x\n", false, &pool);
    assert!(!bump_count_arena(&mut counted.map, &pool, b"x"));
    assert!(bump_count_arena(&mut counted.map, &pool, b"y"));
    assert_eq!(sorted(counted.map.into_entries()), vec![entry(b"x", 2), entry(b"y", 1)]);
}

#[test]
fn threads_share_arenas_in_turn() {
    assert_eq!(arena_for(None, 4), 0);
    assert_eq!(arena_for(Some(3), 4), 3);
    assert_eq!(arena_for(Some(9), 4), 1);
}

#[test]
fn chunks_end_behind_line_feeds() {
    let data = b"aaa\nbb\ncccc\nd";
    let chunks = split_into_chunks(data, 4);
    assert_eq!(chunks, vec![&b"aaa\nbb\n"[..], &b"cccc\n"[..], &b"d"[..]]);
    assert_eq!(split_into_chunks(data, 3), vec![&b"aaa\n"[..], &b"bb\ncccc\n"[..], &b"d"[..]]);
}

#[test]
fn short_data_is_one_chunk() {
    assert_eq!(split_into_chunks(b"abc", 3), vec![&b"abc"[..]]);
    assert_eq!(split_into_chunks(b"", 16), vec![&b""[..]]);
    assert_eq!(split_into_chunks(b"abcdef", 2), vec![&b"abcdef"[..]]);
}

#[test]
fn counting_does_not_depend_on_the_chunks() {
    let data = b"h:one\ntwo\nh:one\nthree\nh:two\r\none\n";
    let whole = sorted(count_chunk(data, false).into_entries());
    for target in 1..data.len() + 2 {
        let chunks = split_into_chunks(data, target);
        for batch in 1..4 {
            let mut all = FastMap::new();
            let mut lines = 0;
            for part in chunks.chunks(batch) {
                let (map, n) = count_batch(part, false);
                lines += n;
                merge_counts(&mut all, map);
            }
            assert_eq!(lines, 6);
            assert_eq!(sorted(all.into_entries()), whole);
        }
    }
    assert_eq!(whole, vec![entry(b"one", 3), entry(b"three", 1), entry(b"two", 2)]);
}

#[test]
fn file_is_taken_apart_in_batches() {
    let mut data = Vec::new();
    while data.len() < 40 * 1024 * 1024 {
        data.extend_from_slice(b"0123456789abcde\n");
    }
    let mut file = read_file(&data);
    assert_eq!(file.len(), 3);
    let first = file.take_batch(2);
    assert_eq!(first.len(), 2);
    assert_eq!(first[0].len(), 16 * 1024 * 1024 + 16);
    assert_eq!(file.len(), 1);
    let second = file.take_batch(2);
    assert_eq!(second.len(), 1);
    assert_eq!(file.len(), 0);
    assert!(file.take_batch(2).is_empty());
    let lines = count_batch(&first, false).1 + count_batch(&second, false).1;
    assert_eq!(lines, (data.len() / 16) as u64);
}
