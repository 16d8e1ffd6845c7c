//! Counting the passwords of chunks.

use rayon::iter::{IntoParallelRefIterator, ParallelIterator};
use vstd::prelude::*;

use crate::arena::{arena_counts, bump_count_arena, ArenaMap, ArenaPool};
use crate::chunk::{
    chunk_bytes, chunks_of, lemma_chunks_keep_passwords, passwords_of_chunks, split_into_chunks,
};
use crate::fast_map::{bump_count, fast_counts, merge_counts, FastMap, MAX_RESERVE};
use crate::index::arena_total;
use crate::line::{
    extract_password, first_newline, lemma_first_newline, lemma_first_newline_is,
    lemma_passwords_len, password_of, passwords_in,
};
use crate::output::NEWLINE;
use crate::premerge::joined;
use crate::tally::{
    add_counts, add_one, counts_of, lemma_counts_concat, lemma_counts_empty, lemma_counts_push,
    wrap64, Counts,
};

verus! {

/// How many entries to make room for before counting a chunk of `len` bytes: one for every twelve
/// bytes and sixteen more, but no more than [`MAX_RESERVE`].
fn expected_entries(len: usize) -> (r: usize)
    ensures
        r == (if len / 12 + 16 < MAX_RESERVE {
            len / 12 + 16
        } else {
            MAX_RESERVE as int
        }),
{
    if len / 12 < MAX_RESERVE - 16 {
        len / 12 + 16
    } else {
        MAX_RESERVE
    }
}

/// Cuts the first line off the data: the line, without the line feed behind it, and the rest.
pub fn split_line(data: &[u8]) -> (r: (&[u8], &[u8]))
    ensures
        r.0@ == data@.take(first_newline(data@)),
        r.1@ == (if first_newline(data@) < data@.len() {
            data@.skip(first_newline(data@) + 1)
        } else {
            Seq::empty()
        }),
{
    let n: usize = data.len();
    match memchr::memchr(NEWLINE, data) {
        Some(end) => {
            proof {
                lemma_first_newline_is(data@, end as int);
            }
            let line = &data[0..end];
            let rest = &data[end + 1..n];
            assert(line@ =~= data@.take(end as int));
            assert(rest@ =~= data@.skip(end + 1));
            (line, rest)
        },
        None => {
            proof {
                lemma_first_newline_is(data@, data@.len() as int);
            }
            let rest = &data[n..n];
            assert(data@ =~= data@.take(n as int));
            assert(rest@ =~= Seq::<u8>::empty());
            (data, rest)
        },
    }
}

/// How counting goes on over one line: `seen` passwords are counted, `data` is left.
proof fn lemma_count_line(seen: Seq<Seq<u8>>, data: Seq<u8>, rest: Seq<u8>, keep: bool)
    requires
        data.len() > 0,
        rest == (if first_newline(data) < data.len() {
            data.skip(first_newline(data) + 1)
        } else {
            Seq::empty()
        }),
    ensures
        rest.len() < data.len(),
        match password_of(data.take(first_newline(data)), keep) {
            Some(pw) => {
                &&& seen + passwords_in(data, keep) == seen.push(pw) + passwords_in(rest, keep)
                &&& counts_of(seen.push(pw)) == add_one(counts_of(seen), pw, 1)
            },
            None => seen + passwords_in(data, keep) == seen + passwords_in(rest, keep),
        },
{
    lemma_first_newline(data);
    match password_of(data.take(first_newline(data)), keep) {
        Some(pw) => {
            lemma_counts_push(seen, pw);
            assert(seen + passwords_in(data, keep) =~= seen.push(pw) + passwords_in(rest, keep));
        },
        None => {
            assert(seen + passwords_in(data, keep) =~= seen + passwords_in(rest, keep));
        },
    }
}

/// Counts the passwords of a chunk.
pub fn count_chunk(chunk: &[u8], keep_trailing_colon: bool) -> (map: FastMap)
    ensures
        fast_counts(map) == counts_of(passwords_in(chunk@, keep_trailing_colon)),
{
    let mut map = FastMap::with_capacity(expected_entries(chunk.len()));
    let mut rest: &[u8] = chunk;
    let ghost all = passwords_in(chunk@, keep_trailing_colon);
    let ghost mut seen = Seq::<Seq<u8>>::empty();
    proof {
        lemma_counts_empty();
        assert(seen + all =~= all);
    }
    while rest.len() > 0
        invariant
            all == seen + passwords_in(rest@, keep_trailing_colon),
            fast_counts(map) == counts_of(seen),
        decreases rest@.len(),
    {
        let (line, tail) = split_line(rest);
        proof {
            lemma_count_line(seen, rest@, tail@, keep_trailing_colon);
        }
        if let Some(pw) = extract_password(line, keep_trailing_colon) {
            bump_count(&mut map, pw);
            proof {
                seen = seen.push(pw@);
            }
        }
        rest = tail;
    }
    assert(all =~= seen);
    map
}

/// A chunk counted with its passwords in arenas.
pub struct ArenaCount<'a> {
    pub map: ArenaMap<'a>,
    /// Passwords that were copied into arenas.
    pub copies: u64,
    /// Passwords that were counted.
    pub lines: u64,
}

/// Counts the passwords of a chunk, keeping each distinct one in an arena.
pub fn count_chunk_arena<'a>(
    chunk: &[u8],
    keep_trailing_colon: bool,
    pool: &'a ArenaPool,
) -> (r: ArenaCount<'a>)
    requires
        pool.size() > 0,
    ensures
        arena_counts(r.map) == counts_of(passwords_in(chunk@, keep_trailing_colon)),
        arena_counts(r.map).dom().finite(),
        r.copies == arena_counts(r.map).dom().len(),
        r.lines == passwords_in(chunk@, keep_trailing_colon).len(),
{
    let mut map = ArenaMap::with_capacity(expected_entries(chunk.len()));
    let room: usize = chunk.len();
    let mut copies: u64 = 0;
    let mut lines: u64 = 0;
    let mut rest: &[u8] = chunk;
    let ghost all = passwords_in(chunk@, keep_trailing_colon);
    let ghost mut seen = Seq::<Seq<u8>>::empty();
    proof {
        lemma_counts_empty();
        assert(seen + all =~= all);
    }
    while rest.len() > 0
        invariant
            pool.size() > 0,
            all == seen + passwords_in(rest@, keep_trailing_colon),
            arena_counts(map) == counts_of(seen),
            arena_counts(map).dom().finite(),
            copies == arena_counts(map).dom().len(),
            copies <= lines,
            lines == seen.len(),
            lines + rest@.len() <= room,
        decreases rest@.len(),
    {
        let (line, tail) = split_line(rest);
        proof {
            lemma_count_line(seen, rest@, tail@, keep_trailing_colon);
        }
        if let Some(pw) = extract_password(line, keep_trailing_colon) {
            let ghost before = arena_counts(map);
            let fresh = bump_count_arena(&mut map, pool, pw);
            assert(arena_counts(map).dom() =~= before.dom().insert(pw@));
            if fresh {
                copies = copies + 1;
            }
            lines = lines + 1;
            proof {
                seen = seen.push(pw@);
            }
        }
        rest = tail;
    }
    assert(all =~= seen);
    ArenaCount { map, copies, lines }
}

/// Counts each chunk on the thread pool.
///
/// Calls `rayon`'s `par_iter().map(..).collect()`: the result holds what [`count_chunk`] returns
/// for each chunk, in the order of the chunks.
#[verifier::external_body]
fn par_count_chunks(batch: &[&[u8]], keep_trailing_colon: bool) -> (r: Vec<FastMap>)
    ensures
        r@.len() == batch@.len(),
        forall|i: int|
            0 <= i < r@.len() ==> fast_counts(#[trigger] r@[i]) == counts_of(
                passwords_in(batch@[i]@, keep_trailing_colon),
            ),
{
    batch.par_iter().map(|chunk| count_chunk(chunk, keep_trailing_colon)).collect()
}

/// Counts the passwords of a batch of chunks, all together. Returns their counts and how many
/// passwords there were.
pub fn count_batch(batch: &[&[u8]], keep_trailing_colon: bool) -> (r: (FastMap, u64))
    ensures
        fast_counts(r.0) == counts_of(
            passwords_of_chunks(chunk_bytes(batch@), keep_trailing_colon),
        ),
        r.1 == wrap64(
            passwords_of_chunks(chunk_bytes(batch@), keep_trailing_colon).len() as int,
        ),
{
    let maps = par_count_chunks(batch, keep_trailing_colon);
    let ghost all = chunk_bytes(batch@);
    let ghost counted = maps@;
    let mut acc = FastMap::new();
    let mut lines: u64 = 0;
    let mut i: usize = 0;
    proof {
        lemma_counts_empty();
        assert(passwords_of_chunks(all.take(0), keep_trailing_colon) =~= Seq::<
            Seq<u8>,
        >::empty());
    }
    for map in it: maps.into_iter()
        invariant
            it.seq() == counted,
            it.index() == i,
            i <= batch@.len(),
            counted.len() == batch@.len(),
            all == chunk_bytes(batch@),
            forall|j: int|
                0 <= j < counted.len() ==> fast_counts(#[trigger] counted[j]) == counts_of(
                    passwords_in(batch@[j]@, keep_trailing_colon),
                ),
            fast_counts(acc) == counts_of(
                passwords_of_chunks(all.take(i as int), keep_trailing_colon),
            ),
            lines == wrap64(
                passwords_of_chunks(all.take(i as int), keep_trailing_colon).len() as int,
            ),
    {
        let room: usize = batch[i].len();
        proof {
            let here = passwords_in(batch@[i as int]@, keep_trailing_colon);
            assert(map == counted[i as int]);
            assert(all.take(i + 1).drop_last() =~= all.take(i as int));
            assert(all.take(i + 1).last() == batch@[i as int]@);
            lemma_counts_concat(
                passwords_of_chunks(all.take(i as int), keep_trailing_colon),
                here,
            );
            lemma_passwords_len(batch@[i as int]@, keep_trailing_colon);
            assert(here.len() <= room);
        }
        let more: u64 = merge_counts(&mut acc, map);
        lines = lines.wrapping_add(more);
        i = i + 1;
    }
    assert(all.take(i as int) =~= all);
    (acc, lines)
}

/// The maps of chunks that were counted with their passwords in arenas.
pub open spec fn arena_maps<'a>(counted: Seq<ArenaCount<'a>>) -> Seq<ArenaMap<'a>> {
    counted.map_values(|c: ArenaCount<'a>| c.map)
}

/// The line counts of chunks added up, modulo 2^64.
pub open spec fn arena_lines(counted: Seq<ArenaCount<'_>>) -> u64
    decreases counted.len(),
{
    if counted.len() == 0 {
        0
    } else {
        wrap64(arena_lines(counted.drop_last()) + counted.last().lines)
    }
}

/// The numbers of copied passwords of chunks added up, modulo 2^64.
pub open spec fn arena_copies(counted: Seq<ArenaCount<'_>>) -> u64
    decreases counted.len(),
{
    if counted.len() == 0 {
        0
    } else {
        wrap64(arena_copies(counted.drop_last()) + counted.last().copies)
    }
}

/// A batch of chunks counted with their passwords in arenas.
pub struct ArenaBatch<'a> {
    pub maps: Vec<ArenaMap<'a>>,
    /// Passwords that were copied into arenas.
    pub copies: u64,
    /// Passwords that were counted.
    pub lines: u64,
}

/// Puts the counted chunks of a batch together.
pub fn collect_arena<'a>(counted: Vec<ArenaCount<'a>>) -> (r: ArenaBatch<'a>)
    ensures
        r.maps@ == arena_maps(counted@),
        r.lines == arena_lines(counted@),
        r.copies == arena_copies(counted@),
{
    let ghost all = counted@;
    let ghost mut i: int = 0;
    let mut maps: Vec<ArenaMap<'a>> = Vec::new();
    let mut copies: u64 = 0;
    let mut lines: u64 = 0;
    for c in it: counted.into_iter()
        invariant
            it.seq() == all,
            it.index() == i,
            maps@ == arena_maps(all.take(i)),
            lines == arena_lines(all.take(i)),
            copies == arena_copies(all.take(i)),
    {
        proof {
            assert(all.take(i + 1).drop_last() =~= all.take(i));
            assert(all.take(i + 1).last() == c);
            assert(arena_maps(all.take(i + 1)) =~= arena_maps(all.take(i)).push(c.map));
        }
        lines = lines.wrapping_add(c.lines);
        copies = copies.wrapping_add(c.copies);
        maps.push(c.map);
        proof {
            i = i + 1;
        }
    }
    assert(all.take(i) =~= all);
    ArenaBatch { maps, copies, lines }
}

/// The chunks of a batch, each counted by itself with its passwords in arenas, have together the
/// counts and the lines that counting the batch with maps of their own gives.
pub proof fn lemma_arena_batch(counted: Seq<ArenaCount<'_>>, chunks: Seq<Seq<u8>>, keep: bool)
    requires
        counted.len() == chunks.len(),
        forall|i: int|
            0 <= i < chunks.len() ==> arena_counts((#[trigger] counted[i]).map) == counts_of(
                passwords_in(chunks[i], keep),
            ),
        forall|i: int|
            0 <= i < chunks.len() ==> (#[trigger] counted[i]).lines == passwords_in(
                chunks[i],
                keep,
            ).len(),
    ensures
        arena_total(arena_maps(counted)) == counts_of(passwords_of_chunks(chunks, keep)),
        arena_lines(counted) == wrap64(passwords_of_chunks(chunks, keep).len() as int),
    decreases chunks.len(),
{
    let maps = arena_maps(counted);
    if chunks.len() == 0 {
        lemma_counts_empty();
        assert(passwords_of_chunks(chunks, keep) =~= Seq::<Seq<u8>>::empty());
    } else {
        let last = chunks.len() - 1;
        let fewer = counted.drop_last();
        let before = chunks.drop_last();
        assert forall|i: int| 0 <= i < before.len() implies arena_counts(
            (#[trigger] fewer[i]).map,
        ) == counts_of(passwords_in(before[i], keep)) && fewer[i].lines == passwords_in(
            before[i],
            keep,
        ).len() by {
            assert(fewer[i] == counted[i]);
        }
        lemma_arena_batch(fewer, before, keep);
        assert(maps.drop_last() =~= arena_maps(fewer));
        assert(maps.last() == counted[last].map);
        lemma_counts_concat(
            passwords_of_chunks(before, keep),
            passwords_in(chunks[last], keep),
        );
    }
}

/// Passwords of chunks in two parts.
pub proof fn lemma_passwords_of_both(a: Seq<Seq<u8>>, b: Seq<Seq<u8>>, keep: bool)
    ensures
        passwords_of_chunks(a + b, keep) == passwords_of_chunks(a, keep) + passwords_of_chunks(
            b,
            keep,
        ),
    decreases b.len(),
{
    if b.len() == 0 {
        assert(a + b =~= a);
        assert(passwords_of_chunks(a, keep) + passwords_of_chunks(b, keep) =~= passwords_of_chunks(
            a,
            keep,
        ));
    } else {
        lemma_passwords_of_both(a, b.drop_last(), keep);
        assert((a + b).drop_last() =~= a + b.drop_last());
        assert(passwords_of_chunks(a + b, keep) =~= passwords_of_chunks(a, keep)
            + passwords_of_chunks(b, keep));
    }
}

/// The counts of batches added up.
pub open spec fn batch_counts(batches: Seq<Seq<Seq<u8>>>, keep: bool) -> Counts
    decreases batches.len(),
{
    if batches.len() == 0 {
        Map::empty()
    } else {
        add_counts(
            batch_counts(batches.drop_last(), keep),
            counts_of(passwords_of_chunks(batches.last(), keep)),
        )
    }
}

/// Counting a file in chunks and batches of any size counts every password of the file.
pub proof fn lemma_file_counts(data: Seq<u8>, target: int, batches: Seq<Seq<Seq<u8>>>, keep: bool)
    requires
        target > 0,
        joined(batches) == chunks_of(data, target),
    ensures
        batch_counts(batches, keep) == counts_of(passwords_in(data, keep)),
{
    lemma_batch_counts(batches, keep);
    lemma_chunks_keep_passwords(data, target, keep);
}

/// The line counts of batches added up as they are counted, modulo 2^64.
pub open spec fn batch_lines(batches: Seq<Seq<Seq<u8>>>, keep: bool) -> u64
    decreases batches.len(),
{
    if batches.len() == 0 {
        0
    } else {
        wrap64(
            batch_lines(batches.drop_last(), keep) + wrap64(
                passwords_of_chunks(batches.last(), keep).len() as int,
            ),
        )
    }
}

proof fn lemma_batch_lines(batches: Seq<Seq<Seq<u8>>>, keep: bool)
    ensures
        batch_lines(batches, keep) == wrap64(
            passwords_of_chunks(joined(batches), keep).len() as int,
        ),
    decreases batches.len(),
{
    if batches.len() > 0 {
        lemma_batch_lines(batches.drop_last(), keep);
        lemma_passwords_of_both(joined(batches.drop_last()), batches.last(), keep);
    }
}

/// The line counts of the batches of a file add up to the number of its passwords.
pub proof fn lemma_file_lines(data: Seq<u8>, target: int, batches: Seq<Seq<Seq<u8>>>, keep: bool)
    requires
        target > 0,
        joined(batches) == chunks_of(data, target),
    ensures
        batch_lines(batches, keep) == wrap64(passwords_in(data, keep).len() as int),
        data.len() < 0x1_0000_0000_0000_0000 ==> batch_lines(batches, keep) == passwords_in(
            data,
            keep,
        ).len(),
{
    lemma_batch_lines(batches, keep);
    lemma_chunks_keep_passwords(data, target, keep);
    lemma_passwords_len(data, keep);
}

proof fn lemma_batch_counts(batches: Seq<Seq<Seq<u8>>>, keep: bool)
    ensures
        batch_counts(batches, keep) == counts_of(passwords_of_chunks(joined(batches), keep)),
    decreases batches.len(),
{
    if batches.len() == 0 {
        lemma_counts_empty();
        assert(passwords_of_chunks(joined(batches), keep) =~= Seq::<Seq<u8>>::empty());
    } else {
        lemma_batch_counts(batches.drop_last(), keep);
        lemma_passwords_of_both(joined(batches.drop_last()), batches.last(), keep);
        lemma_counts_concat(
            passwords_of_chunks(joined(batches.drop_last()), keep),
            passwords_of_chunks(batches.last(), keep),
        );
    }
}

/// Bytes a chunk of an input file has at least, but for the last.
pub const IO_CHUNK_SIZE: usize = 0x100_0000;

/// The chunks of an input file that are still to be counted.
pub struct FileChunks<'a> {
    chunks: Vec<&'a [u8]>,
    next: usize,
}

impl<'a> FileChunks<'a> {
    /// The file is in a proper state.
    pub closed spec fn wf(&self) -> bool {
        self.next <= self.chunks@.len()
    }

    /// The chunks not taken off yet.
    pub closed spec fn left(&self) -> Seq<Seq<u8>> {
        chunk_bytes(self.chunks@).skip(self.next as int)
    }

    /// The counts of the chunks not taken off yet.
    pub open spec fn counts_left(&self, keep_trailing_colon: bool) -> Counts {
        counts_of(passwords_of_chunks(self.left(), keep_trailing_colon))
    }

    /// How many chunks were not taken off yet.
    pub fn len(&self) -> (r: usize)
        requires
            self.wf(),
        ensures
            r == self.left().len(),
    {
        self.chunks.len() - self.next
    }

    /// Takes the next chunks off, up to `batch_size` of them. What is to be counted is in them or
    /// still left.
    pub fn take_batch(&mut self, batch_size: usize) -> (batch: Vec<&'a [u8]>)
        requires
            old(self).wf(),
        ensures
            final(self).wf(),
            batch@.len() == (if batch_size < old(self).left().len() {
                batch_size as nat
            } else {
                old(self).left().len()
            }),
            chunk_bytes(batch@) == old(self).left().take(batch@.len() as int),
            final(self).left() == old(self).left().skip(batch@.len() as int),
            old(self).left() == chunk_bytes(batch@) + final(self).left(),
            forall|keep: bool| #[trigger]
                passwords_of_chunks(old(self).left(), keep) == passwords_of_chunks(
                    chunk_bytes(batch@),
                    keep,
                ) + passwords_of_chunks(final(self).left(), keep),
            forall|keep: bool| #[trigger]
                old(self).counts_left(keep) == add_counts(
                    counts_of(passwords_of_chunks(chunk_bytes(batch@), keep)),
                    final(self).counts_left(keep),
                ),
    {
        let mut batch: Vec<&'a [u8]> = Vec::new();
        let ghost all = chunk_bytes(self.chunks@);
        let ghost from = self.next as int;
        let ghost left = self.left();
        while batch.len() < batch_size && self.next < self.chunks.len()
            invariant
                self.wf(),
                all == chunk_bytes(self.chunks@),
                self.chunks == old(self).chunks,
                self.next == from + batch@.len(),
                from == old(self).next,
                batch@.len() <= batch_size,
                chunk_bytes(batch@) == all.skip(from).take(batch@.len() as int),
            decreases self.chunks@.len() - self.next,
        {
            let chunk = self.chunks[self.next];
            let ghost before = batch@;
            batch.push(chunk);
            self.next = self.next + 1;
            proof {
                assert(chunk_bytes(batch@) =~= chunk_bytes(before).push(chunk@));
                assert(all.skip(from).take(before.len() as int + 1) =~= all.skip(from).take(
                    before.len() as int,
                ).push(chunk@));
            }
        }
        proof {
            let n = batch@.len() as int;
            assert(all.skip(self.next as int) =~= left.skip(n));
            assert(left =~= left.take(n) + left.skip(n));
            assert forall|keep: bool| #[trigger]
                passwords_of_chunks(old(self).left(), keep) == passwords_of_chunks(
                    chunk_bytes(batch@),
                    keep,
                ) + passwords_of_chunks(self.left(), keep) by {
                lemma_passwords_of_both(left.take(n), left.skip(n), keep);
            }
            assert forall|keep: bool| #[trigger]
                old(self).counts_left(keep) == add_counts(
                    counts_of(passwords_of_chunks(chunk_bytes(batch@), keep)),
                    self.counts_left(keep),
                ) by {
                lemma_passwords_of_both(left.take(n), left.skip(n), keep);
                lemma_counts_concat(
                    passwords_of_chunks(left.take(n), keep),
                    passwords_of_chunks(left.skip(n), keep),
                );
            }
        }
        batch
    }
}

/// Cuts a file into chunks to be counted: all its passwords are in them.
pub fn read_file<'a>(data: &'a [u8]) -> (r: FileChunks<'a>)
    ensures
        r.wf(),
        r.left() == chunks_of(data@, IO_CHUNK_SIZE as int),
        forall|keep: bool| #[trigger]
            passwords_of_chunks(r.left(), keep) == passwords_in(data@, keep),
        forall|keep: bool| #[trigger]
            r.counts_left(keep) == counts_of(passwords_in(data@, keep)),
{
    let chunks = split_into_chunks(data, IO_CHUNK_SIZE);
    let r = FileChunks { chunks, next: 0 };
    proof {
        assert(r.left() =~= chunk_bytes(r.chunks@));
        assert forall|keep: bool| #[trigger]
            passwords_of_chunks(r.left(), keep) == passwords_in(data@, keep) by {
            lemma_chunks_keep_passwords(data@, IO_CHUNK_SIZE as int, keep);
        }
        assert forall|keep: bool| #[trigger]
            r.counts_left(keep) == counts_of(passwords_in(data@, keep)) by {
            lemma_chunks_keep_passwords(data@, IO_CHUNK_SIZE as int, keep);
        }
    }
    r
}

/// Lines and copies of counted chunks add up, chunk by chunk, and the maps stay in order.
pub proof fn lemma_arena_chunk_by_chunk<'a>(counted: Seq<ArenaCount<'a>>, c: ArenaCount<'a>)
    ensures
        arena_lines(counted) + c.lines < 0x1_0000_0000_0000_0000 ==> arena_lines(counted.push(c))
            == arena_lines(counted) + c.lines,
        arena_copies(counted) + c.copies < 0x1_0000_0000_0000_0000 ==> arena_copies(counted.push(c))
            == arena_copies(counted) + c.copies,
        arena_maps(counted.push(c)) == arena_maps(counted).push(c.map),
{
    assert(counted.push(c).drop_last() =~= counted);
    assert(arena_maps(counted.push(c)) =~= arena_maps(counted).push(c.map));
}

/// Input is cut into chunks of 16 MiB.
pub proof fn lemma_chunk_target()
    ensures
        IO_CHUNK_SIZE == 16 * 1024 * 1024,
{
}

} // verus!
