//! Cutting input into chunks at line feeds.

use vstd::prelude::*;

use crate::line::{first_newline, lemma_first_newline_is, lemma_passwords_concat, passwords_in};
use crate::output::NEWLINE;

verus! {

/// Where the chunk that starts at `start` ends: behind the first line feed that is at least
/// `target` bytes further on, or at the end of the data.
pub open spec fn chunk_stop(data: Seq<u8>, start: int, target: int) -> int {
    if start + target >= data.len() {
        data.len() as int
    } else {
        let n = start + target + first_newline(data.skip(start + target));
        if n < data.len() {
            n + 1
        } else {
            data.len() as int
        }
    }
}

/// The chunks of the data from `start` on.
pub open spec fn chunks_from(data: Seq<u8>, start: int, target: int) -> Seq<Seq<u8>>
    decreases data.len() - start,
{
    if start < 0 || start >= data.len() {
        Seq::empty()
    } else {
        let stop = chunk_stop(data, start, target);
        if stop <= start {
            Seq::empty()
        } else {
            seq![data.subrange(start, stop)] + chunks_from(data, stop, target)
        }
    }
}

/// The chunks of the data; data that is no longer than `target` is one chunk, even if empty.
pub open spec fn chunks_of(data: Seq<u8>, target: int) -> Seq<Seq<u8>> {
    if target >= data.len() {
        seq![data]
    } else {
        chunks_from(data, 0, target)
    }
}

/// The passwords of several chunks, in order.
pub open spec fn passwords_of_chunks(chunks: Seq<Seq<u8>>, keep_trailing_colon: bool) -> Seq<
    Seq<u8>,
>
    decreases chunks.len(),
{
    if chunks.len() == 0 {
        Seq::empty()
    } else {
        passwords_of_chunks(chunks.drop_last(), keep_trailing_colon) + passwords_in(
            chunks.last(),
            keep_trailing_colon,
        )
    }
}

/// The passwords of chunks, the first chunk set apart.
pub proof fn lemma_passwords_of_first(first: Seq<u8>, rest: Seq<Seq<u8>>, keep: bool)
    ensures
        passwords_of_chunks(seq![first] + rest, keep) == passwords_in(first, keep)
            + passwords_of_chunks(rest, keep),
    decreases rest.len(),
{
    let all = seq![first] + rest;
    if rest.len() == 0 {
        assert(all.drop_last() =~= Seq::<Seq<u8>>::empty());
        assert(all.last() == first);
        assert(passwords_of_chunks(all.drop_last(), keep) =~= Seq::<Seq<u8>>::empty());
        assert(passwords_of_chunks(all, keep) =~= passwords_in(first, keep)
            + passwords_of_chunks(rest, keep));
    } else {
        lemma_passwords_of_first(first, rest.drop_last(), keep);
        assert(all.drop_last() =~= seq![first] + rest.drop_last());
        assert(all.last() == rest.last());
        assert(passwords_of_chunks(all, keep) =~= passwords_in(first, keep)
            + passwords_of_chunks(rest, keep));
    }
}

proof fn lemma_chunk_stop(data: Seq<u8>, start: int, target: int)
    requires
        0 <= start < data.len(),
        0 < target,
    ensures
        start < chunk_stop(data, start, target) <= data.len(),
        chunk_stop(data, start, target) < data.len() ==> data[chunk_stop(data, start, target) - 1]
            == NEWLINE,
{
    if start + target < data.len() {
        crate::line::lemma_first_newline(data.skip(start + target));
    }
}

proof fn lemma_chunks_from(data: Seq<u8>, start: int, target: int, keep: bool)
    requires
        0 <= start <= data.len(),
        0 < target,
    ensures
        passwords_of_chunks(chunks_from(data, start, target), keep) == passwords_in(
            data.skip(start),
            keep,
        ),
        chunks_from(data, start, target).flatten() == data.skip(start),
        forall|i: int|
            0 <= i < chunks_from(data, start, target).len() ==> (#[trigger] chunks_from(
                data,
                start,
                target,
            )[i]).len() > 0,
    decreases data.len() - start,
{
    let here = chunks_from(data, start, target);
    if start < data.len() {
        let stop = chunk_stop(data, start, target);
        lemma_chunk_stop(data, start, target);
        lemma_chunks_from(data, stop, target, keep);
        let first = data.subrange(start, stop);
        let rest = chunks_from(data, stop, target);
        lemma_passwords_of_first(first, rest, keep);
        assert(data.skip(start) =~= first + data.skip(stop));
        if stop < data.len() {
            lemma_passwords_concat(first, data.skip(stop), keep);
        } else {
            assert(data.skip(stop) =~= Seq::<u8>::empty());
            assert(data.skip(start) =~= first);
            assert(passwords_in(first, keep) + passwords_of_chunks(rest, keep) =~= passwords_in(
                first,
                keep,
            ));
        }
        assert(here.drop_first() =~= rest);
        assert(here[0] == first);
        assert forall|i: int| 0 <= i < here.len() implies (#[trigger] here[i]).len() > 0 by {
            if i > 0 {
                assert(here[i] == rest[i - 1]);
            }
        }
    } else {
        assert(data.skip(start) =~= Seq::<u8>::empty());
    }
}

/// Cutting data into chunks loses nothing: the chunks in a row are the data, and their passwords in
/// a row are the passwords of the data.
pub proof fn lemma_chunks_keep_passwords(data: Seq<u8>, target: int, keep_trailing_colon: bool)
    requires
        0 < target,
    ensures
        chunks_of(data, target).flatten() == data,
        passwords_of_chunks(chunks_of(data, target), keep_trailing_colon) == passwords_in(
            data,
            keep_trailing_colon,
        ),
{
    if target >= data.len() {
        let none = Seq::<Seq<u8>>::empty();
        lemma_passwords_of_first(data, none, keep_trailing_colon);
        assert(seq![data] + none =~= seq![data]);
        assert(passwords_in(data, keep_trailing_colon) + passwords_of_chunks(
            none,
            keep_trailing_colon,
        ) =~= passwords_in(data, keep_trailing_colon));
        seq![data].lemma_flatten_one_element();
    } else {
        lemma_chunks_from(data, 0, target, keep_trailing_colon);
        assert(data.skip(0) =~= data);
    }
}

/// The bytes of several chunks.
pub open spec fn chunk_bytes(chunks: Seq<&[u8]>) -> Seq<Seq<u8>> {
    chunks.map_values(|c: &[u8]| c@)
}

/// Cuts data into chunks of about `target_chunk_size` bytes, each ending behind a line feed.
pub fn split_into_chunks(data: &[u8], target_chunk_size: usize) -> (chunks: Vec<&[u8]>)
    requires
        target_chunk_size > 0 || data@.len() == 0,
    ensures
        chunk_bytes(chunks@) == chunks_of(data@, target_chunk_size as int),
{
    let total: usize = data.len();
    let mut chunks: Vec<&[u8]> = Vec::new();
    if target_chunk_size >= total {
        chunks.push(data);
        assert(chunk_bytes(chunks@) =~= seq![data@]);
        return chunks;
    }
    let mut start: usize = 0;
    let ghost goal = chunks_of(data@, target_chunk_size as int);
    assert(chunk_bytes(chunks@) + chunks_from(data@, 0, target_chunk_size as int) =~= goal);
    while start < total
        invariant
            total == data@.len(),
            start <= total,
            0 < target_chunk_size,
            chunk_bytes(chunks@) + chunks_from(data@, start as int, target_chunk_size as int)
                == goal,
        decreases total - start,
    {
        proof {
            lemma_chunk_stop(data@, start as int, target_chunk_size as int);
        }
        let stop: usize = if target_chunk_size >= total - start {
            total
        } else {
            let from: usize = start + target_chunk_size;
            let tail = &data[from..total];
            assert(tail@ =~= data@.skip(from as int));
            match memchr::memchr(NEWLINE, tail) {
                Some(offset) => {
                    proof {
                        lemma_first_newline_is(tail@, offset as int);
                    }
                    from + offset + 1
                },
                None => {
                    proof {
                        lemma_first_newline_is(tail@, tail@.len() as int);
                    }
                    total
                },
            }
        };
        assert(stop == chunk_stop(data@, start as int, target_chunk_size as int));
        let ghost before = chunk_bytes(chunks@);
        chunks.push(&data[start..stop]);
        proof {
            let piece = data@.subrange(start as int, stop as int);
            assert(chunk_bytes(chunks@) =~= before.push(piece));
            assert(chunk_bytes(chunks@) + chunks_from(
                data@,
                stop as int,
                target_chunk_size as int,
            ) =~= before + chunks_from(data@, start as int, target_chunk_size as int));
        }
        start = stop;
    }
    assert(chunk_bytes(chunks@) =~= goal);
    chunks
}

/// A chunk goes on for `target` bytes and from there to the next byte 10, and no further.
pub open spec fn stops_in_time(chunk: Seq<u8>, target: int) -> bool {
    forall|j: int| target <= j < chunk.len() - 1 ==> chunk[j] != 10
}

proof fn lemma_chunks_stop(data: Seq<u8>, start: int, target: int)
    requires
        0 <= start <= data.len(),
        0 < target,
    ensures
        ({
            let chunks = chunks_from(data, start, target);
            &&& forall|i: int|
                0 <= i < chunks.len() ==> stops_in_time(#[trigger] chunks[i], target)
                    && chunks[i].len() > 0
            &&& forall|i: int|
                0 <= i < chunks.len() - 1 ==> (#[trigger] chunks[i]).len() > target && chunks[i][
                chunks[i].len() - 1] == 10
        }),
    decreases data.len() - start,
{
    if start < data.len() {
        let stop = chunk_stop(data, start, target);
        lemma_chunk_stop(data, start, target);
        lemma_chunks_stop(data, stop, target);
        let first = data.subrange(start, stop);
        let rest = chunks_from(data, stop, target);
        let chunks = chunks_from(data, start, target);
        let from = start + target;
        if from < data.len() {
            crate::line::lemma_first_newline(data.skip(from));
        }
        assert forall|j: int| target <= j < first.len() - 1 implies first[j] != 10 by {
            assert(data.skip(from)[j - target] == first[j]);
        }
        assert forall|i: int| 0 <= i < chunks.len() implies stops_in_time(
            #[trigger] chunks[i],
            target,
        ) && chunks[i].len() > 0 by {
            if i > 0 {
                assert(chunks[i] == rest[i - 1]);
            }
        }
        assert forall|i: int| 0 <= i < chunks.len() - 1 implies (#[trigger] chunks[i]).len()
            > target && chunks[i][chunks[i].len() - 1] == 10 by {
            if i > 0 {
                assert(chunks[i] == rest[i - 1]);
            } else {
                assert(rest.len() > 0);
                assert(stop < data.len());
            }
        }
    }
}

/// Where data is cut: every chunk but the last is longer than the target and ends in byte 10, none
/// goes on behind the first such byte from the target on, and data no longer than the target is one
/// chunk. The chunks in a row are the data.
pub proof fn lemma_chunks_end_at_line_feeds(data: Seq<u8>, target: int)
    requires
        0 < target,
    ensures
        ({
            let chunks = chunks_of(data, target);
            &&& chunks.flatten() == data
            &&& data.len() <= target ==> chunks == seq![data]
            &&& forall|i: int|
                0 <= i < chunks.len() ==> stops_in_time(#[trigger] chunks[i], target) && (
                data.len() > 0 ==> chunks[i].len() > 0)
            &&& forall|i: int|
                0 <= i < chunks.len() - 1 ==> (#[trigger] chunks[i]).len() > target && chunks[i][
                chunks[i].len() - 1] == 10
        }),
{
    lemma_chunks_keep_passwords(data, target, false);
    if target < data.len() {
        lemma_chunks_stop(data, 0, target);
    }
}

/// The passwords of chunks in a row are those of each, one chunk after another.
pub proof fn lemma_passwords_of_one_more(chunks: Seq<Seq<u8>>, chunk: Seq<u8>, keep: bool)
    ensures
        passwords_of_chunks(Seq::empty(), keep) == Seq::<Seq<u8>>::empty(),
        passwords_of_chunks(chunks.push(chunk), keep) == passwords_of_chunks(chunks, keep)
            + passwords_in(chunk, keep),
{
    assert(chunks.push(chunk).drop_last() =~= chunks);
}

/// What the chunks of a slice mean.
pub proof fn lemma_chunk_bytes(chunks: Seq<&[u8]>)
    ensures
        chunk_bytes(chunks).len() == chunks.len(),
        forall|i: int| 0 <= i < chunks.len() ==> #[trigger] chunk_bytes(chunks)[i] == chunks[i]@,
{
}

} // verus!
