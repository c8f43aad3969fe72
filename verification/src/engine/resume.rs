//! Resuming an interrupted download: which saved chunks can be used, and how.

use crate::engine::chunk;
use crate::engine::chunk::{Chunk, ChunkMap, ChunkState};
use vstd::prelude::*;

verus! {

/// The chunks are those of a file of `total` bytes: they cover every byte once,
/// each has a length, and each stands at its index.
pub open spec fn fits(chunks: Seq<Chunk>, total: int) -> bool {
    &&& chunk::all_sized(chunks)
    &&& chunk::indexed(chunks)
    &&& chunk::partitions(chunks, total)
}

/// Some chunk begins at byte `b`.
pub open spec fn begins_at(chunks: Seq<Chunk>, b: int) -> bool {
    exists|i: int| 0 <= i < chunks.len() && (#[trigger] chunks[i]).start == b
}

/// A chunk of the file ends with it or is followed by another.
pub open spec fn leads_on(chunks: Seq<Chunk>, c: Chunk, total: int) -> bool {
    c.end == total - 1 || (c.end < total && begins_at(chunks, c.end + 1))
}

/// A saved chunk as it is used again: nobody is at work on it, it has no more
/// than its length, and it is complete exactly if it has all of it.
pub open spec fn revived(c: Chunk) -> Chunk {
    if c.downloaded >= c.length() {
        Chunk { downloaded: c.length() as u64, state: ChunkState::Complete, ..c }
    } else {
        Chunk { state: ChunkState::Pending, ..c }
    }
}

/// Every saved chunk as it is used again.
pub open spec fn all_revived(chunks: Seq<Chunk>) -> Seq<Chunk> {
    chunks.map_values(|c: Chunk| revived(c))
}

/// Where the downloaded bytes of a chunk end; 0 where it has none.
pub open spec fn reach_of(c: Chunk) -> int {
    if c.downloaded > 0 {
        c.start + c.downloaded
    } else {
        0
    }
}

/// Where the last downloaded byte of all chunks ends: a file that holds them is
/// at least that long.
pub open spec fn reach(chunks: Seq<Chunk>) -> int
    decreases chunks.len(),
{
    if chunks.len() == 0 {
        0
    } else {
        let before = reach(chunks.drop_last());
        if reach_of(chunks.last()) > before {
            reach_of(chunks.last())
        } else {
            before
        }
    }
}

/// Whether some chunk begins at byte `b`.
fn has_start(map: &ChunkMap, b: u64) -> (r: bool)
    ensures
        r == begins_at(map.chunks@, b as int),
{
    let mut i: usize = 0;
    while i < map.chunks.len()
        invariant
            i <= map.chunks@.len(),
            forall|k: int| 0 <= k < i ==> (#[trigger] map.chunks@[k]).start != b,
        decreases map.chunks@.len() - i,
    {
        if map.chunks[i].start == b {
            assert(map.chunks@[i as int].start == b);
            return true;
        }
        i += 1;
    }
    false
}

/// Whether chunk `i` shares no byte with those before it.
fn is_apart(map: &ChunkMap, i: usize) -> (r: bool)
    requires
        i < map.chunks@.len(),
    ensures
        r == (forall|k: int|
            0 <= k < i ==> (#[trigger] map.chunks@[k]).end < map.chunks@[i as int].start
                || map.chunks@[i as int].end < map.chunks@[k].start),
{
    let c = map.chunks[i];
    let mut k: usize = 0;
    while k < i
        invariant
            k <= i < map.chunks@.len(),
            c == map.chunks@[i as int],
            forall|j: int|
                0 <= j < k ==> (#[trigger] map.chunks@[j]).end < c.start || c.end
                    < map.chunks@[j].start,
        decreases i - k,
    {
        let d = map.chunks[k];
        if d.end >= c.start && c.end >= d.start {
            assert(map.chunks@[k as int] == d);
            return false;
        }
        k += 1;
    }
    true
}

/// Whether the chunks are those of a file of `total` bytes.
pub fn fits_file(map: &ChunkMap, total: u64) -> (r: bool)
    ensures
        r == fits(map.chunks@, total as int),
{
    let ghost chunks = map.chunks@;
    if total == 0 {
        proof {
            lemma_nothing_covers_nothing(chunks);
        }
        return map.chunks.len() == 0;
    }
    if !has_start(map, 0) {
        proof {
            if fits(chunks, total as int) {
                lemma_chained(chunks, total as int);
            }
        }
        return false;
    }
    let mut i: usize = 0;
    while i < map.chunks.len()
        invariant
            i <= chunks.len(),
            chunks == map.chunks@,
            0 < total,
            begins_at(chunks, 0),
            forall|k: int|
                0 <= k < i ==> {
                    &&& (#[trigger] chunks[k]).is_sized()
                    &&& chunks[k].index == k
                    &&& leads_on(chunks, chunks[k], total as int)
                },
            forall|j: int, k: int|
                0 <= j < k < i ==> (#[trigger] chunks[j]).end < (#[trigger] chunks[k]).start
                    || chunks[k].end < chunks[j].start,
        decreases chunks.len() - i,
    {
        let c = map.chunks[i];
        let sized = c.start <= c.end && !(c.start == 0 && c.end == u64::MAX);
        if !sized || c.index != i {
            assert(!(chunks[i as int].is_sized() && chunks[i as int].index == i));
            return false;
        }
        if !is_apart(map, i) {
            proof {
                let k = choose|k: int|
                    0 <= k < i && !((#[trigger] chunks[k]).end < c.start || c.end
                        < chunks[k].start);
                assert(!chunk::disjoint(chunks)) by {
                    assert(!(chunks[k].end < chunks[i as int].start || chunks[i as int].end
                        < chunks[k].start));
                }
            }
            return false;
        }
        if c.end != total - 1 && (c.end >= total || !has_start(map, c.end + 1)) {
            proof {
                if fits(chunks, total as int) {
                    lemma_chained(chunks, total as int);
                    assert(leads_on(chunks, chunks[i as int], total as int));
                }
            }
            return false;
        }
        i += 1;
    }
    proof {
        lemma_chain_covers(chunks, total as int);
    }
    true
}

proof fn lemma_nothing_covers_nothing(chunks: Seq<Chunk>)
    ensures
        fits(chunks, 0) <==> chunks.len() == 0,
{
    if chunks.len() > 0 && fits(chunks, 0) {
        assert(chunks[0].is_sized());
        assert(chunks[0].holds(chunks[0].start as int));
        assert(chunk::covered(chunks, chunks[0].start as int));
    }
}

/// The chunks of a file begin at its first byte, and each leads on to the next.
proof fn lemma_chained(chunks: Seq<Chunk>, total: int)
    requires
        0 < total,
        fits(chunks, total),
    ensures
        begins_at(chunks, 0),
        forall|i: int| 0 <= i < chunks.len() ==> leads_on(chunks, #[trigger] chunks[i], total),
{
    assert(chunk::covered(chunks, 0));
    let first = choose|i: int| 0 <= i < chunks.len() && (#[trigger] chunks[i]).holds(0);
    assert(chunks[first].start == 0);
    assert forall|i: int| 0 <= i < chunks.len() implies leads_on(
        chunks,
        #[trigger] chunks[i],
        total,
    ) by {
        let c = chunks[i];
        assert(c.is_sized());
        assert(c.holds(c.end as int));
        assert(chunk::covered(chunks, c.end as int));
        if c.end + 1 < total {
            assert(chunk::covered(chunks, c.end + 1));
            let j = choose|j: int| 0 <= j < chunks.len() && (#[trigger] chunks[j]).holds(c.end + 1);
            assert(j != i);
            if i < j {
                assert(chunks[i].end < chunks[j].start || chunks[j].end < chunks[i].start);
            } else {
                assert(chunks[j].end < chunks[i].start || chunks[i].end < chunks[j].start);
            }
            assert(chunks[j].start == c.end + 1);
        }
    }
}

/// A chain of chunks from the first byte on covers the file.
proof fn lemma_chain_covers(chunks: Seq<Chunk>, total: int)
    requires
        0 < total,
        chunk::all_sized(chunks),
        begins_at(chunks, 0),
        forall|i: int| 0 <= i < chunks.len() ==> leads_on(chunks, #[trigger] chunks[i], total),
    ensures
        forall|b: int| #[trigger] chunk::covered(chunks, b) <==> 0 <= b < total,
{
    assert forall|b: int| #[trigger] chunk::covered(chunks, b) <==> 0 <= b < total by {
        if chunk::covered(chunks, b) {
            let i = choose|i: int| 0 <= i < chunks.len() && (#[trigger] chunks[i]).holds(b);
            assert(leads_on(chunks, chunks[i], total));
        }
        if 0 <= b < total {
            lemma_byte_covered(chunks, total, b);
        }
    }
}

proof fn lemma_byte_covered(chunks: Seq<Chunk>, total: int, b: int)
    requires
        0 <= b < total,
        chunk::all_sized(chunks),
        begins_at(chunks, 0),
        forall|i: int| 0 <= i < chunks.len() ==> leads_on(chunks, #[trigger] chunks[i], total),
    ensures
        chunk::covered(chunks, b),
    decreases b,
{
    if b == 0 {
        let i = choose|i: int| 0 <= i < chunks.len() && (#[trigger] chunks[i]).start == 0;
        assert(chunks[i].is_sized());
        assert(chunks[i].holds(0));
    } else {
        lemma_byte_covered(chunks, total, b - 1);
        let i = choose|i: int| 0 <= i < chunks.len() && (#[trigger] chunks[i]).holds(b - 1);
        if chunks[i].end >= b {
            assert(chunks[i].holds(b));
        } else {
            assert(leads_on(chunks, chunks[i], total));
            let j = choose|j: int| 0 <= j < chunks.len() && (#[trigger] chunks[j]).start == b;
            assert(chunks[j].is_sized());
            assert(chunks[j].holds(b));
        }
    }
}

/// Every saved chunk as it is used again.
pub fn revive(map: &ChunkMap) -> (fresh: ChunkMap)
    requires
        chunk::all_sized(map.chunks@),
    ensures
        fresh.chunks@ == all_revived(map.chunks@),
{
    let mut chunks: Vec<Chunk> = Vec::new();
    let mut i: usize = 0;
    while i < map.chunks.len()
        invariant
            i <= map.chunks@.len(),
            chunk::all_sized(map.chunks@),
            chunks@ == all_revived(map.chunks@).take(i as int),
        decreases map.chunks@.len() - i,
    {
        let mut c = map.chunks[i];
        assert(map.chunks@[i as int].is_sized());
        let length: u64 = c.len();
        if c.downloaded >= length {
            c.downloaded = length;
            c.state = ChunkState::Complete;
        } else {
            c.state = ChunkState::Pending;
        }
        chunks.push(c);
        i += 1;
        assert(chunks@ =~= all_revived(map.chunks@).take(i as int));
    }
    assert(all_revived(map.chunks@).take(i as int) =~= all_revived(map.chunks@));
    ChunkMap { chunks }
}

/// How long a file is at least that holds what was downloaded.
pub fn least_length(map: &ChunkMap) -> (n: u64)
    requires
        forall|i: int|
            0 <= i < map.chunks@.len() ==> reach_of(#[trigger] map.chunks@[i]) <= u64::MAX,
    ensures
        n == reach(map.chunks@),
{
    let mut n: u64 = 0;
    let mut i: usize = 0;
    while i < map.chunks.len()
        invariant
            i <= map.chunks@.len(),
            forall|k: int|
                0 <= k < map.chunks@.len() ==> reach_of(#[trigger] map.chunks@[k]) <= u64::MAX,
            n == reach(map.chunks@.take(i as int)),
        decreases map.chunks@.len() - i,
    {
        let c = map.chunks[i];
        proof {
            assert(reach_of(map.chunks@[i as int]) <= u64::MAX);
            assert(map.chunks@.take(i + 1).drop_last() =~= map.chunks@.take(i as int));
        }
        if c.downloaded > 0 && c.start + c.downloaded > n {
            n = c.start + c.downloaded;
        }
        i += 1;
    }
    assert(map.chunks@.take(i as int) =~= map.chunks@);
    n
}

// ─── Laws ────────────────────────────────────────────────────────────────────

/// Reviving keeps the ranges, so that the chunks still cover the file, and keeps
/// what was downloaded of each; nothing is in flight, and what is complete has
/// all its bytes.
pub proof fn reviving_keeps_what_was_downloaded(chunks: Seq<Chunk>, total: int)
    requires
        fits(chunks, total),
    ensures
        fits(all_revived(chunks), total),
        forall|i: int|
            0 <= i < chunks.len() ==> {
                let c = #[trigger] all_revived(chunks)[i];
                &&& c.start == chunks[i].start && c.end == chunks[i].end
                &&& c.downloaded == (if chunks[i].downloaded <= chunks[i].length() {
                    chunks[i].downloaded as int
                } else {
                    chunks[i].length()
                })
                &&& c.state is Complete <==> c.done()
                &&& c.state is Complete || c.state is Pending
            },
{
    let after = all_revived(chunks);
    assert forall|i: int| 0 <= i < chunks.len() implies (#[trigger] after[i]).is_sized() by {
        assert(chunks[i].is_sized());
    }
    assert(chunk::same_ranges(chunks, after));
    chunk::coverage_depends_on_ranges(chunks, after, total);
    assert forall|i: int| 0 <= i < chunks.len() implies (#[trigger] after[i]).state
        is Complete <==> after[i].done() by {
        assert(chunks[i].is_sized());
    }
}

/// What is downloaded of the chunks of a file lies within the file.
pub proof fn reach_is_within_the_file(chunks: Seq<Chunk>, total: int)
    requires
        fits(chunks, total),
        0 <= total,
    ensures
        0 <= reach(all_revived(chunks)) <= total,
        forall|i: int|
            0 <= i < chunks.len() ==> reach_of(#[trigger] all_revived(chunks)[i]) <= total,
{
    let after = all_revived(chunks);
    assert forall|i: int| 0 <= i < chunks.len() implies reach_of(#[trigger] after[i]) <= total by {
        let c = chunks[i];
        assert(c.is_sized());
        assert(c.holds(c.end as int));
        assert(chunk::covered(chunks, c.end as int));
    }
    lemma_reach_bound(after, total);
}

proof fn lemma_reach_bound(chunks: Seq<Chunk>, total: int)
    requires
        0 <= total,
        forall|i: int| 0 <= i < chunks.len() ==> reach_of(#[trigger] chunks[i]) <= total,
    ensures
        0 <= reach(chunks) <= total,
    decreases chunks.len(),
{
    if chunks.len() > 0 {
        assert forall|i: int| 0 <= i < chunks.len() - 1 implies reach_of(
            #[trigger] chunks.drop_last()[i],
        ) <= total by {
            assert(reach_of(chunks[i]) <= total);
        }
        lemma_reach_bound(chunks.drop_last(), total);
        assert(reach_of(chunks[chunks.len() - 1]) <= total);
    }
}

/// The chunks are those of a file exactly if each has a range that a `u64` can count,
/// stands at its index, and every byte of the file, and no other, lies in just one.
pub proof fn fitting_chunks_have_each_byte_once(chunks: Seq<Chunk>, total: int)
    ensures
        fits(chunks, total) <==> {
            &&& forall|i: int|
                0 <= i < chunks.len() ==> {
                    &&& (#[trigger] chunks[i]).start <= chunks[i].end
                    &&& chunks[i].end - chunks[i].start < u64::MAX
                    &&& chunks[i].index == i
                }
            &&& forall|i: int, b: int|
                0 <= i < chunks.len() && (#[trigger] chunks[i]).start <= b <= chunks[i].end
                    && #[trigger] a_byte(b) ==> 0 <= b < total
            &&& forall|b: int|
                0 <= b < total && #[trigger] a_byte(b) ==> exists|i: int|
                    0 <= i < chunks.len() && (#[trigger] chunks[i]).start <= b <= chunks[i].end
            &&& forall|i: int, j: int, b: int|
                0 <= i < chunks.len() && 0 <= j < chunks.len() && (#[trigger] chunks[i]).start <= b
                    <= chunks[i].end && (#[trigger] chunks[j]).start <= b <= chunks[j].end
                    && #[trigger] a_byte(b) ==> i == j
        },
{
    let ranged = forall|i: int|
        0 <= i < chunks.len() ==> {
            &&& (#[trigger] chunks[i]).start <= chunks[i].end
            &&& chunks[i].end - chunks[i].start < u64::MAX
            &&& chunks[i].index == i
        };
    let within = forall|i: int, b: int|
        0 <= i < chunks.len() && (#[trigger] chunks[i]).start <= b <= chunks[i].end
            && #[trigger] a_byte(b) ==> 0 <= b < total;
    let all = forall|b: int|
        0 <= b < total && #[trigger] a_byte(b) ==> exists|i: int|
            0 <= i < chunks.len() && (#[trigger] chunks[i]).start <= b <= chunks[i].end;
    let once = forall|i: int, j: int, b: int|
        0 <= i < chunks.len() && 0 <= j < chunks.len() && (#[trigger] chunks[i]).start <= b
            <= chunks[i].end && (#[trigger] chunks[j]).start <= b <= chunks[j].end
            && #[trigger] a_byte(b) ==> i == j;
    if fits(chunks, total) {
        assert forall|i: int| 0 <= i < chunks.len() implies {
            &&& (#[trigger] chunks[i]).start <= chunks[i].end
            &&& chunks[i].end - chunks[i].start < u64::MAX
            &&& chunks[i].index == i
        } by {
            assert(chunks[i].is_sized());
        }
        assert forall|i: int, b: int|
            0 <= i < chunks.len() && (#[trigger] chunks[i]).start <= b <= chunks[i].end
                && #[trigger] a_byte(b) implies 0 <= b < total by {
            assert(chunks[i].holds(b));
            assert(chunk::covered(chunks, b));
        }
        assert forall|b: int| 0 <= b < total && #[trigger] a_byte(b) implies exists|i: int|
            0 <= i < chunks.len() && (#[trigger] chunks[i]).start <= b <= chunks[i].end by {
            assert(chunk::covered(chunks, b));
            let i = choose|i: int| 0 <= i < chunks.len() && (#[trigger] chunks[i]).holds(b);
            assert(chunks[i].start <= b <= chunks[i].end);
        }
        assert forall|i: int, j: int, b: int|
            0 <= i < chunks.len() && 0 <= j < chunks.len() && (#[trigger] chunks[i]).start <= b
                <= chunks[i].end && (#[trigger] chunks[j]).start <= b <= chunks[j].end
                && #[trigger] a_byte(b) implies i == j by {
            if i < j {
                assert(chunks[i].end < chunks[j].start || chunks[j].end < chunks[i].start);
            }
            if j < i {
                assert(chunks[j].end < chunks[i].start || chunks[i].end < chunks[j].start);
            }
        }
    }
    if ranged && within && all && once {
        assert forall|i: int, j: int| 0 <= i < j < chunks.len() implies (
        #[trigger] chunks[i]).end < (#[trigger] chunks[j]).start || chunks[j].end
            < chunks[i].start by {
            let b: int = if chunks[i].start < chunks[j].start {
                chunks[j].start as int
            } else {
                chunks[i].start as int
            };
            assert(a_byte(b));
            assert(chunks[i].start <= chunks[i].end && chunks[j].start <= chunks[j].end);
        }
        assert forall|b: int| #[trigger] chunk::covered(chunks, b) <==> 0 <= b < total by {
            assert(a_byte(b));
            if chunk::covered(chunks, b) {
                let i = choose|i: int| 0 <= i < chunks.len() && (#[trigger] chunks[i]).holds(b);
                assert(chunks[i].start <= b <= chunks[i].end);
            }
            if 0 <= b < total {
                let i = choose|i: int|
                    0 <= i < chunks.len() && (#[trigger] chunks[i]).start <= b <= chunks[i].end;
                assert(chunks[i].holds(b));
            }
        }
    }
}

/// Names a byte's place in a file.
pub open spec fn a_byte(b: int) -> bool {
    true
}

/// A file that holds what was downloaded reaches as far as the last byte of it: no chunk
/// has bytes beyond, and, unless there are none, some chunk's bytes end there.
pub proof fn the_reach_is_the_end_of_the_last_byte(chunks: Seq<Chunk>)
    ensures
        0 <= reach(chunks),
        forall|i: int|
            0 <= i < chunks.len() && (#[trigger] chunks[i]).downloaded > 0 ==> chunks[i].start
                + chunks[i].downloaded <= reach(chunks),
        reach(chunks) > 0 ==> exists|i: int|
            0 <= i < chunks.len() && (#[trigger] chunks[i]).downloaded > 0 && chunks[i].start
                + chunks[i].downloaded == reach(chunks),
    decreases chunks.len(),
{
    if chunks.len() > 0 {
        let front = chunks.drop_last();
        the_reach_is_the_end_of_the_last_byte(front);
        let n = chunks.len() - 1;
        assert(chunks[n] == chunks.last());
        assert forall|i: int|
            0 <= i < chunks.len() && (#[trigger] chunks[i]).downloaded > 0 implies chunks[i].start
            + chunks[i].downloaded <= reach(chunks) by {
            if i < n {
                assert(front[i] == chunks[i]);
            }
        }
        if reach(chunks) > 0 {
            if reach_of(chunks.last()) > reach(front) {
                assert(chunks[n].downloaded > 0);
            } else {
                let i = choose|i: int|
                    0 <= i < front.len() && (#[trigger] front[i]).downloaded > 0
                        && front[i].start + front[i].downloaded == reach(front);
                assert(chunks[i].downloaded > 0);
            }
        }
    }
}

/// A saved chunk that has all its bytes is complete, with as many as its range holds;
/// any other waits to be fetched, with the bytes that it has. Its range and index stay.
pub proof fn saved_chunks_are_complete_or_wait(chunks: Seq<Chunk>)
    requires
        forall|i: int|
            0 <= i < chunks.len() ==> (#[trigger] chunks[i]).start <= chunks[i].end
                && chunks[i].end - chunks[i].start < u64::MAX,
    ensures
        all_revived(chunks).len() == chunks.len(),
        forall|i: int|
            0 <= i < chunks.len() ==> {
                let before = #[trigger] chunks[i];
                let c = all_revived(chunks)[i];
                &&& c.start == before.start && c.end == before.end && c.index == before.index
                &&& before.downloaded <= before.end - before.start ==> c.downloaded
                    == before.downloaded && c.state == ChunkState::Pending
                &&& before.downloaded > before.end - before.start ==> c.downloaded == before.end
                    - before.start + 1 && c.state == ChunkState::Complete
            },
{
}

} // verus!
