//! What the workers' writes make of the output file.

use crate::engine::chunk;
use crate::engine::chunk::Chunk;
use crate::engine::io::WriteView;
use crate::engine::worker;
use crate::engine::worker::TransferView;
use vstd::prelude::*;

verus! {

/// The write reaches byte `b`.
pub open spec fn reaches(op: WriteView, b: int) -> bool {
    op.offset <= b < op.offset + op.data.len()
}

/// The file after a write at its offset; the file's size stays.
pub open spec fn written(file: Seq<u8>, op: WriteView) -> Seq<u8> {
    Seq::new(
        file.len(),
        |b: int|
            if reaches(op, b) {
                op.data[b - op.offset]
            } else {
                file[b]
            },
    )
}

/// The file after all writes, one after the other.
pub open spec fn all_written(file: Seq<u8>, ops: Seq<WriteView>) -> Seq<u8>
    decreases ops.len(),
{
    if ops.len() == 0 {
        file
    } else {
        written(all_written(file, ops.drop_last()), ops.last())
    }
}

/// The write holds the source's own bytes.
pub open spec fn faithful(op: WriteView, source: Seq<u8>) -> bool {
    &&& op.offset + op.data.len() <= source.len()
    &&& op.data == source.subrange(op.offset as int, op.offset + op.data.len())
}

/// Every write holds the source's own bytes.
pub open spec fn all_faithful(ops: Seq<WriteView>, source: Seq<u8>) -> bool {
    forall|i: int| 0 <= i < ops.len() ==> faithful(#[trigger] ops[i], source)
}

/// Some write reaches byte `b`.
pub open spec fn reached(ops: Seq<WriteView>, b: int) -> bool {
    exists|i: int| 0 <= i < ops.len() && reaches(#[trigger] ops[i], b)
}

/// Two writes that share no byte can be made in either order.
pub proof fn disjoint_writes_commute(file: Seq<u8>, a: WriteView, b: WriteView)
    requires
        a.offset + a.data.len() <= b.offset || b.offset + b.data.len() <= a.offset,
    ensures
        written(written(file, a), b) == written(written(file, b), a),
{
    assert(written(written(file, a), b) =~= written(written(file, b), a));
}

/// After faithful writes, in whatever order and however often they overlap,
/// every byte that was reached is the source's, and every other is as it was.
pub proof fn faithful_writes_copy_the_source(
    file: Seq<u8>,
    ops: Seq<WriteView>,
    source: Seq<u8>,
)
    requires
        file.len() == source.len(),
        all_faithful(ops, source),
    ensures
        all_written(file, ops).len() == source.len(),
        forall|b: int|
            0 <= b < source.len() ==> #[trigger] all_written(file, ops)[b] == (if reached(ops, b) {
                source[b]
            } else {
                file[b]
            }),
    decreases ops.len(),
{
    if ops.len() > 0 {
        let front = ops.drop_last();
        assert(forall|i: int| 0 <= i < front.len() ==> front[i] == ops[i]);
        assert(all_faithful(front, source));
        faithful_writes_copy_the_source(file, front, source);
        let last = ops.last();
        assert(faithful(ops[ops.len() - 1], source));
        assert forall|b: int| 0 <= b < source.len() implies #[trigger] all_written(file, ops)[b]
            == (if reached(ops, b) {
            source[b]
        } else {
            file[b]
        }) by {
            if reaches(last, b) {
                assert(reaches(ops[ops.len() - 1], b));
                assert(last.data[b - last.offset] == source[b]);
            } else {
                assert(reached(ops, b) <==> reached(front, b)) by {
                    if reached(ops, b) {
                        let i = choose|i: int| 0 <= i < ops.len() && reaches(#[trigger] ops[i], b);
                        assert(reaches(front[i], b));
                    }
                    if reached(front, b) {
                        let i = choose|i: int|
                            0 <= i < front.len() && reaches(#[trigger] front[i], b);
                        assert(reaches(ops[i], b));
                    }
                }
            }
        }
    }
}

/// Writes that lay down a range of the source are faithful, and reach exactly
/// the bytes of that range.
pub proof fn laid_down_writes_are_faithful(
    ops: Seq<WriteView>,
    offset: int,
    data: Seq<u8>,
    source: Seq<u8>,
)
    requires
        worker::lay_down(ops, offset, data),
        0 <= offset,
        offset + data.len() <= source.len(),
        data == source.subrange(offset, offset + data.len()),
    ensures
        all_faithful(ops, source),
        forall|b: int| #[trigger] reached(ops, b) <==> offset <= b < offset + data.len(),
    decreases ops.len(),
{
    if ops.len() > 0 {
        let n = ops[0].data.len() as int;
        let rest = ops.drop_first();
        assert(data.skip(n) =~= source.subrange(offset + n, offset + n + data.skip(n).len()));
        laid_down_writes_are_faithful(rest, offset + n, data.skip(n), source);
        assert(data.take(n) =~= source.subrange(offset, offset + n));
        assert forall|i: int| 0 <= i < ops.len() implies faithful(#[trigger] ops[i], source) by {
            if i > 0 {
                assert(rest[i - 1] == ops[i]);
            }
        }
        assert forall|b: int| #[trigger] reached(ops, b) <==> offset <= b < offset + data.len() by {
            assert(reached(rest, b) <==> offset + n <= b < offset + data.len());
            if reached(ops, b) {
                let i = choose|i: int| 0 <= i < ops.len() && reaches(#[trigger] ops[i], b);
                if i > 0 {
                    assert(reaches(rest[i - 1], b));
                }
            }
            if offset <= b < offset + n {
                assert(reaches(ops[0], b));
            } else if reached(rest, b) {
                let i = choose|i: int| 0 <= i < rest.len() && reaches(#[trigger] rest[i], b);
                assert(reaches(ops[i + 1], b));
            }
        }
    }
}

/// The transfer has just begun, wherever in the file, and the pieces that it is
/// fed are the source's bytes from there on, however many.
pub open spec fn fed(t: TransferView, pieces: Seq<Seq<u8>>, source: Seq<u8>) -> bool {
    &&& t.sent == 0
    &&& t.buf.len() == 0
    &&& t.offset() + worker::stream(pieces).len() <= source.len()
    &&& worker::stream(pieces) == source.subrange(
        t.offset(),
        t.offset() + worker::stream(pieces).len(),
    )
}

/// The transfer brings byte `b`.
pub open spec fn brings(t: TransferView, pieces: Seq<Seq<u8>>, b: int) -> bool {
    t.offset() <= b < t.offset() + worker::stream(pieces).len()
}

/// Some transfer brings byte `b`.
pub open spec fn brought(
    transfers: Seq<TransferView>,
    pieces: Seq<Seq<Seq<u8>>>,
    b: int,
) -> bool {
    exists|i: int| 0 <= i < transfers.len() && brings(#[trigger] transfers[i], pieces[i], b)
}

/// The writes are those of all transfers, in whatever order they were made.
pub open spec fn made_of(
    ops: Seq<WriteView>,
    transfers: Seq<TransferView>,
    pieces: Seq<Seq<Seq<u8>>>,
) -> bool {
    &&& forall|k: int|
        0 <= k < ops.len() ==> exists|i: int|
            0 <= i < transfers.len() && worker::writes(
                #[trigger] transfers[i],
                pieces[i],
            ).contains(#[trigger] ops[k])
    &&& forall|i: int, k: int|
        0 <= i < transfers.len() && 0 <= k < worker::writes(transfers[i], pieces[i]).len()
            ==> ops.contains(#[trigger] worker::writes(transfers[i], pieces[i])[k])
}

/// Whatever transfers there were, beginning at any offset, overlapping, broken off
/// and taken up again, each fed with the source's bytes: if every byte was brought
/// by one of them or was right in the file before, the file ends as the source,
/// however the writes are interleaved.
pub proof fn transfers_assemble_the_source(
    file: Seq<u8>,
    source: Seq<u8>,
    transfers: Seq<TransferView>,
    pieces: Seq<Seq<Seq<u8>>>,
    ops: Seq<WriteView>,
)
    requires
        file.len() == source.len() <= u64::MAX,
        transfers.len() == pieces.len(),
        forall|i: int| 0 <= i < transfers.len() ==> fed(#[trigger] transfers[i], pieces[i], source),
        made_of(ops, transfers, pieces),
        forall|b: int|
            0 <= b < source.len() ==> #[trigger] file[b] == source[b] || brought(
                transfers,
                pieces,
                b,
            ),
    ensures
        all_written(file, ops) == source,
{
    assert forall|i: int| 0 <= i < transfers.len() implies {
        let w = worker::writes(#[trigger] transfers[i], pieces[i]);
        &&& all_faithful(w, source)
        &&& forall|b: int| #[trigger] reached(w, b) <==> brings(transfers[i], pieces[i], b)
    } by {
        let t = transfers[i];
        let data = worker::stream(pieces[i]);
        assert(fed(t, pieces[i], source));
        worker::transfer_writes_the_stream(t, pieces[i]);
        assert(t.buf + data =~= data);
        laid_down_writes_are_faithful(worker::writes(t, pieces[i]), t.offset(), data, source);
    }
    assert(all_faithful(ops, source)) by {
        assert forall|k: int| 0 <= k < ops.len() implies faithful(#[trigger] ops[k], source) by {
            let i = choose|i: int|
                0 <= i < transfers.len() && worker::writes(
                    #[trigger] transfers[i],
                    pieces[i],
                ).contains(ops[k]);
            let w = worker::writes(transfers[i], pieces[i]);
            assert(all_faithful(w, source));
            let j = choose|j: int| 0 <= j < w.len() && w[j] == ops[k];
            assert(faithful(w[j], source));
        }
    }
    faithful_writes_copy_the_source(file, ops, source);
    assert forall|b: int| 0 <= b < source.len() implies file[b] == source[b] || reached(ops, b) by {
        if brought(transfers, pieces, b) {
            let i = choose|i: int|
                0 <= i < transfers.len() && brings(#[trigger] transfers[i], pieces[i], b);
            let w = worker::writes(transfers[i], pieces[i]);
            assert(reached(w, b));
            let j = choose|j: int| 0 <= j < w.len() && reaches(#[trigger] w[j], b);
            assert(ops.contains(w[j]));
            let k = choose|k: int| 0 <= k < ops.len() && ops[k] == w[j];
            assert(reaches(ops[k], b));
        } else {
            assert(file[b] == source[b]);
        }
    }
    assert(all_written(file, ops) =~= source);
}

/// A chunk's bytes are there: what counts as downloaded of it was brought or was
/// right in the file before, and the rest was brought.
pub open spec fn accounted(
    c: Chunk,
    file: Seq<u8>,
    source: Seq<u8>,
    transfers: Seq<TransferView>,
    pieces: Seq<Seq<Seq<u8>>>,
) -> bool {
    forall|b: int|
        c.holds(b) ==> #[trigger] brought(transfers, pieces, b) || (b < c.start + c.downloaded
            && file[b] == source[b])
}

/// A file that is divided into chunks ends as the source once every chunk's bytes
/// are there. The chunks may have been split while they were fetched, resumed
/// from an offset, or retried, and they arrive in whatever pieces and order.
pub proof fn a_chunked_download_is_the_source(
    file: Seq<u8>,
    source: Seq<u8>,
    chunks: Seq<Chunk>,
    transfers: Seq<TransferView>,
    pieces: Seq<Seq<Seq<u8>>>,
    ops: Seq<WriteView>,
)
    requires
        file.len() == source.len() <= u64::MAX,
        chunk::partitions(chunks, source.len() as int),
        forall|i: int|
            0 <= i < chunks.len() ==> accounted(
                #[trigger] chunks[i],
                file,
                source,
                transfers,
                pieces,
            ),
        transfers.len() == pieces.len(),
        forall|i: int| 0 <= i < transfers.len() ==> fed(#[trigger] transfers[i], pieces[i], source),
        made_of(ops, transfers, pieces),
    ensures
        all_written(file, ops) == source,
{
    assert forall|b: int| 0 <= b < source.len() implies #[trigger] file[b] == source[b] || brought(
        transfers,
        pieces,
        b,
    ) by {
        assert(chunk::covered(chunks, b));
        let i = choose|i: int| 0 <= i < chunks.len() && (#[trigger] chunks[i]).holds(b);
        assert(accounted(chunks[i], file, source, transfers, pieces));
        assert(brought(transfers, pieces, b) || file[b] == source[b]);
    }
    transfers_assemble_the_source(file, source, transfers, pieces, ops);
}

/// A transfer that begins where a chunk's downloaded bytes end and is fed to the
/// chunk's end, or beyond it where the chunk was shortened meanwhile, accounts for
/// the chunk.
pub proof fn a_resumed_transfer_accounts_for_its_chunk(
    c: Chunk,
    file: Seq<u8>,
    source: Seq<u8>,
    transfers: Seq<TransferView>,
    pieces: Seq<Seq<Seq<u8>>>,
    k: int,
)
    requires
        0 <= k < transfers.len(),
        transfers[k].offset() <= c.start + c.downloaded,
        c.end < transfers[k].offset() + worker::stream(pieces[k]).len(),
        forall|b: int| c.start <= b < c.start + c.downloaded ==> #[trigger] file[b] == source[b],
    ensures
        accounted(c, file, source, transfers, pieces),
{
    assert forall|b: int| c.holds(b) implies #[trigger] brought(transfers, pieces, b) || (b
        < c.start + c.downloaded && file[b] == source[b]) by {
        if b >= c.start + c.downloaded {
            assert(brings(transfers[k], pieces[k], b));
        } else {
            assert(file[b] == source[b]);
        }
    }
}

} // verus!
