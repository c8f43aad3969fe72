use rude_core::engine::chunk::{ChunkMap, WorkQueue};
use rude_core::engine::io::WriteOp;
use rude_core::engine::scheduler::plan_chunks;
use rude_core::engine::worker::Transfer;

fn put(file: &mut [u8], op: &WriteOp) {
    let at = op.offset as usize;
    file[at..at + op.data.len()].copy_from_slice(&op.data);
}

fn source(len: usize) -> Vec<u8> {
    (0..len).map(|i| (i * 7 + i / 251) as u8).collect()
}

#[test]
fn interleaved_chunks_make_the_source() {
    let source = source(3_000_017);
    let map = ChunkMap::new(source.len() as u64, 5);
    let mut file = vec![0u8; source.len()];
    let mut workers: Vec<(Transfer, &[u8])> = map
        .chunks
        .iter()
        .map(|c| (Transfer::new(*c), &source[c.start as usize..=c.end as usize]))
        .collect();
    // every worker takes a piece of its own size in turn
    while workers.iter().any(|(_, rest)| !rest.is_empty()) {
        for (i, (transfer, rest)) in workers.iter_mut().enumerate() {
            let n = rest.len().min(10_000 + 7_001 * i);
            let (piece, later) = rest.split_at(n);
            *rest = later;
            if let Some(op) = transfer.push(piece) {
                put(&mut file, &op);
            }
        }
    }
    for (transfer, _) in workers.iter_mut().rev() {
        if let Some(op) = transfer.finish() {
            put(&mut file, &op);
        }
    }
    assert_eq!(file, source);
}

#[test]
fn stolen_halves_make_the_source_too() {
    let source = source(9_000_000);
    let mut queue = WorkQueue::new(ChunkMap::single(source.len() as u64));
    queue.claim_next(0, true).unwrap();
    queue.steal(1).unwrap();
    queue.update_worker_speed(1, 5);
    queue.steal(2).unwrap();
    let mut file = vec![0u8; source.len()];
    for c in &queue.snapshot().chunks {
        let mut t = Transfer::new(*c);
        let mut ops: Vec<WriteOp> = Vec::new();
        for piece in source[c.start as usize..=c.end as usize].chunks(65_537) {
            ops.extend(t.push(piece));
        }
        ops.extend(t.finish());
        for op in ops.iter().rev() {
            put(&mut file, op);
        }
    }
    assert_eq!(file, source);
}

#[test]
fn writes_apart_do_not_disturb_each_other() {
    let a = WriteOp { offset: 0, data: b"AAAA".to_vec() };
    let b = WriteOp { offset: 512, data: b"BBBB".to_vec() };
    let mut one = vec![0u8; 1024];
    put(&mut one, &a);
    put(&mut one, &b);
    let mut two = vec![0u8; 1024];
    put(&mut two, &b);
    put(&mut two, &a);
    assert_eq!(one, two);
    assert_eq!(&one[0..4], b"AAAA");
    assert_eq!(&one[512..516], b"BBBB");
}

#[test]
fn plans_leave_no_gap() {
    for (len, split) in [(1u64, 4usize), (10, 7), (1_000_003, 8), (4096, 2)] {
        let chunks = plan_chunks(Some(len), 0, split).chunks;
        let mut next = 0;
        for (i, c) in chunks.iter().enumerate() {
            assert_eq!((c.index, c.start), (i, next));
            next = c.end + 1;
        }
        assert_eq!(next, len);
    }
}

#[test]
fn broken_off_and_resumed_transfers_make_the_source() {
    let source = source(2_000_003);
    let mut file = vec![0u8; source.len()];
    let mut queue = WorkQueue::new(ChunkMap::single(source.len() as u64));
    let first = queue.claim_next(0, true).unwrap();
    let mut t = Transfer::new(first);
    let op = t.push(&source[..700_000]).unwrap();
    put(&mut file, &op);
    queue.update_progress(0, op.data.len() as u64);
    // the worker is stopped; the next one begins where its writes ended
    assert!(queue.hand_back(0));
    let second = queue.claim_next(1, true).unwrap();
    assert_eq!(second.current_offset(), 700_000);
    let mut t = Transfer::new(second);
    // a transfer that began earlier writes the same bytes again
    let mut early = Transfer::new(first);
    early.push(&source[..300_000]).map(|op| put(&mut file, &op));
    for piece in source[700_000..].chunks(65_537) {
        t.push(piece).map(|op| put(&mut file, &op));
    }
    t.finish().map(|op| put(&mut file, &op));
    assert_eq!(file, source);
}
