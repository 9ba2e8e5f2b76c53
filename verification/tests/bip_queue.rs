//! Behavioural tests of the byte queue: FIFO delivery across arbitrary
//! interleavings of grant/commit and read/release, wrap-around, and the
//! rule that uncommitted bytes are never observable.

use deadbug::bip::{BipBuffer, QueueError};

/// Commit `bytes` to the queue through one grant.
fn produce(q: &mut BipBuffer, bytes: &[u8]) {
    let g = q.grant(bytes.len()).expect("grant");
    for (i, &b) in bytes.iter().enumerate() {
        q.write_byte(&g, i, b);
    }
    q.commit(bytes.len(), g);
}

/// Read and release up to `max` bytes.
fn consume(q: &mut BipBuffer, max: usize) -> Vec<u8> {
    let mut out = Vec::new();
    match q.read() {
        Ok(g) => {
            let take = g.len().min(max);
            for i in 0..take {
                out.push(q.read_byte(&g, i));
            }
            q.release(take, g);
        }
        Err(_) => {}
    }
    out
}

#[test]
fn fifo_order_is_kept_across_interleavings() {
    // every interleaving pattern of produce/consume must deliver exactly
    // the committed bytes, in commit order
    let patterns: [&[(usize, usize)]; 4] = [
        &[(4, 0), (0, 2), (3, 0), (0, 5), (2, 0), (0, 9)],
        &[(7, 7), (7, 7), (7, 7)],
        &[(1, 0), (1, 0), (1, 0), (0, 1), (0, 1), (0, 1)],
        &[(8, 0), (0, 7), (7, 0), (0, 7), (7, 0), (0, 20)],
    ];
    for pattern in patterns {
        let mut q = BipBuffer::new(16);
        let mut sent: Vec<u8> = Vec::new();
        let mut got: Vec<u8> = Vec::new();
        let mut next: u8 = 1;
        for &(produce_n, consume_n) in pattern {
            if produce_n > 0 {
                let bytes: Vec<u8> = (0..produce_n)
                    .map(|k| next.wrapping_add(k as u8))
                    .collect();
                next = next.wrapping_add(produce_n as u8);
                produce(&mut q, &bytes);
                sent.extend_from_slice(&bytes);
            }
            if consume_n > 0 {
                got.extend(consume(&mut q, consume_n));
            }
        }
        // drain whatever is left, across the wrap boundary if any
        loop {
            let part = consume(&mut q, usize::MAX);
            if part.is_empty() {
                break;
            }
            got.extend(part);
        }
        assert_eq!(got, sent);
    }
}

#[test]
fn wrapping_skips_the_tail_and_delivers_in_order() {
    let mut q = BipBuffer::new(8);
    produce(&mut q, &[1, 2, 3, 4, 5, 6]);
    // drain four, leaving two bytes near the end of storage
    assert_eq!(consume(&mut q, 4), vec![1, 2, 3, 4]);
    // five contiguous bytes do not fit in the tail: the grant wraps
    produce(&mut q, &[7, 8, 9]);
    assert_eq!(consume(&mut q, usize::MAX), vec![5, 6]);
    assert_eq!(consume(&mut q, usize::MAX), vec![7, 8, 9]);
}

#[test]
fn uncommitted_bytes_are_not_observable() {
    let mut q = BipBuffer::new(8);
    produce(&mut q, &[10, 20]);
    let g = q.grant(3).expect("grant");
    q.write_byte(&g, 0, 30);
    q.write_byte(&g, 1, 40);
    // nothing past the committed two bytes is readable
    let r = q.read().expect("read");
    assert_eq!(r.len(), 2);
    assert_eq!(q.read_byte(&r, 0), 10);
    assert_eq!(q.read_byte(&r, 1), 20);
    q.release(2, r);
    assert!(matches!(q.read(), Err(QueueError::InsufficientSize)));
    // committing publishes only the committed prefix
    q.write_byte(&g, 2, 50);
    q.commit(2, g);
    assert_eq!(consume(&mut q, usize::MAX), vec![30, 40]);
    assert!(matches!(q.read(), Err(QueueError::InsufficientSize)));
}

#[test]
fn one_grant_per_side() {
    let mut q = BipBuffer::new(8);
    let g = q.grant(2).expect("grant");
    assert!(matches!(q.grant(1), Err(QueueError::GrantInProgress)));
    q.write_byte(&g, 0, 1);
    q.write_byte(&g, 1, 2);
    q.commit(2, g);
    let r = q.read().expect("read");
    assert!(matches!(q.read(), Err(QueueError::GrantInProgress)));
    q.release(1, r);
    assert_eq!(consume(&mut q, usize::MAX), vec![2]);
}

#[test]
fn grant_refused_without_room() {
    let mut q = BipBuffer::new(4);
    assert!(matches!(q.grant(5), Err(QueueError::InsufficientSize)));
    produce(&mut q, &[1, 2, 3]);
    // neither the tail nor the head holds three contiguous free bytes
    assert!(matches!(q.grant(3), Err(QueueError::InsufficientSize)));
    assert_eq!(consume(&mut q, usize::MAX), vec![1, 2, 3]);
    // a zero-sized grant always succeeds when none is outstanding
    let g = q.grant(0).expect("empty grant");
    q.commit(0, g);
    assert!(matches!(q.read(), Err(QueueError::InsufficientSize)));
}

#[test]
fn commit_zero_publishes_nothing() {
    let mut q = BipBuffer::new(8);
    let g = q.grant(4).expect("grant");
    q.write_byte(&g, 0, 9);
    q.commit(0, g);
    assert!(matches!(q.read(), Err(QueueError::InsufficientSize)));
    // the producer can reserve again afterwards
    produce(&mut q, &[5]);
    assert_eq!(consume(&mut q, usize::MAX), vec![5]);
}

#[test]
fn release_prefix_keeps_the_rest() {
    let mut q = BipBuffer::new(8);
    produce(&mut q, &[1, 2, 3, 4]);
    let r = q.read().expect("read");
    assert_eq!(r.len(), 4);
    q.release(0, r);
    // releasing nothing leaves the bytes in place for a later attempt
    assert_eq!(consume(&mut q, usize::MAX), vec![1, 2, 3, 4]);
}
