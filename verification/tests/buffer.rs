use grounded_guardrails::buffer::DEFAULT_CAPACITY;
use grounded_guardrails::TokenRingBuffer;

#[test]
fn push_and_last_n_returns_most_recent() {
    let mut buf = TokenRingBuffer::new(16);
    for i in 0..10 {
        buf.push(i as u32, i * 10);
    }
    let got: Vec<_> = buf.last_n(3).collect();
    assert_eq!(got, vec![(7, 70), (8, 80), (9, 90)]);
    assert_eq!(buf.len(), 10);
}

#[test]
fn overflow_overwrites_oldest() {
    let mut buf = TokenRingBuffer::new(4);
    for i in 0..14 {
        buf.push(i as u32, i);
    }
    assert_eq!(buf.len(), 4);
    assert_eq!(buf.capacity(), 4);
    let got: Vec<_> = buf.last_n(4).collect();
    assert_eq!(got, vec![(10, 10), (11, 11), (12, 12), (13, 13)]);
}

#[test]
fn last_n_larger_than_len_returns_all() {
    let mut buf = TokenRingBuffer::new(8);
    buf.push(1, 0);
    buf.push(2, 1);
    let got: Vec<_> = buf.last_n(100).collect();
    assert_eq!(got, vec![(1, 0), (2, 1)]);
}

#[test]
fn clear_resets_len_keeps_capacity() {
    let mut buf = TokenRingBuffer::new(8);
    buf.push(1, 0);
    buf.push(2, 1);
    buf.clear();
    assert!(buf.is_empty());
    assert_eq!(buf.capacity(), 8);
    assert!(buf.last_n(3).next().is_none());
    buf.push(9, 99);
    assert_eq!(buf.last_n(1).collect::<Vec<_>>(), vec![(9, 99)]);
}

// The backing storage is private; what is observable from outside is that the capacity
// stays fixed and the buffer stays full after many overwrites.
#[test]
fn push_does_not_grow_backing_storage() {
    let mut buf = TokenRingBuffer::new(64);
    let cap = buf.capacity();
    for i in 0..(cap * 3) {
        buf.push(i as u32, i);
    }
    assert_eq!(buf.capacity(), cap);
    assert_eq!(buf.len(), cap);
    let got: Vec<_> = buf.last_n(cap).collect();
    assert_eq!(got.len(), cap);
    assert_eq!(got[0], ((cap * 2) as u32, cap * 2));
    assert_eq!(got[cap - 1], ((cap * 3 - 1) as u32, cap * 3 - 1));
}

/// A small deterministic generator for the randomized checks below.
fn next_rand(state: &mut u64) -> u64 {
    *state ^= *state << 13;
    *state ^= *state >> 7;
    *state ^= *state << 17;
    *state
}

#[test]
fn len_never_exceeds_capacity() {
    let mut seed = 0x9E37_79B9_7F4A_7C15u64;
    for capacity in 1usize..128 {
        let mut buf = TokenRingBuffer::new(capacity);
        let ops = (next_rand(&mut seed) % 300) as usize;
        for _ in 0..ops {
            let tok = next_rand(&mut seed) as u32;
            let pos = next_rand(&mut seed) as usize;
            buf.push(tok, pos);
            assert!(buf.len() <= capacity);
        }
    }
}

#[test]
fn last_n_matches_tail_of_logical_log() {
    let mut seed = 0x1234_5678_9ABC_DEF1u64;
    for round in 0..400 {
        let capacity = 1 + (next_rand(&mut seed) % 63) as usize;
        let count = 1 + (next_rand(&mut seed) % 199) as usize;
        let n = (next_rand(&mut seed) % 80) as usize;
        let mut buf = TokenRingBuffer::new(capacity);
        let mut logical: Vec<(u32, usize)> = Vec::new();
        for i in 0..count {
            let tok = next_rand(&mut seed) as u32;
            buf.push(tok, i);
            logical.push((tok, i));
            if logical.len() > capacity {
                logical.remove(0);
            }
        }
        let expected: Vec<_> = if n >= logical.len() {
            logical.clone()
        } else {
            logical[logical.len() - n..].to_vec()
        };
        let got: Vec<_> = buf.last_n(n).collect();
        assert_eq!(got, expected, "round {round}");
    }
}

#[test]
fn with_default_capacity_is_4096() {
    let buf = TokenRingBuffer::with_default_capacity();
    assert_eq!(buf.capacity(), 4096);
    assert_eq!(DEFAULT_CAPACITY, 4096);
    assert!(buf.is_empty());
    assert_eq!(buf.len(), 0);
}

#[test]
fn capacity_one_keeps_only_latest() {
    let mut buf = TokenRingBuffer::new(1);
    buf.push(5, 50);
    buf.push(6, 60);
    assert_eq!(buf.len(), 1);
    assert_eq!(buf.last_n(5).collect::<Vec<_>>(), vec![(6, 60)]);
    assert!(buf.last_n(0).next().is_none());
}

#[test]
fn clone_is_independent() {
    let mut buf = TokenRingBuffer::new(3);
    buf.push(1, 1);
    buf.push(2, 2);
    let copy = buf.clone();
    buf.push(3, 3);
    buf.push(4, 4);
    assert_eq!(copy.last_n(10).collect::<Vec<_>>(), vec![(1, 1), (2, 2)]);
    assert_eq!(buf.last_n(10).collect::<Vec<_>>(), vec![(2, 2), (3, 3), (4, 4)]);
    assert_eq!(copy.capacity(), 3);
}

#[test]
fn buffer_is_send_and_sync() {
    fn assert_send_sync<T: Send + Sync>() {}
    assert_send_sync::<TokenRingBuffer>();
}

#[test]
fn capacity_fixed_over_pushes_and_clears() {
    let mut buf = TokenRingBuffer::new(5);
    for round in 0..4usize {
        for i in 0..(round * 3) {
            buf.push(i as u32, i);
            assert_eq!(buf.capacity(), 5);
            assert_eq!(buf.len(), (i + 1).min(5));
        }
        buf.clear();
        assert_eq!(buf.capacity(), 5);
        assert!(buf.is_empty());
    }
}

#[test]
fn last_n_at_reads_window_in_place() {
    let mut buf = TokenRingBuffer::new(4);
    for i in 0..7 {
        buf.push(i as u32, i * 2);
    }
    let all: Vec<_> = buf.last_n(3).collect();
    let by_index: Vec<_> = (0..3).map(|i| buf.last_n_at(3, i)).collect();
    assert_eq!(by_index, all);
    assert_eq!(buf.last_n_at(10, 0), (3, 6));
    assert_eq!(buf.last_n_at(10, 3), (6, 12));
}
