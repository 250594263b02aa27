use bit_vector::{BitState, BitVec, BitVecError};

const W: usize = usize::BITS as usize;

#[test]
fn new_is_empty() {
    let v = BitVec::new();
    assert_eq!(v.len(), 0);
    assert_eq!(v.get(0), Err(BitVecError::OutOfBounds { length: 0 }));
}

#[test]
fn with_blocks_gives_exact_capacity() {
    assert_eq!(BitVec::with_blocks(0).len(), 0);
    assert_eq!(BitVec::with_blocks(3).len(), 3 * W);
}

#[test]
fn with_bits_rounds_up_to_whole_blocks() {
    assert_eq!(BitVec::with_bits(0).len(), 0);
    assert_eq!(BitVec::with_bits(1).len(), W);
    assert_eq!(BitVec::with_bits(W - 1).len(), W);
    assert_eq!(BitVec::with_bits(W + 1).len(), 2 * W);
}

#[test]
fn with_bits_exact_multiple_is_not_over_allocated() {
    assert_eq!(BitVec::with_bits(W).len(), W);
    assert_eq!(BitVec::with_bits(2 * W).len(), 2 * W);
    assert_eq!(BitVec::with_bits(4 * W).len(), 4 * W);
}

#[test]
fn fresh_vectors_read_off() {
    let a = BitVec::with_bits(3 * W + 5);
    for i in 0..a.len() {
        assert_eq!(a.get(i), Ok(BitState::Off));
    }
    let b = BitVec::with_blocks(2);
    for i in 0..b.len() {
        assert_eq!(b.get(i), Ok(BitState::Off));
    }
}

#[test]
fn set_then_get_round_trip() {
    let mut v = BitVec::new();
    for &i in &[0usize, 1, W - 1, W, 3 * W + 7] {
        v.set(i, BitState::On);
        assert_eq!(v.get(i), Ok(BitState::On));
        v.set(i, BitState::Off);
        assert_eq!(v.get(i), Ok(BitState::Off));
    }
}

#[test]
fn set_on_twice_keeps_on() {
    let mut v = BitVec::with_blocks(1);
    v.set(5, BitState::On);
    v.set(5, BitState::On);
    assert_eq!(v.get(5), Ok(BitState::On));
}

#[test]
fn flip_twice_restores_bit() {
    let mut v = BitVec::with_blocks(1);
    v.set(3, BitState::On);
    v.flip(3);
    assert_eq!(v.get(3), Ok(BitState::Off));
    v.flip(3);
    assert_eq!(v.get(3), Ok(BitState::On));
    v.flip(4);
    v.flip(4);
    assert_eq!(v.get(4), Ok(BitState::Off));
}

#[test]
fn flip_past_end_grows_and_sets() {
    let mut v = BitVec::new();
    v.flip(W);
    assert_eq!(v.len(), 2 * W);
    assert_eq!(v.get(W), Ok(BitState::On));
    assert_eq!(v.get(W - 1), Ok(BitState::Off));
}

#[test]
fn length_never_decreases() {
    let mut v = BitVec::with_blocks(4);
    let before = v.len();
    v.set(0, BitState::Off);
    assert_eq!(v.len(), before);
    v.flip(1);
    assert_eq!(v.len(), before);
    let _ = v.get(10 * W);
    assert_eq!(v.len(), before);
    v.set(5 * W, BitState::On);
    assert!(v.len() >= 5 * W + 1);
    assert_eq!(v.len(), 6 * W);
}

#[test]
fn growth_covers_index_on_block_boundary() {
    let mut v = BitVec::new();
    v.set(W - 1, BitState::On);
    assert_eq!(v.len(), W);
    let mut u = BitVec::new();
    u.set(2 * W, BitState::Off);
    assert_eq!(u.len(), 3 * W);
}

#[test]
fn writes_leave_other_bits_alone() {
    let mut v = BitVec::with_blocks(2);
    v.set(W - 1, BitState::On);
    v.set(W + 1, BitState::On);
    v.set(W, BitState::On);
    v.set(W, BitState::Off);
    v.flip(2);
    for i in 0..v.len() {
        let expected = if i == W - 1 || i == W + 1 || i == 2 {
            BitState::On
        } else {
            BitState::Off
        };
        assert_eq!(v.get(i), Ok(expected));
    }
}

#[test]
fn growth_keeps_existing_bits() {
    let mut v = BitVec::new();
    v.set(1, BitState::On);
    v.set(4 * W + 2, BitState::On);
    assert_eq!(v.get(1), Ok(BitState::On));
    assert_eq!(v.get(4 * W + 2), Ok(BitState::On));
    for i in W..4 * W {
        assert_eq!(v.get(i), Ok(BitState::Off));
    }
}

#[test]
fn get_out_of_bounds_reports_length() {
    let v = BitVec::with_blocks(2);
    assert_eq!(v.get(2 * W), Err(BitVecError::OutOfBounds { length: 2 * W }));
    assert_eq!(v.get(usize::MAX), Err(BitVecError::OutOfBounds { length: 2 * W }));
    assert_eq!(v.len(), 2 * W);
}

#[test]
fn scenario_on_sixty_four_bit_words() {
    if W != 64 {
        return;
    }
    let mut v = BitVec::new();
    v.set(0, BitState::On);
    assert_eq!(v.len(), 64);
    assert_eq!(v.get(0), Ok(BitState::On));
    assert_eq!(v.get(1), Ok(BitState::Off));
    v.set(200, BitState::On);
    assert_eq!(v.len(), 256);
    assert_eq!(v.get(200), Ok(BitState::On));
    assert_eq!(v.get(199), Ok(BitState::Off));
    v.flip(200);
    assert_eq!(v.get(200), Ok(BitState::Off));
    assert_eq!(v.get(1000), Err(BitVecError::OutOfBounds { length: 256 }));
}
