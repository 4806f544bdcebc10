use shn::buffer::{ChannelBuffer, MeanAccumulator};

#[test]
fn channel_buffer_basic() {
    let mut buf = ChannelBuffer::new(4);
    // History should be zero
    assert_eq!(buf.get(-1), 0);
    assert_eq!(buf.get(-2), 0);
    assert_eq!(buf.get(-3), 0);
    // Set some samples
    buf.set(0, 10);
    buf.set(1, 20);
    buf.set(2, 30);
    buf.set(3, 40);
    assert_eq!(buf.get(0), 10);
    assert_eq!(buf.get(3), 40);
    // Wrap around
    buf.wrap_around();
    // History should now be samples [1,2,3] = [20,30,40]
    assert_eq!(buf.get(-3), 20);
    assert_eq!(buf.get(-2), 30);
    assert_eq!(buf.get(-1), 40);
}

#[test]
fn mean_accumulator() {
    let mut acc = MeanAccumulator::new(4);
    assert_eq!(acc.coffset(256), 0); // No data yet
    // Push a block mean of 10
    acc.push(10);
    // coffset = (10 + 0 + 0 + 0 + 2) / 4 = 12 / 4 = 3 (diluted by unfilled slots)
    assert_eq!(acc.coffset(256), 3);
    // Fill all 4 slots with mean=10
    acc.push(10);
    acc.push(10);
    acc.push(10);
    // coffset = (40 + 2) / 4 = 42 / 4 = 10
    assert_eq!(acc.coffset(256), 10);
}

#[test]
fn channel_buffer_resize_keeps_history() {
    let mut buf = ChannelBuffer::new(2);
    buf.set(0, 7);
    buf.set(1, 9);
    buf.wrap_around();
    assert_eq!(buf.get(-2), 7);
    assert_eq!(buf.get(-1), 9);
    buf.resize(4);
    assert_eq!(buf.blocksize(), 4);
    // History survives the resize; the new block tail is zero-filled.
    assert_eq!(buf.get(-2), 7);
    assert_eq!(buf.get(-1), 9);
    assert_eq!(buf.get(2), 0);
    assert_eq!(buf.get(3), 0);
}

#[test]
fn block_samples_excludes_history() {
    let mut buf = ChannelBuffer::new(3);
    buf.set(0, 1);
    buf.set(1, 2);
    buf.set(2, 3);
    buf.wrap_around();
    assert_eq!(buf.block_samples(), vec![1, 2, 3]);
}

#[test]
fn mean_accumulator_rounds_toward_zero() {
    // Negative sums divide as Rust's `/` does: toward zero.
    let mut acc = MeanAccumulator::new(2);
    acc.push(-7);
    // (-7 + 0 + 1) / 2 = -6 / 2 = -3
    assert_eq!(acc.coffset(16), -3);
    acc.push(-7);
    // (-14 + 1) / 2 = -13 / 2 = -6 (truncating)
    assert_eq!(acc.coffset(16), -6);
}

#[test]
fn mean_accumulator_overwrites_oldest() {
    let mut acc = MeanAccumulator::new(2);
    assert_eq!(acc.capacity(), 2);
    acc.push(4);
    acc.push(8);
    acc.push(100); // overwrites the 4
    // (100 + 8 + 1) / 2 = 54
    assert_eq!(acc.coffset(8), 54);
}

#[test]
fn empty_mean_window_is_inert() {
    let mut acc = MeanAccumulator::new(0);
    acc.push(123);
    assert_eq!(acc.capacity(), 0);
    assert_eq!(acc.coffset(256), 0);
}
