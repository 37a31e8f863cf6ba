use proc_receive::pull_id::{counter_to_bytes, read_counter};
use proc_receive::{incr_pull_id, Error};

#[test]
fn allocation_starts_at_1_on_a_new_file() {
    let mut file = Vec::new();
    assert_eq!(incr_pull_id(&mut file), Ok(1));
    assert_eq!(file, vec![0, 0, 0, 0, 0, 0, 0, 1]);
}

#[test]
fn sequential_allocations_are_consecutive() {
    let mut file = Vec::new();
    for expected in 1..=1000u64 {
        assert_eq!(incr_pull_id(&mut file), Ok(expected));
        assert_eq!(file.len(), 8);
        assert_eq!(read_counter(&file), expected);
    }
    assert_eq!(file, vec![0, 0, 0, 0, 0, 0, 3, 232]);
}

#[test]
fn allocation_carries_between_bytes() {
    let mut file = vec![0, 0, 0, 0, 0, 0, 0, 255];
    assert_eq!(incr_pull_id(&mut file), Ok(256));
    assert_eq!(file, vec![0, 0, 0, 0, 0, 0, 1, 0]);
    let mut file = vec![0, 255, 255, 255, 255, 255, 255, 255];
    assert_eq!(incr_pull_id(&mut file), Ok(0x0100_0000_0000_0000));
    assert_eq!(file, vec![1, 0, 0, 0, 0, 0, 0, 0]);
}

#[test]
fn counter_is_stored_most_significant_byte_first() {
    let mut file = vec![1, 2, 3, 4, 5, 6, 7, 8];
    assert_eq!(read_counter(&file), 0x0102_0304_0506_0708);
    assert_eq!(incr_pull_id(&mut file), Ok(0x0102_0304_0506_0709));
    assert_eq!(file, vec![1, 2, 3, 4, 5, 6, 7, 9]);
    assert_eq!(counter_to_bytes(0x0102_0304_0506_0708), vec![1, 2, 3, 4, 5, 6, 7, 8]);
    assert_eq!(counter_to_bytes(0), vec![0; 8]);
    assert_eq!(counter_to_bytes(u64::MAX), vec![255; 8]);
    assert_eq!(counter_to_bytes(0xdead_beef), 0xdead_beefu64.to_be_bytes().to_vec());
}

#[test]
fn counter_round_trip() {
    for value in [0u64, 1, 255, 256, 65535, 65536, 1 << 32, (1 << 56) - 1, 1 << 63, u64::MAX] {
        assert_eq!(read_counter(&counter_to_bytes(value)), value);
    }
}

#[test]
fn allocation_overflow_leaves_the_file_unchanged() {
    let mut file = vec![255; 8];
    assert_eq!(incr_pull_id(&mut file), Err(Error::OverflowPullID));
    assert_eq!(file, vec![255; 8]);
    assert_eq!(incr_pull_id(&mut file), Err(Error::OverflowPullID));
    assert_eq!(file, vec![255; 8]);
    let mut file = vec![255, 255, 255, 255, 255, 255, 255, 255, 9, 9];
    assert_eq!(incr_pull_id(&mut file), Err(Error::OverflowPullID));
    assert_eq!(file, vec![255, 255, 255, 255, 255, 255, 255, 255, 9, 9]);
}

#[test]
fn last_allocation_before_overflow() {
    let mut file = vec![255, 255, 255, 255, 255, 255, 255, 254];
    assert_eq!(incr_pull_id(&mut file), Ok(u64::MAX));
    assert_eq!(file, vec![255; 8]);
    assert_eq!(incr_pull_id(&mut file), Err(Error::OverflowPullID));
}

#[test]
fn short_file_counts_as_zero() {
    for length in 0..8usize {
        let mut file = vec![7; length];
        assert_eq!(read_counter(&file), 0);
        assert_eq!(incr_pull_id(&mut file), Ok(1));
        assert_eq!(file, vec![0, 0, 0, 0, 0, 0, 0, 1]);
    }
}

#[test]
fn bytes_behind_the_counter_stay() {
    let mut file = vec![0, 0, 0, 0, 0, 0, 0, 41, 0xaa, 0xbb];
    assert_eq!(incr_pull_id(&mut file), Ok(42));
    assert_eq!(file, vec![0, 0, 0, 0, 0, 0, 0, 42, 0xaa, 0xbb]);
}
