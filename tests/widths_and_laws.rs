use bit_iter::BitIter;

fn add(acc: usize, x: usize) -> usize {
    acc + x
}

fn times_ten_plus(acc: usize, x: usize) -> usize {
    acc * 10 + x
}

#[test]
fn forward_order_on_every_width() {
    assert_eq!(BitIter::from(0b1000_0001u8).collect(), vec![0, 7]);
    assert_eq!(BitIter::from(0x8001u16).collect(), vec![0, 15]);
    assert_eq!(BitIter::from(0x8001_0000u32).collect(), vec![16, 31]);
    assert_eq!(BitIter::from(1u64 << 63 | 1 << 32).collect(), vec![32, 63]);
    assert_eq!(BitIter::from(1u128 << 127 | 1 << 64).collect(), vec![64, 127]);
    assert_eq!(BitIter::from(6usize).collect(), vec![1, 2]);
    assert_eq!(BitIter::from(-1i8).collect(), (0..8).collect::<Vec<usize>>());
    assert_eq!(BitIter::from(i16::MIN).collect(), vec![15]);
    assert_eq!(BitIter::from(i32::MIN | 3).collect(), vec![0, 1, 31]);
    assert_eq!(BitIter::from(i64::MIN).collect(), vec![63]);
    assert_eq!(BitIter::from(i128::MIN).collect(), vec![127]);
    assert_eq!(
        BitIter::from(-1isize).collect(),
        (0..usize::BITS as usize).collect::<Vec<usize>>()
    );
}

#[test]
fn all_ones_yields_every_position() {
    assert_eq!(BitIter::from(u128::MAX).collect(), (0..128).collect::<Vec<usize>>());
    assert_eq!(BitIter::from(u8::MAX).count(), 8);
    assert_eq!(BitIter::from(-1i64).len(), 64);
}

#[test]
fn zero_of_every_width_is_empty() {
    assert_eq!(BitIter::from(0u16).collect(), Vec::<usize>::new());
    assert_eq!(BitIter::from(0i64).count(), 0);
    assert_eq!(BitIter::from(0u128).last(), None);
    assert_eq!(BitIter::from(0isize).min(), None);
    assert_eq!(BitIter::from(0usize).max(), None);
    let mut iter = BitIter::from(0i8);
    assert_eq!(iter.next_back(), None);
}

#[test]
fn backward_order_is_reverse_of_forward() {
    assert_eq!(BitIter::from(0b1000_0001u8).rev().collect(), vec![7, 0]);
    let forward = BitIter::from(0x80010011u32).collect();
    let mut backward = BitIter::from(0x80010011u32).rev().collect();
    backward.reverse();
    assert_eq!(forward, backward);

    let mut iter = BitIter::from(0x80010011u32);
    assert_eq!(iter.next_back(), Some(31));
    assert_eq!(iter.next_back(), Some(16));
    assert_eq!(iter.next_back(), Some(4));
    assert_eq!(iter.next_back(), Some(0));
    assert_eq!(iter.next_back(), None);
}

#[test]
fn signed_and_unsigned_patterns_agree() {
    assert_eq!(
        BitIter::from(0x80010011u32 as i32).collect(),
        BitIter::from(0x80010011u32).collect()
    );
    assert_eq!(BitIter::from(0xF0u8 as i8).collect(), vec![4, 5, 6, 7]);
}

#[test]
fn reverse_iterator_steps_from_both_ends() {
    let mut iter = BitIter::from(0b1011u8).rev();
    assert_eq!(iter.len(), 3);
    assert_eq!(iter.next_back(), Some(0));
    assert_eq!(iter.next(), Some(3));
    assert_eq!(iter.len(), 1);
    assert_eq!(iter.next(), Some(1));
    assert_eq!(iter.next_back(), None);
    assert_eq!(iter.next(), None);
}

#[test]
fn count_is_population_count_and_hint_stays_exact() {
    let mut iter = BitIter::from(0xF0F0u16);
    assert_eq!(iter.count(), 8);
    for left in (0..8).rev() {
        iter.next();
        assert_eq!(iter.size_hint(), (left, Some(left)));
        assert_eq!(iter.len(), left);
    }
    let mut iter = BitIter::from(0xF0F0u16);
    iter.next_back();
    assert_eq!(iter.size_hint(), (7, Some(7)));
}

#[test]
fn exhaustion_is_final_in_both_directions() {
    let mut iter = BitIter::from(0b110u8);
    assert_eq!(iter.next(), Some(1));
    assert_eq!(iter.next_back(), Some(2));
    assert_eq!(iter.next(), None);
    assert_eq!(iter.next(), None);
    assert_eq!(iter.next_back(), None);
    assert_eq!(iter.next_back(), None);
    assert_eq!(iter.len(), 0);
}

#[test]
fn interleaved_steps_meet_without_repeats() {
    let mut iter = BitIter::from(0b1011_0101u8);
    assert_eq!(iter.next(), Some(0));
    assert_eq!(iter.next_back(), Some(7));
    assert_eq!(iter.next(), Some(2));
    assert_eq!(iter.next_back(), Some(5));
    assert_eq!(iter.next(), Some(4));
    assert_eq!(iter.next_back(), None);
    assert_eq!(iter.next(), None);
}

#[test]
fn extremes_of_patterns() {
    assert_eq!(BitIter::from(i32::MIN).last(), Some(31));
    assert_eq!(BitIter::from(i32::MIN).max(), Some(31));
    assert_eq!(BitIter::from(i32::MIN).min(), Some(31));
    assert_eq!(BitIter::from(u128::MAX).min(), Some(0));
    assert_eq!(BitIter::from(u128::MAX).max(), Some(127));
    assert_eq!(BitIter::from(0x25).last(), Some(5));
    assert_eq!(BitIter::from(0x25).min(), Some(0));
}

#[test]
fn nth_skips_and_drains() {
    let mut iter = BitIter::from(0b1011_0101u8);
    assert_eq!(iter.nth(0), Some(0));
    assert_eq!(iter.nth(1), Some(4));
    assert_eq!(iter.collect(), vec![5, 7]);

    let mut iter = BitIter::from(0b1011_0101u8);
    assert_eq!(iter.nth(4), Some(7));
    assert_eq!(iter.len(), 0);

    let mut iter = BitIter::from(0b1011_0101u8);
    assert_eq!(iter.nth(5), None);
    assert_eq!(iter.len(), 0);
    assert_eq!(iter.next_back(), None);

    let mut iter = BitIter::from(u64::MAX);
    assert_eq!(iter.nth(usize::MAX), None);
    assert_eq!(iter.len(), 0);
}

#[test]
fn fold_visits_positions_lowest_first() {
    assert_eq!(BitIter::from(0b10101100u8).fold(0, add), 17);
    assert_eq!(BitIter::from(0b10101100u8).fold(0, times_ten_plus), 2357);
    assert_eq!(BitIter::from(0b10101100u8).fold(1, |a, p| a * p), 210);
    assert_eq!(BitIter::from(0u32).fold(42, add), 42);
}

#[test]
fn is_sorted_on_signed_and_empty() {
    assert!(BitIter::from(-1i128).is_sorted());
    assert!(BitIter::from(0u8).is_sorted());
}

#[test]
fn conversion_keeps_the_value() {
    let a: BitIter<u32> = 0x25u32.into();
    let b = BitIter::from(0x25u32);
    assert_eq!(a, b);
    assert_eq!(BitIter::<u8>::default(), BitIter::from(0u8));
}
