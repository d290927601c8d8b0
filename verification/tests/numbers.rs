use std::collections::HashMap;

use cluster_resolution::arrangement::{ascending_keys, sorted_numbers, sorted_positions};
use cluster_resolution::natural::Natural;
use cluster_resolution::ratio::Ratio;

fn from_wide(value: u128) -> Natural {
    let high = Natural::from_usize((value >> 64) as u64 as usize);
    let low = Natural::from_usize(value as u64 as usize);
    high.times_radix().times_radix().plus(&low)
}

fn as_wide(number: &Natural) -> u128 {
    number
        .limbs()
        .iter()
        .rev()
        .fold(0u128, |value, limb| (value << 32) | (*limb as u128))
}

#[test]
fn naturals_hold_machine_integers() {
    assert_eq!(as_wide(&Natural::zero()), 0);
    assert_eq!(as_wide(&Natural::from_usize(0)), 0);
    assert_eq!(as_wide(&Natural::from_usize(77)), 77);
    assert_eq!(as_wide(&Natural::from_usize(usize::MAX)), usize::MAX as u128);
    assert_eq!(as_wide(&Natural::from_usize(4294967296)), 4294967296);
    assert_eq!(as_wide(&Natural::from_usize(123).clone()), 123);
}

#[test]
fn naturals_add_with_carries() {
    let largest = Natural::from_usize(usize::MAX);
    assert_eq!(as_wide(&largest.plus(&Natural::from_usize(1))), (usize::MAX as u128) + 1);
    assert_eq!(as_wide(&largest.plus(&largest)), 2 * (usize::MAX as u128));
    assert_eq!(as_wide(&Natural::zero().plus(&Natural::from_usize(9))), 9);
    let wide = from_wide(u128::MAX - 5);
    assert_eq!(as_wide(&wide.plus(&Natural::from_usize(5))), u128::MAX);
    let beyond = wide.plus(&Natural::from_usize(6));
    assert!(beyond.limbs().iter().rev().skip_while(|limb| **limb == 0).count() == 5);
}

#[test]
fn naturals_multiply() {
    let largest = Natural::from_usize(usize::MAX);
    let square = largest.times(&largest);
    assert_eq!(as_wide(&square), (usize::MAX as u128) * (usize::MAX as u128));
    assert_eq!(as_wide(&Natural::from_usize(12345).times(&Natural::from_usize(6789))), 83810205);
    assert_eq!(as_wide(&largest.times(&Natural::zero())), 0);
    assert_eq!(as_wide(&Natural::zero().times(&largest)), 0);
    assert_eq!(as_wide(&Natural::from_usize(3).times_limb(4294967295)), 12884901885);
    assert_eq!(as_wide(&Natural::from_usize(3).times_radix()), 12884901888);
    let cube = square.times(&largest);
    assert!(square.is_less_than(&cube));
    assert!(cube.equals(&largest.times(&square)));
}

#[test]
fn naturals_compare_by_value() {
    let small = Natural::from_usize(5);
    let large = from_wide(1u128 << 100);
    assert!(small.is_less_than(&large));
    assert!(!large.is_less_than(&small));
    assert!(!small.is_less_than(&small));
    assert!(small.equals(&Natural::from_usize(2).plus(&Natural::from_usize(3))));
    assert!(!small.equals(&large));
    assert!(Natural::zero().equals(&Natural::from_usize(0)));
    assert!(Natural::zero().is_less_than(&small));
    assert!(Natural::from_usize(4294967295).is_less_than(&Natural::from_usize(4294967296)));
}

#[test]
fn ratios_are_kept_as_they_were_formed() {
    let sum = Ratio::new(1, 2).plus(&Ratio::new(1, 3));
    assert_eq!(as_wide(sum.numerator()), 5);
    assert_eq!(as_wide(sum.denominator()), 6);
    let doubled = Ratio::new(2, 4).plus(&Ratio::new(2, 4));
    assert_eq!(as_wide(doubled.numerator()), 16);
    assert_eq!(as_wide(doubled.denominator()), 16);
    assert!(doubled.has_same_value(&Ratio::new(1, 1)));
    let divided = Ratio::new(5, 6).divided_by(3);
    assert_eq!(as_wide(divided.numerator()), 5);
    assert_eq!(as_wide(divided.denominator()), 18);
    assert_eq!(as_wide(Ratio::zero().denominator()), 1);
    assert_eq!(as_wide(Ratio::zero().numerator()), 0);
    let built = Ratio::from_naturals(Natural::from_usize(3), Natural::from_usize(9));
    assert!(built.has_same_value(&Ratio::new(1, 3)));
    assert!(built.clone().has_same_value(&built));
}

#[test]
fn ratios_compare_by_value() {
    assert!(Ratio::new(1, 3).is_less_than(&Ratio::new(1, 2)));
    assert!(!Ratio::new(1, 2).is_less_than(&Ratio::new(1, 3)));
    assert!(!Ratio::new(2, 4).is_less_than(&Ratio::new(1, 2)));
    assert!(Ratio::new(2, 4).has_same_value(&Ratio::new(1, 2)));
    assert!(!Ratio::new(2, 5).has_same_value(&Ratio::new(1, 2)));
    let large = Ratio::new(usize::MAX, usize::MAX - 1);
    let larger = Ratio::new(usize::MAX - 1, usize::MAX - 2);
    assert!(large.is_less_than(&larger));
}

#[test]
fn positions_are_sorted_by_key_and_equal_keys_keep_their_order() {
    assert_eq!(sorted_positions(&vec![3, 1, 2, 1, 3, 0]), vec![5, 1, 3, 2, 0, 4]);
    assert_eq!(sorted_positions(&vec![]), Vec::<usize>::new());
    assert_eq!(sorted_positions(&vec![9]), vec![0]);
    assert_eq!(sorted_positions(&vec![1, 1, 1]), vec![0, 1, 2]);
    assert_eq!(sorted_positions(&vec![4, 3, 2, 1]), vec![3, 2, 1, 0]);
    assert_eq!(sorted_numbers(&vec![3, 1, 2, 1, 3, 0]), vec![0, 1, 1, 2, 3, 3]);
}

#[test]
fn keys_of_a_map_come_in_ascending_order() {
    let mut map: HashMap<usize, &str> = HashMap::new();
    for key in [40usize, 7, 19, 3, 1000, 0] {
        map.insert(key, "value");
    }
    assert_eq!(ascending_keys(&map), vec![0, 3, 7, 19, 40, 1000]);
    assert!(ascending_keys(&HashMap::<usize, u8>::new()).is_empty());
}
