use radix_carry::block::Block;
use radix_carry::carry::AddExtraOne;
use radix_carry::radix::{RadixCiphertext, ServerKey};

fn key(message_modulus: u64, carry_modulus: u64) -> ServerKey {
    ServerKey::new(message_modulus, carry_modulus).unwrap()
}

fn radix(k: &ServerKey, values: &[u64]) -> RadixCiphertext {
    RadixCiphertext {
        blocks: values
            .iter()
            .map(|v| Block {
                value: *v,
                message_modulus: k.key.message_modulus,
                carry_modulus: k.key.carry_modulus,
            })
            .collect(),
    }
}

fn digits(ct: &RadixCiphertext) -> Vec<u64> {
    ct.blocks.iter().map(|b| b.value).collect()
}

#[test]
fn add_assign_of_14_and_97_on_four_blocks_is_111() {
    let sks = key(4, 4);
    let mut ct1 = sks.create_trivial_radix(14, 4);
    let ct2 = sks.create_trivial_radix(97, 4);
    sks.add_assign_parallelized(&mut ct1, &ct2);
    assert_eq!(sks.decrypt_trivial(&ct1), Some(111));
    assert!(ct1.block_carries_are_empty());
    assert_eq!(digits(&ct1), vec![3, 3, 2, 1]);
    assert_eq!(digits(&ct2), vec![1, 0, 2, 1]);
}

#[test]
fn smart_add_of_14_and_97_is_111() {
    let sks = key(4, 4);
    let mut ct1 = sks.create_trivial_radix(14, 4);
    let mut ct2 = sks.create_trivial_radix(97, 4);
    let res = sks.smart_add_parallelized(&mut ct1, &mut ct2);
    assert_eq!(sks.decrypt_trivial(&res), Some(14 + 97));
    assert!(res.block_carries_are_empty());
    assert_eq!(sks.decrypt_trivial(&ct1), Some(14));
    assert_eq!(sks.decrypt_trivial(&ct2), Some(97));
}

#[test]
fn smart_add_assign_of_14_and_97_is_111() {
    let sks = key(4, 4);
    let mut ct1 = sks.create_trivial_radix(14, 4);
    let mut ct2 = sks.create_trivial_radix(97, 4);
    sks.smart_add_assign_parallelized(&mut ct1, &mut ct2);
    assert_eq!(sks.decrypt_trivial(&ct1), Some(111));
    assert!(ct1.block_carries_are_empty());
    assert_eq!(digits(&ct2), vec![1, 0, 2, 1]);
}

#[test]
fn add_of_14_and_97_is_111() {
    let sks = key(4, 4);
    let ct1 = sks.create_trivial_radix(14, 4);
    let ct2 = sks.create_trivial_radix(97, 4);
    let res = sks.add_parallelized(&ct1, &ct2);
    assert_eq!(sks.decrypt_trivial(&res), Some(111));
    assert_eq!(sks.decrypt_trivial(&ct1), Some(14));
    assert!(res.block_carries_are_empty());
}

#[test]
fn work_efficient_add_of_14_and_97_is_111() {
    let sks = key(4, 4);
    let ct1 = sks.create_trivial_radix(14, 4);
    let ct2 = sks.create_trivial_radix(97, 4);
    let res = sks.add_parallelized_work_efficient(&ct1, &ct2);
    assert_eq!(sks.decrypt_trivial(&res), Some(111));
    assert!(res.block_carries_are_empty());
    let mut ct3 = sks.create_trivial_radix(14, 4);
    sks.add_assign_parallelized_work_efficient(&mut ct3, &ct2);
    assert_eq!(digits(&ct3), vec![3, 3, 2, 1]);
}

#[test]
fn every_pair_on_two_blocks_adds_to_the_sum_modulo_16() {
    let sks = key(4, 4);
    for x in 0..16u64 {
        for y in 0..16u64 {
            let a = sks.create_trivial_radix(x, 2);
            let b = sks.create_trivial_radix(y, 2);
            let expected = Some((x + y) % 16);
            let low = sks.add_parallelized(&a, &b);
            assert_eq!(sks.decrypt_trivial(&low), expected);
            assert!(low.block_carries_are_empty());
            let efficient = sks.add_parallelized_work_efficient(&a, &b);
            assert_eq!(sks.decrypt_trivial(&efficient), expected);
            assert_eq!(digits(&efficient), digits(&low));
            let mut a2 = sks.create_trivial_radix(x, 2);
            let mut b2 = sks.create_trivial_radix(y, 2);
            let smart = sks.smart_add_parallelized(&mut a2, &mut b2);
            assert_eq!(sks.decrypt_trivial(&smart), expected);
            assert!(smart.block_carries_are_empty());
        }
    }
}

#[test]
fn both_scans_give_the_same_blocks_on_eight_blocks() {
    let sks = key(4, 4);
    let samples = [0u64, 1, 255, 256, 4095, 21845, 43690, 65535, 65534, 32768, 12345, 54321];
    for x in samples {
        for y in samples {
            let a = sks.create_trivial_radix(x, 8);
            let b = sks.create_trivial_radix(y, 8);
            let low = sks.add_parallelized(&a, &b);
            let efficient = sks.add_parallelized_work_efficient(&a, &b);
            assert_eq!(digits(&low), digits(&efficient));
            assert_eq!(sks.decrypt_trivial(&low), Some((x + y) % 65536));
        }
    }
}

#[test]
fn a_carry_runs_through_every_block() {
    let sks = key(4, 4);
    let a = sks.create_trivial_radix(65535, 8);
    let b = sks.create_trivial_radix(1, 8);
    assert_eq!(digits(&sks.add_parallelized(&a, &b)), vec![0; 8]);
    assert_eq!(digits(&sks.add_parallelized_work_efficient(&a, &b)), vec![0; 8]);
    let c = sks.create_trivial_radix(16383, 8);
    assert_eq!(
        digits(&sks.add_parallelized(&c, &b)),
        vec![0, 0, 0, 0, 0, 0, 0, 1]
    );
    assert_eq!(
        digits(&sks.add_parallelized_work_efficient(&c, &b)),
        vec![0, 0, 0, 0, 0, 0, 0, 1]
    );
}

#[test]
fn both_additions_take_any_number_of_blocks() {
    let sks = key(4, 4);
    for n in [1usize, 2, 3, 5, 6, 7, 9, 12] {
        let modulus = 4u64.pow(n as u32);
        for (x, y) in [
            (0u64, 0u64),
            (1, 2),
            (3, 1),
            (63, 1),
            (1000, 777),
            (4095, 4095),
            (262143, 1),
            (16777215, 16777215),
        ] {
            let a = sks.create_trivial_radix(x, n);
            let b = sks.create_trivial_radix(y, n);
            let sum = sks.add_parallelized(&a, &b);
            assert_eq!(sks.decrypt_trivial(&sum), Some((x % modulus + y % modulus) % modulus));
            assert!(sum.block_carries_are_empty());
            let efficient = sks.add_parallelized_work_efficient(&a, &b);
            assert_eq!(digits(&efficient), digits(&sum));
            let mut c = sks.create_trivial_radix(x, n);
            sks.unchecked_add_assign_parallelized_work_efficient(&mut c, &b, AddExtraOne::Yes);
            assert_eq!(
                sks.decrypt_trivial(&c),
                Some((x % modulus + y % modulus + 1) % modulus)
            );
        }
    }
}

#[test]
fn work_efficient_add_takes_one_and_two_blocks() {
    let sks = key(4, 4);
    let one = sks.add_parallelized_work_efficient(
        &sks.create_trivial_radix(3, 1),
        &sks.create_trivial_radix(3, 1),
    );
    assert_eq!(digits(&one), vec![2]);
    let two = sks.add_parallelized_work_efficient(
        &sks.create_trivial_radix(7, 2),
        &sks.create_trivial_radix(9, 2),
    );
    assert_eq!(digits(&two), vec![0, 0]);
}

#[test]
fn operands_with_carries_are_normalized_first() {
    let sks = key(4, 4);
    let mut l = radix(&sks, &[15, 15, 0, 0]);
    let r = radix(&sks, &[4, 0, 0, 0]);
    sks.add_assign_parallelized(&mut l, &r);
    assert_eq!(sks.decrypt_trivial(&l), Some(79));
    assert_eq!(digits(&l), vec![3, 3, 0, 1]);
    assert_eq!(digits(&r), vec![4, 0, 0, 0]);
    let mut l = radix(&sks, &[15, 15, 0, 0]);
    let clean = sks.create_trivial_radix(4, 4);
    sks.add_assign_parallelized_work_efficient(&mut l, &clean);
    assert_eq!(digits(&l), vec![3, 3, 0, 1]);
    let mut clean_left = sks.create_trivial_radix(75, 4);
    sks.add_assign_parallelized(&mut clean_left, &r);
    assert_eq!(digits(&clean_left), vec![3, 3, 0, 1]);
}

#[test]
fn smart_add_normalizes_both_where_the_plain_add_is_not_possible() {
    let sks = key(4, 4);
    let mut l = radix(&sks, &[8, 8]);
    let mut r = radix(&sks, &[8, 8]);
    let sum = sks.smart_add_parallelized(&mut l, &mut r);
    assert_eq!(digits(&l), vec![0, 2]);
    assert_eq!(digits(&r), vec![0, 2]);
    assert_eq!(digits(&sum), vec![0, 0]);
    assert_eq!(sks.decrypt_trivial(&sum), Some((40 + 40) % 16));
    let mut l = radix(&sks, &[8, 8]);
    let mut r = radix(&sks, &[8, 8]);
    sks.smart_add_assign_parallelized(&mut l, &mut r);
    assert_eq!(digits(&l), vec![0, 0]);
    assert_eq!(digits(&r), vec![0, 2]);
}

#[test]
fn smart_add_leaves_operands_alone_where_the_plain_add_is_possible() {
    let sks = key(4, 4);
    let mut l = radix(&sks, &[8, 1]);
    let mut r = radix(&sks, &[7, 1]);
    let sum = sks.smart_add_parallelized(&mut l, &mut r);
    assert_eq!(digits(&l), vec![8, 1]);
    assert_eq!(digits(&r), vec![7, 1]);
    assert_eq!(digits(&sum), vec![3, 1]);
    assert!(sum.block_carries_are_empty());
    sks.smart_add_assign_parallelized(&mut l, &mut r);
    assert_eq!(digits(&l), vec![3, 1]);
    assert_eq!(digits(&r), vec![7, 1]);
}

#[test]
fn sequential_path_under_a_small_key_gives_the_same_sum() {
    let small = key(4, 2);
    let large = key(4, 4);
    assert!(!small.is_eligible_for_parallel_carryless_add());
    assert!(large.is_eligible_for_parallel_carryless_add());
    for x in [0u64, 1, 14, 97, 111, 200, 255] {
        for y in [0u64, 1, 14, 97, 144, 255] {
            let s = small.add_parallelized(
                &small.create_trivial_radix(x, 4),
                &small.create_trivial_radix(y, 4),
            );
            let l = large.add_parallelized(
                &large.create_trivial_radix(x, 4),
                &large.create_trivial_radix(y, 4),
            );
            assert_eq!(small.decrypt_trivial(&s), large.decrypt_trivial(&l));
            assert_eq!(small.decrypt_trivial(&s), Some((x + y) % 256));
            assert_eq!(digits(&s), digits(&l));
            assert!(s.block_carries_are_empty());
        }
    }
}

#[test]
fn sequential_path_adds_integers_of_no_blocks() {
    let small = key(2, 2);
    let mut empty = small.create_trivial_radix(0, 0);
    small.add_assign_parallelized(&mut empty, &small.create_trivial_radix(0, 0));
    assert_eq!(digits(&empty), Vec::<u64>::new());
    assert_eq!(small.decrypt_trivial(&empty), Some(0));
}

#[test]
fn eligibility_asks_for_a_total_modulus_of_sixteen() {
    assert!(key(4, 4).is_eligible_for_parallel_carryless_add());
    assert!(key(2, 8).is_eligible_for_parallel_carryless_add());
    assert!(key(8, 2).is_eligible_for_parallel_carryless_add());
    assert!(!key(3, 5).is_eligible_for_parallel_carryless_add());
    assert!(!key(2, 2).is_eligible_for_parallel_carryless_add());
    assert!(key(2, 9).is_eligible_for_parallel_carryless_add());
    assert!(!key(5, 3).is_eligible_for_parallel_carryless_add());
}

#[test]
fn extra_one_is_added_at_the_lowest_block() {
    let sks = key(4, 4);
    let mut ct1 = sks.create_trivial_radix(15, 4);
    let ct2 = sks.create_trivial_radix(0, 4);
    sks.unchecked_add_assign_parallelized_low_latency(&mut ct1, &ct2, AddExtraOne::Yes);
    assert_eq!(sks.decrypt_trivial(&ct1), Some(16));
    let mut ct3 = sks.create_trivial_radix(255, 4);
    sks.unchecked_add_assign_parallelized_work_efficient(&mut ct3, &ct2, AddExtraOne::Yes);
    assert_eq!(digits(&ct3), vec![0, 0, 0, 0]);
    let mut ct4 = sks.create_trivial_radix(100, 4);
    let ct5 = sks.create_trivial_radix(155, 4);
    sks.unchecked_add_assign_parallelized_low_latency(&mut ct4, &ct5, AddExtraOne::Yes);
    assert_eq!(sks.decrypt_trivial(&ct4), Some(0));
}

#[test]
fn unchecked_additions_resolve_carries_under_uneven_moduli() {
    let sks = key(3, 6);
    let mut a = sks.create_trivial_radix(26, 3);
    let b = sks.create_trivial_radix(1, 3);
    sks.unchecked_add_assign_parallelized_low_latency(&mut a, &b, AddExtraOne::No);
    assert_eq!(digits(&a), vec![0, 0, 0]);
    let mut c = sks.create_trivial_radix(13, 4);
    let d = sks.create_trivial_radix(14, 4);
    sks.unchecked_add_assign_parallelized_work_efficient(&mut c, &d, AddExtraOne::No);
    assert_eq!(sks.decrypt_trivial(&c), Some(27));
    assert_eq!(digits(&c), vec![0, 0, 0, 1]);
    let narrow = key(2, 8);
    let mut e = narrow.create_trivial_radix(5, 3);
    let f = narrow.create_trivial_radix(2, 3);
    narrow.unchecked_add_assign_parallelized_work_efficient(&mut e, &f, AddExtraOne::Yes);
    assert_eq!(digits(&e), vec![0, 0, 0]);
}

#[test]
fn every_key_of_four_bits_adds_in_parallel() {
    for (m, c, n) in [
        (2u64, 8u64, 1usize),
        (2, 8, 2),
        (2, 8, 5),
        (8, 2, 1),
        (8, 2, 2),
        (16, 2, 1),
        (2, 16, 3),
        (2, 9, 4),
    ] {
        let sks = key(m, c);
        assert!(sks.is_eligible_for_parallel_carryless_add());
        let modulus = m.pow(n as u32);
        for x in 0..modulus {
            for y in 0..modulus {
                let a = sks.create_trivial_radix(x, n);
                let b = sks.create_trivial_radix(y, n);
                let sum = sks.add_parallelized(&a, &b);
                assert_eq!(sks.decrypt_trivial(&sum), Some((x + y) % modulus));
                assert!(sum.block_carries_are_empty());
                let efficient = sks.add_parallelized_work_efficient(&a, &b);
                assert_eq!(digits(&efficient), digits(&sum));
            }
        }
    }
}

#[test]
fn work_efficient_add_falls_back_under_a_small_key() {
    let small = key(4, 2);
    for n in [0usize, 1, 3, 5, 6] {
        let modulus = 4u64.pow(n as u32);
        for (x, y) in [(0u64, 0u64), (3, 1), (63, 1), (1000, 777)] {
            let a = small.create_trivial_radix(x, n);
            let b = small.create_trivial_radix(y, n);
            let sum = small.add_parallelized_work_efficient(&a, &b);
            assert_eq!(
                small.decrypt_trivial(&sum),
                Some((x % modulus + y % modulus) % modulus)
            );
            assert!(sum.block_carries_are_empty());
        }
    }
}

#[test]
fn operands_are_normalized_only_where_they_hold_carries() {
    let sks = key(4, 4);
    let mut clean = sks.create_trivial_radix(75, 4);
    let other_clean = sks.create_trivial_radix(4, 4);
    assert!(sks.normalize_operands(&mut clean, &other_clean).is_none());
    assert_eq!(digits(&clean), vec![3, 2, 0, 1]);
    let loaded = radix(&sks, &[4, 0, 0, 0]);
    let copy = sks.normalize_operands(&mut clean, &loaded).unwrap();
    assert_eq!(digits(&copy), vec![0, 1, 0, 0]);
    assert_eq!(digits(&loaded), vec![4, 0, 0, 0]);
    assert_eq!(digits(&clean), vec![3, 2, 0, 1]);
    let mut left = radix(&sks, &[15, 15, 0, 0]);
    assert!(sks.normalize_operands(&mut left, &other_clean).is_none());
    assert_eq!(digits(&left), vec![3, 2, 0, 1]);
    let mut left = radix(&sks, &[15, 15, 0, 0]);
    let copy = sks.normalize_operands(&mut left, &loaded).unwrap();
    assert_eq!(digits(&left), vec![3, 2, 0, 1]);
    assert_eq!(digits(&copy), vec![0, 1, 0, 0]);
}

#[test]
fn every_pair_adds_up_under_moduli_that_are_no_powers_of_two() {
    for (m, c, n) in [(5u64, 4u64, 3usize), (3, 6, 4), (7, 3, 2), (6, 3, 1)] {
        let sks = key(m, c);
        assert!(sks.is_eligible_for_parallel_carryless_add());
        let modulus = m.pow(n as u32);
        for x in 0..modulus {
            for y in 0..modulus {
                let a = sks.create_trivial_radix(x, n);
                let b = sks.create_trivial_radix(y, n);
                let sum = sks.add_parallelized(&a, &b);
                assert_eq!(sks.decrypt_trivial(&sum), Some((x + y) % modulus));
                assert!(sum.block_carries_are_empty());
                let efficient = sks.add_parallelized_work_efficient(&a, &b);
                assert_eq!(digits(&efficient), digits(&sum));
            }
        }
    }
}

#[test]
fn sums_agree_with_plain_arithmetic_on_sixteen_blocks() {
    let sks = key(4, 4);
    let mut x: u64 = 0x9e37_79b9;
    let mut y: u64 = 0x7f4a_7c15;
    for _ in 0..200 {
        x = x.wrapping_mul(6364136223846793005).wrapping_add(1442695040888963407) >> 16;
        y = y.wrapping_mul(2862933555777941757).wrapping_add(3037000493) >> 16;
        let (x32, y32) = (x % (1 << 32), y % (1 << 32));
        let a = sks.create_trivial_radix(x32, 16);
        let b = sks.create_trivial_radix(y32, 16);
        let expected = Some((x32 + y32) % (1 << 32));
        assert_eq!(sks.decrypt_trivial(&sks.add_parallelized(&a, &b)), expected);
        assert_eq!(
            sks.decrypt_trivial(&sks.add_parallelized_work_efficient(&a, &b)),
            expected
        );
    }
}
