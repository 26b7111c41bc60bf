use radix_carry::block::Block;
use radix_carry::carry::AddExtraOne;
use radix_carry::radix::{RadixCiphertext, ServerKey};
use radix_carry::scan::is_power_of_two;

fn key() -> ServerKey {
    ServerKey::new(4, 4).unwrap()
}

fn blocks(k: &ServerKey, values: &[u64]) -> Vec<Block> {
    values
        .iter()
        .map(|v| Block {
            value: *v,
            message_modulus: k.key.message_modulus,
            carry_modulus: k.key.carry_modulus,
        })
        .collect()
}

fn values(blocks: &[Block]) -> Vec<u64> {
    blocks.iter().map(|b| b.value).collect()
}

// The merged status of positions 0 ..= i, computed one position at a time.
fn inclusive(statuses: &[u64]) -> Vec<u64> {
    let mut out = Vec::new();
    let mut below = 0;
    for (i, s) in statuses.iter().enumerate() {
        let merged = if i > 0 && *s == 2 { below } else { *s };
        out.push(merged);
        below = merged;
    }
    out
}

#[test]
fn classifier_adds_the_blocks_and_tells_their_statuses() {
    let k = key();
    let mut lhs = RadixCiphertext { blocks: blocks(&k, &[3, 1, 2, 0]) };
    let rhs = RadixCiphertext { blocks: blocks(&k, &[1, 2, 1, 0]) };
    let statuses = k.add_and_generate_init_carry_array(&mut lhs, &rhs, AddExtraOne::No);
    assert_eq!(values(&lhs.blocks), vec![4, 3, 3, 0]);
    assert_eq!(values(&statuses), vec![1, 2, 2, 0]);
}

#[test]
fn classifier_never_lets_the_lowest_block_propagate() {
    let k = key();
    let mut lhs = RadixCiphertext { blocks: blocks(&k, &[2, 3]) };
    let rhs = RadixCiphertext { blocks: blocks(&k, &[1, 0]) };
    let statuses = k.add_and_generate_init_carry_array(&mut lhs, &rhs, AddExtraOne::No);
    assert_eq!(values(&lhs.blocks), vec![3, 3]);
    assert_eq!(values(&statuses), vec![0, 2]);
}

#[test]
fn classifier_adds_the_extra_one_before_it_classifies() {
    let k = key();
    let mut lhs = RadixCiphertext { blocks: blocks(&k, &[2, 3]) };
    let rhs = RadixCiphertext { blocks: blocks(&k, &[1, 0]) };
    let statuses = k.add_and_generate_init_carry_array(&mut lhs, &rhs, AddExtraOne::Yes);
    assert_eq!(values(&lhs.blocks), vec![4, 3]);
    assert_eq!(values(&statuses), vec![1, 2]);
}

#[test]
fn sum_and_classify_handles_one_pair() {
    let k = key();
    let first = k.generate_carry_table();
    let rest = k.generate_or_propagate_table();
    let b = blocks(&k, &[3, 0, 2]);
    let (sum, status) = k.sum_and_classify(0, &b[0], &b[1], AddExtraOne::No, &first, &rest);
    assert_eq!((sum.value, status.value), (3, 0));
    let (sum, status) = k.sum_and_classify(1, &b[0], &b[1], AddExtraOne::Yes, &first, &rest);
    assert_eq!((sum.value, status.value), (3, 2));
    let (sum, status) = k.sum_and_classify(0, &b[0], &b[1], AddExtraOne::Yes, &first, &rest);
    assert_eq!((sum.value, status.value), (4, 1));
    let (sum, status) = k.sum_and_classify(2, &b[0], &b[2], AddExtraOne::No, &first, &rest);
    assert_eq!((sum.value, status.value), (5, 1));
}

#[test]
fn classification_tables_hold_the_statuses() {
    let k = key();
    let first = k.generate_carry_table();
    let rest = k.generate_or_propagate_table();
    assert_eq!(first.entries, vec![0, 0, 0, 0, 1, 1, 1, 1, 1, 1, 1, 1, 1, 1, 1, 1]);
    assert_eq!(rest.entries, vec![0, 0, 0, 2, 1, 1, 1, 1, 1, 1, 1, 1, 1, 1, 1, 1]);
}

#[test]
fn merge_table_merges_every_pair_of_statuses_under_narrow_moduli() {
    for (m, c) in [(2u64, 8u64), (8, 2), (3, 6), (2, 9)] {
        let k = ServerKey::new(m, c).unwrap();
        assert!(k.is_eligible_for_parallel_carryless_add());
        let lut = k.carry_propagation_table();
        assert_eq!(lut.right_modulus, 3);
        for msb in 0..3u64 {
            for lsb in 0..3u64 {
                let expected = if msb == 2 { lsb } else { msb };
                let b: Vec<Block> = [msb, lsb]
                    .iter()
                    .map(|v| Block { value: *v, message_modulus: m, carry_modulus: c })
                    .collect();
                assert_eq!(k.merge_statuses(&b[0], &b[1], &lut).value, expected);
            }
        }
    }
}

#[test]
fn merge_table_merges_every_pair_of_statuses() {
    let k = key();
    let lut = k.carry_propagation_table();
    for msb in 0..3u64 {
        for lsb in 0..3u64 {
            let expected = if msb == 2 { lsb } else { msb };
            assert_eq!(lut.table.entries[(msb * 3 + lsb) as usize], expected);
            let b = blocks(&k, &[msb, lsb]);
            assert_eq!(k.merge_statuses(&b[0], &b[1], &lut).value, expected);
        }
    }
}

#[test]
fn low_latency_scan_is_the_inclusive_scan() {
    let k = key();
    let lut = k.carry_propagation_table();
    let out = k.low_latency_scan(blocks(&k, &[1, 2, 2, 0]), &lut);
    assert_eq!(values(&out), vec![1, 1, 1, 0]);
    let out = k.low_latency_scan(blocks(&k, &[0, 2, 2, 2, 1, 2, 0]), &lut);
    assert_eq!(values(&out), vec![0, 0, 0, 0, 1, 1, 0]);
    let out = k.low_latency_scan(blocks(&k, &[1]), &lut);
    assert_eq!(values(&out), vec![1]);
}

#[test]
fn low_latency_round_merges_over_the_given_distance() {
    let k = key();
    let lut = k.carry_propagation_table();
    let start = blocks(&k, &[1, 2, 2, 2, 0, 2]);
    let one = k.low_latency_round(&start, 1, &lut);
    assert_eq!(values(&one), vec![1, 1, 2, 2, 0, 0]);
    let two = k.low_latency_round(&one, 2, &lut);
    assert_eq!(values(&two), vec![1, 1, 1, 1, 0, 0]);
    let past = k.low_latency_round(&two, 6, &lut);
    assert_eq!(values(&past), values(&two));
}

#[test]
fn work_efficient_scan_is_the_exclusive_scan() {
    let k = key();
    let lut = k.carry_propagation_table();
    let out = k.work_efficient_scan(blocks(&k, &[1, 2, 2, 0]), &lut);
    assert_eq!(values(&out), vec![0, 1, 1, 1]);
    let out = k.work_efficient_scan(blocks(&k, &[0, 2, 2, 2, 1, 2, 0, 2]), &lut);
    assert_eq!(values(&out), vec![0, 0, 0, 0, 0, 1, 1, 0]);
    let out = k.work_efficient_scan(blocks(&k, &[1]), &lut);
    assert_eq!(values(&out), vec![0]);
    let out = k.work_efficient_scan(blocks(&k, &[1, 2]), &lut);
    assert_eq!(values(&out), vec![0, 1]);
}

#[test]
fn work_efficient_scan_takes_any_length() {
    let k = key();
    let lut = k.carry_propagation_table();
    for n in 0..=17usize {
        let st: Vec<u64> = (0..n).map(|i| if i == 0 { 1 } else { ((i * 7 + 2) % 3) as u64 }).collect();
        let expected: Vec<u64> = inclusive(&st);
        let out = k.work_efficient_scan(blocks(&k, &st), &lut);
        let mut shifted = vec![0u64; n.min(1)];
        shifted.extend(expected.iter().take(n.saturating_sub(1)));
        assert_eq!(values(&out), shifted);
        let low = k.low_latency_scan(blocks(&k, &st), &lut);
        assert_eq!(values(&low), expected);
    }
}

#[test]
fn complete_tree_scan_is_the_exclusive_scan() {
    let k = key();
    let lut = k.carry_propagation_table();
    let out = k.complete_tree_scan(blocks(&k, &[1, 2, 2, 0]), &lut);
    assert_eq!(values(&out), vec![0, 1, 1, 1]);
    let out = k.complete_tree_scan(blocks(&k, &[2, 2]), &lut);
    assert_eq!(values(&out), vec![0, 0]);
}

#[test]
fn classifier_takes_operands_with_carries_while_the_sums_fit() {
    let k = key();
    let mut lhs = RadixCiphertext { blocks: blocks(&k, &[9, 1, 0, 12]) };
    let rhs = RadixCiphertext { blocks: blocks(&k, &[5, 2, 2, 3]) };
    let statuses = k.add_and_generate_init_carry_array(&mut lhs, &rhs, AddExtraOne::Yes);
    assert_eq!(values(&lhs.blocks), vec![15, 3, 2, 15]);
    assert_eq!(values(&statuses), vec![1, 2, 0, 1]);
    assert_eq!(values(&rhs.blocks), vec![5, 2, 2, 3]);
    let narrow = ServerKey::new(2, 8).unwrap();
    let mut lhs = RadixCiphertext { blocks: blocks(&narrow, &[1, 0, 1]) };
    let rhs = RadixCiphertext { blocks: blocks(&narrow, &[1, 1, 1]) };
    let statuses = narrow.add_and_generate_init_carry_array(&mut lhs, &rhs, AddExtraOne::No);
    assert_eq!(values(&lhs.blocks), vec![2, 1, 2]);
    assert_eq!(values(&statuses), vec![1, 2, 1]);
}

#[test]
fn sweeps_follow_the_tree() {
    let k = key();
    let lut = k.carry_propagation_table();
    let start = blocks(&k, &[1, 2, 0, 2]);
    let up1 = k.up_sweep_round(&start, 1, &lut);
    assert_eq!(values(&up1), vec![1, 1, 0, 0]);
    let up2 = k.up_sweep_round(&up1, 2, &lut);
    assert_eq!(values(&up2), vec![1, 1, 0, 0]);
    let mut root = up2.clone();
    root[3] = k.key.create_trivial(0);
    let down1 = k.down_sweep_round(&root, 4, &lut);
    assert_eq!(values(&down1), vec![1, 0, 0, 1]);
    let down2 = k.down_sweep_round(&down1, 2, &lut);
    assert_eq!(values(&down2), vec![0, 1, 1, 0]);
}

#[test]
fn both_scans_agree_on_every_status_array_of_four() {
    let k = key();
    let lut = k.carry_propagation_table();
    for code in 0..(2 * 27) {
        let st = vec![
            (code % 2) as u64,
            ((code / 2) % 3) as u64,
            ((code / 6) % 3) as u64,
            ((code / 18) % 3) as u64,
        ];
        let expected = inclusive(&st);
        let low = k.low_latency_scan(blocks(&k, &st), &lut);
        assert_eq!(values(&low), expected);
        let efficient = k.work_efficient_scan(blocks(&k, &st), &lut);
        assert_eq!(
            values(&efficient),
            vec![0, expected[0], expected[1], expected[2]]
        );
    }
}

#[test]
fn carries_are_injected_and_carry_space_cleared() {
    let k = key();
    let b = blocks(&k, &[7, 1, 3]);
    assert_eq!(k.inject_carry(&b[0], &b[1]).value, 0);
    assert_eq!(k.inject_carry(&b[2], &b[1]).value, 0);
    assert_eq!(k.inject_carry(&b[1], &b[1]).value, 2);
    let mut sums = RadixCiphertext { blocks: blocks(&k, &[4, 3, 3, 0]) };
    k.inject_carries(&mut sums, &blocks(&k, &[0, 1, 1, 1]));
    assert_eq!(values(&sums.blocks), vec![0, 0, 0, 1]);
}

#[test]
fn powers_of_two_are_recognized() {
    for n in [1usize, 2, 4, 8, 1024, 1 << 20] {
        assert!(is_power_of_two(n));
    }
    for n in [0usize, 3, 5, 6, 7, 12, 1000, (1 << 20) + 1] {
        assert!(!is_power_of_two(n));
    }
}
