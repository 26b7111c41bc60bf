use radix_carry::block::Block;
use radix_carry::radix::{RadixCiphertext, ServerKey};

fn key(message_modulus: u64, carry_modulus: u64) -> ServerKey {
    ServerKey::new(message_modulus, carry_modulus).unwrap()
}

fn radix(k: &ServerKey, values: &[u64]) -> RadixCiphertext {
    RadixCiphertext {
        blocks: values
            .iter()
            .map(|v| Block {
                value: *v,
                message_modulus: k.key.message_modulus,
                carry_modulus: k.key.carry_modulus,
            })
            .collect(),
    }
}

fn digits(ct: &RadixCiphertext) -> Vec<u64> {
    ct.blocks.iter().map(|b| b.value).collect()
}

#[test]
fn server_key_follows_the_evaluation_key() {
    assert!(ServerKey::new(4, 4).is_some());
    assert!(ServerKey::new(1, 4).is_none());
    assert!(ServerKey::new(4, 1).is_none());
    assert!(ServerKey::new(1 << 20, 1 << 20).is_none());
}

#[test]
fn trivial_radix_holds_the_low_digits() {
    let k = key(4, 4);
    assert_eq!(digits(&k.create_trivial_radix(111, 4)), vec![3, 3, 2, 1]);
    assert_eq!(digits(&k.create_trivial_radix(14, 4)), vec![2, 3, 0, 0]);
    assert_eq!(digits(&k.create_trivial_radix(97, 4)), vec![1, 0, 2, 1]);
    assert_eq!(digits(&k.create_trivial_radix(300, 4)), vec![0, 3, 2, 0]);
    assert_eq!(digits(&k.create_trivial_radix(5, 0)), Vec::<u64>::new());
    assert!(k.create_trivial_radix(255, 4).block_carries_are_empty());
}

#[test]
fn decrypt_gives_back_what_was_encoded() {
    let k = key(4, 4);
    for x in 0..256u64 {
        let ct = k.create_trivial_radix(x, 4);
        assert_eq!(k.decrypt_trivial(&ct), Some(x));
    }
    assert_eq!(k.decrypt_trivial(&k.create_trivial_radix(300, 4)), Some(300 % 256));
    assert_eq!(k.decrypt_trivial(&k.create_trivial_radix(7, 0)), Some(0));
}

#[test]
fn decrypt_counts_carries_at_the_weight_of_their_block() {
    let k = key(4, 4);
    assert_eq!(k.decrypt_trivial(&radix(&k, &[5, 0])), Some(5));
    assert_eq!(k.decrypt_trivial(&radix(&k, &[15, 15])), Some((15 + 15 * 4) % 16));
    assert_eq!(k.decrypt_trivial(&radix(&k, &[4])), Some(0));
}

#[test]
fn decrypt_gives_nothing_where_the_radix_modulus_exceeds_64_bits() {
    let k = key(4, 4);
    assert_eq!(
        k.decrypt_trivial(&k.create_trivial_radix(u64::MAX, 31)),
        Some(u64::MAX % (1u64 << 62))
    );
    assert_eq!(k.decrypt_trivial(&k.create_trivial_radix(1, 32)), None);
    assert_eq!(k.decrypt_trivial(&k.create_trivial_radix(1, 40)), None);
    let k2 = key(2, 2);
    assert_eq!(k2.decrypt_trivial(&k2.create_trivial_radix(u64::MAX, 63)), Some(u64::MAX >> 1));
    assert_eq!(k2.decrypt_trivial(&k2.create_trivial_radix(1, 64)), None);
}

#[test]
fn carries_are_empty_when_every_block_is_below_message_modulus() {
    let k = key(4, 4);
    assert!(radix(&k, &[0, 3, 1]).block_carries_are_empty());
    assert!(!radix(&k, &[0, 4, 1]).block_carries_are_empty());
    assert!(radix(&k, &[]).block_carries_are_empty());
}

#[test]
fn compatibility_asks_for_matching_moduli_and_values_below_total() {
    let k = key(4, 4);
    assert!(k.is_compatible(&radix(&k, &[15, 0])));
    assert!(!k.is_compatible(&radix(&k, &[16, 0])));
    let other = key(4, 2);
    assert!(!k.is_compatible(&radix(&other, &[1, 1])));
    let third = key(2, 4);
    assert!(!k.is_compatible(&radix(&third, &[1, 1])));
}

#[test]
fn add_is_possible_while_every_pair_stays_below_total() {
    let k = key(4, 4);
    assert!(k.is_add_possible(&radix(&k, &[8, 0]), &radix(&k, &[7, 15])));
    assert!(!k.is_add_possible(&radix(&k, &[8, 0]), &radix(&k, &[8, 15])));
    assert!(!k.is_add_possible(&radix(&k, &[0, 1]), &radix(&k, &[0, 15])));
    assert!(k.is_add_possible(&radix(&k, &[]), &radix(&k, &[])));
}

#[test]
fn plain_add_leaves_carries_where_they_fall() {
    let k = key(4, 4);
    let mut l = radix(&k, &[3, 3, 0]);
    k.unchecked_add_assign(&mut l, &radix(&k, &[3, 1, 0]));
    assert_eq!(digits(&l), vec![6, 4, 0]);
    assert!(!l.block_carries_are_empty());
}

#[test]
fn full_propagate_moves_carries_up_and_drops_the_last() {
    let k = key(4, 4);
    let mut ct = radix(&k, &[15, 15]);
    k.full_propagate_parallelized(&mut ct);
    assert_eq!(digits(&ct), vec![3, 2]);
    assert!(ct.block_carries_are_empty());
    let mut ct = radix(&k, &[6, 4, 0]);
    k.full_propagate_parallelized(&mut ct);
    assert_eq!(digits(&ct), vec![2, 1, 1]);
    let mut ct = radix(&k, &[4, 3, 3, 3]);
    k.full_propagate_parallelized(&mut ct);
    assert_eq!(digits(&ct), vec![0, 0, 0, 0]);
}

#[test]
fn full_propagate_keeps_the_decrypted_value() {
    let k = key(4, 4);
    for a in 0..16u64 {
        for b in 0..16u64 {
            let mut ct = radix(&k, &[a, b, 5]);
            let before = k.decrypt_trivial(&ct);
            k.full_propagate_parallelized(&mut ct);
            assert_eq!(k.decrypt_trivial(&ct), before);
            assert!(ct.block_carries_are_empty());
        }
    }
}

#[test]
fn full_propagate_changes_nothing_without_carries() {
    let k = key(4, 4);
    for x in [0u64, 1, 14, 97, 111, 255] {
        let mut ct = k.create_trivial_radix(x, 4);
        let before = digits(&ct);
        k.full_propagate_parallelized(&mut ct);
        assert_eq!(digits(&ct), before);
        assert_eq!(k.decrypt_trivial(&ct), Some(x));
        k.full_propagate_parallelized(&mut ct);
        assert_eq!(digits(&ct), before);
    }
}

#[test]
fn full_propagated_returns_the_normalized_integer() {
    let k = key(4, 2);
    let out = k.full_propagated(radix(&k, &[7, 7, 7]));
    assert_eq!(digits(&out), vec![3, 0, 1]);
}

#[test]
fn full_propagate_both_normalizes_both() {
    let k = key(4, 4);
    let mut l = radix(&k, &[15, 15]);
    let mut r = radix(&k, &[4, 0]);
    k.full_propagate_both(&mut l, &mut r);
    assert_eq!(digits(&l), vec![3, 2]);
    assert_eq!(digits(&r), vec![0, 1]);
}

#[test]
fn clone_keeps_the_blocks() {
    let k = key(4, 4);
    let ct = radix(&k, &[1, 2, 3]);
    let copy = ct.clone();
    assert_eq!(digits(&copy), vec![1, 2, 3]);
    assert_eq!(copy.blocks, ct.blocks);
}
