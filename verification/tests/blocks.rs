use radix_carry::block::{Block, EvaluationKey};
use radix_carry::carry::{
    does_block_generate_carry, does_block_generate_or_propagate, prefix_sum_carry_propagation,
    AddExtraOne, OutputCarry,
};

fn key(message_modulus: u64, carry_modulus: u64) -> EvaluationKey {
    EvaluationKey::new(message_modulus, carry_modulus).unwrap()
}

fn block(k: &EvaluationKey, value: u64) -> Block {
    Block {
        value,
        message_modulus: k.message_modulus,
        carry_modulus: k.carry_modulus,
    }
}

#[test]
fn key_with_both_moduli_at_least_two_is_accepted() {
    let k = EvaluationKey::new(4, 4).unwrap();
    assert_eq!(k.message_modulus, 4);
    assert_eq!(k.carry_modulus, 4);
    assert_eq!(k.total_modulus(), 16);
    assert!(EvaluationKey::new(2, 2).is_some());
}

#[test]
fn key_with_a_modulus_below_two_is_refused() {
    assert!(EvaluationKey::new(1, 4).is_none());
    assert!(EvaluationKey::new(4, 1).is_none());
    assert!(EvaluationKey::new(0, 0).is_none());
}

#[test]
fn key_whose_total_modulus_exceeds_32_bits_is_refused() {
    assert!(EvaluationKey::new(1 << 16, 1 << 16).is_none());
    assert!(EvaluationKey::new(u64::MAX, 2).is_none());
    assert!(EvaluationKey::new(2, u64::MAX).is_none());
    assert!(EvaluationKey::new(1 << 16, (1 << 16) - 1).is_some());
    assert!(EvaluationKey::new(0xffff_ffff, 2).is_none());
}

#[test]
fn trivial_block_holds_value_below_message_modulus() {
    let k = key(4, 4);
    assert_eq!(k.create_trivial(3), block(&k, 3));
    assert_eq!(k.create_trivial(6), block(&k, 2));
    assert_eq!(k.create_trivial(0).value, 0);
    let mut b = block(&k, 9);
    k.create_trivial_assign(&mut b, 7);
    assert_eq!(b, block(&k, 3));
    assert!(b.carry_is_empty());
}

#[test]
fn block_add_keeps_the_carry() {
    let k = key(4, 4);
    let mut a = block(&k, 3);
    k.unchecked_add_assign(&mut a, &block(&k, 3));
    assert_eq!(a.value, 6);
    assert!(!a.carry_is_empty());
    k.unchecked_scalar_add_assign(&mut a, 1);
    assert_eq!(a.value, 7);
}

#[test]
fn message_and_carry_are_extracted() {
    let k = key(4, 4);
    let b = block(&k, 14);
    assert_eq!(k.message_extract(&b).value, 2);
    assert_eq!(k.carry_extract(&b).value, 3);
    let mut c = b;
    k.message_extract_assign(&mut c);
    assert_eq!(c, block(&k, 2));
    assert!(c.carry_is_empty());
}

#[test]
fn carry_is_empty_exactly_below_message_modulus() {
    let k = key(4, 4);
    assert!(block(&k, 3).carry_is_empty());
    assert!(!block(&k, 4).carry_is_empty());
}

#[test]
fn accumulator_tabulates_the_function_over_the_total_modulus() {
    let k = key(4, 4);
    let acc = k.generate_accumulator(|x| x + 1);
    assert_eq!(acc.entries.len(), 16);
    assert_eq!(acc.entries[0], 1);
    assert_eq!(acc.entries[14], 15);
    assert_eq!(acc.entries[15], 0);
    let out = k.apply_lookup_table(&block(&k, 5), &acc);
    assert_eq!(out, block(&k, 6));
}

#[test]
fn bivariate_accumulator_packs_left_above_right() {
    let k = key(4, 4);
    let acc = k.generate_accumulator_bivariate(|a, b| a * 4 + b);
    assert_eq!(acc.right_modulus, 4);
    for x in 0..16u64 {
        assert_eq!(acc.table.entries[x as usize], x);
    }
    let product = k.generate_accumulator_bivariate(|a, b| a * b);
    let out = k.unchecked_apply_lookup_table_bivariate(&block(&k, 2), &block(&k, 3), &product);
    assert_eq!(out.value, 6);
    let mut left = block(&k, 3);
    k.unchecked_apply_lookup_table_bivariate_assign(&mut left, &block(&k, 3), &product);
    assert_eq!(left.value, 9);
}

#[test]
fn bivariate_accumulator_packs_with_a_factor_of_its_own() {
    let k = key(2, 8);
    let acc = k.generate_accumulator_bivariate_with_factor(|a, b| 10 * a + b, 3);
    assert_eq!(acc.right_modulus, 3);
    assert_eq!(acc.table.entries.len(), 16);
    assert_eq!(acc.table.entries[0], 0);
    assert_eq!(acc.table.entries[2], 2);
    assert_eq!(acc.table.entries[3], 10);
    assert_eq!(acc.table.entries[8], 22 % 16);
    assert_eq!(acc.table.entries[15], 50 % 16);
    let out = k.unchecked_apply_lookup_table_bivariate(&block(&k, 1), &block(&k, 2), &acc);
    assert_eq!(out.value, 12);
    let out = k.unchecked_apply_lookup_table_bivariate(&block(&k, 4), &block(&k, 2), &acc);
    assert_eq!(out.value, 42 % 16);
}

#[test]
fn merge_takes_the_lower_status_only_under_a_propagating_one() {
    let none = OutputCarry::NoCarry.code();
    let generated = OutputCarry::Generated.code();
    let propagated = OutputCarry::Propagated.code();
    assert_eq!((none, generated, propagated), (0, 1, 2));
    for lsb in [none, generated, propagated] {
        assert_eq!(prefix_sum_carry_propagation(propagated, lsb), lsb);
        assert_eq!(prefix_sum_carry_propagation(none, lsb), none);
        assert_eq!(prefix_sum_carry_propagation(generated, lsb), generated);
    }
}

#[test]
fn merge_is_associative_on_all_statuses() {
    for a in 0..3u64 {
        for b in 0..3u64 {
            for c in 0..3u64 {
                assert_eq!(
                    prefix_sum_carry_propagation(prefix_sum_carry_propagation(a, b), c),
                    prefix_sum_carry_propagation(a, prefix_sum_carry_propagation(b, c))
                );
            }
        }
    }
}

#[test]
fn lowest_block_generates_or_does_nothing() {
    assert_eq!(does_block_generate_carry(3, 4), 0);
    assert_eq!(does_block_generate_carry(4, 4), 1);
    assert_eq!(does_block_generate_carry(7, 4), 1);
    assert_eq!(does_block_generate_carry(0, 4), 0);
}

#[test]
fn higher_block_generates_propagates_or_does_nothing() {
    assert_eq!(does_block_generate_or_propagate(2, 4), 0);
    assert_eq!(does_block_generate_or_propagate(3, 4), 2);
    assert_eq!(does_block_generate_or_propagate(4, 4), 1);
    assert_eq!(does_block_generate_or_propagate(6, 4), 1);
}

#[test]
fn extra_one_amounts_to_one_or_nothing() {
    assert_eq!(AddExtraOne::Yes.amount(), 1);
    assert_eq!(AddExtraOne::No.amount(), 0);
}
