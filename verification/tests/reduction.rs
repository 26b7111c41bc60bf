use radix_carry::block::Block;
use radix_carry::radix::{RadixCiphertext, ServerKey};
use radix_carry::reduce::{CiphertextCow, CiphertextCowMut};

fn key() -> ServerKey {
    ServerKey::new(4, 4).unwrap()
}

fn radix(k: &ServerKey, values: &[u64]) -> RadixCiphertext {
    RadixCiphertext {
        blocks: values
            .iter()
            .map(|v| Block {
                value: *v,
                message_modulus: k.key.message_modulus,
                carry_modulus: k.key.carry_modulus,
            })
            .collect(),
    }
}

fn digits(ct: &RadixCiphertext) -> Vec<u64> {
    ct.blocks.iter().map(|b| b.value).collect()
}

fn take_left(_: &ServerKey, a: &RadixCiphertext, _: &RadixCiphertext) -> RadixCiphertext {
    a.clone()
}

fn take_right(_: &ServerKey, _: &RadixCiphertext, b: &RadixCiphertext) -> RadixCiphertext {
    b.clone()
}

// Writes the digits of both operands one after the other: associative, and
// not commutative, so the outcome shows the order in which elements met.
fn concatenate(_: &ServerKey, a: &RadixCiphertext, b: &RadixCiphertext) -> RadixCiphertext {
    let mut blocks = a.blocks.clone();
    blocks.extend(b.blocks.iter().copied());
    RadixCiphertext { blocks }
}

#[test]
fn five_integers_reduce_to_15_under_addition() {
    let sks = key();
    let cts: Vec<RadixCiphertext> = [1u64, 2, 3, 4, 5]
        .iter()
        .map(|x| sks.create_trivial_radix(*x, 4))
        .collect();
    let refs: Vec<&RadixCiphertext> = cts.iter().collect();
    let sum = sks
        .default_binary_op_seq_parallelized(refs, |k, a, b| k.add_parallelized(a, b))
        .unwrap();
    assert_eq!(sks.decrypt_trivial(&sum), Some(15));
    assert!(sum.block_carries_are_empty());
    for (ct, x) in cts.iter().zip([1u64, 2, 3, 4, 5]) {
        assert_eq!(sks.decrypt_trivial(ct), Some(x));
    }
}

#[test]
fn five_integers_reduce_to_15_under_smart_addition() {
    let sks = key();
    let mut cts: Vec<RadixCiphertext> = [1u64, 2, 3, 4, 5]
        .iter()
        .map(|x| sks.create_trivial_radix(*x, 4))
        .collect();
    let refs: Vec<&mut RadixCiphertext> = cts.iter_mut().collect();
    let sum = sks
        .smart_binary_op_seq_parallelized(refs, |k, a, b| k.smart_add_parallelized(a, b))
        .unwrap();
    assert_eq!(sks.decrypt_trivial(&sum), Some(15));
    assert!(sum.block_carries_are_empty());
    for (ct, x) in cts.iter().zip([1u64, 2, 3, 4, 5]) {
        assert_eq!(sks.decrypt_trivial(ct), Some(x));
    }
}

#[test]
fn reduction_equals_the_left_fold_for_every_length() {
    let sks = key();
    for n in 1..=9usize {
        let plain: Vec<u64> = (0..n as u64).map(|i| 37 * i + 11).collect();
        let cts: Vec<RadixCiphertext> = plain
            .iter()
            .map(|x| sks.create_trivial_radix(*x, 4))
            .collect();
        let folded = plain.iter().fold(0u64, |acc, x| (acc + x) % 256);
        let refs: Vec<&RadixCiphertext> = cts.iter().collect();
        let sum = sks
            .default_binary_op_seq_parallelized(refs, |k, a, b| k.add_parallelized(a, b))
            .unwrap();
        assert_eq!(sks.decrypt_trivial(&sum), Some(folded));
        let mut owned: Vec<RadixCiphertext> = cts.iter().map(|c| c.clone()).collect();
        let refs: Vec<&mut RadixCiphertext> = owned.iter_mut().collect();
        let smart = sks
            .smart_binary_op_seq_parallelized(refs, |k, a, b| k.smart_add_parallelized(a, b))
            .unwrap();
        assert_eq!(digits(&smart), digits(&sum));
    }
}

#[test]
fn empty_sequence_reduces_to_nothing() {
    let sks = key();
    let none = sks.default_binary_op_seq_parallelized(Vec::new(), |k, a, b| {
        k.add_parallelized(a, b)
    });
    assert!(none.is_none());
    let none = sks.smart_binary_op_seq_parallelized(Vec::new(), |k, a, b| {
        k.smart_add_parallelized(a, b)
    });
    assert!(none.is_none());
}

#[test]
fn single_element_reduces_to_itself() {
    let sks = key();
    let ct = radix(&sks, &[5, 9, 0, 15]);
    let out = sks
        .default_binary_op_seq_parallelized(vec![&ct], |k, a, b| k.add_parallelized(a, b))
        .unwrap();
    assert_eq!(digits(&out), vec![5, 9, 0, 15]);
    let mut ct = radix(&sks, &[5, 9, 0, 15]);
    let out = sks
        .smart_binary_op_seq_parallelized(vec![&mut ct], |k, a, b| {
            k.smart_add_parallelized(a, b)
        })
        .unwrap();
    assert_eq!(digits(&out), vec![5, 9, 0, 15]);
    assert_eq!(digits(&ct), vec![5, 9, 0, 15]);
}

#[test]
fn pairing_keeps_the_order_of_the_elements() {
    let sks = key();
    for n in 1..=8u64 {
        let cts: Vec<RadixCiphertext> = (0..n).map(|i| radix(&sks, &[i])).collect();
        let refs: Vec<&RadixCiphertext> = cts.iter().collect();
        let all = sks
            .default_binary_op_seq_parallelized(refs, concatenate)
            .unwrap();
        assert_eq!(digits(&all), (0..n).collect::<Vec<u64>>());
        let refs: Vec<&RadixCiphertext> = cts.iter().collect();
        let first = sks.default_binary_op_seq_parallelized(refs, take_left).unwrap();
        assert_eq!(digits(&first), vec![0]);
        let refs: Vec<&RadixCiphertext> = cts.iter().collect();
        let last = sks.default_binary_op_seq_parallelized(refs, take_right).unwrap();
        assert_eq!(digits(&last), vec![n - 1]);
    }
}

#[test]
fn smart_reduction_leaves_in_each_operand_what_the_operator_left() {
    let sks = key();
    let mut cts = vec![
        radix(&sks, &[15, 8]),
        radix(&sks, &[8, 8]),
        radix(&sks, &[1, 0]),
    ];
    let refs: Vec<&mut RadixCiphertext> = cts.iter_mut().collect();
    let sum = sks
        .smart_binary_op_seq_parallelized(refs, |k, a, b| k.smart_add_parallelized(a, b))
        .unwrap();
    // 47 + (40 + 1) modulo 16
    assert_eq!(sks.decrypt_trivial(&sum), Some(8));
    // the first round pairs the second and third element, which can be added
    // as they are, to [1, 2]; the second round pairs the first element with
    // that sum, which cannot (15 + 1), so the first element is normalized
    assert_eq!(digits(&cts[0]), vec![3, 3]);
    assert_eq!(digits(&cts[1]), vec![8, 8]);
    assert_eq!(digits(&cts[2]), vec![1, 0]);
}

#[test]
fn smart_reduction_marks_every_operand_once() {
    let sks = key();
    for n in 1..=9usize {
        let mut cts: Vec<RadixCiphertext> = (0..n).map(|_| radix(&sks, &[0])).collect();
        let refs: Vec<&mut RadixCiphertext> = cts.iter_mut().collect();
        let out = sks
            .smart_binary_op_seq_parallelized(refs, |k, a, b| {
                a.blocks[0].value += 1;
                b.blocks[0].value += 1;
                k.create_trivial_radix(0, 1)
            })
            .unwrap();
        assert_eq!(digits(&out), vec![0]);
        let expected = if n == 1 { 0 } else { 1 };
        for ct in &cts {
            assert_eq!(digits(ct), vec![expected]);
        }
    }
}

#[test]
fn one_round_pairs_up_consecutive_elements() {
    let sks = key();
    let cts: Vec<RadixCiphertext> = (0..5u64).map(|i| radix(&sks, &[i])).collect();
    let cows: Vec<CiphertextCow> = cts.iter().map(CiphertextCow::Borrowed).collect();
    let next = sks.reduce_round(cows, &concatenate);
    let seen: Vec<Vec<u64>> = next.iter().map(|c| digits(c.as_ref())).collect();
    assert_eq!(seen, vec![vec![0], vec![1, 2], vec![3, 4]]);
    assert!(matches!(next[0], CiphertextCow::Borrowed(_)));
    assert!(matches!(next[1], CiphertextCow::Owned(_)));
    let next = sks.reduce_round(next, &concatenate);
    let seen: Vec<Vec<u64>> = next.iter().map(|c| digits(c.as_ref())).collect();
    assert_eq!(seen, vec![vec![0], vec![1, 2, 3, 4]]);
    let last = sks.reduce_impl(next, &concatenate).unwrap();
    assert_eq!(digits(&last), vec![0, 1, 2, 3, 4]);
}

#[test]
fn one_smart_round_pairs_up_consecutive_elements() {
    let sks = key();
    let mut cts: Vec<RadixCiphertext> = (0..4u64).map(|i| radix(&sks, &[i])).collect();
    let cows: Vec<CiphertextCowMut> = cts.iter_mut().map(CiphertextCowMut::Borrowed).collect();
    let swap_and_join =
        |_: &ServerKey, a: &mut RadixCiphertext, b: &mut RadixCiphertext| -> RadixCiphertext {
            let joined = concatenate(&key(), a, b);
            a.blocks[0].value += 10;
            joined
        };
    let next = sks.smart_reduce_round(cows, &swap_and_join);
    let seen: Vec<Vec<u64>> = next.iter().map(|c| digits(c.as_ref())).collect();
    assert_eq!(seen, vec![vec![0, 1], vec![2, 3]]);
    let last = sks.smart_reduce_impl(next, &swap_and_join).unwrap();
    assert_eq!(digits(&last), vec![0, 1, 2, 3]);
    assert_eq!(
        cts.iter().map(digits).collect::<Vec<_>>(),
        vec![vec![10], vec![1], vec![12], vec![3]]
    );
}

#[test]
fn combine_mut_returns_the_result_and_what_was_left_in_the_copies() {
    let sks = key();
    let left = CiphertextCowMut::Owned(radix(&sks, &[8, 8]));
    let mut borrowed = radix(&sks, &[8, 8]);
    let right = CiphertextCowMut::Borrowed(&mut borrowed);
    let op = |k: &ServerKey, a: &mut RadixCiphertext, b: &mut RadixCiphertext| -> RadixCiphertext {
        k.smart_add_parallelized(a, b)
    };
    let (sum, left_after, right_after) = sks.combine_mut(&left, &right, &op);
    assert_eq!(digits(&sum), vec![0, 0]);
    assert_eq!(digits(&left_after), vec![0, 2]);
    assert_eq!(digits(&right_after), vec![0, 2]);
    assert_eq!(digits(left.as_ref()), vec![8, 8]);
    assert_eq!(digits(right.as_ref()), vec![8, 8]);
}
