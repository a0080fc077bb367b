//! Sizes of qubit registers and the layout of basis indices.
use vstd::prelude::*;
use vstd::arithmetic::power2::{pow2, lemma2_to64, lemma_pow2_pos, lemma_pow2_adds, lemma_pow2_unfold, lemma_pow2_strictly_increases};
use vstd::arithmetic::mul::{lemma_mul_inequality, lemma_mul_is_commutative, lemma_mul_is_distributive_add_other_way};
use vstd::arithmetic::div_mod::{lemma_fundamental_div_mod, lemma_fundamental_div_mod_converse};
use crate::vector::lemma_row_major;

verus! {

/// Number of amplitudes of a register of `num_qubits` qubits: `2^num_qubits`.
pub fn num_qubits_to_size(num_qubits: usize) -> (size: usize)
    requires
        pow2(num_qubits as nat) <= usize::MAX,
    ensures
        size == pow2(num_qubits as nat),
{
    let mut size: usize = 1;
    let mut i: usize = 0;
    proof {
        lemma2_to64();
    }
    while i < num_qubits
        invariant
            i <= num_qubits,
            size == pow2(i as nat),
            pow2(num_qubits as nat) <= usize::MAX,
        decreases num_qubits - i,
    {
        proof {
            lemma_pow2_unfold((i + 1) as nat);
            lemma_pow2_adds((i + 1) as nat, (num_qubits - i - 1) as nat);
            lemma_pow2_pos((num_qubits - i - 1) as nat);
            lemma_mul_inequality(1, pow2((num_qubits - i - 1) as nat) as int, pow2((i + 1) as nat) as int);
            lemma_mul_is_commutative(pow2((num_qubits - i - 1) as nat) as int, pow2((i + 1) as nat) as int);
        }
        size = size * 2;
        i = i + 1;
    }
    size
}

proof fn lemma_pow2_monotone(a: nat, b: nat)
    requires
        a <= b,
    ensures
        pow2(a) <= pow2(b),
{
    if a < b {
        lemma_pow2_strictly_increases(a, b);
    }
}

/// The basis index of a register of `num_qubits` qubits whose qubits before
/// `start` read `left`, whose qubits `[start, end)` read `middle` and whose
/// qubits from `end` on read `right` (qubit 0 is the most significant bit).
pub open spec fn basis_index(num_qubits: nat, start: nat, end: nat, left: nat, middle: nat, right: nat) -> nat {
    left * pow2((num_qubits - start) as nat) + middle * pow2((num_qubits - end) as nat) + right
}

/// A basis index built from parts that fit their qubit ranges lies in the register.
pub proof fn lemma_basis_index_bound(num_qubits: nat, start: nat, end: nat, left: nat, middle: nat, right: nat)
    requires
        start <= end <= num_qubits,
        left < pow2(start),
        middle < pow2((end - start) as nat),
        right < pow2((num_qubits - end) as nat),
    ensures
        basis_index(num_qubits, start, end, left, middle, right) < pow2(num_qubits),
        pow2((num_qubits - start) as nat) == pow2((end - start) as nat) * pow2((num_qubits - end) as nat),
        pow2(num_qubits) == pow2(start) * pow2((num_qubits - start) as nat),
{
    let r_size = pow2((num_qubits - end) as nat);
    let m_size = pow2((end - start) as nat);
    let tail = pow2((num_qubits - start) as nat);
    lemma_pow2_adds((end - start) as nat, (num_qubits - end) as nat);
    lemma_pow2_adds(start, (num_qubits - start) as nat);
    assert(((end - start) as nat + (num_qubits - end) as nat) == (num_qubits - start) as nat);
    assert(start + (num_qubits - start) as nat == num_qubits);
    lemma_mul_inequality((middle + 1) as int, m_size as int, r_size as int);
    lemma_mul_is_distributive_add_other_way(r_size as int, middle as int, 1);
    lemma_mul_inequality((left + 1) as int, pow2(start) as int, tail as int);
    lemma_mul_is_distributive_add_other_way(tail as int, left as int, 1);
}

/// Each basis index splits into the parts that `basis_index` puts together:
/// the qubits before `start`, the qubits `[start, end)` and the rest. So the
/// indices listed for the outcomes of a partial measurement cover the basis.
pub proof fn lemma_basis_index_split(num_qubits: nat, start: nat, end: nat, index: nat)
    requires
        start <= end <= num_qubits,
        index < pow2(num_qubits),
    ensures
        ({
            let tail = pow2((num_qubits - start) as nat);
            let right = pow2((num_qubits - end) as nat);
            &&& index / tail < pow2(start)
            &&& (index % tail) / right < pow2((end - start) as nat)
            &&& (index % tail) % right < right
            &&& index == basis_index(num_qubits, start, end, index / tail, (index % tail) / right, (index % tail) % right)
        }),
{
    let tail = pow2((num_qubits - start) as nat);
    let right = pow2((num_qubits - end) as nat);
    let middle = pow2((end - start) as nat);
    lemma_pow2_pos((num_qubits - start) as nat);
    lemma_pow2_pos((num_qubits - end) as nat);
    lemma_pow2_pos((end - start) as nat);
    lemma_pow2_pos(start);
    lemma_basis_index_bound(num_qubits, start, end, 0, 0, 0);
    lemma_row_major(index as int, pow2(start) as int, tail as int);
    lemma_row_major((index % tail) as int, middle as int, right as int);
}

/// Different parts give different basis indices, so the index lists of two
/// outcomes of a partial measurement share no index.
pub proof fn lemma_basis_index_injective(
    num_qubits: nat,
    start: nat,
    end: nat,
    l1: nat,
    m1: nat,
    r1: nat,
    l2: nat,
    m2: nat,
    r2: nat,
)
    requires
        start <= end <= num_qubits,
        l1 < pow2(start),
        l2 < pow2(start),
        m1 < pow2((end - start) as nat),
        m2 < pow2((end - start) as nat),
        r1 < pow2((num_qubits - end) as nat),
        r2 < pow2((num_qubits - end) as nat),
        basis_index(num_qubits, start, end, l1, m1, r1) == basis_index(num_qubits, start, end, l2, m2, r2),
    ensures
        l1 == l2 && m1 == m2 && r1 == r2,
{
    let tail = pow2((num_qubits - start) as nat) as int;
    let right = pow2((num_qubits - end) as nat) as int;
    let middle = pow2((end - start) as nat) as int;
    lemma_pow2_pos((num_qubits - end) as nat);
    lemma_basis_index_bound(num_qubits, start, end, l1, m1, r1);
    let k = basis_index(num_qubits, start, end, l1, m1, r1) as int;
    let low1 = m1 * right + r1;
    let low2 = m2 * right + r2;
    lemma_low_part_bound(m1 as int, r1 as int, middle, right);
    lemma_low_part_bound(m2 as int, r2 as int, middle, right);
    lemma_fundamental_div_mod_converse(k, tail, l1 as int, low1);
    lemma_fundamental_div_mod_converse(k, tail, l2 as int, low2);
    lemma_fundamental_div_mod_converse(low1, right, m1 as int, r1 as int);
    lemma_fundamental_div_mod_converse(low2, right, m2 as int, r2 as int);
}

proof fn lemma_low_part_bound(m: int, r: int, middle: int, right: int)
    requires
        0 <= m < middle,
        0 <= r < right,
    ensures
        0 <= m * right + r < middle * right,
{
    lemma_mul_inequality(m + 1, middle, right);
    lemma_mul_is_distributive_add_other_way(right, m, 1);
    lemma_mul_inequality(0, m, right);
}

proof fn lemma_index_step(i: int, left_count: int, right_count: int, middle_count: int, middle: int)
    requires
        right_count > 0,
        0 <= middle < middle_count,
        0 <= i < left_count * right_count,
    ensures
        0 <= i / right_count < left_count,
        0 <= i % right_count < right_count,
        (i / right_count) * (middle_count * right_count) + middle * right_count + i % right_count
            < left_count * (middle_count * right_count),
{
    let left = i / right_count;
    let right = i % right_count;
    lemma_fundamental_div_mod(i, right_count);
    lemma_mul_is_commutative(left, right_count);
    if left >= left_count {
        lemma_mul_inequality(left_count, left, right_count);
    }
    let tail = middle_count * right_count;
    lemma_mul_inequality(middle + 1, middle_count, right_count);
    lemma_mul_is_distributive_add_other_way(right_count, middle, 1);
    lemma_mul_inequality(left + 1, left_count, tail);
    lemma_mul_is_distributive_add_other_way(tail, left, 1);
}

proof fn lemma_count_fits(left_count: int, right_count: int, middle_count: int)
    requires
        left_count > 0,
        right_count > 0,
        middle_count > 0,
    ensures
        left_count * right_count <= left_count * (middle_count * right_count),
{
    lemma_mul_inequality(1, middle_count, right_count);
    lemma_mul_inequality(right_count, middle_count * right_count, left_count);
    lemma_mul_is_commutative(right_count, left_count);
    lemma_mul_is_commutative(middle_count * right_count, left_count);
}

/// The basis indices at which qubits `[start, end)` of a register of
/// `num_qubits` qubits read `outcome`. Entry `i` is the index whose other
/// qubits read `i` when the qubits before `start` and from `end` on are put
/// together in order, so the entries ascend and list each such index once.
pub fn outcome_indices(num_qubits: usize, start: usize, end: usize, outcome: usize) -> (indices: Vec<usize>)
    requires
        start <= end <= num_qubits,
        pow2(num_qubits as nat) <= usize::MAX,
        outcome < pow2((end - start) as nat),
    ensures
        indices.len() == pow2(start as nat) * pow2((num_qubits - end) as nat),
        forall|i: int| 0 <= i < indices.len() ==> indices[i] < pow2(num_qubits as nat) && indices[i]
            == basis_index(num_qubits as nat, start as nat, end as nat,
                (i / pow2((num_qubits - end) as nat) as int) as nat, outcome as nat,
                (i % pow2((num_qubits - end) as nat) as int) as nat),
{
    proof {
        lemma_pow2_pos((num_qubits - end) as nat);
        lemma_pow2_pos((end - start) as nat);
        lemma_pow2_pos(start as nat);
        lemma_pow2_pos((num_qubits - start) as nat);
        lemma_basis_index_bound(num_qubits as nat, start as nat, end as nat, 0, outcome as nat, 0);
        lemma_pow2_monotone(start as nat, num_qubits as nat);
        lemma_pow2_monotone((num_qubits - end) as nat, num_qubits as nat);
        lemma_pow2_monotone((num_qubits - start) as nat, num_qubits as nat);
        lemma_count_fits(pow2(start as nat) as int, pow2((num_qubits - end) as nat) as int, pow2((end - start) as nat) as int);
    }
    let left_count = num_qubits_to_size(start);
    let right_count = num_qubits_to_size(num_qubits - end);
    let tail = num_qubits_to_size(num_qubits - start);
    let count = left_count * right_count;
    let ghost middle_count = pow2((end - start) as nat) as int;
    let ghost total = pow2(num_qubits as nat) as int;
    let mut indices: Vec<usize> = Vec::new();
    let mut i: usize = 0;
    while i < count
        invariant
            i <= count,
            outcome < middle_count,
            right_count > 0,
            tail == middle_count * right_count,
            total == left_count * tail,
            total <= usize::MAX,
            count == left_count * right_count,
            indices.len() == i,
            forall|j: int| 0 <= j < i ==> indices[j] < total && indices[j]
                == (j / right_count as int) * tail + outcome * right_count + j % right_count as int,
        decreases count - i,
    {
        let left = i / right_count;
        let right = i % right_count;
        proof {
            lemma_index_step(i as int, left_count as int, right_count as int, middle_count, outcome as int);
            lemma_mul_inequality(left as int, left_count as int, tail as int);
            lemma_mul_inequality(outcome as int, middle_count, right_count as int);
        }
        let index = left * tail + outcome * right_count + right;
        indices.push(index);
        i = i + 1;
    }
    assert(forall|j: int| 0 <= j < indices.len() ==> indices[j]
        == basis_index(num_qubits as nat, start as nat, end as nat,
            (j / pow2((num_qubits - end) as nat) as int) as nat, outcome as nat,
            (j % pow2((num_qubits - end) as nat) as int) as nat));
    indices
}

} // verus!