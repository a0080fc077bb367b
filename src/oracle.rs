//! Oracles of classical functions, `|x, y> -> |x, y xor f(x)>`, as permutations
//! of the computational basis.
use vstd::prelude::*;
use vstd::arithmetic::power2::{pow2, lemma_pow2_pos, lemma_pow2_adds, lemma_pow2_strictly_increases};
use vstd::arithmetic::div_mod::{lemma_fundamental_div_mod, lemma_fundamental_div_mod_converse};
use vstd::arithmetic::mul::{lemma_mul_inequality, lemma_mul_is_commutative, lemma_mul_is_distributive_add_other_way};
use vstd::bits::lemma_usize_shl_is_mul;
use crate::qubits::num_qubits_to_size;

verus! {

/// A table of a function from `input_bits`-bit integers to `output_bits`-bit
/// integers: one entry per input, each below `2^output_bits`.
pub open spec fn is_function_table(input_bits: nat, output_bits: nat, table: Seq<usize>) -> bool {
    &&& table.len() == pow2(input_bits)
    &&& forall|x: int| 0 <= x < table.len() ==> (#[trigger] table[x]) < pow2(output_bits)
}

/// The basis index that the oracle of `table` sends `index = x * 2^output_bits + y` to:
/// `x * 2^output_bits + (y xor table[x])`.
pub open spec fn oracle_target(output_bits: nat, table: Seq<usize>, index: nat) -> nat {
    let x = index / pow2(output_bits);
    let y = (index % pow2(output_bits)) as usize;
    (x * pow2(output_bits) + (y ^ table[x as int])) as nat
}

proof fn lemma_xor_below(y: usize, f: usize, bits: usize)
    requires
        pow2(bits as nat) <= usize::MAX,
        y < pow2(bits as nat),
        f < pow2(bits as nat),
    ensures
        (y ^ f) < pow2(bits as nat),
        (y ^ f) ^ f == y,
{
    lemma_bits_fit_usize(bits as nat);
    lemma_usize_shl_is_mul(1, bits);
    let m: usize = 1usize << bits;
    assert(m == pow2(bits as nat));
    assert(y < m && f < m && bits < 64 && m == (1usize << bits) ==> (y ^ f) < m) by (bit_vector);
    assert((y ^ f) ^ f == y) by (bit_vector);
}

/// A power of two that fits in a `usize` has an exponent below the width of `usize`.
pub proof fn lemma_bits_fit_usize(bits: nat)
    requires
        pow2(bits) <= usize::MAX,
    ensures
        bits < usize::BITS,
        bits < 64,
{
    vstd::layout::unsigned_int_max_values();
    if bits >= usize::BITS {
        if bits > usize::BITS {
            lemma_pow2_strictly_increases(usize::BITS as nat, bits);
        }
    }
}

proof fn lemma_split_index(index: nat, x_count: nat, y_count: nat)
    requires
        y_count > 0,
        index < x_count * y_count,
    ensures
        index / y_count < x_count,
        index == (index / y_count) * y_count + index % y_count,
        index % y_count < y_count,
{
    lemma_fundamental_div_mod(index as int, y_count as int);
    let x = index / y_count;
    lemma_mul_is_commutative(x as int, y_count as int);
    if x >= x_count {
        lemma_mul_inequality(x_count as int, x as int, y_count as int);
    }
}

/// The oracle permutation of a table of `f`: entry `i` is the basis index
/// that basis index `i` is sent to. A gate of `f` has a one in row `perm[i]`
/// of column `i` and zeros elsewhere.
pub fn oracle_permutation(input_bits: usize, output_bits: usize, table: &Vec<usize>) -> (perm: Vec<usize>)
    requires
        pow2((input_bits + output_bits) as nat) <= usize::MAX,
        is_function_table(input_bits as nat, output_bits as nat, table@),
    ensures
        perm.len() == pow2((input_bits + output_bits) as nat),
        forall|i: int| 0 <= i < perm.len() ==> perm[i] == oracle_target(output_bits as nat, table@, i as nat),
{
    proof {
        lemma_pow2_adds(input_bits as nat, output_bits as nat);
        lemma_pow2_pos(input_bits as nat);
        lemma_pow2_pos(output_bits as nat);
        lemma_mul_inequality(1, pow2(input_bits as nat) as int, pow2(output_bits as nat) as int);
        lemma_bits_fit_usize((input_bits + output_bits) as nat);
    }
    let y_count = num_qubits_to_size(output_bits);
    let size = num_qubits_to_size(input_bits + output_bits);
    let mut perm: Vec<usize> = Vec::new();
    let mut i: usize = 0;
    while i < size
        invariant
            i <= size,
            size == pow2((input_bits + output_bits) as nat),
            size == pow2(input_bits as nat) * pow2(output_bits as nat),
            y_count == pow2(output_bits as nat),
            y_count > 0,
            size <= usize::MAX,
            is_function_table(input_bits as nat, output_bits as nat, table@),
            perm.len() == i,
            forall|j: int| 0 <= j < i ==> perm[j] == oracle_target(output_bits as nat, table@, j as nat),
        decreases size - i,
    {
        proof {
            lemma_split_index(i as nat, pow2(input_bits as nat), y_count as nat);
        }
        let x = i / y_count;
        let y = i % y_count;
        proof {
            lemma_xor_below(y, table[x as int], output_bits);
            lemma_mul_inequality((x + 1) as int, pow2(input_bits as nat) as int, y_count as int);
            lemma_mul_is_distributive_add_other_way(y_count as int, x as int, 1);
        }
        let target = x * y_count + (y ^ table[x]);
        perm.push(target);
        i = i + 1;
    }
    perm
}

/// The oracle is its own inverse: sending a basis index through it twice gives
/// the index back, so the oracle's matrix squared is the identity.
pub proof fn lemma_oracle_self_inverse(input_bits: nat, output_bits: nat, table: Seq<usize>, index: nat)
    requires
        pow2(output_bits) <= usize::MAX,
        is_function_table(input_bits, output_bits, table),
        index < pow2(input_bits + output_bits),
    ensures
        oracle_target(output_bits, table, index) < pow2(input_bits + output_bits),
        oracle_target(output_bits, table, oracle_target(output_bits, table, index)) == index,
{
    let y_count = pow2(output_bits);
    lemma_bits_fit_usize(output_bits);
    lemma_pow2_pos(output_bits);
    lemma_pow2_adds(input_bits, output_bits);
    lemma_split_index(index, pow2(input_bits), y_count);
    let x = index / y_count;
    let y = (index % y_count) as usize;
    let f = table[x as int];
    lemma_xor_below(y, f, output_bits as usize);
    let z = y ^ f;
    let t = oracle_target(output_bits, table, index);
    assert(t == x * y_count + z);
    lemma_mul_inequality((x + 1) as int, pow2(input_bits) as int, y_count as int);
    lemma_mul_is_distributive_add_other_way(y_count as int, x as int, 1);
    lemma_fundamental_div_mod_converse(t as int, y_count as int, x as int, z as int);
}

} // verus!
