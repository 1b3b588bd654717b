//! How elements of a fixed width lie in a byte buffer.

use vstd::prelude::*;

verus! {

/// `n` zero bytes.
pub open spec fn zeros(n: nat) -> Seq<u8> {
    Seq::new(n, |i: int| 0u8)
}

/// `value` written `n` times in a row.
pub open spec fn repeated(value: Seq<u8>, n: nat) -> Seq<u8>
    decreases n,
{
    if n == 0 {
        Seq::empty()
    } else {
        repeated(value, (n - 1) as nat) + value
    }
}

/// The `i`-th element of `bytes`, each element `size` bytes wide.
pub open spec fn element(bytes: Seq<u8>, size: nat, i: int) -> Seq<u8> {
    bytes.subrange(i * size, (i + 1) * size)
}

/// How many whole elements of `size` bytes `bytes` holds.
pub open spec fn whole_elements(bytes: Seq<u8>, size: nat) -> nat {
    if size == 0 {
        0
    } else {
        bytes.len() / size
    }
}

/// How many of `bits` are set.
pub open spec fn count_true(bits: Seq<bool>) -> nat
    decreases bits.len(),
{
    if bits.len() == 0 {
        0
    } else {
        count_true(bits.drop_last()) + if bits.last() {
            1nat
        } else {
            0nat
        }
    }
}

/// `n` copies of `value`.
pub open spec fn constant_bits(n: nat, value: bool) -> Seq<bool> {
    Seq::new(n, |i: int| value)
}

/// A value written `n` times takes `n` times its length.
pub proof fn lemma_repeated_len(value: Seq<u8>, n: nat)
    ensures
        repeated(value, n).len() == n * value.len(),
    decreases n,
{
    let len = value.len();
    if n == 0 {
        assert(0 * len == 0) by (nonlinear_arith);
    } else {
        lemma_repeated_len(value, (n - 1) as nat);
        assert(n * len == ((n - 1) as nat) * len + len) by (nonlinear_arith)
            requires
                n > 0,
        ;
    }
}

/// Zero bytes written `n` times are zero bytes.
pub proof fn lemma_repeated_zeros(size: nat, n: nat)
    ensures
        repeated(zeros(size), n) == zeros(n * size),
    decreases n,
{
    if n == 0 {
        assert(0 * size == 0) by (nonlinear_arith);
        assert(zeros(0) =~= Seq::<u8>::empty());
    } else {
        lemma_repeated_zeros(size, (n - 1) as nat);
        assert(n * size == ((n - 1) as nat) * size + size) by (nonlinear_arith)
            requires
                n > 0,
        ;
        assert(zeros(((n - 1) as nat) * size) + zeros(size) =~= zeros(n * size));
    }
}

/// No more bits are set than there are.
pub proof fn lemma_count_true_bounds(bits: Seq<bool>)
    ensures
        count_true(bits) <= bits.len(),
    decreases bits.len(),
{
    if bits.len() > 0 {
        lemma_count_true_bounds(bits.drop_last());
    }
}

/// The set bits of two sequences add up.
pub proof fn lemma_count_true_add(a: Seq<bool>, b: Seq<bool>)
    ensures
        count_true(a + b) == count_true(a) + count_true(b),
    decreases b.len(),
{
    if b.len() == 0 {
        assert(a + b =~= a);
    } else {
        lemma_count_true_add(a, b.drop_last());
        assert((a + b).drop_last() =~= a + b.drop_last());
    }
}

/// Of `n` equal bits all are set, or none.
pub proof fn lemma_count_true_constant(n: nat, value: bool)
    ensures
        count_true(constant_bits(n, value)) == if value {
            n
        } else {
            0
        },
    decreases n,
{
    if n > 0 {
        lemma_count_true_constant((n - 1) as nat, value);
        assert(constant_bits(n, value).drop_last() =~= constant_bits((n - 1) as nat, value));
    }
}

} // verus!
