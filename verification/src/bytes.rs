//! Big-endian byte encodings of unsigned numbers.
use vstd::arithmetic::div_mod::{lemma_div_denominator, lemma_div_pos_is_pos, lemma_mod_breakdown, lemma_small_mod};
use vstd::prelude::*;

verus! {

/// The number that `bytes` denote read as a big-endian unsigned integer.
pub open spec fn be_value(bytes: Seq<u8>) -> nat
    decreases bytes.len(),
{
    if bytes.len() == 0 {
        0
    } else {
        be_value(bytes.drop_last()) * 256 + bytes.last() as nat
    }
}

/// 256 to the power `k`.
pub open spec fn pow256(k: nat) -> nat
    decreases k,
{
    if k == 0 {
        1
    } else {
        256 * pow256((k - 1) as nat)
    }
}

/// The `k` lowest bytes of `x`, most significant first.
pub open spec fn be_bytes(x: nat, k: nat) -> Seq<u8>
    decreases k,
{
    if k == 0 {
        Seq::empty()
    } else {
        be_bytes(x / 256, (k - 1) as nat).push((x % 256) as u8)
    }
}

pub proof fn lemma_pow256_positive(k: nat)
    ensures
        pow256(k) > 0,
    decreases k,
{
    if k > 0 {
        lemma_pow256_positive((k - 1) as nat);
    }
}

pub proof fn lemma_pow256_16()
    ensures
        pow256(16) == 0x1_0000_0000_0000_0000_0000_0000_0000_0000,
{
    reveal_with_fuel(pow256, 17);
}

pub proof fn lemma_be_bytes_len(x: nat, k: nat)
    ensures
        #[trigger] be_bytes(x, k).len() == k,
    decreases k,
{
    if k > 0 {
        lemma_be_bytes_len(x / 256, (k - 1) as nat);
    }
}

/// Reading back the `k` lowest bytes of `x` gives `x` modulo `256^k`.
pub proof fn lemma_be_value_of_bytes(x: nat, k: nat)
    ensures
        be_value(be_bytes(x, k)) == x % pow256(k),
    decreases k,
{
    lemma_pow256_positive(k);
    if k == 0 {
        assert(be_bytes(x, k) =~= Seq::<u8>::empty());
    } else {
        let prev = be_bytes(x / 256, (k - 1) as nat);
        lemma_be_value_of_bytes(x / 256, (k - 1) as nat);
        lemma_pow256_positive((k - 1) as nat);
        assert(be_bytes(x, k).drop_last() =~= prev);
        lemma_div_pos_is_pos(x as int, 256);
        lemma_mod_breakdown(x as int, 256, pow256((k - 1) as nat) as int);
    }
}

/// A number below `256^k` is given back by its `k` bytes.
pub proof fn lemma_be_round_trip(x: nat, k: nat)
    requires
        x < pow256(k),
    ensures
        be_value(be_bytes(x, k)) == x,
{
    lemma_be_value_of_bytes(x, k);
    lemma_small_mod(x, pow256(k));
}

/// Sixteen bytes hold any `u128`.
pub proof fn lemma_be_round_trip_u128(x: u128)
    ensures
        be_value(be_bytes(x as nat, 16)) == x,
        be_bytes(x as nat, 16).len() == 16,
{
    lemma_pow256_16();
    lemma_be_round_trip(x as nat, 16);
    lemma_be_bytes_len(x as nat, 16);
}

/// Bytes of length `k` denote a number below `256^k`.
pub proof fn lemma_be_value_bound(b: Seq<u8>)
    ensures
        be_value(b) < pow256(b.len()),
    decreases b.len(),
{
    if b.len() > 0 {
        lemma_be_value_bound(b.drop_last());
        let p = pow256((b.len() - 1) as nat);
        let v = be_value(b.drop_last());
        assert(v * 256 + b.last() < 256 * p) by (nonlinear_arith)
            requires
                v < p,
                b.last() < 256,
        ;
    }
}

/// The bytes of `x` split where `b` of them are left: the `a` before are
/// those of `x / 256^b`.
pub proof fn lemma_be_bytes_split(x: nat, a: nat, b: nat)
    ensures
        be_bytes(x, a + b) == be_bytes(x / pow256(b), a) + be_bytes(x, b),
    decreases b,
{
    lemma_pow256_positive(b);
    if b == 0 {
        assert(x / 1 == x);
        assert(be_bytes(x, a) + Seq::<u8>::empty() =~= be_bytes(x, a));
    } else {
        lemma_be_bytes_split(x / 256, a, (b - 1) as nat);
        lemma_pow256_positive((b - 1) as nat);
        lemma_div_denominator(x as int, 256, pow256((b - 1) as nat) as int);
        assert(be_bytes(x, (a + b) as nat) == be_bytes(x / 256, (a + b - 1) as nat).push((x % 256) as u8));
        assert(be_bytes(x, b) == be_bytes(x / 256, (b - 1) as nat).push((x % 256) as u8));
        assert(be_bytes(x / pow256(b), a) + be_bytes(x, b) =~= (be_bytes((x / 256) / pow256((b - 1) as nat), a)
            + be_bytes(x / 256, (b - 1) as nat)).push((x % 256) as u8));
    }
}

/// Powers of 256 grow with the exponent.
proof fn lemma_pow256_mono(a: nat, b: nat)
    requires
        a <= b,
    ensures
        pow256(a) <= pow256(b),
    decreases b,
{
    if a < b {
        lemma_pow256_mono(a, (b - 1) as nat);
        lemma_pow256_positive((b - 1) as nat);
    }
}

/// The memory representation of `n` in big-endian byte order, as
/// `u128::to_be_bytes` gives it.
pub fn u128_to_be_bytes(n: u128) -> (b: [u8; 16])
    ensures
        b@ == be_bytes(n as nat, 16),
{
    let mut arr = [0u8; 16];
    let mut x: u128 = n;
    let mut j: usize = 0;
    proof {
        assert(n as nat / 1 == n as nat);
        assert(arr@.subrange(16, 16) =~= be_bytes(n as nat, 0));
    }
    while j < 16
        invariant
            j <= 16,
            arr@.len() == 16,
            x as nat == n as nat / pow256(j as nat),
            arr@.subrange(16 - j, 16) == be_bytes(n as nat, j as nat),
        decreases 16 - j,
    {
        let ghost before = arr@;
        arr[15 - j] = (x % 256) as u8;
        proof {
            lemma_be_bytes_split(n as nat, 1, j as nat);
            let y = n as nat / pow256(j as nat);
            assert(be_bytes(y, 1) == be_bytes(y / 256, 0).push((y % 256) as u8));
            assert(arr@.subrange(16 - (j + 1), 16) =~= be_bytes(y, 1) + before.subrange(16 - j, 16));
            lemma_pow256_positive(j as nat);
            lemma_div_denominator(n as int, pow256(j as nat) as int, 256);
            assert(pow256((j + 1) as nat) == 256 * pow256(j as nat));
            assert(pow256(j as nat) * 256 == 256 * pow256(j as nat)) by (nonlinear_arith);
        }
        x = x / 256;
        j = j + 1;
    }
    assert(arr@ =~= arr@.subrange(0, 16));
    arr
}

/// The number whose big-endian memory representation is `b`, as
/// `u128::from_be_bytes` gives it.
pub fn u128_from_be_bytes(b: [u8; 16]) -> (n: u128)
    ensures
        n == be_value(b@),
{
    let mut acc: u128 = 0;
    let mut i: usize = 0;
    proof {
        assert(b@.subrange(0, 0) =~= Seq::<u8>::empty());
        lemma_pow256_16();
    }
    while i < 16
        invariant
            i <= 16,
            b@.len() == 16,
            acc as nat == be_value(b@.subrange(0, i as int)),
            pow256(16) == 0x1_0000_0000_0000_0000_0000_0000_0000_0000,
        decreases 16 - i,
    {
        proof {
            let next = b@.subrange(0, i + 1);
            assert(next.drop_last() =~= b@.subrange(0, i as int));
            assert(next.last() == b@[i as int]);
            lemma_be_value_bound(next);
            lemma_pow256_mono((i + 1) as nat, 16);
        }
        acc = acc * 256 + b[i] as u128;
        i = i + 1;
    }
    assert(b@.subrange(0, 16) =~= b@);
    acc
}

} // verus!
