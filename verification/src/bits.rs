//! The arithmetic of bit streams: how numbers, runs of bits and bytes stand for
//! one another. Bits are always counted from the least significant end.

use vstd::arithmetic::div_mod::*;
use vstd::arithmetic::mul::*;
use vstd::arithmetic::power2::*;
use vstd::prelude::*;

verus! {

/// Bit `i` of the number `v`, bit 0 being the lowest.
pub open spec fn bit_at(v: nat, i: nat) -> bool {
    (v / pow2(i)) % 2 == 1
}

/// The lowest `n` bits of `v`, lowest first.
pub open spec fn bits_of(v: nat, n: nat) -> Seq<bool> {
    Seq::new(n, |i: int| bit_at(v, i as nat))
}

/// The weight a bit has at place `i`: `2^i` if it is set, nothing otherwise.
pub open spec fn bit_weight(b: bool, i: nat) -> nat {
    if b {
        pow2(i)
    } else {
        0
    }
}

/// The number that a run of bits stands for, lowest bit first.
pub open spec fn value_of(bits: Seq<bool>) -> nat
    decreases bits.len(),
{
    if bits.len() == 0 {
        0
    } else {
        value_of(bits.drop_last()) + bit_weight(bits.last(), (bits.len() - 1) as nat)
    }
}

/// A run of `n` clear bits.
pub open spec fn zeros(n: nat) -> Seq<bool> {
    Seq::new(n, |i: int| false)
}

/// The bits of a byte string: eight for each byte, lowest first.
pub open spec fn bytes_bits(bytes: Seq<u8>) -> Seq<bool> {
    Seq::new(8 * bytes.len(), |j: int| bit_at(bytes[j / 8] as nat, (j % 8) as nat))
}

/// The whole bytes that a run of bits fills; bits beyond the last whole byte
/// are left out.
pub open spec fn pack(bits: Seq<bool>) -> Seq<u8> {
    Seq::new(bits.len() / 8, |k: int| value_of(bits.subrange(8 * k, 8 * k + 8)) as u8)
}

/// The bytes that hold `bits` once the run has been closed: the bits are
/// followed by clear bits up to the next byte boundary, a whole byte of them
/// where the run already ends on a boundary.
pub open spec fn flushed(bits: Seq<bool>) -> Seq<u8> {
    pack(bits + zeros((8 - bits.len() % 8) as nat))
}

/// `2^(i+1)` is twice `2^i`.
pub proof fn lemma_pow2_step(i: nat)
    ensures
        pow2(i + 1) == 2 * pow2(i),
        pow2(i) > 0,
{
    lemma_pow2_unfold(i + 1);
    lemma_pow2_pos(i);
}

/// A number below `2^(n+1)` splits into its lowest `n` bits and bit `n`.
pub proof fn lemma_mod_pow2_step(v: nat, n: nat)
    ensures
        v % pow2(n + 1) == v % pow2(n) + bit_weight(bit_at(v, n), n),
{
    lemma_pow2_step(n);
    let p = pow2(n) as int;
    lemma_mod_breakdown(v as int, p, 2);
    assert(p * 2 == 2 * p);
    let top = (v as int / p) % 2;
    assert(top == 0 || top == 1);
    if top == 1 {
        assert(p * top == p);
    } else {
        assert(p * top == 0);
    }
}

/// Reading the lowest `n` bits of `v` as a number gives `v` modulo `2^n`.
pub proof fn lemma_value_of_bits_of(v: nat, n: nat)
    ensures
        value_of(bits_of(v, n)) == v % pow2(n),
    decreases n,
{
    if n == 0 {
        lemma2_to64();
        assert(pow2(0) == 1);
    } else {
        let m = (n - 1) as nat;
        assert(bits_of(v, n).drop_last() =~= bits_of(v, m));
        lemma_value_of_bits_of(v, m);
        lemma_mod_pow2_step(v, m);
    }
}

/// A run of `n` bits stands for a number below `2^n`.
pub proof fn lemma_value_of_bound(bits: Seq<bool>)
    ensures
        value_of(bits) < pow2(bits.len()),
    decreases bits.len(),
{
    if bits.len() == 0 {
        lemma2_to64();
    } else {
        lemma_value_of_bound(bits.drop_last());
        lemma_pow2_step((bits.len() - 1) as nat);
    }
}

/// Adding a multiple of `2^(i+1)` to a number leaves its bit `i` as it was.
pub proof fn lemma_bit_at_add_high(a: nat, k: nat, i: nat)
    ensures
        bit_at(a + k * pow2(i + 1), i) == bit_at(a, i),
{
    lemma_pow2_step(i);
    let p = pow2(i) as int;
    let ai = a as int;
    let ki = k as int;
    let q = ai / p;
    let r = ai % p;
    lemma_fundamental_div_mod(ai, p);
    assert(ai + ki * (2 * p) == p * (2 * ki + q) + r) by (nonlinear_arith)
        requires
            ai == p * q + r,
    ;
    lemma_div_multiples_vanish_fancy(2 * ki + q, r, p);
    assert((ai + ki * (2 * p)) / p == 2 * ki + q);
    lemma_mod_multiples_vanish(ki, q, 2);
    assert((2 * ki + q) % 2 == q % 2);
    assert(a + k * pow2(i + 1) == ai + ki * (2 * p));
}

/// Bit `i` of the number a run of bits stands for is the run's `i`-th bit.
pub proof fn lemma_bit_at_value_of(bits: Seq<bool>, i: nat)
    requires
        i < bits.len(),
    ensures
        bit_at(value_of(bits), i) == bits[i as int],
    decreases bits.len(),
{
    let n = (bits.len() - 1) as nat;
    let low = value_of(bits.drop_last());
    lemma_value_of_bound(bits.drop_last());
    lemma_pow2_pos(n);
    if i == n {
        if bits.last() {
            lemma_div_multiples_vanish_fancy(1, low as int, pow2(n) as int);
            assert(pow2(n) * 1 + low == low + pow2(n));
        } else {
            lemma_basic_div(low as int, pow2(n) as int);
        }
    } else {
        lemma_bit_at_value_of(bits.drop_last(), i);
        if bits.last() {
            let d = (n - i - 1) as nat;
            lemma_pow2_adds(d, i + 1);
            assert(d + (i + 1) == n);
            lemma_bit_at_add_high(low, pow2(d), i);
        }
    }
}

/// Packing a run of bits into bytes keeps every bit of its whole bytes.
pub proof fn lemma_bytes_bits_pack(bits: Seq<bool>)
    ensures
        bytes_bits(pack(bits)) == bits.subrange(0, 8 * (bits.len() as int / 8)),
{
    let bytes = pack(bits);
    let whole = bits.subrange(0, 8 * (bits.len() as int / 8));
    assert forall|j: int| 0 <= j < whole.len() implies #[trigger] bytes_bits(bytes)[j] == whole[j] by {
        let k = j / 8;
        let group = bits.subrange(8 * k, 8 * k + 8);
        lemma_value_of_bound(group);
        lemma2_to64();
        assert(bytes[k] as nat == value_of(group));
        lemma_bit_at_value_of(group, (j % 8) as nat);
    }
    assert(bytes_bits(bytes) =~= whole);
}

/// Closing a run of bits keeps them all: the bytes that come out begin with
/// the run, and hold nothing but clear bits after it.
pub proof fn lemma_flushed_bits(bits: Seq<bool>)
    ensures
        flushed(bits).len() == bits.len() / 8 + 1,
        bytes_bits(flushed(bits)) == bits + zeros((8 - bits.len() % 8) as nat),
{
    let padded = bits + zeros((8 - bits.len() % 8) as nat);
    assert(padded.len() == 8 * (bits.len() / 8 + 1));
    lemma_bytes_bits_pack(padded);
    assert(padded.subrange(0, 8 * (padded.len() as int / 8)) =~= padded);
}

/// The number that a run of bits stands for grows by the weight of a bit
/// pushed at its end.
pub proof fn lemma_value_of_push(bits: Seq<bool>, b: bool)
    ensures
        value_of(bits.push(b)) == value_of(bits) + bit_weight(b, bits.len()),
{
    assert(bits.push(b).drop_last() =~= bits);
}

/// The lowest `n + 1` bits of a number are its lowest `n` bits and bit `n`.
pub proof fn lemma_bits_of_push(v: nat, n: nat)
    ensures
        bits_of(v, n + 1) == bits_of(v, n).push(bit_at(v, n)),
{
    assert(bits_of(v, n + 1) =~= bits_of(v, n).push(bit_at(v, n)));
}

/// One bit alone stands for 1 if it is set and for 0 if it is clear.
pub proof fn lemma_value_of_single(bits: Seq<bool>)
    requires
        bits.len() == 1,
    ensures
        value_of(bits) == if bits[0] {
            1nat
        } else {
            0nat
        },
{
    lemma2_to64();
    assert(bits.drop_last().len() == 0);
    assert(value_of(bits.drop_last()) == 0);
}

/// A number below `2^n` has no set bit from place `n` on.
pub proof fn lemma_bits_of_small(v: nat, n: nat, m: nat)
    requires
        v < pow2(n),
        n <= m,
    ensures
        bits_of(v, m) == bits_of(v, n) + zeros((m - n) as nat),
{
    assert forall|j: nat| n <= j < m implies !#[trigger] bit_at(v, j) by {
        if n < j {
            lemma_pow2_strictly_increases(n, j);
        }
        lemma_basic_div(v as int, pow2(j) as int);
    }
    assert(bits_of(v, m) =~= bits_of(v, n) + zeros((m - n) as nat));
}

/// Byte `k` of a number, counted from the lowest, holds its bits `8k` to
/// `8k + 7`.
pub proof fn lemma_bits_of_byte(data: nat, k: nat)
    ensures
        bits_of((data / pow2(8 * k)) % 256, 8) == bits_of(data, 8 * k + 8).subrange(
            8 * k as int,
            8 * k as int + 8,
        ),
{
    let y = data / pow2(8 * k);
    lemma_pow2_pos(8 * k);
    assert forall|j: nat| j < 8 implies #[trigger] bit_at(y % 256, j) == bit_at(data, 8 * k + j) by {
        let d = (7 - j) as nat;
        lemma_pow2_adds(d, j + 1);
        lemma2_to64();
        assert(pow2(d) * pow2(j + 1) == 256);
        lemma_fundamental_div_mod(y as int, 256);
        assert((y / 256) * pow2(d) * pow2(j + 1) == 256 * (y / 256)) by (nonlinear_arith)
            requires
                pow2(d) * pow2(j + 1) == 256,
        ;
        lemma_bit_at_add_high(y % 256, (y / 256) * pow2(d), j);
        assert(y % 256 + (y / 256) * pow2(d) * pow2(j + 1) == y);
        lemma_pow2_pos(j);
        lemma_div_denominator(data as int, pow2(8 * k) as int, pow2(j) as int);
        lemma_pow2_adds(8 * k, j);
    }
    assert(bits_of(y % 256, 8) =~= bits_of(data, 8 * k + 8).subrange(8 * k as int, 8 * k as int + 8));
}

/// The bits of a byte string with one more byte at its end.
pub proof fn lemma_bytes_bits_push(bytes: Seq<u8>, b: u8)
    ensures
        bytes_bits(bytes.push(b)) == bytes_bits(bytes) + bits_of(b as nat, 8),
{
    assert(bytes_bits(bytes.push(b)) =~= bytes_bits(bytes) + bits_of(b as nat, 8));
}

/// The number that two runs of bits laid end to end stand for.
pub proof fn lemma_value_of_concat(a: Seq<bool>, b: Seq<bool>)
    ensures
        value_of(a + b) == value_of(a) + pow2(a.len()) * value_of(b),
    decreases b.len(),
{
    if b.len() == 0 {
        assert(a + b =~= a);
        assert(pow2(a.len()) * 0 == 0);
    } else {
        assert((a + b).drop_last() =~= a + b.drop_last());
        lemma_value_of_concat(a, b.drop_last());
        let m = (b.len() - 1) as nat;
        lemma_pow2_adds(a.len(), m);
        assert(a.len() + m == (a + b).len() - 1);
        let lo = value_of(b.drop_last());
        let pa = pow2(a.len());
        let pm = pow2(m);
        if b.last() {
            assert(pa * (lo + pm) == pa * lo + pa * pm) by (nonlinear_arith);
        }
    }
}

/// A number below `2^off` with bit `off` added is the number whose lowest
/// `off + 1` bits are the old bits and the new one.
pub proof fn lemma_value_bits_step(v: nat, off: nat, b: bool)
    requires
        v < pow2(off),
    ensures
        v + bit_weight(b, off) < pow2(off + 1),
        bits_of(v + bit_weight(b, off), off + 1) == bits_of(v, off).push(b),
{
    lemma_pow2_step(off);
    let w = v + bit_weight(b, off);
    let bits = bits_of(v, off).push(b);
    lemma_value_of_push(bits_of(v, off), b);
    lemma_value_of_bits_of(v, off);
    lemma_small_mod(v, pow2(off));
    assert(value_of(bits) == w);
    assert forall|j: int| 0 <= j < off + 1 implies bit_at(w, j as nat) == bits[j] by {
        lemma_bit_at_value_of(bits, j as nat);
    }
    assert(bits_of(w, off + 1) =~= bits);
}

} // verus!
