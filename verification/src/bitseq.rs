//! Mathematical model of a bit stream: numbers as most-significant-bit-first
//! bit sequences, bytes as bits, and the lemmas that the packing code rests on.

use vstd::prelude::*;
use vstd::arithmetic::power2::*;
use vstd::arithmetic::div_mod::*;
use vstd::arithmetic::mul::*;

verus! {

/// The `n` low bits of `x`, most significant first.
pub open spec fn bits_of(x: nat, n: nat) -> Seq<bool>
    decreases n,
{
    if n == 0 {
        Seq::<bool>::empty()
    } else {
        bits_of(x / 2, (n - 1) as nat).push(x % 2 == 1)
    }
}

/// The number that a bit sequence writes, most significant bit first.
pub open spec fn nat_of(s: Seq<bool>) -> nat
    decreases s.len(),
{
    if s.len() == 0 {
        0
    } else {
        nat_of(s.drop_last()) * 2 + (if s.last() {
            1nat
        } else {
            0nat
        })
    }
}

/// `n` zero bits.
pub open spec fn zeros(n: nat) -> Seq<bool> {
    Seq::new(n, |i: int| false)
}

/// The bits of a byte sequence, each byte most significant bit first.
pub open spec fn bytes_bits(s: Seq<u8>) -> Seq<bool>
    decreases s.len(),
{
    if s.len() == 0 {
        Seq::<bool>::empty()
    } else {
        bytes_bits(s.drop_last()) + bits_of(s.last() as nat, 8)
    }
}

/// The bit stream of a sequence of `b`-bit symbols, written one after the other.
pub open spec fn stream_of(vals: Seq<u32>, b: nat) -> Seq<bool>
    decreases vals.len(),
{
    if vals.len() == 0 {
        Seq::<bool>::empty()
    } else {
        stream_of(vals.drop_last(), b) + bits_of(vals.last() as nat, b)
    }
}

/// The first `n` symbols of `b` bits that a bit stream holds.
pub open spec fn decode(bits: Seq<bool>, b: nat, n: nat) -> Seq<u32>
    decreases n,
{
    if n == 0 {
        Seq::<u32>::empty()
    } else {
        seq![nat_of(bits.take(b as int)) as u32] + decode(bits.skip(b as int), b, (n - 1) as nat)
    }
}

/// Zero bits that complete a stream of `n` bits to a whole byte.
pub open spec fn pad_bits(n: nat) -> nat {
    ((8 - n % 8) % 8) as nat
}

/// Bytes of a bit stream whose last byte is completed with zero bits.
pub open spec fn to_bytes(bits: Seq<bool>) -> Seq<u8>
    decreases bits.len(),
{
    if bits.len() == 0 {
        Seq::<u8>::empty()
    } else if bits.len() < 8 {
        seq![nat_of(bits + zeros((8 - bits.len()) as nat)) as u8]
    } else {
        seq![nat_of(bits.take(8)) as u8] + to_bytes(bits.skip(8))
    }
}

pub proof fn lemma_pow2_basics(n: nat)
    ensures
        pow2(n) > 0,
        pow2(n + 1) == 2 * pow2(n),
        pow2(0) == 1,
        pow2(8) == 256,
{
    lemma_pow2_pos(n);
    lemma_pow2_unfold(n + 1);
    lemma2_to64();
}

pub proof fn lemma_bits_of_len(x: nat, n: nat)
    ensures
        bits_of(x, n).len() == n,
    decreases n,
{
    if n > 0 {
        lemma_bits_of_len(x / 2, (n - 1) as nat);
    }
}

/// Reading back the `n` low bits of `x` gives `x` modulo `2^n`.
pub proof fn lemma_nat_of_bits_of(x: nat, n: nat)
    ensures
        nat_of(bits_of(x, n)) == x % pow2(n),
    decreases n,
{
    lemma_pow2_basics(n);
    if n == 0 {
    } else {
        let m = (n - 1) as nat;
        lemma_nat_of_bits_of(x / 2, m);
        lemma_bits_of_len(x / 2, m);
        let s = bits_of(x, n);
        assert(s.drop_last() =~= bits_of(x / 2, m));
        lemma_pow2_basics(m);
        lemma_mod_breakdown(x as int, 2, pow2(m) as int);
    }
}

/// A bit sequence is the bits of the number it writes, and that number is below `2^len`.
pub proof fn lemma_bits_of_nat_of(s: Seq<bool>)
    ensures
        bits_of(nat_of(s), s.len()) == s,
        nat_of(s) < pow2(s.len()),
    decreases s.len(),
{
    lemma_pow2_basics(s.len());
    if s.len() == 0 {
        assert(bits_of(nat_of(s), 0) =~= s);
    } else {
        let t = s.drop_last();
        let l: nat = if s.last() {
            1
        } else {
            0
        };
        let v = nat_of(s);
        lemma_bits_of_nat_of(t);
        lemma_pow2_basics(t.len());
        assert(v == nat_of(t) * 2 + l);
        lemma_fundamental_div_mod_converse(v as int, 2, nat_of(t) as int, l as int);
        assert(bits_of(v, s.len()) == bits_of(v / 2, t.len()).push(v % 2 == 1));
        assert(s =~= t.push(s.last()));
    }
}

/// Only the `n` low bits of `x` count.
pub proof fn lemma_bits_of_mod(x: nat, n: nat)
    ensures
        bits_of(x, n) == bits_of(x % pow2(n), n),
{
    lemma_bits_of_nat_of(bits_of(x, n));
    lemma_bits_of_len(x, n);
    lemma_nat_of_bits_of(x, n);
}

/// Two numbers with equal `n` low bits.
pub proof fn lemma_bits_of_eq(x: nat, y: nat, n: nat)
    requires
        x % pow2(n) == y % pow2(n),
    ensures
        bits_of(x, n) == bits_of(y, n),
{
    lemma_bits_of_mod(x, n);
    lemma_bits_of_mod(y, n);
}

/// The `m + n` low bits of `x` are its high part's `m` bits, then its `n` low bits.
pub proof fn lemma_bits_of_split(x: nat, m: nat, n: nat)
    ensures
        bits_of(x, m + n) == bits_of(x / pow2(n), m) + bits_of(x % pow2(n), n),
    decreases n,
{
    lemma_pow2_basics(n);
    if n == 0 {
        assert(bits_of(x % pow2(n), n) =~= Seq::<bool>::empty());
        assert(bits_of(x, m + n) =~= bits_of(x / pow2(n), m) + bits_of(x % pow2(n), n));
    } else {
        let k = (n - 1) as nat;
        lemma_pow2_basics(k);
        lemma_bits_of_split(x / 2, m, k);
        lemma_div_denominator(x as int, 2, pow2(k) as int);
        lemma_mod_breakdown(x as int, 2, pow2(k) as int);
        let r = x % pow2(n);
        let q = (x / 2) % pow2(k);
        assert(r == 2 * q + x % 2);
        lemma_fundamental_div_mod_converse(r as int, 2, q as int, (x % 2) as int);
        assert(bits_of(r, n) == bits_of(r / 2, k).push(r % 2 == 1));
        assert(bits_of(x, m + n) == bits_of(x / 2, m + k).push(x % 2 == 1));
        assert(bits_of(x, m + n) =~= bits_of(x / pow2(n), m) + bits_of(x % pow2(n), n));
    }
}

/// A number written with a high part and `n` low bits.
pub proof fn lemma_bits_of_concat(hi: nat, lo: nat, m: nat, n: nat)
    requires
        lo < pow2(n),
    ensures
        bits_of(hi * pow2(n) + lo, m + n) == bits_of(hi, m) + bits_of(lo, n),
        hi < pow2(m) ==> hi * pow2(n) + lo < pow2(m + n),
{
    lemma_pow2_basics(n);
    let x = hi * pow2(n) + lo;
    lemma_bits_of_split(x, m, n);
    lemma_fundamental_div_mod_converse(x as int, pow2(n) as int, hi as int, lo as int);
    if hi < pow2(m) {
        lemma_pow2_adds(m, n);
        assert(x < pow2(m + n)) by (nonlinear_arith)
            requires
                x == hi * pow2(n) + lo,
                lo < pow2(n),
                hi < pow2(m),
                pow2(m + n) == pow2(m) * pow2(n),
        ;
    }
}

/// The number of a concatenation.
pub proof fn lemma_nat_of_append(a: Seq<bool>, b: Seq<bool>)
    ensures
        nat_of(a + b) == nat_of(a) * pow2(b.len()) + nat_of(b),
    decreases b.len(),
{
    lemma_pow2_basics(b.len());
    if b.len() == 0 {
        assert(a + b =~= a);
    } else {
        let b1 = b.drop_last();
        lemma_nat_of_append(a, b1);
        assert((a + b).drop_last() =~= a + b1);
        lemma_pow2_basics(b1.len());
        let l: nat = if b.last() {
            1
        } else {
            0
        };
        let na = nat_of(a);
        let p = pow2(b1.len());
        assert((na * p + nat_of(b1)) * 2 + l == na * (2 * p) + (nat_of(b1) * 2 + l))
            by (nonlinear_arith);
    }
}

/// `n` zero bits write zero, and only zero bits do.
pub proof fn lemma_nat_of_zero(s: Seq<bool>)
    ensures
        nat_of(s) == 0 <==> s == zeros(s.len()),
    decreases s.len(),
{
    if s.len() > 0 {
        lemma_nat_of_zero(s.drop_last());
        if nat_of(s) == 0 {
            assert(nat_of(s.drop_last()) == 0);
            assert(!s.last());
            assert(s.drop_last() == zeros((s.len() - 1) as nat));
            assert forall|i: int| 0 <= i < s.len() implies s[i] == false by {
                if i < s.len() - 1 {
                    assert(s[i] == s.drop_last()[i]);
                }
            }
            assert(s =~= zeros(s.len()));
        }
        if s == zeros(s.len()) {
            assert(s.drop_last() =~= zeros((s.len() - 1) as nat));
        }
    } else {
        assert(s =~= zeros(0));
    }
}

/// The low bits of zero are zero bits.
pub proof fn lemma_bits_of_zero(n: nat)
    ensures
        bits_of(0, n) == zeros(n),
{
    lemma_bits_of_len(0, n);
    lemma_nat_of_bits_of(0, n);
    lemma_pow2_basics(n);
    lemma_small_mod(0, pow2(n));
    lemma_nat_of_zero(bits_of(0, n));
}

/// Equal bits of the same length write equal numbers below `2^n`; the bits are a bijection.
pub proof fn lemma_bits_of_injective(x: nat, y: nat, n: nat)
    requires
        x < pow2(n),
        y < pow2(n),
        bits_of(x, n) == bits_of(y, n),
    ensures
        x == y,
{
    lemma_nat_of_bits_of(x, n);
    lemma_nat_of_bits_of(y, n);
    lemma_small_mod(x, pow2(n));
    lemma_small_mod(y, pow2(n));
}

pub proof fn lemma_bytes_bits_len(s: Seq<u8>)
    ensures
        bytes_bits(s).len() == 8 * s.len(),
    decreases s.len(),
{
    if s.len() > 0 {
        lemma_bytes_bits_len(s.drop_last());
        lemma_bits_of_len(s.last() as nat, 8);
    }
}

pub proof fn lemma_bytes_bits_append(a: Seq<u8>, b: Seq<u8>)
    ensures
        bytes_bits(a + b) == bytes_bits(a) + bytes_bits(b),
    decreases b.len(),
{
    if b.len() == 0 {
        assert(a + b =~= a);
        assert(bytes_bits(a) + bytes_bits(b) =~= bytes_bits(a));
    } else {
        lemma_bytes_bits_append(a, b.drop_last());
        assert((a + b).drop_last() =~= a + b.drop_last());
        assert(bytes_bits(a + b) =~= bytes_bits(a) + bytes_bits(b));
    }
}

pub proof fn lemma_bytes_bits_push(a: Seq<u8>, x: u8)
    ensures
        bytes_bits(a.push(x)) == bytes_bits(a) + bits_of(x as nat, 8),
{
    assert(a.push(x).drop_last() =~= a);
}

pub proof fn lemma_bytes_bits_single(x: u8)
    ensures
        bytes_bits(seq![x]) == bits_of(x as nat, 8),
{
    lemma_bytes_bits_push(Seq::<u8>::empty(), x);
    assert(Seq::<u8>::empty().push(x) =~= seq![x]);
    assert(bytes_bits(Seq::<u8>::empty()) + bits_of(x as nat, 8) =~= bits_of(x as nat, 8));
}

/// Equal bits come from equal bytes.
pub proof fn lemma_bytes_bits_injective(a: Seq<u8>, b: Seq<u8>)
    requires
        bytes_bits(a) == bytes_bits(b),
    ensures
        a == b,
    decreases a.len(),
{
    lemma_bytes_bits_len(a);
    lemma_bytes_bits_len(b);
    if a.len() > 0 {
        let a1 = a.drop_last();
        let b1 = b.drop_last();
        lemma_bytes_bits_len(a1);
        lemma_bytes_bits_len(b1);
        lemma_bits_of_len(a.last() as nat, 8);
        lemma_bits_of_len(b.last() as nat, 8);
        let n = bytes_bits(a1).len();
        assert(bytes_bits(a1) =~= bytes_bits(a).take(n as int));
        assert(bytes_bits(b1) =~= bytes_bits(b).take(n as int));
        assert(bits_of(a.last() as nat, 8) =~= bytes_bits(a).skip(n as int));
        assert(bits_of(b.last() as nat, 8) =~= bytes_bits(b).skip(n as int));
        lemma_bytes_bits_injective(a1, b1);
        lemma_pow2_basics(8);
        lemma_bits_of_injective(a.last() as nat, b.last() as nat, 8);
        assert(a =~= a1.push(a.last()));
        assert(b =~= b1.push(b.last()));
    } else {
        assert(a =~= b);
    }
}

/// The eight bits of byte `k` sit at bit `8k`.
pub proof fn lemma_bytes_bits_at(s: Seq<u8>, k: int)
    requires
        0 <= k < s.len(),
    ensures
        bytes_bits(s).subrange(8 * k, 8 * k + 8) == bits_of(s[k] as nat, 8),
        bytes_bits(s).len() == 8 * s.len(),
{
    lemma_bytes_bits_len(s);
    let a = s.take(k);
    let b = s.skip(k);
    assert(s =~= a + b);
    lemma_bytes_bits_append(a, b);
    let c = seq![s[k]];
    let d = s.skip(k + 1);
    assert(b =~= c + d);
    lemma_bytes_bits_append(c, d);
    lemma_bytes_bits_single(s[k]);
    lemma_bytes_bits_len(a);
    lemma_bits_of_len(s[k] as nat, 8);
    assert(a.len() == k);
    assert(bytes_bits(s).subrange(8 * k, 8 * k + 8) =~= bits_of(s[k] as nat, 8));
}

/// The bits after whole bytes are the bits of the remaining bytes.
pub proof fn lemma_bytes_bits_skip(s: Seq<u8>, k: int)
    requires
        0 <= k <= s.len(),
    ensures
        bytes_bits(s).skip(8 * k) == bytes_bits(s.skip(k)),
        bytes_bits(s).take(8 * k) == bytes_bits(s.take(k)),
{
    assert(s =~= s.take(k) + s.skip(k));
    lemma_bytes_bits_append(s.take(k), s.skip(k));
    lemma_bytes_bits_len(s.take(k));
    assert(bytes_bits(s).skip(8 * k) =~= bytes_bits(s.skip(k)));
    assert(bytes_bits(s).take(8 * k) =~= bytes_bits(s.take(k)));
}

pub proof fn lemma_stream_len(vals: Seq<u32>, b: nat)
    ensures
        stream_of(vals, b).len() == vals.len() * b,
    decreases vals.len(),
{
    if vals.len() > 0 {
        lemma_stream_len(vals.drop_last(), b);
        lemma_bits_of_len(vals.last() as nat, b);
        lemma_mul_is_distributive_add_other_way(b as int, (vals.len() - 1) as int, 1);
    }
}

pub proof fn lemma_stream_append(a: Seq<u32>, c: Seq<u32>, b: nat)
    ensures
        stream_of(a + c, b) == stream_of(a, b) + stream_of(c, b),
    decreases c.len(),
{
    if c.len() == 0 {
        assert(a + c =~= a);
        assert(stream_of(a, b) + stream_of(c, b) =~= stream_of(a, b));
    } else {
        lemma_stream_append(a, c.drop_last(), b);
        assert((a + c).drop_last() =~= a + c.drop_last());
        assert(stream_of(a + c, b) =~= stream_of(a, b) + stream_of(c, b));
    }
}

pub proof fn lemma_stream_push(a: Seq<u32>, v: u32, b: nat)
    ensures
        stream_of(a.push(v), b) == stream_of(a, b) + bits_of(v as nat, b),
{
    assert(a.push(v).drop_last() =~= a);
}

pub proof fn lemma_stream_single(v: u32, b: nat)
    ensures
        stream_of(seq![v], b) == bits_of(v as nat, b),
{
    lemma_stream_push(Seq::<u32>::empty(), v, b);
    assert(Seq::<u32>::empty().push(v) =~= seq![v]);
    assert(stream_of(Seq::<u32>::empty(), b) + bits_of(v as nat, b) =~= bits_of(v as nat, b));
}

/// Decoding `n` symbols looks only at the first `n * b` bits.
pub proof fn lemma_decode_prefix(s: Seq<bool>, t: Seq<bool>, b: nat, n: nat)
    requires
        s.len() >= n * b,
        s.take((n * b) as int) == t.take((n * b) as int),
        t.len() >= n * b,
    ensures
        decode(s, b, n) == decode(t, b, n),
    decreases n,
{
    if n > 0 {
        let k = (n - 1) as nat;
        lemma_mul_is_distributive_add_other_way(b as int, k as int, 1);
        assert(s.take(b as int) =~= s.take((n * b) as int).take(b as int));
        assert(t.take(b as int) =~= t.take((n * b) as int).take(b as int));
        assert(s.skip(b as int).take((k * b) as int) =~= s.take((n * b) as int).skip(b as int));
        assert(t.skip(b as int).take((k * b) as int) =~= t.take((n * b) as int).skip(b as int));
        lemma_decode_prefix(s.skip(b as int), t.skip(b as int), b, k);
    }
}

/// Symbols written into a stream decode back, whatever follows them.
pub proof fn lemma_decode_stream(vals: Seq<u32>, rest: Seq<bool>, b: nat)
    requires
        forall|i: int| 0 <= i < vals.len() ==> (vals[i] as nat) < pow2(b),
    ensures
        decode(stream_of(vals, b) + rest, b, vals.len()) == vals,
    decreases vals.len(),
{
    if vals.len() > 0 {
        let v = vals[0];
        let tail = vals.skip(1);
        assert(vals =~= seq![v] + tail);
        lemma_stream_append(seq![v], tail, b);
        lemma_stream_single(v, b);
        lemma_bits_of_len(v as nat, b);
        let s = stream_of(vals, b) + rest;
        assert(s =~= bits_of(v as nat, b) + (stream_of(tail, b) + rest));
        assert(s.take(b as int) =~= bits_of(v as nat, b));
        assert(s.skip(b as int) =~= stream_of(tail, b) + rest);
        lemma_nat_of_bits_of(v as nat, b);
        lemma_small_mod(v as nat, pow2(b));
        lemma_decode_stream(tail, rest, b);
    } else {
        assert(decode(stream_of(vals, b) + rest, b, 0) =~= vals);
    }
}

/// Decoding `m + k` symbols is decoding `m`, then `k` from where they end.
pub proof fn lemma_decode_split(s: Seq<bool>, b: nat, m: nat, k: nat)
    requires
        s.len() >= m * b,
    ensures
        decode(s, b, m + k) == decode(s, b, m) + decode(s.skip((m * b) as int), b, k),
    decreases m,
{
    if m == 0 {
        assert(s.skip(0) =~= s);
        assert(decode(s, b, m + k) =~= decode(s, b, m) + decode(s.skip((m * b) as int), b, k));
    } else {
        let j = (m - 1) as nat;
        lemma_mul_is_distributive_add_other_way(b as int, j as int, 1);
        lemma_decode_split(s.skip(b as int), b, j, k);
        assert(s.skip(b as int).skip((j * b) as int) =~= s.skip((m * b) as int));
        assert((m + k - 1) as nat == j + k);
        assert(decode(s, b, m + k) =~= decode(s, b, m) + decode(s.skip((m * b) as int), b, k));
    }
}

/// Decoded symbols fit in `b` bits.
pub proof fn lemma_decode_fits(s: Seq<bool>, b: nat, n: nat)
    requires
        s.len() >= n * b,
        b <= 32,
    ensures
        decode(s, b, n).len() == n,
        forall|i: int| 0 <= i < n ==> (decode(s, b, n)[i] as nat) < pow2(b),
    decreases n,
{
    if n > 0 {
        let j = (n - 1) as nat;
        lemma_mul_is_distributive_add_other_way(b as int, j as int, 1);
        lemma_decode_fits(s.skip(b as int), b, j);
        lemma_bits_of_nat_of(s.take(b as int));
        lemma_pow2_strictly_increases_or_eq(b, 32);
        lemma2_to64();
        let d = decode(s, b, n);
        assert forall|i: int| 0 <= i < n implies (d[i] as nat) < pow2(b) by {
            if i > 0 {
                assert(d[i] == decode(s.skip(b as int), b, j)[i - 1]);
            }
        }
    }
}

pub proof fn lemma_pow2_strictly_increases_or_eq(a: nat, b: nat)
    requires
        a <= b,
    ensures
        pow2(a) <= pow2(b),
{
    if a < b {
        lemma_pow2_strictly_increases(a, b);
    }
}

/// Decoded symbols written back give the bits they were read from.
pub proof fn lemma_stream_decode(s: Seq<bool>, b: nat, n: nat)
    requires
        s.len() >= n * b,
        b <= 32,
    ensures
        stream_of(decode(s, b, n), b) == s.take((n * b) as int),
    decreases n,
{
    if n == 0 {
        assert(stream_of(decode(s, b, n), b) =~= s.take(0));
    } else {
        let j = (n - 1) as nat;
        lemma_mul_is_distributive_add_other_way(b as int, j as int, 1);
        lemma_stream_decode(s.skip(b as int), b, j);
        let v = nat_of(s.take(b as int));
        lemma_bits_of_nat_of(s.take(b as int));
        lemma_pow2_strictly_increases_or_eq(b, 32);
        lemma2_to64();
        assert((v as u32) as nat == v);
        assert(decode(s, b, n) == seq![v as u32] + decode(s.skip(b as int), b, j));
        lemma_stream_append(seq![v as u32], decode(s.skip(b as int), b, j), b);
        lemma_stream_single(v as u32, b);
        assert(s.take((n * b) as int) =~= s.take(b as int) + s.skip(b as int).take((j * b) as int));
    }
}

proof fn lemma_to_bytes_short(bits: Seq<bool>)
    requires
        0 < bits.len() < 8,
    ensures
        bytes_bits(to_bytes(bits)) == bits + zeros(pad_bits(bits.len())),
        to_bytes(bits).len() == 1,
{
    lemma_pow2_basics(8);
    let full = bits + zeros((8 - bits.len()) as nat);
    lemma_bits_of_nat_of(full);
    assert(full.len() == 8);
    let x = nat_of(full);
    assert((x as u8) as nat == x);
    lemma_bytes_bits_single(x as u8);
    assert(to_bytes(bits) == seq![x as u8]);
    assert(pad_bits(bits.len()) == 8 - bits.len());
}

proof fn lemma_to_bytes_step(bits: Seq<bool>)
    requires
        bits.len() >= 8,
        bytes_bits(to_bytes(bits.skip(8))) == bits.skip(8) + zeros(pad_bits(bits.skip(8).len())),
    ensures
        bytes_bits(to_bytes(bits)) == bits + zeros(pad_bits(bits.len())),
{
    lemma_pow2_basics(8);
    let first = bits.take(8);
    let rest = bits.skip(8);
    lemma_bits_of_nat_of(first);
    let x = nat_of(first);
    assert((x as u8) as nat == x);
    assert(to_bytes(bits) == seq![x as u8] + to_bytes(rest));
    lemma_bytes_bits_append(seq![x as u8], to_bytes(rest));
    lemma_bytes_bits_single(x as u8);
    assert(pad_bits(rest.len()) == pad_bits(bits.len()));
    assert(bits + zeros(pad_bits(bits.len())) =~= first + (rest + zeros(pad_bits(rest.len()))));
}

/// The bytes of a stream hold the stream, then the zero bits that complete the last byte.
pub proof fn lemma_to_bytes(bits: Seq<bool>)
    ensures
        bytes_bits(to_bytes(bits)) == bits + zeros(pad_bits(bits.len())),
        to_bytes(bits).len() == (bits.len() + 7) / 8,
    decreases bits.len(),
{
    if bits.len() == 0 {
        assert(bits + zeros(pad_bits(0)) =~= Seq::<bool>::empty());
    } else if bits.len() < 8 {
        lemma_to_bytes_short(bits);
    } else {
        lemma_to_bytes(bits.skip(8));
        lemma_to_bytes_step(bits);
    }
}

/// Bytes whose bits are a stream completed with zeros are that stream's bytes.
pub proof fn lemma_to_bytes_unique(bits: Seq<bool>, bytes: Seq<u8>)
    requires
        bytes_bits(bytes) == bits + zeros(pad_bits(bits.len())),
    ensures
        bytes == to_bytes(bits),
{
    lemma_to_bytes(bits);
    lemma_bytes_bits_injective(bytes, to_bytes(bits));
}

/// The bits of `x` from position `o` to `o + t` write `(x / 2^(n - o - t)) % 2^t`.
pub proof fn lemma_bits_of_window(x: nat, n: nat, o: nat, t: nat)
    requires
        o + t <= n,
    ensures
        nat_of(bits_of(x, n).subrange(o as int, (o + t) as int)) == (x / pow2(
            (n - o - t) as nat,
        )) % pow2(t),
        bits_of(x, n).subrange(o as int, (o + t) as int) == bits_of(
            (x / pow2((n - o - t) as nat)) % pow2(t),
            t,
        ),
{
    let low = (n - o - t) as nat;
    let y = x / pow2(low);
    lemma_bits_of_split(x, o + t, low);
    assert((o + t) + low == n);
    lemma_bits_of_split(y, o, t);
    lemma_bits_of_len(y / pow2(t), o);
    lemma_bits_of_len(y % pow2(t), t);
    lemma_bits_of_len(x % pow2(low), low);
    assert(bits_of(x, n).subrange(o as int, (o + t) as int) =~= bits_of(y % pow2(t), t));
    lemma_nat_of_bits_of(y % pow2(t), t);
    lemma_pow2_basics(t);
    lemma_mod_twice(y as int, pow2(t) as int);
}

/// The remaining bits of a stream are all zero exactly when their number is zero.
pub proof fn lemma_zero_window(x: nat, n: nat, o: nat)
    requires
        o <= n,
    ensures
        (x % pow2((n - o) as nat) == 0) <==> bits_of(x, n).skip(o as int) == zeros((n - o) as nat),
{
    let k = (n - o) as nat;
    lemma_bits_of_split(x, o, k);
    lemma_bits_of_len(x / pow2(k), o);
    lemma_bits_of_len(x % pow2(k), k);
    assert(bits_of(x, n).skip(o as int) =~= bits_of(x % pow2(k), k));
    lemma_nat_of_bits_of(x % pow2(k), k);
    lemma_pow2_basics(k);
    lemma_mod_twice(x as int, pow2(k) as int);
    lemma_nat_of_zero(bits_of(x % pow2(k), k));
}

} // verus!
