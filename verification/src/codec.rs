//! Byte-level primitives of the record format: big-endian fixed integers,
//! the variable-length integer encoding, NUL-terminated byte strings, hex
//! conversion, and the safe slicing helpers by which every decoder reads.
//!
//! Decoders never fail on truncated input: out-of-range reads degrade to
//! zeros or empty values, and every decode reports how many bytes it
//! consumed.

use vstd::prelude::*;

verus! {

/// The value of a byte sequence read as a big-endian integer.
pub open spec fn be_val(s: Seq<u8>) -> nat
    decreases s.len(),
{
    if s.len() == 0 {
        0
    } else {
        (256 * be_val(s.drop_last()) + s.last()) as nat
    }
}

/// 256 to the power `n`.
pub open spec fn pow256(n: nat) -> nat
    decreases n,
{
    if n == 0 {
        1
    } else {
        256 * pow256((n - 1) as nat)
    }
}

pub proof fn lemma_be_val_bound(s: Seq<u8>)
    ensures
        be_val(s) < pow256(s.len()),
    decreases s.len(),
{
    if s.len() > 0 {
        lemma_be_val_bound(s.drop_last());
    }
}

pub proof fn lemma_pow256_values()
    ensures
        pow256(0) == 1,
        pow256(1) == 0x100,
        pow256(2) == 0x1_0000,
        pow256(3) == 0x100_0000,
        pow256(4) == 0x1_0000_0000,
        pow256(5) == 0x100_0000_0000,
        pow256(6) == 0x1_0000_0000_0000,
        pow256(7) == 0x100_0000_0000_0000,
        pow256(8) == 0x1_0000_0000_0000_0000,
{
    assert(pow256(1) == 256 * pow256(0));
    assert(pow256(2) == 256 * pow256(1));
    assert(pow256(3) == 256 * pow256(2));
    assert(pow256(4) == 256 * pow256(3));
    assert(pow256(5) == 256 * pow256(4));
    assert(pow256(6) == 256 * pow256(5));
    assert(pow256(7) == 256 * pow256(6));
    assert(pow256(8) == 256 * pow256(7));
}

/// The tail of `data` from `offset` on, or a single zero byte when `offset`
/// is out of range.
pub fn save_slice(data: &[u8], offset: usize) -> (r: &[u8])
    ensures
        offset < data@.len() ==> r@ == data@.subrange(offset as int, data@.len() as int),
        offset >= data@.len() ==> r@ == seq![0u8],
{
    if offset < data.len() {
        let r = &data[offset..data.len()];
        r
    } else {
        let r: &[u8] = &[0u8];
        proof {
            assert(r@ =~= seq![0u8]);
        }
        r
    }
}

/// The first `size` bytes of `data`, clamped to its length.
pub fn save_cut(data: &[u8], size: usize) -> (r: &[u8])
    ensures
        r@ == data@.subrange(0, if size <= data@.len() { size as int } else { data@.len() as int }),
{
    let mut size = size;
    if size > data.len() {
        size = data.len();
    }
    &data[0..size]
}

/// Narrows a stored size to the address width: a value too large for
/// `usize` becomes zero.
pub fn u64_to_usize(val: u64) -> (r: usize)
    ensures
        val <= usize::MAX ==> r == val,
        val > usize::MAX ==> r == 0,
{
    if val <= usize::MAX as u64 {
        val as usize
    } else {
        0
    }
}

/// Reads up to the first four bytes of `data` as a big-endian u32;
/// shorter input is left-padded with zeros.
pub fn get_u32(data: &[u8]) -> (r: u32)
    ensures
        r == be_val(data@.subrange(0, if data@.len() > 4 { 4int } else { data@.len() as int })),
{
    let c: usize = if data.len() > 4 {
        4
    } else {
        data.len()
    };
    let mut i: usize = 0;
    let mut value: u32 = 0;
    proof {
        assert(data@.subrange(0, 0) =~= Seq::<u8>::empty());
    }
    while i < c
        invariant
            c <= 4,
            c <= data@.len(),
            i <= c,
            value == be_val(data@.subrange(0, i as int)),
            value < pow256(i as nat),
        decreases c - i,
    {
        proof {
            assert(data@.subrange(0, i + 1).drop_last() =~= data@.subrange(0, i as int));
            lemma_pow256_values();
            assert(pow256((i + 1) as nat) == 256 * pow256(i as nat));
        }
        value = value * 256 + data[i] as u32;
        i = i + 1;
    }
    value
}

/// Reads up to the first eight bytes of `data` as a big-endian u64;
/// shorter input is left-padded with zeros.
pub fn get_u64(data: &[u8]) -> (r: u64)
    ensures
        r == be_val(data@.subrange(0, if data@.len() > 8 { 8int } else { data@.len() as int })),
{
    let c: usize = if data.len() > 8 {
        8
    } else {
        data.len()
    };
    let mut i: usize = 0;
    let mut value: u64 = 0;
    proof {
        assert(data@.subrange(0, 0) =~= Seq::<u8>::empty());
    }
    while i < c
        invariant
            c <= 8,
            c <= data@.len(),
            i <= c,
            value == be_val(data@.subrange(0, i as int)),
            value < pow256(i as nat),
        decreases c - i,
    {
        proof {
            assert(data@.subrange(0, i + 1).drop_last() =~= data@.subrange(0, i as int));
            lemma_pow256_values();
            assert(pow256((i + 1) as nat) == 256 * pow256(i as nat));
        }
        value = value * 256 + data[i] as u64;
        i = i + 1;
    }
    value
}

/// 64 to the power `n`: the weight of one continuation byte's payload.
pub open spec fn pow64(n: nat) -> nat
    decreases n,
{
    if n == 0 {
        1
    } else {
        64 * pow64((n - 1) as nat)
    }
}

pub proof fn lemma_pow64_values()
    ensures
        pow64(0) == 1,
        pow64(1) == 64,
        pow64(2) == 0x1000,
        pow64(3) == 0x4_0000,
        pow64(4) == 0x100_0000,
        pow64(5) == 0x4000_0000,
        pow64(6) == 0x10_0000_0000,
        pow64(7) == 0x400_0000_0000,
{
    assert(pow64(1) == 64 * pow64(0));
    assert(pow64(2) == 64 * pow64(1));
    assert(pow64(3) == 64 * pow64(2));
    assert(pow64(4) == 64 * pow64(3));
    assert(pow64(5) == 64 * pow64(4));
    assert(pow64(6) == 64 * pow64(5));
    assert(pow64(7) == 64 * pow64(6));
}

/// Number of leading one bits in a byte: what the decoder reads off the
/// head byte to learn the total length of a variable-length integer.
pub open spec fn spec_leading_ones(b: u8) -> int {
    if b < 0x80 {
        0
    } else if b < 0xC0 {
        1
    } else if b < 0xE0 {
        2
    } else if b < 0xF0 {
        3
    } else if b < 0xF8 {
        4
    } else if b < 0xFC {
        5
    } else if b < 0xFE {
        6
    } else if b < 0xFF {
        7
    } else {
        8
    }
}

/// The head-byte mask for an `l`-byte encoding; it doubles as the divider
/// by which the decoder strips the length prefix off the head byte.
pub open spec fn vlq_mask(l: int) -> u8 {
    if l == 2 {
        0xC0
    } else if l == 3 {
        0xE0
    } else if l == 4 {
        0xF0
    } else if l == 5 {
        0xF8
    } else if l == 6 {
        0xFC
    } else if l == 7 {
        0xFE
    } else if l == 8 {
        0xFF
    } else {
        1
    }
}

/// How many distinct payload values the head byte of an `l`-byte encoding
/// can carry (2 to the number of its free bits).
pub open spec fn vlq_head_cap(l: int) -> nat {
    if l == 2 {
        32
    } else if l == 3 {
        16
    } else if l == 4 {
        8
    } else if l == 5 {
        4
    } else if l == 6 {
        2
    } else {
        1
    }
}

/// The number the decoder accumulates from the first `k` bytes: the head
/// byte's payload, then six further bits per continuation byte.
pub open spec fn vlq_payload(s: Seq<u8>, k: int) -> nat
    decreases k,
{
    if k <= 1 {
        (s[0] as nat) % (vlq_mask(spec_leading_ones(s[0])) as nat)
    } else {
        vlq_payload(s, k - 1) * 64 + (s[k - 1] as nat) % 128
    }
}

/// What `get_utf8_value` returns on any input of at least one byte:
/// the decoded value and the number of bytes consumed.
pub open spec fn spec_vlq_decode(s: Seq<u8>) -> (u64, int) {
    let l = spec_leading_ones(s[0]);
    if l > s.len() {
        (0u64, 0)
    } else if l == 0 {
        (s[0] as u64, 1)
    } else {
        ((vlq_payload(s, l) as u64), l)
    }
}

/// The decoder's accumulator never exceeds this geometric bound.
pub proof fn lemma_vlq_payload_bound(s: Seq<u8>, k: int)
    requires
        k >= 1,
    ensures
        vlq_payload(s, k) <= 258 * pow64((k - 1) as nat) - 3,
    decreases k,
{
    if k == 1 {
        assert(vlq_payload(s, 1) < 256);
    } else {
        lemma_vlq_payload_bound(s, k - 1);
        assert(pow64((k - 1) as nat) == 64 * pow64((k - 2) as nat));
        assert(vlq_payload(s, k) == vlq_payload(s, k - 1) * 64 + (s[k - 1] as nat) % 128);
        assert(vlq_payload(s, k - 1) * 64 <= (258 * pow64((k - 2) as nat) - 3) * 64) by {
            vstd::arithmetic::mul::lemma_mul_inequality(
                vlq_payload(s, k - 1) as int,
                258 * pow64((k - 2) as nat) - 3,
                64,
            );
        }
        assert((258 * pow64((k - 2) as nat) - 3) * 64 == 258 * (64 * pow64((k - 2) as nat)) - 192)
            by (nonlinear_arith);
    }
}

/// Number of binary digits of `n` (zero for zero).
pub open spec fn spec_bit_len(n: nat) -> nat
    decreases n,
{
    if n == 0 {
        0
    } else {
        (1 + spec_bit_len(n / 2)) as nat
    }
}

/// 2 to the power `n`.
pub open spec fn pow2n(k: nat) -> nat {
    vstd::arithmetic::power2::pow2(k)
}

pub proof fn lemma_bit_len_range(n: nat)
    requires
        n >= 1,
    ensures
        spec_bit_len(n) >= 1,
        pow2n((spec_bit_len(n) - 1) as nat) <= n < pow2n(spec_bit_len(n)),
    decreases n,
{
    if n >= 2 {
        lemma_bit_len_range(n / 2);
        let b2 = spec_bit_len(n / 2);
        assert(spec_bit_len(n) == 1 + b2);
        assert(pow2n(spec_bit_len(n)) == 2 * pow2n(b2)) by {
            vstd::arithmetic::power2::lemma_pow2_unfold((1 + b2) as nat);
        }
        assert(pow2n((spec_bit_len(n) - 1) as nat) == 2 * pow2n((b2 - 1) as nat)) by {
            vstd::arithmetic::power2::lemma_pow2_unfold(b2);
        }
        vstd::arithmetic::div_mod::lemma_fundamental_div_mod(n as int, 2);
    } else {
        assert(spec_bit_len(0) == 0);
        assert(spec_bit_len(1) == 1);
        lemma_pow2n_small();
    }
}

/// Total length in bytes of the encoding of `n`.
pub open spec fn spec_vlq_len(n: u64) -> int {
    if n < 128 {
        1
    } else {
        let l = (spec_bit_len(n as nat) - 7) / 5 + 2;
        if l > 8 {
            8
        } else {
            l
        }
    }
}

/// The head byte's payload for the encoding of `n`: the value's top bits,
/// clamped to the head byte's free bits.
pub open spec fn vlq_head_payload(n: u64) -> nat {
    let l = spec_vlq_len(n);
    ((n as nat) / pow64((l - 1) as nat)) % vlq_head_cap(l)
}

/// The byte sequence `value_to_utf8_bytes` produces for `n`.
pub open spec fn spec_vlq_encode(n: u64) -> Seq<u8> {
    if n < 128 {
        seq![n as u8]
    } else {
        let l = spec_vlq_len(n);
        Seq::new(
            l as nat,
            |i: int|
                if i == 0 {
                    (vlq_mask(l) + vlq_head_payload(n)) as u8
                } else {
                    (0x80 + ((n as nat) / pow64((l - 1 - i) as nat)) % 64) as u8
                },
        )
    }
}

/// Decoding inverts encoding for every value the eight-byte form can carry
/// faithfully: the head byte of an eight-byte encoding has no free bits, so
/// the seven continuation bytes' 42 payload bits set the limit.
pub proof fn lemma_vlq_round_trip(n: u64)
    requires
        n < 0x400_0000_0000,
    ensures
        spec_vlq_decode(spec_vlq_encode(n)) == (n, spec_vlq_len(n)),
{
    lemma_pow64_values();
    if n < 128 {
        let s = spec_vlq_encode(n);
        assert(s[0] == n as u8);
        assert(spec_leading_ones(s[0]) == 0);
    } else {
        let l = spec_vlq_len(n);
        let s = spec_vlq_encode(n);
        lemma_vlq_len_range(n);
        // The value's top bits fit the head byte's free bits, so the clamp
        // in the head payload is the identity.
        let q = (n as nat) / pow64((l - 1) as nat);
        assert(q < vlq_head_cap(l)) by {
            lemma_head_fits(n);
        }
        vstd::arithmetic::div_mod::lemma_small_mod(q, vlq_head_cap(l));
        assert(vlq_head_payload(n) == q);
        // The head byte keeps its length prefix readable.
        assert(s[0] == (vlq_mask(l) + q) as u8);
        assert(spec_leading_ones(s[0]) == l);
        assert((s[0] as nat) % (vlq_mask(l) as nat) == q) by {
            assert(s[0] as nat == vlq_mask(l) + q);
            assert(q < vlq_mask(l));
            vstd::arithmetic::div_mod::lemma_mod_adds(vlq_mask(l) as int, q as int, vlq_mask(l) as int);
            vstd::arithmetic::div_mod::lemma_mod_self_0(vlq_mask(l) as int);
            vstd::arithmetic::div_mod::lemma_small_mod(q, vlq_mask(l) as nat);
        }
        // Each prefix of the encoding decodes to the corresponding quotient.
        assert forall|k: int| 1 <= k <= l implies vlq_payload(s, k) == (n as nat) / pow64(
            (l - k) as nat,
        ) by {
            lemma_vlq_payload_prefix(n, k);
        }
        assert(vlq_payload(s, l) == (n as nat) / pow64(0));
        assert((n as nat) / 1 == n as nat);
        assert(l <= s.len());
    }
}

proof fn lemma_pow2n_small()
    ensures
        pow2n(0) == 1,
        pow2n(1) == 2,
        pow2n(2) == 4,
        pow2n(3) == 8,
        pow2n(4) == 16,
        pow2n(5) == 32,
        pow2n(6) == 64,
        pow2n(7) == 128,
{
    vstd::arithmetic::power2::lemma2_to64();
}

proof fn lemma_pow2n_add(a: nat, c: nat)
    ensures
        pow2n((a + c) as nat) == pow2n(a) * pow2n(c),
{
    vstd::arithmetic::power2::lemma_pow2_adds(a, c);
}

/// The byte count of an encoding of a value of at least 128.
pub proof fn lemma_vlq_len_range(n: u64)
    requires
        n >= 128,
    ensures
        spec_bit_len(n as nat) >= 8,
        2 <= spec_vlq_len(n) <= 8,
{
    lemma_bit_len_range(n as nat);
    let bits = spec_bit_len(n as nat);
    if bits < 8 {
        lemma_pow2n_le(bits, 7);
        lemma_pow2n_small();
        assert(n < pow2n(7));
    }
}

proof fn lemma_pow2n_le(a: nat, b: nat)
    requires
        a <= b,
    ensures
        pow2n(a) <= pow2n(b),
{
    if a < b {
        vstd::arithmetic::power2::lemma_pow2_strictly_increases(a, b);
    }
}

/// pow2n grows by doubling, so pow64(k) == pow2n(6 k).
proof fn lemma_pow64_is_pow2n(k: nat)
    ensures
        pow64(k) == pow2n((6 * k) as nat),
    decreases k,
{
    if k > 0 {
        lemma_pow64_is_pow2n((k - 1) as nat);
        lemma_pow2n_add((6 * (k - 1)) as nat, 6);
        lemma_pow2n_small();
        assert(pow2n((6 * k) as nat) == pow2n((6 * (k - 1)) as nat) * pow2n(6));
        assert(pow64(k) == 64 * pow64((k - 1) as nat));
        let t = pow2n((6 * (k - 1)) as nat) as int;
        assert(t * pow2n(6) == 64 * t) by (nonlinear_arith)
            requires
                pow2n(6) == 64,
        ;
    } else {
        lemma_pow2n_small();
    }
}

/// For the chosen length, the value's top bits fit the head byte.
proof fn lemma_head_fits(n: u64)
    requires
        128 <= n < 0x400_0000_0000,
    ensures
        ((n as nat) / pow64((spec_vlq_len(n) - 1) as nat)) < vlq_head_cap(spec_vlq_len(n)),
{
    let bits = spec_bit_len(n as nat);
    let l = spec_vlq_len(n);
    lemma_bit_len_range(n as nat);
    lemma_pow64_values();
    if l == 8 {
        // Eight-byte form: everything below 2^42 divides away entirely.
        assert((n as nat) / pow64(7) == 0) by {
            vstd::arithmetic::div_mod::lemma_basic_div(n as int, pow64(7) as int);
        }
    } else {
        // l < 8, so bits <= 5 l + 1, hence n < 2^(5 l + 1) and the quotient
        // is below 2^(7 - l) == vlq_head_cap(l).
        lemma_vlq_len_range(n);
        assert(bits <= 5 * (l - 2) + 11);
        assert(n < pow2n(bits));
        lemma_pow2n_le(bits, (5 * l + 1) as nat);
        assert(n < pow2n((5 * l + 1) as nat));
        lemma_pow64_is_pow2n((l - 1) as nat);
        lemma_pow2n_quotient((6 * l - 6) as nat, (5 * l + 1) as nat);
        lemma_div_strict(n as nat, pow2n((6 * l - 6) as nat), pow2n((5 * l + 1) as nat));
        assert((n as nat) / pow64((l - 1) as nat) < pow2n((7 - l) as nat));
        assert(pow2n((7 - l) as nat) == vlq_head_cap(l)) by {
            lemma_pow2n_small();
        }
    }
}

proof fn lemma_div_bound(x: nat, d: nat, b: nat)
    requires
        d >= 1,
        x < b,
    ensures
        x / d <= b / d,
{
    vstd::arithmetic::div_mod::lemma_div_is_ordered(x as int, b as int, d as int);
}

/// If x < b and d divides b, then x / d < b / d.
proof fn lemma_div_strict(x: nat, d: nat, b: nat)
    requires
        d >= 1,
        x < b,
        b % d == 0,
    ensures
        x / d < b / d,
{
    if x / d >= b / d {
        vstd::arithmetic::div_mod::lemma_fundamental_div_mod(x as int, d as int);
        vstd::arithmetic::div_mod::lemma_fundamental_div_mod(b as int, d as int);
        vstd::arithmetic::mul::lemma_mul_inequality(b as int / d as int, x as int / d as int, d as int);
        assert(d * (b / d) <= d * (x / d)) by {
            vstd::arithmetic::mul::lemma_mul_is_commutative(d as int, b as int / d as int);
            vstd::arithmetic::mul::lemma_mul_is_commutative(d as int, x as int / d as int);
        }
        assert(x % d >= 0);
        assert(false);
    }
}

/// Quotient of two powers of two with the smaller below.
proof fn lemma_pow2n_quotient(a: nat, b: nat)
    requires
        a <= b,
    ensures
        pow2n(b) % pow2n(a) == 0,
        pow2n(b) / pow2n(a) == pow2n((b - a) as nat),
{
    lemma_pow2n_pos(a);
    lemma_pow2n_add(a, (b - a) as nat);
    lemma_div_exact(pow2n(b), pow2n(a), pow2n((b - a) as nat));
}

proof fn lemma_pow2n_pos(a: nat)
    ensures
        pow2n(a) >= 1,
{
    vstd::arithmetic::power2::lemma_pow2_pos(a);
}

/// x == d * q exactly gives x / d == q and x % d == 0.
proof fn lemma_div_exact(x: nat, d: nat, q: nat)
    requires
        d >= 1,
        x == d * q,
    ensures
        x / d == q,
        x % d == 0,
{
    assert(d * q == q * d) by (nonlinear_arith);
    vstd::arithmetic::div_mod::lemma_fundamental_div_mod_converse(x as int, d as int, q as int, 0);
}

/// Within the encoding of `n`, the first `k` bytes decode to `n` with its
/// lowest `6 (l - k)` bits divided away.
proof fn lemma_vlq_payload_prefix(n: u64, k: int)
    requires
        128 <= n < 0x400_0000_0000,
        1 <= k <= spec_vlq_len(n),
    ensures
        vlq_payload(spec_vlq_encode(n), k) == (n as nat) / pow64((spec_vlq_len(n) - k) as nat),
    decreases k,
{
    let l = spec_vlq_len(n);
    let s = spec_vlq_encode(n);
    lemma_pow64_values();
    lemma_vlq_len_range(n);
    let q = (n as nat) / pow64((l - 1) as nat);
    lemma_head_fits(n);
    vstd::arithmetic::div_mod::lemma_small_mod(q, vlq_head_cap(l));
    if k == 1 {
        assert(s[0] == (vlq_mask(l) + q) as u8);
        assert(spec_leading_ones(s[0]) == l);
        assert((s[0] as nat) % (vlq_mask(l) as nat) == q) by {
            assert(s[0] as nat == vlq_mask(l) + q);
            assert(q < vlq_mask(l));
            vstd::arithmetic::div_mod::lemma_mod_adds(vlq_mask(l) as int, q as int, vlq_mask(l) as int);
            vstd::arithmetic::div_mod::lemma_mod_self_0(vlq_mask(l) as int);
            vstd::arithmetic::div_mod::lemma_small_mod(q, vlq_mask(l) as nat);
        }
    } else {
        lemma_vlq_payload_prefix(n, k - 1);
        let xk = (n as nat) / pow64((l - k) as nat);
        let d = ((n as nat) / pow64((l - k) as nat)) % 64;
        assert(s[k - 1] == (0x80 + d) as u8);
        assert(d < 64) by {
            vstd::arithmetic::div_mod::lemma_mod_bound(xk as int, 64);
        }
        assert((s[k - 1] as nat) % 128 == d) by {
            assert(s[k - 1] as nat == 128 + d);
            vstd::arithmetic::div_mod::lemma_mod_adds(128, d as int, 128);
            vstd::arithmetic::div_mod::lemma_mod_self_0(128);
            vstd::arithmetic::div_mod::lemma_small_mod(d, 128);
        }
        // payload(k) = payload(k - 1) * 64 + low digit = xk
        assert(vlq_payload(s, k) == vlq_payload(s, k - 1) * 64 + d);
        assert(vlq_payload(s, k - 1) == (n as nat) / pow64((l - k + 1) as nat));
        assert((n as nat) / pow64((l - k + 1) as nat) == xk / 64) by {
            assert(pow64((l - k + 1) as nat) == pow64((l - k) as nat) * 64) by {
                lemma_pow64_step((l - k) as nat);
            }
            vstd::arithmetic::div_mod::lemma_div_denominator(
                n as int,
                pow64((l - k) as nat) as int,
                64,
            );
        }
        vstd::arithmetic::div_mod::lemma_fundamental_div_mod(xk as int, 64);
        assert(64 * (xk / 64) == (xk / 64) * 64) by {
            vstd::arithmetic::mul::lemma_mul_is_commutative(64, xk as int / 64);
        }
    }
}

proof fn lemma_pow64_step(k: nat)
    ensures
        pow64((k + 1) as nat) == pow64(k) * 64,
    decreases k,
{
    if k > 0 {
        lemma_pow64_step((k - 1) as nat);
    }
}

proof fn lemma_pow64_le(a: nat, b: nat)
    requires
        a <= b,
    ensures
        pow64(a) <= pow64(b),
    decreases b,
{
    if a < b {
        lemma_pow64_le(a, (b - 1) as nat);
    }
}

proof fn lemma_pow2n_extra()
    ensures
        pow2n(8) == 0x100,
        pow2n(16) == 0x1_0000,
        pow2n(32) == 0x1_0000_0000,
        pow2n(64) == 0x1_0000_0000_0000_0000,
{
    vstd::arithmetic::power2::lemma2_to64();
    vstd::arithmetic::power2::lemma2_to64_rest();
}

pub proof fn lemma_pow2n_u64()
    ensures
        pow2n(64) == 0x1_0000_0000_0000_0000,
{
    lemma_pow2n_extra();
}

pub proof fn lemma_bit_len_le_pub(n: nat, k: nat)
    requires
        n < pow2n(k),
    ensures
        spec_bit_len(n) <= k,
{
    lemma_bit_len_le(n, k);
}

proof fn lemma_bit_len_le(n: nat, k: nat)
    requires
        n < pow2n(k),
    ensures
        spec_bit_len(n) <= k,
    decreases n,
{
    if n > 0 {
        assert(k >= 1) by {
            if k == 0 {
                lemma_pow2n_small();
            }
        }
        assert(n / 2 < pow2n((k - 1) as nat)) by {
            vstd::arithmetic::power2::lemma_pow2_unfold(k);
            vstd::arithmetic::div_mod::lemma_fundamental_div_mod(n as int, 2);
        }
        lemma_bit_len_le(n / 2, (k - 1) as nat);
    }
}

/// `n` divided by 64 to the `k`: peels one factor of 64 per step.
fn div_pow64(n: u64, k: usize) -> (r: u64)
    ensures
        r as nat == (n as nat) / pow64(k as nat),
{
    let mut q: u64 = n;
    let mut i: usize = 0;
    proof {
        vstd::arithmetic::div_mod::lemma_div_basics(n as int);
    }
    while i < k
        invariant
            i <= k,
            q as nat == (n as nat) / pow64(i as nat),
        decreases k - i,
    {
        proof {
            lemma_pow64_step(i as nat);
            lemma_pow64_pos(i as nat);
            vstd::arithmetic::div_mod::lemma_div_denominator(n as int, pow64(i as nat) as int, 64);
        }
        q = q / 64;
        i = i + 1;
    }
    q
}

proof fn lemma_pow64_pos(k: nat)
    ensures
        pow64(k) >= 1,
    decreases k,
{
    if k > 0 {
        lemma_pow64_pos((k - 1) as nat);
    }
}

/// Decodes one variable-length integer from the front of `data`: the head
/// byte's count of leading one bits gives the total length; a count larger
/// than the input yields `(0, 0)`, a plain byte below 128 yields itself.
pub fn get_utf8_value(data: &[u8]) -> (r: (u64, usize))
    requires
        data@.len() >= 1,
    ensures
        r.0 == spec_vlq_decode(data@).0,
        r.1 as int == spec_vlq_decode(data@).1,
        r.1 <= 8,
{
    let b0 = data[0];
    let number_of_bytes: usize = if b0 < 0x80 {
        0
    } else if b0 < 0xC0 {
        1
    } else if b0 < 0xE0 {
        2
    } else if b0 < 0xF0 {
        3
    } else if b0 < 0xF8 {
        4
    } else if b0 < 0xFC {
        5
    } else if b0 < 0xFE {
        6
    } else if b0 < 0xFF {
        7
    } else {
        8
    };

    if number_of_bytes > data.len() {
        return (0, 0);
    }

    if number_of_bytes == 0 {
        return (b0 as u64, 1);
    }

    let divider: u8 = if number_of_bytes == 2 {
        0xC0
    } else if number_of_bytes == 3 {
        0xE0
    } else if number_of_bytes == 4 {
        0xF0
    } else if number_of_bytes == 5 {
        0xF8
    } else if number_of_bytes == 6 {
        0xFC
    } else if number_of_bytes == 7 {
        0xFE
    } else if number_of_bytes == 8 {
        0xFF
    } else {
        1
    };

    let mut value: u64 = (b0 % divider) as u64;
    let mut index: usize = 1;
    proof {
        lemma_pow64_values();
    }
    while index < number_of_bytes
        invariant
            1 <= index <= number_of_bytes,
            number_of_bytes <= data@.len(),
            number_of_bytes == spec_leading_ones(data@[0]),
            value as nat == vlq_payload(data@, index as int),
        decreases number_of_bytes - index,
    {
        proof {
            lemma_vlq_payload_bound(data@, index as int);
            lemma_pow64_le((index - 1) as nat, 6);
            lemma_pow64_values();
            assert(value * 64 + 127 < 0x1_0000_0000_0000_0000) by {
                assert(value <= 258 * pow64(6) - 3);
                vstd::arithmetic::mul::lemma_mul_inequality(
                    value as int,
                    258 * pow64(6) - 3,
                    64,
                );
            }
        }
        let b: u64 = (data[index] % 0x80) as u64;
        value = value * 64 + b;
        index = index + 1;
    }
    proof {
        lemma_vlq_payload_bound(data@, number_of_bytes as int);
        lemma_pow64_le((number_of_bytes - 1) as nat, 7);
        lemma_pow64_values();
    }
    (value, number_of_bytes)
}

/// Encodes `number` in the variable-length form: values below 128 are one
/// plain byte; otherwise a head byte whose leading one bits give the total
/// length, then big-endian six-bit groups with the high bit set. The form
/// is capped at eight bytes, whose seven continuation bytes carry 42 bits;
/// higher bits of `number` are not represented.
pub fn value_to_utf8_bytes(number: u64) -> (r: Vec<u8>)
    ensures
        r@ == spec_vlq_encode(number),
        1 <= r@.len() <= 8,
        r@.len() as int == spec_vlq_len(number),
        number < 0x400_0000_0000 ==> spec_vlq_decode(r@) == (number, r@.len() as int),
{
    let mut data: Vec<u8> = Vec::new();

    if number < 128 {
        data.push(number as u8);
        proof {
            assert(data@ =~= spec_vlq_encode(number));
            lemma_vlq_round_trip(number);
        }
        return data;
    }

    // Count the binary digits of the value.
    let mut m: u64 = number;
    let mut bits: usize = 0;
    proof {
        lemma_pow2n_extra();
        lemma_bit_len_le(number as nat, 64);
    }
    while m > 0
        invariant
            spec_bit_len(number as nat) == bits + spec_bit_len(m as nat),
            bits <= spec_bit_len(number as nat),
            spec_bit_len(number as nat) <= 64,
        decreases m,
    {
        m = m / 2;
        bits = bits + 1;
    }
    assert(bits == spec_bit_len(number as nat));
    assert(bits >= 8) by {
        lemma_vlq_len_range(number);
    }

    let mut bytes_in_tar: usize = (bits - 7) / 5 + 2;
    if bytes_in_tar > 8 {
        bytes_in_tar = 8;
    }
    let nb = bytes_in_tar;
    proof {
        assert(nb as int == spec_vlq_len(number));
        lemma_vlq_len_range(number);
    }

    let cap: u64 = if nb == 2 {
        32
    } else if nb == 3 {
        16
    } else if nb == 4 {
        8
    } else if nb == 5 {
        4
    } else if nb == 6 {
        2
    } else {
        1
    };
    let mask: u8 = if nb == 2 {
        0xC0
    } else if nb == 3 {
        0xE0
    } else if nb == 4 {
        0xF0
    } else if nb == 5 {
        0xF8
    } else if nb == 6 {
        0xFC
    } else if nb == 7 {
        0xFE
    } else {
        0xFF
    };

    let q = div_pow64(number, nb - 1);
    let p = q % cap;
    proof {
        assert(cap as nat == vlq_head_cap(nb as int));
        assert(mask == vlq_mask(nb as int));
        assert(p < 32);
        assert((p as nat) == vlq_head_payload(number));
    }
    data.push(mask + (p as u8));

    let mut idx: usize = 1;
    while idx < nb
        invariant
            1 <= idx <= nb,
            2 <= nb <= 8,
            nb as int == spec_vlq_len(number),
            128 <= number,
            data@.len() == idx,
            data@[0] == (vlq_mask(nb as int) + vlq_head_payload(number)) as u8,
            forall|i: int|
                1 <= i < idx ==> data@[i] == (0x80 + ((number as nat) / pow64(
                    (nb - 1 - i) as nat,
                )) % 64) as u8,
        decreases nb - idx,
    {
        let j = nb - 1 - idx;
        let qq = div_pow64(number, j);
        let d = (qq % 64) as u8;
        data.push(0x80 + d);
        idx = idx + 1;
    }
    proof {
        assert(data@ =~= spec_vlq_encode(number));
        if number < 0x400_0000_0000 {
            lemma_vlq_round_trip(number);
        }
    }
    data
}

/// Position of the first NUL byte, or the length when there is none.
pub open spec fn first_nul(s: Seq<u8>) -> int
    decreases s.len(),
{
    if s.len() == 0 {
        0
    } else if s[0] == 0 {
        0
    } else {
        1 + first_nul(s.drop_first())
    }
}

/// A scan that passes `k` non-NUL bytes and stops at a NUL or the end has
/// found the first NUL.
pub proof fn lemma_first_nul_at(s: Seq<u8>, k: int)
    requires
        0 <= k <= s.len(),
        forall|j: int| 0 <= j < k ==> s[j] != 0,
        k < s.len() ==> s[k] == 0,
    ensures
        first_nul(s) == k,
    decreases s.len(),
{
    if s.len() > 0 && k > 0 {
        lemma_first_nul_at(s.drop_first(), k - 1);
    }
}

/// Reads bytes up to the first NUL terminator. The count consumed covers
/// the terminator; an empty run still consumes it, and input without any
/// terminator reports one byte more than it holds.
pub fn read_string_sequence(data: &[u8]) -> (r: (Vec<u8>, usize))
    requires
        data@.len() < usize::MAX,
    ensures
        r.1 == first_nul(data@) + 1,
        1 <= r.1 <= data@.len() + 1,
        r.0@ == data@.subrange(0, r.1 - 1),
        forall|j: int| 0 <= j < r.1 - 1 ==> data@[j] != 0,
        r.1 - 1 < data@.len() ==> data@[r.1 - 1] == 0,
{
    let mut index: usize = 0;
    let mut out: Vec<u8> = Vec::new();
    while index < data.len() && data[index] != 0
        invariant
            index <= data@.len(),
            out@ == data@.subrange(0, index as int),
            forall|j: int| 0 <= j < index ==> data@[j] != 0,
        decreases data@.len() - index,
    {
        out.push(data[index]);
        proof {
            assert(out@ =~= data@.subrange(0, index + 1));
        }
        index = index + 1;
    }
    proof {
        lemma_first_nul_at(data@, index as int);
    }
    (out, index + 1)
}

/// The character that displays one hex digit, upper case.
pub open spec fn hex_digit_char(v: u8) -> char {
    if v == 0x0 {
        '0'
    } else if v == 0x1 {
        '1'
    } else if v == 0x2 {
        '2'
    } else if v == 0x3 {
        '3'
    } else if v == 0x4 {
        '4'
    } else if v == 0x5 {
        '5'
    } else if v == 0x6 {
        '6'
    } else if v == 0x7 {
        '7'
    } else if v == 0x8 {
        '8'
    } else if v == 0x9 {
        '9'
    } else if v == 0xA {
        'A'
    } else if v == 0xB {
        'B'
    } else if v == 0xC {
        'C'
    } else if v == 0xD {
        'D'
    } else if v == 0xE {
        'E'
    } else if v == 0xF {
        'F'
    } else {
        ' '
    }
}

/// The hex display of a byte sequence: two digits per byte, high nibble
/// first.
pub open spec fn hex_chars_of(s: Seq<u8>) -> Seq<char> {
    Seq::new(
        2 * s.len(),
        |i: int| if i % 2 == 0 {
            hex_digit_char(s[i / 2] / 16)
        } else {
            hex_digit_char(s[i / 2] % 16)
        },
    )
}

fn hex_digit_str(v: u8) -> (r: &'static str)
    ensures
        r@ == seq![hex_digit_char(v)],
{
    proof {
        reveal_strlit("0");
        reveal_strlit("1");
        reveal_strlit("2");
        reveal_strlit("3");
        reveal_strlit("4");
        reveal_strlit("5");
        reveal_strlit("6");
        reveal_strlit("7");
        reveal_strlit("8");
        reveal_strlit("9");
        reveal_strlit("A");
        reveal_strlit("B");
        reveal_strlit("C");
        reveal_strlit("D");
        reveal_strlit("E");
        reveal_strlit("F");
        reveal_strlit(" ");
    }
    if v == 0x0 {
        "0"
    } else if v == 0x1 {
        "1"
    } else if v == 0x2 {
        "2"
    } else if v == 0x3 {
        "3"
    } else if v == 0x4 {
        "4"
    } else if v == 0x5 {
        "5"
    } else if v == 0x6 {
        "6"
    } else if v == 0x7 {
        "7"
    } else if v == 0x8 {
        "8"
    } else if v == 0x9 {
        "9"
    } else if v == 0xA {
        "A"
    } else if v == 0xB {
        "B"
    } else if v == 0xC {
        "C"
    } else if v == 0xD {
        "D"
    } else if v == 0xE {
        "E"
    } else if v == 0xF {
        "F"
    } else {
        " "
    }
}

/// Displays bytes as upper-case hex, two digits per byte.
pub fn bytes_to_hex_string(data: &[u8]) -> (r: String)
    ensures
        r@ == hex_chars_of(data@),
{
    let mut out = String::new();
    let mut i: usize = 0;
    while i < data.len()
        invariant
            i <= data@.len(),
            out@ == hex_chars_of(data@.subrange(0, i as int)),
        decreases data@.len() - i,
    {
        let byte = data[i];
        let upper = byte / 16;
        let lower = byte % 16;
        out.append(hex_digit_str(upper));
        out.append(hex_digit_str(lower));
        proof {
            assert(out@ =~= hex_chars_of(data@.subrange(0, i + 1)));
        }
        i = i + 1;
    }
    proof {
        assert(data@.subrange(0, data@.len() as int) =~= data@);
    }
    out
}

/// The numeric value of one hex character, either case; anything else
/// counts as zero.
pub open spec fn hex_char_val(c: char) -> u8 {
    if c == '0' {
        0x0
    } else if c == '1' {
        0x1
    } else if c == '2' {
        0x2
    } else if c == '3' {
        0x3
    } else if c == '4' {
        0x4
    } else if c == '5' {
        0x5
    } else if c == '6' {
        0x6
    } else if c == '7' {
        0x7
    } else if c == '8' {
        0x8
    } else if c == '9' {
        0x9
    } else if c == 'A' || c == 'a' {
        0xA
    } else if c == 'B' || c == 'b' {
        0xB
    } else if c == 'C' || c == 'c' {
        0xC
    } else if c == 'D' || c == 'd' {
        0xD
    } else if c == 'E' || c == 'e' {
        0xE
    } else if c == 'F' || c == 'f' {
        0xF
    } else {
        0
    }
}

/// The bytes a hex character sequence denotes, two characters per byte;
/// an odd trailing character is dropped.
pub open spec fn hex_pairs(s: Seq<char>) -> Seq<u8> {
    Seq::new(s.len() / 2, |i: int| (16 * hex_char_val(s[2 * i]) + hex_char_val(s[2 * i + 1])) as u8)
}

fn hex_char_to_val(c: char) -> (r: u8)
    ensures
        r == hex_char_val(c),
        r < 16,
{
    if c == '0' {
        0x0
    } else if c == '1' {
        0x1
    } else if c == '2' {
        0x2
    } else if c == '3' {
        0x3
    } else if c == '4' {
        0x4
    } else if c == '5' {
        0x5
    } else if c == '6' {
        0x6
    } else if c == '7' {
        0x7
    } else if c == '8' {
        0x8
    } else if c == '9' {
        0x9
    } else if c == 'A' || c == 'a' {
        0xA
    } else if c == 'B' || c == 'b' {
        0xB
    } else if c == 'C' || c == 'c' {
        0xC
    } else if c == 'D' || c == 'd' {
        0xD
    } else if c == 'E' || c == 'e' {
        0xE
    } else if c == 'F' || c == 'f' {
        0xF
    } else {
        0
    }
}

/// Parses a hex string into bytes, tolerant of either case; characters
/// that are no hex digits count as zero, and an odd trailing character
/// is dropped.
pub fn hex_string_to_bytes(text: &String) -> (r: Vec<u8>)
    ensures
        r@ == hex_pairs(text@),
{
    let s = text.as_str();
    let n = s.unicode_len();
    let mut out: Vec<u8> = Vec::new();
    let mut i: usize = 0;
    while i < n && i + 1 < n
        invariant
            n == text@.len(),
            s@ == text@,
            i % 2 == 0,
            i <= n + 1,
            i / 2 <= text@.len() / 2,
            out@ == hex_pairs(text@).subrange(0, i as int / 2),
        decreases n - i,
    {
        let c1 = s.get_char(i);
        let c2 = s.get_char(i + 1);
        let v1 = hex_char_to_val(c1);
        let v2 = hex_char_to_val(c2);
        out.push(v1 * 16 + v2);
        proof {
            assert(out@ =~= hex_pairs(text@).subrange(0, (i as int + 2) / 2));
        }
        i = i + 2;
    }
    proof {
        assert(out@ =~= hex_pairs(text@));
    }
    out
}

/// The positions where two equally long byte sequences differ, in order,
/// each with the new value at that position.
pub open spec fn spec_vec_diff(old: Seq<u8>, new: Seq<u8>, i: int) -> Seq<(usize, u8)>
    decreases new.len() - i,
{
    if i < 0 || i >= new.len() {
        Seq::empty()
    } else if new[i] != old[i] {
        seq![(i as usize, new[i])] + spec_vec_diff(old, new, i + 1)
    } else {
        spec_vec_diff(old, new, i + 1)
    }
}

/// Lists where `new_data` departs from `old_data`; the two must have one
/// length, else nothing is reported.
pub fn generate_vec_diff(old_data: &Vec<u8>, new_data: &Vec<u8>) -> (r: Option<Vec<(usize, u8)>>)
    ensures
        r is Some <==> old_data@.len() == new_data@.len(),
        r is Some ==> r->Some_0@ == spec_vec_diff(old_data@, new_data@, 0),
{
    if old_data.len() != new_data.len() {
        return None;
    }
    let mut diff: Vec<(usize, u8)> = Vec::new();
    let mut index: usize = 0;
    while index < new_data.len()
        invariant
            old_data@.len() == new_data@.len(),
            index <= new_data@.len(),
            spec_vec_diff(old_data@, new_data@, 0) == diff@ + spec_vec_diff(
                old_data@,
                new_data@,
                index as int,
            ),
        decreases new_data@.len() - index,
    {
        proof {
            if new_data@[index as int] != old_data@[index as int] {
                assert((diff@ + seq![(index, new_data@[index as int])]) + spec_vec_diff(
                    old_data@,
                    new_data@,
                    index + 1,
                ) =~= diff@ + (seq![(index, new_data@[index as int])] + spec_vec_diff(
                    old_data@,
                    new_data@,
                    index + 1,
                )));
            }
        }
        if new_data[index] != old_data[index] {
            diff.push((index, new_data[index]));
        }
        index = index + 1;
    }
    proof {
        assert(diff@ + spec_vec_diff(old_data@, new_data@, new_data@.len() as int) =~= diff@);
    }
    Some(diff)
}

/// The decoder's accumulator reads only the bytes it has passed, so it
/// agrees on any two inputs that share them.
proof fn lemma_vlq_payload_prefix_stable(s: Seq<u8>, t: Seq<u8>, k: int)
    requires
        1 <= k,
        k <= s.len(),
        k <= t.len(),
        forall|i: int| 0 <= i < k ==> s[i] == t[i],
    ensures
        vlq_payload(s, k) == vlq_payload(t, k),
    decreases k,
{
    if k > 1 {
        lemma_vlq_payload_prefix_stable(s, t, k - 1);
    }
}

/// Decoding stops after the encoding's own bytes, whatever follows them.
pub proof fn lemma_vlq_decode_with_tail(n: u64, tail: Seq<u8>)
    requires
        n < 0x400_0000_0000,
    ensures
        spec_vlq_decode(spec_vlq_encode(n) + tail) == (n, spec_vlq_len(n)),
{
    let enc = spec_vlq_encode(n);
    let s = enc + tail;
    lemma_vlq_round_trip(n);
    assert(s[0] == enc[0]);
    let l = spec_leading_ones(s[0]);
    assert(l == spec_vlq_len(n) || (n < 128 && l == 0));
    if n < 128 {
        assert(s[0] == n as u8);
    } else {
        assert(l >= 1);
        assert(l <= enc.len());
        assert forall|i: int| 0 <= i < l implies s[i] == enc[i] by {}
        lemma_vlq_payload_prefix_stable(s, enc, l);
    }
}

} // verus!
