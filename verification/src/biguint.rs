//! Fixed-width multi-precision unsigned integers.
//!
//! A `BigUint<N>` holds exactly `N` little-endian 64-bit limbs and represents
//! an unsigned integer modulo `2^(64*N)`.  Addition, subtraction and
//! multiplication are total and wrap around that modulus, mirroring native
//! fixed-width unsigned arithmetic extended to `N` words; overflow is defined
//! behaviour, never an error.  Bitwise operations and shifts are limb-boundary
//! aware and total for every shift amount.  Values serialize to and from
//! big-endian hexadecimal text.

use vstd::prelude::*;

use vstd::arithmetic::div_mod::lemma_add_mod_noop_right;
use vstd::arithmetic::div_mod::lemma_fundamental_div_mod_converse;
use vstd::arithmetic::div_mod::lemma_mod_multiples_vanish;
use vstd::arithmetic::div_mod::lemma_small_mod;
use vstd::arithmetic::mul::lemma_mul_inequality;
use vstd::arithmetic::mul::lemma_mul_upper_bound;
use vstd::arithmetic::mul::lemma_mul_is_distributive_add_other_way;
use vstd::arithmetic::power2::lemma2_to64;
use vstd::arithmetic::power2::lemma2_to64_rest;
use vstd::arithmetic::power2::lemma_pow2_adds;
use vstd::arithmetic::power2::lemma_pow2_pos;
use vstd::arithmetic::power2::pow2;
use vstd::string::StrSliceExecFns;
use vstd::string::StringExecFns;

verus! {

/// The value of the first `n` limbs of `s`, least significant limb first:
/// `s[0] + s[1]*2^64 + ... + s[n-1]*2^(64*(n-1))`.
pub open spec fn limbs_val_prefix(s: Seq<u64>, n: nat) -> nat
    recommends
        n <= s.len(),
    decreases n,
{
    if n == 0 {
        0
    } else {
        (limbs_val_prefix(s, (n - 1) as nat) + s[n - 1] * pow2((64 * (n - 1)) as nat)) as nat
    }
}

/// The value represented by a whole limb sequence.
pub open spec fn limbs_val(s: Seq<u64>) -> nat {
    limbs_val_prefix(s, s.len())
}

/// The limbs after shifting left by `sh` bits: destination limb `i` combines
/// bits pushed up from source limb `i - sh/64` with bits carried up from the
/// next-lower source limb; limbs below `sh/64`, and out-of-range source
/// indices, contribute zero.
pub open spec fn shl_limbs(s: Seq<u64>, sh: nat) -> Seq<u64> {
    let ls = (sh / 64) as int;
    let bs = (sh % 64) as u64;
    Seq::new(
        s.len(),
        |i: int|
            if i < ls {
                0u64
            } else if bs == 0 {
                s[i - ls]
            } else if i - ls >= 1 {
                (s[i - ls] << bs) | (s[i - ls - 1] >> ((64 - bs) as u64))
            } else {
                s[i - ls] << bs
            },
    )
}

/// The limbs after shifting right by `sh` bits: destination limb `i` combines
/// bits pushed down from source limb `i + sh/64` with bits carried down from
/// the next-higher source limb; out-of-range source indices contribute zero.
pub open spec fn shr_limbs(s: Seq<u64>, sh: nat) -> Seq<u64> {
    let ls = (sh / 64) as int;
    let bs = (sh % 64) as u64;
    Seq::new(
        s.len(),
        |i: int|
            if i + ls >= s.len() {
                0u64
            } else if bs == 0 {
                s[i + ls]
            } else if i + ls + 1 < s.len() {
                (s[i + ls] >> bs) | (s[i + ls + 1] << ((64 - bs) as u64))
            } else {
                s[i + ls] >> bs
            },
    )
}

/// Whether `c` is a hexadecimal digit, upper or lower case.
pub open spec fn is_hex_digit(c: char) -> bool {
    (48 <= c as u32 && c as u32 <= 57) || (65 <= c as u32 && c as u32 <= 70) || (97 <= c as u32
        && c as u32 <= 102)
}

/// The numeric value of a hexadecimal digit.
pub open spec fn hex_digit_val(c: char) -> nat
    recommends
        is_hex_digit(c),
{
    if 48 <= c as u32 && c as u32 <= 57 {
        (c as u32 - 48) as nat
    } else if 65 <= c as u32 && c as u32 <= 70 {
        (c as u32 - 55) as nat
    } else if 97 <= c as u32 && c as u32 <= 102 {
        (c as u32 - 87) as nat
    } else {
        0
    }
}

/// The upper-case hexadecimal digit for a value below sixteen.
pub open spec fn hex_char_of(d: nat) -> char
    recommends
        d < 16,
{
    if d == 0 {
        '0'
    } else if d == 1 {
        '1'
    } else if d == 2 {
        '2'
    } else if d == 3 {
        '3'
    } else if d == 4 {
        '4'
    } else if d == 5 {
        '5'
    } else if d == 6 {
        '6'
    } else if d == 7 {
        '7'
    } else if d == 8 {
        '8'
    } else if d == 9 {
        '9'
    } else if d == 10 {
        'A'
    } else if d == 11 {
        'B'
    } else if d == 12 {
        'C'
    } else if d == 13 {
        'D'
    } else if d == 14 {
        'E'
    } else {
        'F'
    }
}

/// The value of a big-endian string of hexadecimal digits.
pub open spec fn hex_val(s: Seq<char>) -> nat
    decreases s.len(),
{
    if s.len() == 0 {
        0
    } else {
        16 * hex_val(s.drop_last()) + hex_digit_val(s.last())
    }
}

/// The sixteen hexadecimal digits of one limb, most significant nibble first.
pub open spec fn limb_hex(x: u64) -> Seq<char> {
    Seq::new(16, |j: int| hex_char_of((((x >> ((4 * (15 - j)) as u64)) & 0xF) as nat)))
}

/// The canonical big-endian hexadecimal form of a limb sequence: sixteen
/// zero-padded digits per limb, most significant limb first.
pub open spec fn hex_of_limbs(s: Seq<u64>) -> Seq<char>
    decreases s.len(),
{
    if s.len() == 0 {
        Seq::empty()
    } else {
        limb_hex(s.last()) + hex_of_limbs(s.drop_last())
    }
}

/// The digits of a hexadecimal string once an optional `0x`/`0X` prefix is
/// removed.
pub open spec fn strip_hex_prefix(s: Seq<char>) -> Seq<char> {
    if s.len() >= 2 && s[0] == '0' && (s[1] == 'x' || s[1] == 'X') {
        s.skip(2)
    } else {
        s
    }
}

/// A string of `n` hexadecimal digits is worth less than `16^n`.
pub proof fn lemma_hex_val_bound(s: Seq<char>)
    ensures
        hex_val(s) < pow2((4 * s.len()) as nat),
    decreases s.len(),
{
    if s.len() == 0 {
        lemma_pow2_pos(0);
    } else {
        let u = s.drop_last();
        lemma_hex_val_bound(u);
        lemma_pow2_adds((4 * u.len()) as nat, 4);
        lemma2_to64();
        let p = pow2((4 * u.len()) as nat) as int;
        assert(hex_digit_val(s.last()) < 16);
        assert(hex_val(u) as int <= p - 1);
        assert(16 * (hex_val(u) as int) <= 16 * (p - 1)) by (nonlinear_arith)
            requires
                hex_val(u) as int <= p - 1,
        ;
        assert(16 * (p - 1) + 16 == p * 16) by (nonlinear_arith);
    }
}

/// `hex_of_limbs` yields sixteen digits per limb.
pub proof fn lemma_hex_of_limbs_len(s: Seq<u64>)
    ensures
        hex_of_limbs(s).len() == 16 * s.len(),
    decreases s.len(),
{
    if s.len() > 0 {
        lemma_hex_of_limbs_len(s.drop_last());
    }
}

/// The hex form of a limb sequence starts with the top limb's digits and
/// ends with the digits of limb zero.
proof fn lemma_hex_of_limbs_low(u: Seq<u64>)
    requires
        u.len() >= 1,
    ensures
        hex_of_limbs(u) == hex_of_limbs(u.skip(1)) + limb_hex(u[0]),
    decreases u.len(),
{
    if u.len() == 1 {
        assert(u.drop_last() =~= Seq::<u64>::empty());
        assert(u.skip(1) =~= Seq::<u64>::empty());
        assert(hex_of_limbs(u) =~= hex_of_limbs(u.skip(1)) + limb_hex(u[0]));
    } else {
        let v = u.drop_last();
        lemma_hex_of_limbs_low(v);
        assert(v.skip(1) =~= u.skip(1).drop_last());
        assert(u.skip(1).last() == u.last());
        assert(hex_of_limbs(u.skip(1)) == limb_hex(u.last()) + hex_of_limbs(u.skip(1).drop_last()));
        assert(limb_hex(u.last()) + (hex_of_limbs(v.skip(1)) + limb_hex(v[0])) =~= (limb_hex(
            u.last(),
        ) + hex_of_limbs(v.skip(1))) + limb_hex(u[0]));
    }
}

/// The digit characters are hexadecimal digits with the intended values,
/// and are never a prefix letter.
proof fn lemma_hex_char_props(d: nat)
    requires
        d < 16,
    ensures
        is_hex_digit(hex_char_of(d)),
        hex_digit_val(hex_char_of(d)) == d,
{
}

/// The sixteen digits of a limb evaluate back to the limb: the first `mm`
/// digits are worth the limb's top `4*mm` bits.
proof fn lemma_limb_hex_val_prefix(x: u64, mm: nat)
    requires
        mm <= 16,
    ensures
        hex_val(limb_hex(x).subrange(0, mm as int)) == x as nat / pow2((64 - 4 * mm) as nat),
    decreases mm,
{
    lemma2_to64();
    lemma2_to64_rest();
    if mm == 0 {
        assert(limb_hex(x).subrange(0, 0) =~= Seq::<char>::empty());
        vstd::arithmetic::div_mod::lemma_basic_div(x as int, pow2(64) as int);
    } else {
        lemma_limb_hex_val_prefix(x, (mm - 1) as nat);
        let e = (64 - 4 * mm) as nat;
        let w = limb_hex(x).subrange(0, mm as int);
        assert(w.drop_last() =~= limb_hex(x).subrange(0, mm - 1));
        let sh = (4 * (15 - (mm - 1))) as u64;
        assert(sh == e);
        let d = (x >> sh) & 0xF;
        lemma_nibble_bound(x, sh);
        lemma_hex_char_props(d as nat);
        assert(w.last() == hex_char_of(d as nat));
        let y = x >> sh;
        vstd::bits::lemma_u64_shr_is_div(x, sh);
        vstd::bits::lemma_u64_low_bits_mask_is_mod(y, 4);
        vstd::bits::lemma_low_bits_mask_values();
        assert(d == y % 16);
        lemma_pow2_adds(e, 4);
        vstd::arithmetic::div_mod::lemma_div_denominator(x as int, pow2(e) as int, 16);
        lemma_pow2_pos(e);
        vstd::arithmetic::div_mod::lemma_fundamental_div_mod(y as int, 16);
        assert(hex_val(w) == 16 * hex_val(w.drop_last()) + hex_digit_val(w.last()));
        assert(64 - 4 * (mm - 1) == e + 4);
    }
}

/// One limb's sixteen digits are worth exactly the limb.
proof fn lemma_limb_hex_val(x: u64)
    ensures
        hex_val(limb_hex(x)) == x,
{
    lemma_limb_hex_val_prefix(x, 16);
    assert(limb_hex(x).subrange(0, 16) =~= limb_hex(x));
    lemma2_to64();
    assert(x as nat / pow2(0) == x as nat / 1);
}

/// Concatenating digit strings multiplies the left value by `16^len` of the
/// right and adds the right value.
proof fn lemma_hex_val_concat(s1: Seq<char>, s2: Seq<char>)
    ensures
        hex_val(s1 + s2) == hex_val(s1) * pow2((4 * s2.len()) as nat) + hex_val(s2),
    decreases s2.len(),
{
    lemma2_to64();
    if s2.len() == 0 {
        assert(s1 + s2 =~= s1);
        assert(hex_val(s1) * pow2(0) == hex_val(s1) * 1);
    } else {
        let u = s2.drop_last();
        lemma_hex_val_concat(s1, u);
        assert((s1 + s2).drop_last() =~= s1 + u);
        assert((s1 + s2).last() == s2.last());
        lemma_pow2_adds((4 * u.len()) as nat, 4);
        let a = hex_val(s1) as int;
        let p = pow2((4 * u.len()) as nat) as int;
        let b = hex_val(u) as int;
        assert(16 * (a * p + b) == a * (p * 16) + 16 * b) by (nonlinear_arith);
        assert(hex_val(s1 + s2) == 16 * hex_val(s1 + u) + hex_digit_val(s2.last()));
        assert(hex_val(s2) == 16 * hex_val(u) + hex_digit_val(s2.last()));
    }
}

/// The canonical hexadecimal form of a limb sequence is worth the sequence's
/// value.
proof fn lemma_hex_of_limbs_val(s: Seq<u64>)
    ensures
        hex_val(hex_of_limbs(s)) == limbs_val(s),
    decreases s.len(),
{
    if s.len() == 0 {
    } else {
        let v = s.drop_last();
        lemma_hex_of_limbs_val(v);
        lemma_hex_of_limbs_len(v);
        lemma_hex_val_concat(limb_hex(s.last()), hex_of_limbs(v));
        lemma_limb_hex_val(s.last());
        lemma_prefix_congruence(s, v, (s.len() - 1) as nat);
        assert(limbs_val(s) == limbs_val_prefix(s, (s.len() - 1) as nat) + s.last() * pow2(
            (64 * (s.len() - 1)) as nat,
        ));
        assert(4 * (16 * v.len()) == 64 * v.len());
    }
}

/// Every character of the canonical hexadecimal form is a hexadecimal digit.
proof fn lemma_hex_of_limbs_digits(s: Seq<u64>)
    ensures
        forall|i: int|
            0 <= i < hex_of_limbs(s).len() ==> is_hex_digit(#[trigger] hex_of_limbs(s)[i]),
    decreases s.len(),
{
    if s.len() > 0 {
        let v = s.drop_last();
        lemma_hex_of_limbs_digits(v);
        assert forall|i: int| 0 <= i < hex_of_limbs(s).len() implies is_hex_digit(
            #[trigger] hex_of_limbs(s)[i],
        ) by {
            if i < 16 {
                let sh = (4 * (15 - i)) as u64;
                lemma_nibble_bound(s.last(), sh);
                lemma_hex_char_props(((s.last() >> sh) & 0xF) as nat);
                assert(hex_of_limbs(s)[i] == limb_hex(s.last())[i]);
            } else {
                assert(hex_of_limbs(s)[i] == hex_of_limbs(v)[i - 16]);
            }
        }
    }
}

/// How one limb splits under a left shift: the product with `2^bs` is the
/// kept bits plus `2^64` times the carried bits, and the kept bits leave
/// `2^bs - 1` of room.
#[verifier::rlimit(100)]
proof fn lemma_u64_shl_split_bits(x: u64, bs: u64)
    by (bit_vector)
    requires
        0 < bs < 64,
    ensures
        x as int * ((1u64 << bs) as int) == (x << bs) as int + ((x >> ((64 - bs) as u64)) as int)
            * 0x10000000000000000,
        (x << bs) as int <= 0xFFFFFFFFFFFFFFFF - (((1u64 << bs) as int) - 1),
{
}

/// The same split, with the quotient and remainder read off arithmetically.
proof fn lemma_u64_shl_split(x: u64, bs: u64)
    requires
        0 < bs < 64,
    ensures
        (x << bs) as int == (x as int * ((1u64 << bs) as int)) % 0x10000000000000000,
        ((x >> ((64 - bs) as u64)) as int) == (x as int * ((1u64 << bs) as int))
            / 0x10000000000000000,
        (x << bs) as int <= 0xFFFFFFFFFFFFFFFF - (((1u64 << bs) as int) - 1),
{
    lemma_u64_shl_split_bits(x, bs);
    lemma_fundamental_div_mod_converse(
        x as int * ((1u64 << bs) as int),
        0x10000000000000000,
        (x >> ((64 - bs) as u64)) as int,
        (x << bs) as int,
    );
}

/// How one limb splits under a right shift: the limb is its shifted-down
/// part times `2^bs` plus its low bits, and shifting up moves exactly the
/// low bits.
#[verifier::rlimit(100)]
proof fn lemma_u64_shr_split_bits(x: u64, bs: u64)
    by (bit_vector)
    requires
        0 < bs < 64,
    ensures
        x as int == ((x >> bs) as int) * ((1u64 << bs) as int) + ((x & !(0xFFFFFFFFFFFFFFFFu64 << bs)) as int),
        ((x & !(0xFFFFFFFFFFFFFFFFu64 << bs)) as int) < ((1u64 << bs) as int),
        ((x << ((64 - bs) as u64)) as int) == ((x & !(0xFFFFFFFFFFFFFFFFu64 << bs)) as int) * ((1u64 << ((64
            - bs) as u64)) as int),
        (1u64 << ((64 - bs) as u64)) as int * ((1u64 << bs) as int) == 0x10000000000000000,
{
}

/// The same split, with the quotient and remainder read off arithmetically.
proof fn lemma_u64_shr_split(x: u64, bs: u64)
    requires
        0 < bs < 64,
    ensures
        (x >> bs) as int == x as int / ((1u64 << bs) as int),
        ((x << ((64 - bs) as u64)) as int) == (x as int % ((1u64 << bs) as int)) * ((1u64 << ((64
            - bs) as u64)) as int),
{
    lemma_u64_shr_split_bits(x, bs);
    let p = (1u64 << bs) as int;
    assert(((x >> bs) as int) * p == p * ((x >> bs) as int)) by (nonlinear_arith);
    lemma_fundamental_div_mod_converse(
        x as int,
        p,
        (x >> bs) as int,
        (x & !(0xFFFFFFFFFFFFFFFFu64 << bs)) as int,
    );
}

/// The two halves OR'd together in a cross-limb shift occupy disjoint bits,
/// so the OR is an addition.
proof fn lemma_u64_or_carry(x: u64, y: u64, bs: u64)
    by (bit_vector)
    requires
        0 < bs < 64,
    ensures
        ((x << bs) | (y >> ((64 - bs) as u64))) as int == (x << bs) as int + (y >> ((64 - bs)
            as u64)) as int,
        ((x >> bs) | (y << ((64 - bs) as u64))) as int == (x >> bs) as int + (y << ((64 - bs)
            as u64)) as int,
{
}

/// Shifting zero, shifting by zero, and OR with zero change nothing.
proof fn lemma_u64_trivial_shifts(x: u64, bs: u64)
    by (bit_vector)
    requires
        bs < 64,
    ensures
        (0u64 << bs) == 0u64,
        (0u64 >> bs) == 0u64,
        (x | 0u64) == x,
        (0u64 | x) == x,
{
}

/// `1 << bs` is `2^bs` for in-range shifts.
proof fn lemma_pow2_u64(bs: u64)
    requires
        bs < 64,
    ensures
        (1u64 << bs) == pow2(bs as nat),
        pow2(bs as nat) <= u64::MAX,
        pow2(bs as nat) >= 1,
{
    vstd::bits::lemma_u64_pow2_no_overflow(bs as nat);
    vstd::bits::lemma_u64_shl_is_mul(1u64, bs);
    lemma_pow2_pos(bs as nat);
}

/// A left shift is a limb-aligned shift followed by a within-limb shift.
proof fn lemma_shl_decompose(s: Seq<u64>, sh: nat)
    ensures
        shl_limbs(s, sh) =~= shl_limbs(shl_limbs(s, (64 * (sh / 64)) as nat), sh % 64),
{
    let ls = (sh / 64) as int;
    let bs = (sh % 64) as u64;
    let t = shl_limbs(s, (64 * (sh / 64)) as nat);
    vstd::arithmetic::div_mod::lemma_fundamental_div_mod(sh as int, 64);
    assert((64 * (sh / 64)) as nat / 64 == sh / 64 && (64 * (sh / 64)) as nat % 64 == 0) by {
        vstd::arithmetic::div_mod::lemma_div_multiples_vanish((sh / 64) as int, 64);
        lemma_mod_multiples_vanish((sh / 64) as int, 0, 64);
    }
    assert((sh % 64) / 64 == 0 && (sh % 64) % 64 == sh % 64) by {
        vstd::arithmetic::div_mod::lemma_basic_div((sh % 64) as int, 64);
        lemma_small_mod((sh % 64) as nat, 64);
    }
    assert forall|i: int| 0 <= i < s.len() implies shl_limbs(s, sh)[i] == shl_limbs(
        t,
        sh % 64,
    )[i] by {
        if bs == 0 {
        } else {
            lemma_u64_trivial_shifts(0u64, bs);
            lemma_u64_trivial_shifts(0u64, (64 - bs) as u64);
            if i < ls {
                assert(t[i] == 0u64);
                if i >= 1 {
                    assert(t[i - 1] == 0u64);
                    assert(((0u64 << bs) | (0u64 >> ((64 - bs) as u64))) == 0u64);
                }
            } else if i == ls {
                if i >= 1 {
                    assert(t[i - 1] == 0u64);
                    lemma_u64_trivial_shifts(s[i - ls] << bs, bs);
                    assert(((s[i - ls] << bs) | (0u64 >> ((64 - bs) as u64))) == (s[i - ls]
                        << bs));
                }
            }
        }
    }
}

/// A right shift is a limb-aligned shift followed by a within-limb shift.
proof fn lemma_shr_decompose(s: Seq<u64>, sh: nat)
    ensures
        shr_limbs(s, sh) =~= shr_limbs(shr_limbs(s, (64 * (sh / 64)) as nat), sh % 64),
{
    let ls = (sh / 64) as int;
    let bs = (sh % 64) as u64;
    let t = shr_limbs(s, (64 * (sh / 64)) as nat);
    vstd::arithmetic::div_mod::lemma_fundamental_div_mod(sh as int, 64);
    assert((64 * (sh / 64)) as nat / 64 == sh / 64 && (64 * (sh / 64)) as nat % 64 == 0) by {
        vstd::arithmetic::div_mod::lemma_div_multiples_vanish((sh / 64) as int, 64);
        lemma_mod_multiples_vanish((sh / 64) as int, 0, 64);
    }
    assert((sh % 64) / 64 == 0 && (sh % 64) % 64 == sh % 64) by {
        vstd::arithmetic::div_mod::lemma_basic_div((sh % 64) as int, 64);
        lemma_small_mod((sh % 64) as nat, 64);
    }
    assert forall|i: int| 0 <= i < s.len() implies shr_limbs(s, sh)[i] == shr_limbs(
        t,
        sh % 64,
    )[i] by {
        if bs == 0 {
        } else {
            lemma_u64_trivial_shifts(0u64, bs);
            if i + ls >= s.len() {
                assert(t[i] == 0u64);
                if i + 1 < s.len() {
                    assert(t[i + 1] == 0u64);
                    assert(((0u64 >> bs) | (0u64 << ((64 - bs) as u64))) == 0u64) by (bit_vector)
                        requires
                            0 < bs < 64,
                    ;
                }
            } else if i + ls + 1 == s.len() {
                if i + 1 < s.len() {
                    assert(t[i + 1] == 0u64);
                    lemma_u64_trivial_shifts(s[i + ls] >> bs, bs);
                    assert((0u64 << ((64 - bs) as u64)) == 0u64) by (bit_vector)
                        requires
                            0 < bs < 64,
                    ;
                    assert(((s[i + ls] >> bs) | (0u64 << ((64 - bs) as u64))) == (s[i + ls]
                        >> bs));
                }
            }
        }
    }
}

/// A limb-aligned left shift multiplies the value by `2^(64*w)`, modulo the
/// width.
proof fn lemma_shl_words_val(s: Seq<u64>, w: nat)
    ensures
        limbs_val(shl_limbs(s, (64 * w) as nat)) as int == (limbs_val(s) as int * pow2(
            (64 * w) as nat,
        ) as int) % (pow2((64 * s.len()) as nat) as int),
{
    let n = s.len();
    let t = shl_limbs(s, (64 * w) as nat);
    let m = pow2((64 * n) as nat) as int;
    lemma_pow2_pos((64 * n) as nat);
    assert((64 * w) as nat / 64 == w && (64 * w) as nat % 64 == 0) by {
        vstd::arithmetic::div_mod::lemma_div_multiples_vanish(w as int, 64);
        lemma_mod_multiples_vanish(w as int, 0, 64);
    }
    let v = limbs_val(s) as int;
    if w >= n {
        lemma_prefix_zero(t, n);
        lemma_pow2_adds((64 * n) as nat, (64 * (w - n)) as nat);
        let q = pow2((64 * (w - n)) as nat) as int;
        assert(v * (m * q) == m * (v * q)) by (nonlinear_arith);
        lemma_mod_multiples_vanish(v * q, 0, m);
        lemma_small_mod(0, pow2((64 * n) as nat));
    } else {
        lemma_prefix_zero(t, w);
        lemma_prefix_split(t, w, n);
        lemma_prefix_congruence(t.skip(w as int), s, (n - w) as nat);
        lemma_prefix_split(s, (n - w) as nat, n);
        lemma_prefix_bound(s, (n - w) as nat);
        let pw = pow2((64 * w) as nat) as int;
        let pr = pow2((64 * (n - w)) as nat) as int;
        let tail = limbs_val_prefix(s.skip((n - w) as int), w) as int;
        let pfx = limbs_val_prefix(s, (n - w) as nat) as int;
        lemma_pow2_pos((64 * (n - w)) as nat);
        lemma_pow2_pos((64 * w) as nat);
        assert(v == pfx + pr * tail);
        lemma_fundamental_div_mod_converse(v, pr, tail, pfx);
        assert(pfx == v % pr);
        vstd::arithmetic::div_mod::lemma_truncate_middle(v, pw, pr);
        lemma_pow2_adds((64 * w) as nat, (64 * (n - w)) as nat);
        assert(limbs_val(t) == pw * limbs_val_prefix(t.skip(w as int), (n - w) as nat));
        assert(pw * pfx == pw * (v % pr));
        assert((pw * v) % (pw * pr) == pw * (v % pr));
        assert(pw * v == v * pw) by (nonlinear_arith);
    }
}

/// A within-limb left shift multiplies each prefix by `2^bs` modulo the
/// prefix width; the quotient is exactly the bits pushed out of the top
/// limb.
proof fn lemma_shl_bits_prefix(s: Seq<u64>, bs: u64, n: nat)
    requires
        0 < bs < 64,
        n <= s.len(),
    ensures
        limbs_val_prefix(shl_limbs(s, bs as nat), n) as int == (limbs_val_prefix(s, n) as int
            * pow2(bs as nat) as int) % (pow2((64 * n) as nat) as int),
        (limbs_val_prefix(s, n) as int * pow2(bs as nat) as int) / (pow2((64 * n) as nat) as int)
            == (if n == 0 {
            0int
        } else {
            (s[n - 1] >> ((64 - bs) as u64)) as int
        }),
    decreases n,
{
    let r = shl_limbs(s, bs as nat);
    let p = pow2(bs as nat) as int;
    lemma_pow2_u64(bs);
    assert(bs as nat / 64 == 0 && bs as nat % 64 == bs as nat) by {
        vstd::arithmetic::div_mod::lemma_basic_div(bs as int, 64);
        lemma_small_mod(bs as nat, 64);
    }
    if n == 0 {
        lemma2_to64();
        assert(limbs_val_prefix(s, 0) == 0);
        assert(limbs_val_prefix(r, 0) == 0);
        assert(pow2((64 * 0) as nat) == 1);
        assert(limbs_val_prefix(s, 0) as int * p == 0) by (nonlinear_arith)
            requires
                limbs_val_prefix(s, 0) == 0,
        ;
        assert(0int % 1 == 0 && 0int / 1 == 0);
    } else {
        lemma_shl_bits_prefix(s, bs, (n - 1) as nat);
        let nn = (n - 1) as nat;
        let pn = pow2((64 * nn) as nat) as int;
        let pn1 = pow2((64 * n) as nat) as int;
        lemma_pow2_pos((64 * nn) as nat);
        lemma_pow2_pos((64 * n) as nat);
        lemma_pow2_adds((64 * nn) as nat, 64);
        lemma2_to64();
        lemma2_to64_rest();
        let a_n = limbs_val_prefix(s, nn) as int * p;
        let x = s[n - 1];
        lemma_u64_shl_split(x, bs);
        let u = (x << bs) as int;
        let v = (x >> ((64 - bs) as u64)) as int;
        // the limb written at index n-1
        let rl = r[n - 1] as int;
        if n - 1 == 0 {
            assert(rl == u);
        } else {
            let w_prev = (s[n - 2] >> ((64 - bs) as u64)) as u64;
            lemma_u64_or_carry(x, s[n - 2], bs);
            assert(rl == u + w_prev);
        }
        // x * 2^bs splits into the kept part and the carried part.
        assert(x as int * p == u + v * 0x10000000000000000);
        // prefix values unfold by one limb.
        assert(limbs_val_prefix(r, n) == limbs_val_prefix(r, nn) + r[n - 1] * pow2(
            (64 * nn) as nat,
        ));
        assert(limbs_val_prefix(s, n) == limbs_val_prefix(s, nn) + s[n - 1] * pow2(
            (64 * nn) as nat,
        ));
        // distribute the multiplication by 2^bs.
        assert((limbs_val_prefix(s, nn) + x * pn) * p == limbs_val_prefix(s, nn) as int * p + x
            as int * (pn * p)) by (nonlinear_arith);
        assert(pn * p == p * pn) by (nonlinear_arith);
        assert(x as int * (p * pn) == (x as int * p) * pn) by (nonlinear_arith);
        assert((u + v * 0x10000000000000000) * pn == u * pn + v * (0x10000000000000000 * pn))
            by (nonlinear_arith);
        // bound the remainder part.
        lemma_prefix_bound(s, nn);
        assert(a_n <= (pn - 1) * p) by {
            lemma_mul_inequality(limbs_val_prefix(s, nn) as int, pn - 1, p);
        }
        assert(u <= 0xFFFFFFFFFFFFFFFF - (p - 1));
        assert(u * pn <= (0x10000000000000000 - p) * pn) by {
            lemma_mul_inequality(u, 0x10000000000000000 - p, pn);
        }
        assert((pn - 1) * p + (0x10000000000000000 - p) * pn == 0x10000000000000000 * pn - p)
            by (nonlinear_arith);
        // w(n-1) times pn, folded back in.
        let w_old = if nn == 0 {
            0int
        } else {
            (s[n - 2] >> ((64 - bs) as u64)) as int
        };
        vstd::arithmetic::div_mod::lemma_fundamental_div_mod(
            limbs_val_prefix(s, nn) as int * p,
            pn,
        );
        assert(a_n == pn * (a_n / pn) + (a_n % pn));
        assert(a_n / pn == w_old);
        assert(limbs_val_prefix(r, nn) as int == a_n % pn);
        assert(rl * pn == (u + w_old) * pn) by {
            if nn == 0 {
            }
        }
        assert((u + w_old) * pn == u * pn + w_old * pn) by (nonlinear_arith);
        // prefix(r, n) == a_n + u * pn, which is the mod, with quotient v.
        assert(limbs_val_prefix(r, n) as int == a_n % pn + u * pn + w_old * pn);
        assert(limbs_val_prefix(r, n) as int == a_n + u * pn) by {
            assert(pn * w_old == w_old * pn) by (nonlinear_arith);
        }
        assert(pn1 == pn * 0x10000000000000000);
        assert(limbs_val_prefix(s, n) as int * p == a_n + (x as int * p) * pn) by (nonlinear_arith)
            requires
                limbs_val_prefix(s, n) as int == limbs_val_prefix(s, nn) as int + x as int * pn,
                a_n == limbs_val_prefix(s, nn) as int * p,
        ;
        assert((x as int * p) * pn == u * pn + v * pn1) by (nonlinear_arith)
            requires
                x as int * p == u + v * 0x10000000000000000,
                pn1 == pn * 0x10000000000000000,
        ;
        assert(limbs_val_prefix(s, n) as int * p == a_n + u * pn + v * pn1);
        assert(0 <= a_n + u * pn < pn1) by {
            vstd::arithmetic::mul::lemma_mul_nonnegative(u, pn);
        }
        lemma_fundamental_div_mod_converse(
            limbs_val_prefix(s, n) as int * p,
            pn1,
            v,
            a_n + u * pn,
        );
        assert((limbs_val_prefix(s, n) as int * p) / pn1 == v);
    }
}

/// A limb-aligned right shift divides the value by `2^(64*w)`.
proof fn lemma_shr_words_val(s: Seq<u64>, w: nat)
    ensures
        limbs_val(shr_limbs(s, (64 * w) as nat)) as int == limbs_val(s) as int / (pow2(
            (64 * w) as nat,
        ) as int),
{
    let n = s.len();
    let t = shr_limbs(s, (64 * w) as nat);
    lemma_pow2_pos((64 * w) as nat);
    assert((64 * w) as nat / 64 == w && (64 * w) as nat % 64 == 0) by {
        vstd::arithmetic::div_mod::lemma_div_multiples_vanish(w as int, 64);
        lemma_mod_multiples_vanish(w as int, 0, 64);
    }
    let v = limbs_val(s) as int;
    if w >= n {
        lemma_prefix_zero(t, n);
        lemma_prefix_bound(s, n);
        if 64 * n < 64 * w {
            vstd::arithmetic::power2::lemma_pow2_strictly_increases(
                (64 * n) as nat,
                (64 * w) as nat,
            );
        }
        vstd::arithmetic::div_mod::lemma_basic_div(v, pow2((64 * w) as nat) as int);
    } else {
        // the kept limbs are s[w..], the top w limbs of the result are zero
        lemma_prefix_split(t, (n - w) as nat, n);
        lemma_prefix_zero(t.skip((n - w) as int), w);
        lemma_prefix_congruence(t, s.skip(w as int), (n - w) as nat);
        lemma_prefix_split(s, w, n);
        lemma_prefix_bound(s, w);
        let pw = pow2((64 * w) as nat) as int;
        let tail = limbs_val_prefix(s.skip(w as int), (n - w) as nat) as int;
        assert(v == limbs_val_prefix(s, w) + pw * tail);
        vstd::arithmetic::div_mod::lemma_div_multiples_vanish_fancy(
            tail,
            limbs_val_prefix(s, w) as int,
            pw,
        );
        assert((pw * tail + limbs_val_prefix(s, w)) / pw == tail);
        assert(limbs_val(t) as int == limbs_val_prefix(t, (n - w) as nat) + pow2(
            (64 * (n - w)) as nat,
        ) * 0);
    }
}

/// A within-limb right shift divides the value of every suffix by `2^bs`.
#[verifier::rlimit(100)]
#[verifier::spinoff_prover]
proof fn lemma_shr_bits_suffix(s: Seq<u64>, bs: u64, k: nat)
    requires
        0 < bs < 64,
        k <= s.len(),
    ensures
        limbs_val(shr_limbs(s, bs as nat).skip(k as int)) as int == limbs_val(s.skip(k as int))
            as int / (pow2(bs as nat) as int),
    decreases s.len() - k,
{
    let r = shr_limbs(s, bs as nat);
    let n = s.len();
    let p = pow2(bs as nat) as int;
    lemma_pow2_u64(bs);
    lemma_pow2_pos(bs as nat);
    assert(bs as nat / 64 == 0 && bs as nat % 64 == bs as nat) by {
        vstd::arithmetic::div_mod::lemma_basic_div(bs as int, 64);
        lemma_small_mod(bs as nat, 64);
    }
    if k == n {
        assert(r.skip(k as int) =~= Seq::<u64>::empty());
        assert(s.skip(k as int) =~= Seq::<u64>::empty());
        vstd::arithmetic::div_mod::lemma_basic_div(0, p);
    } else {
        lemma_shr_bits_suffix(s, bs, (k + 1) as nat);
        // peel the lowest limb off both suffixes
        lemma_prefix_split(r.skip(k as int), 1, (n - k) as nat);
        lemma_prefix_split(s.skip(k as int), 1, (n - k) as nat);
        lemma2_to64();
        lemma2_to64_rest();
        assert(r.skip(k as int).skip(1) =~= r.skip(k as int + 1));
        assert(s.skip(k as int).skip(1) =~= s.skip(k as int + 1));
        let sk1 = limbs_val(s.skip(k as int + 1)) as int;
        let rk1 = limbs_val(r.skip(k as int + 1)) as int;
        assert(limbs_val_prefix(r.skip(k as int), 0) == 0);
        assert(limbs_val_prefix(s.skip(k as int), 0) == 0);
        assert(limbs_val_prefix(r.skip(k as int), 1) == r[k as int] + 0);
        assert(limbs_val_prefix(s.skip(k as int), 1) == s[k as int] + 0);
        assert(limbs_val(r.skip(k as int)) as int == r[k as int] + 0x10000000000000000 * rk1);
        assert(limbs_val(s.skip(k as int)) as int == s[k as int] + 0x10000000000000000 * sk1);
        let x = s[k as int];
        lemma_u64_shr_split(x, bs);
        // the result limb at k
        let keep = (x >> bs) as int;
        if k + 1 < n {
            let y = s[k as int + 1];
            lemma_u64_or_carry(x, y, bs);
            lemma_u64_shr_split(y, bs);
            assert(r[k as int] as int == keep + ((y << ((64 - bs) as u64)) as int));
            assert(((y << ((64 - bs) as u64)) as int) == (y as int % p) * ((1u64 << ((64 - bs)
                as u64)) as int));
            let pq = pow2((64 - bs) as nat) as int;
            lemma_pow2_u64((64 - bs) as u64);
            assert(0x10000000000000000 == pq * p) by {
                lemma_pow2_adds((64 - bs) as nat, bs as nat);
            }
            let sk1v = sk1;
            let yv = y as int;
            // S_{k+1} = y + 2^64 * S_{k+2}; its value divided and mod by p:
            let sk2 = limbs_val(s.skip(k as int + 2)) as int;
            lemma_prefix_split(s.skip(k as int + 1), 1, (n - k - 1) as nat);
            assert(s.skip(k as int + 1).skip(1) =~= s.skip(k as int + 2));
            assert(limbs_val_prefix(s.skip(k as int + 1), 0) == 0);
            assert(limbs_val_prefix(s.skip(k as int + 1), 1) == y + 0);
            assert(sk1v == yv + 0x10000000000000000 * sk2);
            // divide S_{k+1} by p exactly
            assert(0x10000000000000000 * sk2 == p * (pq * sk2)) by (nonlinear_arith)
                requires
                    0x10000000000000000 == pq * p,
            ;
            vstd::arithmetic::div_mod::lemma_div_multiples_vanish_fancy(
                pq * sk2 + (yv / p),
                yv % p,
                p,
            );
            vstd::arithmetic::div_mod::lemma_fundamental_div_mod(yv, p);
            assert(sk1v == p * (pq * sk2 + (yv / p)) + yv % p) by (nonlinear_arith)
                requires
                    sk1v == yv + 0x10000000000000000 * sk2,
                    0x10000000000000000 == pq * p,
                    yv == p * (yv / p) + yv % p,
            ;
            assert(sk1v / p == pq * sk2 + yv / p);
            assert(sk1v == (pq * sk2 + yv / p) * p + yv % p) by (nonlinear_arith)
                requires
                    sk1v == p * (pq * sk2 + (yv / p)) + yv % p,
            ;
            assert(sk1v % p == yv % p) by {
                lemma_fundamental_div_mod_converse(sk1v, p, pq * sk2 + yv / p, yv % p);
            }
            // and S_k / p:
            assert(0x10000000000000000 * sk1v == p * (pq * sk1v)) by (nonlinear_arith)
                requires
                    0x10000000000000000 == pq * p,
            ;
            vstd::arithmetic::div_mod::lemma_div_multiples_vanish_fancy(
                pq * sk1v + (x as int / p),
                x as int % p,
                p,
            );
            vstd::arithmetic::div_mod::lemma_fundamental_div_mod(x as int, p);
            assert(x as int + 0x10000000000000000 * sk1v == p * (pq * sk1v + x as int / p) + x
                as int % p) by (nonlinear_arith)
                requires
                    0x10000000000000000 == pq * p,
                    x as int == p * (x as int / p) + x as int % p,
            ;
            assert(limbs_val(s.skip(k as int)) as int / p == pq * sk1v + x as int / p) by {
                lemma_fundamental_div_mod_converse(
                    x as int + 0x10000000000000000 * sk1v,
                    p,
                    pq * sk1v + x as int / p,
                    x as int % p,
                );
            }
            // assemble: r_k + 2^64 * (S_{k+1} / p) == keep + (y%p)*pq + 2^64*(pq*sk2 + y/p)
            assert(rk1 == sk1v / p);
            assert(limbs_val(r.skip(k as int)) as int == keep + (yv % p) * pq
                + 0x10000000000000000 * (pq * sk2 + yv / p));
            // pq * S_{k+1} == pq*y ... expand
            assert(pq * sk1v == pq * yv + pq * (0x10000000000000000 * sk2)) by (nonlinear_arith)
                requires
                    sk1v == yv + 0x10000000000000000 * sk2,
            ;
            assert(pq * (0x10000000000000000 * sk2) == 0x10000000000000000 * (pq * sk2))
                by (nonlinear_arith);
            assert(pq * yv == pq * (p * (yv / p) + yv % p)) by {
                vstd::arithmetic::div_mod::lemma_fundamental_div_mod(yv, p);
            }
            assert(pq * (p * (yv / p) + yv % p) == (pq * p) * (yv / p) + (yv % p) * pq)
                by (nonlinear_arith);
            assert((pq * p) * (yv / p) == 0x10000000000000000 * (yv / p));
        } else {
            // top limb: no carry comes in
            assert(r[k as int] as int == keep);
            assert(sk1 == 0 && rk1 == 0) by {
                assert(s.skip(k as int + 1) =~= Seq::<u64>::empty());
                assert(r.skip(k as int + 1) =~= Seq::<u64>::empty());
            }
            assert(limbs_val(r.skip(k as int)) as int == keep);
            assert(limbs_val(s.skip(k as int)) as int == x as int);
        }
    }
}

/// Any left shift multiplies the value by `2^sh`, modulo the width.
proof fn lemma_shl_val_seq(s: Seq<u64>, sh: nat)
    ensures
        limbs_val(shl_limbs(s, sh)) as int == (limbs_val(s) as int * pow2(sh) as int) % (pow2(
            (64 * s.len()) as nat,
        ) as int),
{
    let ls = sh / 64;
    let bs = sh % 64;
    let m = pow2((64 * s.len()) as nat) as int;
    lemma_pow2_pos((64 * s.len()) as nat);
    lemma_shl_decompose(s, sh);
    let t = shl_limbs(s, (64 * ls) as nat);
    lemma_shl_words_val(s, ls);
    vstd::arithmetic::div_mod::lemma_fundamental_div_mod(sh as int, 64);
    let v = limbs_val(s) as int;
    if bs == 0 {
        assert(shl_limbs(t, 0) =~= t) by {
            assert(0nat / 64 == 0 && 0nat % 64 == 0) by {
                vstd::arithmetic::div_mod::lemma_basic_div(0, 64);
                lemma_small_mod(0, 64);
            }
        }
        assert(sh == 64 * ls);
    } else {
        lemma_shl_bits_prefix(t, bs as u64, t.len());
        let p1 = pow2((64 * ls) as nat) as int;
        let p2 = pow2(bs) as int;
        vstd::arithmetic::div_mod::lemma_mul_mod_noop_left(v * p1, p2, m);
        lemma_pow2_adds((64 * ls) as nat, bs);
        assert((v * p1) * p2 == v * (p1 * p2)) by (nonlinear_arith);
        assert(limbs_val(shl_limbs(t, bs)) as int == ((v * p1) % m * p2) % m);
        assert(limbs_val(shl_limbs(s, sh)) == limbs_val(shl_limbs(t, bs)));
    }
}

/// Any right shift divides the value by `2^sh`.
proof fn lemma_shr_val_seq(s: Seq<u64>, sh: nat)
    ensures
        limbs_val(shr_limbs(s, sh)) as int == limbs_val(s) as int / (pow2(sh) as int),
{
    let ls = sh / 64;
    let bs = sh % 64;
    lemma_shr_decompose(s, sh);
    let t = shr_limbs(s, (64 * ls) as nat);
    lemma_shr_words_val(s, ls);
    vstd::arithmetic::div_mod::lemma_fundamental_div_mod(sh as int, 64);
    let v = limbs_val(s) as int;
    lemma_pow2_pos((64 * ls) as nat);
    lemma_pow2_pos(bs);
    if bs == 0 {
        assert(shr_limbs(t, 0) =~= t) by {
            assert(0nat / 64 == 0 && 0nat % 64 == 0) by {
                vstd::arithmetic::div_mod::lemma_basic_div(0, 64);
                lemma_small_mod(0, 64);
            }
        }
        assert(sh == 64 * ls);
    } else {
        lemma_shr_bits_suffix(t, bs as u64, 0);
        assert(shr_limbs(t, bs).skip(0) =~= shr_limbs(t, bs));
        assert(t.skip(0) =~= t);
        vstd::arithmetic::div_mod::lemma_div_denominator(
            v,
            pow2((64 * ls) as nat) as int,
            pow2(bs) as int,
        );
        lemma_pow2_adds((64 * ls) as nat, bs);
        assert(limbs_val(shr_limbs(s, sh)) == limbs_val(shr_limbs(t, bs)));
    }
}

/// Commutativity and associativity of the limb-wise boolean operators, and
/// De Morgan's law, at the single-limb level.
proof fn lemma_u64_bitwise_laws(x: u64, y: u64, z: u64)
    by (bit_vector)
    ensures
        x & y == y & x,
        x | y == y | x,
        x ^ y == y ^ x,
        (x & y) & z == x & (y & z),
        (x | y) | z == x | (y | z),
        (x ^ y) ^ z == x ^ (y ^ z),
        !x & !y == !(x | y),
{
}

/// A nibble extracted with shift and mask is below sixteen.
proof fn lemma_nibble_bound(x: u64, s: u64)
    by (bit_vector)
    requires
        s <= 60,
    ensures
        ((x >> s) & 0xF) < 16,
{
}

/// Appends the hexadecimal digit for `d` to `buf`.
fn push_hex_char(buf: &mut String, d: u64)
    requires
        d < 16,
    ensures
        final(buf)@ == old(buf)@.push(hex_char_of(d as nat)),
{
    if d == 0 {
        buf.append("0");
        proof {
            reveal_strlit("0");
            assert(final(buf)@ =~= old(buf)@.push(hex_char_of(d as nat)));
        }
    } else if d == 1 {
        buf.append("1");
        proof {
            reveal_strlit("1");
            assert(final(buf)@ =~= old(buf)@.push(hex_char_of(d as nat)));
        }
    } else if d == 2 {
        buf.append("2");
        proof {
            reveal_strlit("2");
            assert(final(buf)@ =~= old(buf)@.push(hex_char_of(d as nat)));
        }
    } else if d == 3 {
        buf.append("3");
        proof {
            reveal_strlit("3");
            assert(final(buf)@ =~= old(buf)@.push(hex_char_of(d as nat)));
        }
    } else if d == 4 {
        buf.append("4");
        proof {
            reveal_strlit("4");
            assert(final(buf)@ =~= old(buf)@.push(hex_char_of(d as nat)));
        }
    } else if d == 5 {
        buf.append("5");
        proof {
            reveal_strlit("5");
            assert(final(buf)@ =~= old(buf)@.push(hex_char_of(d as nat)));
        }
    } else if d == 6 {
        buf.append("6");
        proof {
            reveal_strlit("6");
            assert(final(buf)@ =~= old(buf)@.push(hex_char_of(d as nat)));
        }
    } else if d == 7 {
        buf.append("7");
        proof {
            reveal_strlit("7");
            assert(final(buf)@ =~= old(buf)@.push(hex_char_of(d as nat)));
        }
    } else if d == 8 {
        buf.append("8");
        proof {
            reveal_strlit("8");
            assert(final(buf)@ =~= old(buf)@.push(hex_char_of(d as nat)));
        }
    } else if d == 9 {
        buf.append("9");
        proof {
            reveal_strlit("9");
            assert(final(buf)@ =~= old(buf)@.push(hex_char_of(d as nat)));
        }
    } else if d == 10 {
        buf.append("A");
        proof {
            reveal_strlit("A");
            assert(final(buf)@ =~= old(buf)@.push(hex_char_of(d as nat)));
        }
    } else if d == 11 {
        buf.append("B");
        proof {
            reveal_strlit("B");
            assert(final(buf)@ =~= old(buf)@.push(hex_char_of(d as nat)));
        }
    } else if d == 12 {
        buf.append("C");
        proof {
            reveal_strlit("C");
            assert(final(buf)@ =~= old(buf)@.push(hex_char_of(d as nat)));
        }
    } else if d == 13 {
        buf.append("D");
        proof {
            reveal_strlit("D");
            assert(final(buf)@ =~= old(buf)@.push(hex_char_of(d as nat)));
        }
    } else if d == 14 {
        buf.append("E");
        proof {
            reveal_strlit("E");
            assert(final(buf)@ =~= old(buf)@.push(hex_char_of(d as nat)));
        }
    } else {
        buf.append("F");
        proof {
            reveal_strlit("F");
            assert(final(buf)@ =~= old(buf)@.push(hex_char_of(d as nat)));
        }
    }
}

/// Reads one character as a hexadecimal digit, upper or lower case.
fn hex_digit_of(c: char) -> (r: Option<u64>)
    ensures
        r is Some <==> is_hex_digit(c),
        r is Some ==> r->0 == hex_digit_val(c) && r->0 < 16,
{
    let u = c as u32;
    if 48 <= u && u <= 57 {
        Some((u - 48) as u64)
    } else if 65 <= u && u <= 70 {
        Some((u - 55) as u64)
    } else if 97 <= u && u <= 102 {
        Some((u - 87) as u64)
    } else {
        None
    }
}

/// An unsigned integer of exactly `N` 64-bit limbs, `limbs[0]` least
/// significant, representing a value modulo `2^(64*N)`.
#[derive(Clone, Copy, PartialEq, Eq, Debug)]
pub struct BigUint<const N: usize>(pub [u64; N]);

/// The representative width used throughout the tests: 4096 bits.
pub type BigUint4096 = BigUint<64>;

/// Why parsing a hexadecimal string failed.
#[derive(Clone, Copy, PartialEq, Eq, Debug)]
pub enum ParseError {
    /// A character outside `[0-9a-fA-F]` appeared in the digits.
    InvalidHexDigit,
    /// The digits would need more than `N` limbs.
    StringTooLong,
}

/// The first `n` limbs are worth less than `2^(64*n)`.
pub proof fn lemma_prefix_bound(s: Seq<u64>, n: nat)
    requires
        n <= s.len(),
    ensures
        limbs_val_prefix(s, n) < pow2((64 * n) as nat),
    decreases n,
{
    if n == 0 {
        lemma_pow2_pos(0);
    } else {
        let m = (n - 1) as nat;
        lemma_prefix_bound(s, m);
        lemma_pow2_adds((64 * m) as nat, 64);
        lemma2_to64();
        lemma2_to64_rest();
        let p = pow2((64 * m) as nat) as int;
        assert(s[n - 1] * p <= (pow2(64) - 1) * p) by {
            lemma_mul_inequality(s[n - 1] as int, pow2(64) - 1, p);
        }
        assert((pow2(64) - 1) * p + p == pow2(64) * p) by {
            lemma_mul_is_distributive_add_other_way(p, pow2(64) - 1, 1);
        }
    }
}

/// The prefix value only depends on the first `n` limbs.
pub proof fn lemma_prefix_congruence(s1: Seq<u64>, s2: Seq<u64>, n: nat)
    requires
        n <= s1.len(),
        n <= s2.len(),
        forall|j: int| 0 <= j < n ==> s1[j] == s2[j],
    ensures
        limbs_val_prefix(s1, n) == limbs_val_prefix(s2, n),
    decreases n,
{
    if n > 0 {
        lemma_prefix_congruence(s1, s2, (n - 1) as nat);
    }
}

/// A prefix of zero limbs is worth zero.
pub proof fn lemma_prefix_zero(s: Seq<u64>, n: nat)
    requires
        n <= s.len(),
        forall|j: int| 0 <= j < n ==> s[j] == 0,
    ensures
        limbs_val_prefix(s, n) == 0,
    decreases n,
{
    if n > 0 {
        lemma_prefix_zero(s, (n - 1) as nat);
    }
}

/// If only limb 0 may be non-zero, the value is that limb.
pub proof fn lemma_prefix_single(s: Seq<u64>, n: nat)
    requires
        1 <= n <= s.len(),
        forall|j: int| 1 <= j < n ==> s[j] == 0,
    ensures
        limbs_val_prefix(s, n) == s[0],
    decreases n,
{
    lemma2_to64();
    if n == 1 {
        assert(limbs_val_prefix(s, 1) == limbs_val_prefix(s, 0) + s[0] * pow2(0));
    } else {
        lemma_prefix_single(s, (n - 1) as nat);
    }
}

/// All-ones limbs represent `2^(64*n) - 1`.
pub proof fn lemma_prefix_ones(s: Seq<u64>, n: nat)
    requires
        n <= s.len(),
        forall|j: int| 0 <= j < n ==> s[j] == u64::MAX,
    ensures
        limbs_val_prefix(s, n) == pow2((64 * n) as nat) - 1,
    decreases n,
{
    lemma2_to64();
    lemma2_to64_rest();
    if n == 0 {
    } else {
        let m = (n - 1) as nat;
        lemma_prefix_ones(s, m);
        lemma_pow2_adds((64 * m) as nat, 64);
        let p = pow2((64 * m) as nat) as int;
        assert((pow2(64) - 1) * p + p == pow2(64) * p) by {
            lemma_mul_is_distributive_add_other_way(p, pow2(64) - 1, 1);
        }
        assert(s[n - 1] * p == (pow2(64) - 1) * p);
    }
}

/// Equal values mean equal limbs: the base-`2^64` digits of a number are
/// unique.
pub proof fn lemma_prefix_injective(s1: Seq<u64>, s2: Seq<u64>, n: nat)
    requires
        n <= s1.len(),
        n <= s2.len(),
        limbs_val_prefix(s1, n) == limbs_val_prefix(s2, n),
    ensures
        forall|j: int| 0 <= j < n ==> s1[j] == s2[j],
    decreases n,
{
    if n > 0 {
        let m = (n - 1) as nat;
        let p = pow2((64 * m) as nat) as int;
        lemma_pow2_pos((64 * m) as nat);
        lemma_prefix_bound(s1, m);
        lemma_prefix_bound(s2, m);
        let v = limbs_val_prefix(s1, n) as int;
        lemma_fundamental_div_mod_converse(v, p, s1[n - 1] as int, limbs_val_prefix(s1, m) as int);
        lemma_fundamental_div_mod_converse(v, p, s2[n - 1] as int, limbs_val_prefix(s2, m) as int);
        assert(s1[n - 1] == v / p && s2[n - 1] == v / p);
        assert(limbs_val_prefix(s1, m) == v % p && limbs_val_prefix(s2, m) == v % p);
        lemma_prefix_injective(s1, s2, m);
        assert forall|j: int| 0 <= j < n implies s1[j] == s2[j] by {
            if j < m {
            }
        }
    }
}

/// Splits a 65-bit sum into its low 64 bits and its carry bit.
proof fn lemma_u128_lo_hi(x: u128)
    by (bit_vector)
    ensures
        x == (x as u64) + ((x >> 64) as u64) * 0x10000000000000000,
        x < 0x20000000000000000 ==> ((x >> 64) as u64) <= 1,
        (x >> 64) < 0x10000000000000000,
{
}

/// Rewriting one limb changes the prefix value by the weighted difference.
pub proof fn lemma_prefix_update(s: Seq<u64>, n: nat, k: int, x: u64)
    requires
        0 <= k < n,
        n <= s.len(),
    ensures
        limbs_val_prefix(s.update(k, x), n) as int == limbs_val_prefix(s, n) + (x - s[k]) * pow2(
            (64 * k) as nat,
        ),
    decreases n,
{
    let t = s.update(k, x);
    let p = pow2((64 * (n - 1)) as nat) as int;
    if k == n - 1 {
        lemma_prefix_congruence(t, s, (n - 1) as nat);
        assert((x as int) * p - (s[k] as int) * p == (x - s[k]) * p) by (nonlinear_arith);
    } else {
        lemma_prefix_update(s, (n - 1) as nat, k, x);
        assert(t[n - 1] == s[n - 1]);
    }
}

/// The whole prefix splits at any point `m` into the low `m` limbs plus
/// `2^(64*m)` times the value of the remaining limbs.
pub proof fn lemma_prefix_split(s: Seq<u64>, m: nat, n: nat)
    requires
        m <= n <= s.len(),
    ensures
        limbs_val_prefix(s, n) == limbs_val_prefix(s, m) + pow2((64 * m) as nat)
            * limbs_val_prefix(s.skip(m as int), (n - m) as nat),
    decreases n - m,
{
    if n == m {
        assert((n - m) as nat == 0);
        assert(limbs_val_prefix(s.skip(m as int), (n - m) as nat) == 0);
        assert(pow2((64 * m) as nat) * limbs_val_prefix(s.skip(m as int), (n - m) as nat) == 0);
        assert(limbs_val_prefix(s, n) == limbs_val_prefix(s, m) + pow2((64 * m) as nat)
            * limbs_val_prefix(s.skip(m as int), (n - m) as nat));
    } else {
        lemma_prefix_split(s, m, (n - 1) as nat);
        let sk = s.skip(m as int);
        let pm = pow2((64 * m) as nat) as int;
        let pr = pow2((64 * (n - 1 - m)) as nat) as int;
        assert(sk[n - 1 - m] == s[n - 1]);
        lemma_pow2_adds((64 * m) as nat, (64 * (n - 1 - m)) as nat);
        let u = limbs_val_prefix(sk, (n - 1 - m) as nat) as int;
        let x = s[n - 1] as int;
        assert(limbs_val_prefix(s, n) == limbs_val_prefix(s, (n - 1) as nat) + s[n - 1] * pow2(
            (64 * (n - 1)) as nat,
        ));
        assert(limbs_val_prefix(sk, (n - m) as nat) == limbs_val_prefix(sk, (n - 1 - m) as nat)
            + sk[n - 1 - m] * pow2((64 * (n - 1 - m)) as nat));
        assert(pm * (u + x * pr) == pm * u + x * (pm * pr)) by (nonlinear_arith);
        assert(pm * pr == pow2((64 * (n - 1)) as nat));
        assert(limbs_val_prefix(s, (n - 1) as nat) == limbs_val_prefix(s, m) + pm * u);
        assert(limbs_val_prefix(s, n) == limbs_val_prefix(s, m) + pm * (u + x * pr));
        vstd::arithmetic::mul::lemma_mul_nonnegative(pm, limbs_val_prefix(sk, (n - m) as nat) as int);
        assert(limbs_val_prefix(s, n) == limbs_val_prefix(s, m) + pm * limbs_val_prefix(
            sk,
            (n - m) as nat,
        ));
    }
}

impl<const N: usize> BigUint<N> {
    /// The mathematical value of this number.
    pub open spec fn as_nat(&self) -> nat {
        limbs_val(self.0@)
    }

    /// Everything is computed modulo `2^(64*N)`.
    pub open spec fn spec_modulus() -> nat {
        pow2((64 * N) as nat)
    }

    /// The value of any `BigUint<N>` lies below the modulus.
    pub proof fn lemma_as_nat_bound(&self)
        ensures
            self.as_nat() < Self::spec_modulus(),
    {
        lemma_prefix_bound(self.0@, N as nat);
    }

    /// Equal values mean equal limb arrays.
    pub proof fn lemma_as_nat_injective(&self, other: &Self)
        requires
            self.as_nat() == other.as_nat(),
        ensures
            self.0@ =~= other.0@,
    {
        lemma_prefix_injective(self.0@, other.0@, N as nat);
    }

    /// The number zero: all limbs clear.
    pub fn zero() -> (r: Self)
        ensures
            r.as_nat() == 0,
            forall|j: int| 0 <= j < N ==> r.0@[j] == 0u64,
    {
        let r = BigUint([0u64; N]);
        proof {
            lemma_prefix_zero(r.0@, N as nat);
        }
        r
    }

    /// The given native value in limb 0, all higher limbs clear.
    pub fn from_native(v: u64) -> (r: Self)
        ensures
            r.as_nat() == v as nat % Self::spec_modulus(),
            N >= 1 ==> r.as_nat() == v,
            N >= 1 ==> r.0@[0] == v,
            forall|j: int| 1 <= j < N ==> r.0@[j] == 0u64,
    {
        let mut a = [0u64; N];
        if N >= 1 {
            a[0] = v;
        }
        let r = BigUint(a);
        proof {
            if N >= 1 {
                lemma_prefix_single(r.0@, N as nat);
                Self::lemma_modulus_at_least_2_64();
                lemma2_to64();
                lemma2_to64_rest();
                lemma_small_mod(v as nat, Self::spec_modulus());
            } else {
                lemma_prefix_zero(r.0@, N as nat);
                lemma2_to64();
                assert(v as nat % 1nat == 0) by (nonlinear_arith);
            }
        }
        r
    }

    /// The number one.
    pub fn one() -> (r: Self)
        ensures
            r.as_nat() == 1nat % Self::spec_modulus(),
            N >= 1 ==> r.as_nat() == 1,
            N >= 1 ==> r.0@[0] == 1u64,
            forall|j: int| 1 <= j < N ==> r.0@[j] == 0u64,
    {
        Self::from_native(1)
    }

    /// The largest representable number: all limbs all-ones.
    pub fn max_value() -> (r: Self)
        ensures
            r.as_nat() == Self::spec_modulus() - 1,
            forall|j: int| 0 <= j < N ==> r.0@[j] == u64::MAX,
    {
        let r = BigUint([u64::MAX; N]);
        proof {
            lemma_prefix_ones(r.0@, N as nat);
        }
        r
    }

    /// For a width of at least one limb the modulus is at least `2^64`.
    proof fn lemma_modulus_at_least_2_64()
        requires
            N >= 1,
        ensures
            Self::spec_modulus() >= pow2(64),
    {
        lemma_pow2_adds(64, (64 * N - 64) as nat);
        lemma_pow2_pos((64 * N - 64) as nat);
        let q = pow2((64 * N - 64) as nat) as int;
        assert(pow2(64) * 1 <= pow2(64) * q) by {
            lemma_mul_inequality(1, q, pow2(64) as int);
            vstd::arithmetic::mul::lemma_mul_is_commutative(pow2(64) as int, q);
        }
    }

    /// Sum modulo `2^(64*N)`: limb-wise addition with carry propagation, the
    /// carry out of the top limb discarded.
    pub fn add(&self, rhs: &Self) -> (r: Self)
        ensures
            r.as_nat() == (self.as_nat() + rhs.as_nat()) % Self::spec_modulus(),
    {
        let mut a = [0u64; N];
        let mut carry: u64 = 0;
        let mut i: usize = 0;
        proof {
            lemma2_to64();
            lemma2_to64_rest();
        }
        while i < N
            invariant
                0 <= i <= N,
                carry <= 1,
                limbs_val_prefix(a@, i as nat) + carry * pow2((64 * i) as nat) == limbs_val_prefix(
                    self.0@,
                    i as nat,
                ) + limbs_val_prefix(rhs.0@, i as nat),
                pow2(64) == 0x10000000000000000,
            decreases N - i,
        {
            let sum: u128 = self.0[i] as u128 + rhs.0[i] as u128 + carry as u128;
            let lo = #[verifier::truncate] (sum as u64);
            let hi = (sum >> 64) as u64;
            proof {
                lemma_u128_lo_hi(sum);
                let p = pow2((64 * i) as nat) as int;
                let olda = a@;
                assert(limbs_val_prefix(olda.update(i as int, lo), (i + 1) as nat)
                    == limbs_val_prefix(olda.update(i as int, lo), i as nat) + lo * p);
                lemma_prefix_congruence(olda.update(i as int, lo), olda, i as nat);
                lemma_pow2_adds((64 * i) as nat, 64);
                // (self[i] + rhs[i] + carry) * p == lo * p + hi * (p * 2^64)
                assert((self.0[i as int] + rhs.0[i as int] + carry) * p == self.0[i as int] * p
                    + rhs.0[i as int] * p + carry * p) by (nonlinear_arith);
                assert((lo + hi * 0x10000000000000000) * p == lo * p + hi * (0x10000000000000000
                    * p)) by (nonlinear_arith);
                assert(hi * (pow2(64) * pow2((64 * i) as nat)) == hi * pow2(
                    (64 * (i + 1)) as nat,
                ));
            }
            a[i] = lo;
            carry = hi;
            i = i + 1;
            proof {
                assert(limbs_val_prefix(a@, i as nat) + carry * pow2((64 * i) as nat)
                    == limbs_val_prefix(self.0@, i as nat) + limbs_val_prefix(rhs.0@, i as nat));
            }
        }
        let r = BigUint(a);
        proof {
            lemma_prefix_bound(r.0@, N as nat);
            lemma_pow2_pos((64 * N) as nat);
            lemma_fundamental_div_mod_converse(
                (self.as_nat() + rhs.as_nat()) as int,
                Self::spec_modulus() as int,
                carry as int,
                r.as_nat() as int,
            );
        }
        r
    }

    /// Difference modulo `2^(64*N)`: limb-wise subtraction with borrow
    /// propagation, a borrow out of the top limb discarded, so the result
    /// wraps: `zero() - one() == max_value()`.
    pub fn sub(&self, rhs: &Self) -> (r: Self)
        ensures
            r.as_nat() as int == (self.as_nat() - rhs.as_nat()) % (Self::spec_modulus() as int),
    {
        let mut a = [0u64; N];
        let mut borrow: u64 = 0;
        let mut i: usize = 0;
        proof {
            lemma2_to64();
            lemma2_to64_rest();
        }
        while i < N
            invariant
                0 <= i <= N,
                borrow <= 1,
                limbs_val_prefix(self.0@, i as nat) - limbs_val_prefix(rhs.0@, i as nat)
                    == limbs_val_prefix(a@, i as nat) - borrow * pow2((64 * i) as nat),
                pow2(64) == 0x10000000000000000,
            decreases N - i,
        {
            let diff: i128 = self.0[i] as i128 - rhs.0[i] as i128 - borrow as i128;
            let lo: u64;
            let nb: u64;
            if diff < 0 {
                lo = (diff + 0x10000000000000000i128) as u64;
                nb = 1;
            } else {
                lo = diff as u64;
                nb = 0;
            }
            proof {
                let p = pow2((64 * i) as nat) as int;
                let olda = a@;
                assert(limbs_val_prefix(olda.update(i as int, lo), (i + 1) as nat)
                    == limbs_val_prefix(olda.update(i as int, lo), i as nat) + lo * p);
                lemma_prefix_congruence(olda.update(i as int, lo), olda, i as nat);
                lemma_pow2_adds((64 * i) as nat, 64);
                // diff == lo - nb * 2^64, so multiply through by p.
                assert((self.0[i as int] - rhs.0[i as int] - borrow) * p == self.0[i as int] * p
                    - rhs.0[i as int] * p - borrow * p) by (nonlinear_arith);
                assert((lo - nb * 0x10000000000000000) * p == lo * p - nb * (0x10000000000000000
                    * p)) by (nonlinear_arith);
                assert(nb * (pow2(64) * pow2((64 * i) as nat)) == nb * pow2((64 * (i + 1)) as nat));
            }
            a[i] = lo;
            borrow = nb;
            i = i + 1;
        }
        let r = BigUint(a);
        proof {
            lemma_prefix_bound(r.0@, N as nat);
            lemma_pow2_pos((64 * N) as nat);
            assert(borrow == 0 || borrow == 1);
            lemma_fundamental_div_mod_converse(
                self.as_nat() - rhs.as_nat(),
                Self::spec_modulus() as int,
                -(borrow as int),
                r.as_nat() as int,
            );
        }
        r
    }

    /// In-place sum: `*self = *self + *rhs`.
    pub fn add_assign(&mut self, rhs: &Self)
        ensures
            final(self).as_nat() == (old(self).as_nat() + rhs.as_nat()) % Self::spec_modulus(),
    {
        *self = self.add(rhs);
    }

    /// In-place difference: `*self = *self - *rhs`.
    pub fn sub_assign(&mut self, rhs: &Self)
        ensures
            final(self).as_nat() as int == (old(self).as_nat() - rhs.as_nat()) % (
            Self::spec_modulus() as int),
    {
        *self = self.sub(rhs);
    }

    /// Product modulo `2^(64*N)`: schoolbook multiplication, limb by limb
    /// with 128-bit intermediate products and carry propagation; partial
    /// products that would exceed `N` limbs are discarded, so the result
    /// agrees with the bit-by-bit shift-and-add description.
    pub fn mul(&self, rhs: &Self) -> (r: Self)
        ensures
            r.as_nat() == (self.as_nat() * rhs.as_nat()) % Self::spec_modulus(),
    {
        let ghost m = Self::spec_modulus() as int;
        let mut a = [0u64; N];
        let mut j: usize = 0;
        proof {
            lemma2_to64();
            lemma2_to64_rest();
            lemma_pow2_pos((64 * N) as nat);
            lemma_prefix_zero(a@, N as nat);
            lemma_small_mod(0, Self::spec_modulus());
            assert(limbs_val_prefix(rhs.0@, 0) == 0);
        }
        while j < N
            invariant
                0 <= j <= N,
                m == Self::spec_modulus() as int,
                m > 0,
                pow2(64) == 0x10000000000000000,
                limbs_val(a@) as int == (self.as_nat() as int * limbs_val_prefix(
                    rhs.0@,
                    j as nat,
                ) as int) % m,
            decreases N - j,
        {
            let bj = rhs.0[j];
            let ghost v0 = limbs_val(a@) as int;
            let mut carry: u64 = 0;
            let mut i: usize = 0;
            proof {
                assert(limbs_val_prefix(self.0@, 0) == 0);
            }
            while i < N - j
                invariant
                    0 <= i <= N - j,
                    j < N,
                    m == Self::spec_modulus() as int,
                    m > 0,
                    pow2(64) == 0x10000000000000000,
                    bj == rhs.0@[j as int],
                    limbs_val_prefix(a@, N as nat) + carry * pow2((64 * (i + j)) as nat) == v0
                        + limbs_val_prefix(self.0@, i as nat) * bj * pow2((64 * j) as nat),
                decreases N - j - i,
            {
                proof {
                    lemma_mul_upper_bound(
                        self.0[i as int] as int,
                        0xFFFFFFFFFFFFFFFF,
                        bj as int,
                        0xFFFFFFFFFFFFFFFF,
                    );
                }
                let t: u128 = self.0[i] as u128 * (bj as u128) + a[i + j] as u128 + carry as u128;
                let lo = #[verifier::truncate] (t as u64);
                proof {
                    lemma_u128_lo_hi(t);
                }
                let hi = (t >> 64) as u64;
                proof {
                    let k = (i + j) as int;
                    let pk = pow2((64 * (i + j)) as nat) as int;
                    let pj = pow2((64 * j) as nat) as int;
                    let pi = pow2((64 * i) as nat) as int;
                    let si = self.0[i as int] as int;
                    let ak = a@[k] as int;
                    let c0 = carry as int;
                    let hi_i = hi as int;
                    let lo_i = lo as int;
                    lemma_prefix_update(a@, N as nat, k, lo);
                    // t == si * bj + ak + c0 and t == lo + hi * 2^64, so the
                    // limb write changes the total by (si*bj + c0 - hi*2^64)*pk.
                    assert((si * (bj as int) + c0 - hi_i * 0x10000000000000000) * pk == si * (
                    bj as int) * pk + c0 * pk - hi_i * (0x10000000000000000 * pk))
                        by (nonlinear_arith);
                    lemma_pow2_adds((64 * (i + j)) as nat, 64);
                    lemma_pow2_adds((64 * i) as nat, (64 * j) as nat);
                    assert(0x10000000000000000 * pk == pk * 0x10000000000000000)
                        by (nonlinear_arith);
                    let pfi = limbs_val_prefix(self.0@, i as nat) as int;
                    assert(limbs_val_prefix(self.0@, (i + 1) as nat) == pfi + si * pi);
                    assert((pfi + si * pi) * (bj as int) * pj == pfi * (bj as int) * pj + si * (
                    bj as int) * (pi * pj)) by (nonlinear_arith);
                    assert(si * (bj as int) * (pi * pj) == si * (bj as int) * pk);
                }
                a[i + j] = lo;
                carry = hi;
                i = i + 1;
            }
            proof {
                let pj = pow2((64 * j) as nat) as int;
                let pnj = pow2((64 * (N - j)) as nat) as int;
                let pfn = limbs_val_prefix(self.0@, (N - j) as nat) as int;
                let av = limbs_val_prefix(a@, N as nat) as int;
                let big_a = self.as_nat() as int;
                lemma_prefix_split(self.0@, (N - j) as nat, N as nat);
                let tail = limbs_val_prefix(self.0@.skip((N - j) as int), j as nat) as int;
                assert(big_a == pfn + pnj * tail);
                lemma_pow2_adds((64 * (N - j)) as nat, (64 * j) as nat);
                assert(pnj * pj == m);
                assert((big_a - pnj * tail) * (bj as int) * pj == big_a * (bj as int) * pj - tail
                    * (bj as int) * (pnj * pj)) by (nonlinear_arith);
                // av == v0 + A*bj*pj - (tail*bj + carry)*m; multiples of m vanish.
                assert(m * (tail * (bj as int) + carry) == tail * (bj as int) * m + carry * m)
                    by (nonlinear_arith);
                assert(m * (-(tail * (bj as int) + carry)) == -(m * (tail * (bj as int) + carry)))
                    by (nonlinear_arith);
                lemma_mod_multiples_vanish(
                    -(tail * (bj as int) + carry as int),
                    v0 + big_a * (bj as int) * pj,
                    m,
                );
                assert(av % m == (v0 + big_a * (bj as int) * pj) % m);
                // fold v0 back to the running product.
                let prev = big_a * limbs_val_prefix(rhs.0@, j as nat) as int;
                lemma_prefix_bound(a@, N as nat);
                lemma_small_mod(limbs_val_prefix(a@, N as nat), Self::spec_modulus());
                lemma_add_mod_noop_right(big_a * (bj as int) * pj, prev, m);
                assert(limbs_val_prefix(rhs.0@, (j + 1) as nat) == limbs_val_prefix(
                    rhs.0@,
                    j as nat,
                ) + (bj as int) * pj);
                let pfxj = limbs_val_prefix(rhs.0@, j as nat) as int;
                assert(big_a * (pfxj + (bj as int) * pj) == big_a * pfxj + big_a * ((bj as int)
                    * pj)) by (nonlinear_arith);
                assert(big_a * ((bj as int) * pj) == big_a * (bj as int) * pj)
                    by (nonlinear_arith);
            }
            j = j + 1;
        }
        let r = BigUint(a);
        r
    }

    /// In-place product: `*self = *self * *rhs`.
    pub fn mul_assign(&mut self, rhs: &Self)
        ensures
            final(self).as_nat() == (old(self).as_nat() * rhs.as_nat()) % Self::spec_modulus(),
    {
        *self = self.mul(rhs);
    }

    /// Limb-wise bitwise AND.
    pub fn and(&self, rhs: &Self) -> (r: Self)
        ensures
            forall|j: int| 0 <= j < N ==> r.0@[j] == (self.0@[j] & rhs.0@[j]),
    {
        let mut a = [0u64; N];
        let mut i: usize = 0;
        while i < N
            invariant
                0 <= i <= N,
                forall|j: int| 0 <= j < i ==> a@[j] == (self.0@[j] & rhs.0@[j]),
            decreases N - i,
        {
            a[i] = self.0[i] & rhs.0[i];
            i = i + 1;
        }
        BigUint(a)
    }

    /// Limb-wise bitwise OR.
    pub fn or(&self, rhs: &Self) -> (r: Self)
        ensures
            forall|j: int| 0 <= j < N ==> r.0@[j] == (self.0@[j] | rhs.0@[j]),
    {
        let mut a = [0u64; N];
        let mut i: usize = 0;
        while i < N
            invariant
                0 <= i <= N,
                forall|j: int| 0 <= j < i ==> a@[j] == (self.0@[j] | rhs.0@[j]),
            decreases N - i,
        {
            a[i] = self.0[i] | rhs.0[i];
            i = i + 1;
        }
        BigUint(a)
    }

    /// Limb-wise bitwise XOR.
    pub fn xor(&self, rhs: &Self) -> (r: Self)
        ensures
            forall|j: int| 0 <= j < N ==> r.0@[j] == (self.0@[j] ^ rhs.0@[j]),
    {
        let mut a = [0u64; N];
        let mut i: usize = 0;
        while i < N
            invariant
                0 <= i <= N,
                forall|j: int| 0 <= j < i ==> a@[j] == (self.0@[j] ^ rhs.0@[j]),
            decreases N - i,
        {
            a[i] = self.0[i] ^ rhs.0[i];
            i = i + 1;
        }
        BigUint(a)
    }

    /// Limb-wise complement of every limb, currently-zero high limbs
    /// included.
    pub fn not(&self) -> (r: Self)
        ensures
            forall|j: int| 0 <= j < N ==> r.0@[j] == !self.0@[j],
    {
        let mut a = [0u64; N];
        let mut i: usize = 0;
        while i < N
            invariant
                0 <= i <= N,
                forall|j: int| 0 <= j < i ==> a@[j] == !self.0@[j],
            decreases N - i,
        {
            a[i] = !self.0[i];
            i = i + 1;
        }
        BigUint(a)
    }

    /// Shift left by `sh` bits; bits pushed past the top limb are lost, and
    /// any `sh >= 64*N` yields zero.
    pub fn shl(&self, sh: usize) -> (r: Self)
        ensures
            r.0@ == shl_limbs(self.0@, sh as nat),
            r.as_nat() as int == (self.as_nat() as int * pow2(sh as nat) as int) % (
            Self::spec_modulus() as int),
    {
        proof {
            lemma_shl_val_seq(self.0@, sh as nat);
        }
        let ls = sh / 64;
        let bs = sh % 64;
        if ls >= N {
            let r = Self::zero();
            proof {
                assert(r.0@ =~= shl_limbs(self.0@, sh as nat));
            }
            return r;
        }
        let mut a = [0u64; N];
        let mut i: usize = ls;
        while i < N
            invariant
                ls <= i <= N,
                ls == sh / 64 < N,
                bs == sh % 64,
                forall|j: int| 0 <= j < i ==> a@[j] == shl_limbs(self.0@, sh as nat)[j],
            decreases N - i,
        {
            let src = self.0[i - ls];
            if bs == 0 {
                a[i] = src;
            } else if i - ls >= 1 {
                a[i] = (src << bs as u64) | (self.0[i - ls - 1] >> (64 - bs) as u64);
            } else {
                a[i] = src << bs as u64;
            }
            i = i + 1;
        }
        let r = BigUint(a);
        proof {
            assert(r.0@ =~= shl_limbs(self.0@, sh as nat));
        }
        r
    }

    /// Shift right by `sh` bits; bits pushed past limb 0 are lost, and any
    /// `sh >= 64*N` yields zero.
    pub fn shr(&self, sh: usize) -> (r: Self)
        ensures
            r.0@ == shr_limbs(self.0@, sh as nat),
            r.as_nat() as int == self.as_nat() as int / (pow2(sh as nat) as int),
    {
        proof {
            lemma_shr_val_seq(self.0@, sh as nat);
        }
        let ls = sh / 64;
        let bs = sh % 64;
        if ls >= N {
            let r = Self::zero();
            proof {
                assert(r.0@ =~= shr_limbs(self.0@, sh as nat));
            }
            return r;
        }
        let mut a = [0u64; N];
        let mut i: usize = 0;
        while i < N - ls
            invariant
                0 <= i <= N - ls,
                ls == sh / 64 < N,
                bs == sh % 64,
                forall|j: int| 0 <= j < i ==> a@[j] == shr_limbs(self.0@, sh as nat)[j],
                forall|j: int| i <= j < N ==> a@[j] == 0u64,
            decreases N - ls - i,
        {
            let src = self.0[i + ls];
            if bs == 0 {
                a[i] = src;
            } else if i < N - ls - 1 {
                a[i] = (src >> bs as u64) | (self.0[i + ls + 1] << (64 - bs) as u64);
            } else {
                a[i] = src >> bs as u64;
            }
            i = i + 1;
        }
        let r = BigUint(a);
        proof {
            assert(r.0@ =~= shr_limbs(self.0@, sh as nat));
        }
        r
    }

    /// Renders the value as its canonical big-endian hexadecimal string:
    /// exactly `16*N` upper-case digits, most significant limb first, each
    /// limb zero-padded to sixteen digits.
    pub fn to_hex_be(&self) -> (r: String)
        ensures
            r@ == hex_of_limbs(self.0@),
            r@.len() == 16 * N,
    {
        let mut buf = String::new();
        let mut k: usize = N;
        proof {
            assert(self.0@.subrange(N as int, N as int) =~= Seq::<u64>::empty());
            assert(buf@ =~= hex_of_limbs(self.0@.subrange(N as int, N as int)));
        }
        while k > 0
            invariant
                0 <= k <= N,
                buf@ == hex_of_limbs(self.0@.subrange(k as int, N as int)),
            decreases k,
        {
            k = k - 1;
            let limb = self.0[k];
            let ghost hi_part = buf@;
            let mut mpos: usize = 0;
            while mpos < 16
                invariant
                    0 <= mpos <= 16,
                    k < N,
                    limb == self.0@[k as int],
                    hi_part == hex_of_limbs(self.0@.subrange(k as int + 1, N as int)),
                    buf@ == hi_part + limb_hex(limb).subrange(0, mpos as int),
                decreases 16 - mpos,
            {
                let sh: u64 = (4 * (15 - mpos)) as u64;
                let d = (limb >> sh) & 0xF;
                proof {
                    lemma_nibble_bound(limb, sh);
                }
                push_hex_char(&mut buf, d);
                proof {
                    assert(limb_hex(limb)[mpos as int] == hex_char_of(d as nat));
                    assert(limb_hex(limb).subrange(0, mpos + 1) =~= limb_hex(limb).subrange(
                        0,
                        mpos as int,
                    ).push(hex_char_of(d as nat)));
                    assert(buf@ =~= hi_part + limb_hex(limb).subrange(0, mpos + 1));
                }
                mpos = mpos + 1;
            }
            proof {
                let s = self.0@;
                let u = s.subrange(k as int, N as int);
                lemma_hex_of_limbs_low(u);
                assert(u.skip(1) =~= s.subrange(k as int + 1, N as int));
                assert(limb_hex(limb).subrange(0, 16) =~= limb_hex(limb));
                assert(buf@ =~= hex_of_limbs(u));
            }
        }
        proof {
            assert(self.0@.subrange(0, N as int) =~= self.0@);
            lemma_hex_of_limbs_len(self.0@);
        }
        buf
    }

    /// Renders the value as `0x` followed by its canonical hexadecimal form.
    pub fn to_hex_prefixed(&self) -> (r: String)
        ensures
            r@ == seq!['0', 'x'] + hex_of_limbs(self.0@),
    {
        let mut buf = String::from_str("0x");
        let digits = self.to_hex_be();
        buf.append(digits.as_str());
        proof {
            reveal_strlit("0x");
            assert(buf@ =~= seq!['0', 'x'] + hex_of_limbs(self.0@));
        }
        buf
    }

    /// Parses a big-endian hexadecimal string, an optional `0x`/`0X` prefix
    /// stripped.  A string shorter than the full width is zero-extended on
    /// the left; one needing more than `N` limbs is rejected as
    /// `StringTooLong`, and any character outside `[0-9a-fA-F]` as
    /// `InvalidHexDigit`.
    pub fn from_hex_be(s: &str) -> (r: Result<Self, ParseError>)
        ensures
            ({
                let t = strip_hex_prefix(s@);
                &&& (t.len() > 16 * N ==> r == Err::<Self, ParseError>(ParseError::StringTooLong))
                &&& (t.len() <= 16 * N && (exists|i: int|
                    0 <= i < t.len() && !is_hex_digit(t[i])) ==> r == Err::<Self, ParseError>(
                    ParseError::InvalidHexDigit,
                ))
                &&& (t.len() <= 16 * N && (forall|i: int|
                    0 <= i < t.len() ==> is_hex_digit(t[i])) ==> r is Ok && r->Ok_0.as_nat()
                    == hex_val(t))
            }),
    {
        let len = s.unicode_len();
        let start: usize = if len >= 2 {
            let c0 = s.get_char(0);
            let c1 = s.get_char(1);
            if c0 == '0' && (c1 == 'x' || c1 == 'X') {
                2
            } else {
                0
            }
        } else {
            0
        };
        let ghost t = strip_hex_prefix(s@);
        proof {
            assert(t =~= s@.subrange(start as int, len as int));
        }
        let digits = len - start;
        if digits / 16 > N || (digits / 16 == N && digits % 16 > 0) {
            proof {
                vstd::arithmetic::div_mod::lemma_fundamental_div_mod(digits as int, 16);
            }
            return Err(ParseError::StringTooLong);
        }
        proof {
            vstd::arithmetic::div_mod::lemma_fundamental_div_mod(digits as int, 16);
            assert(digits <= 16 * N) by (nonlinear_arith)
                requires
                    digits as int == 16 * (digits as int / 16) + (digits as int % 16),
                    0 <= digits as int % 16 < 16,
                    digits as int / 16 <= N as int,
                    digits as int / 16 == N as int ==> digits as int % 16 == 0,
            ;
        }
        let sixteen = Self::from_native(16);
        let mut acc = Self::zero();
        let mut idx: usize = start;
        while idx < len
            invariant
                start <= idx <= len,
                len == s@.len(),
                digits == len - start,
                digits <= 16 * N,
                t == strip_hex_prefix(s@),
                t =~= s@.subrange(start as int, len as int),
                sixteen.as_nat() == 16nat % Self::spec_modulus(),
                N >= 1 ==> sixteen.as_nat() == 16,
                forall|i: int| 0 <= i < idx - start ==> is_hex_digit(t[i]),
                acc.as_nat() == hex_val(t.subrange(0, idx - start)),
            decreases len - idx,
        {
            let c = s.get_char(idx);
            let d = match hex_digit_of(c) {
                Some(d) => d,
                None => {
                    proof {
                        assert(t[idx - start] == c);
                        assert(!is_hex_digit(t[idx - start]));
                    }
                    return Err(ParseError::InvalidHexDigit);
                },
            };
            proof {
                assert(N >= 1) by {
                    assert(idx < len);
                    assert(digits >= 1);
                }
            }
            let ghost pfx = t.subrange(0, idx - start);
            let ghost m_val = Self::spec_modulus();
            proof {
                lemma_hex_val_bound(pfx);
                assert(pfx.len() <= 16 * N - 1);
                lemma_pow2_pos((4 * pfx.len()) as nat);
                // 16 * hex_val(pfx) + d stays below the modulus.
                lemma_pow2_adds((4 * pfx.len()) as nat, 4);
                lemma2_to64();
                let p = pow2((4 * pfx.len()) as nat) as int;
                assert(16 * (hex_val(pfx) as int) <= 16 * (p - 1)) by (nonlinear_arith)
                    requires
                        hex_val(pfx) as int <= p - 1,
                ;
                if 4 * pfx.len() + 4 < 64 * N {
                    vstd::arithmetic::power2::lemma_pow2_strictly_increases(
                        (4 * pfx.len() + 4) as nat,
                        (64 * N) as nat,
                    );
                }
                assert(16 * hex_val(pfx) + 15 < m_val);
                lemma_small_mod((16 * hex_val(pfx)) as nat, m_val);
                lemma_small_mod((16 * hex_val(pfx) + d) as nat, m_val);
            }
            acc = acc.mul(&sixteen);
            acc = acc.add(&Self::from_native(d));
            proof {
                assert(t.subrange(0, idx - start + 1) =~= pfx.push(t[idx - start]));
                assert(t[idx - start] == c);
                let w = t.subrange(0, idx - start + 1);
                assert(w.drop_last() =~= pfx);
                assert(hex_val(w) == 16 * hex_val(pfx) + hex_digit_val(c));
            }
            idx = idx + 1;
        }
        proof {
            assert(t.subrange(0, digits as int) =~= t);
        }
        Ok(acc)
    }
    pub fn and_assign(&mut self, rhs: &Self)
        ensures
            forall|j: int| 0 <= j < N ==> final(self).0@[j] == (old(self).0@[j] & rhs.0@[j]),
    {
        *self = self.and(rhs);
    }

    /// In-place bitwise OR.
    pub fn or_assign(&mut self, rhs: &Self)
        ensures
            forall|j: int| 0 <= j < N ==> final(self).0@[j] == (old(self).0@[j] | rhs.0@[j]),
    {
        *self = self.or(rhs);
    }

    /// In-place bitwise XOR.
    pub fn xor_assign(&mut self, rhs: &Self)
        ensures
            forall|j: int| 0 <= j < N ==> final(self).0@[j] == (old(self).0@[j] ^ rhs.0@[j]),
    {
        *self = self.xor(rhs);
    }

    /// In-place complement.
    pub fn not_assign(&mut self)
        ensures
            forall|j: int| 0 <= j < N ==> final(self).0@[j] == !old(self).0@[j],
    {
        *self = self.not();
    }

    /// Round trip: the canonical hexadecimal form of a value has exactly
    /// `16*N` characters, all hexadecimal digits, carries no prefix to strip,
    /// and is worth exactly the value, so parsing it yields the value back.
    pub proof fn lemma_hex_round_trip(v: Self)
        ensures
            hex_of_limbs(v.0@).len() == 16 * N,
            strip_hex_prefix(hex_of_limbs(v.0@)) == hex_of_limbs(v.0@),
            forall|i: int| 0 <= i < 16 * N ==> is_hex_digit(#[trigger] hex_of_limbs(v.0@)[i]),
            hex_val(hex_of_limbs(v.0@)) == v.as_nat(),
    {
        lemma_hex_of_limbs_len(v.0@);
        lemma_hex_of_limbs_digits(v.0@);
        lemma_hex_of_limbs_val(v.0@);
        let h = hex_of_limbs(v.0@);
        if h.len() >= 2 {
            assert(is_hex_digit(h[1]));
            assert(h[1] != 'x' && h[1] != 'X') by {
                if h[1] == 'x' {
                    assert(h[1] as u32 == 120);
                }
                if h[1] == 'X' {
                    assert(h[1] as u32 == 88);
                }
            }
        }
    }

    /// Additive wraparound: `max_value() + one() == zero()`.
    pub proof fn lemma_additive_wraparound(m: Self, o: Self, r: Self)
        requires
            m.as_nat() == Self::spec_modulus() - 1,
            o.as_nat() == 1nat % Self::spec_modulus(),
            r.as_nat() == (m.as_nat() + o.as_nat()) % Self::spec_modulus(),
        ensures
            r.as_nat() == 0,
            forall|j: int| 0 <= j < N ==> r.0@[j] == 0u64,
    {
        let md = Self::spec_modulus();
        lemma_pow2_pos((64 * N) as nat);
        if md == 1 {
            lemma_small_mod(0, md);
        } else {
            lemma_small_mod(1, md);
            lemma_fundamental_div_mod_converse(md as int, md as int, 1, 0);
        }
        let z = Seq::<u64>::new(N as nat, |j: int| 0u64);
        lemma_prefix_zero(z, N as nat);
        lemma_prefix_injective(r.0@, z, N as nat);
    }

    /// Subtractive wraparound: `zero() - one() == max_value()`.
    pub proof fn lemma_subtractive_wraparound(z: Self, o: Self, r: Self)
        requires
            z.as_nat() == 0,
            o.as_nat() == 1nat % Self::spec_modulus(),
            r.as_nat() as int == (z.as_nat() - o.as_nat()) % (Self::spec_modulus() as int),
        ensures
            r.as_nat() == Self::spec_modulus() - 1,
            forall|j: int| 0 <= j < N ==> r.0@[j] == u64::MAX,
    {
        let md = Self::spec_modulus() as int;
        lemma_pow2_pos((64 * N) as nat);
        if md == 1 {
            lemma_small_mod(0, Self::spec_modulus());
        } else {
            lemma_small_mod(1, Self::spec_modulus());
            lemma_fundamental_div_mod_converse(-1, md, -1, md - 1);
        }
        let ones = Seq::<u64>::new(N as nat, |j: int| u64::MAX);
        lemma_prefix_ones(ones, N as nat);
        lemma_prefix_injective(r.0@, ones, N as nat);
    }

    /// Additive inverse: for all `a`, `b`: `(a + b) - b == a`.
    pub proof fn lemma_add_sub_inverse(a: Self, b: Self, s: Self, r: Self)
        requires
            s.as_nat() == (a.as_nat() + b.as_nat()) % Self::spec_modulus(),
            r.as_nat() as int == (s.as_nat() - b.as_nat()) % (Self::spec_modulus() as int),
        ensures
            r.as_nat() == a.as_nat(),
            r.0@ =~= a.0@,
    {
        let md = Self::spec_modulus() as int;
        lemma_pow2_pos((64 * N) as nat);
        let x = a.as_nat() + b.as_nat();
        let y = b.as_nat() as int;
        vstd::arithmetic::div_mod::lemma_sub_mod_noop(x as int, y, md);
        b.lemma_as_nat_bound();
        lemma_small_mod(b.as_nat(), Self::spec_modulus());
        a.lemma_as_nat_bound();
        lemma_small_mod(a.as_nat(), Self::spec_modulus());
        assert((x - y) % md == a.as_nat() as int % md);
        lemma_prefix_injective(r.0@, a.0@, N as nat);
    }

    /// Addition is commutative modulo `2^(64*N)`.
    pub proof fn lemma_add_commutative(a: Self, b: Self, r1: Self, r2: Self)
        requires
            r1.as_nat() == (a.as_nat() + b.as_nat()) % Self::spec_modulus(),
            r2.as_nat() == (b.as_nat() + a.as_nat()) % Self::spec_modulus(),
        ensures
            r1.as_nat() == r2.as_nat(),
            r1.0@ =~= r2.0@,
    {
        lemma_prefix_injective(r1.0@, r2.0@, N as nat);
    }

    /// Addition is associative modulo `2^(64*N)`.
    pub proof fn lemma_add_associative(a: Self, b: Self, c: Self, ab: Self, bc: Self, l: Self, r: Self)
        requires
            ab.as_nat() == (a.as_nat() + b.as_nat()) % Self::spec_modulus(),
            bc.as_nat() == (b.as_nat() + c.as_nat()) % Self::spec_modulus(),
            l.as_nat() == (ab.as_nat() + c.as_nat()) % Self::spec_modulus(),
            r.as_nat() == (a.as_nat() + bc.as_nat()) % Self::spec_modulus(),
        ensures
            l.as_nat() == r.as_nat(),
            l.0@ =~= r.0@,
    {
        let md = Self::spec_modulus() as int;
        lemma_pow2_pos((64 * N) as nat);
        let an = a.as_nat() as int;
        let bn = b.as_nat() as int;
        let cn = c.as_nat() as int;
        c.lemma_as_nat_bound();
        lemma_small_mod(c.as_nat(), Self::spec_modulus());
        a.lemma_as_nat_bound();
        lemma_small_mod(a.as_nat(), Self::spec_modulus());
        vstd::arithmetic::div_mod::lemma_add_mod_noop(an + bn, cn, md);
        vstd::arithmetic::div_mod::lemma_add_mod_noop(an, bn + cn, md);
        assert(l.as_nat() as int == (an + bn + cn) % md);
        assert(r.as_nat() as int == (an + (bn + cn)) % md);
        lemma_prefix_injective(l.0@, r.0@, N as nat);
    }

    /// The limb-wise boolean operators are commutative.
    pub proof fn lemma_bitwise_commutative(a: Self, b: Self)
        ensures
            forall|j: int|
                0 <= j < N ==> #[trigger] (a.0@[j] & b.0@[j]) == (b.0@[j] & a.0@[j]),
            forall|j: int|
                0 <= j < N ==> #[trigger] (a.0@[j] | b.0@[j]) == (b.0@[j] | a.0@[j]),
            forall|j: int|
                0 <= j < N ==> #[trigger] (a.0@[j] ^ b.0@[j]) == (b.0@[j] ^ a.0@[j]),
    {
        assert forall|j: int| 0 <= j < N implies #[trigger] (a.0@[j] & b.0@[j]) == (b.0@[j]
            & a.0@[j]) by {
            lemma_u64_bitwise_laws(a.0@[j], b.0@[j], 0);
        }
        assert forall|j: int| 0 <= j < N implies #[trigger] (a.0@[j] | b.0@[j]) == (b.0@[j]
            | a.0@[j]) by {
            lemma_u64_bitwise_laws(a.0@[j], b.0@[j], 0);
        }
        assert forall|j: int| 0 <= j < N implies #[trigger] (a.0@[j] ^ b.0@[j]) == (b.0@[j]
            ^ a.0@[j]) by {
            lemma_u64_bitwise_laws(a.0@[j], b.0@[j], 0);
        }
    }

    /// The limb-wise boolean operators are associative.
    pub proof fn lemma_bitwise_associative(a: Self, b: Self, c: Self)
        ensures
            forall|j: int|
                0 <= j < N ==> #[trigger] ((a.0@[j] & b.0@[j]) & c.0@[j]) == (a.0@[j] & (b.0@[j]
                    & c.0@[j])),
            forall|j: int|
                0 <= j < N ==> #[trigger] ((a.0@[j] | b.0@[j]) | c.0@[j]) == (a.0@[j] | (b.0@[j]
                    | c.0@[j])),
            forall|j: int|
                0 <= j < N ==> #[trigger] ((a.0@[j] ^ b.0@[j]) ^ c.0@[j]) == (a.0@[j] ^ (b.0@[j]
                    ^ c.0@[j])),
    {
        assert forall|j: int| 0 <= j < N implies #[trigger] ((a.0@[j] & b.0@[j]) & c.0@[j]) == (
        a.0@[j] & (b.0@[j] & c.0@[j])) by {
            lemma_u64_bitwise_laws(a.0@[j], b.0@[j], c.0@[j]);
        }
        assert forall|j: int| 0 <= j < N implies #[trigger] ((a.0@[j] | b.0@[j]) | c.0@[j]) == (
        a.0@[j] | (b.0@[j] | c.0@[j])) by {
            lemma_u64_bitwise_laws(a.0@[j], b.0@[j], c.0@[j]);
        }
        assert forall|j: int| 0 <= j < N implies #[trigger] ((a.0@[j] ^ b.0@[j]) ^ c.0@[j]) == (
        a.0@[j] ^ (b.0@[j] ^ c.0@[j])) by {
            lemma_u64_bitwise_laws(a.0@[j], b.0@[j], c.0@[j]);
        }
    }

    /// De Morgan's law: `not(a) & not(b) == not(a | b)`, limb by limb.
    pub proof fn lemma_de_morgan(a: Self, b: Self)
        ensures
            forall|j: int|
                0 <= j < N ==> #[trigger] (!a.0@[j] & !b.0@[j]) == !(a.0@[j] | b.0@[j]),
    {
        assert forall|j: int| 0 <= j < N implies #[trigger] (!a.0@[j] & !b.0@[j]) == !(a.0@[j]
            | b.0@[j]) by {
            lemma_u64_bitwise_laws(a.0@[j], b.0@[j], 0);
        }
    }

    /// Shifting by zero returns the value unchanged.
    pub proof fn lemma_shift_by_zero(v: Self)
        ensures
            shl_limbs(v.0@, 0) =~= v.0@,
            shr_limbs(v.0@, 0) =~= v.0@,
    {
    }

    /// Shifting by the full width or more yields zero.
    pub proof fn lemma_shift_full_width(v: Self, sh: nat)
        requires
            sh >= 64 * N,
        ensures
            forall|j: int| 0 <= j < N ==> shl_limbs(v.0@, sh)[j] == 0u64,
            forall|j: int| 0 <= j < N ==> shr_limbs(v.0@, sh)[j] == 0u64,
    {
        assert(sh / 64 >= N) by {
            vstd::arithmetic::div_mod::lemma_div_is_ordered(64 * N as int, sh as int, 64);
            vstd::arithmetic::div_mod::lemma_div_multiples_vanish(N as int, 64);
        }
    }

    /// A left shift multiplies the value by `2^sh` modulo `2^(64*N)`.
    pub proof fn lemma_shl_value(v: Self, sh: nat)
        ensures
            limbs_val(shl_limbs(v.0@, sh)) as int == (v.as_nat() as int * pow2(sh) as int) % (
            Self::spec_modulus() as int),
    {
        lemma_shl_val_seq(v.0@, sh);
    }

    /// A right shift divides the value by `2^sh`, discarding the low bits.
    pub proof fn lemma_shr_value(v: Self, sh: nat)
        ensures
            limbs_val(shr_limbs(v.0@, sh)) as int == v.as_nat() as int / (pow2(sh) as int),
    {
        lemma_shr_val_seq(v.0@, sh);
    }

    /// Shift round trip: `shr(shl(v, sh), sh) == v` whenever no bits are
    /// lost, that is, when the value shifted up still fits in the width.
    pub proof fn lemma_shift_round_trip(v: Self, sh: nat)
        requires
            v.as_nat() * pow2(sh) < Self::spec_modulus(),
        ensures
            shr_limbs(shl_limbs(v.0@, sh), sh) =~= v.0@,
    {
        lemma_shl_val_seq(v.0@, sh);
        lemma_pow2_pos(sh);
        lemma_small_mod((v.as_nat() * pow2(sh)) as nat, Self::spec_modulus());
        lemma_shr_val_seq(shl_limbs(v.0@, sh), sh);
        assert(limbs_val(shl_limbs(v.0@, sh)) as int == v.as_nat() as int * pow2(sh) as int);
        vstd::arithmetic::div_mod::lemma_div_by_multiple(v.as_nat() as int, pow2(sh) as int);
        assert(limbs_val(shr_limbs(shl_limbs(v.0@, sh), sh)) == v.as_nat());
        lemma_prefix_injective(shr_limbs(shl_limbs(v.0@, sh), sh), v.0@, N as nat);
    }

    /// Shifting one left by 64 bits moves the single set bit into limb 1.
    pub proof fn lemma_shl_one_limb(o: Self)
        requires
            N >= 2,
            o.0@[0] == 1u64,
            forall|j: int| 1 <= j < N ==> o.0@[j] == 0u64,
        ensures
            shl_limbs(o.0@, 64)[1] == 1u64,
            forall|j: int| 0 <= j < N && j != 1 ==> shl_limbs(o.0@, 64)[j] == 0u64,
    {
    }

    /// In-place left shift.
    pub fn shl_assign(&mut self, sh: usize)
        ensures
            final(self).0@ == shl_limbs(old(self).0@, sh as nat),
    {
        *self = self.shl(sh);
    }

    /// In-place right shift.
    pub fn shr_assign(&mut self, sh: usize)
        ensures
            final(self).0@ == shr_limbs(old(self).0@, sh as nat),
    {
        *self = self.shr(sh);
    }
}

impl<const N: usize> Default for BigUint<N> {
    /// The default value is zero.
    fn default() -> (r: Self)
        ensures
            r.as_nat() == 0,
    {
        Self::zero()
    }
}

impl<const N: usize> core::str::FromStr for BigUint<N> {
    type Err = ParseError;

    /// Parses the textual form, exactly as `from_hex_be` does.
    fn from_str(s: &str) -> Result<Self, ParseError> {
        Self::from_hex_be(s)
    }
}

} // verus!
