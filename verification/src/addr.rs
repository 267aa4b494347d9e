//! Conversions between 32-bit IPv4 address values, their four big-endian
//! bytes, subnet masks derived from a prefix length, and dotted-decimal text.

use crate::parse::{
    all_digits, dec_val, digit_val, is_digit_char, lemma_split_on_concat, lemma_split_on_whole,
    split_on,
};
use vstd::arithmetic::power2::{
    lemma2_to64, lemma_pow2_adds, lemma_pow2_pos, lemma_pow2_unfold, pow2,
};
use vstd::bits::lemma_u64_shl_is_mul;
use vstd::prelude::*;
use vstd::string::StringExecFns;

verus! {

/// The integer value of a four-byte big-endian address.
pub open spec fn be_int(b: Seq<u8>) -> int {
    b[0] as int * 0x1000000 + b[1] as int * 0x10000 + b[2] as int * 0x100 + b[3] as int
}

/// The four big-endian bytes of a 32-bit address value.
pub open spec fn be_bytes(x: int) -> Seq<u8> {
    seq![
        ((x / 0x1000000) % 0x100) as u8,
        ((x / 0x10000) % 0x100) as u8,
        ((x / 0x100) % 0x100) as u8,
        (x % 0x100) as u8,
    ]
}

/// Turning a 32-bit value into four big-endian bytes and back yields the
/// original value.
pub proof fn lemma_be_round_trip(x: int)
    requires
        0 <= x < 0x100000000,
    ensures
        be_int(be_bytes(x)) == x,
{
    let y: u32 = x as u32;
    assert(((y / 0x1000000) % 0x100) * 0x1000000 + ((y / 0x10000) % 0x100) * 0x10000 + ((y
        / 0x100) % 0x100) * 0x100 + (y % 0x100) == y) by (bit_vector);
}

/// Reads a four-byte big-endian address as a 32-bit integer.
pub fn be_to_u32(b: &Vec<u8>) -> (x: u32)
    requires
        b@.len() == 4,
    ensures
        x as int == be_int(b@),
{
    (b[0] as u32) * 0x1000000 + (b[1] as u32) * 0x10000 + (b[2] as u32) * 0x100 + (b[3] as u32)
}

/// Writes a 32-bit integer as four big-endian bytes.
pub fn u32_to_be(x: u32) -> (b: Vec<u8>)
    ensures
        b@ == be_bytes(x as int),
        b@.len() == 4,
{
    let b0: u8 = ((x / 0x1000000) % 0x100) as u8;
    let b1: u8 = ((x / 0x10000) % 0x100) as u8;
    let b2: u8 = ((x / 0x100) % 0x100) as u8;
    let b3: u8 = (x % 0x100) as u8;
    let b: Vec<u8> = vec![b0, b1, b2, b3];
    proof {
        assert(b@ =~= be_bytes(x as int));
    }
    b
}

/// The mask for prefix length `p` as a 32-bit value: the top `p` bits set,
/// the low `32 - p` bits clear.
pub open spec fn mask_int(p: int) -> int {
    pow2(32) - pow2((32 - p) as nat)
}

/// The mask for prefix length `p` as four big-endian bytes.
pub open spec fn mask_octets(p: int) -> Seq<u8> {
    be_bytes(mask_int(p))
}

/// Computes `2^e` for exponents up to 32.
pub fn pow2_u64(e: u32) -> (r: u64)
    requires
        e <= 32,
    ensures
        r as nat == pow2(e as nat),
{
    let mut r: u64 = 1;
    let mut i: u32 = 0;
    proof {
        lemma2_to64();
    }
    while i < e
        invariant
            i <= e <= 32,
            r as nat == pow2(i as nat),
            pow2(32) == 0x100000000,
        decreases e - i,
    {
        proof {
            lemma_pow2_unfold(i as nat + 1);
            lemma_pow2_adds(i as nat + 1, (32 - i - 1) as nat);
            lemma_pow2_pos((32 - i - 1) as nat);
            lemma_pow2_pos(i as nat + 1);
            assert(pow2(i as nat + 1) * pow2((32 - i - 1) as nat) >= pow2(i as nat + 1)
                * 1) by (nonlinear_arith)
                requires
                    pow2((32 - i - 1) as nat) >= 1,
                    pow2(i as nat + 1) >= 1,
            ;
            assert(pow2(i as nat + 1) <= pow2(32));
        }
        r = r * 2;
        i = i + 1;
    }
    r
}

/// The byte-wise AND of two equally long byte strings.
pub open spec fn and_octets(a: Seq<u8>, b: Seq<u8>) -> Seq<u8> {
    Seq::new(a.len(), |i: int| a[i] & b[i])
}

/// ANDing a four-byte address with the mask for prefix length `p` clears the
/// low `32 - p` bits: the result is a multiple of `2^(32-p)`, the whole block
/// of `2^(32-p)` addresses above it stays within the 32-bit space, and the
/// result is never above the address itself.
#[verifier::rlimit(100)]
pub proof fn lemma_and_mask_aligned(a: Seq<u8>, p: int)
    requires
        a.len() == 4,
        0 <= p <= 32,
    ensures
        be_int(and_octets(a, mask_octets(p))) % (pow2((32 - p) as nat) as int) == 0,
        be_int(and_octets(a, mask_octets(p))) + pow2((32 - p) as nat) <= 0x100000000,
        0 <= be_int(and_octets(a, mask_octets(p))) <= be_int(a),
{
    let k: nat = (32 - p) as nat;
    lemma2_to64();
    lemma_pow2_pos(k);
    lemma_pow2_pos(p as nat);
    lemma_pow2_adds(k, p as nat);
    assert(pow2(k) * pow2(p as nat) >= pow2(k) * 1) by (nonlinear_arith)
        requires
            pow2(p as nat) >= 1,
            pow2(k) >= 1,
    ;
    let m: int = mask_int(p);
    lemma_be_round_trip(m);
    let mb = mask_octets(p);
    let mu: u64 = m as u64;
    let ku: u64 = k as u64;
    lemma_u64_shl_is_mul(1u64, ku);
    assert(1u64 << ku == pow2(k));
    let a0 = a[0];
    let a1 = a[1];
    let a2 = a[2];
    let a3 = a[3];
    let m0 = mb[0];
    let m1 = mb[1];
    let m2 = mb[2];
    let m3 = mb[3];
    assert(mu == (m0 as u64) * 0x1000000 + (m1 as u64) * 0x10000 + (m2 as u64) * 0x100 + (
    m3 as u64));
    let c0: u8 = a0 & m0;
    let c1: u8 = a1 & m1;
    let c2: u8 = a2 & m2;
    let c3: u8 = a3 & m3;
    let su: u64 = ((c0 as u64) * 0x1000000 + (c1 as u64) * 0x10000 + (c2 as u64) * 0x100 + (
    c3 as u64)) as u64;
    let xu: u64 = ((a0 as u64) * 0x1000000 + (a1 as u64) * 0x10000 + (a2 as u64) * 0x100 + (
    a3 as u64)) as u64;
    assert(su == xu & mu) by (bit_vector)
        requires
            su == (c0 as u64) * 0x1000000 + (c1 as u64) * 0x10000 + (c2 as u64) * 0x100 + (
            c3 as u64),
            xu == (a0 as u64) * 0x1000000 + (a1 as u64) * 0x10000 + (a2 as u64) * 0x100 + (
            a3 as u64),
            mu == (m0 as u64) * 0x1000000 + (m1 as u64) * 0x10000 + (m2 as u64) * 0x100 + (
            m3 as u64),
            c0 == a0 & m0,
            c1 == a1 & m1,
            c2 == a2 & m2,
            c3 == a3 & m3,
    ;
    assert(su % (1u64 << ku) == 0 && su + (1u64 << ku) <= 0x100000000 && su <= xu) by (bit_vector)
        requires
            ku <= 32,
            mu == 0x100000000u64 - (1u64 << ku),
            xu < 0x100000000,
            su == xu & mu,
    ;
    assert(and_octets(a, mb)[0] == c0);
    assert(and_octets(a, mb)[1] == c1);
    assert(and_octets(a, mb)[2] == c2);
    assert(and_octets(a, mb)[3] == c3);
    assert(be_int(and_octets(a, mb)) == su);
}

/// The mask value equals all-ones shifted left by `32 - p`, saturating to
/// zero at `p == 0`.
pub proof fn lemma_mask_matches_shift(p: int)
    requires
        0 <= p <= 32,
    ensures
        be_int(mask_octets(p)) == if p == 0 {
            0int
        } else {
            ((0xFFFFFFFFu32 << ((32 - p) as u32)) & 0xFFFFFFFFu32) as int
        },
{
    let k: nat = (32 - p) as nat;
    lemma2_to64();
    lemma_pow2_pos(k);
    lemma_pow2_pos(p as nat);
    lemma_pow2_adds(k, p as nat);
    assert(pow2(k) * pow2(p as nat) >= pow2(k) * 1) by (nonlinear_arith)
        requires
            pow2(p as nat) >= 1,
            pow2(k) >= 1,
    ;
    lemma_be_round_trip(mask_int(p));
    if p > 0 {
        let kk: u32 = k as u32;
        lemma_u64_shl_is_mul(1u64, kk as u64);
        assert(1u64 << (kk as u64) == pow2(k));
        assert((0xFFFFFFFFu32 << kk) as u64 == 0x100000000u64 - (1u64 << (kk as u64)))
            by (bit_vector)
            requires
                kk < 32u32,
        ;
        assert(((0xFFFFFFFFu32 << kk) & 0xFFFFFFFFu32) == (0xFFFFFFFFu32 << kk)) by (bit_vector);
    }
}

/// Derives the four mask bytes from a prefix length.
pub fn mask_from_prefix(p: u8) -> (m: Vec<u8>)
    requires
        p <= 32,
    ensures
        m@ == mask_octets(p as int),
        m@.len() == 4,
{
    let host = pow2_u64(32 - (p as u32));
    proof {
        lemma2_to64();
        lemma_pow2_pos((32 - p) as nat);
        lemma_pow2_adds((32 - p) as nat, p as nat);
        lemma_pow2_pos(p as nat);
        assert(pow2((32 - p) as nat) * pow2(p as nat) >= pow2((32 - p) as nat) * 1) by (nonlinear_arith)
            requires
                pow2(p as nat) >= 1,
        ;
    }
    let mask_wide: u64 = 0x100000000u64 - host;
    let mask_val: u32 = mask_wide as u32;
    u32_to_be(mask_val)
}

/// The character for one decimal digit.
pub open spec fn digit_char(d: int) -> char {
    if d == 0 {
        '0'
    } else if d == 1 {
        '1'
    } else if d == 2 {
        '2'
    } else if d == 3 {
        '3'
    } else if d == 4 {
        '4'
    } else if d == 5 {
        '5'
    } else if d == 6 {
        '6'
    } else if d == 7 {
        '7'
    } else if d == 8 {
        '8'
    } else {
        '9'
    }
}

/// The decimal text of a non-negative number, most significant digit first,
/// without leading zeroes.
pub open spec fn dec_digits(n: int) -> Seq<char>
    decreases n,
{
    if n < 10 {
        seq![digit_char(n)]
    } else {
        dec_digits(n / 10).push(digit_char(n % 10))
    }
}

/// Decimal text consists of digit characters.
pub proof fn lemma_dec_digits_are_digits(n: int)
    requires
        n >= 0,
    ensures
        all_digits(dec_digits(n)),
        dec_digits(n).len() >= 1,
    decreases n,
{
    if n < 10 {
        assert(is_digit_char(digit_char(n)));
    } else {
        lemma_dec_digits_are_digits(n / 10);
        assert(is_digit_char(digit_char(n % 10)));
    }
}

/// The digit character for `d` has value `d`.
pub proof fn lemma_digit_char_val(d: int)
    requires
        0 <= d <= 9,
    ensures
        digit_val(digit_char(d)) == d,
{
    assert('0' as int == 48);
    assert('1' as int == 49);
    assert('2' as int == 50);
    assert('3' as int == 51);
    assert('4' as int == 52);
    assert('5' as int == 53);
    assert('6' as int == 54);
    assert('7' as int == 55);
    assert('8' as int == 56);
    assert('9' as int == 57);
}

/// Reading the decimal text of `n` back as a number yields `n`.
pub proof fn lemma_dec_digits_value(n: int)
    requires
        n >= 0,
    ensures
        dec_val(dec_digits(n)) == n,
    decreases n,
{
    if n < 10 {
        lemma_digit_char_val(n);
        assert(dec_val(Seq::<char>::empty()) == 0);
        assert(seq![digit_char(n)].drop_last() =~= Seq::<char>::empty());
        assert(seq![digit_char(n)].last() == digit_char(n));
    } else {
        lemma_dec_digits_value(n / 10);
        lemma_digit_char_val(n % 10);
        let x = dec_digits(n / 10);
        assert(x.push(digit_char(n % 10)).drop_last() =~= x);
    }
}

/// The dotted-decimal text of four octet values.
pub open spec fn dotted_text(a: int, b: int, c: int, d: int) -> Seq<char> {
    dec_digits(a) + seq!['.'] + dec_digits(b) + seq!['.'] + dec_digits(c) + seq!['.'] + dec_digits(
        d,
    )
}

/// The dotted-decimal text of a 32-bit address value.
pub open spec fn ip_text(x: int) -> Seq<char> {
    dotted_text(x / 0x1000000 % 0x100, x / 0x10000 % 0x100, x / 0x100 % 0x100, x % 0x100)
}

/// The address value that a dotted-decimal text denotes: the four pieces
/// between the dots, each read as a decimal number, assembled big-endian.
pub open spec fn dotted_value(t: Seq<char>) -> int {
    let pieces = split_on(t, '.');
    dec_val(pieces[0]) * 0x1000000 + dec_val(pieces[1]) * 0x10000 + dec_val(pieces[2]) * 0x100
        + dec_val(pieces[3])
}

/// Rendering a 32-bit address value as dotted-decimal text and reading the
/// text back yields the original value; in particular distinct values render
/// as distinct texts.
pub proof fn lemma_ip_text_value(x: int)
    requires
        0 <= x < 0x100000000,
    ensures
        dotted_value(ip_text(x)) == x,
{
    let a: int = x / 0x1000000 % 0x100;
    let b: int = x / 0x10000 % 0x100;
    let c: int = x / 0x100 % 0x100;
    let d: int = x % 0x100;
    lemma_dec_digits_are_digits(a);
    lemma_dec_digits_are_digits(b);
    lemma_dec_digits_are_digits(c);
    lemma_dec_digits_are_digits(d);
    lemma_dec_digits_value(a);
    lemma_dec_digits_value(b);
    lemma_dec_digits_value(c);
    lemma_dec_digits_value(d);
    let ta = dec_digits(a);
    let tb = dec_digits(b);
    let tc = dec_digits(c);
    let td = dec_digits(d);
    assert(forall|i: int| 0 <= i < ta.len() ==> ta[i] != '.') by {
        assert(forall|i: int| 0 <= i < ta.len() ==> is_digit_char(#[trigger] ta[i]));
    }
    assert(forall|i: int| 0 <= i < tb.len() ==> tb[i] != '.') by {
        assert(forall|i: int| 0 <= i < tb.len() ==> is_digit_char(#[trigger] tb[i]));
    }
    assert(forall|i: int| 0 <= i < tc.len() ==> tc[i] != '.') by {
        assert(forall|i: int| 0 <= i < tc.len() ==> is_digit_char(#[trigger] tc[i]));
    }
    assert(forall|i: int| 0 <= i < td.len() ==> td[i] != '.') by {
        assert(forall|i: int| 0 <= i < td.len() ==> is_digit_char(#[trigger] td[i]));
    }
    let r2 = tc + seq!['.'] + td;
    let r1 = tb + seq!['.'] + r2;
    assert(ip_text(x) =~= ta + seq!['.'] + r1);
    lemma_split_on_concat(ta, r1, '.');
    lemma_split_on_concat(tb, r2, '.');
    lemma_split_on_concat(tc, td, '.');
    lemma_split_on_whole(td, '.');
    let pieces = split_on(ip_text(x), '.');
    assert(pieces =~~= seq![ta, tb, tc, td]);
    lemma_be_round_trip(x);
}

/// The one-character text of a decimal digit.
fn digit_str(d: u32) -> (s: &'static str)
    requires
        d <= 9,
    ensures
        s@ =~= seq![digit_char(d as int)],
{
    proof {
        reveal_strlit("0");
        reveal_strlit("1");
        reveal_strlit("2");
        reveal_strlit("3");
        reveal_strlit("4");
        reveal_strlit("5");
        reveal_strlit("6");
        reveal_strlit("7");
        reveal_strlit("8");
        reveal_strlit("9");
    }
    match d {
        0 => "0",
        1 => "1",
        2 => "2",
        3 => "3",
        4 => "4",
        5 => "5",
        6 => "6",
        7 => "7",
        8 => "8",
        _ => "9",
    }
}

/// Renders one octet as decimal text without leading zeroes.
fn octet_text(n: u8) -> (t: String)
    ensures
        t@ == dec_digits(n as int),
{
    let v: u32 = n as u32;
    let mut t = String::new();
    if v >= 100 {
        t.append(digit_str((v / 10) / 10));
    }
    if v >= 10 {
        t.append(digit_str((v / 10) % 10));
    }
    t.append(digit_str(v % 10));
    proof {
        let m: int = n as int;
        if m < 10 {
            assert(t@ =~= dec_digits(m));
        } else if m < 100 {
            assert(dec_digits(m / 10) =~= seq![digit_char(m / 10)]);
            assert((m / 10) % 10 == m / 10);
            assert(t@ =~= dec_digits(m / 10).push(digit_char(m % 10)));
        } else {
            assert(dec_digits(m / 10 / 10) =~= seq![digit_char(m / 10 / 10)]);
            assert(dec_digits(m / 10) =~= dec_digits(m / 10 / 10).push(digit_char((m / 10) % 10)));
            assert(t@ =~= dec_digits(m / 10).push(digit_char(m % 10)));
        }
    }
    t
}

/// Renders a 32-bit address value as dotted-decimal text.
pub fn ip_string(x: u32) -> (t: String)
    ensures
        t@ == ip_text(x as int),
{
    proof {
        reveal_strlit(".");
    }
    let mut t = octet_text(((x / 0x1000000) % 0x100) as u8);
    t.append(".");
    let tb = octet_text(((x / 0x10000) % 0x100) as u8);
    t.append(tb.as_str());
    t.append(".");
    let tc = octet_text(((x / 0x100) % 0x100) as u8);
    t.append(tc.as_str());
    t.append(".");
    let td = octet_text((x % 0x100) as u8);
    t.append(td.as_str());
    proof {
        assert("."@ =~= seq!['.']);
        assert(t@ =~= ip_text(x as int));
    }
    t
}

} // verus!
