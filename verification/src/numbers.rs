use vstd::prelude::*;
use crate::text::push_char;

verus! {

/// The digit for `d` (below 16): `0`-`9`, then the upper-case letters `A`-`F`.
pub open spec fn digit_char(d: nat) -> char {
    if d < 10 {
        ((48 + d) as u8) as char
    } else {
        ((55 + d) as u8) as char
    }
}

/// The digits of `n` in base `radix`, most significant first, with no leading zero.
pub open spec fn digits(n: nat, radix: nat) -> Seq<char>
    decreases n,
{
    if radix < 2 || n < radix {
        seq![digit_char(n)]
    } else {
        proof {
            vstd::arithmetic::div_mod::lemma_div_is_strictly_smaller(n as int, radix as int);
        }
        digits(n / radix, radix) + seq![digit_char(n % radix)]
    }
}

/// The decimal text of a signed integer.
pub open spec fn decimal(v: int) -> Seq<char> {
    if v < 0 {
        seq!['-'] + digits((-v) as nat, 10)
    } else {
        digits(v as nat, 10)
    }
}

/// The upper-case hexadecimal text of the 32 bits of `v`.
pub open spec fn upper_hex(v: i32) -> Seq<char> {
    digits((v as u32) as nat, 16)
}

/// `upper_hex(v)` padded on the left with zeros to eight digits.
pub open spec fn hex8(v: i32) -> Seq<char> {
    Seq::new((8 - upper_hex(v).len()) as nat, |i: int| '0') + upper_hex(v)
}

/// The binary text of the 32 bits of `v`.
pub open spec fn binary(v: i32) -> Seq<char> {
    digits((v as u32) as nat, 2)
}

proof fn lemma_digits_len(n: nat, radix: nat, k: nat)
    requires
        2 <= radix,
        n < pow_nat(radix, k),
        1 <= k,
    ensures
        digits(n, radix).len() <= k,
    decreases n,
{
    if n >= radix {
        assert(k > 1) by {
            if k == 1 {
                assert(pow_nat(radix, 0) == 1);
                assert(pow_nat(radix, 1) == radix * pow_nat(radix, 0));
                assert(radix * 1 == radix) by (nonlinear_arith);
            }
        }
        let k1 = (k - 1) as nat;
        assert(pow_nat(radix, k) == radix * pow_nat(radix, k1));
        assert(n / radix < pow_nat(radix, k1)) by (nonlinear_arith)
            requires
                n < radix * pow_nat(radix, k1),
                2 <= radix,
        ;
        vstd::arithmetic::div_mod::lemma_div_is_strictly_smaller(n as int, radix as int);
        lemma_digits_len(n / radix, radix, k1);
    }
}

/// `radix` raised to `k`.
pub open spec fn pow_nat(radix: nat, k: nat) -> nat
    decreases k,
{
    if k == 0 {
        1
    } else {
        radix * pow_nat(radix, (k - 1) as nat)
    }
}

/// The hexadecimal text of a 32-bit value has at most eight digits.
pub proof fn lemma_hex_len(v: i32)
    ensures
        upper_hex(v).len() <= 8,
{
    reveal_with_fuel(pow_nat, 9);
    assert(pow_nat(16, 8) == 0x1_0000_0000);
    lemma_digits_len((v as u32) as nat, 16, 8);
}

/// `hex8` always has exactly eight digits, and ends with `upper_hex`.
pub proof fn law_hex8_width(v: i32)
    ensures
        hex8(v).len() == 8,
        hex8(v).subrange(8 - upper_hex(v).len(), 8) == upper_hex(v),
{
    lemma_hex_len(v);
    let pad = (8 - upper_hex(v).len()) as nat;
    assert(hex8(v).subrange(pad as int, 8) =~= upper_hex(v));
}

/// The value of a digit character: `0`-`9`, then `A`-`F` for ten to fifteen;
/// -1 for any other character.
pub open spec fn digit_value(c: char) -> int {
    let v = c as int;
    if 48 <= v <= 57 {
        v - 48
    } else if 65 <= v <= 70 {
        v - 55
    } else {
        -1
    }
}

/// The number that the digits `s` write in base `radix`, most significant first.
pub open spec fn read_digits(s: Seq<char>, radix: nat) -> int
    decreases s.len(),
{
    if s.len() == 0 {
        0
    } else {
        read_digits(s.drop_last(), radix) * radix + digit_value(s.last())
    }
}

proof fn lemma_digit_char_value(d: nat)
    requires
        d < 16,
    ensures
        digit_value(digit_char(d)) == d,
        digit_char(d) as int != 48 || d == 0,
{
    if d < 10 {
        assert(((48 + d) as u8) as int == 48 + d);
    } else {
        assert(((55 + d) as u8) as int == 55 + d);
    }
}

/// The digits of `n` read back as `n`: each is a digit below the radix, and
/// there is no leading zero (the text of zero is the single digit `0`).
pub proof fn law_digits_read_back(n: nat, radix: nat)
    requires
        2 <= radix <= 16,
    ensures
        read_digits(digits(n, radix), radix) == n,
        digits(n, radix).len() >= 1,
        n > 0 ==> digits(n, radix)[0] != '0',
        n == 0 ==> digits(n, radix) == seq!['0'],
        forall|k: int|
            0 <= k < digits(n, radix).len() ==> 0 <= #[trigger] digit_value(digits(n, radix)[k]) < radix,
    decreases n,
{
    if n < radix {
        lemma_digit_char_value(n);
        let ds = digits(n, radix);
        assert(ds.drop_last() =~= Seq::<char>::empty());
        assert(read_digits(Seq::<char>::empty(), radix) == 0);
        assert(read_digits(ds, radix) == read_digits(ds.drop_last(), radix) * radix + digit_value(ds.last()));
        assert(0 * radix == 0);
        if n == 0 {
            assert(digit_char(0) == '0');
        }
    } else {
        vstd::arithmetic::div_mod::lemma_div_is_strictly_smaller(n as int, radix as int);
        law_digits_read_back(n / radix, radix);
        lemma_digit_char_value(n % radix);
        let hi = digits(n / radix, radix);
        let ds = digits(n, radix);
        assert(ds.drop_last() =~= hi);
        assert(ds.last() == digit_char(n % radix));
        assert(n == (n / radix) * radix + n % radix) by (nonlinear_arith)
            requires
                radix > 0,
        ;
        assert(n / radix > 0) by (nonlinear_arith)
            requires
                n >= radix,
                radix > 0,
        ;
        assert(ds[0] == hi[0]);
        assert(read_digits(ds, radix) == read_digits(ds.drop_last(), radix) * radix + digit_value(ds.last()));
        assert forall|k: int| 0 <= k < ds.len() implies 0 <= #[trigger] digit_value(ds[k]) < radix by {
            if k < hi.len() {
                assert(ds[k] == hi[k]);
            }
        }
    }
}

/// The decimal text of `v` is a minus sign and the digits of `-v` when `v`
/// is negative, and the digits of `v` otherwise, read back as the same value.
pub proof fn law_decimal_read_back(v: int)
    ensures
        v < 0 ==> decimal(v)[0] == '-' && read_digits(decimal(v).subrange(1, decimal(v).len() as int), 10) == -v,
        v >= 0 ==> read_digits(decimal(v), 10) == v && decimal(v)[0] != '-',
        v > 0 ==> decimal(v)[0] != '0',
        v < 0 ==> decimal(v)[1] != '0',
{
    if v < 0 {
        law_digits_read_back((-v) as nat, 10);
        let ds = digits((-v) as nat, 10);
        assert(decimal(v).subrange(1, decimal(v).len() as int) =~= ds);
        assert(decimal(v)[1] == ds[0]);
    } else {
        law_digits_read_back(v as nat, 10);
        let ds = digits(v as nat, 10);
        assert(0 <= digit_value(ds[0]));
    }
}

/// The hexadecimal text of a word reads back as the word taken unsigned, with
/// no leading zero; `hex8` reads back as the same value.
pub proof fn law_hex_read_back(v: i32)
    ensures
        read_digits(upper_hex(v), 16) == v as u32,
        (v as u32) > 0 ==> upper_hex(v)[0] != '0',
        read_digits(hex8(v), 16) == v as u32,
        read_digits(binary(v), 2) == v as u32,
{
    law_digits_read_back((v as u32) as nat, 16);
    law_digits_read_back((v as u32) as nat, 2);
    lemma_hex_len(v);
    let z = (8 - upper_hex(v).len()) as nat;
    lemma_read_zeros(z, 16);
    lemma_read_concat(Seq::new(z, |i: int| '0'), upper_hex(v), 16);
}

proof fn lemma_read_concat(a: Seq<char>, b: Seq<char>, radix: nat)
    ensures
        read_digits(a + b, radix) == read_digits(a, radix) * pow_nat(radix, b.len()) + read_digits(b, radix),
    decreases b.len(),
{
    if b.len() == 0 {
        assert(a + b =~= a);
        assert(pow_nat(radix, 0) == 1);
        assert(read_digits(a, radix) * 1 == read_digits(a, radix));
    } else {
        let b1 = b.drop_last();
        lemma_read_concat(a, b1, radix);
        assert((a + b).drop_last() =~= a + b1);
        assert((a + b).last() == b.last());
        let x = read_digits(a, radix);
        let p1 = pow_nat(radix, b1.len());
        assert(pow_nat(radix, b.len()) == radix * p1);
        assert((x * p1 + read_digits(b1, radix)) * radix == x * (radix * p1) + read_digits(b1, radix) * radix)
            by (nonlinear_arith);
    }
}

proof fn lemma_read_zeros(z: nat, radix: nat)
    ensures
        read_digits(Seq::new(z, |i: int| '0'), radix) == 0,
    decreases z,
{
    if z > 0 {
        lemma_read_zeros((z - 1) as nat, radix);
        assert(Seq::new(z, |i: int| '0').drop_last() =~= Seq::new((z - 1) as nat, |i: int| '0'));
        assert(digit_value('0') == 0);
    }
}

/// Appends the digits of `n` in base `radix` to `s`.
pub fn push_digits(s: &mut String, n: u32, radix: u32)
    requires
        2 <= radix <= 16,
    ensures
        final(s)@ == old(s)@ + digits(n as nat, radix as nat),
    decreases n,
{
    if n >= radix {
        proof {
            vstd::arithmetic::div_mod::lemma_div_is_strictly_smaller(n as int, radix as int);
        }
        push_digits(s, n / radix, radix);
    }
    let d = (n % radix) as u8;
    let c = if d < 10 {
        (48u8 + d) as char
    } else {
        (55u8 + d) as char
    };
    push_char(s, c);
    proof {
        if n < radix {
            vstd::arithmetic::div_mod::lemma_small_mod(n as nat, radix as nat);
        }
    }
}

/// Appends the decimal text of `v` to `s`.
pub fn push_decimal(s: &mut String, v: i32)
    ensures
        final(s)@ == old(s)@ + decimal(v as int),
{
    if v < 0 {
        push_char(s, '-');
        let m: u32 = if v == i32::MIN {
            0x8000_0000u32
        } else {
            (-v) as u32
        };
        push_digits(s, m, 10);
        assert(s@ =~= old(s)@ + decimal(v as int));
    } else {
        push_digits(s, v as u32, 10);
    }
}

/// Appends the upper-case hexadecimal text of the 32 bits of `v` to `s`.
pub fn push_upper_hex(s: &mut String, v: i32)
    ensures
        final(s)@ == old(s)@ + upper_hex(v),
{
    push_digits(s, v as u32, 16);
}

/// Appends `hex8(v)` to `s`.
pub fn push_hex8(s: &mut String, v: i32)
    ensures
        final(s)@ == old(s)@ + hex8(v),
{
    let mut digits_text = String::new();
    push_digits(&mut digits_text, v as u32, 16);
    proof {
        lemma_hex_len(v);
    }
    let ghost pad = (8 - upper_hex(v).len()) as nat;
    let ghost start = s@;
    let mut missing: usize = 8 - digits_text.as_str().unicode_len();
    while missing > 0
        invariant
            missing <= pad,
            s@ == start + Seq::new((pad - missing) as nat, |i: int| '0'),
        decreases missing,
    {
        push_char(s, '0');
        missing = missing - 1;
        assert(s@ =~= start + Seq::new((pad - missing) as nat, |i: int| '0'));
    }
    s.append(digits_text.as_str());
    assert(s@ =~= start + hex8(v));
}

/// Appends the binary text of the 32 bits of `v` to `s`.
pub fn push_binary(s: &mut String, v: i32)
    ensures
        final(s)@ == old(s)@ + binary(v),
{
    push_digits(s, v as u32, 2);
}

} // verus!
