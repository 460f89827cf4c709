//! Human-readable sizes: a byte count shown with two decimal places under
//! the largest binary unit that keeps the value below 1024. The arithmetic
//! is exact: the value is scaled by 100 and divided by the unit, rounding
//! half up.

use vstd::prelude::*;
use vstd::string::*;
use vstd::arithmetic::div_mod::{lemma_div_denominator, lemma_fundamental_div_mod};
use vstd::arithmetic::mul::lemma_mul_inequality;

verus! {

/// 1024 raised to the `k`-th power.
pub open spec fn pow1024(k: nat) -> int
    decreases k,
{
    if k == 0 {
        1
    } else {
        1024 * pow1024((k - 1) as nat)
    }
}

proof fn lemma_pow1024_pos(k: nat)
    ensures
        pow1024(k) >= 1,
    decreases k,
{
    if k > 0 {
        lemma_pow1024_pos((k - 1) as nat);
    }
}

proof fn lemma_pow1024_eight()
    ensures
        pow1024(8) == 1208925819614629174706176,
{
    assert(pow1024(0) == 1);
    assert(pow1024(1) == 1024);
    assert(pow1024(2) == 1048576);
    assert(pow1024(3) == 1073741824);
    assert(pow1024(4) == 1099511627776);
    assert(pow1024(5) == 1125899906842624);
    assert(pow1024(6) == 1152921504606846976);
    assert(pow1024(7) == 1180591620717411303424);
}

/// How many more divisions by 1024 the value takes, with at most `left`
/// still allowed.
pub open spec fn unit_index_rec(v: int, left: nat) -> nat
    decreases left,
{
    if left == 0 || v < 1024 {
        0
    } else {
        1 + unit_index_rec(v / 1024, (left - 1) as nat)
    }
}

/// The unit a byte count is shown under: how often it divides by 1024
/// before falling below 1024, capped at the largest unit.
pub open spec fn spec_unit_index(b: int) -> nat {
    unit_index_rec(b, 8)
}

/// The decimal digit characters.
pub open spec fn spec_digit_char(d: int) -> char {
    if d == 0 {
        '0'
    } else if d == 1 {
        '1'
    } else if d == 2 {
        '2'
    } else if d == 3 {
        '3'
    } else if d == 4 {
        '4'
    } else if d == 5 {
        '5'
    } else if d == 6 {
        '6'
    } else if d == 7 {
        '7'
    } else if d == 8 {
        '8'
    } else {
        '9'
    }
}

/// The decimal digits of a non-negative number, most significant first.
pub open spec fn spec_dec_digits(n: int) -> Seq<char>
    decreases n,
{
    if n < 10 {
        seq![spec_digit_char(n)]
    } else {
        spec_dec_digits(n / 10).push(spec_digit_char(n % 10))
    }
}

/// The unit suffixes, in order of size.
pub open spec fn spec_unit_name(k: nat) -> Seq<char> {
    if k == 0 {
        "B"@
    } else if k == 1 {
        "KB"@
    } else if k == 2 {
        "MB"@
    } else if k == 3 {
        "GB"@
    } else if k == 4 {
        "TB"@
    } else if k == 5 {
        "PB"@
    } else if k == 6 {
        "EB"@
    } else if k == 7 {
        "ZB"@
    } else {
        "YB"@
    }
}

/// What a byte count is shown as: the scaled value with two decimal
/// places, rounded half up, a space, and the unit.
pub open spec fn spec_format_size(bytes: u64) -> Seq<char> {
    let k = spec_unit_index(bytes as int);
    let d = pow1024(k);
    let scaled = (bytes * 100 + d / 2) / d;
    let frac = scaled % 100;
    spec_dec_digits(scaled / 100) + seq!['.'] + seq![
        spec_digit_char(frac / 10),
        spec_digit_char(frac % 10),
    ] + seq![' '] + spec_unit_name(k)
}

fn digit_str(d: u64) -> (r: &'static str)
    requires
        d < 10,
    ensures
        r@ == seq![spec_digit_char(d as int)],
{
    proof {
        reveal_strlit("0");
        reveal_strlit("1");
        reveal_strlit("2");
        reveal_strlit("3");
        reveal_strlit("4");
        reveal_strlit("5");
        reveal_strlit("6");
        reveal_strlit("7");
        reveal_strlit("8");
        reveal_strlit("9");
    }
    if d == 0 {
        assert("0"@ =~= seq![spec_digit_char(0)]);
        "0"
    } else if d == 1 {
        assert("1"@ =~= seq![spec_digit_char(1)]);
        "1"
    } else if d == 2 {
        assert("2"@ =~= seq![spec_digit_char(2)]);
        "2"
    } else if d == 3 {
        assert("3"@ =~= seq![spec_digit_char(3)]);
        "3"
    } else if d == 4 {
        assert("4"@ =~= seq![spec_digit_char(4)]);
        "4"
    } else if d == 5 {
        assert("5"@ =~= seq![spec_digit_char(5)]);
        "5"
    } else if d == 6 {
        assert("6"@ =~= seq![spec_digit_char(6)]);
        "6"
    } else if d == 7 {
        assert("7"@ =~= seq![spec_digit_char(7)]);
        "7"
    } else if d == 8 {
        assert("8"@ =~= seq![spec_digit_char(8)]);
        "8"
    } else {
        assert("9"@ =~= seq![spec_digit_char(9)]);
        "9"
    }
}

/// A non-negative number written out in decimal.
pub fn dec_string(n: u64) -> (r: String)
    ensures
        r@ == spec_dec_digits(n as int),
    decreases n,
{
    if n < 10 {
        digit_str(n).to_owned()
    } else {
        let q = n / 10;
        let rm = n % 10;
        assert(q < n);
        let s = dec_string(q);
        let r = s.concat(digit_str(rm));
        proof {
            assert(r@ =~= spec_dec_digits(q as int).push(spec_digit_char(rm as int)));
        }
        r
    }
}

fn unit_str(k: usize) -> (r: &'static str)
    requires
        k <= 8,
    ensures
        r@ == spec_unit_name(k as nat),
{
    if k == 0 {
        "B"
    } else if k == 1 {
        "KB"
    } else if k == 2 {
        "MB"
    } else if k == 3 {
        "GB"
    } else if k == 4 {
        "TB"
    } else if k == 5 {
        "PB"
    } else if k == 6 {
        "EB"
    } else if k == 7 {
        "ZB"
    } else {
        "YB"
    }
}

/// Show a byte count under its unit, with two decimal places.
pub fn format_size(bytes: u64) -> (r: String)
    ensures
        r@ == spec_format_size(bytes),
{
    let b = bytes;
    let mut v: u64 = b;
    let mut k: usize = 0;
    let mut d: u128 = 1;
    proof {
        lemma_pow1024_eight();
    }
    while v >= 1024 && k < 8
        invariant
            0 <= k <= 8,
            d as int == pow1024(k as nat),
            d as int <= pow1024(8),
            v as int == b as int / pow1024(k as nat),
            spec_unit_index(b as int) == k + unit_index_rec(v as int, (8 - k) as nat),
            pow1024(8) == 1208925819614629174706176,
        decreases 8 - k,
    {
        proof {
            lemma_pow1024_pos(k as nat);
            lemma_pow1024_pos((k + 1) as nat);
            lemma_div_denominator(b as int, pow1024(k as nat), 1024);
            assert(pow1024((k + 1) as nat) == 1024 * pow1024(k as nat));
            assert((b as int / pow1024(k as nat)) / 1024 == b as int / pow1024((k + 1) as nat));
            lemma_pow1024_le((k + 1) as nat);
        }
        v = v / 1024;
        d = d * 1024;
        k += 1;
    }
    proof {
        lemma_pow1024_pos(k as nat);
        assert(unit_index_rec(v as int, (8 - k) as nat) == 0);
        assert(spec_unit_index(b as int) == k);
        // the value sits below the next unit: b < 1024 * d
        lemma_fundamental_div_mod(b as int, d as int);
        if k == 8 {
            assert(b < 1024 * (d as int));
        } else {
            assert(v < 1024);
            assert(b as int == (d as int) * (v as int) + (b as int % (d as int)));
            assert(b as int % (d as int) < d as int);
            lemma_mul_inequality(v as int, 1023, d as int);
            assert(b < 1024 * (d as int));
        }
    }
    let x: u128 = (b as u128) * 100 + d / 2;
    let scaled_wide: u128 = x / d;
    proof {
        assert(x as int == (b as int) * 100 + (d as int) / 2);
        assert((x as int) < 102401 * (d as int));
        lemma_fundamental_div_mod(x as int, d as int);
        vstd::arithmetic::div_mod::lemma_mod_bound(x as int, d as int);
        if x as int / (d as int) >= 102401 {
            lemma_mul_inequality(102401, x as int / (d as int), d as int);
            assert(102401 * (d as int) <= (x as int / (d as int)) * (d as int));
            assert((d as int) * (x as int / (d as int)) <= x as int);
            assert(false);
        }
        assert(scaled_wide as int == (x as int) / (d as int));
        assert(scaled_wide <= 102400);
    }
    let scaled: u64 = scaled_wide as u64;
    let whole: u64 = scaled / 100;
    let frac: u64 = scaled % 100;
    let s = dec_string(whole);
    proof {
        reveal_strlit(".");
        reveal_strlit(" ");
    }
    let s = s.concat(".");
    let s = s.concat(digit_str(frac / 10));
    let s = s.concat(digit_str(frac % 10));
    let s = s.concat(" ");
    let r = s.concat(unit_str(k));
    proof {
        assert("."@ =~= seq!['.']);
        assert(" "@ =~= seq![' ']);
        assert(r@ =~= spec_format_size(b));
    }
    r
}

proof fn lemma_pow1024_le(k: nat)
    requires
        k <= 8,
    ensures
        pow1024(k) <= pow1024(8),
    decreases 8 - k,
{
    if k < 8 {
        lemma_pow1024_le(k + 1);
        lemma_pow1024_pos(k);
        assert(pow1024(k + 1) == 1024 * pow1024(k));
    }
}

} // verus!
