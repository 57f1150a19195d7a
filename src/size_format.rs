//! Human-readable rendering of byte counts.
//!
//! A count is shown in the largest unit of `Bytes`, `KB`, `MB`, `GB` whose
//! scaled value stays below 1024 (capped at `GB`), with exactly one digit
//! after the decimal point. The scaled value is rounded to tenths, ties going
//! to the even tenth.
use vstd::prelude::*;

verus! {

/// Number of bytes in one step of the unit scale.
pub const UNIT_STEP: u64 = 1024;

/// `1024^k`.
pub open spec fn scale(k: nat) -> nat
    decreases k,
{
    if k == 0 {
        1
    } else {
        1024 * scale((k - 1) as nat)
    }
}

/// Index into `Bytes, KB, MB, GB` of the unit that a count is shown in.
pub open spec fn unit_index(size: nat) -> nat {
    if size < scale(1) {
        0
    } else if size < scale(2) {
        1
    } else if size < scale(3) {
        2
    } else {
        3
    }
}

/// Label of the unit with the given index.
pub open spec fn unit_label(k: nat) -> Seq<char> {
    if k == 0 {
        seq!['B', 'y', 't', 'e', 's']
    } else if k == 1 {
        seq!['K', 'B']
    } else if k == 2 {
        seq!['M', 'B']
    } else {
        seq!['G', 'B']
    }
}

/// `size / 1024^k` rounded to a whole number of tenths, ties to even.
pub open spec fn scaled_tenths(size: nat, k: nat) -> nat {
    let num = size * 10;
    let den = scale(k);
    let q = num / den;
    let r = num % den;
    if 2 * r > den || (2 * r == den && q % 2 == 1) {
        q + 1
    } else {
        q
    }
}

/// The character of a decimal digit.
pub open spec fn digit_char(d: nat) -> char {
    seq!['0', '1', '2', '3', '4', '5', '6', '7', '8', '9'][d as int]
}

/// Decimal digits of a natural number, without leading zeros.
pub open spec fn decimal(n: nat) -> Seq<char>
    decreases n,
{
    if n < 10 {
        seq![digit_char(n)]
    } else {
        decimal(n / 10).push(digit_char(n % 10))
    }
}

/// The rendering of a byte count: whole part, a point, one digit, a space
/// and the unit label.
pub open spec fn format_size_spec(size: nat) -> Seq<char> {
    let k = unit_index(size);
    let t = scaled_tenths(size, k);
    decimal(t / 10) + seq!['.', digit_char(t % 10), ' '] + unit_label(k)
}

fn digit_str(d: u64) -> (r: &'static str)
    requires
        d < 10,
    ensures
        r@ == seq![digit_char(d as nat)],
{
    proof {
        reveal_strlit("0");
        reveal_strlit("1");
        reveal_strlit("2");
        reveal_strlit("3");
        reveal_strlit("4");
        reveal_strlit("5");
        reveal_strlit("6");
        reveal_strlit("7");
        reveal_strlit("8");
        reveal_strlit("9");
    }
    let r = if d == 0 {
        "0"
    } else if d == 1 {
        "1"
    } else if d == 2 {
        "2"
    } else if d == 3 {
        "3"
    } else if d == 4 {
        "4"
    } else if d == 5 {
        "5"
    } else if d == 6 {
        "6"
    } else if d == 7 {
        "7"
    } else if d == 8 {
        "8"
    } else {
        "9"
    };
    assert(r@ =~= seq![digit_char(d as nat)]);
    r
}

fn push_decimal(out: &mut String, n: u64)
    ensures
        final(out)@ == old(out)@ + decimal(n as nat),
    decreases n,
{
    if n >= 10 {
        push_decimal(out, n / 10);
    }
    out.append(digit_str(n % 10));
    proof {
        assert(decimal(n as nat) =~= if n < 10 {
            seq![digit_char(n as nat)]
        } else {
            decimal((n / 10) as nat).push(digit_char((n % 10) as nat))
        });
    }
    assert(final(out)@ =~= old(out)@ + decimal(n as nat));
}

/// Renders a byte count in the largest fitting unit with one decimal digit
/// (`0` gives `"0.0 Bytes"`, `1536` gives `"1.5 KB"`).
pub fn format_file_size(size: u64) -> (r: String)
    ensures
        r@ == format_size_spec(size as nat),
{
    proof {
        reveal_with_fuel(scale, 4);
    }
    let step = UNIT_STEP as u128;
    let (k, den): (u64, u128) = if (size as u128) < step {
        (0, 1)
    } else if (size as u128) < step * step {
        (1, step)
    } else if (size as u128) < step * step * step {
        (2, step * step)
    } else {
        (3, step * step * step)
    };
    assert(k as nat == unit_index(size as nat) && den == scale(k as nat));
    let num: u128 = (size as u128) * 10;
    let q: u128 = num / den;
    let rem: u128 = num % den;
    let tenths: u128 = if 2 * rem > den || (2 * rem == den && q % 2 == 1) {
        q + 1
    } else {
        q
    };
    assert(tenths == scaled_tenths(size as nat, k as nat));
    assert(tenths <= u64::MAX) by (nonlinear_arith)
        requires
            tenths <= q + 1,
            q == num / den,
            den >= 1,
            num <= u64::MAX as u128 * 10,
            den == 1 || den >= 1024,
            den == 1 ==> num < 10240,
    ;
    let t: u64 = tenths as u64;
    let mut out = String::new();
    push_decimal(&mut out, t / 10);
    out.append(".");
    out.append(digit_str(t % 10));
    out.append(" ");
    out.append(label_str(k));
    proof {
        reveal_strlit(".");
        reveal_strlit(" ");
    }
    assert(out@ =~= format_size_spec(size as nat));
    out
}

fn label_str(k: u64) -> (r: &'static str)
    requires
        k <= 3,
    ensures
        r@ == unit_label(k as nat),
{
    proof {
        reveal_strlit("Bytes");
        reveal_strlit("KB");
        reveal_strlit("MB");
        reveal_strlit("GB");
    }
    let r = if k == 0 {
        "Bytes"
    } else if k == 1 {
        "KB"
    } else if k == 2 {
        "MB"
    } else {
        "GB"
    };
    assert(r@ =~= unit_label(k as nat));
    r
}

} // verus!
