use vstd::prelude::*;

verus! {

/// The character for one decimal digit.
pub open spec fn digit_char(d: int) -> char {
    if d == 0 {
        '0'
    } else if d == 1 {
        '1'
    } else if d == 2 {
        '2'
    } else if d == 3 {
        '3'
    } else if d == 4 {
        '4'
    } else if d == 5 {
        '5'
    } else if d == 6 {
        '6'
    } else if d == 7 {
        '7'
    } else if d == 8 {
        '8'
    } else {
        '9'
    }
}

/// The decimal rendering of a non-negative number, most significant digit
/// first, without leading zeros (except for zero itself).
pub open spec fn dec_digits(n: int) -> Seq<char>
    decreases n,
{
    if n <= 9 {
        seq![digit_char(n)]
    } else {
        dec_digits(n / 10).push(digit_char(n % 10))
    }
}

/// A non-negative fixed-point number rendered with two decimal places,
/// truncated: the whole units, a point, then hundredths.
pub open spec fn fixed2(v: int) -> Seq<char> {
    let h = (v % 1000000) / 10000;
    dec_digits(v / 1000000) + seq!['.', digit_char(h / 10), digit_char(h % 10)]
}

/// A signed fixed-point number rendered with two decimal places.
pub open spec fn fixed2_signed(v: int) -> Seq<char> {
    if v < 0 {
        seq!['-'] + fixed2(-v)
    } else {
        fixed2(v)
    }
}

fn digit_str(d: u64) -> (r: &'static str)
    requires
        d < 10,
    ensures
        r@ == seq![digit_char(d as int)],
{
    proof {
        reveal_strlit("0");
        reveal_strlit("1");
        reveal_strlit("2");
        reveal_strlit("3");
        reveal_strlit("4");
        reveal_strlit("5");
        reveal_strlit("6");
        reveal_strlit("7");
        reveal_strlit("8");
        reveal_strlit("9");
    }
    let r: &'static str = match d {
        0 => "0",
        1 => "1",
        2 => "2",
        3 => "3",
        4 => "4",
        5 => "5",
        6 => "6",
        7 => "7",
        8 => "8",
        _ => "9",
    };
    proof {
        assert(r@ =~= seq![digit_char(d as int)]);
    }
    r
}

/// Renders a number in decimal.
pub fn u64_digits(n: u64) -> (r: String)
    ensures
        r@ == dec_digits(n as int),
    decreases n,
{
    if n <= 9 {
        digit_str(n).to_owned()
    } else {
        proof {
            vstd::arithmetic::div_mod::lemma_div_is_strictly_smaller(n as int, 10);
            vstd::arithmetic::div_mod::lemma_div_pos_is_pos(n as int, 10);
        }
        let mut s = u64_digits(n / 10);
        s.append(digit_str(n % 10));
        proof {
            assert(dec_digits((n / 10) as int).push(digit_char((n % 10) as int)) =~= dec_digits(
                (n / 10) as int,
            ) + seq![digit_char((n % 10) as int)]);
        }
        s
    }
}

/// Renders a non-negative fixed-point number with two decimal places.
pub fn fixed2_u64(v: u64) -> (r: String)
    ensures
        r@ == fixed2(v as int),
{
    let h = (v % 1000000) / 10000;
    let mut s = u64_digits(v / 1000000);
    proof {
        reveal_strlit(".");
    }
    s.append(".");
    s.append(digit_str(h / 10));
    s.append(digit_str(h % 10));
    proof {
        assert(s@ =~= fixed2(v as int));
    }
    s
}

/// Renders a signed fixed-point number with two decimal places.
pub fn fixed2_i64(v: i64) -> (r: String)
    ensures
        r@ == fixed2_signed(v as int),
{
    let m = crate::math::abs_u64(v);
    if v < 0 {
        proof {
            reveal_strlit("-");
        }
        let mut s: String = "-".to_owned();
        let rest = fixed2_u64(m);
        s.append(rest.as_str());
        proof {
            assert(s@ =~= fixed2_signed(v as int));
        }
        s
    } else {
        fixed2_u64(m)
    }
}

} // verus!
