//! Writing numbers as text: whole numbers in decimal, and coordinates with
//! two decimals as `{:.2}` writes them.
use vstd::prelude::*;
use vstd::string::StringExecFns;

verus! {

/// The character of the decimal digit `d`.
pub open spec fn digit(d: int) -> char {
    (d + 48) as char
}

/// The decimal digits of `n`, most significant first.
pub open spec fn decimal_digits(n: nat) -> Seq<char>
    decreases n,
{
    if n < 10 {
        seq![digit(n as int)]
    } else {
        decimal_digits(n / 10).push(digit((n % 10) as int))
    }
}

/// `n / m` rounded to the nearest whole number, halves to the even one.
pub open spec fn round_half_even(n: nat, m: nat) -> nat {
    let q = n / m;
    let r = n % m;
    if 2 * r > m || (2 * r == m && q % 2 == 1) { q + 1 } else { q }
}

/// The coordinate `u` (in units of 10^-9) with two decimals: a `-` for a
/// negative value, the whole part, a point and the hundredths, rounded
/// half to even.
pub open spec fn fixed2(u: int) -> Seq<char> {
    let h = round_half_even((if u < 0 { -u } else { u }) as nat, 10_000_000);
    (if u < 0 { seq!['-'] } else { Seq::empty() }) + decimal_digits(h / 100)
        + seq!['.', digit(((h % 100) / 10) as int), digit((h % 10) as int)]
}

/// A point written as `(x, y)`, each coordinate with two decimals.
pub open spec fn point_text(x: int, y: int) -> Seq<char> {
    seq!['('] + fixed2(x) + seq![',', ' '] + fixed2(y) + seq![')']
}

/// The text of the decimal digit `d`.
fn digit_str(d: u64) -> (r: &'static str)
    requires
        d < 10,
    ensures
        r@ == seq![digit(d as int)],
{
    match d {
        0 => {
            let s = "0";
            proof {
                reveal_strlit("0");
            }
            s
        },
        1 => {
            let s = "1";
            proof {
                reveal_strlit("1");
            }
            s
        },
        2 => {
            let s = "2";
            proof {
                reveal_strlit("2");
            }
            s
        },
        3 => {
            let s = "3";
            proof {
                reveal_strlit("3");
            }
            s
        },
        4 => {
            let s = "4";
            proof {
                reveal_strlit("4");
            }
            s
        },
        5 => {
            let s = "5";
            proof {
                reveal_strlit("5");
            }
            s
        },
        6 => {
            let s = "6";
            proof {
                reveal_strlit("6");
            }
            s
        },
        7 => {
            let s = "7";
            proof {
                reveal_strlit("7");
            }
            s
        },
        8 => {
            let s = "8";
            proof {
                reveal_strlit("8");
            }
            s
        },
        _ => {
            let s = "9";
            proof {
                reveal_strlit("9");
            }
            s
        },
    }
}

/// Writes `n` in decimal at the end of `s`.
fn append_decimal(s: &mut String, n: u64)
    ensures
        final(s)@ == old(s)@ + decimal_digits(n as nat),
    decreases n,
{
    if n >= 10 {
        append_decimal(s, n / 10);
    }
    s.append(digit_str(n % 10));
    proof {
        if n < 10 {
            assert(n % 10 == n);
            assert(old(s)@ + decimal_digits(n as nat) =~= old(s)@ + seq![digit((n % 10) as int)]);
        } else {
            assert(old(s)@ + decimal_digits(n as nat) =~= old(s)@ + decimal_digits((n / 10) as nat) + seq![digit((n % 10) as int)]);
        }
    }
}

/// Writes the coordinate `u` with two decimals at the end of `s`.
fn append_fixed2(s: &mut String, u: i64)
    ensures
        final(s)@ == old(s)@ + fixed2(u as int),
{
    let a: u64 = if u < 0 { (0i128 - u as i128) as u64 } else { u as u64 };
    let m: u64 = 10_000_000;
    let q = a / m;
    let r = a % m;
    let h = if 2 * r > m || (2 * r == m && q % 2 == 1) { q + 1 } else { q };
    assert(h as nat == round_half_even((if u < 0 { -u } else { u as int }) as nat, 10_000_000));
    if u < 0 {
        s.append("-");
        proof {
            reveal_strlit("-");
        }
    }
    let ghost s1 = s@;
    append_decimal(s, h / 100);
    s.append(".");
    proof {
        reveal_strlit(".");
    }
    s.append(digit_str((h % 100) / 10));
    s.append(digit_str(h % 10));
    proof {
        let sign: Seq<char> = if u < 0 { seq!['-'] } else { Seq::empty() };
        assert(s1 =~= old(s)@ + sign);
        assert(s@ =~= old(s)@ + fixed2(u as int));
    }
}

/// Writes the point `(x, y)` with two decimals per coordinate at the end of `s`.
pub fn append_point(s: &mut String, x: i64, y: i64)
    ensures
        final(s)@ == old(s)@ + point_text(x as int, y as int),
{
    s.append("(");
    proof {
        reveal_strlit("(");
    }
    append_fixed2(s, x);
    s.append(", ");
    proof {
        reveal_strlit(", ");
    }
    append_fixed2(s, y);
    s.append(")");
    proof {
        reveal_strlit(")");
        assert(s@ =~= old(s)@ + point_text(x as int, y as int));
    }
}

} // verus!
