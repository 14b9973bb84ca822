//! Decimal text for residue numbers: parsing signed integers and rendering
//! them right-justified in a fixed-width column.

use vstd::prelude::*;
use vstd::string::*;

verus! {

/// A decimal digit character.
pub open spec fn is_digit_char(c: char) -> bool {
    48 <= c as int && c as int <= 57
}

/// Numeric value of a digit character.
pub open spec fn digit_val(c: char) -> int {
    c as int - 48
}

/// Every character of the sequence is a decimal digit.
pub open spec fn all_digits(s: Seq<char>) -> bool {
    forall|i: int| 0 <= i < s.len() ==> is_digit_char(#[trigger] s[i])
}

/// Value of a digit string, most significant digit first.
pub open spec fn digits_val(s: Seq<char>) -> int
    decreases s.len(),
{
    if s.len() == 0 {
        0
    } else {
        digits_val(s.drop_last()) * 10 + digit_val(s.last())
    }
}

/// Mathematical reading of a signed decimal string: an optional sign
/// followed by at least one digit, with no other characters.
pub open spec fn spec_parse_int(s: Seq<char>) -> Option<int> {
    let mag = if s.len() > 0 && (s[0] == '+' || s[0] == '-') {
        s.skip(1)
    } else {
        s
    };
    if mag.len() > 0 && all_digits(mag) {
        if s.len() > 0 && s[0] == '-' {
            Some(-digits_val(mag))
        } else {
            Some(digits_val(mag))
        }
    } else {
        None
    }
}

/// The reading above, narrowed to values representable as an `i32`:
/// exactly what a 32-bit signed decimal parse accepts.
pub open spec fn spec_parse_i32(s: Seq<char>) -> Option<int> {
    match spec_parse_int(s) {
        Some(v) => if i32::MIN <= v && v <= i32::MAX {
            Some(v)
        } else {
            None
        },
        None => None,
    }
}

/// Parses a signed 32-bit decimal integer from text, accepting exactly the
/// strings whose mathematical value fits in `i32`.
pub fn parse_i32(s: &str) -> (r: Option<i32>)
    ensures
        r is None <==> spec_parse_i32(s@) is None,
        r matches Some(v) ==> spec_parse_i32(s@) == Some(v as int),
{
    let n = s.unicode_len();
    let mut start: usize = 0;
    let mut neg = false;
    if n > 0 {
        let c0 = s.get_char(0);
        if c0 == '-' {
            neg = true;
            start = 1;
        } else if c0 == '+' {
            start = 1;
        }
    }
    let ghost mag: Seq<char> = if start == 1 {
        s@.skip(1)
    } else {
        s@
    };
    if start >= n {
        // Empty input, or a bare sign with no digits.
        assert(mag.len() == 0);
        return None;
    }
    let mut i = start;
    let mut acc: u64 = 0;
    let mut too_big = false;
    while i < n
        invariant
            start <= i <= n,
            n == s@.len(),
            start <= 1,
            neg ==> start == 1 && s@[0] == '-',
            !neg && start == 1 ==> s@[0] == '+',
            start == 0 && n > 0 ==> s@[0] != '+' && s@[0] != '-',
            mag == (if start == 1 {
                s@.skip(1)
            } else {
                s@
            }),
            forall|k: int| start <= k < i ==> is_digit_char(#[trigger] s@[k]),
            !too_big ==> acc as int == digits_val(s@.subrange(start as int, i as int)) && acc
                <= 0xFFFF_FFFFu64,
            too_big ==> digits_val(s@.subrange(start as int, i as int)) > 0xFFFF_FFFF,
        decreases n - i,
    {
        let c = s.get_char(i);
        let u = c as u32;
        if u < 48 || u > 57 {
            // A non-digit character makes the whole string unparseable.
            proof {
                assert(mag[i - start] == s@[i as int]);
                assert(!all_digits(mag));
            }
            return None;
        }
        let d = (u - 48) as u64;
        proof {
            let pfx = s@.subrange(start as int, i as int);
            let ext = s@.subrange(start as int, i + 1);
            assert(ext.drop_last() =~= pfx);
            assert(ext.last() == s@[i as int]);
        }
        if !too_big {
            acc = acc * 10 + d;
            if acc > 0xFFFF_FFFF {
                too_big = true;
            }
        }
        i += 1;
    }
    proof {
        assert(mag =~= s@.subrange(start as int, n as int));
        assert(all_digits(mag));
    }
    if too_big {
        return None;
    }
    assert(acc as int == digits_val(mag));
    if neg {
        if acc > 2147483648 {
            None
        } else {
            Some((-(acc as i64)) as i32)
        }
    } else {
        if acc > 2147483647 {
            None
        } else {
            Some(acc as i32)
        }
    }
}

/// The digit character for a value below ten.
pub open spec fn digit_char(d: int) -> char {
    if d == 0 {
        '0'
    } else if d == 1 {
        '1'
    } else if d == 2 {
        '2'
    } else if d == 3 {
        '3'
    } else if d == 4 {
        '4'
    } else if d == 5 {
        '5'
    } else if d == 6 {
        '6'
    } else if d == 7 {
        '7'
    } else if d == 8 {
        '8'
    } else {
        '9'
    }
}

/// Decimal digits of a nonnegative value, most significant first,
/// without leading zeros (a single zero for the value zero).
pub open spec fn spec_digits(n: nat) -> Seq<char>
    decreases n,
{
    if n < 10 {
        seq![digit_char(n as int)]
    } else {
        spec_digits(n / 10).push(digit_char((n % 10) as int))
    }
}

/// Decimal rendering of a signed value: a minus sign before the digits
/// of the magnitude when negative.
pub open spec fn spec_int_chars(v: int) -> Seq<char> {
    if v < 0 {
        seq!['-'] + spec_digits((-v) as nat)
    } else {
        spec_digits(v as nat)
    }
}

/// A run of space characters.
pub open spec fn spaces(n: nat) -> Seq<char> {
    Seq::new(n, |i: int| ' ')
}

/// A signed value rendered right-justified in a column of width four:
/// space padding on the left, none when the rendering is already wider.
pub open spec fn spec_fixed4(v: int) -> Seq<char> {
    let body = spec_int_chars(v);
    if body.len() >= 4 {
        body
    } else {
        spaces((4 - body.len()) as nat) + body
    }
}

/// Characters of a digit-value sequence read back to front.
spec fn rev_digit_chars(ds: Seq<u8>) -> Seq<char> {
    Seq::new(ds.len(), |i: int| digit_char(ds[ds.len() - 1 - i] as int))
}

/// The one-character string for a digit value.
fn digit_str(d: u8) -> (r: &'static str)
    requires
        d < 10,
    ensures
        r@ == seq![digit_char(d as int)],
{
    proof {
        reveal_strlit("0");
        reveal_strlit("1");
        reveal_strlit("2");
        reveal_strlit("3");
        reveal_strlit("4");
        reveal_strlit("5");
        reveal_strlit("6");
        reveal_strlit("7");
        reveal_strlit("8");
        reveal_strlit("9");
    }
    let r = match d {
        0 => "0",
        1 => "1",
        2 => "2",
        3 => "3",
        4 => "4",
        5 => "5",
        6 => "6",
        7 => "7",
        8 => "8",
        _ => "9",
    };
    proof {
        assert(r@ =~= seq![digit_char(d as int)]);
    }
    r
}

/// Renders a signed 32-bit value right-justified in a four-character
/// column, as the residue-number field of an atom record holds it.
pub fn format_fixed4(v: i32) -> (r: String)
    ensures
        r@ == spec_fixed4(v as int),
{
    let neg = v < 0;
    let mut m: u64 = if neg {
        (-(v as i64)) as u64
    } else {
        v as u64
    };
    let ghost magnitude: nat = m as nat;
    let mut ds: Vec<u8> = Vec::new();
    loop
        invariant_except_break
            forall|k: int| 0 <= k < ds@.len() ==> #[trigger] ds@[k] < 10,
            ds@.len() == 0 ==> m as nat == magnitude,
            ds@.len() > 0 ==> m as nat >= 1 && spec_digits(magnitude) == spec_digits(m as nat)
                + rev_digit_chars(ds@),
        ensures
            forall|k: int| 0 <= k < ds@.len() ==> #[trigger] ds@[k] < 10,
            ds@.len() > 0,
            spec_digits(magnitude) == rev_digit_chars(ds@),
        decreases m,
    {
        let d = (m % 10) as u8;
        let ghost old_ds = ds@;
        let ghost old_m = m as nat;
        ds.push(d);
        m = m / 10;
        proof {
            assert(rev_digit_chars(old_ds.push(d)) =~= seq![digit_char(d as int)]
                + rev_digit_chars(old_ds));
            if old_ds.len() == 0 {
                if old_m < 10 {
                    assert(spec_digits(magnitude) =~= rev_digit_chars(ds@));
                } else {
                    assert(spec_digits(old_m) == spec_digits(old_m / 10).push(
                        digit_char((old_m % 10) as int),
                    ));
                    assert(spec_digits(old_m / 10).push(digit_char((old_m % 10) as int))
                        =~= spec_digits(old_m / 10) + seq![digit_char(d as int)]);
                    assert(spec_digits(magnitude) =~= spec_digits(m as nat) + rev_digit_chars(
                        ds@,
                    ));
                }
            } else {
                if old_m < 10 {
                    assert(spec_digits(old_m) =~= seq![digit_char(d as int)]);
                    assert(spec_digits(magnitude) =~= rev_digit_chars(ds@));
                } else {
                    assert(spec_digits(old_m) == spec_digits(old_m / 10).push(
                        digit_char((old_m % 10) as int),
                    ));
                    assert(spec_digits(old_m) =~= spec_digits(old_m / 10) + seq![
                        digit_char(d as int),
                    ]);
                    assert(spec_digits(magnitude) =~= spec_digits(m as nat) + rev_digit_chars(
                        ds@,
                    ));
                }
            }
        }
        if m == 0 {
            break;
        }
    }
    let pad_len: usize = if neg {
        if ds.len() >= 3 {
            0
        } else {
            3 - ds.len()
        }
    } else {
        if ds.len() >= 4 {
            0
        } else {
            4 - ds.len()
        }
    };
    let ghost body_len: int = ds@.len() + (if neg {
        1int
    } else {
        0int
    });
    proof {
        assert(pad_len as int == (if body_len >= 4 {
            0int
        } else {
            4 - body_len
        }));
    }
    let mut out = String::new();
    let mut k: usize = 0;
    proof {
        assert(out@ =~= spaces(0));
    }
    while k < pad_len
        invariant
            k <= pad_len,
            out@ == spaces(k as nat),
        decreases pad_len - k,
    {
        out.append(" ");
        k += 1;
        proof {
            reveal_strlit(" ");
            assert(" "@ =~= seq![' ']);
            assert(out@ =~= spaces(k as nat));
        }
    }
    if neg {
        out.append("-");
        proof {
            reveal_strlit("-");
            assert("-"@ =~= seq!['-']);
        }
    }
    let ghost prefix = out@;
    proof {
        assert(rev_digit_chars(ds@.skip(ds@.len() as int)).len() == 0);
        assert(out@ =~= prefix + rev_digit_chars(ds@.skip(ds@.len() as int)));
    }
    let mut j = ds.len();
    while j > 0
        invariant
            j <= ds@.len(),
            forall|k2: int| 0 <= k2 < ds@.len() ==> #[trigger] ds@[k2] < 10,
            out@ == prefix + rev_digit_chars(ds@.skip(j as int)),
        decreases j,
    {
        j -= 1;
        out.append(digit_str(ds[j]));
        proof {
            assert(rev_digit_chars(ds@.skip(j as int)) =~= rev_digit_chars(ds@.skip(j + 1)).push(
                digit_char(ds@[j as int] as int),
            ));
            assert(out@ =~= prefix + rev_digit_chars(ds@.skip(j as int)));
        }
    }
    proof {
        assert(ds@.skip(0) =~= ds@);
        assert(out@ == prefix + rev_digit_chars(ds@));
        let body = spec_int_chars(v as int);
        if neg {
            assert(magnitude == (-(v as int)) as nat);
            assert(body == seq!['-'] + spec_digits(magnitude));
        } else {
            assert(magnitude == v as nat);
            assert(body == spec_digits(magnitude));
        }
        assert(body.len() == body_len);
        assert(out@ =~= spec_fixed4(v as int));
    }
    out
}

} // verus!
