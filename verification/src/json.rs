//! Integer normalization for the JSON boundary.
//!
//! Integers travel through the core as their source text; only here is
//! the text turned into a number.  A leading `+` is stripped; `0x`/`0X`
//! prefixes select hexadecimal, with a sign allowed in front; everything
//! else is decimal.  Texts whose value does not fit a 64-bit signed
//! integer are rejected.

use vstd::prelude::*;

use crate::text::str_chars;

verus! {

/// The numeric value of one decimal digit, or -1.
pub open spec fn dec_digit(c: char) -> int {
    if ('0' as u32) <= (c as u32) <= ('9' as u32) {
        (c as u32) - ('0' as u32)
    } else {
        -1
    }
}

/// The numeric value of one hexadecimal digit, or -1.
pub open spec fn hex_digit(c: char) -> int {
    if ('0' as u32) <= (c as u32) <= ('9' as u32) {
        (c as u32) - ('0' as u32)
    } else if ('a' as u32) <= (c as u32) <= ('f' as u32) {
        (c as u32) - ('a' as u32) + 10
    } else if ('A' as u32) <= (c as u32) <= ('F' as u32) {
        (c as u32) - ('A' as u32) + 10
    } else {
        -1
    }
}

/// The digit value at one position, under the chosen base.
pub open spec fn digit_at(s: Seq<char>, i: int, hex: bool) -> int {
    if hex {
        hex_digit(s[i])
    } else {
        dec_digit(s[i])
    }
}

/// All characters are digits of the base, and there is at least one.
pub open spec fn digits_valid(s: Seq<char>, hex: bool) -> bool {
    s.len() > 0 && forall|i: int| 0 <= i < s.len() ==> #[trigger] digit_at(s, i, hex) >= 0
}

/// The unbounded value of a digit string.
pub open spec fn digits_value(s: Seq<char>, hex: bool) -> int
    decreases s.len(),
{
    if s.len() == 0 {
        0
    } else {
        digits_value(s.drop_last(), hex) * (if hex {
            16int
        } else {
            10int
        }) + (if hex {
            hex_digit(s.last())
        } else {
            dec_digit(s.last())
        })
    }
}

/// The text after stripping one leading `+`.
pub open spec fn strip_plus(s: Seq<char>) -> Seq<char> {
    if s.len() > 0 && s[0] == '+' {
        s.drop_first()
    } else {
        s
    }
}

/// Does the (plus-stripped) text carry a hexadecimal prefix, and where
/// do its digits start?  Negative hex keeps its sign in front.
pub open spec fn hex_shape(t: Seq<char>) -> Option<(bool, int)> {
    if t.len() >= 2 && t[0] == '0' && (t[1] == 'x' || t[1] == 'X') {
        Some((false, 2))
    } else if t.len() >= 3 && t[0] == '-' && t[1] == '0' && (t[2] == 'x' || t[2] == 'X') {
        Some((true, 3))
    } else {
        None
    }
}

/// Is the integer text well formed with a value that fits `i64`?
pub open spec fn int_text_valid(s: Seq<char>) -> bool {
    let t = strip_plus(s);
    match hex_shape(t) {
        Some(shape) => {
            let digits = t.skip(shape.1);
            &&& digits_valid(digits, true)
            &&& digits_value(digits, true) <= i64::MAX
        },
        None => {
            if t.len() > 0 && t[0] == '-' {
                let digits = t.drop_first();
                &&& digits_valid(digits, false)
                &&& -digits_value(digits, false) >= i64::MIN
            } else {
                &&& digits_valid(t, false)
                &&& digits_value(t, false) <= i64::MAX
            }
        },
    }
}

/// The value of a valid integer text.
pub open spec fn int_text_value(s: Seq<char>) -> int {
    let t = strip_plus(s);
    match hex_shape(t) {
        Some(shape) => {
            let v = digits_value(t.skip(shape.1), true);
            if shape.0 {
                -v
            } else {
                v
            }
        },
        None => {
            if t.len() > 0 && t[0] == '-' {
                -digits_value(t.drop_first(), false)
            } else {
                digits_value(t, false)
            }
        },
    }
}

/// A longer digit prefix never has a smaller value.
proof fn lemma_digits_monotone(s: Seq<char>, hex: bool, k: int)
    requires
        0 <= k <= s.len(),
        digits_valid(s, hex) || s.len() == 0,
    ensures
        digits_value(s, hex) >= digits_value(s.take(k), hex),
        digits_value(s, hex) >= 0,
    decreases s.len(),
{
    if s.len() == 0 {
        assert(s.take(k) =~= s);
    } else {
        let front = s.drop_last();
        assert forall|i: int| 0 <= i < front.len() implies #[trigger] digit_at(
            front,
            i,
            hex,
        ) >= 0 by {
            assert(front[i] == s[i]);
            assert(digit_at(s, i, hex) >= 0);
        }
        if front.len() > 0 {
            lemma_digits_monotone(front, hex, if k <= front.len() {
                k
            } else {
                front.len() as int
            });
        } else {
            assert(digits_value(front, hex) == 0);
        }
        assert(digit_at(s, s.len() - 1, hex) >= 0);
        assert(s.last() == s[s.len() - 1]);
        if hex {
            assert(digits_value(s, hex) == digits_value(front, hex) * 16 + hex_digit(s.last()));
            assert(digits_value(front, hex) * 16 >= digits_value(front, hex));
        } else {
            assert(digits_value(s, hex) == digits_value(front, hex) * 10 + dec_digit(s.last()));
            assert(digits_value(front, hex) * 10 >= digits_value(front, hex));
        }
        assert(digits_value(s, hex) >= digits_value(front, hex));
        if k <= front.len() {
            assert(front.take(k) =~= s.take(k));
        } else {
            assert(s.take(k) =~= s);
        }
    }
}

/// Accumulates the digits of `digits` into an `i64`, or reports that the
/// value does not fit.
fn accumulate_digits(digits: &[char], hex: bool) -> (r: Option<i64>)
    ensures
        (r is Some) <==> (digits_valid(digits@, hex) && digits_value(digits@, hex) <= i64::MAX),
        r is Some ==> r->Some_0 as int == digits_value(digits@, hex) && r->Some_0 >= 0,
{
    let ds = digits;
    let n = ds.len();
    if n == 0 {
        return None;
    }
    let base: i64 = if hex {
        16
    } else {
        10
    };
    let limit: i64 = if hex {
        576460752303423487
    } else {
        922337203685477580
    };
    let mut acc: i64 = 0;
    let mut i: usize = 0;
    while i < n
        invariant
            ds@ == digits@,
            n == ds@.len(),
            0 < n,
            i <= n,
            base == (if hex { 16int } else { 10int }),
            limit == (if hex { 576460752303423487int } else { 922337203685477580int }),
            0 <= acc,
            acc as int == digits_value(ds@.take(i as int), hex),
            digits_valid(ds@.take(i as int), hex) || i == 0,
        decreases n - i,
    {
        let c = ds[i];
        let u = c as u32;
        let d: i64 = if 48 <= u && u <= 57 {
            (u - 48) as i64
        } else if hex && 97 <= u && u <= 102 {
            (u - 97 + 10) as i64
        } else if hex && 65 <= u && u <= 70 {
            (u - 65 + 10) as i64
        } else {
            proof {
                assert(digit_at(ds@, i as int, hex) < 0);
                if digits_valid(ds@, hex) {
                    assert(digit_at(ds@, i as int, hex) >= 0);
                }
            }
            return None;
        };
        proof {
            assert(d as int == (if hex { hex_digit(ds@[i as int]) } else { dec_digit(ds@[i as int]) }));
            assert(ds@.take(i + 1).drop_last() =~= ds@.take(i as int));
            assert(ds@.take(i + 1).last() == ds@[i as int]);
        }
        let over = if hex {
            acc > limit || (acc == limit && d > 15)
        } else {
            acc > limit || (acc == limit && d > 7)
        };
        if over {
            // the final value would exceed the 64-bit range
            proof {
                if hex {
                    assert(digits_value(ds@.take(i + 1), hex) == acc * 16 + d);
                } else {
                    assert(digits_value(ds@.take(i + 1), hex) == acc * 10 + d);
                }
                assert(digits_value(ds@.take(i + 1), hex) > i64::MAX);
                let seqq = ds@.take(i + 1);
                assert forall|j: int| 0 <= j < seqq.len() implies #[trigger] digit_at(
                    seqq,
                    j,
                    hex,
                ) >= 0 by {
                    assert(seqq[j] == ds@[j]);
                    if j < i {
                        assert(ds@.take(i as int)[j] == ds@[j]);
                        assert(digit_at(ds@.take(i as int), j, hex) >= 0);
                    } else {
                        assert(digit_at(ds@, i as int, hex) == d);
                    }
                }
                if digits_valid(ds@, hex) && digits_value(ds@, hex) <= i64::MAX {
                    lemma_digits_monotone(ds@, hex, i + 1);
                }
            }
            return None;
        }
        if hex {
            acc = acc * 16 + d;
        } else {
            acc = acc * 10 + d;
        }
        proof {
            let seqq = ds@.take(i + 1);
            assert forall|j: int| 0 <= j < seqq.len() implies #[trigger] digit_at(
                seqq,
                j,
                hex,
            ) >= 0 by {
                assert(seqq[j] == ds@[j]);
                if j < i {
                    assert(ds@.take(i as int)[j] == ds@[j]);
                    assert(digit_at(ds@.take(i as int), j, hex) >= 0);
                } else {
                    assert(digit_at(ds@, i as int, hex) == d);
                }
            }
        }
        i = i + 1;
    }
    proof {
        assert(ds@.take(n as int) =~= ds@);
    }
    Some(acc)
}

/// Normalizes integer text to a 64-bit signed value, or reports that the
/// text is malformed or out of range.  This mirrors exactly the inputs
/// on which [`normalize_integer`] is defined.
pub fn try_normalize_integer(s: &str) -> (r: Option<i64>)
    ensures
        (r is Some) <==> int_text_valid(s@),
        r is Some ==> r->Some_0 as int == int_text_value(s@),
{
    let cs = str_chars(s);
    let n = cs.len();
    let mut start: usize = 0;
    if n > 0 && cs[0] == '+' {
        start = 1;
    }
    let ghost t = strip_plus(s@);
    proof {
        assert(t =~= cs@.skip(start as int));
    }
    // detect a hexadecimal prefix, with an optional sign
    let mut neg = false;
    let mut dstart = start;
    let mut hex = false;
    if n - start >= 2 && cs[start] == '0' && (cs[start + 1] == 'x' || cs[start + 1] == 'X') {
        hex = true;
        dstart = start + 2;
    } else if n - start >= 3 && cs[start] == '-' && cs[start + 1] == '0' && (cs[start + 2] == 'x'
        || cs[start + 2] == 'X') {
        hex = true;
        neg = true;
        dstart = start + 3;
    } else if n - start >= 1 && cs[start] == '-' {
        neg = true;
        dstart = start + 1;
    }
    proof {
        if hex {
            if neg {
                assert(t[0] == '-' && t[1] == '0' && (t[2] == 'x' || t[2] == 'X'));
                assert(hex_shape(t) == Some((true, 3int)));
                assert(t.skip(3) =~= cs@.skip(dstart as int));
            } else {
                assert(t[0] == '0' && (t[1] == 'x' || t[1] == 'X'));
                assert(hex_shape(t) == Some((false, 2int)));
                assert(t.skip(2) =~= cs@.skip(dstart as int));
            }
        } else {
            assert(hex_shape(t) is None) by {
                if t.len() >= 2 && t[0] == '0' && (t[1] == 'x' || t[1] == 'X') {
                    assert(false);
                }
                if t.len() >= 3 && t[0] == '-' && t[1] == '0' && (t[2] == 'x' || t[2] == 'X') {
                    assert(false);
                }
            }
            if neg {
                assert(t[0] == '-');
                assert(t.drop_first() =~= cs@.skip(dstart as int));
            } else {
                if t.len() > 0 && t[0] == '-' {
                    assert(false);
                }
                assert(t =~= cs@.skip(dstart as int));
            }
        }
    }
    let digits_slice = &cs.as_slice()[dstart..n];
    proof {
        assert(digits_slice@ =~= cs@.skip(dstart as int));
    }
    if neg && !hex {
        // decimal with a sign: accumulate negatively, so that the most
        // negative representable value is reached exactly
        match accumulate_digits_neg(digits_slice) {
            Some(v) => Some(v),
            None => None,
        }
    } else {
        match accumulate_digits(digits_slice, hex) {
            Some(v) => {
                if neg {
                    Some(-v)
                } else {
                    Some(v)
                }
            },
            None => None,
        }
    }
}

/// Accumulates decimal digits into the negated value, or reports that it
/// falls below the 64-bit minimum.
fn accumulate_digits_neg(digits: &[char]) -> (r: Option<i64>)
    ensures
        (r is Some) <==> (digits_valid(digits@, false) && -digits_value(digits@, false)
            >= i64::MIN),
        r is Some ==> r->Some_0 as int == -digits_value(digits@, false),
{
    let ds = digits;
    let n = ds.len();
    if n == 0 {
        return None;
    }
    let mut acc: i64 = 0;
    let mut i: usize = 0;
    while i < n
        invariant
            ds@ == digits@,
            n == ds@.len(),
            0 < n,
            i <= n,
            acc <= 0,
            acc as int == -digits_value(ds@.take(i as int), false),
            digits_valid(ds@.take(i as int), false) || i == 0,
        decreases n - i,
    {
        let c = ds[i];
        let u = c as u32;
        let d: i64 = if 48 <= u && u <= 57 {
            (u - 48) as i64
        } else {
            proof {
                assert(digit_at(ds@, i as int, false) < 0);
                if digits_valid(ds@, false) {
                    assert(digit_at(ds@, i as int, false) >= 0);
                }
            }
            return None;
        };
        proof {
            assert(d as int == dec_digit(ds@[i as int]));
            assert(ds@.take(i + 1).drop_last() =~= ds@.take(i as int));
            assert(ds@.take(i + 1).last() == ds@[i as int]);
        }
        if acc < -922337203685477580i64 || (acc == -922337203685477580i64 && d > 8) {
            proof {
                assert(digits_value(ds@.take(i + 1), false) == -(acc as int) * 10 + d);
                assert(digits_value(ds@.take(i + 1), false) > 9223372036854775808int);
                let seqq = ds@.take(i + 1);
                assert forall|j: int| 0 <= j < seqq.len() implies #[trigger] digit_at(
                    seqq,
                    j,
                    false,
                ) >= 0 by {
                    assert(seqq[j] == ds@[j]);
                    if j < i {
                        assert(ds@.take(i as int)[j] == ds@[j]);
                        assert(digit_at(ds@.take(i as int), j, false) >= 0);
                    } else {
                        assert(digit_at(ds@, i as int, false) == d);
                    }
                }
                if digits_valid(ds@, false) && -digits_value(ds@, false) >= i64::MIN {
                    lemma_digits_monotone(ds@, false, i + 1);
                }
            }
            return None;
        }
        acc = acc * 10 - d;
        proof {
            let seqq = ds@.take(i + 1);
            assert forall|j: int| 0 <= j < seqq.len() implies #[trigger] digit_at(
                seqq,
                j,
                false,
            ) >= 0 by {
                assert(seqq[j] == ds@[j]);
                if j < i {
                    assert(ds@.take(i as int)[j] == ds@[j]);
                    assert(digit_at(ds@.take(i as int), j, false) >= 0);
                } else {
                    assert(digit_at(ds@, i as int, false) == d);
                }
            }
        }
        i = i + 1;
    }
    proof {
        assert(ds@.take(n as int) =~= ds@);
    }
    Some(acc)
}

/// Normalizes integer text to a 64-bit signed value.  The caller must
/// hand in text that [`try_normalize_integer`] accepts: at the JSON
/// boundary anything else is fatal.
pub fn normalize_integer(s: &str) -> (r: i64)
    requires
        int_text_valid(s@),
    ensures
        r as int == int_text_value(s@),
{
    match try_normalize_integer(s) {
        Some(v) => v,
        None => {
            proof {
                assert(false);
            }
            0
        },
    }
}

} // verus!
