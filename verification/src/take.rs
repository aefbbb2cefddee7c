//! The head-of-file line count: reading the user's count (an optional
//! leading minus, then digits) and turning it into the number of lines
//! to print.

use vstd::prelude::*;

use crate::digits::{
    all_digits, digit_val, digits_val, is_digit_char, lemma_digits_val_prefix_le,
    lemma_digits_val_take_step,
};

verus! {

/// How many lines are asked for: `-0` (everything), or a signed count.
#[derive(Debug, PartialEq, Eq, Structural, Clone, Copy)]
pub enum TakeValue {
    MinusZero,
    TakeNum(i64),
}

/// The accepted shape of a count string: an optional leading `-`, then one
/// or more ASCII digits.
pub open spec fn num_shape(s: Seq<char>) -> bool {
    if s.len() >= 1 && s[0] == '-' {
        s.len() >= 2 && all_digits(s.skip(1))
    } else {
        s.len() >= 1 && all_digits(s)
    }
}

/// The spec-level reading of a count string; counts that do not fit the
/// machine's signed word are rejected.
pub open spec fn parse_num_spec(s: Seq<char>) -> Result<TakeValue, ()> {
    if !num_shape(s) {
        Err(())
    } else if s[0] == '-' {
        let v = digits_val(s.skip(1));
        if v == 0 {
            Ok(TakeValue::MinusZero)
        } else if v > 0x8000_0000_0000_0000 {
            Err(())
        } else {
            Ok(TakeValue::TakeNum((-v) as i64))
        }
    } else {
        let v = digits_val(s);
        if v > i64::MAX {
            Err(())
        } else {
            Ok(TakeValue::TakeNum(v as i64))
        }
    }
}

/// Reads a line count such as `10`, `-3` or `-0`. A string of any other
/// shape, or one whose value does not fit, is returned unchanged as the
/// error.
pub fn parse_num(val: &str) -> (r: Result<TakeValue, String>)
    ensures
        match r {
            Ok(tv) => parse_num_spec(val@) == Ok::<TakeValue, ()>(tv),
            Err(e) => parse_num_spec(val@) is Err && e@ == val@,
        },
{
    let n = val.unicode_len();
    if n == 0 {
        return Err(val.to_owned());
    }
    let neg = val.get_char(0) == '-';
    let start: usize = if neg {
        1
    } else {
        0
    };
    let ghost body = val@.skip(start as int);
    if start == n {
        return Err(val.to_owned());
    }
    let mut k = start;
    while k < n
        invariant
            start <= k <= n,
            n == val@.len(),
            body == val@.skip(start as int),
            neg == (val@[0] == '-'),
            start == (if neg {
                1int
            } else {
                0int
            }),
            start < n,
            forall|i: int| start <= i < k ==> is_digit_char(#[trigger] val@[i]),
        decreases n - k,
    {
        let c = val.get_char(k);
        let u = c as u32;
        if u < 48 || u > 57 {
            proof {
                assert(body[k - start] == val@[k as int]);
                assert(!all_digits(body));
                if !neg {
                    assert(val@.skip(0) =~= val@);
                    assert(!all_digits(val@));
                }
            }
            return Err(val.to_owned());
        }
        k += 1;
    }
    proof {
        assert(forall|i: int| 0 <= i < body.len() ==> body[i] == val@[start + i]);
        assert(all_digits(body));
        if !neg {
            assert(body =~= val@);
        }
        assert(num_shape(val@));
    }
    let mut acc: u64 = 0;
    let mut k = start;
    while k < n
        invariant
            start <= k <= n,
            n == val@.len(),
            start < n,
            body == val@.skip(start as int),
            neg == (val@[0] == '-'),
            start == (if neg {
                1int
            } else {
                0int
            }),
            !neg ==> body == val@,
            num_shape(val@),
            all_digits(body),
            acc == digits_val(body.take(k - start)),
        decreases n - k,
    {
        let c = val.get_char(k);
        let u = c as u32;
        proof {
            assert(body[k - start] == val@[k as int]);
            assert(is_digit_char(body[k - start]));
        }
        let d = (u - 48) as u64;
        proof {
            assert(d == digit_val(body[k - start]));
            lemma_digits_val_take_step(body, k - start);
            vstd::arithmetic::div_mod::lemma_fundamental_div_mod((u64::MAX - d) as int, 10);
        }
        if acc > (u64::MAX - d) / 10 {
            proof {
                assert(acc * 10 + d > u64::MAX);
                assert(digits_val(body.take(k - start + 1)) > u64::MAX);
                lemma_digits_val_prefix_le(body, k - start + 1);
                assert(digits_val(body) > u64::MAX);
            }
            return Err(val.to_owned());
        }
        proof {
            assert(acc * 10 + d <= u64::MAX);
        }
        acc = acc * 10 + d;
        k += 1;
    }
    proof {
        assert(body.take(n - start) =~= body);
        assert(acc == digits_val(body));
    }
    if neg {
        if acc == 0 {
            Ok(TakeValue::MinusZero)
        } else if acc > 0x8000_0000_0000_0000u64 {
            Err(val.to_owned())
        } else if acc == 0x8000_0000_0000_0000u64 {
            Ok(TakeValue::TakeNum(i64::MIN))
        } else {
            Ok(TakeValue::TakeNum(-(acc as i64)))
        }
    } else {
        if acc > i64::MAX as u64 {
            Err(val.to_owned())
        } else {
            Ok(TakeValue::TakeNum(acc as i64))
        }
    }
}

/// The number of lines `head` prints of an input with `total_lines` lines:
/// everything for `-0`; the first `n`, clamped to the total, for `n >= 0`;
/// all but the last `-n`, floored at zero, for `n < 0`.
pub fn get_end_line(line_num: &TakeValue, total_lines: i64) -> (r: Option<u64>)
    requires
        total_lines >= 0,
    ensures
        match *line_num {
            TakeValue::MinusZero => r == Some(total_lines as u64),
            TakeValue::TakeNum(n) => if n >= 0 {
                r == Some(
                    (if n <= total_lines {
                        n
                    } else {
                        total_lines
                    }) as u64,
                )
            } else if n + total_lines >= 0 {
                r == Some((n + total_lines) as u64)
            } else {
                r == Some(0u64)
            },
        },
{
    match line_num {
        TakeValue::MinusZero => Some(total_lines as u64),
        TakeValue::TakeNum(num) => {
            let n = *num;
            if n >= 0 {
                if (n as u64) <= (total_lines as u64) {
                    Some(n as u64)
                } else {
                    Some(total_lines as u64)
                }
            } else {
                if n + total_lines >= 0 {
                    Some((n + total_lines) as u64)
                } else {
                    Some(0)
                }
            }
        },
    }
}

} // verus!
