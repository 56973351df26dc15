//! Reading decimal integers the way `str::parse` reads them: an optional
//! sign, then one or more ASCII digits, and a value that fits the type.

use vstd::prelude::*;

verus! {

pub open spec fn is_digit(c: char) -> bool {
    '0' <= c && c <= '9'
}

pub open spec fn digit_value(c: char) -> int {
    (c as u32) - ('0' as u32)
}

pub open spec fn all_digits(d: Seq<char>) -> bool {
    forall|i: int| 0 <= i < d.len() ==> is_digit(#[trigger] d[i])
}

/// The value of the decimal digits `d`.
pub open spec fn digits_value(d: Seq<char>) -> int
    decreases d.len(),
{
    if d.len() == 0 {
        0
    } else {
        digits_value(d.drop_last()) * 10 + digit_value(d.last())
    }
}

/// What `s.parse::<isize>()` gives: `Some(value)` or `None` for an error.
pub open spec fn parse_isize_spec(s: Seq<char>) -> Option<int> {
    if s.len() == 0 {
        None
    } else {
        let neg = s[0] == '-';
        let d = if s[0] == '+' || s[0] == '-' {
            s.skip(1)
        } else {
            s
        };
        if d.len() == 0 || !all_digits(d) {
            None
        } else {
            let v = if neg {
                -digits_value(d)
            } else {
                digits_value(d)
            };
            if isize::MIN <= v && v <= isize::MAX {
                Some(v)
            } else {
                None
            }
        }
    }
}

/// What `s.parse::<usize>()` gives: `Some(value)` or `None` for an error.
pub open spec fn parse_usize_spec(s: Seq<char>) -> Option<int> {
    if s.len() == 0 {
        None
    } else {
        let d = if s[0] == '+' {
            s.skip(1)
        } else {
            s
        };
        if d.len() == 0 || !all_digits(d) {
            None
        } else if digits_value(d) <= usize::MAX {
            Some(digits_value(d))
        } else {
            None
        }
    }
}

pub open spec fn abs(v: int) -> int {
    if v < 0 {
        -v
    } else {
        v
    }
}

pub proof fn lemma_digits_value_nonneg(d: Seq<char>)
    requires
        all_digits(d),
    ensures
        digits_value(d) >= 0,
    decreases d.len(),
{
    if d.len() > 0 {
        assert(all_digits(d.drop_last())) by {
            assert forall|i: int| 0 <= i < d.drop_last().len() implies is_digit(
                #[trigger] d.drop_last()[i],
            ) by {
                assert(d.drop_last()[i] == d[i]);
            }
        }
        lemma_digits_value_nonneg(d.drop_last());
        assert(is_digit(d[d.len() - 1]));
    }
}

/// The value of the digits `d` when it is at most `usize::MAX + 1`, else
/// `None`; also whether every character is a digit.
fn digits_magnitude(d: &Vec<char>, from: usize) -> (r: (bool, Option<u128>))
    requires
        from <= d@.len(),
    ensures
        r.0 == all_digits(d@.skip(from as int)),
        r.0 ==> (match r.1 {
            Some(v) => v == digits_value(d@.skip(from as int)) && v <= usize::MAX + 1,
            None => digits_value(d@.skip(from as int)) > usize::MAX + 1,
        }),
{
    let ghost t = d@.skip(from as int);
    let cap: u128 = (usize::MAX as u128) + 1;
    let mut acc: u128 = 0;
    let mut over = false;
    let mut k: usize = from;
    assert(t.take(0) =~= Seq::<char>::empty());
    while k < d.len()
        invariant
            from <= k <= d@.len(),
            t == d@.skip(from as int),
            cap == usize::MAX + 1,
            all_digits(t.take(k - from)),
            !over ==> acc == digits_value(t.take(k - from)) && acc <= cap,
            over ==> digits_value(t.take(k - from)) > cap,
        decreases d@.len() - k,
    {
        let c = d[k];
        let ghost before = t.take(k - from);
        let ghost after = t.take(k - from + 1);
        assert(after.drop_last() == before);
        assert(after.last() == c);
        if !('0' <= c && c <= '9') {
            assert(!all_digits(t)) by {
                assert(t[k - from] == c);
            }
            return (false, None);
        }
        assert(all_digits(after)) by {
            assert forall|i: int| 0 <= i < after.len() implies is_digit(#[trigger] after[i]) by {
                if i < before.len() {
                    assert(after[i] == before[i]);
                }
            }
        }
        let dv = (c as u32 - '0' as u32) as u128;
        assert(dv == digit_value(c));
        proof {
            lemma_digits_value_nonneg(before);
        }
        if !over {
            let next = acc * 10 + dv;
            if next > cap {
                over = true;
            } else {
                acc = next;
            }
        } else {
            assert(digits_value(after) >= digits_value(before)) by (nonlinear_arith)
                requires
                    digits_value(after) == digits_value(before) * 10 + dv,
                    digits_value(before) >= 0,
                    dv >= 0,
            ;
        }
        k = k + 1;
    }
    assert(t.take(t.len() as int) == t);
    if over {
        (true, None)
    } else {
        (true, Some(acc))
    }
}

/// `s.parse::<isize>()` followed by `unsigned_abs`: the magnitude of the
/// value, or `None` where parsing fails.
pub fn parse_isize_magnitude(s: &Vec<char>) -> (r: Option<usize>)
    ensures
        match parse_isize_spec(s@) {
            Some(v) => r matches Some(x) && x as int == abs(v),
            None => r is None,
        },
{
    if s.len() == 0 {
        return None;
    }
    let neg = s[0] == '-';
    let from: usize = if s[0] == '+' || s[0] == '-' {
        1
    } else {
        0
    };
    assert(from == 0 ==> s@.skip(0) == s@);
    if from == s.len() {
        return None;
    }
    let (ok, mag) = digits_magnitude(s, from);
    if !ok {
        return None;
    }
    let ghost d = s@.skip(from as int);
    proof {
        lemma_digits_value_nonneg(d);
    }
    match mag {
        None => None,
        Some(m) => {
            if neg {
                if m <= (isize::MAX as u128) + 1 {
                    Some(m as usize)
                } else {
                    None
                }
            } else {
                if m <= isize::MAX as u128 {
                    Some(m as usize)
                } else {
                    None
                }
            }
        },
    }
}

/// `s.parse::<usize>()`, with `None` for an error.
pub fn parse_usize(s: &Vec<char>) -> (r: Option<usize>)
    ensures
        match parse_usize_spec(s@) {
            Some(v) => r matches Some(x) && x as int == v,
            None => r is None,
        },
{
    if s.len() == 0 {
        return None;
    }
    let from: usize = if s[0] == '+' {
        1
    } else {
        0
    };
    assert(from == 0 ==> s@.skip(0) == s@);
    if from == s.len() {
        return None;
    }
    let (ok, mag) = digits_magnitude(s, from);
    if !ok {
        return None;
    }
    proof {
        lemma_digits_value_nonneg(s@.skip(from as int));
    }
    match mag {
        None => None,
        Some(m) => {
            if m <= usize::MAX as u128 {
                Some(m as usize)
            } else {
                None
            }
        },
    }
}

} // verus!
