//! Numbers written in decimal digits: reading them from text and writing
//! them as text.

use vstd::prelude::*;
use crate::text::{code_point, push_char, push_text, to_chars};

verus! {

/// The character is one of the digits `0` to `9`.
pub open spec fn is_digit(c: char) -> bool {
    48 <= code_point(c) <= 57
}

/// The number that a digit stands for.
pub open spec fn digit_value(c: char) -> nat {
    (code_point(c) - 48) as nat
}

/// The digit that stands for a number below 10.
pub open spec fn digit_char(d: nat) -> char {
    (d + 48) as char
}

/// Every character of the text is a digit.
pub open spec fn is_digits(s: Seq<char>) -> bool {
    forall|i: int| 0 <= i < s.len() ==> is_digit(#[trigger] s[i])
}

/// The number that a text of digits stands for; 0 for the empty text.
pub open spec fn digits_value(s: Seq<char>) -> nat
    decreases s.len(),
{
    if s.len() == 0 {
        0
    } else {
        digits_value(s.drop_last()) * 10 + digit_value(s.last())
    }
}

/// A number in decimal digits, without leading zeros.
pub open spec fn decimal(n: nat) -> Seq<char>
    decreases n,
{
    if n < 10 {
        seq![digit_char(n)]
    } else {
        decimal(n / 10).push(digit_char(n % 10))
    }
}

/// The number that a text stands for: an optional plus sign, then at
/// least one digit and nothing but digits. None where the text is not of
/// that form.
pub open spec fn spec_parse_number(s: Seq<char>) -> Option<nat> {
    let body = if s.len() > 0 && s[0] == '+' {
        s.drop_first()
    } else {
        s
    };
    if body.len() > 0 && is_digits(body) {
        Some(digits_value(body))
    } else {
        None
    }
}

/// The digits of a number stand for that number.
pub proof fn lemma_decimal_value(n: nat)
    ensures
        is_digits(decimal(n)),
        decimal(n).len() > 0,
        digits_value(decimal(n)) == n,
        spec_parse_number(decimal(n)) == Some(n),
    decreases n,
{
    if n < 10 {
        let s = seq![digit_char(n)];
        assert(s.drop_last() =~= Seq::<char>::empty());
        assert(s.last() == digit_char(n));
        assert(digits_value(s.drop_last()) == 0);
    } else {
        lemma_decimal_value(n / 10);
        let s = decimal(n);
        let head = decimal(n / 10);
        assert(s.drop_last() =~= head);
        assert(s.last() == digit_char(n % 10));
        assert forall|i: int| 0 <= i < s.len() implies is_digit(#[trigger] s[i]) by {
            if i < head.len() {
                assert(s[i] == head[i]);
            }
        }
    }
    assert(decimal(n)[0] != '+') by {
        assert(is_digit(decimal(n)[0]));
    }
}

/// A text of digits stands for no less than any of its starts.
pub proof fn lemma_digits_value_grows(s: Seq<char>, n: int)
    requires
        0 <= n <= s.len(),
    ensures
        digits_value(s.take(n)) <= digits_value(s),
    decreases s.len() - n,
{
    if n == s.len() {
        assert(s.take(n) =~= s);
    } else {
        lemma_digits_value_grows(s, n + 1);
        assert(s.take(n + 1).drop_last() =~= s.take(n));
    }
}

/// Reads a number of at most `limit` from a text: an optional plus sign,
/// then at least one digit and nothing but digits. None where the text
/// is not of that form or stands for more than `limit`.
pub fn parse_number(s: &str, limit: u64) -> (r: Option<u64>)
    requires
        limit <= u32::MAX,
    ensures
        r == match spec_parse_number(s@) {
            Some(v) => if v <= limit {
                Some(v as u64)
            } else {
                None
            },
            None => None,
        },
{
    let ghost text = s@;
    let ghost signed = text.len() > 0 && text[0] == '+';
    let ghost body = if signed {
        text.drop_first()
    } else {
        text
    };
    let ghost skip: int = if signed {
        1
    } else {
        0
    };
    let mut value: u64 = 0;
    let mut first: bool = true;
    let mut seen: bool = false;
    let mut valid: bool = true;
    let mut too_large: bool = false;
    proof {
        assert(body.take(0) =~= Seq::<char>::empty());
    }
    for c in it: s.chars()
        invariant
            it.seq() == text,
            limit <= u32::MAX,
            signed == (text.len() > 0 && text[0] == '+'),
            body == if signed {
                text.drop_first()
            } else {
                text
            },
            skip == if signed {
                1int
            } else {
                0int
            },
            first == (it.index() == 0),
            seen == (it.index() > skip),
            valid && it.index() >= skip ==> is_digits(body.take(it.index() - skip)),
            !valid ==> !is_digits(body),
            valid && !too_large && it.index() >= skip ==> value == digits_value(
                body.take(it.index() - skip),
            ) && value <= limit,
            valid && !too_large && it.index() < skip ==> value == 0,
            valid && too_large ==> it.index() >= skip && digits_value(
                body.take(it.index() - skip),
            ) > limit,
            too_large ==> digits_value(body) > limit,
    {
        let ghost i = it.index();
        if first && c == '+' {
            first = false;
            proof {
                assert(body.take(0) =~= Seq::<char>::empty());
            }
        } else {
            first = false;
            seen = true;
            let ghost k = i - skip;
            if valid {
                assert(body[k] == c);
                assert(body.take(k + 1).drop_last() =~= body.take(k));
                assert(body.take(k + 1).last() == c);
                let code: u32 = c as u32;
                if 48 <= code && code <= 57 {
                    proof {
                        assert forall|j: int| 0 <= j < k + 1 implies is_digit(
                            #[trigger] body.take(k + 1)[j],
                        ) by {
                            if j < k {
                                assert(body.take(k + 1)[j] == body.take(k)[j]);
                            }
                        }
                    }
                    if !too_large {
                        let next: u64 = value * 10 + (code - 48) as u64;
                        if next > limit {
                            too_large = true;
                            proof {
                                lemma_digits_value_grows(body, k + 1);
                            }
                        } else {
                            value = next;
                        }
                    } else {
                        assert(digits_value(body.take(k + 1)) >= digits_value(body.take(k)) * 10);
                    }
                } else {
                    valid = false;
                    assert(!is_digit(body[k]));
                }
            }
        }
    }
    proof {
        if text.len() >= skip {
            assert(body.take(text.len() - skip) =~= body);
        }
    }
    if valid && seen && !too_large {
        Some(value)
    } else {
        None
    }
}

/// Writes a number in decimal digits, without leading zeros.
pub fn number_to_text(n: u64) -> (r: String)
    ensures
        r@ == decimal(n as nat),
{
    let mut digits: Vec<char> = Vec::new();
    let mut rest: u64 = n;
    // the digits from the last to the first
    while rest >= 10
        invariant
            rest <= n,
            decimal(n as nat) == decimal(rest as nat) + digits@.reverse(),
        decreases rest,
    {
        let d: u8 = (rest % 10) as u8;
        let ghost before = digits@;
        digits.push((d + 48) as char);
        proof {
            let c = digit_char((rest % 10) as nat);
            assert(digits@.reverse() =~= seq![c] + before.reverse());
            assert(decimal(rest as nat) == decimal((rest / 10) as nat).push(c));
            assert(decimal((rest / 10) as nat).push(c) + before.reverse() =~= decimal(
                (rest / 10) as nat,
            ) + (seq![c] + before.reverse()));
        }
        rest = rest / 10;
    }
    let mut r = String::new();
    push_char(&mut r, ((rest as u8) + 48) as char);
    let mut i: usize = digits.len();
    proof {
        assert(r@ =~= decimal(rest as nat));
        assert(digits@.reverse().take(0) =~= Seq::<char>::empty());
        assert(r@ + Seq::<char>::empty() =~= r@);
    }
    while i > 0
        invariant
            i <= digits.len(),
            r@ == decimal(rest as nat) + digits@.reverse().take(digits.len() - i),
            decimal(n as nat) == decimal(rest as nat) + digits@.reverse(),
        decreases i,
    {
        i = i - 1;
        let ghost before = r@;
        push_char(&mut r, digits[i]);
        proof {
            let rev = digits@.reverse();
            let k = digits.len() - i - 1;
            assert(rev[k] == digits@[i as int]);
            assert(rev.take(k + 1) =~= rev.take(k).push(rev[k]));
            assert(r@ =~= decimal(rest as nat) + rev.take(k + 1));
        }
    }
    proof {
        assert(digits@.reverse().take(digits.len() as int) =~= digits@.reverse());
    }
    r
}

/// The number of digits at the start of a text.
pub open spec fn leading_digits(s: Seq<char>) -> nat
    decreases s.len(),
{
    if s.len() > 0 && is_digit(s[0]) {
        1 + leading_digits(s.drop_first())
    } else {
        0
    }
}

/// What the digits behind the point are worth in hundredths: the first
/// two count, and the third rounds up from 5 on.
pub open spec fn hundredths(frac: Seq<char>) -> nat {
    (if frac.len() > 0 {
        digit_value(frac[0]) * 10
    } else {
        0
    }) + (if frac.len() > 1 {
        digit_value(frac[1])
    } else {
        0
    }) + (if frac.len() > 2 && digit_value(frac[2]) >= 5 {
        1nat
    } else {
        0nat
    })
}

/// The amount of money, in hundredths, that a text stands for: an
/// optional sign, digits, and optionally a point and more digits, with at
/// least one digit in all. None where the text is not of that form.
pub open spec fn spec_parse_amount(s: Seq<char>) -> Option<int> {
    let signed = s.len() > 0 && (s[0] == '+' || s[0] == '-');
    let body = if signed {
        s.drop_first()
    } else {
        s
    };
    let lead = leading_digits(body) as int;
    let whole = body.take(lead);
    let rest = body.skip(lead);
    let frac = if rest.len() > 0 {
        rest.drop_first()
    } else {
        rest
    };
    if (rest.len() == 0 || rest[0] == '.') && is_digits(frac) && whole.len() + frac.len() > 0 {
        let size = digits_value(whole) * 100 + hundredths(frac);
        Some(
            if signed && s[0] == '-' {
                -size
            } else {
                size as int
            },
        )
    } else {
        None
    }
}

/// The digits at the start of a text are digits, and what follows them
/// is none.
pub proof fn lemma_leading_digits(s: Seq<char>)
    ensures
        leading_digits(s) <= s.len(),
        is_digits(s.take(leading_digits(s) as int)),
        leading_digits(s) < s.len() ==> !is_digit(s[leading_digits(s) as int]),
    decreases s.len(),
{
    if s.len() > 0 && is_digit(s[0]) {
        let rest = s.drop_first();
        lemma_leading_digits(rest);
        let n = leading_digits(s) as int;
        assert forall|i: int| 0 <= i < n implies is_digit(#[trigger] s.take(n)[i]) by {
            if i > 0 {
                assert(s.take(n)[i] == rest.take(n - 1)[i - 1]);
            }
        }
        if n < s.len() {
            assert(s[n] == rest[n - 1]);
        }
    }
}

/// Where the first `n` characters are digits and the next one is not,
/// the text has `n` leading digits.
pub proof fn lemma_leading_digits_is(s: Seq<char>, n: int)
    requires
        0 <= n <= s.len(),
        is_digits(s.take(n)),
        n < s.len() ==> !is_digit(s[n]),
    ensures
        leading_digits(s) == n,
    decreases s.len(),
{
    if n == 0 {
    } else {
        assert(s.take(n)[0] == s[0]);
        let rest = s.drop_first();
        assert forall|i: int| 0 <= i < n - 1 implies is_digit(#[trigger] rest.take(n - 1)[i]) by {
            assert(rest.take(n - 1)[i] == s.take(n)[i + 1]);
        }
        if n - 1 < rest.len() {
            assert(rest[n - 1] == s[n]);
        }
        lemma_leading_digits_is(rest, n - 1);
    }
}

/// Reads an amount of money, in hundredths, from a text: an optional
/// sign, digits, and optionally a point and more digits, with at least
/// one digit in all. Of the digits behind the point the first two count
/// and the third rounds. None where the text is not of that form or the
/// amount is larger than an `i64` holds with either sign.
pub fn parse_amount(s: &str) -> (r: Option<i64>)
    ensures
        r == match spec_parse_amount(s@) {
            Some(v) => if -i64::MAX <= v <= i64::MAX {
                Some(v as i64)
            } else {
                None
            },
            None => None,
        },
{
    let chars = to_chars(s);
    let n: usize = chars.len();
    let ghost text = s@;
    let mut negative: bool = false;
    let mut start: usize = 0;
    if n > 0 && (chars[0] == '+' || chars[0] == '-') {
        negative = chars[0] == '-';
        start = 1;
    }
    let ghost body = text.skip(start as int);
    proof {
        if start == 1 {
            assert(body =~= text.drop_first());
        } else {
            assert(body =~= text);
        }
        assert(body.take(0) =~= Seq::<char>::empty());
    }
    let mut i: usize = start;
    let mut units: u64 = 0;
    let mut too_large: bool = false;
    while i < n && 48 <= chars[i] as u32 && chars[i] as u32 <= 57
        invariant
            start <= i <= n,
            n == chars.len(),
            chars@ == text,
            body == text.skip(start as int),
            is_digits(body.take(i - start)),
            !too_large ==> units == digits_value(body.take(i - start)) && units
                <= 92233720368547758,
            too_large ==> digits_value(body.take(i - start)) > 92233720368547758,
        decreases n - i,
    {
        let ghost k = i - start;
        let d: u64 = (chars[i] as u32 - 48) as u64;
        proof {
            assert(body[k] == chars@[i as int]);
            assert(body.take(k + 1).drop_last() =~= body.take(k));
            assert(body.take(k + 1).last() == body[k]);
            assert forall|j: int| 0 <= j < k + 1 implies is_digit(#[trigger] body.take(k + 1)[j]) by {
                if j < k {
                    assert(body.take(k + 1)[j] == body.take(k)[j]);
                }
            }
        }
        if !too_large {
            let next: u64 = units * 10 + d;
            if next > 92233720368547758 {
                too_large = true;
            } else {
                units = next;
            }
        }
        i = i + 1;
    }
    let ghost lead = i - start;
    let ghost whole = body.take(lead);
    let ghost rest = body.skip(lead);
    proof {
        if i < n {
            assert(body[lead] == chars@[i as int]);
        }
        lemma_leading_digits_is(body, lead);
    }
    let has_whole: bool = i > start;
    let mut cents: u64 = 0;
    let mut has_frac: bool = false;
    let ghost frac = if rest.len() > 0 {
        rest.drop_first()
    } else {
        rest
    };
    if i < n {
        assert(rest[0] == chars@[i as int]);
        if chars[i] != '.' {
            return None;
        }
        i = i + 1;
        let first: usize = i;
        proof {
            assert(frac =~= text.skip(first as int));
            assert(frac.take(0) =~= Seq::<char>::empty());
            assert(!is_digits(frac) ==> spec_parse_amount(text) is None);
        }
        while i < n
            invariant
                text == s@,
                !is_digits(frac) ==> spec_parse_amount(text) is None,
                first <= i <= n,
                n == chars.len(),
                chars@ == text,
                frac == text.skip(first as int),
                is_digits(frac.take(i - first)),
                cents == hundredths(frac.take(i - first)),
                cents <= 100,
            decreases n - i,
        {
            let ghost k = i - first;
            let code: u32 = chars[i] as u32;
            assert(frac[k] == chars@[i as int]);
            if !(48 <= code && code <= 57) {
                proof {
                    assert(!is_digit(frac[k]));
                    assert(!is_digits(frac));
                }
                return None;
            }
            let d: u64 = (code - 48) as u64;
            if i - first == 0 {
                cents = cents + d * 10;
            } else if i - first == 1 {
                cents = cents + d;
            } else if i - first == 2 {
                if d >= 5 {
                    cents = cents + 1;
                }
            }
            i = i + 1;
            proof {
                let short = frac.take(k);
                let long = frac.take(k + 1);
                assert(long.last() == frac[k]);
                assert forall|j: int| 0 <= j < k + 1 implies is_digit(#[trigger] long[j]) by {
                    if j < k {
                        assert(long[j] == short[j]);
                    }
                }
                if k > 0 {
                    assert(long[0] == short[0]);
                }
                if k > 1 {
                    assert(long[1] == short[1]);
                }
                if k > 2 {
                    assert(long[2] == short[2]);
                }
            }
        }
        proof {
            assert(frac.take(n - first) =~= frac);
        }
        has_frac = n > first;
    }
    proof {
        assert(is_digits(frac));
    }
    if !has_whole && !has_frac {
        return None;
    }
    if too_large {
        return None;
    }
    let size: u64 = units * 100 + cents;
    if size > 9223372036854775807 {
        return None;
    }
    if negative {
        Some(-(size as i64))
    } else {
        Some(size as i64)
    }
}

/// An amount of money, given in hundredths, as text: a minus sign where
/// it is negative, the whole units, a point, and two digits.
pub open spec fn amount_text(v: int) -> Seq<char> {
    let size = if v < 0 {
        -v
    } else {
        v
    };
    let sign = if v < 0 {
        seq!['-']
    } else {
        Seq::<char>::empty()
    };
    sign + decimal((size / 100) as nat) + seq![
        '.',
        digit_char(((size % 100) / 10) as nat),
        digit_char((size % 10) as nat),
    ]
}

/// Writes an amount of money, given in hundredths: a minus sign where it
/// is negative, the whole units, a point, and two digits.
pub fn amount_to_text(v: i64) -> (r: String)
    ensures
        r@ == amount_text(v as int),
{
    let size: u64 = if v < 0 {
        ((-(v + 1)) as u64) + 1
    } else {
        v as u64
    };
    let mut r = String::new();
    if v < 0 {
        push_char(&mut r, '-');
    }
    let units = number_to_text(size / 100);
    push_text(&mut r, units.as_str());
    push_char(&mut r, '.');
    push_char(&mut r, ((((size % 100) / 10) as u8) + 48) as char);
    push_char(&mut r, (((size % 10) as u8) + 48) as char);
    proof {
        assert(r@ =~= amount_text(v as int));
    }
    r
}

} // verus!
