//! Retention policies in text: `<number><unit>:<number><unit>`, the precision of an
//! archive and the time it retains, as in `1m:1y`.

use crate::errors::SchemaError;
use crate::schema::{schema_fault, valid_schema, RetentionPolicy, Schema};
use vstd::prelude::*;
use vstd::string::is_ascii_spec_bytes;
use vstd::utf8::is_ascii_chars;

verus! {

/// Seconds in the unit that the letter `c` names; zero when it names none.
pub open spec fn unit_seconds(c: char) -> int {
    if c == 's' {
        1
    } else if c == 'm' {
        60
    } else if c == 'h' {
        3_600
    } else if c == 'd' {
        86_400
    } else if c == 'w' {
        604_800
    } else if c == 'y' {
        31_536_000
    } else {
        0
    }
}

/// Whether `c` is a decimal digit.
pub open spec fn is_digit(c: char) -> bool {
    '0' <= c <= '9'
}

/// The number that a string of decimal digits denotes.
pub open spec fn digits_value(t: Seq<char>) -> int
    decreases t.len(),
{
    if t.len() == 0 {
        0
    } else {
        digits_value(t.drop_last()) * 10 + (t.last() as int - '0' as int)
    }
}

/// Whether `t` is a duration: one digit or more, then the letter of a unit.
pub open spec fn is_duration(t: Seq<char>) -> bool {
    &&& t.len() >= 2
    &&& unit_seconds(t.last()) > 0
    &&& forall|i: int| 0 <= i < t.len() - 1 ==> is_digit(#[trigger] t[i])
}

/// The seconds that the duration `t` denotes.
pub open spec fn duration_seconds(t: Seq<char>) -> int {
    digits_value(t.drop_last()) * unit_seconds(t.last())
}

/// Where the first colon at or after `i` stands in `t`; the length of `t` when
/// there is none.
pub open spec fn colon_from(t: Seq<char>, i: int) -> int
    decreases t.len() - i,
{
    if i < 0 || i >= t.len() {
        t.len() as int
    } else if t[i] == ':' {
        i
    } else {
        colon_from(t, i + 1)
    }
}

/// The policy that the text `t` specifies, or why it specifies none.
///
/// The text is two durations with a colon between them: the precision, and the
/// time to retain. The archive holds as many points as whole precisions fit into
/// that time.
pub open spec fn parse_policy(t: Seq<char>) -> Result<RetentionPolicy, SchemaError> {
    let colon = colon_from(t, 0);
    let precision = t.subrange(0, colon);
    let kept = t.subrange(colon + 1, t.len() as int);
    if colon >= t.len() || !is_duration(precision) || !is_duration(kept) {
        Err(SchemaError::BadSpec)
    } else if duration_seconds(precision) > u32::MAX || duration_seconds(kept) > u32::MAX {
        Err(SchemaError::DurationTooLong)
    } else if duration_seconds(precision) == 0 {
        Err(SchemaError::ZeroPrecision)
    } else {
        Ok(
            RetentionPolicy {
                precision: duration_seconds(precision) as u32,
                points: (duration_seconds(kept) / duration_seconds(precision)) as u32,
            },
        )
    }
}

/// The policies that the first `n` of `texts` specify, or the fault of the first
/// text that specifies none.
pub open spec fn policies_of_texts(texts: Seq<Seq<char>>, n: int) -> Result<
    Seq<RetentionPolicy>,
    SchemaError,
>
    decreases n,
{
    if n <= 0 {
        Ok(Seq::empty())
    } else {
        match policies_of_texts(texts, n - 1) {
            Err(e) => Err(e),
            Ok(policies) => match parse_policy(texts[n - 1]) {
                Err(e) => Err(e),
                Ok(p) => Ok(policies.push(p)),
            },
        }
    }
}

/// What each of `specs` says.
pub open spec fn texts_of(specs: Seq<String>) -> Seq<Seq<char>> {
    Seq::new(specs.len(), |i: int| specs[i]@)
}

/// A text that specifies a policy holds colons, digits and unit letters only.
proof fn lemma_policy_is_ascii(t: Seq<char>)
    requires
        parse_policy(t) != Err::<RetentionPolicy, SchemaError>(SchemaError::BadSpec),
    ensures
        is_ascii_chars(t),
{
    let colon = colon_from(t, 0);
    let precision = t.subrange(0, colon);
    let kept = t.subrange(colon + 1, t.len() as int);
    lemma_colon(t, 0);
    assert forall|i: int| 0 <= i < t.len() implies '\0' <= #[trigger] t[i] <= '\u{7f}' by {
        if i < colon {
            assert(t[i] == precision[i]);
            if i < colon - 1 {
                assert(is_digit(precision[i]));
            } else {
                assert(unit_seconds(precision.last()) > 0);
            }
        } else if i > colon {
            assert(t[i] == kept[i - colon - 1]);
            if i < t.len() - 1 {
                assert(is_digit(kept[i - colon - 1]));
            } else {
                assert(unit_seconds(kept.last()) > 0);
            }
        }
    }
}

/// The first colon at or after `i` is a colon, and none stands between `i` and it.
proof fn lemma_colon(t: Seq<char>, i: int)
    requires
        0 <= i <= t.len(),
    ensures
        i <= colon_from(t, i) <= t.len(),
        colon_from(t, i) < t.len() ==> t[colon_from(t, i)] == ':',
    decreases t.len() - i,
{
    if i < t.len() && t[i] != ':' {
        lemma_colon(t, i + 1);
    }
}

/// Seconds in the unit that the letter `c` names; zero when it names none.
fn seconds_of_unit(c: char) -> (seconds: u64)
    ensures
        seconds == unit_seconds(c),
{
    if c == 's' {
        1
    } else if c == 'm' {
        60
    } else if c == 'h' {
        3_600
    } else if c == 'd' {
        86_400
    } else if c == 'w' {
        604_800
    } else if c == 'y' {
        31_536_000
    } else {
        0
    }
}

/// Reads the part of `text` from `from` up to `to` as a duration. `None` when it
/// is none; else its seconds, or 2^32 when they are more than that.
fn read_duration(text: &Vec<char>, from: usize, to: usize) -> (r: Option<u64>)
    requires
        from <= to <= text@.len(),
    ensures
        match r {
            None => !is_duration(text@.subrange(from as int, to as int)),
            Some(seconds) => {
                &&& is_duration(text@.subrange(from as int, to as int))
                &&& seconds == if duration_seconds(text@.subrange(from as int, to as int))
                    > 0x1_0000_0000 {
                    0x1_0000_0000
                } else {
                    duration_seconds(text@.subrange(from as int, to as int))
                }
            },
        },
{
    let ghost t = text@.subrange(from as int, to as int);
    if to - from < 2 {
        return None;
    }
    let unit = seconds_of_unit(text[to - 1]);
    assert(t.last() == text@[to - 1]);
    if unit == 0 {
        return None;
    }
    let ghost digits = t.drop_last();
    let mut number: u64 = 0;
    let mut i: usize = from;
    while i < to - 1
        invariant
            from <= i <= to - 1,
            to <= text@.len(),
            t == text@.subrange(from as int, to as int),
            digits == t.drop_last(),
            unit == unit_seconds(t.last()),
            0 < unit <= 31_536_000,
            forall|k: int| 0 <= k < i - from ==> is_digit(#[trigger] t[k]),
            number <= 0x1_0000_0000,
            number == if digits_value(digits.subrange(0, i - from)) > 0x1_0000_0000 {
                0x1_0000_0000
            } else {
                digits_value(digits.subrange(0, i - from))
            },
        decreases to - 1 - i,
    {
        let c = text[i];
        assert(t[i - from] == c);
        if c < '0' || c > '9' {
            return None;
        }
        proof {
            let shorter = digits.subrange(0, i - from);
            let longer = digits.subrange(0, i - from + 1);
            assert(longer.drop_last() =~= shorter);
            assert(longer.last() == c);
        }
        let next: u64 = number * 10 + (c as u64 - '0' as u64);
        number = if next > 0x1_0000_0000 {
            0x1_0000_0000
        } else {
            next
        };
        i = i + 1;
    }
    proof {
        assert(digits.subrange(0, to - 1 - from) =~= digits);
        let value = digits_value(digits);
        if value > 0x1_0000_0000 {
            assert(value * unit > 0x1_0000_0000) by (nonlinear_arith)
                requires
                    value > 0x1_0000_0000,
                    unit >= 1,
            ;
        } else {
            assert(value * unit == number * unit);
        }
        assert(number * unit <= 0x1_0000_0000 * 31_536_000) by (nonlinear_arith)
            requires
                number <= 0x1_0000_0000,
                unit <= 31_536_000,
        ;
    }
    let seconds: u64 = number * unit;
    if seconds > 0x1_0000_0000 {
        Some(0x1_0000_0000)
    } else {
        Some(seconds)
    }
}

/// The policy that the characters `text` specify, or why they specify none.
fn parse_policy_chars(text: &Vec<char>) -> (r: Result<RetentionPolicy, SchemaError>)
    ensures
        r == parse_policy(text@),
{
    let n = text.len();
    let mut colon: usize = 0;
    while colon < n && text[colon] != ':'
        invariant
            n == text@.len(),
            0 <= colon <= n,
            colon_from(text@, 0) == colon_from(text@, colon as int),
        decreases n - colon,
    {
        colon = colon + 1;
    }
    if colon >= n {
        return Err(SchemaError::BadSpec);
    }
    let precision = match read_duration(text, 0, colon) {
        Some(seconds) => seconds,
        None => {
            return Err(SchemaError::BadSpec);
        },
    };
    let kept = match read_duration(text, colon + 1, n) {
        Some(seconds) => seconds,
        None => {
            return Err(SchemaError::BadSpec);
        },
    };
    if precision > 0xffff_ffff || kept > 0xffff_ffff {
        return Err(SchemaError::DurationTooLong);
    }
    if precision == 0 {
        return Err(SchemaError::ZeroPrecision);
    }
    Ok(RetentionPolicy { precision: precision as u32, points: (kept / precision) as u32 })
}

/// The characters of a text of ASCII characters.
fn ascii_chars(text: &str) -> (chars: Vec<char>)
    requires
        is_ascii_chars(text@),
    ensures
        chars@ == text@,
{
    proof {
        is_ascii_spec_bytes(text);
    }
    let bytes = text.as_bytes();
    let n = bytes.len();
    let mut chars: Vec<char> = Vec::new();
    let mut i: usize = 0;
    while i < n
        invariant
            is_ascii_chars(text@),
            n == text@.len(),
            bytes@ == Seq::new(text@.len(), |k: int| text@[k] as u8),
            0 <= i <= n,
            chars@ == text@.subrange(0, i as int),
        decreases n - i,
    {
        let c = bytes[i] as char;
        assert(c == text@[i as int]);
        chars.push(c);
        assert(chars@ =~= text@.subrange(0, i + 1));
        i = i + 1;
    }
    assert(chars@ =~= text@);
    chars
}

impl RetentionPolicy {
    /// The policy that `spec` specifies, as in `1m:1y`: a precision of one minute,
    /// kept for one year. Fails when the text is not two durations with a colon
    /// between them, when a duration does not fit in 32 bits, and when the
    /// precision is zero.
    pub fn parse(spec: &str) -> (r: Result<RetentionPolicy, SchemaError>)
        ensures
            r == parse_policy(spec@),
    {
        if !spec.is_ascii() {
            proof {
                if parse_policy(spec@) != Err::<RetentionPolicy, SchemaError>(
                    SchemaError::BadSpec,
                ) {
                    lemma_policy_is_ascii(spec@);
                }
            }
            return Err(SchemaError::BadSpec);
        }
        let chars = ascii_chars(spec);
        parse_policy_chars(&chars)
    }
}

impl Schema {
    /// The schema that `specs` specify, finest archive first. Fails with the fault
    /// of the first text that specifies no policy, or else, when the policies are
    /// not a well-formed schema, with their first fault.
    pub fn new_from_retention_specs(specs: Vec<String>) -> (r: Result<Schema, SchemaError>)
        ensures
            match policies_of_texts(texts_of(specs@), specs@.len() as int) {
                Err(e) => r == Err::<Schema, SchemaError>(e),
                Ok(policies) => match r {
                    Ok(schema) => schema@ == policies && valid_schema(policies),
                    Err(e) => schema_fault(policies) == Some(e) && !valid_schema(policies),
                },
            },
    {
        let ghost texts = texts_of(specs@);
        let n = specs.len();
        let mut policies: Vec<RetentionPolicy> = Vec::new();
        let mut i: usize = 0;
        while i < n
            invariant
                texts == texts_of(specs@),
                n == specs@.len(),
                0 <= i <= n,
                policies_of_texts(texts, i as int) == Ok::<Seq<RetentionPolicy>, SchemaError>(
                    policies@,
                ),
            decreases n - i,
        {
            match RetentionPolicy::parse(specs[i].as_str()) {
                Ok(p) => {
                    policies.push(p);
                },
                Err(e) => {
                    proof {
                        assert(policies_of_texts(texts, i + 1) == Err::<
                            Seq<RetentionPolicy>,
                            SchemaError,
                        >(e));
                        lemma_bad_text_stops(texts, i + 1, n as int);
                    }
                    return Err(e);
                },
            }
            i = i + 1;
        }
        Schema::new(policies)
    }
}

/// Once a text specifies no policy, the fault stays whatever follows.
proof fn lemma_bad_text_stops(texts: Seq<Seq<char>>, m: int, n: int)
    requires
        0 < m <= n,
        policies_of_texts(texts, m) is Err,
    ensures
        policies_of_texts(texts, n) == policies_of_texts(texts, m),
    decreases n - m,
{
    if m < n {
        lemma_bad_text_stops(texts, m, n - 1);
    }
}

} // verus!
