//! Reading the lines of a mesh description: splitting a line at whitespace,
//! reading unsigned decimal numbers, and recognising decimal floating-point
//! literals.

use vstd::prelude::*;

verus! {

/// The characters with the Unicode property `White_Space`.
pub open spec fn is_whitespace(c: char) -> bool {
    let n = c as u32;
    ||| 0x09 <= n <= 0x0D
    ||| n == 0x20
    ||| n == 0x85
    ||| n == 0xA0
    ||| n == 0x1680
    ||| 0x2000 <= n <= 0x200A
    ||| n == 0x2028
    ||| n == 0x2029
    ||| n == 0x202F
    ||| n == 0x205F
    ||| n == 0x3000
}

pub open spec fn is_digit(c: char) -> bool {
    0x30 <= c as u32 <= 0x39
}

pub open spec fn digit_value(c: char) -> nat {
    (c as u32 - 0x30) as nat
}

/// An upper-case ASCII letter as its lower-case one; any other character as
/// itself.
pub open spec fn lower(c: char) -> u32 {
    if 0x41 <= c as u32 <= 0x5A {
        (c as u32 + 0x20) as u32
    } else {
        c as u32
    }
}

/// A line part-way through splitting: the tokens that have ended, and the
/// characters of the token that is still open.
pub struct Scan {
    pub done: Seq<Seq<char>>,
    pub current: Seq<char>,
}

/// Splitting, character by character: whitespace ends the open token if
/// there is one, any other character extends it.
pub open spec fn scan(s: Seq<char>) -> Scan
    decreases s.len(),
{
    if s.len() == 0 {
        Scan { done: Seq::empty(), current: Seq::empty() }
    } else {
        let before = scan(s.drop_last());
        if is_whitespace(s.last()) {
            if before.current.len() > 0 {
                Scan { done: before.done.push(before.current), current: Seq::empty() }
            } else {
                before
            }
        } else {
            Scan { done: before.done, current: before.current.push(s.last()) }
        }
    }
}

/// The maximal runs of characters of `s` that hold no whitespace, in order.
pub open spec fn tokens(s: Seq<char>) -> Seq<Seq<char>> {
    let end = scan(s);
    if end.current.len() > 0 {
        end.done.push(end.current)
    } else {
        end.done
    }
}

/// The number written by the decimal digits `d`.
pub open spec fn decimal_value(d: Seq<char>) -> nat
    decreases d.len(),
{
    if d.len() == 0 {
        0
    } else {
        decimal_value(d.drop_last()) * 10 + digit_value(d.last())
    }
}

pub open spec fn all_digits(d: Seq<char>) -> bool {
    forall|i: int| 0 <= i < d.len() ==> is_digit(#[trigger] d[i])
}

/// `s` without a leading plus sign.
pub open spec fn unsigned_digits(s: Seq<char>) -> Seq<char> {
    if s.len() > 0 && s[0] == '+' {
        s.skip(1)
    } else {
        s
    }
}

/// The number that `s` writes: an optional plus sign, then one or more
/// decimal digits, with a value of at most `max`. `None` for anything else.
pub open spec fn parse_unsigned(s: Seq<char>, max: nat) -> Option<nat> {
    let d = unsigned_digits(s);
    if d.len() > 0 && all_digits(d) && decimal_value(d) <= max {
        Some(decimal_value(d))
    } else {
        None
    }
}

/// How many decimal digits `s` holds in a row from position `from` on.
pub open spec fn digit_run(s: Seq<char>, from: int) -> nat
    decreases s.len() - from,
{
    if 0 <= from < s.len() && is_digit(s[from]) {
        1 + digit_run(s, from + 1)
    } else {
        0
    }
}

/// Whether `s` from position `from` on is an exponent: the letter `e` in
/// either case, an optional sign, then one or more digits to the end.
pub open spec fn is_exponent(s: Seq<char>, from: int) -> bool {
    &&& 0 <= from < s.len()
    &&& lower(s[from]) == 0x65
    &&& {
        let digits = if from + 1 < s.len() && (s[from + 1] == '+' || s[from + 1] == '-') {
            from + 2
        } else {
            from + 1
        };
        digit_run(s, digits) >= 1 && digits + digit_run(s, digits) == s.len()
    }
}

/// Whether `s` from position `from` on is a number: digits with at most one
/// point among them and at least one digit, then an optional exponent.
pub open spec fn is_number(s: Seq<char>, from: int) -> bool {
    let whole = digit_run(s, from);
    let point = from + whole;
    if 0 <= point < s.len() && s[point] == '.' {
        let fraction = digit_run(s, point + 1);
        let end = point + 1 + fraction;
        whole + fraction >= 1 && (end == s.len() || is_exponent(s, end))
    } else {
        whole >= 1 && (point == s.len() || is_exponent(s, point))
    }
}

/// Whether `s` from position `from` on spells `inf`, `infinity` or `nan`,
/// in any mixture of cases.
pub open spec fn is_special(s: Seq<char>, from: int) -> bool {
    ||| s.len() == from + 3 && lower(s[from]) == 0x69 && lower(s[from + 1]) == 0x6E && lower(
        s[from + 2],
    ) == 0x66
    ||| s.len() == from + 3 && lower(s[from]) == 0x6E && lower(s[from + 1]) == 0x61 && lower(
        s[from + 2],
    ) == 0x6E
    ||| s.len() == from + 8 && lower(s[from]) == 0x69 && lower(s[from + 1]) == 0x6E && lower(
        s[from + 2],
    ) == 0x66 && lower(s[from + 3]) == 0x69 && lower(s[from + 4]) == 0x6E && lower(s[from + 5])
        == 0x69 && lower(s[from + 6]) == 0x74 && lower(s[from + 7]) == 0x79
}

/// Whether `s` is a decimal floating-point literal: an optional sign, then
/// `inf`, `infinity`, `nan` or a number.
pub open spec fn is_float_literal(s: Seq<char>) -> bool {
    let from: int = if s.len() > 0 && (s[0] == '+' || s[0] == '-') {
        1
    } else {
        0
    };
    0 <= from <= s.len() && (is_special(s, from) || is_number(s, from))
}

/// The value of a prefix of a digit string is at most the value of the
/// whole.
pub proof fn lemma_decimal_prefix(d: Seq<char>, i: int)
    requires
        0 <= i <= d.len(),
    ensures
        decimal_value(d.take(i)) <= decimal_value(d),
    decreases d.len() - i,
{
    if i < d.len() {
        lemma_decimal_prefix(d, i + 1);
        assert(d.take(i + 1).drop_last() =~= d.take(i));
    } else {
        assert(d.take(i) =~= d);
    }
}

/// No token is empty, and no token holds whitespace.
pub proof fn lemma_tokens_shape(s: Seq<char>)
    ensures
        forall|i: int|
            0 <= i < tokens(s).len() ==> (#[trigger] tokens(s)[i]).len() > 0 && forall|j: int|
                0 <= j < tokens(s)[i].len() ==> !is_whitespace(#[trigger] tokens(s)[i][j]),
{
    lemma_scan_shape(s);
}

proof fn lemma_scan_shape(s: Seq<char>)
    ensures
        forall|i: int|
            0 <= i < scan(s).done.len() ==> (#[trigger] scan(s).done[i]).len() > 0 && forall|j: int|
                0 <= j < scan(s).done[i].len() ==> !is_whitespace(#[trigger] scan(s).done[i][j]),
        forall|j: int| 0 <= j < scan(s).current.len() ==> !is_whitespace(#[trigger] scan(s).current[j]),
    decreases s.len(),
{
    if s.len() > 0 {
        lemma_scan_shape(s.drop_last());
        let before = scan(s.drop_last());
        let now = scan(s);
        if is_whitespace(s.last()) {
            if before.current.len() > 0 {
                assert forall|i: int| 0 <= i < now.done.len() implies (#[trigger] now.done[i]).len()
                    > 0 && forall|j: int|
                    0 <= j < now.done[i].len() ==> !is_whitespace(#[trigger] now.done[i][j]) by {
                    if i < before.done.len() {
                        assert(now.done[i] == before.done[i]);
                    } else {
                        assert(now.done[i] == before.current);
                    }
                }
            }
        } else {
            assert forall|j: int| 0 <= j < now.current.len() implies !is_whitespace(
                #[trigger] now.current[j],
            ) by {
                if j < before.current.len() {
                    assert(now.current[j] == before.current[j]);
                }
            }
        }
    }
}

/// The characters of `line`, in order.
pub fn chars_of(line: &str) -> (chars: Vec<char>)
    ensures
        chars@ == line@,
{
    let mut chars: Vec<char> = Vec::new();
    for c in it: line.chars()
        invariant
            it.seq() == line@,
            chars@ == it.seq().take(it.index() as int),
    {
        chars.push(c);
        assert(it.seq().take(it.index() + 1) =~= it.seq().take(it.index() as int).push(c));
    }
    assert(line@.take(line@.len() as int) =~= line@);
    chars
}

pub fn is_space(c: char) -> (r: bool)
    ensures
        r == is_whitespace(c),
{
    let n = c as u32;
    (0x09 <= n && n <= 0x0D) || n == 0x20 || n == 0x85 || n == 0xA0 || n == 0x1680 || (0x2000 <= n
        && n <= 0x200A) || n == 0x2028 || n == 0x2029 || n == 0x202F || n == 0x205F || n == 0x3000
}

/// Splits a line into its tokens: each of them is a run of characters
/// without whitespace, and none is empty.
pub fn split_whitespace(line: &str) -> (parts: Vec<Vec<char>>)
    ensures
        parts@.len() == tokens(line@).len(),
        forall|i: int| 0 <= i < parts@.len() ==> (#[trigger] parts@[i])@ == tokens(line@)[i],
        forall|i: int|
            0 <= i < parts@.len() ==> (#[trigger] parts@[i])@.len() > 0 && forall|j: int|
                0 <= j < parts@[i]@.len() ==> !is_whitespace(#[trigger] parts@[i]@[j]),
{
    let mut parts: Vec<Vec<char>> = Vec::new();
    let mut current: Vec<char> = Vec::new();
    for c in it: line.chars()
        invariant
            it.seq() == line@,
            current@ == scan(line@.take(it.index() as int)).current,
            parts@.len() == scan(line@.take(it.index() as int)).done.len(),
            forall|i: int|
                0 <= i < parts@.len() ==> (#[trigger] parts@[i])@ == scan(
                    line@.take(it.index() as int),
                ).done[i],
    {
        proof {
            let upto = line@.take(it.index() + 1);
            assert(upto.drop_last() =~= line@.take(it.index() as int));
            assert(upto.last() == c);
        }
        if is_space(c) {
            if current.len() > 0 {
                parts.push(current);
                current = Vec::new();
            }
        } else {
            current.push(c);
        }
    }
    proof {
        assert(line@.take(line@.len() as int) =~= line@);
    }
    if current.len() > 0 {
        parts.push(current);
    }
    proof {
        lemma_tokens_shape(line@);
        assert forall|i: int| 0 <= i < parts@.len() implies (#[trigger] parts@[i])@.len() > 0
            && forall|j: int|
            0 <= j < parts@[i]@.len() ==> !is_whitespace(#[trigger] parts@[i]@[j]) by {
            assert(parts@[i]@ == tokens(line@)[i]);
        }
    }
    parts
}

/// Reads an unsigned decimal number of at most `max`.
pub fn parse_bounded(token: &Vec<char>, max: u32) -> (r: Option<u32>)
    ensures
        match r {
            Some(n) => parse_unsigned(token@, max as nat) == Some(n as nat),
            None => parse_unsigned(token@, max as nat).is_none(),
        },
{
    let start: usize = if token.len() > 0 && token[0] == '+' {
        1
    } else {
        0
    };
    let ghost d = unsigned_digits(token@);
    proof {
        assert(d =~= token@.skip(start as int));
    }
    if start == token.len() {
        return None;
    }
    let mut value: u64 = 0;
    let mut i: usize = start;
    while i < token.len()
        invariant
            start <= i <= token.len(),
            d == token@.skip(start as int),
            d == unsigned_digits(token@),
            value == decimal_value(d.take(i - start)),
            value <= max,
            forall|j: int| 0 <= j < i - start ==> is_digit(#[trigger] d[j]),
        decreases token.len() - i,
    {
        let c = token[i];
        let n = c as u32;
        proof {
            assert(d[i - start] == c);
            assert(d.take(i - start + 1).drop_last() =~= d.take(i - start));
        }
        if n < 0x30 || n > 0x39 {
            proof {
                assert(!is_digit(d[i - start]));
            }
            return None;
        }
        value = value * 10 + ((n - 0x30) as u64);
        proof {
            assert(d.take(i - start + 1).last() == c);
            assert(value == decimal_value(d.take(i - start + 1)));
        }
        if value > max as u64 {
            proof {
                lemma_decimal_prefix(d, i - start + 1);
            }
            return None;
        }
        i += 1;
    }
    proof {
        assert(d.take(d.len() as int) =~= d);
    }
    Some(value as u32)
}

/// Counts the decimal digits in a row from position `from` on.
fn count_digits(token: &Vec<char>, from: usize) -> (n: usize)
    requires
        from <= token.len(),
    ensures
        n == digit_run(token@, from as int),
        from + n <= token.len(),
{
    let mut i: usize = from;
    while i < token.len() && 0x30 <= token[i] as u32 && token[i] as u32 <= 0x39
        invariant
            from <= i <= token.len(),
            digit_run(token@, from as int) == (i - from) + digit_run(token@, i as int),
        decreases token.len() - i,
    {
        i += 1;
    }
    i - from
}

fn lower_of(c: char) -> (l: u32)
    ensures
        l == lower(c),
{
    let n = c as u32;
    if 0x41 <= n && n <= 0x5A {
        n + 0x20
    } else {
        n
    }
}

fn exponent_at(token: &Vec<char>, from: usize) -> (r: bool)
    requires
        from <= token.len(),
    ensures
        r == is_exponent(token@, from as int),
{
    if from >= token.len() || lower_of(token[from]) != 0x65 {
        return false;
    }
    let digits: usize = if from + 1 < token.len() && (token[from + 1] == '+' || token[from + 1]
        == '-') {
        from + 2
    } else {
        from + 1
    };
    let run = count_digits(token, digits);
    run >= 1 && digits + run == token.len()
}

fn number_at(token: &Vec<char>, from: usize) -> (r: bool)
    requires
        from <= token.len(),
    ensures
        r == is_number(token@, from as int),
{
    let whole = count_digits(token, from);
    let point = from + whole;
    if point < token.len() && token[point] == '.' {
        let fraction = count_digits(token, point + 1);
        let end = point + 1 + fraction;
        whole + fraction >= 1 && (end == token.len() || exponent_at(token, end))
    } else {
        whole >= 1 && (point == token.len() || exponent_at(token, point))
    }
}

fn special_at(token: &Vec<char>, from: usize) -> (r: bool)
    requires
        from <= token.len(),
    ensures
        r == is_special(token@, from as int),
{
    let rest = token.len() - from;
    if rest == 3 {
        let a = lower_of(token[from]);
        let b = lower_of(token[from + 1]);
        let c = lower_of(token[from + 2]);
        (a == 0x69 && b == 0x6E && c == 0x66) || (a == 0x6E && b == 0x61 && c == 0x6E)
    } else if rest == 8 {
        lower_of(token[from]) == 0x69 && lower_of(token[from + 1]) == 0x6E && lower_of(
            token[from + 2],
        ) == 0x66 && lower_of(token[from + 3]) == 0x69 && lower_of(token[from + 4]) == 0x6E
            && lower_of(token[from + 5]) == 0x69 && lower_of(token[from + 6]) == 0x74 && lower_of(
            token[from + 7],
        ) == 0x79
    } else {
        false
    }
}

/// Whether `token` is a decimal floating-point literal.
pub fn is_float_token(token: &Vec<char>) -> (r: bool)
    ensures
        r == is_float_literal(token@),
{
    let from: usize = if token.len() > 0 && (token[0] == '+' || token[0] == '-') {
        1
    } else {
        0
    };
    special_at(token, from) || number_at(token, from)
}

} // verus!
