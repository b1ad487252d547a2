//! What the operations on texts give, told by the characters of the texts.
use crate::text;
use vstd::prelude::*;

verus! {

// ---------------------------------------------------------------- white space around a text

proof fn lemma_trimmed_start(s: Seq<char>) -> (a: int)
    ensures
        0 <= a <= s.len(),
        text::trimmed_start(s) == s.skip(a),
        forall|i: int| 0 <= i < a ==> text::is_white(#[trigger] s[i]),
        a < s.len() ==> !text::is_white(s[a]),
    decreases s.len(),
{
    if s.len() > 0 && text::is_white(s[0]) {
        let b = lemma_trimmed_start(s.skip(1));
        assert(s.skip(1).skip(b) =~= s.skip(b + 1));
        assert forall|i: int| 0 <= i < b + 1 implies text::is_white(#[trigger] s[i]) by {
            if i > 0 {
                assert(s.skip(1)[i - 1] == s[i]);
            }
        }
        if b + 1 < s.len() {
            assert(s.skip(1)[b] == s[b + 1]);
        }
        b + 1
    } else {
        assert(s.skip(0) =~= s);
        0
    }
}

proof fn lemma_trimmed_end(s: Seq<char>) -> (b: int)
    ensures
        0 <= b <= s.len(),
        text::trimmed_end(s) == s.take(b),
        forall|i: int| b <= i < s.len() ==> text::is_white(#[trigger] s[i]),
        b > 0 ==> !text::is_white(s[b - 1]),
    decreases s.len(),
{
    if s.len() > 0 && text::is_white(s.last()) {
        let b = lemma_trimmed_end(s.drop_last());
        assert(s.drop_last().take(b) =~= s.take(b));
        assert forall|i: int| b <= i < s.len() implies text::is_white(#[trigger] s[i]) by {
            if i < s.len() - 1 {
                assert(s.drop_last()[i] == s[i]);
            }
        }
        if b > 0 {
            assert(s.drop_last()[b - 1] == s[b - 1]);
        }
        b
    } else {
        assert(s.take(s.len() as int) =~= s);
        s.len() as int
    }
}

/// `t` is `s` without white space at its ends: what goes is white, what stays is one stretch of `s`,
/// and it neither begins nor ends with white space.
pub open spec fn is_trimmed(s: Seq<char>, t: Seq<char>) -> bool {
    &&& exists|a: int|
        0 <= a <= s.len() - t.len() && t == #[trigger] s.subrange(a, a + t.len()) && (forall|i: int|
            (0 <= i < a || a + t.len() <= i < s.len()) ==> text::is_white(#[trigger] s[i]))
    &&& t.len() > 0 ==> !text::is_white(t[0]) && !text::is_white(t.last())
}

/// Trimming takes the white space off both ends of a text, all of it and nothing else.
pub proof fn law_trimming(s: Seq<char>)
    ensures
        is_trimmed(s, text::trimmed(s)),
{
    let a = lemma_trimmed_start(s);
    let rest = s.skip(a);
    let b = lemma_trimmed_end(rest);
    let t = text::trimmed(s);
    assert(t == rest.take(b));
    assert(t =~= s.subrange(a, a + t.len()));
    assert forall|i: int| (0 <= i < a || a + t.len() <= i < s.len()) implies text::is_white(
        #[trigger] s[i],
    ) by {
        if i >= a {
            assert(rest[i - a] == s[i]);
        }
    }
    if t.len() > 0 {
        assert(t[0] == s[a]);
        assert(t.last() == rest[b - 1]);
    }
}

/// There is only one way to trim a text.
pub proof fn lemma_trimmed_is_unique(s: Seq<char>, t: Seq<char>)
    requires
        is_trimmed(s, t),
    ensures
        t == text::trimmed(s),
{
    law_trimming(s);
    let u = text::trimmed(s);
    let a = choose|a: int|
        0 <= a <= s.len() - t.len() && t == #[trigger] s.subrange(a, a + t.len()) && (forall|i: int|
            (0 <= i < a || a + t.len() <= i < s.len()) ==> text::is_white(#[trigger] s[i]));
    let b = choose|b: int|
        0 <= b <= s.len() - u.len() && u == #[trigger] s.subrange(b, b + u.len()) && (forall|i: int|
            (0 <= i < b || b + u.len() <= i < s.len()) ==> text::is_white(#[trigger] s[i]));
    if t.len() > 0 {
        assert(t[0] == s[a] && t.last() == s[a + t.len() - 1]);
    }
    if u.len() > 0 {
        assert(u[0] == s[b] && u.last() == s[b + u.len() - 1]);
    }
    if t.len() == 0 {
        if u.len() > 0 {
            assert(text::is_white(s[b]));
        }
    } else {
        if u.len() == 0 {
            assert(text::is_white(s[a]));
        }
        assert(a == b);
        assert(t.len() == u.len());
    }
    assert(t =~= u);
}

// ---------------------------------------------------------------- numbers

/// Decimal notation: a number below ten is one digit, and a further digit multiplies by ten and adds.
/// Zero is never written in front of other digits.
pub proof fn law_decimal_notation(n: nat, d: nat)
    requires
        d < 10,
    ensures
        text::decimal(d).len() == 1,
        text::decimal(d)[0] as u32 == '0' as u32 + d,
        n > 0 ==> text::decimal(10 * n + d).drop_last() == text::decimal(n),
        n > 0 ==> text::decimal(10 * n + d).last() as u32 == '0' as u32 + d,
{
    if n > 0 {
        let m = 10 * n + d;
        assert(m / 10 == n && m % 10 == d);
        assert(text::decimal(m).drop_last() =~= text::decimal(n));
    }
}

/// Reading numbers: nothing and anything but digits, with at most one plus sign before them, is no
/// number; a digit is its value; a further digit multiplies by ten and adds, as long as 64 bits
/// hold the result.
pub proof fn law_reading_numbers(s: Seq<char>, c: char)
    ensures
        text::number_in(Seq::empty()) is None,
        text::number_in(seq!['+']) is None,
        '0' <= c <= '9' ==> text::number_in(seq![c]) == Some((c as u32 - '0' as u32) as u64),
        s.len() > 0 && s[0] != '+' ==> text::number_in(seq!['+'] + s) == text::number_in(s),
        s.len() > 0 && s != seq!['+'] ==> text::number_in(s.push(c)) == match text::number_in(s) {
            Some(v) => if '0' <= c <= '9' && 10 * v + (c as u32 - '0' as u32) <= u64::MAX {
                Some((10 * v + (c as u32 - '0' as u32)) as u64)
            } else {
                None
            },
            None => None,
        },
{
    reveal_with_fuel(text::digits_value, 3);
    assert(seq!['+'].skip(1) =~= Seq::empty());
    assert(seq![c].drop_last() =~= Seq::empty());
    if s.len() > 0 && s[0] != '+' {
        assert((seq!['+'] + s).skip(1) =~= s);
    }
    if s.len() > 0 && s != seq!['+'] {
        let t = s.push(c);
        let body = if s[0] == '+' {
            s.skip(1)
        } else {
            s
        };
        if s[0] == '+' {
            assert(t.skip(1) =~= body.push(c));
            if body.len() == 0 {
                assert(s =~= seq!['+']);
            }
        }
        assert(body.push(c).drop_last() =~= body);
        assert(text::digits_value(body.push(c)) == match (
            text::digits_value(body),
            text::digit_value(c),
        ) {
            (Some(v), Some(d)) => Some((10 * v + d) as nat),
            _ => None,
        });
    }
}

// ---------------------------------------------------------------- searching

/// `pat` stands somewhere in `s`.
pub open spec fn occurs(s: Seq<char>, pat: Seq<char>) -> bool {
    exists|a: Seq<char>, b: Seq<char>| s == #[trigger] (a + pat + b)
}

/// What stands before and behind the first occurrence, put together with it, is the text, and there
/// is no earlier occurrence; where there is none, all of the text stands before and nothing behind.
pub proof fn law_cutting_at_the_first(s: Seq<char>, pat: Seq<char>)
    ensures
        text::holds(s, pat) <==> occurs(s, pat),
        match text::after(s, pat) {
            Some(rest) => s == text::before(s, pat) + pat + rest && forall|j: int|
                0 <= j < text::before(s, pat).len() ==> !#[trigger] text::stands_at(s, pat, j),
            None => !occurs(s, pat) && text::before(s, pat) == s,
        },
        text::begins(s, pat) <==> exists|b: Seq<char>| s == #[trigger] (pat + b),
{
    text::law_find_gives_the_first_place(s, pat, 0);
    if let Some(i) = text::find(s, pat, 0) {
        let a = s.take(i);
        let b = s.skip(i + pat.len());
        assert(s =~= a + pat + b);
    }
    if occurs(s, pat) {
        let (a, b) = choose|a: Seq<char>, b: Seq<char>| s == #[trigger] (a + pat + b);
        assert(s.subrange(a.len() as int, (a.len() + pat.len()) as int) =~= pat);
        assert(text::stands_at(s, pat, a.len() as int));
    }
    if text::begins(s, pat) {
        assert(s =~= pat + s.skip(pat.len() as int));
    }
    if exists|b: Seq<char>| s == #[trigger] (pat + b) {
        let b = choose|b: Seq<char>| s == #[trigger] (pat + b);
        assert(s.subrange(0, pat.len() as int) =~= pat);
    }
}

// ---------------------------------------------------------------- lines

pub proof fn lemma_line_end(s: Seq<char>, n: int, from: int)
    requires
        0 <= from <= n <= s.len(),
        forall|i: int| from <= i < n ==> #[trigger] s[i] != '\n',
        n < s.len() ==> s[n] == '\n',
    ensures
        text::line_end(s, from) == n,
    decreases n - from,
{
    if from < n {
        lemma_line_end(s, n, from + 1);
    }
}

/// Lines: no text has no line; a text without a line feed is one line; and the first line feed ends
/// the first line, of which a carriage return at its end is no part, and the lines of the rest
/// follow.
pub proof fn law_lines(line: Seq<char>, rest: Seq<char>)
    requires
        forall|i: int| 0 <= i < line.len() ==> #[trigger] line[i] != '\n',
    ensures
        text::lines_of(Seq::empty()).len() == 0,
        line.len() > 0 ==> text::lines_of(line) == seq![line],
        (line.len() == 0 || line.last() != '\r') ==> text::lines_of(line.push('\n') + rest)
            == seq![line] + text::lines_of(rest),
        text::lines_of(line.push('\r').push('\n') + rest) == seq![line] + text::lines_of(rest),
{
    if line.len() > 0 {
        lemma_line_end(line, line.len() as int, 0);
    }
    let s = line.push('\n') + rest;
    let n = line.len() as int;
    lemma_line_end(s, n, 0);
    assert(s.take(n) =~= line);
    assert(s.skip(n + 1) =~= rest);
    let t = line.push('\r').push('\n') + rest;
    lemma_line_end(t, n + 1, 0);
    assert(t.take(n + 1) =~= line.push('\r'));
    assert(t.take(n + 1).drop_last() =~= line);
    assert(t.skip(n + 2) =~= rest);
}

// ---------------------------------------------------------------- joining

/// Joining: nothing gives nothing, one text gives itself, and each further text follows behind the
/// separator.
pub proof fn law_joining(parts: Seq<Seq<char>>, last: Seq<char>, sep: Seq<char>)
    ensures
        text::joined(Seq::empty(), sep).len() == 0,
        text::joined(seq![last], sep) == last,
        parts.len() > 0 ==> text::joined(parts.push(last), sep) == text::joined(parts, sep) + sep
            + last,
{
    if parts.len() > 0 {
        assert(parts.push(last).drop_last() =~= parts);
    }
}

} // verus!
