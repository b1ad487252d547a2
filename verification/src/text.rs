//! Character-level text helpers: everything works on Unicode scalar values, never on raw bytes.
use vstd::prelude::*;
use vstd::string::*;

verus! {

/// `String::push` appends one character at the end.
pub assume_specification[ String::push ](s: &mut String, c: char)
    ensures
        final(s)@ == old(s)@.push(c),
;

/// The characters of `s`, in order.
pub fn chars_of(s: &str) -> (out: Vec<char>)
    ensures
        out@ == s@,
{
    let mut out: Vec<char> = Vec::new();
    for c in iter: s.chars()
        invariant
            iter.seq() == s@,
            out@ == s@.take(iter.index()),
    {
        out.push(c);
    }
    out
}

/// The text spelled by `chars[from..to]`.
pub fn text_slice(chars: &[char], from: usize, to: usize) -> (out: String)
    requires
        from <= to <= chars@.len(),
    ensures
        out@ == chars@.subrange(from as int, to as int),
{
    let mut out = String::new();
    let mut i: usize = from;
    while i < to
        invariant
            from <= i <= to <= chars@.len(),
            out@ == chars@.subrange(from as int, i as int),
        decreases to - i,
    {
        out.push(chars[i]);
        i += 1;
    }
    out
}

/// The texts of `parts`, one after the other, with `sep` between them.
pub open spec fn joined(parts: Seq<Seq<char>>, sep: Seq<char>) -> Seq<char>
    decreases parts.len(),
{
    if parts.len() == 0 {
        Seq::empty()
    } else if parts.len() == 1 {
        parts[0]
    } else {
        joined(parts.drop_last(), sep) + sep + parts.last()
    }
}

/// Joins texts with a separator between them.
pub fn join(parts: &Vec<String>, sep: &str) -> (out: String)
    ensures
        out@ == joined(parts@.map_values(|p: String| p@), sep@),
{
    let ghost all = parts@.map_values(|p: String| p@);
    let mut out = String::new();
    proof {
        assert(all.take(0) =~= Seq::empty());
    }
    let mut i: usize = 0;
    while i < parts.len()
        invariant
            i <= parts@.len(),
            all == parts@.map_values(|p: String| p@),
            out@ == joined(all.take(i as int), sep@),
        decreases parts@.len() - i,
    {
        proof {
            assert(all.take(i + 1).drop_last() =~= all.take(i as int));
        }
        if i > 0 {
            out.append(sep);
        }
        out.append(parts[i].as_str());
        i += 1;
        proof {
            if i == 1 {
                assert(out@ =~= all[0]);
            }
        }
    }
    proof {
        assert(all.take(i as int) =~= all);
    }
    out
}

/// Whether two texts hold the same characters.
pub fn same_text(a: &str, b: &str) -> (r: bool)
    ensures
        r == (a@ == b@),
{
    let x = a.as_bytes();
    let y = b.as_bytes();
    proof {
        vstd::utf8::encode_utf8_decode_utf8(a@);
        vstd::utf8::encode_utf8_decode_utf8(b@);
    }
    if x.len() != y.len() {
        return false;
    }
    let mut i: usize = 0;
    while i < x.len()
        invariant
            i <= x@.len(),
            x@.len() == y@.len(),
            x@.take(i as int) == y@.take(i as int),
            x@ == vstd::utf8::encode_utf8(a@),
            y@ == vstd::utf8::encode_utf8(b@),
        decreases x@.len() - i,
    {
        if x[i] != y[i] {
            return false;
        }
        proof {
            assert(x@.take(i + 1) =~= x@.take(i as int).push(x@[i as int]));
            assert(y@.take(i + 1) =~= y@.take(i as int).push(y@[i as int]));
        }
        i += 1;
    }
    proof {
        assert(x@.take(i as int) =~= x@);
        assert(y@.take(i as int) =~= y@);
    }
    true
}

// ---------------------------------------------------------------- sizes

/// A text in memory has no more characters than a machine can count.
pub fn measure(s: &str) -> (bytes: usize)
    ensures
        bytes >= s@.len(),
{
    let bytes = s.as_bytes();
    proof {
        crate::offsets::lemma_encode_len(s@);
    }
    bytes.len()
}

// ---------------------------------------------------------------- numbers

/// The decimal digit of a number below ten.
pub open spec fn digit(d: nat) -> char {
    (48 + d) as char
}

/// A number in decimal notation.
pub open spec fn decimal(n: nat) -> Seq<char>
    decreases n,
{
    if n < 10 {
        seq![digit(n)]
    } else {
        decimal(n / 10).push(digit(n % 10))
    }
}

fn digit_char(d: u64) -> (c: char)
    requires
        d < 10,
    ensures
        c == digit(d as nat),
{
    if d == 0 {
        '0'
    } else if d == 1 {
        '1'
    } else if d == 2 {
        '2'
    } else if d == 3 {
        '3'
    } else if d == 4 {
        '4'
    } else if d == 5 {
        '5'
    } else if d == 6 {
        '6'
    } else if d == 7 {
        '7'
    } else if d == 8 {
        '8'
    } else {
        '9'
    }
}

/// Writes a number in decimal notation.
pub fn decimal_text(n: u64) -> (s: String)
    ensures
        s@ == decimal(n as nat),
    decreases n,
{
    if n < 10 {
        let mut s = String::new();
        s.push(digit_char(n));
        s
    } else {
        let mut s = decimal_text(n / 10);
        s.push(digit_char(n % 10));
        s
    }
}

/// Writes a count in decimal notation.
pub fn count_text(n: usize) -> (s: String)
    ensures
        s@ == decimal(n as nat),
{
    decimal_text(n as u64)
}

/// Different numbers are written differently.
pub proof fn law_decimal_is_injective(a: nat, b: nat)
    requires
        decimal(a) == decimal(b),
    ensures
        a == b,
    decreases a,
{
    let x = decimal(a);
    assert(x.last() == digit(a % 10)) by {
        if a < 10 {
            assert(a % 10 == a);
        }
    }
    assert(x.last() == digit(b % 10)) by {
        if b < 10 {
            assert(b % 10 == b);
        }
    }
    assert(a % 10 == b % 10);
    lemma_decimal_nonempty(a / 10);
    lemma_decimal_nonempty(b / 10);
    if a >= 10 && b >= 10 {
        assert(x.drop_last() =~= decimal(a / 10));
        assert(x.drop_last() =~= decimal(b / 10));
        law_decimal_is_injective(a / 10, b / 10);
    }
}

/// A number is written with digits alone, zero as a single one.
pub proof fn lemma_decimal_digits(n: nat)
    ensures
        decimal(n).len() > 0,
        forall|i: int| 0 <= i < decimal(n).len() ==> '0' <= #[trigger] decimal(n)[i] <= '9',
        n == 0 ==> decimal(n) == seq!['0'],
        n > 0 && decimal(n).len() == 1 ==> decimal(n)[0] != '0',
    decreases n,
{
    if n >= 10 {
        lemma_decimal_digits(n / 10);
    }
}

proof fn lemma_decimal_nonempty(n: nat)
    ensures
        decimal(n).len() > 0,
{
}

/// The value of a decimal digit.
pub open spec fn digit_value(c: char) -> Option<nat> {
    if '0' <= c <= '9' {
        Some((c as int - 48) as nat)
    } else {
        None
    }
}

/// The value of a run of decimal digits; the empty run has the value zero.
pub open spec fn digits_value(s: Seq<char>) -> Option<nat>
    decreases s.len(),
{
    if s.len() == 0 {
        Some(0)
    } else {
        match (digits_value(s.drop_last()), digit_value(s.last())) {
            (Some(v), Some(d)) => Some(10 * v + d),
            _ => None,
        }
    }
}

/// Reading a number: decimal digits, at least one, with a plus sign before them or not.
pub open spec fn number_in(s: Seq<char>) -> Option<u64> {
    let body = if s.len() > 0 && s[0] == '+' {
        s.skip(1)
    } else {
        s
    };
    if body.len() == 0 {
        None
    } else {
        match digits_value(body) {
            Some(v) => if v <= u64::MAX {
                Some(v as u64)
            } else {
                None
            },
            None => None,
        }
    }
}

/// A run of digits is worth at least what any longer run starts with.
proof fn lemma_digits_prefix(s: Seq<char>, k: int)
    requires
        0 <= k <= s.len(),
        digits_value(s) is Some,
    ensures
        digits_value(s.take(k)) is Some,
        digits_value(s.take(k))->Some_0 <= digits_value(s)->Some_0,
    decreases s.len(),
{
    if k < s.len() {
        lemma_digits_prefix(s.drop_last(), k);
        assert(s.drop_last().take(k) =~= s.take(k));
    } else {
        assert(s.take(k) =~= s);
    }
}

/// Reads a number that fits 64 bits.
pub fn parse_number(text: &str) -> (r: Option<u64>)
    ensures
        r == number_in(text@),
{
    let chars = chars_of(text);
    let mut i: usize = 0;
    if chars.len() > 0 && chars[0] == '+' {
        i = 1;
    }
    let start = i;
    let ghost body = chars@.skip(start as int);
    proof {
        if start == 0 {
            assert(body =~= chars@);
        }
    }
    if start == chars.len() {
        return None;
    }
    let mut v: u64 = 0;
    while i < chars.len()
        invariant
            start <= i <= chars@.len(),
            start < chars@.len(),
            body == chars@.skip(start as int),
            digits_value(body.take(i - start)) == Some(v as nat),
            body == (if text@.len() > 0 && text@[0] == '+' {
                text@.skip(1)
            } else {
                text@
            }),
        decreases chars@.len() - i,
    {
        let c = chars[i];
        let ghost k = i - start;
        proof {
            assert(body.take(k + 1).drop_last() =~= body.take(k));
            assert(body.take(k + 1).last() == c);
            if digits_value(body) is Some {
                lemma_digits_prefix(body, k + 1);
            }
        }
        if c < '0' || c > '9' {
            return None;
        }
        let d = (c as u32 - 48) as u64;
        if v > u64::MAX / 10 || 10 * v > u64::MAX - d {
            return None;
        }
        v = 10 * v + d;
        i += 1;
    }
    proof {
        assert(body.take(i - start) =~= body);
    }
    Some(v)
}

// ---------------------------------------------------------------- white space

/// The characters with the Unicode property `White_Space`.
pub open spec fn is_white(c: char) -> bool {
    let u = c as u32;
    ||| 0x9 <= u <= 0xd
    ||| u == 0x20
    ||| u == 0x85
    ||| u == 0xa0
    ||| u == 0x1680
    ||| 0x2000 <= u <= 0x200a
    ||| u == 0x2028
    ||| u == 0x2029
    ||| u == 0x202f
    ||| u == 0x205f
    ||| u == 0x3000
}

/// Whether a character is white space.
pub fn white(c: char) -> (r: bool)
    ensures
        r == is_white(c),
{
    let u: u32 = c as u32;
    (0x9 <= u && u <= 0xd) || u == 0x20 || u == 0x85 || u == 0xa0 || u == 0x1680 || (0x2000 <= u
        && u <= 0x200a) || u == 0x2028 || u == 0x2029 || u == 0x202f || u == 0x205f || u == 0x3000
}

/// A text without the white space at its beginning.
pub open spec fn trimmed_start(s: Seq<char>) -> Seq<char>
    decreases s.len(),
{
    if s.len() > 0 && is_white(s[0]) {
        trimmed_start(s.skip(1))
    } else {
        s
    }
}

/// A text without the white space at its end.
pub open spec fn trimmed_end(s: Seq<char>) -> Seq<char>
    decreases s.len(),
{
    if s.len() > 0 && is_white(s.last()) {
        trimmed_end(s.drop_last())
    } else {
        s
    }
}

/// A text without the white space around it.
pub open spec fn trimmed(s: Seq<char>) -> Seq<char> {
    trimmed_end(trimmed_start(s))
}

/// Where the trimmed part of `chars[from..to]` lies.
pub fn trim_range(chars: &[char], from: usize, to: usize) -> (r: (usize, usize))
    requires
        from <= to <= chars@.len(),
    ensures
        from <= r.0 <= r.1 <= to,
        chars@.subrange(r.0 as int, r.1 as int) == trimmed(
            chars@.subrange(from as int, to as int),
        ),
{
    let mut a: usize = from;
    while a < to && white(chars[a])
        invariant
            from <= a <= to <= chars@.len(),
            trimmed_start(chars@.subrange(from as int, to as int)) == trimmed_start(
                chars@.subrange(a as int, to as int),
            ),
        decreases to - a,
    {
        proof {
            assert(chars@.subrange(a as int, to as int).skip(1) =~= chars@.subrange(
                a + 1,
                to as int,
            ));
        }
        a += 1;
    }
    let ghost mid = chars@.subrange(a as int, to as int);
    proof {
        if a < to {
            assert(mid[0] == chars@[a as int]);
        }
        assert(trimmed_start(mid) == mid);
    }
    let mut b: usize = to;
    while b > a && white(chars[b - 1])
        invariant
            from <= a <= b <= to <= chars@.len(),
            trimmed_end(mid) == trimmed_end(chars@.subrange(a as int, b as int)),
        decreases b,
    {
        proof {
            let cur = chars@.subrange(a as int, b as int);
            assert(cur.last() == chars@[b - 1]);
            assert(cur.drop_last() =~= chars@.subrange(a as int, b - 1));
        }
        b -= 1;
    }
    proof {
        let cur = chars@.subrange(a as int, b as int);
        if b > a {
            assert(cur.last() == chars@[b - 1]);
        }
    }
    (a, b)
}

/// A text without the white space around it.
pub fn trim_text(s: &str) -> (out: String)
    ensures
        out@ == trimmed(s@),
{
    let chars = chars_of(s);
    let (a, b) = trim_range(chars.as_slice(), 0, chars.len());
    proof {
        assert(chars@.subrange(0, chars@.len() as int) =~= chars@);
    }
    text_slice(chars.as_slice(), a, b)
}

// ---------------------------------------------------------------- searching

/// `pat` stands in `s` at position `i`.
pub open spec fn stands_at(s: Seq<char>, pat: Seq<char>, i: int) -> bool {
    0 <= i && i + pat.len() <= s.len() && s.subrange(i, i + pat.len()) == pat
}

/// The first position at or after `from` at which `pat` stands in `s`.
pub open spec fn find(s: Seq<char>, pat: Seq<char>, from: int) -> Option<int>
    decreases s.len() + 1 - from,
{
    if from < 0 || from + pat.len() > s.len() {
        None
    } else if stands_at(s, pat, from) {
        Some(from)
    } else {
        find(s, pat, from + 1)
    }
}

/// What `find` finds is the first place, and it finds one if there is one.
pub proof fn law_find_gives_the_first_place(s: Seq<char>, pat: Seq<char>, from: int)
    requires
        0 <= from,
    ensures
        match find(s, pat, from) {
            Some(i) => from <= i && stands_at(s, pat, i) && forall|j: int|
                from <= j < i ==> !#[trigger] stands_at(s, pat, j),
            None => forall|j: int| from <= j ==> !#[trigger] stands_at(s, pat, j),
        },
    decreases s.len() + 1 - from,
{
    if from + pat.len() <= s.len() && !stands_at(s, pat, from) {
        law_find_gives_the_first_place(s, pat, from + 1);
    }
}

/// `pat` stands somewhere in `s`.
pub open spec fn holds(s: Seq<char>, pat: Seq<char>) -> bool {
    find(s, pat, 0) is Some
}

/// Whether `pat` stands in `chars` at `i`.
pub fn matches_at(chars: &[char], pat: &[char], i: usize) -> (r: bool)
    requires
        i <= chars@.len(),
    ensures
        r == stands_at(chars@, pat@, i as int),
{
    let n = chars.len();
    if n - i < pat.len() {
        return false;
    }
    let mut k: usize = 0;
    while k < pat.len()
        invariant
            k <= pat@.len(),
            n == chars@.len(),
            i + pat@.len() <= chars@.len(),
            chars@.subrange(i as int, i + k) == pat@.take(k as int),
        decreases pat@.len() - k,
    {
        if chars[i + k] != pat[k] {
            proof {
                assert(chars@.subrange(i as int, i + pat@.len())[k as int] != pat@[k as int]);
            }
            return false;
        }
        proof {
            assert(chars@.subrange(i as int, i + k + 1) =~= chars@.subrange(i as int, i + k).push(
                chars@[i + k],
            ));
            assert(pat@.take(k + 1) =~= pat@.take(k as int).push(pat@[k as int]));
        }
        k += 1;
    }
    proof {
        assert(pat@.take(k as int) =~= pat@);
    }
    true
}

/// The first place of `pat` in `chars` at or after `from`.
pub fn find_in(chars: &[char], pat: &[char], from: usize) -> (r: Option<usize>)
    requires
        from <= chars@.len(),
    ensures
        match r {
            Some(i) => find(chars@, pat@, from as int) == Some(i as int) && i + pat@.len()
                <= chars@.len() && from <= i,
            None => find(chars@, pat@, from as int) is None,
        },
{
    let mut i: usize = from;
    while i <= chars.len() && chars.len() - i >= pat.len()
        invariant
            from <= i <= chars@.len() + 1,
            find(chars@, pat@, from as int) == find(chars@, pat@, i as int),
        decreases chars@.len() + 1 - i,
    {
        if matches_at(chars, pat, i) {
            return Some(i);
        }
        if i == chars.len() {
            proof {
                assert(chars@.subrange(i as int, i + pat@.len()) =~= pat@);
            }
            return None;
        }
        i += 1;
    }
    None
}

/// Whether `pat` stands somewhere in `s`.
pub fn text_holds(s: &str, pat: &str) -> (r: bool)
    ensures
        r == holds(s@, pat@),
{
    let chars = chars_of(s);
    let p = chars_of(pat);
    find_in(chars.as_slice(), p.as_slice(), 0).is_some()
}

/// `s` begins with `pat`.
pub open spec fn begins(s: Seq<char>, pat: Seq<char>) -> bool {
    stands_at(s, pat, 0)
}

/// Whether `s` begins with `pat`.
pub fn text_begins(s: &str, pat: &str) -> (r: bool)
    ensures
        r == begins(s@, pat@),
{
    let chars = chars_of(s);
    let p = chars_of(pat);
    matches_at(chars.as_slice(), p.as_slice(), 0)
}

/// What stands before the first `pat`, or all of `s` if there is none.
pub open spec fn before(s: Seq<char>, pat: Seq<char>) -> Seq<char> {
    match find(s, pat, 0) {
        Some(i) => s.take(i),
        None => s,
    }
}

/// What stands after the first `pat`, if there is one.
pub open spec fn after(s: Seq<char>, pat: Seq<char>) -> Option<Seq<char>> {
    match find(s, pat, 0) {
        Some(i) => Some(s.skip(i + pat.len())),
        None => None,
    }
}

/// What stands before the first `pat`.
pub fn text_before(s: &str, pat: &str) -> (out: String)
    ensures
        out@ == before(s@, pat@),
{
    let chars = chars_of(s);
    let p = chars_of(pat);
    match find_in(chars.as_slice(), p.as_slice(), 0) {
        Some(i) => text_slice(chars.as_slice(), 0, i),
        None => {
            proof {
                assert(chars@.subrange(0, chars@.len() as int) =~= chars@);
            }
            text_slice(chars.as_slice(), 0, chars.len())
        },
    }
}

/// What stands after the first `pat`.
pub fn text_after(s: &str, pat: &str) -> (out: Option<String>)
    ensures
        match out {
            Some(t) => after(s@, pat@) == Some(t@),
            None => after(s@, pat@) is None,
        },
{
    let chars = chars_of(s);
    let p = chars_of(pat);
    match find_in(chars.as_slice(), p.as_slice(), 0) {
        Some(i) => {
            proof {
                assert(chars@.subrange(i + p@.len(), chars@.len() as int) =~= s@.skip(
                    i + p@.len(),
                ));
            }
            let n = chars.len();
            Some(text_slice(chars.as_slice(), i + p.len(), n))
        },
        None => None,
    }
}

// ---------------------------------------------------------------- lines

/// A line without the carriage return at its end, if there is one.
pub open spec fn without_return(line: Seq<char>) -> Seq<char> {
    if line.len() > 0 && line.last() == '\r' {
        line.drop_last()
    } else {
        line
    }
}

/// The lines of a text. A line ends with a line feed, or with a carriage return and a line feed;
/// the last line need not end so.
pub open spec fn lines_of(s: Seq<char>) -> Seq<Seq<char>>
    decreases s.len(),
{
    if s.len() == 0 {
        Seq::empty()
    } else {
        let nl = line_end(s, 0);
        if !(0 <= nl < s.len()) {
            seq![s]
        } else {
            seq![without_return(s.take(nl))] + lines_of(s.skip(nl + 1))
        }
    }
}

/// The first line feed at or after `from`, or the end of the text.
pub open spec fn line_end(s: Seq<char>, from: int) -> int
    decreases s.len() - from,
{
    if from < 0 {
        0
    } else if from >= s.len() {
        from
    } else if s[from] == '\n' {
        from
    } else {
        line_end(s, from + 1)
    }
}

/// Splits a text into its lines.
pub fn split_lines(s: &str) -> (out: Vec<String>)
    ensures
        out@.map_values(|l: String| l@) == lines_of(s@),
{
    let chars = chars_of(s);
    let mut out: Vec<String> = Vec::new();
    let mut pos: usize = 0;
    proof {
        assert(chars@.skip(0) =~= chars@);
        assert(out@.map_values(|l: String| l@) + lines_of(chars@.skip(0)) =~= lines_of(s@));
    }
    while pos < chars.len()
        invariant
            pos <= chars@.len(),
            chars@ == s@,
            out@.map_values(|l: String| l@) + lines_of(chars@.skip(pos as int)) == lines_of(s@),
        decreases chars@.len() - pos,
    {
        let ghost rest = chars@.skip(pos as int);
        let ghost done = out@.map_values(|l: String| l@);
        let mut i: usize = pos;
        while i < chars.len() && chars[i] != '\n'
            invariant
                pos <= i <= chars@.len(),
                rest == chars@.skip(pos as int),
                line_end(rest, 0) == line_end(rest, i - pos),
            decreases chars@.len() - i,
        {
            proof {
                assert(rest[i - pos] == chars@[i as int]);
            }
            i += 1;
        }
        proof {
            if i < chars@.len() {
                assert(rest[i - pos] == chars@[i as int]);
            }
            assert(line_end(rest, 0) == i - pos);
        }
        if i == chars.len() {
            let line = text_slice(chars.as_slice(), pos, i);
            proof {
                assert(line@ =~= rest);
            }
            out.push(line);
            proof {
                assert(out@.map_values(|l: String| l@) =~= done.push(rest));
                assert(done.push(rest) + lines_of(chars@.skip(i as int)) =~= done + seq![rest]);
            }
            pos = i;
        } else {
            let end = if i > pos && chars[i - 1] == '\r' {
                i - 1
            } else {
                i
            };
            let line = text_slice(chars.as_slice(), pos, end);
            proof {
                assert(rest.take(i - pos) =~= chars@.subrange(pos as int, i as int));
                if i > pos {
                    assert(rest.take(i - pos).last() == chars@[i - 1]);
                }
                assert(line@ =~= without_return(rest.take(i - pos)));
                assert(rest.skip(i - pos + 1) =~= chars@.skip(i + 1));
            }
            out.push(line);
            proof {
                assert(out@.map_values(|l: String| l@) =~= done.push(line@));
                assert(done.push(line@) + lines_of(chars@.skip(i + 1)) =~= done + (seq![line@]
                    + lines_of(chars@.skip(i + 1))));
            }
            pos = i + 1;
        }
    }
    proof {
        assert(chars@.skip(pos as int) =~= Seq::empty());
        assert(out@.map_values(|l: String| l@) + Seq::<Seq<char>>::empty() =~= out@.map_values(
            |l: String| l@,
        ));
    }
    out
}

// ---------------------------------------------------------------- quoting

/// How `{:?}` writes a text: in double quotes, with escapes.
pub uninterp spec fn quoted(s: Seq<char>) -> Seq<char>;

/// Wraps the `Debug` formatting of `str`: the text in double quotes, with special characters
/// escaped. The result depends on the text alone and is named `quoted`; which characters are
/// escaped is not stated.
#[verifier::external_body]
pub(crate) fn quote(s: &str) -> (out: String)
    ensures
        out@ == quoted(s@),
{
    format!("{s:?}")
}

} // verus!
