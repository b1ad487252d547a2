//! Text positions are counted in characters; `CharIndex` is the one place where a position
//! becomes a byte offset, so multi-byte characters are never cut in half.
use vstd::prelude::*;
use vstd::string::*;
use vstd::utf8::*;

verus! {

/// A text position, counted in characters.
#[derive(Clone, Copy, PartialEq, Eq, Debug, Structural)]
pub struct Pos(pub usize);

/// The half-open character interval `[start, end)`.
#[derive(Clone, Copy, PartialEq, Eq, Debug, Structural)]
pub struct CharRange {
    pub start: Pos,
    pub end: Pos,
}

impl CharRange {
    /// The range between two character indices.
    pub fn chars(start: usize, end: usize) -> (r: Self)
        ensures
            r == (CharRange { start: Pos(start), end: Pos(end) }),
    {
        CharRange { start: Pos(start), end: Pos(end) }
    }

    /// Whether the range lies inside a text of `len` characters.
    pub open spec fn fits(self, len: nat) -> bool {
        self.start.0 <= self.end.0 <= len
    }
}

/// The byte offset of character position `pos` in the UTF-8 encoding of `s`.
pub open spec fn byte_at(s: Seq<char>, pos: int) -> nat {
    encode_utf8(s.take(pos)).len()
}

/// Encoding a concatenation concatenates the encodings.
pub proof fn lemma_encode_concat(a: Seq<char>, b: Seq<char>)
    ensures
        encode_utf8(a + b) == encode_utf8(a) + encode_utf8(b),
    decreases a.len(),
{
    if a.len() == 0 {
        assert(a + b =~= b);
        assert(encode_utf8(a) + encode_utf8(b) =~= encode_utf8(b));
    } else {
        lemma_encode_concat(a.drop_first(), b);
        assert((a + b).drop_first() =~= a.drop_first() + b);
        assert(encode_utf8(a + b) =~= encode_utf8(a) + encode_utf8(b));
    }
}

/// One character further is that character's encoding further.
pub proof fn lemma_byte_at_step(s: Seq<char>, i: int)
    requires
        0 <= i < s.len(),
    ensures
        byte_at(s, i + 1) == byte_at(s, i) + encode_scalar(s[i] as u32).len(),
{
    reveal_with_fuel(encode_utf8, 2);
    let one = seq![s[i]];
    assert(s.take(i + 1) =~= s.take(i) + one);
    lemma_encode_concat(s.take(i), one);
    assert(one.drop_first() =~= Seq::<char>::empty());
    assert(encode_utf8(one) =~= encode_scalar(s[i] as u32));
}

/// A text has no more characters than bytes.
pub proof fn lemma_encode_len(s: Seq<char>)
    ensures
        s.len() <= encode_utf8(s).len(),
    decreases s.len(),
{
    if s.len() > 0 {
        lemma_encode_len(s.drop_first());
    }
}

/// Splitting a text at a character splits its encoding at `byte_at`.
pub proof fn lemma_byte_at(s: Seq<char>, pos: int)
    requires
        0 <= pos <= s.len(),
    ensures
        byte_at(s, pos) <= encode_utf8(s).len(),
        encode_utf8(s).subrange(0, byte_at(s, pos) as int) == encode_utf8(s.take(pos)),
        encode_utf8(s).subrange(byte_at(s, pos) as int, encode_utf8(s).len() as int)
            == encode_utf8(s.skip(pos)),
{
    assert(s =~= s.take(pos) + s.skip(pos));
    lemma_encode_concat(s.take(pos), s.skip(pos));
    assert(encode_utf8(s).subrange(0, byte_at(s, pos) as int) =~= encode_utf8(s.take(pos)));
    assert(encode_utf8(s).subrange(byte_at(s, pos) as int, encode_utf8(s).len() as int)
        =~= encode_utf8(s.skip(pos)));
}

/// The byte offset of a character position is a character boundary.
pub proof fn lemma_boundary(s: Seq<char>, pos: int)
    requires
        0 <= pos <= s.len(),
    ensures
        valid_utf8(encode_utf8(s)),
        is_char_boundary(encode_utf8(s), byte_at(s, pos) as int),
    decreases s.len(),
{
    vstd::utf8::encode_utf8_valid_utf8(s);
    if pos > 0 {
        let bytes = encode_utf8(s);
        vstd::utf8::encode_utf8_first_scalar(s);
        assert(pop_first_scalar(bytes) =~= encode_utf8(s.drop_first()));
        assert(s.take(pos).drop_first() =~= s.drop_first().take(pos - 1));
        lemma_boundary(s.drop_first(), pos - 1);
        lemma_byte_at(s, pos);
        assert(byte_at(s, pos) == encode_scalar(s[0] as u32).len() + byte_at(s.drop_first(), pos - 1));
    }
}

/// Byte offsets grow strictly with character positions.
pub proof fn lemma_byte_at_monotone(s: Seq<char>, a: int, b: int)
    requires
        0 <= a < b <= s.len(),
    ensures
        byte_at(s, a) < byte_at(s, b),
{
    assert(s.take(b) =~= s.take(a) + s.subrange(a, b));
    lemma_encode_concat(s.take(a), s.subrange(a, b));
    lemma_encode_len(s.subrange(a, b));
}

/// Texts with the same encoding are the same.
pub proof fn lemma_encode_injective(a: Seq<char>, b: Seq<char>)
    requires
        encode_utf8(a) == encode_utf8(b),
    ensures
        a == b,
{
    vstd::utf8::encode_utf8_decode_utf8(a);
    vstd::utf8::encode_utf8_decode_utf8(b);
}

/// Number of bytes in the encoding of one character.
fn char_width(c: char) -> (w: usize)
    ensures
        w == encode_scalar(c as u32).len(),
        1 <= w <= 4,
{
    let v: u32 = c as u32;
    if v <= 0x7f {
        1
    } else if v <= 0x7ff {
        2
    } else if v <= 0xffff {
        3
    } else {
        4
    }
}

/// Conversions between character positions and byte offsets.
pub struct CharIndex;

impl CharIndex {
    /// How many characters a text has.
    pub fn char_len(s: &str) -> (n: usize)
        ensures
            n == s@.len(),
    {
        s.unicode_len()
    }

    /// The byte offset of a character position. The end of the text is a position too;
    /// anything past it is `None`.
    pub fn byte_offset(s: &str, char_pos: usize) -> (r: Option<usize>)
        ensures
            char_pos > s@.len() ==> r is None,
            char_pos <= s@.len() ==> (r matches Some(b) && b == byte_at(s@, char_pos as int)),
    {
        let total = s.as_bytes().len();
        let mut count: usize = 0;
        let mut byte: usize = 0;
        for c in iter: s.chars()
            invariant
                iter.seq() == s@,
                count == iter.index(),
                count <= char_pos,
                iter.index() <= s@.len(),
                total == encode_utf8(s@).len(),
                byte == byte_at(s@, iter.index()),
        {
            let ghost i = iter.index();
            proof {
                lemma_byte_at_step(s@, i);
                lemma_byte_at(s@, i + 1);
                lemma_encode_len(s@);
            }
            if count == char_pos {
                return Some(byte);
            }
            byte += char_width(c);
            count += 1;
        }
        proof {
            assert(s@.take(s@.len() as int) =~= s@);
        }
        if count == char_pos {
            Some(byte)
        } else {
            None
        }
    }

    /// The byte interval of a character range; `None` when an end is past the text or
    /// `start > end`.
    pub fn byte_range(s: &str, range: &CharRange) -> (r: Option<(usize, usize)>)
        ensures
            !range.fits(s@.len()) ==> r is None,
            range.fits(s@.len()) ==> (r matches Some(p) && p.0 == byte_at(s@, range.start.0 as int)
                && p.1 == byte_at(s@, range.end.0 as int) && p.0 <= p.1),
    {
        let start = match Self::byte_offset(s, range.start.0) {
            Some(b) => b,
            None => return None,
        };
        let end = match Self::byte_offset(s, range.end.0) {
            Some(b) => b,
            None => return None,
        };
        proof {
            if range.start.0 < range.end.0 {
                lemma_byte_at_monotone(s@, range.start.0 as int, range.end.0 as int);
            } else if range.end.0 < range.start.0 {
                lemma_byte_at_monotone(s@, range.end.0 as int, range.start.0 as int);
            }
        }
        if start <= end {
            Some((start, end))
        } else {
            None
        }
    }
}

/// Cuts a text at the byte offset of a character position.
pub fn split_text(s: &str, byte: usize, Ghost(pos): Ghost<int>) -> (r: (&str, &str))
    requires
        0 <= pos <= s@.len(),
        byte == byte_at(s@, pos),
    ensures
        r.0@ == s@.take(pos),
        r.1@ == s@.skip(pos),
{
    proof {
        lemma_boundary(s@, pos);
        lemma_byte_at(s@, pos);
    }
    let r = s.split_at(byte);
    proof {
        lemma_encode_injective(r.0@, s@.take(pos));
        lemma_encode_injective(r.1@, s@.skip(pos));
    }
    r
}

} // verus!
