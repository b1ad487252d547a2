//! What the calls on texts and tables of texts give.
use crate::describe;
use crate::history;
use crate::offsets;
use crate::offsets::{CharIndex, CharRange};
use crate::outline;
use crate::text;
use crate::text_laws;
use crate::textmap::{Dict, TextMap};
use vstd::prelude::*;
use vstd::utf8::encode_utf8;

verus! {

// ---------------------------------------------------------------- texts

/// White space is what Unicode calls so: tabs, line ends and blanks, also the wide one, and no letter,
/// digit or mark.
pub proof fn law_white_space(c: char, r: bool)
    requires
        call_ensures(text::white, (c,), r),
    ensures
        r <==> c == '\t' || c == '\n' || c == '\u{b}' || c == '\u{c}' || c == '\r' || c == ' ' || c
            == '\u{85}' || c == '\u{a0}' || c == '\u{1680}' || ('\u{2000}' <= c && c <= '\u{200a}')
            || c == '\u{2028}' || c == '\u{2029}' || c == '\u{202f}' || c == '\u{205f}' || c
            == '\u{3000}',
        r == text::is_white(c),
{
}

/// What is cut out of a text, and whether one text is in another.
pub proof fn law_calls_on_texts(
    s: &str,
    pat: &str,
    trimmed: String,
    front: String,
    back: Option<String>,
    there: bool,
    first: bool,
    same: bool,
)
    requires
        call_ensures(text::trim_text, (s,), trimmed),
        call_ensures(text::text_before, (s, pat), front),
        call_ensures(text::text_after, (s, pat), back),
        call_ensures(text::text_holds, (s, pat), there),
        call_ensures(text::text_begins, (s, pat), first),
        call_ensures(text::same_text, (s, pat), same),
    ensures
        text_laws::is_trimmed(s@, trimmed@),
        same <==> s@ == pat@,
        first <==> pat@.len() <= s@.len() && s@.take(pat@.len() as int) == pat@,
        there <==> text_laws::occurs(s@, pat@),
        there ==> s@ == front@ + pat@ + back->Some_0@ && back is Some,
        !there ==> front@ == s@ && back is None,
{
    text_laws::law_trimming(s@);
    text_laws::law_cutting_at_the_first(s@, pat@);
    if pat@.len() <= s@.len() {
        assert(s@.take(pat@.len() as int) =~= s@.subrange(0, pat@.len() as int));
    }
}

/// Numbers are written in decimal notation and read back from it.
pub proof fn law_calls_on_numbers(n: u64, written: String, m: usize, counted: String, s: &str, r: Option<u64>)
    requires
        call_ensures(text::decimal_text, (n,), written),
        call_ensures(text::count_text, (m,), counted),
        call_ensures(text::parse_number, (s,), r),
    ensures
        written@ == text::decimal(n as nat),
        counted@ == text::decimal(m as nat),
        r == text::number_in(s@),
        s@ == written@ ==> r == Some(n),
{
    history::lemma_decimal_value(n as nat);
    assert(written@[0] != '+');
}

/// Lines and joined texts.
pub proof fn law_calls_on_lines(s: &str, lines: Vec<String>, parts: &Vec<String>, out: String)
    requires
        call_ensures(text::split_lines, (s,), lines),
        call_ensures(text::join, (parts, s), out),
    ensures
        lines@.map_values(|l: String| l@) == text::lines_of(s@),
        out@ == text::joined(parts@.map_values(|p: String| p@), s@),
{
}

// ---------------------------------------------------------------- positions

/// A position among the characters is the place in the bytes behind the encoding of all characters
/// before it; there is none beyond the end.
pub proof fn law_positions(s: &str, at: usize, r: Option<usize>, n: usize)
    requires
        call_ensures(CharIndex::byte_offset, (s, at), r),
        call_ensures(CharIndex::char_len, (s,), n),
    ensures
        n == s@.len(),
        r is Some <==> at <= s@.len(),
        r matches Some(b) ==> {
            &&& b <= encode_utf8(s@).len()
            &&& encode_utf8(s@).take(b as int) == encode_utf8(s@.take(at as int))
            &&& encode_utf8(s@).skip(b as int) == encode_utf8(s@.skip(at as int))
        },
{
    if at <= s@.len() {
        let a = s@.take(at as int);
        let b = s@.skip(at as int);
        assert(a + b =~= s@);
        offsets::lemma_encode_concat(a, b);
        assert(encode_utf8(s@).take(encode_utf8(a).len() as int) =~= encode_utf8(a));
        assert(encode_utf8(s@).skip(encode_utf8(a).len() as int) =~= encode_utf8(b));
    }
}

/// A range of characters is a range of bytes exactly if it runs forward and ends in the text.
pub proof fn law_ranges(s: &str, start: usize, end: usize, range: CharRange, r: Option<(usize, usize)>)
    requires
        call_ensures(CharRange::chars, (start, end), range),
        call_ensures(CharIndex::byte_range, (s, &range), r),
    ensures
        range.start.0 == start && range.end.0 == end,
        r is Some <==> start <= end <= s@.len(),
        r matches Some(p) ==> p.0 == encode_utf8(s@.take(start as int)).len() && p.1 == encode_utf8(
            s@.take(end as int),
        ).len(),
{
}

// ---------------------------------------------------------------- tables

/// A table holds what was last put under a key, and putting something under one key leaves the others
/// alone. A new key comes last in the order; one that is there keeps its place.
pub proof fn law_putting_into_a_table<V>(d: Dict<V>, key: Seq<char>, value: V, k: Seq<char>)
    ensures
        d.put(key, value).has(k) <==> d.has(k) || k == key,
        d.put(key, value).map[key] == value,
        k != key && d.has(k) ==> d.put(key, value).map[k] == d.map[k],
        d.has(key) ==> d.put(key, value).order == d.order,
        !d.has(key) ==> d.put(key, value).order.drop_last() == d.order && d.put(
            key,
            value,
        ).order.last() == key,
{
    if !d.has(key) {
        assert(d.order.push(key).drop_last() =~= d.order);
    }
}

/// Keys that are taken out are gone, and the others stay, with their values and in their order.
pub proof fn law_taking_out_of_a_table<V>(d: Dict<V>, keys: Set<Seq<char>>, k: Seq<char>, m: Map<Seq<char>, V>)
    ensures
        d.without(keys).has(k) <==> d.has(k) && !keys.contains(k),
        d.has(k) && !keys.contains(k) ==> d.without(keys).map[k] == d.map[k],
        (Dict { map: m, order: d.order.push(k) }).without(keys).order == if keys.contains(k) {
            d.without(keys).order
        } else {
            d.without(keys).order.push(k)
        },
        (Dict { map: m, order: Seq::empty() }).without(keys).order.len() == 0,
{
    reveal(Seq::filter);
    assert(d.order.push(k).drop_last() =~= d.order);
}

/// What is put into a table can be read from it, and what is removed cannot.
pub proof fn law_calls_on_tables(
    was: &mut TextMap<String>,
    key: String,
    value: String,
    now: &TextMap<String>,
    k: &str,
    r: Option<&String>,
)
    requires
        call_ensures(TextMap::<String>::insert, (was, key, value), ()),
        call_ensures(TextMap::<String>::get, (now, k), r),
        now@ == final(was)@,
    ensures
        k@ == key@ ==> (r matches Some(v) && v@ == value@),
        k@ != key@ ==> (r is Some <==> old(was)@.has(k@)),
        k@ != key@ && old(was)@.has(k@) ==> r->Some_0@ == old(was)@.map[k@],
{
}

/// Two tables hold the same texts if each key has the same text in both, or is in neither.
pub proof fn law_tables_with_the_same_texts(a: &TextMap<String>, b: &TextMap<String>, r: bool, k: Seq<char>)
    requires
        call_ensures(outline::same_texts, (a, b), r),
    ensures
        r ==> (a@.has(k) <==> b@.has(k)),
        r && a@.has(k) ==> a@.map[k] == b@.map[k],
        (forall|j: Seq<char>|
            (#[trigger] a@.has(j) <==> b@.has(j)) && (a@.has(j) ==> a@.map[j] == b@.map[j])) ==> r,
{
    if forall|j: Seq<char>|
        (#[trigger] a@.has(j) <==> b@.has(j)) && (a@.has(j) ==> a@.map[j] == b@.map[j]) {
        assert(a@.map =~= b@.map);
    }
}

// ---------------------------------------------------------------- errors in words

/// The ids of a cycle are told one after the other, in brackets.
pub proof fn law_ids_in_words(ids: Seq<Seq<char>>, id: Seq<char>)
    ensures
        describe::ids_shown(Seq::empty()) == seq!['[', ']'],
        describe::ids_shown(ids.push(id)) == if ids.len() == 0 {
            seq!['['] + describe::patch_shown(id) + seq![']']
        } else {
            describe::ids_shown(ids).drop_last() + seq![',', ' '] + describe::patch_shown(id)
                + seq![']']
        },
{
    reveal_strlit("[");
    reveal_strlit("]");
    reveal_strlit(", ");
    let f = |x: Seq<char>| describe::patch_shown(x);
    let parts = ids.map_values(f);
    let more = ids.push(id).map_values(f);
    assert("["@ =~= seq!['['] && "]"@ =~= seq![']'] && ", "@ =~= seq![',', ' ']);
    assert(Seq::<Seq<char>>::empty().map_values(f) =~= Seq::empty());
    assert(more =~= parts.push(describe::patch_shown(id)));
    text_laws::law_joining(parts, describe::patch_shown(id), ", "@);
    text_laws::law_joining(Seq::empty(), describe::patch_shown(id), ", "@);
    assert(describe::ids_shown(Seq::empty()) =~= seq!['[', ']']);
    if ids.len() == 0 {
        assert(more =~= seq![describe::patch_shown(id)]);
        assert(describe::ids_shown(ids.push(id)) =~= seq!['['] + describe::patch_shown(id) + seq![
            ']',
        ]);
    } else {
        assert(describe::ids_shown(ids.push(id)) =~= describe::ids_shown(ids).drop_last() + seq![
            ',',
            ' ',
        ] + describe::patch_shown(id) + seq![']']);
    }
}

} // verus!
