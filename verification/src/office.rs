//! What the `officecli` program prints, read into blocks, and what it is told to write.
use crate::docx;
use crate::docx::{clone_bytes, BlockView, DocxBlock};
use crate::json;
use crate::json::{
    data_list, json_field, make_array, make_object, make_text, number_field, parse_json,
    set_field, text_field, write_json, JsonTree,
};
use crate::ops;
use crate::text;
use crate::text::{
    chars_of, find_in, matches_at, same_text, split_lines, text_after, text_before, text_begins, text_holds,
    text_slice, trim_text, white,
};
use crate::textmap::{Dict, TextMap};
use serde_json::Value;
use vstd::prelude::*;
use vstd::string::*;

verus! {

// ---------------------------------------------------------------- identities

/// The identity in a path such as `/body/p[@paraId=00100000]`: what stands between the first
/// `@paraId=` and the next `]` (or the next `@paraId=`, or the end).
pub open spec fn para_id_in(path: Seq<char>) -> Option<Seq<char>> {
    match text::after(path, "@paraId="@) {
        Some(rest) => Some(text::before(text::before(rest, "@paraId="@), "]"@)),
        None => None,
    }
}

/// The identity in a path; a path by position has none.
pub fn parse_para_id(path: &str) -> (r: Option<String>)
    ensures
        docx::opt_text(r) == para_id_in(path@),
{
    match text_after(path, "@paraId=") {
        Some(rest) => {
            let piece = text_before(rest.as_str(), "@paraId=");
            Some(text_before(piece.as_str(), "]"))
        },
        None => None,
    }
}

// ---------------------------------------------------------------- pictures in the annotated view

/// The first `max` characters, with an ellipsis where something was cut off.
pub open spec fn truncated(s: Seq<char>, max: nat) -> Seq<char> {
    if s.len() <= max {
        s
    } else {
        s.take(max as int) + "…"@
    }
}

/// Cuts a text off after `max` characters.
pub fn truncate_chars(s: &str, max: usize) -> (out: String)
    ensures
        out@ == truncated(s@, max as nat),
{
    let chars = chars_of(s);
    if chars.len() <= max {
        s.to_string()
    } else {
        let mut out = text_slice(chars.as_slice(), 0, max);
        proof {
            assert(chars@.subrange(0, max as int) =~= s@.take(max as int));
        }
        out.append("…");
        out
    }
}

/// The state of a scan for pictures: those found, the paragraph that the scan is in, and a note
/// that is still open, with its paragraph.
#[verifier::ext_equal]
pub struct ScanView {
    pub images: Seq<(Seq<char>, Seq<char>)>,
    pub current: Option<Seq<char>>,
    pub open: Option<(Seq<char>, Seq<char>)>,
}

/// An open note after one more line: the part of the line before the first `]` is added, with a
/// blank between two parts that are not empty.
pub open spec fn extended_note(label: Seq<char>, line: Seq<char>) -> Seq<char> {
    let part = text::before(line, "]"@);
    let start = if label.len() > 0 && part.len() > 0 {
        label.push(' ')
    } else {
        label
    };
    start + text::trimmed(part)
}

/// The paragraph that the scan is in after a line.
pub open spec fn current_after(current: Option<Seq<char>>, line: Seq<char>) -> Option<Seq<char>> {
    if text::begins(line, "["@) && para_id_in(line) is Some {
        para_id_in(line)
    } else {
        current
    }
}

impl ScanView {
    /// The scan after one more line.
    pub open spec fn step(self, line: Seq<char>) -> ScanView {
        match self.open {
            Some((para, label)) => {
                let note = extended_note(label, line);
                if text::holds(line, "]"@) {
                    ScanView {
                        images: self.images.push((para, truncated(note, 80))),
                        open: None,
                        ..self
                    }
                } else {
                    ScanView { open: Some((para, note)), ..self }
                }
            },
            None => {
                let here = ScanView { current: current_after(self.current, line), ..self };
                match (text::after(line, "[Image:"@), here.current) {
                    (Some(rest), Some(para)) => if text::holds(rest, "]"@) {
                        ScanView {
                            images: here.images.push(
                                (para, truncated(text::trimmed(text::before(rest, "]"@)), 80)),
                            ),
                            ..here
                        }
                    } else {
                        ScanView { open: Some((para, text::trimmed(rest))), ..here }
                    },
                    _ => here,
                }
            },
        }
    }
}

/// The scan after the first `n` lines.
pub open spec fn scanned(lines: Seq<Seq<char>>, n: int) -> ScanView
    decreases n,
{
    if n <= 0 {
        ScanView { images: Seq::empty(), current: None, open: None }
    } else {
        scanned(lines, n - 1).step(lines[n - 1])
    }
}

/// The pictures that an annotated text notes: the identity of the paragraph and the note, in
/// document order.
pub open spec fn image_paras(annotated: Seq<char>) -> Seq<(Seq<char>, Seq<char>)> {
    let lines = text::lines_of(annotated);
    scanned(lines, lines.len() as int).images
}

/// A scan for pictures.
struct Scan {
    images: Vec<(String, String)>,
    current: Option<String>,
    open: Option<(String, String)>,
}

impl View for Scan {
    type V = ScanView;

    closed spec fn view(&self) -> ScanView {
        ScanView {
            images: ops::seen(self.images@),
            current: docx::opt_text(self.current),
            open: match self.open {
                Some((p, l)) => Some((p@, l@)),
                None => None,
            },
        }
    }
}

impl Scan {
    /// Notes a picture.
    fn note(&mut self, para: String, label: String)
        ensures
            final(self)@ == (ScanView {
                images: old(self)@.images.push((para@, truncated(label@, 80))),
                ..old(self)@
            }),
    {
        let ghost before = self.images@;
        let short = truncate_chars(label.as_str(), 80);
        self.images.push((para, short));
        proof {
            assert(ops::seen(self.images@) =~= ops::seen(before).push((para@, short@)));
        }
    }

    fn step(&mut self, line: &str)
        ensures
            final(self)@ == old(self)@.step(line@),
    {
        let open = self.open.take();
        match open {
            Some((para, label)) => {
                let part = text_before(line, "]");
                let mut note = label;
                if !note.as_str().is_empty() && !part.as_str().is_empty() {
                    note.push(' ');
                }
                note.append(trim_text(part.as_str()).as_str());
                if text_holds(line, "]") {
                    self.note(para, note);
                } else {
                    self.open = Some((para, note));
                }
            },
            None => {
                if text_begins(line, "[") {
                    if let Some(id) = parse_para_id(line) {
                        self.current = Some(id);
                    }
                }
                if let Some(rest) = text_after(line, "[Image:") {
                    let para = match &self.current {
                        Some(p) => p.clone(),
                        None => return,
                    };
                    if text_holds(rest.as_str(), "]") {
                        let inner = text_before(rest.as_str(), "]");
                        self.note(para, trim_text(inner.as_str()));
                    } else {
                        self.open = Some((para, trim_text(rest.as_str())));
                    }
                }
            },
        }
    }
}

/// Finds the pictures in an annotated text, whose lines look like
/// `[/body/p[@paraId=X]] [Image: alt="..", 15.2cm x 18.8cm]`. A note may go over several lines.
pub fn parse_image_paras(annotated: &str) -> (r: Vec<(String, String)>)
    ensures
        ops::seen(r@) == image_paras(annotated@),
{
    let lines = split_lines(annotated);
    let ghost views = text::lines_of(annotated@);
    let mut scan = Scan { images: Vec::new(), current: None, open: None };
    proof {
        assert(scan@ =~= scanned(views, 0));
    }
    let mut i: usize = 0;
    while i < lines.len()
        invariant
            i <= lines@.len(),
            views == lines@.map_values(|l: String| l@),
            scan@ == scanned(views, i as int),
        decreases lines@.len() - i,
    {
        proof {
            assert(views[i as int] == lines@[i as int]@);
        }
        scan.step(lines[i].as_str());
        i += 1;
    }
    scan.images
}

// ---------------------------------------------------------------- pictures in the HTML view

/// The end of a payload: the first quotation mark or closing bracket at or after `from`, or the
/// end of the text.
pub open spec fn payload_end(s: Seq<char>, from: int) -> int
    decreases s.len() - from,
{
    if from < 0 || from >= s.len() {
        s.len() as int
    } else if s[from] == '"' || s[from] == '\'' || s[from] == ')' {
        from
    } else {
        payload_end(s, from + 1)
    }
}

/// A text without its white space.
pub open spec fn unspaced(s: Seq<char>) -> Seq<char> {
    s.filter(|c: char| !text::is_white(c))
}

/// The payloads of the data URIs of pictures from position `pos` on: each begins after the first
/// `;base64,` behind a `data:image/`.
pub open spec fn payloads_from(s: Seq<char>, pos: int) -> Seq<Seq<char>>
    decreases s.len() - pos,
{
    match text::find(s, "data:image/"@, pos) {
        None => Seq::empty(),
        Some(i) => match text::find(s, ";base64,"@, i) {
            None => Seq::empty(),
            Some(m) => {
                let start = m + ";base64,"@.len();
                let end = payload_end(s, start);
                if pos < end <= s.len() {
                    seq![unspaced(s.subrange(start, end))] + payloads_from(s, end)
                } else {
                    Seq::empty()
                }
            },
        },
    }
}

/// The payloads of the data URIs of pictures in an HTML text, in document order, without white
/// space.
pub fn html_payloads(html: &str) -> (out: Vec<String>)
    ensures
        ops::seen(out@) == payloads_from(html@, 0),
{
    let chars = chars_of(html);
    let n = chars.len();
    let uri = chars_of("data:image/");
    let marker = chars_of(";base64,");
    let mut out: Vec<String> = Vec::new();
    let mut pos: usize = 0;
    proof {
        reveal_strlit(";base64,");
        assert(ops::seen(out@) + payloads_from(html@, 0) =~= payloads_from(html@, 0));
    }
    while pos <= n
        invariant
            pos <= n,
            n == chars@.len(),
            chars@ == html@,
            uri@ == "data:image/"@,
            marker@ == ";base64,"@,
            marker@.len() == 8,
            ops::seen(out@) + payloads_from(html@, pos as int) == payloads_from(html@, 0),
        decreases n - pos,
    {
        let ghost done = ops::seen(out@);
        let i = match find_in(chars.as_slice(), uri.as_slice(), pos) {
            Some(i) => i,
            None => {
                proof {
                    assert(done + Seq::<Seq<char>>::empty() =~= done);
                }
                return out;
            },
        };
        let m = match find_in(chars.as_slice(), marker.as_slice(), i) {
            Some(m) => m,
            None => {
                proof {
                    assert(done + Seq::<Seq<char>>::empty() =~= done);
                }
                return out;
            },
        };
        let start = m + marker.len();
        let mut cleaned = String::new();
        let mut end: usize = start;
        proof {
            reveal(Seq::filter);
            assert(chars@.subrange(start as int, start as int) =~= Seq::empty());
        }
        while end < n && chars[end] != '"' && chars[end] != '\'' && chars[end] != ')'
            invariant
                start <= end <= n,
                n == chars@.len(),
                chars@ == html@,
                payload_end(html@, start as int) == payload_end(html@, end as int),
                cleaned@ == unspaced(chars@.subrange(start as int, end as int)),
            decreases n - end,
        {
            let c = chars[end];
            proof {
                reveal(Seq::filter);
                assert(chars@.subrange(start as int, end + 1).drop_last() =~= chars@.subrange(
                    start as int,
                    end as int,
                ));
                assert(chars@.subrange(start as int, end + 1).last() == c);
            }
            if !white(c) {
                cleaned.push(c);
            }
            end += 1;
        }
        out.push(cleaned);
        proof {
            assert(payload_end(html@, start as int) == end);
            assert(ops::seen(out@) =~= done.push(cleaned@));
            assert(done.push(cleaned@) + payloads_from(html@, end as int) =~= done + (
            seq![cleaned@] + payloads_from(html@, end as int)));
        }
        pos = end;
    }
    out
}

/// What decoding a text as standard base64 gives; nothing if it is not valid.
pub uninterp spec fn base64_bytes(payload: Seq<char>) -> Option<Seq<u8>>;

/// Wraps `base64::Engine::decode` of the engine `STANDARD` (the standard alphabet, with padding).
/// The outcome depends on the text alone and is named `base64_bytes`; which error came is dropped.
#[verifier::external_body]
fn decode_base64(payload: &str) -> (r: Option<Vec<u8>>)
    ensures
        docx::opt_bytes(r) == base64_bytes(payload@),
{
    base64::Engine::decode(&base64::engine::general_purpose::STANDARD, payload).ok()
}

/// The pictures among `items`, those without one left out.
pub open spec fn present(items: Seq<Option<Seq<u8>>>) -> Seq<Seq<u8>>
    decreases items.len(),
{
    if items.len() == 0 {
        Seq::empty()
    } else {
        match items.last() {
            Some(b) => present(items.drop_last()).push(b),
            None => present(items.drop_last()),
        }
    }
}

/// The outcome of decoding each payload.
pub open spec fn decoded(payloads: Seq<Seq<char>>) -> Seq<Option<Seq<u8>>> {
    payloads.map_values(|p: Seq<char>| base64_bytes(p))
}

/// Keeps what could be decoded, in order.
pub fn keep_present(items: Vec<Option<Vec<u8>>>) -> (out: Vec<Vec<u8>>)
    ensures
        ops::seen(out@) == present(items@.map_values(|b: Option<Vec<u8>>| docx::opt_bytes(b))),
{
    let ghost views = items@.map_values(|b: Option<Vec<u8>>| docx::opt_bytes(b));
    let mut out: Vec<Vec<u8>> = Vec::new();
    proof {
        assert(views.take(0) =~= Seq::empty());
        assert(ops::seen(out@) =~= present(views.take(0)));
    }
    let mut i: usize = 0;
    while i < items.len()
        invariant
            i <= items@.len(),
            views == items@.map_values(|b: Option<Vec<u8>>| docx::opt_bytes(b)),
            ops::seen(out@) == present(views.take(i as int)),
        decreases items@.len() - i,
    {
        let ghost done = ops::seen(out@);
        proof {
            assert(views.take(i + 1).drop_last() =~= views.take(i as int));
            assert(views.take(i + 1).last() == docx::opt_bytes(items@[i as int]));
        }
        if let Some(b) = &items[i] {
            out.push(clone_bytes(b));
            proof {
                assert(ops::seen(out@) =~= done.push(b@));
            }
        }
        i += 1;
    }
    proof {
        assert(views.take(i as int) =~= views);
    }
    out
}

/// The pictures of an HTML text, in document order. What cannot be decoded is skipped.
pub fn parse_html_images(html: &str) -> (out: Vec<Vec<u8>>)
    ensures
        ops::seen(out@) == present(decoded(payloads_from(html@, 0))),
{
    let payloads = html_payloads(html);
    let mut items: Vec<Option<Vec<u8>>> = Vec::new();
    let mut i: usize = 0;
    while i < payloads.len()
        invariant
            i <= payloads@.len(),
            items@.len() == i,
            forall|j: int|
                0 <= j < i ==> docx::opt_bytes(#[trigger] items@[j]) == base64_bytes(
                    payloads@[j]@,
                ),
        decreases payloads@.len() - i,
    {
        items.push(decode_base64(payloads[i].as_str()));
        i += 1;
    }
    proof {
        let views = items@.map_values(|b: Option<Vec<u8>>| docx::opt_bytes(b));
        assert(views =~= decoded(ops::seen(payloads@))) by {
            assert forall|j: int| 0 <= j < items@.len() implies #[trigger] views[j] == base64_bytes(
                payloads@[j]@,
            ) by {
                assert(docx::opt_bytes(items@[j]) == base64_bytes(payloads@[j]@));
            }
        }
    }
    keep_present(items)
}

// ---------------------------------------------------------------- pictures and their paragraphs

/// The first `n` noted pictures with their bytes, by paragraph; the first picture of a paragraph
/// counts.
pub open spec fn paired(
    ordered: Seq<(Seq<char>, Seq<char>)>,
    bytes: Seq<Seq<u8>>,
    n: int,
) -> Dict<Seq<u8>>
    decreases n,
{
    if n <= 0 {
        Dict::empty()
    } else {
        let rest = paired(ordered, bytes, n - 1);
        if rest.has(ordered[n - 1].0) {
            rest
        } else {
            rest.put(ordered[n - 1].0, bytes[n - 1])
        }
    }
}

/// The lesser of two lengths.
pub open spec fn shorter(a: nat, b: nat) -> int {
    if a <= b {
        a as int
    } else {
        b as int
    }
}

/// Pairs the noted pictures with the bytes, in document order: the first with the first, and so
/// on, as far as both go.
pub fn pair_images(ordered: &[(String, String)], bytes: Vec<Vec<u8>>) -> (r: TextMap<Vec<u8>>)
    ensures
        r@ == paired(
            ops::seen(ordered@),
            ops::seen(bytes@),
            shorter(ordered@.len(), bytes@.len()),
        ),
{
    let ghost a = ops::seen(ordered@);
    let ghost b = ops::seen(bytes@);
    let mut map: TextMap<Vec<u8>> = TextMap::new();
    let mut i: usize = 0;
    while i < ordered.len() && i < bytes.len()
        invariant
            i <= shorter(ordered@.len(), bytes@.len()),
            a == ops::seen(ordered@),
            b == ops::seen(bytes@),
            map@ == paired(a, b, i as int),
        decreases ordered@.len() - i,
    {
        proof {
            assert(a[i as int].0 == ordered@[i as int].0@);
            assert(b[i as int] == bytes@[i as int]@);
        }
        if !map.contains_key(ordered[i].0.as_str()) {
            map.insert(ordered[i].0.clone(), clone_bytes(&bytes[i]));
        }
        i += 1;
    }
    map
}

/// A block with its picture filled in, where it has an identity with a picture and no picture yet.
pub open spec fn with_picture(b: BlockView, images: Dict<Seq<u8>>) -> BlockView {
    match b {
        BlockView::Unstructured { kind, raw, para_id: Some(id), image: None, anchor } => if images.has(
            id,
        ) {
            BlockView::Unstructured {
                kind,
                raw,
                para_id: Some(id),
                image: Some(images.map[id]),
                anchor,
            }
        } else {
            b
        },
        _ => b,
    }
}

/// Fills the pictures into the blocks that they belong to.
pub fn attach_images(blocks: Vec<DocxBlock>, images: &TextMap<Vec<u8>>) -> (out: Vec<DocxBlock>)
    ensures
        ops::seen(out@) == ops::seen(blocks@).map_values(
            |b: BlockView| with_picture(b, images@),
        ),
{
    let mut out = blocks;
    let mut i: usize = 0;
    while i < out.len()
        invariant
            i <= out@.len(),
            out@.len() == blocks@.len(),
            forall|j: int|
                0 <= j < i ==> (#[trigger] out@[j])@ == with_picture(blocks@[j]@, images@),
            forall|j: int| i <= j < out@.len() ==> #[trigger] out@[j] == blocks@[j],
        decreases out@.len() - i,
    {
        let found: Option<Vec<u8>> = match &out[i] {
            DocxBlock::Unstructured { kind: _, raw: _, para_id: Some(id), image: None, anchor: _ } =>
            match images.get(id.as_str()) {
                Some(b) => Some(clone_bytes(b)),
                None => None,
            },
            _ => None,
        };
        if let Some(bytes) = found {
            if let DocxBlock::Unstructured { kind, raw, para_id, image: _, anchor } = out[i].clone() {
                out[i] = DocxBlock::Unstructured { kind, raw, para_id, image: Some(bytes), anchor };
            }
        }
        i += 1;
    }
    proof {
        assert(ops::seen(out@) =~= ops::seen(blocks@).map_values(
            |b: BlockView| with_picture(b, images@),
        ));
    }
    out
}

/// Note number `i` is the first one of this paragraph.
pub open spec fn first_note(images: Seq<(Seq<char>, Seq<char>)>, id: Seq<char>, i: int) -> bool {
    &&& 0 <= i < images.len()
    &&& images[i].0 == id
    &&& forall|j: int| 0 <= j < i ==> (#[trigger] images[j]).0 != id
}

/// The first note of a paragraph.
pub open spec fn label_of(images: Seq<(Seq<char>, Seq<char>)>, id: Seq<char>) -> Option<Seq<char>> {
    if exists|i: int| first_note(images, id, i) {
        Some(images[choose|i: int| first_note(images, id, i)].1)
    } else {
        None
    }
}

/// A paragraph without text that holds a picture becomes a visible placeholder; any other block
/// stays.
pub open spec fn with_placeholder(b: BlockView, images: Seq<(Seq<char>, Seq<char>)>) -> BlockView {
    match b {
        BlockView::Paragraph { text, para_id: Some(id) } => match label_of(images, id) {
            Some(label) => if text.len() == 0 {
                BlockView::Unstructured {
                    kind: "image"@,
                    raw: label,
                    para_id: Some(id),
                    image: None,
                    anchor: None,
                }
            } else {
                b
            },
            None => b,
        },
        _ => b,
    }
}

/// The first note of a paragraph.
fn find_label(images: &[(String, String)], id: &str) -> (r: Option<String>)
    ensures
        docx::opt_text(r) == label_of(ops::seen(images@), id@),
{
    let ghost views = ops::seen(images@);
    let mut i: usize = 0;
    while i < images.len()
        invariant
            i <= images@.len(),
            views == ops::seen(images@),
            forall|j: int| 0 <= j < i ==> (#[trigger] views[j]).0 != id@,
        decreases images@.len() - i,
    {
        proof {
            assert(views[i as int].0 == images@[i as int].0@);
            assert(views[i as int].1 == images@[i as int].1@);
        }
        if same_text(images[i].0.as_str(), id) {
            proof {
                assert(first_note(views, id@, i as int));
                let c = choose|c: int| first_note(views, id@, c);
                assert(first_note(views, id@, c));
                if c < i {
                    assert(views[c].0 != id@);
                } else if i < c {
                    assert(views[i as int].0 != id@);
                }
            }
            return Some(images[i].1.clone());
        }
        i += 1;
    }
    None
}

/// Makes the paragraphs that hold nothing but a picture visible.
pub fn apply_image_paras(blocks: Vec<DocxBlock>, images: &[(String, String)]) -> (out: Vec<
    DocxBlock,
>)
    ensures
        ops::seen(out@) == ops::seen(blocks@).map_values(
            |b: BlockView| with_placeholder(b, ops::seen(images@)),
        ),
{
    let ghost views = ops::seen(images@);
    let mut out = blocks;
    let mut i: usize = 0;
    while i < out.len()
        invariant
            i <= out@.len(),
            out@.len() == blocks@.len(),
            views == ops::seen(images@),
            forall|j: int|
                0 <= j < i ==> (#[trigger] out@[j])@ == with_placeholder(blocks@[j]@, views),
            forall|j: int| i <= j < out@.len() ==> #[trigger] out@[j] == blocks@[j],
        decreases out@.len() - i,
    {
        let found: Option<(String, String)> = match &out[i] {
            DocxBlock::Paragraph { text, para_id: Some(id) } => if text.as_str().is_empty() {
                match find_label(images, id.as_str()) {
                    Some(label) => Some((id.clone(), label)),
                    None => None,
                }
            } else {
                None
            },
            _ => None,
        };
        if let Some((id, label)) = found {
            out[i] = DocxBlock::Unstructured {
                kind: "image".to_string(),
                raw: label,
                para_id: Some(id),
                image: None,
                anchor: None,
            };
        }
        i += 1;
    }
    proof {
        assert(ops::seen(out@) =~= ops::seen(blocks@).map_values(
            |b: BlockView| with_placeholder(b, views),
        ));
    }
    out
}

// ---------------------------------------------------------------- blocks

/// The level of paragraph number `n` (counted from 1), if the outline lists it as a heading. The
/// last entry for a paragraph counts; an entry without a line or a level does not.
pub open spec fn level_of(headings: Seq<JsonTree>, n: nat) -> Option<usize>
    decreases headings.len(),
{
    if headings.len() == 0 {
        None
    } else {
        let h = headings.last();
        match (h.number("line"@), h.number("level"@)) {
            (Some(line), Some(level)) => if line == n {
                Some(level as usize)
            } else {
                level_of(headings.drop_last(), n)
            },
            _ => level_of(headings.drop_last(), n),
        }
    }
}

/// The text under a key; the empty text if there is none.
pub open spec fn text_or_empty(t: JsonTree, key: Seq<char>) -> Seq<char> {
    match t.text(key) {
        Some(s) => s,
        None => Seq::empty(),
    }
}

/// The element is a paragraph.
pub open spec fn is_para(el: JsonTree) -> bool {
    text_or_empty(el, "type"@) == "paragraph"@
}

/// How many of the first `n` elements are paragraphs.
pub open spec fn paras_before(elements: Seq<JsonTree>, n: int) -> nat
    decreases n,
{
    if n <= 0 {
        0
    } else {
        paras_before(elements, n - 1) + if is_para(elements[n - 1]) {
            1nat
        } else {
            0nat
        }
    }
}

/// The path of an element inside the body.
pub open spec fn body_path(path: Seq<char>) -> Option<Seq<char>> {
    if text::begins(path, "/body/"@) {
        Some(path.skip("/body/"@.len() as int))
    } else {
        None
    }
}

/// The block of element number `i`. A heading is found by the number of its paragraph, for which
/// other elements do not count.
pub open spec fn element_block(
    elements: Seq<JsonTree>,
    headings: Seq<JsonTree>,
    i: int,
) -> BlockView {
    let el = elements[i];
    let txt = text_or_empty(el, "text"@);
    let path = text_or_empty(el, "path"@);
    if is_para(el) {
        match level_of(headings, paras_before(elements, i + 1)) {
            Some(level) => BlockView::Heading { level, text: txt, para_id: para_id_in(path) },
            None => BlockView::Paragraph { text: txt, para_id: para_id_in(path) },
        }
    } else {
        BlockView::Unstructured {
            kind: text_or_empty(el, "type"@),
            raw: txt,
            para_id: None,
            image: None,
            anchor: body_path(path),
        }
    }
}

/// The blocks of a document, one for each element.
pub open spec fn element_blocks(elements: Seq<JsonTree>, headings: Seq<JsonTree>) -> Seq<BlockView> {
    Seq::new(elements.len(), |i: int| element_block(elements, headings, i))
}

/// The headings of an outline.
pub open spec fn outline_headings(outline: JsonTree) -> Seq<JsonTree> {
    match outline.data_list("headings"@) {
        Some(list) => list,
        None => Seq::empty(),
    }
}

/// The blocks that a text view and an outline give, or the message of the error.
pub open spec fn view_blocks(text_view: JsonTree, outline: JsonTree) -> Result<
    Seq<BlockView>,
    Seq<char>,
> {
    match text_view.data_list("elements"@) {
        Some(elements) => Ok(element_blocks(elements, outline_headings(outline))),
        None => Err("text --json 缺少 data.elements 数组"@),
    }
}

/// The level that the outline gives a paragraph.
fn find_level(headings: &Vec<Value>, n: u64) -> (r: Option<usize>)
    ensures
        r == level_of(json::trees(headings@), n as nat),
{
    let ghost all = json::trees(headings@);
    let mut k: usize = headings.len();
    proof {
        assert(all.take(k as int) =~= all);
    }
    while k > 0
        invariant
            k <= headings@.len(),
            all == json::trees(headings@),
            level_of(all, n as nat) == level_of(all.take(k as int), n as nat),
        decreases k,
    {
        k -= 1;
        let h = &headings[k];
        proof {
            assert(all.take(k + 1).drop_last() =~= all.take(k as int));
            assert(all.take(k + 1).last() == json::json_tree(*h));
        }
        if let (Some(line), Some(level)) = (number_field(h, "line"), number_field(h, "level")) {
            if line == n {
                return Some(level as usize);
            }
        }
    }
    None
}

fn text_at(v: &Value, key: &str) -> (r: String)
    ensures
        r@ == text_or_empty(json::json_tree(*v), key@),
{
    match text_field(v, key) {
        Some(s) => s.to_string(),
        None => String::new(),
    }
}

fn strip_body(path: &str) -> (r: Option<String>)
    ensures
        docx::opt_text(r) == body_path(path@),
{
    if text_begins(path, "/body/") {
        let chars = chars_of(path);
        let n = chars.len();
        let skip = chars_of("/body/").len();
        proof {
            assert(chars@.subrange(skip as int, n as int) =~= path@.skip(skip as int));
        }
        Some(text_slice(chars.as_slice(), skip, n))
    } else {
        None
    }
}

/// Merges the text view (the elements in document order) with the outline (which paragraphs are
/// headings, and of what level).
pub fn parse_blocks(text: &Value, outline: &Value) -> (r: Result<Vec<DocxBlock>, String>)
    ensures
        match r {
            Ok(blocks) => view_blocks(json::json_tree(*text), json::json_tree(*outline)) == Ok::<
                Seq<BlockView>,
                Seq<char>,
            >(ops::seen(blocks@)),
            Err(e) => view_blocks(json::json_tree(*text), json::json_tree(*outline)) == Err::<
                Seq<BlockView>,
                Seq<char>,
            >(e@),
        },
{
    let none: Vec<Value> = Vec::new();
    let headings: &Vec<Value> = match data_list(outline, "headings") {
        Some(list) => list,
        None => &none,
    };
    let ghost hs = outline_headings(json::json_tree(*outline));
    proof {
        assert(json::trees(headings@) =~= hs);
    }
    let elements = match data_list(text, "elements") {
        Some(list) => list,
        None => return Err("text --json 缺少 data.elements 数组".to_string()),
    };
    let ghost els = json::trees(elements@);
    let mut blocks: Vec<DocxBlock> = Vec::new();
    let mut para_no: u64 = 0;
    let mut i: usize = 0;
    while i < elements.len()
        invariant
            i <= elements@.len(),
            els == json::trees(elements@),
            hs == json::trees(headings@),
            para_no == paras_before(els, i as int),
            para_no <= i,
            blocks@.len() == i,
            forall|j: int| 0 <= j < i ==> (#[trigger] blocks@[j])@ == element_block(els, hs, j),
        decreases elements@.len() - i,
    {
        let el = &elements[i];
        proof {
            assert(els[i as int] == json::json_tree(*el));
        }
        let typ = text_at(el, "type");
        let txt = text_at(el, "text");
        let path = text_at(el, "path");
        if same_text(typ.as_str(), "paragraph") {
            para_no += 1;
            let para_id = parse_para_id(path.as_str());
            match find_level(headings, para_no) {
                Some(level) => {
                    blocks.push(DocxBlock::Heading { level, text: txt, para_id });
                },
                None => {
                    blocks.push(DocxBlock::Paragraph { text: txt, para_id });
                },
            }
        } else {
            let anchor = strip_body(path.as_str());
            blocks.push(
                DocxBlock::Unstructured { kind: typ, raw: txt, para_id: None, image: None, anchor },
            );
        }
        i += 1;
    }
    proof {
        assert(ops::seen(blocks@) =~= element_blocks(els, hs));
    }
    Ok(blocks)
}

/// No element is dropped: the blocks are as many as the elements, and block number `i` comes from
/// element number `i`.
pub proof fn law_every_element_becomes_a_block(text_view: JsonTree, outline: JsonTree, i: int)
    requires
        text_view.data_list("elements"@) is Some,
        0 <= i < text_view.data_list("elements"@)->Some_0.len(),
    ensures
        ({
            let elements = text_view.data_list("elements"@)->Some_0;
            &&& view_blocks(text_view, outline) matches Ok(blocks)
            &&& blocks.len() == elements.len()
            &&& blocks[i].node_text() == text_or_empty(elements[i], "text"@)
            &&& blocks[i].node_kind() is Opaque <==> !is_para(elements[i])
        }),
{
}

// ---------------------------------------------------------------- running the program

/// What a run of a program left: whether it ended well, and what it printed.
pub struct ToolOutput {
    pub success: bool,
    pub stdout: Vec<u8>,
    /// The error output as text.
    pub stderr: String,
}

/// The text under `data` and then under `content`.
pub open spec fn data_content(t: JsonTree) -> Option<Seq<char>> {
    match t.field("data"@) {
        Some(d) => d.text("content"@),
        None => None,
    }
}

/// What the outcome of a `view` run says, as JSON, or the message of the error.
pub open spec fn view_result(mode: Seq<char>, success: bool, stdout: Seq<u8>, stderr: Seq<char>) -> Result<
    JsonTree,
    Seq<char>,
> {
    if !success {
        Err("officecli view "@ + mode + " 退出码非零: "@ + text::trimmed(stderr))
    } else {
        match json::json_value_of(stdout) {
            Ok(t) => Ok(t),
            Err(e) => Err("officecli "@ + mode + " --json 解析失败: "@ + e),
        }
    }
}

/// Reads what `officecli view <path> <mode> --json` left.
pub fn read_view(mode: &str, run: &ToolOutput) -> (r: Result<Value, String>)
    ensures
        match r {
            Ok(v) => view_result(mode@, run.success, run.stdout@, run.stderr@) == Ok::<
                JsonTree,
                Seq<char>,
            >(json::json_tree(v)),
            Err(e) => view_result(mode@, run.success, run.stdout@, run.stderr@) == Err::<
                JsonTree,
                Seq<char>,
            >(e@),
        },
{
    if !run.success {
        let mut e = "officecli view ".to_string();
        e.append(mode);
        e.append(" 退出码非零: ");
        e.append(trim_text(run.stderr.as_str()).as_str());
        return Err(e);
    }
    match parse_json(run.stdout.as_slice()) {
        Ok(v) => Ok(v),
        Err(why) => Err(parse_failure(mode, why.as_str())),
    }
}

/// The message for output of a mode that is not JSON.
pub fn parse_failure(mode: &str, why: &str) -> (e: String)
    ensures
        e@ == "officecli "@ + mode@ + " --json 解析失败: "@ + why@,
{
    let mut e = "officecli ".to_string();
    e.append(mode);
    e.append(" --json 解析失败: ");
    e.append(why);
    e
}

/// The message for a program that could not be started.
pub fn launch_failure(program: &str, why: &str) -> (e: String)
    ensures
        e@ == "启动 "@ + program@ + " 失败（officecli 装了吗？在 PATH 上吗？）: "@ + why@,
{
    let mut e = "启动 ".to_string();
    e.append(program);
    e.append(" 失败（officecli 装了吗？在 PATH 上吗？）: ");
    e.append(why);
    e
}

/// The pictures that an HTML view holds, in document order.
pub open spec fn html_pictures(html: Option<JsonTree>) -> Seq<Seq<u8>> {
    match html {
        Some(h) => match h.text("data"@) {
            Some(s) => present(decoded(payloads_from(s, 0))),
            None => Seq::empty(),
        },
        None => Seq::empty(),
    }
}

/// The blocks of a document with its pictures: placeholders for the paragraphs that hold nothing
/// but a picture, then the bytes of the pictures.
pub open spec fn illustrated(
    blocks: Seq<BlockView>,
    notes: Seq<(Seq<char>, Seq<char>)>,
    pictures: Seq<Seq<u8>>,
) -> Seq<BlockView> {
    let images = paired(notes, pictures, shorter(notes.len(), pictures.len()));
    blocks.map_values(|b: BlockView| with_placeholder(b, notes)).map_values(
        |b: BlockView| with_picture(b, images),
    )
}

/// The pictures noted in an annotated view.
pub open spec fn noted(annotated: JsonTree) -> Seq<(Seq<char>, Seq<char>)> {
    image_paras(
        match data_content(annotated) {
            Some(s) => s,
            None => Seq::empty(),
        },
    )
}

/// The blocks of a document from its four views. Without the HTML view the pictures stay
/// placeholders.
pub fn assemble_views(
    text: &Value,
    outline: &Value,
    annotated: &Value,
    html: Option<&Value>,
) -> (r: Result<Vec<DocxBlock>, String>)
    ensures
        match (r, view_blocks(json::json_tree(*text), json::json_tree(*outline))) {
            (Ok(out), Ok(blocks)) => ops::seen(out@) == illustrated(
                blocks,
                noted(json::json_tree(*annotated)),
                html_pictures(
                    match html {
                        Some(h) => Some(json::json_tree(*h)),
                        None => None,
                    },
                ),
            ),
            (Err(e), Err(why)) => e@ == why,
            _ => false,
        },
{
    let blocks = match parse_blocks(text, outline) {
        Ok(b) => b,
        Err(e) => return Err(e),
    };
    let content: &str = match json_field(annotated, "data") {
        Some(d) => match text_field(d, "content") {
            Some(s) => s,
            None => "",
        },
        None => "",
    };
    proof {
        reveal_strlit("");
        assert(""@ =~= Seq::<char>::empty());
    }
    let notes = parse_image_paras(content);
    let blocks = apply_image_paras(blocks, notes.as_slice());
    let pictures = match html {
        Some(h) => match text_field(h, "data") {
            Some(s) => parse_html_images(s),
            None => Vec::new(),
        },
        None => Vec::new(),
    };
    proof {
        assert(ops::seen(pictures@) =~= html_pictures(
            match html {
                Some(h) => Some(json::json_tree(*h)),
                None => None,
            },
        ));
    }
    let images = pair_images(notes.as_slice(), pictures);
    Ok(attach_images(blocks, &images))
}

// ---------------------------------------------------------------- writing back

/// One change to be written to a Word file.
#[derive(Debug, PartialEq)]
pub enum DocxOp {
    /// Replaces a text inside the paragraph at a path.
    SetText { path: String, find: String, replace: String },
    /// Removes the paragraph at a path.
    Remove { path: String },
    /// Adds a paragraph: after the element at a path, or at the end of the body.
    Add { after: Option<String>, text: String },
}

/// What a `DocxOp` holds.
#[verifier::ext_equal]
pub enum DocxOpView {
    SetText { path: Seq<char>, find: Seq<char>, replace: Seq<char> },
    Remove { path: Seq<char> },
    Add { after: Option<Seq<char>>, text: Seq<char> },
}

impl View for DocxOp {
    type V = DocxOpView;

    open spec fn view(&self) -> DocxOpView {
        match *self {
            DocxOp::SetText { path, find, replace } => DocxOpView::SetText {
                path: path@,
                find: find@,
                replace: replace@,
            },
            DocxOp::Remove { path } => DocxOpView::Remove { path: path@ },
            DocxOp::Add { after, text } => DocxOpView::Add {
                after: docx::opt_text(after),
                text: text@,
            },
        }
    }
}

impl Clone for DocxOp {
    fn clone(&self) -> (r: Self)
        ensures
            r@ == self@,
    {
        match self {
            DocxOp::SetText { path, find, replace } => DocxOp::SetText {
                path: path.clone(),
                find: find.clone(),
                replace: replace.clone(),
            },
            DocxOp::Remove { path } => DocxOp::Remove { path: path.clone() },
            DocxOp::Add { after, text } => DocxOp::Add {
                after: match after {
                    Some(a) => Some(a.clone()),
                    None => None,
                },
                text: text.clone(),
            },
        }
    }
}

/// An empty record.
pub open spec fn record() -> Map<Seq<char>, JsonTree> {
    Map::empty()
}

/// The command of an op.
pub open spec fn command_tree(op: DocxOpView) -> JsonTree {
    match op {
        DocxOpView::SetText { path, find, replace } => JsonTree::Object(
            record().insert("command"@, JsonTree::Str("set"@)).insert(
                "path"@,
                JsonTree::Str(path),
            ).insert(
                "props"@,
                JsonTree::Object(
                    record().insert("find"@, JsonTree::Str(find)).insert(
                        "replace"@,
                        JsonTree::Str(replace),
                    ),
                ),
            ),
        ),
        DocxOpView::Remove { path } => JsonTree::Object(
            record().insert("command"@, JsonTree::Str("remove"@)).insert(
                "path"@,
                JsonTree::Str(path),
            ),
        ),
        DocxOpView::Add { after, text } => {
            let add = record().insert("command"@, JsonTree::Str("add"@)).insert(
                "parent"@,
                JsonTree::Str("/body"@),
            ).insert("type"@, JsonTree::Str("p"@)).insert(
                "props"@,
                JsonTree::Object(record().insert("text"@, JsonTree::Str(text))),
            );
            JsonTree::Object(
                match after {
                    Some(a) => add.insert("after"@, JsonTree::Str(a)),
                    None => add,
                },
            )
        },
    }
}

/// The commands of a list of ops.
pub open spec fn batch_tree(ops: Seq<DocxOpView>) -> JsonTree {
    JsonTree::Array(ops.map_values(|op: DocxOpView| command_tree(op)))
}

fn command(op: &DocxOp) -> (v: Value)
    ensures
        json::json_tree(v) == command_tree(op@),
{
    let mut cmd = make_object();
    match op {
        DocxOp::SetText { path, find, replace } => {
            let mut props = make_object();
            set_field(&mut props, "find", make_text(find.as_str()));
            set_field(&mut props, "replace", make_text(replace.as_str()));
            set_field(&mut cmd, "command", make_text("set"));
            set_field(&mut cmd, "path", make_text(path.as_str()));
            set_field(&mut cmd, "props", props);
        },
        DocxOp::Remove { path } => {
            set_field(&mut cmd, "command", make_text("remove"));
            set_field(&mut cmd, "path", make_text(path.as_str()));
        },
        DocxOp::Add { after, text } => {
            let mut props = make_object();
            set_field(&mut props, "text", make_text(text.as_str()));
            set_field(&mut cmd, "command", make_text("add"));
            set_field(&mut cmd, "parent", make_text("/body"));
            set_field(&mut cmd, "type", make_text("p"));
            set_field(&mut cmd, "props", props);
            if let Some(a) = after {
                set_field(&mut cmd, "after", make_text(a.as_str()));
            }
        },
    }
    cmd
}

/// A command is a flat record with at most one record inside.
proof fn lemma_command_plain(op: DocxOpView)
    ensures
        command_tree(op).plain(99),
{
    reveal_with_fuel(JsonTree::plain, 4);
}

/// Writes ops as the JSON array of commands that `officecli batch` takes. Parsing it gives the
/// commands back.
pub fn build_batch(ops: &[DocxOp]) -> (out: String)
    ensures
        out@ == json::json_text(batch_tree(ops::seen(ops@))),
        json::json_value_of(vstd::utf8::encode_utf8(out@)) == json::parsed(
            batch_tree(ops::seen(ops@)),
        ),
{
    let mut commands: Vec<Value> = Vec::new();
    let mut i: usize = 0;
    while i < ops.len()
        invariant
            i <= ops@.len(),
            commands@.len() == i,
            forall|j: int|
                0 <= j < i ==> json::json_tree(#[trigger] commands@[j]) == command_tree(ops@[j]@),
        decreases ops@.len() - i,
    {
        commands.push(command(&ops[i]));
        i += 1;
    }
    let ghost trees = json::trees(commands@);
    let v = make_array(commands);
    proof {
        assert(trees =~= ops::seen(ops@).map_values(|op: DocxOpView| command_tree(op)));
        assert forall|j: int| 0 <= j < trees.len() implies (#[trigger] trees[j]).plain(99) by {
            lemma_command_plain(ops@[j]@);
        }
        assert(json::json_tree(v).plain(100));
    }
    write_json(&v)
}

/// Line number `i` is the first one with this text in it.
pub open spec fn first_line_with(lines: Seq<Seq<char>>, pat: Seq<char>, i: int) -> bool {
    &&& 0 <= i < lines.len()
    &&& text::holds(lines[i], pat)
    &&& forall|j: int| 0 <= j < i ==> !text::holds(#[trigger] lines[j], pat)
}

/// The line says that nothing failed: `0 failed` stands in it, and not as the end of a larger number.
pub open spec fn none_failed(line: Seq<char>) -> bool {
    exists|i: int| #[trigger]
        text::stands_at(line, "0 failed"@, i) && !(i > 0 && '0' <= line[i - 1] <= '9')
}

fn says_none_failed(line: &str) -> (r: bool)
    ensures
        r == none_failed(line@),
{
    let chars = chars_of(line);
    let pat = chars_of("0 failed");
    let n = chars.len();
    let mut i: usize = 0;
    while i < n
        invariant
            n == chars@.len(),
            i <= n,
            chars@ == line@,
            pat@ == "0 failed"@,
            forall|j: int|
                0 <= j < i ==> !(#[trigger] text::stands_at(line@, "0 failed"@, j) && !(j > 0 && '0'
                    <= line@[j - 1] <= '9')),
        decreases n - i,
    {
        if matches_at(chars.as_slice(), pat.as_slice(), i) {
            if i == 0 || chars[i - 1] < '0' || chars[i - 1] > '9' {
                return true;
            }
        }
        i += 1;
    }
    proof {
        reveal_strlit("0 failed");
        assert("0 failed"@.len() == 8);
    }
    false
}

/// What the outcome of a `batch` run says: all was written, or the message of the error. A run
/// that missed something ends well too; its summary line then tells how many failed.
pub open spec fn batch_outcome(success: bool, stdout: Seq<char>, stderr: Seq<char>) -> Result<
    (),
    Seq<char>,
> {
    let lines = text::lines_of(stdout);
    if !success {
        Err("officecli batch 退出码非零: "@ + text::trimmed(stderr))
    } else if exists|i: int| first_line_with(lines, "Batch complete"@, i) {
        let line = lines[choose|i: int| first_line_with(lines, "Batch complete"@, i)];
        if none_failed(line) {
            Ok(())
        } else {
            Err("部分改动未写回: "@ + text::trimmed(line))
        }
    } else {
        Ok(())
    }
}

/// Reads what `officecli batch` left.
pub fn batch_result(success: bool, stdout: &str, stderr: &str) -> (r: Result<(), String>)
    ensures
        match r {
            Ok(()) => batch_outcome(success, stdout@, stderr@) == Ok::<(), Seq<char>>(()),
            Err(e) => batch_outcome(success, stdout@, stderr@) == Err::<(), Seq<char>>(e@),
        },
{
    if !success {
        let mut e = "officecli batch 退出码非零: ".to_string();
        e.append(trim_text(stderr).as_str());
        return Err(e);
    }
    let lines = split_lines(stdout);
    let ghost views = text::lines_of(stdout@);
    let mut i: usize = 0;
    while i < lines.len()
        invariant
            i <= lines@.len(),
            success,
            views == text::lines_of(stdout@),
            views == lines@.map_values(|l: String| l@),
            forall|j: int| 0 <= j < i ==> !text::holds(#[trigger] views[j], "Batch complete"@),
        decreases lines@.len() - i,
    {
        let line = lines[i].as_str();
        proof {
            assert(views[i as int] == line@);
        }
        if text_holds(line, "Batch complete") {
            proof {
                assert(first_line_with(views, "Batch complete"@, i as int));
                let c = choose|c: int| first_line_with(views, "Batch complete"@, c);
                assert(first_line_with(views, "Batch complete"@, c));
                if c < i {
                    assert(!text::holds(views[c], "Batch complete"@));
                } else if i < c {
                    assert(!text::holds(views[i as int], "Batch complete"@));
                }
            }
            if says_none_failed(line) {
                return Ok(());
            }
            let mut e = "部分改动未写回: ".to_string();
            e.append(trim_text(line).as_str());
            return Err(e);
        }
        i += 1;
    }
    Ok(())
}

/// The summary line of a batch in which `done` commands succeeded and `failed` did not.
pub open spec fn summary_line(done: nat, failed: nat) -> Seq<char> {
    "Batch complete: "@ + text::decimal(done) + " succeeded, "@ + text::decimal(failed) + " failed"@
}

/// A batch counts as written exactly if nothing failed, however many commands there were.
pub proof fn law_summary_tells_whether_all_was_written(done: nat, failed: nat)
    ensures
        none_failed(summary_line(done, failed)) <==> failed == 0,
{
    reveal_strlit("Batch complete: ");
    reveal_strlit(" succeeded, ");
    reveal_strlit(" failed");
    reveal_strlit("0 failed");
    let line = summary_line(done, failed);
    let pat = "0 failed"@;
    let a = text::decimal(done);
    let b = text::decimal(failed);
    let head = "Batch complete: "@ + a + " succeeded, "@;
    let n = head.len() as int;
    text::lemma_decimal_digits(done);
    text::lemma_decimal_digits(failed);
    assert(line =~= head + b + " failed"@);
    assert forall|i: int| 0 <= i < line.len() && line[i] == 'f' implies i == n + b.len() + 1 by {
        if i < n {
            if 16 <= i < 16 + a.len() {
                assert(line[i] == a[i - 16]);
            } else if i < 16 {
                assert(line[i] == "Batch complete: "@[i]);
            } else {
                assert(line[i] == " succeeded, "@[i - 16 - a.len()]);
            }
        } else if i < n + b.len() {
            assert(line[i] == b[i - n]);
        } else {
            assert(line[i] == " failed"@[i - n - b.len()]);
        }
    }
    let at = n + b.len() - 1;
    assert forall|i: int| text::stands_at(line, pat, i) implies i == at by {
        assert(line.subrange(i, i + 8)[2] == pat[2]);
        assert(line[i + 2] == 'f');
    }
    assert(line[at] == b.last());
    if failed == 0 {
        assert(line.subrange(at, at + 8) =~= pat);
        assert(text::stands_at(line, pat, at));
        assert(line[at - 1] == head.last());
        assert(head.last() == ' ');
    } else if text::stands_at(line, pat, at) {
        assert(line.subrange(at, at + 8)[0] == pat[0]);
        assert(b.last() == '0');
        assert(b.len() > 1);
        assert(line[at - 1] == b[b.len() - 2]);
    }
}

} // verus!
