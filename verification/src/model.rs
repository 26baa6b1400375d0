//! Mathematical model of the parser.
//!
//! Every function here is a ghost (spec) function over `Seq<char>` and
//! integer positions. `parse_blocks` describes the document produced for
//! any input; the executable functions in [`crate::parser`] are proved to
//! return exactly these values.

use vstd::prelude::*;
use crate::ast::{BlockModel, InlineMode, ListType, SpanModel};

verus! {

// ---------------------------------------------------------------------
// Character classes
// ---------------------------------------------------------------------

/// The Unicode `White_Space` code points, as `char::is_whitespace` has them.
pub open spec fn is_ws_char(c: char) -> bool {
    let u = c as u32;
    ||| u == 0x09 ||| u == 0x0A ||| u == 0x0B ||| u == 0x0C ||| u == 0x0D
    ||| u == 0x20 ||| u == 0x85 ||| u == 0xA0 ||| u == 0x1680
    ||| (0x2000 <= u && u <= 0x200A)
    ||| u == 0x2028 ||| u == 0x2029 ||| u == 0x202F ||| u == 0x205F ||| u == 0x3000
}

/// An ASCII decimal digit.
pub open spec fn is_digit_char(c: char) -> bool {
    0x30 <= c as u32 && c as u32 <= 0x39
}

/// A character reserved as a parsing marker (block or inline).
pub open spec fn is_marker_char(c: char) -> bool {
    c == '#' || c == '-' || is_digit_char(c) || c == '`' || c == '>' || c == '*' || c == '_'
}

/// Whether `c` opens a nested span at the current inline scan level:
/// a bold marker opens one anywhere but inside a bold span, an italic
/// marker anywhere but inside an italic span.
pub open spec fn opens_span(c: char, m: InlineMode) -> bool {
    (c == '*' && m != InlineMode::InsideBold) || (c == '_' && m != InlineMode::InsideItalic)
}

/// The scan level entered between a pair of delimiters `d`.
pub open spec fn inner_mode(d: char) -> InlineMode {
    if d == '*' {
        InlineMode::InsideBold
    } else {
        InlineMode::InsideItalic
    }
}

// ---------------------------------------------------------------------
// Position scanners
// ---------------------------------------------------------------------

/// First position at or after `i` not holding the character `d`.
pub open spec fn skip_run(s: Seq<char>, i: int, d: char) -> int
    decreases s.len() - i,
{
    if 0 <= i && i < s.len() && s[i] == d {
        skip_run(s, i + 1, d)
    } else {
        i
    }
}

/// First position at or after `i` not holding whitespace.
pub open spec fn skip_ws(s: Seq<char>, i: int) -> int
    decreases s.len() - i,
{
    if 0 <= i && i < s.len() && is_ws_char(s[i]) {
        skip_ws(s, i + 1)
    } else {
        i
    }
}

/// First position at or after `i` holding neither a digit nor `'.'`
/// (the ordinal prefix of an ordered list item).
pub open spec fn skip_ordinal(s: Seq<char>, i: int) -> int
    decreases s.len() - i,
{
    if 0 <= i && i < s.len() && (is_digit_char(s[i]) || s[i] == '.') {
        skip_ordinal(s, i + 1)
    } else {
        i
    }
}

/// First position in `[i, end)` holding `d`, or `end` if there is none.
pub open spec fn find_delim(s: Seq<char>, i: int, end: int, d: char) -> int
    decreases end - i,
{
    if 0 <= i && i < end && end <= s.len() {
        if s[i] == d {
            i
        } else {
            find_delim(s, i + 1, end, d)
        }
    } else {
        i
    }
}

/// First position in `[i, end)` whose character opens a span at level
/// `m`, or `end` if there is none.
pub open spec fn find_open(s: Seq<char>, i: int, end: int, m: InlineMode) -> int
    decreases end - i,
{
    if 0 <= i && i < end && end <= s.len() {
        if opens_span(s[i], m) {
            i
        } else {
            find_open(s, i + 1, end, m)
        }
    } else {
        i
    }
}

/// Position ending a paragraph capture that starts at `i`: the second
/// line break of the first blank line (`prev_nl` says whether the
/// character before `i` inside the capture was a line break), or the end
/// of the input.
pub open spec fn para_end(s: Seq<char>, i: int, prev_nl: bool) -> int
    decreases s.len() - i,
{
    if 0 <= i && i < s.len() {
        if prev_nl && s[i] == '\n' {
            i
        } else {
            para_end(s, i + 1, s[i] == '\n')
        }
    } else {
        i
    }
}

/// A run of `w` fence characters starting exactly at `q`.
pub open spec fn fence_at(s: Seq<char>, q: int, w: int) -> bool {
    q + w <= s.len() && forall|k: int| q <= k < q + w ==> s[k] == '`'
}

/// First position at or after `i` where a fence of width `w` starts, or
/// the length of the input if there is none.
pub open spec fn find_fence(s: Seq<char>, i: int, w: int) -> int
    decreases s.len() - i,
{
    if 0 <= i && i + w <= s.len() && w >= 1 {
        if fence_at(s, i, w) {
            i
        } else {
            find_fence(s, i + 1, w)
        }
    } else {
        s.len() as int
    }
}

// ---------------------------------------------------------------------
// Scanner characterizations
// ---------------------------------------------------------------------

pub proof fn lemma_skip_run(s: Seq<char>, i: int, d: char)
    requires
        0 <= i <= s.len(),
    ensures
        ({
            let r = skip_run(s, i, d);
            &&& i <= r <= s.len()
            &&& forall|k: int| i <= k < r ==> s[k] == d
            &&& r < s.len() ==> s[r] != d
        }),
    decreases s.len() - i,
{
    if i < s.len() && s[i] == d {
        lemma_skip_run(s, i + 1, d);
    }
}

pub proof fn lemma_skip_ws(s: Seq<char>, i: int)
    requires
        0 <= i <= s.len(),
    ensures
        ({
            let r = skip_ws(s, i);
            &&& i <= r <= s.len()
            &&& forall|k: int| i <= k < r ==> is_ws_char(s[k])
            &&& r < s.len() ==> !is_ws_char(s[r])
        }),
    decreases s.len() - i,
{
    if i < s.len() && is_ws_char(s[i]) {
        lemma_skip_ws(s, i + 1);
    }
}

pub proof fn lemma_skip_ordinal(s: Seq<char>, i: int)
    requires
        0 <= i <= s.len(),
    ensures
        ({
            let r = skip_ordinal(s, i);
            &&& i <= r <= s.len()
            &&& forall|k: int| i <= k < r ==> is_digit_char(s[k]) || s[k] == '.'
            &&& r < s.len() ==> !(is_digit_char(s[r]) || s[r] == '.')
        }),
    decreases s.len() - i,
{
    if i < s.len() && (is_digit_char(s[i]) || s[i] == '.') {
        lemma_skip_ordinal(s, i + 1);
    }
}

pub proof fn lemma_find_delim(s: Seq<char>, i: int, end: int, d: char)
    requires
        0 <= i <= end <= s.len(),
    ensures
        ({
            let r = find_delim(s, i, end, d);
            &&& i <= r <= end
            &&& forall|k: int| i <= k < r ==> s[k] != d
            &&& r < end ==> s[r] == d
        }),
    decreases end - i,
{
    if i < end && s[i] != d {
        lemma_find_delim(s, i + 1, end, d);
    }
}

pub proof fn lemma_find_open(s: Seq<char>, i: int, end: int, m: InlineMode)
    requires
        0 <= i <= end <= s.len(),
    ensures
        ({
            let r = find_open(s, i, end, m);
            &&& i <= r <= end
            &&& forall|k: int| i <= k < r ==> !opens_span(s[k], m)
            &&& r < end ==> opens_span(s[r], m)
        }),
    decreases end - i,
{
    if i < end && !opens_span(s[i], m) {
        lemma_find_open(s, i + 1, end, m);
    }
}

pub proof fn lemma_para_end(s: Seq<char>, i: int, prev_nl: bool)
    requires
        0 <= i <= s.len(),
    ensures
        ({
            let r = para_end(s, i, prev_nl);
            &&& i <= r <= s.len()
            &&& r < s.len() ==> s[r] == '\n'
            &&& (!prev_nl && i < s.len()) ==> i < r
        }),
    decreases s.len() - i,
{
    if i < s.len() && !(prev_nl && s[i] == '\n') {
        lemma_para_end(s, i + 1, s[i] == '\n');
    }
}

pub proof fn lemma_find_fence(s: Seq<char>, i: int, w: int)
    requires
        0 <= i <= s.len(),
        1 <= w,
    ensures
        ({
            let r = find_fence(s, i, w);
            &&& i <= r <= s.len()
            &&& r < s.len() ==> fence_at(s, r, w)
        }),
    decreases s.len() - i,
{
    if i + w <= s.len() && !fence_at(s, i, w) {
        lemma_find_fence(s, i + 1, w);
    }
}

// ---------------------------------------------------------------------
// Inline spans
// ---------------------------------------------------------------------

/// The inline spans of the region `[lo, hi)` of `s`, scanned at level `m`.
///
/// Plain characters accumulate into `Text` leaves. A delimiter that opens
/// a span at this level captures the region up to its own matching
/// delimiter (or to the end of the region when unterminated) and scans it
/// one level in, where the same kind cannot open again but the opposite
/// kind can.
pub open spec fn scan_spans(s: Seq<char>, lo: int, hi: int, m: InlineMode) -> Seq<SpanModel>
    decreases hi - lo,
{
    if !(0 <= lo && lo <= hi && hi <= s.len()) {
        Seq::<SpanModel>::empty()
    } else if lo == hi {
        Seq::<SpanModel>::empty()
    } else {
        let p = find_open(s, lo, hi, m);
        if p >= hi {
            seq![SpanModel::Text(s.subrange(lo, hi))]
        } else {
            let pre: Seq<SpanModel> = if p > lo {
                seq![SpanModel::Text(s.subrange(lo, p))]
            } else {
                Seq::<SpanModel>::empty()
            };
            let d = s[p];
            let q = find_delim(s, p + 1, hi, d);
            proof {
                lemma_find_open(s, lo, hi, m);
                lemma_find_delim(s, p + 1, hi, d);
            }
            let inner = scan_spans(s, p + 1, q, inner_mode(d));
            let sub = if d == '*' {
                SpanModel::Bold(inner)
            } else {
                SpanModel::Italic(inner)
            };
            let rest_lo = if q < hi {
                q + 1
            } else {
                hi
            };
            pre + seq![sub] + scan_spans(s, rest_lo, hi, m)
        }
    }
}

// ---------------------------------------------------------------------
// Blocks
// ---------------------------------------------------------------------

/// Position after a line capture ending at `b`: the terminating line
/// break is consumed but not captured.
pub open spec fn after_line(s: Seq<char>, b: int) -> int {
    if b < s.len() {
        b + 1
    } else {
        b
    }
}

/// Heading block starting at the first `#` marker, and the position that
/// follows it: a maximal run of markers gives the level, whitespace after
/// the run is skipped, and the rest of the line is the inline content.
pub open spec fn heading_at(s: Seq<char>, i: int) -> (BlockModel, int) {
    let h = skip_run(s, i, '#');
    let a = skip_ws(s, h);
    let b = find_delim(s, a, s.len() as int, '\n');
    (
        BlockModel::Heading((h - i) as nat, scan_spans(s, a, b, InlineMode::TopLevel)),
        after_line(s, b),
    )
}

/// Paragraph block starting at `i`: everything up to the first blank
/// line (or the end of the input) is captured and inline-parsed; the
/// second line break of the blank pair is consumed but not captured.
pub open spec fn paragraph_at(s: Seq<char>, i: int) -> (BlockModel, int) {
    let j = para_end(s, i, false);
    (BlockModel::Paragraph(scan_spans(s, i, j, InlineMode::TopLevel)), after_line(s, j))
}

/// The items of a list of kind `kind` starting at `i`, one inline-parsed
/// sequence per marked line, and the position after the last of them.
/// Whitespace between items is skipped; the first character that is
/// neither whitespace nor the expected marker ends the list.
pub open spec fn list_items(s: Seq<char>, i: int, kind: ListType) -> (Seq<Seq<SpanModel>>, int)
    decreases s.len() - i,
{
    if !(0 <= i && i < s.len()) {
        (Seq::<Seq<SpanModel>>::empty(), i)
    } else {
        let c = s[i];
        if kind == ListType::Unordered && c == '-' {
            let a = skip_ws(s, i + 1);
            let b = find_delim(s, a, s.len() as int, '\n');
            proof {
                lemma_skip_ws(s, i + 1);
                lemma_find_delim(s, a, s.len() as int, '\n');
            }
            let rest = list_items(s, after_line(s, b), kind);
            (seq![scan_spans(s, a, b, InlineMode::TopLevel)] + rest.0, rest.1)
        } else if kind == ListType::Ordered && is_digit_char(c) {
            let o = skip_ordinal(s, i + 1);
            let a = skip_ws(s, o);
            let b = find_delim(s, a, s.len() as int, '\n');
            proof {
                lemma_skip_ordinal(s, i + 1);
                lemma_skip_ws(s, o);
                lemma_find_delim(s, a, s.len() as int, '\n');
            }
            let rest = list_items(s, after_line(s, b), kind);
            (seq![scan_spans(s, a, b, InlineMode::TopLevel)] + rest.0, rest.1)
        } else if is_ws_char(c) {
            list_items(s, i + 1, kind)
        } else {
            (Seq::<Seq<SpanModel>>::empty(), i)
        }
    }
}

/// List block starting at `i`.
pub open spec fn list_at(s: Seq<char>, i: int, kind: ListType) -> (BlockModel, int) {
    let items = list_items(s, i, kind);
    (BlockModel::List(kind, items.0), items.1)
}

/// The accumulated text of consecutive quote-marked lines starting at
/// `i` — marker and following whitespace stripped, each line rejoined
/// with a line break — and the position after them.
pub open spec fn quote_text(s: Seq<char>, i: int) -> (Seq<char>, int)
    decreases s.len() - i,
{
    if 0 <= i && i < s.len() && s[i] == '>' {
        let a = skip_ws(s, i + 1);
        let b = find_delim(s, a, s.len() as int, '\n');
        proof {
            lemma_skip_ws(s, i + 1);
            lemma_find_delim(s, a, s.len() as int, '\n');
        }
        let rest = quote_text(s, after_line(s, b));
        (s.subrange(a, b) + seq!['\n'] + rest.0, rest.1)
    } else {
        (Seq::<char>::empty(), i)
    }
}

/// Blockquote block starting at the first `>` marker: the accumulated
/// stripped text is inline-parsed like any other text-bearing block.
pub open spec fn quote_at(s: Seq<char>, i: int) -> (BlockModel, int) {
    let t = quote_text(s, i);
    (BlockModel::BlockQuote(scan_spans(t.0, 0, t.0.len() as int, InlineMode::TopLevel)), t.1)
}

/// Code block whose opening fence starts at `i`. A run of two or more
/// fence characters opens a multi-character fence: the content runs to
/// the first matching run of the same width, which is consumed and
/// stripped. A single fence character captures to the next single fence
/// character. Unterminated fences capture to the end of the input.
/// Content is taken verbatim, never inline-parsed.
pub open spec fn code_at(s: Seq<char>, i: int) -> (BlockModel, int) {
    let r = skip_run(s, i, '`');
    let w = r - i;
    if w >= 2 {
        let q = find_fence(s, r, w);
        let fin = if q + w <= s.len() {
            q + w
        } else {
            s.len() as int
        };
        (BlockModel::Code(s.subrange(r, q)), fin)
    } else {
        let b = find_delim(s, i + 1, s.len() as int, '`');
        (BlockModel::Code(s.subrange(i + 1, b)), after_line(s, b))
    }
}

// ---------------------------------------------------------------------
// Progress of the block parsers
// ---------------------------------------------------------------------

pub proof fn lemma_heading_next(s: Seq<char>, i: int)
    requires
        0 <= i < s.len(),
        s[i] == '#',
    ensures
        i < heading_at(s, i).1 <= s.len(),
{
    lemma_skip_run(s, i, '#');
    let h = skip_run(s, i, '#');
    assert(h == skip_run(s, i + 1, '#'));
    lemma_skip_run(s, i + 1, '#');
    lemma_skip_ws(s, h);
    lemma_find_delim(s, skip_ws(s, h), s.len() as int, '\n');
}

pub proof fn lemma_paragraph_next(s: Seq<char>, i: int)
    requires
        0 <= i < s.len(),
    ensures
        i < paragraph_at(s, i).1 <= s.len(),
{
    lemma_para_end(s, i, false);
}

pub proof fn lemma_list_items_bounds(s: Seq<char>, i: int, kind: ListType)
    requires
        0 <= i <= s.len(),
    ensures
        i <= list_items(s, i, kind).1 <= s.len(),
    decreases s.len() - i,
{
    if 0 <= i && i < s.len() {
        let c = s[i];
        if kind == ListType::Unordered && c == '-' {
            let a = skip_ws(s, i + 1);
            let b = find_delim(s, a, s.len() as int, '\n');
            lemma_skip_ws(s, i + 1);
            lemma_find_delim(s, a, s.len() as int, '\n');
            lemma_list_items_bounds(s, after_line(s, b), kind);
        } else if kind == ListType::Ordered && is_digit_char(c) {
            let o = skip_ordinal(s, i + 1);
            let a = skip_ws(s, o);
            let b = find_delim(s, a, s.len() as int, '\n');
            lemma_skip_ordinal(s, i + 1);
            lemma_skip_ws(s, o);
            lemma_find_delim(s, a, s.len() as int, '\n');
            lemma_list_items_bounds(s, after_line(s, b), kind);
        } else if is_ws_char(c) {
            lemma_list_items_bounds(s, i + 1, kind);
        }
    }
}

pub proof fn lemma_list_next(s: Seq<char>, i: int, kind: ListType)
    requires
        0 <= i < s.len(),
        (kind == ListType::Unordered && s[i] == '-') || (kind == ListType::Ordered
            && is_digit_char(s[i])),
    ensures
        i < list_at(s, i, kind).1 <= s.len(),
{
    if kind == ListType::Unordered && s[i] == '-' {
        let a = skip_ws(s, i + 1);
        let b = find_delim(s, a, s.len() as int, '\n');
        lemma_skip_ws(s, i + 1);
        lemma_find_delim(s, a, s.len() as int, '\n');
        lemma_list_items_bounds(s, after_line(s, b), kind);
    } else {
        let o = skip_ordinal(s, i + 1);
        let a = skip_ws(s, o);
        let b = find_delim(s, a, s.len() as int, '\n');
        lemma_skip_ordinal(s, i + 1);
        lemma_skip_ws(s, o);
        lemma_find_delim(s, a, s.len() as int, '\n');
        lemma_list_items_bounds(s, after_line(s, b), kind);
    }
}

pub proof fn lemma_quote_bounds(s: Seq<char>, i: int)
    requires
        0 <= i <= s.len(),
    ensures
        i <= quote_text(s, i).1 <= s.len(),
    decreases s.len() - i,
{
    if 0 <= i && i < s.len() && s[i] == '>' {
        let a = skip_ws(s, i + 1);
        let b = find_delim(s, a, s.len() as int, '\n');
        lemma_skip_ws(s, i + 1);
        lemma_find_delim(s, a, s.len() as int, '\n');
        lemma_quote_bounds(s, after_line(s, b));
    }
}

pub proof fn lemma_quote_next(s: Seq<char>, i: int)
    requires
        0 <= i < s.len(),
        s[i] == '>',
    ensures
        i < quote_at(s, i).1 <= s.len(),
{
    let a = skip_ws(s, i + 1);
    let b = find_delim(s, a, s.len() as int, '\n');
    lemma_skip_ws(s, i + 1);
    lemma_find_delim(s, a, s.len() as int, '\n');
    lemma_quote_bounds(s, after_line(s, b));
}

pub proof fn lemma_code_next(s: Seq<char>, i: int)
    requires
        0 <= i < s.len(),
        s[i] == '`',
    ensures
        i < code_at(s, i).1 <= s.len(),
{
    lemma_skip_run(s, i, '`');
    let r = skip_run(s, i, '`');
    assert(r == skip_run(s, i + 1, '`'));
    lemma_skip_run(s, i + 1, '`');
    let w = r - i;
    if w >= 2 {
        lemma_find_fence(s, r, w);
    } else {
        lemma_find_delim(s, i + 1, s.len() as int, '`');
    }
}

// ---------------------------------------------------------------------
// The document
// ---------------------------------------------------------------------

/// The blocks of the document from position `i` on. The next unconsumed
/// character picks the block handler: `#` a heading, a digit an ordered
/// list, `-` an unordered list, a fence character a code block, `>` a
/// blockquote, and anything else a paragraph; a lone line break is
/// consumed without producing a block. This is total: every input yields
/// a document, at worst an empty one.
pub open spec fn parse_blocks(s: Seq<char>, i: int) -> Seq<BlockModel>
    decreases s.len() - i,
{
    if !(0 <= i && i < s.len()) {
        Seq::<BlockModel>::empty()
    } else {
        let c = s[i];
        if c == '#' {
            let hb = heading_at(s, i);
            proof {
                lemma_heading_next(s, i);
            }
            seq![hb.0] + parse_blocks(s, hb.1)
        } else if c == '\n' {
            parse_blocks(s, i + 1)
        } else if c == '-' {
            let lb = list_at(s, i, ListType::Unordered);
            proof {
                lemma_list_next(s, i, ListType::Unordered);
            }
            seq![lb.0] + parse_blocks(s, lb.1)
        } else if is_digit_char(c) {
            let lb = list_at(s, i, ListType::Ordered);
            proof {
                lemma_list_next(s, i, ListType::Ordered);
            }
            seq![lb.0] + parse_blocks(s, lb.1)
        } else if c == '`' {
            let cb = code_at(s, i);
            proof {
                lemma_code_next(s, i);
            }
            seq![cb.0] + parse_blocks(s, cb.1)
        } else if c == '>' {
            let qb = quote_at(s, i);
            proof {
                lemma_quote_next(s, i);
            }
            seq![qb.0] + parse_blocks(s, qb.1)
        } else {
            let pb = paragraph_at(s, i);
            proof {
                lemma_paragraph_next(s, i);
            }
            seq![pb.0] + parse_blocks(s, pb.1)
        }
    }
}

} // verus!
