//! The executable parser.
//!
//! Each function is proved to return exactly what the corresponding
//! spec function in [`crate::model`] describes. `parse_md` is the entry
//! point: it is total — it accepts any input and never panics.

use vstd::prelude::*;
use crate::ast::{InlineMode, ListType, Markdown, MarkdownText, SpanModel, lemma_spans_view_eq, spans_view};
use crate::model::{
    code_at, fence_at, find_delim, find_fence, find_open, heading_at, is_digit_char, is_ws_char,
    lemma_code_next, lemma_find_fence, lemma_find_open, lemma_heading_next, lemma_list_next,
    lemma_paragraph_next, lemma_quote_next, list_at, list_items, opens_span, para_end,
    paragraph_at, parse_blocks, quote_at, quote_text, scan_spans, skip_ordinal, skip_run, skip_ws,
};

verus! {

broadcast use vstd::std_specs::vec::group_vec_axioms;

// ---------------------------------------------------------------------
// Character classes
// ---------------------------------------------------------------------

/// Whether `c` has the Unicode `White_Space` property.
pub fn ws_char(c: char) -> (r: bool)
    ensures
        r == is_ws_char(c),
{
    let u = c as u32;
    u == 0x09 || u == 0x0A || u == 0x0B || u == 0x0C || u == 0x0D
    || u == 0x20 || u == 0x85 || u == 0xA0 || u == 0x1680
    || (0x2000 <= u && u <= 0x200A)
    || u == 0x2028 || u == 0x2029 || u == 0x202F || u == 0x205F || u == 0x3000
}

/// Whether `c` is an ASCII decimal digit.
pub fn digit_char(c: char) -> (r: bool)
    ensures
        r == is_digit_char(c),
{
    let u = c as u32;
    0x30 <= u && u <= 0x39
}

/// Whether `c` opens a nested span at inline scan level `m`.
pub fn opens_char(c: char, m: InlineMode) -> (r: bool)
    ensures
        r == opens_span(c, m),
{
    (c == '*' && !matches!(m, InlineMode::InsideBold)) || (c == '_' && !matches!(
        m,
        InlineMode::InsideItalic,
    ))
}

// ---------------------------------------------------------------------
// Position scanners
// ---------------------------------------------------------------------

fn skip_run_x(input: &Vec<char>, from: usize, d: char) -> (r: usize)
    requires
        from <= input@.len(),
    ensures
        r as int == skip_run(input@, from as int, d),
        from <= r <= input@.len(),
{
    let ghost s = input@;
    let mut j = from;
    while j < input.len() && input[j] == d
        invariant
            from <= j <= s.len(),
            s == input@,
            skip_run(s, from as int, d) == skip_run(s, j as int, d),
        decreases s.len() - j,
    {
        j = j + 1;
    }
    j
}

fn skip_ws_x(input: &Vec<char>, from: usize) -> (r: usize)
    requires
        from <= input@.len(),
    ensures
        r as int == skip_ws(input@, from as int),
        from <= r <= input@.len(),
{
    let ghost s = input@;
    let mut j = from;
    while j < input.len() && ws_char(input[j])
        invariant
            from <= j <= s.len(),
            s == input@,
            skip_ws(s, from as int) == skip_ws(s, j as int),
        decreases s.len() - j,
    {
        j = j + 1;
    }
    j
}

fn skip_ordinal_x(input: &Vec<char>, from: usize) -> (r: usize)
    requires
        from <= input@.len(),
    ensures
        r as int == skip_ordinal(input@, from as int),
        from <= r <= input@.len(),
{
    let ghost s = input@;
    let mut j = from;
    while j < input.len() && (digit_char(input[j]) || input[j] == '.')
        invariant
            from <= j <= s.len(),
            s == input@,
            skip_ordinal(s, from as int) == skip_ordinal(s, j as int),
        decreases s.len() - j,
    {
        j = j + 1;
    }
    j
}

fn find_delim_x(input: &Vec<char>, from: usize, end: usize, d: char) -> (r: usize)
    requires
        from <= end <= input@.len(),
    ensures
        r as int == find_delim(input@, from as int, end as int, d),
        from <= r <= end,
{
    let ghost s = input@;
    let mut j = from;
    while j < end && input[j] != d
        invariant
            from <= j <= end <= s.len(),
            s == input@,
            find_delim(s, from as int, end as int, d) == find_delim(s, j as int, end as int, d),
        decreases end - j,
    {
        j = j + 1;
    }
    j
}

fn find_open_x(input: &Vec<char>, from: usize, end: usize, m: InlineMode) -> (r: usize)
    requires
        from <= end <= input@.len(),
    ensures
        r as int == find_open(input@, from as int, end as int, m),
        from <= r <= end,
{
    let ghost s = input@;
    let mut j = from;
    while j < end && !opens_char(input[j], m)
        invariant
            from <= j <= end <= s.len(),
            s == input@,
            find_open(s, from as int, end as int, m) == find_open(s, j as int, end as int, m),
        decreases end - j,
    {
        j = j + 1;
    }
    j
}

fn para_end_x(input: &Vec<char>, from: usize) -> (r: usize)
    requires
        from <= input@.len(),
    ensures
        r as int == para_end(input@, from as int, false),
        from <= r <= input@.len(),
{
    let ghost s = input@;
    let mut j = from;
    let mut prev_nl = false;
    while j < input.len() && !(prev_nl && input[j] == '\n')
        invariant
            from <= j <= s.len(),
            s == input@,
            para_end(s, from as int, false) == para_end(s, j as int, prev_nl),
        decreases s.len() - j,
    {
        prev_nl = input[j] == '\n';
        j = j + 1;
    }
    j
}

/// Whether a fence of width `w` starts exactly at `q`.
fn fence_test(input: &Vec<char>, q: usize, w: usize) -> (r: bool)
    requires
        q + w <= input@.len(),
    ensures
        r == fence_at(input@, q as int, w as int),
{
    let ghost s = input@;
    let mut k: usize = 0;
    while k < w
        invariant
            0 <= k <= w,
            q + w <= s.len(),
            s == input@,
            s.len() == input.len(),
            forall|j: int| q <= j < q + k ==> s[j] == '`',
        decreases w - k,
    {
        if input[q + k] != '`' {
            return false;
        }
        k = k + 1;
    }
    true
}

fn find_fence_x(input: &Vec<char>, from: usize, w: usize) -> (r: usize)
    requires
        from <= input@.len(),
        1 <= w,
    ensures
        r as int == find_fence(input@, from as int, w as int),
        r <= input@.len(),
{
    let ghost s = input@;
    if w > input.len() || from > input.len() - w {
        return input.len();
    }
    let limit = input.len() - w;
    let mut j = from;
    while j <= limit && !fence_test(input, j, w)
        invariant
            from <= j <= limit + 1,
            limit == s.len() - w,
            w >= 1,
            s == input@,
            s.len() == input.len(),
            find_fence(s, from as int, w as int) == find_fence(s, j as int, w as int),
        decreases limit + 1 - j,
    {
        j = j + 1;
    }
    if j <= limit {
        j
    } else {
        input.len()
    }
}

/// A fresh copy of the characters of the region `[from, to)`.
fn copy_range(input: &Vec<char>, from: usize, to: usize) -> (r: Vec<char>)
    requires
        from <= to <= input@.len(),
    ensures
        r@ == input@.subrange(from as int, to as int),
{
    let mut r: Vec<char> = Vec::new();
    let mut k = from;
    while k < to
        invariant
            from <= k <= to <= input@.len(),
            r@ == input@.subrange(from as int, k as int),
        decreases to - k,
    {
        r.push(input[k]);
        k = k + 1;
        proof {
            assert(r@ =~= input@.subrange(from as int, k as int));
        }
    }
    r
}

// ---------------------------------------------------------------------
// Inline scanner
// ---------------------------------------------------------------------

/// The leading plain-text chunk of the region `[lo, hi)` at scan level
/// `mode`: everything up to the first delimiter that opens a span at
/// this level, and that delimiter's position.
pub fn parse_md_text_text(input: &Vec<char>, lo: usize, hi: usize, mode: InlineMode) -> (r: (
    MarkdownText,
    usize,
))
    requires
        lo <= hi <= input@.len(),
    ensures
        ({
            let p = find_open(input@, lo as int, hi as int, mode);
            &&& r.1 as int == p
            &&& lo <= r.1 <= hi
            &&& r.0.deep_view() == SpanModel::Text(input@.subrange(lo as int, p))
        }),
{
    let p = find_open_x(input, lo, hi, mode);
    (MarkdownText::Text(copy_range(input, lo, p)), p)
}

/// Bold span whose content starts at `lo`, just after the opening
/// delimiter: the content runs to the matching delimiter (consumed) or
/// to `hi`, and is scanned one level in, where nested italics are
/// honored but a second bold is not.
pub fn parse_md_text_bold(input: &Vec<char>, lo: usize, hi: usize) -> (r: (MarkdownText, usize))
    requires
        lo <= hi <= input@.len(),
    ensures
        ({
            let q = find_delim(input@, lo as int, hi as int, '*');
            &&& r.0.deep_view() == SpanModel::Bold(
                scan_spans(input@, lo as int, q, InlineMode::InsideBold),
            )
            &&& r.1 as int == (if q < hi as int {
                q + 1
            } else {
                hi as int
            })
            &&& lo <= r.1 <= hi
        }),
    decreases hi - lo, 1int,
{
    let q = find_delim_x(input, lo, hi, '*');
    let children = parse_md_text(input, lo, q, InlineMode::InsideBold);
    proof {
        lemma_spans_view_eq(children@);
        assert(spans_view(children@) =~= children.deep_view());
    }
    let nxt = if q < hi {
        q + 1
    } else {
        hi
    };
    (MarkdownText::Bold(children), nxt)
}

/// Italic span whose content starts at `lo`, just after the opening
/// delimiter; the structural mirror of `parse_md_text_bold`.
pub fn parse_md_text_italic(input: &Vec<char>, lo: usize, hi: usize) -> (r: (MarkdownText, usize))
    requires
        lo <= hi <= input@.len(),
    ensures
        ({
            let q = find_delim(input@, lo as int, hi as int, '_');
            &&& r.0.deep_view() == SpanModel::Italic(
                scan_spans(input@, lo as int, q, InlineMode::InsideItalic),
            )
            &&& r.1 as int == (if q < hi as int {
                q + 1
            } else {
                hi as int
            })
            &&& lo <= r.1 <= hi
        }),
    decreases hi - lo, 1int,
{
    let q = find_delim_x(input, lo, hi, '_');
    let children = parse_md_text(input, lo, q, InlineMode::InsideItalic);
    proof {
        lemma_spans_view_eq(children@);
        assert(spans_view(children@) =~= children.deep_view());
    }
    let nxt = if q < hi {
        q + 1
    } else {
        hi
    };
    (MarkdownText::Italic(children), nxt)
}

/// The inline spans of the region `[lo, hi)`, scanned at level `mode`.
/// This is the shared scan loop: plain characters accumulate into text
/// leaves, and a delimiter that opens a span at this level dispatches to
/// the handler of its kind.
pub fn parse_md_text(input: &Vec<char>, lo: usize, hi: usize, mode: InlineMode) -> (r: Vec<
    MarkdownText,
>)
    requires
        lo <= hi <= input@.len(),
    ensures
        r.deep_view() == scan_spans(input@, lo as int, hi as int, mode),
    decreases hi - lo, 0int,
{
    let ghost s = input@;
    let mut spans: Vec<MarkdownText> = Vec::new();
    let mut cur = lo;
    while cur < hi
        invariant
            lo <= cur <= hi <= s.len(),
            s == input@,
            spans.deep_view() + scan_spans(s, cur as int, hi as int, mode) == scan_spans(
                s,
                lo as int,
                hi as int,
                mode,
            ),
        decreases hi - cur,
    {
        let ghost inv0 = spans.deep_view();
        let ghost cur0 = cur as int;
        let (chunk, p) = parse_md_text_text(input, cur, hi, mode);
        let ghost pre: Seq<SpanModel> = if p as int > cur0 {
            seq![SpanModel::Text(s.subrange(cur0, p as int))]
        } else {
            Seq::<SpanModel>::empty()
        };
        if cur < p {
            let ghost before = spans.deep_view();
            spans.push(chunk);
            proof {
                assert(spans.deep_view() =~= before.push(chunk.deep_view()));
            }
        }
        proof {
            assert(spans.deep_view() =~= inv0 + pre);
        }
        if p < hi {
            let d = input[p];
            proof {
                lemma_find_open(s, cur0, hi as int, mode);
            }
            let (span, nxt) = if d == '*' {
                parse_md_text_bold(input, p + 1, hi)
            } else {
                parse_md_text_italic(input, p + 1, hi)
            };
            let ghost mid = spans.deep_view();
            spans.push(span);
            proof {
                assert(spans.deep_view() =~= mid.push(span.deep_view()));
                assert(scan_spans(s, cur0, hi as int, mode) == pre + seq![span.deep_view()]
                    + scan_spans(s, nxt as int, hi as int, mode));
                assert(spans.deep_view() + scan_spans(s, nxt as int, hi as int, mode) =~= inv0
                    + scan_spans(s, cur0, hi as int, mode));
            }
            cur = nxt;
        } else {
            proof {
                assert(scan_spans(s, cur0, hi as int, mode) == pre);
                assert(scan_spans(s, hi as int, hi as int, mode) =~= Seq::<SpanModel>::empty());
                assert(spans.deep_view() + scan_spans(s, hi as int, hi as int, mode) =~= inv0
                    + scan_spans(s, cur0, hi as int, mode));
            }
            cur = hi;
        }
    }
    proof {
        assert(scan_spans(s, cur as int, hi as int, mode) =~= Seq::<SpanModel>::empty());
        assert(spans.deep_view() =~= scan_spans(s, lo as int, hi as int, mode));
    }
    spans
}

// ---------------------------------------------------------------------
// Block parsers
// ---------------------------------------------------------------------

/// Heading block starting at `pos`: a maximal run of `#` markers gives
/// the level, whitespace after the run is skipped, and the rest of the
/// line is inline-parsed.
pub fn parse_heading(input: &Vec<char>, pos: usize) -> (r: (Markdown, usize))
    requires
        pos <= input@.len(),
    ensures
        r.0.deep_view() == heading_at(input@, pos as int).0,
        r.1 as int == heading_at(input@, pos as int).1,
        pos <= r.1 <= input@.len(),
{
    let h = skip_run_x(input, pos, '#');
    let level = h - pos;
    let a = skip_ws_x(input, h);
    let b = find_delim_x(input, a, input.len(), '\n');
    let content = parse_md_text(input, a, b, InlineMode::TopLevel);
    let nxt = if b < input.len() {
        b + 1
    } else {
        b
    };
    (Markdown::Heading(level, content), nxt)
}

/// Paragraph block starting at `pos`: everything up to the first blank
/// line (or the end of the input) is captured and inline-parsed as one
/// region, so spans may cross line breaks inside a paragraph.
pub fn parse_paragraph(input: &Vec<char>, pos: usize) -> (r: (Markdown, usize))
    requires
        pos <= input@.len(),
    ensures
        r.0.deep_view() == paragraph_at(input@, pos as int).0,
        r.1 as int == paragraph_at(input@, pos as int).1,
        pos <= r.1 <= input@.len(),
{
    let j = para_end_x(input, pos);
    let content = parse_md_text(input, pos, j, InlineMode::TopLevel);
    let nxt = if j < input.len() {
        j + 1
    } else {
        j
    };
    (Markdown::Paragraph(content), nxt)
}

/// List block of kind `list_type` starting at `pos`: one inline-parsed
/// item per marked line, whitespace between items skipped; the first
/// character that is neither whitespace nor the expected marker ends
/// the list.
pub fn parse_list(input: &Vec<char>, pos: usize, list_type: ListType) -> (r: (Markdown, usize))
    requires
        pos <= input@.len(),
    ensures
        r.0.deep_view() == list_at(input@, pos as int, list_type).0,
        r.1 as int == list_at(input@, pos as int, list_type).1,
        pos <= r.1 <= input@.len(),
{
    let ghost s = input@;
    let mut items: Vec<Vec<MarkdownText>> = Vec::new();
    let mut cur = pos;
    let mut done = false;
    while !done && cur < input.len()
        invariant
            pos <= cur <= s.len(),
            s == input@,
            !done ==> {
                &&& list_items(s, pos as int, list_type).0 == items.deep_view() + list_items(
                    s,
                    cur as int,
                    list_type,
                ).0
                &&& list_items(s, pos as int, list_type).1 == list_items(s, cur as int, list_type).1
            },
            done ==> {
                &&& list_items(s, pos as int, list_type).0 == items.deep_view()
                &&& list_items(s, pos as int, list_type).1 == cur as int
            },
        decreases s.len() - cur, (if done {
            0int
        } else {
            1int
        }),
    {
        let ghost cur0 = cur as int;
        let ghost inv0 = items.deep_view();
        let c = input[cur];
        if list_type == ListType::Unordered && c == '-' {
            let a = skip_ws_x(input, cur + 1);
            let b = find_delim_x(input, a, input.len(), '\n');
            let item = parse_md_text(input, a, b, InlineMode::TopLevel);
            let nxt = if b < input.len() {
                b + 1
            } else {
                b
            };
            items.push(item);
            proof {
                assert(items.deep_view() =~= inv0.push(scan_spans(s, a as int, b as int,
                    InlineMode::TopLevel)));
                assert(list_items(s, cur0, list_type).0 == seq![scan_spans(s, a as int, b as int,
                    InlineMode::TopLevel)] + list_items(s, nxt as int, list_type).0);
                assert(items.deep_view() + list_items(s, nxt as int, list_type).0 =~= inv0
                    + list_items(s, cur0, list_type).0);
            }
            cur = nxt;
        } else if list_type == ListType::Ordered && digit_char(c) {
            let o = skip_ordinal_x(input, cur + 1);
            let a = skip_ws_x(input, o);
            let b = find_delim_x(input, a, input.len(), '\n');
            let item = parse_md_text(input, a, b, InlineMode::TopLevel);
            let nxt = if b < input.len() {
                b + 1
            } else {
                b
            };
            items.push(item);
            proof {
                assert(items.deep_view() =~= inv0.push(scan_spans(s, a as int, b as int,
                    InlineMode::TopLevel)));
                assert(list_items(s, cur0, list_type).0 == seq![scan_spans(s, a as int, b as int,
                    InlineMode::TopLevel)] + list_items(s, nxt as int, list_type).0);
                assert(items.deep_view() + list_items(s, nxt as int, list_type).0 =~= inv0
                    + list_items(s, cur0, list_type).0);
            }
            cur = nxt;
        } else if ws_char(c) {
            cur = cur + 1;
        } else {
            done = true;
        }
    }
    proof {
        if !done {
            assert(list_items(s, cur as int, list_type).0 =~= Seq::<Seq<SpanModel>>::empty());
            assert(list_items(s, pos as int, list_type).0 =~= items.deep_view());
        }
    }
    (Markdown::List(list_type, items), cur)
}

/// Code block whose opening fence starts at `pos`: a run of two or more
/// fence characters captures to the first matching run of the same
/// width, a single one captures to the next single fence character; the
/// content is taken verbatim and never inline-parsed.
pub fn parse_code(input: &Vec<char>, pos: usize) -> (r: (Markdown, usize))
    requires
        pos < input@.len(),
    ensures
        r.0.deep_view() == code_at(input@, pos as int).0,
        r.1 as int == code_at(input@, pos as int).1,
        pos <= r.1 <= input@.len(),
{
    let ghost s = input@;
    let run = skip_run_x(input, pos, '`');
    let w = run - pos;
    if w >= 2 {
        let q = find_fence_x(input, run, w);
        proof {
            lemma_find_fence(s, run as int, w as int);
        }
        let content = copy_range(input, run, q);
        let fin = if q < input.len() {
            q + w
        } else {
            input.len()
        };
        (Markdown::Code(content), fin)
    } else {
        proof {
            assert(pos < input.len());
        }
        let b = find_delim_x(input, pos + 1, input.len(), '`');
        let content = copy_range(input, pos + 1, b);
        let nxt = if b < input.len() {
            b + 1
        } else {
            b
        };
        (Markdown::Code(content), nxt)
    }
}

/// Blockquote block starting at `pos`: each quote-marked line is
/// stripped of its marker and following whitespace, the lines are
/// rejoined with line breaks, and the accumulated text is inline-parsed
/// like any other text-bearing block.
pub fn parse_blockquote(input: &Vec<char>, pos: usize) -> (r: (Markdown, usize))
    requires
        pos <= input@.len(),
    ensures
        r.0.deep_view() == quote_at(input@, pos as int).0,
        r.1 as int == quote_at(input@, pos as int).1,
        pos <= r.1 <= input@.len(),
{
    let ghost s = input@;
    let mut acc: Vec<char> = Vec::new();
    let mut cur = pos;
    while cur < input.len() && input[cur] == '>'
        invariant
            pos <= cur <= s.len(),
            s == input@,
            quote_text(s, pos as int).0 == acc@ + quote_text(s, cur as int).0,
            quote_text(s, pos as int).1 == quote_text(s, cur as int).1,
        decreases s.len() - cur,
    {
        let ghost cur0 = cur as int;
        let ghost acc0 = acc@;
        let a = skip_ws_x(input, cur + 1);
        let b = find_delim_x(input, a, input.len(), '\n');
        let mut line = copy_range(input, a, b);
        acc.append(&mut line);
        acc.push('\n');
        let nxt = if b < input.len() {
            b + 1
        } else {
            b
        };
        proof {
            assert(acc@ =~= acc0 + s.subrange(a as int, b as int) + seq!['\n']);
            assert(quote_text(s, cur0).0 == s.subrange(a as int, b as int) + seq!['\n']
                + quote_text(s, nxt as int).0);
            assert(quote_text(s, pos as int).0 =~= acc@ + quote_text(s, nxt as int).0);
        }
        cur = nxt;
    }
    proof {
        assert(quote_text(s, pos as int).0 =~= acc@);
    }
    let content = parse_md_text(&acc, 0, acc.len(), InlineMode::TopLevel);
    (Markdown::BlockQuote(content), cur)
}

// ---------------------------------------------------------------------
// The entry point
// ---------------------------------------------------------------------

/// Parse a whole input into its document: the sequence of top-level
/// blocks described by [`parse_blocks`], in source order. Total: every
/// input yields a document (the empty input an empty one), and no input
/// makes it panic.
pub fn parse_md(input: &Vec<char>) -> (r: Vec<Markdown>)
    ensures
        r.deep_view() == parse_blocks(input@, 0),
{
    let ghost s = input@;
    let mut doc: Vec<Markdown> = Vec::new();
    let mut pos: usize = 0;
    while pos < input.len()
        invariant
            pos <= s.len(),
            s == input@,
            doc.deep_view() + parse_blocks(s, pos as int) == parse_blocks(s, 0),
        decreases s.len() - pos,
    {
        let ghost pos0 = pos as int;
        let ghost inv0 = doc.deep_view();
        let c = input[pos];
        if c == '#' {
            let (b, j) = parse_heading(input, pos);
            doc.push(b);
            proof {
                lemma_heading_next(s, pos0);
                assert(doc.deep_view() =~= inv0.push(heading_at(s, pos0).0));
                assert(doc.deep_view() + parse_blocks(s, j as int) =~= inv0 + parse_blocks(
                    s,
                    pos0,
                ));
            }
            pos = j;
        } else if c == '\n' {
            pos = pos + 1;
        } else if c == '-' {
            let (b, j) = parse_list(input, pos, ListType::Unordered);
            doc.push(b);
            proof {
                lemma_list_next(s, pos0, ListType::Unordered);
                assert(doc.deep_view() =~= inv0.push(list_at(s, pos0, ListType::Unordered).0));
                assert(doc.deep_view() + parse_blocks(s, j as int) =~= inv0 + parse_blocks(
                    s,
                    pos0,
                ));
            }
            pos = j;
        } else if digit_char(c) {
            let (b, j) = parse_list(input, pos, ListType::Ordered);
            doc.push(b);
            proof {
                lemma_list_next(s, pos0, ListType::Ordered);
                assert(doc.deep_view() =~= inv0.push(list_at(s, pos0, ListType::Ordered).0));
                assert(doc.deep_view() + parse_blocks(s, j as int) =~= inv0 + parse_blocks(
                    s,
                    pos0,
                ));
            }
            pos = j;
        } else if c == '`' {
            let (b, j) = parse_code(input, pos);
            doc.push(b);
            proof {
                lemma_code_next(s, pos0);
                assert(doc.deep_view() =~= inv0.push(code_at(s, pos0).0));
                assert(doc.deep_view() + parse_blocks(s, j as int) =~= inv0 + parse_blocks(
                    s,
                    pos0,
                ));
            }
            pos = j;
        } else if c == '>' {
            let (b, j) = parse_blockquote(input, pos);
            doc.push(b);
            proof {
                lemma_quote_next(s, pos0);
                assert(doc.deep_view() =~= inv0.push(quote_at(s, pos0).0));
                assert(doc.deep_view() + parse_blocks(s, j as int) =~= inv0 + parse_blocks(
                    s,
                    pos0,
                ));
            }
            pos = j;
        } else {
            let (b, j) = parse_paragraph(input, pos);
            doc.push(b);
            proof {
                lemma_paragraph_next(s, pos0);
                assert(doc.deep_view() =~= inv0.push(paragraph_at(s, pos0).0));
                assert(doc.deep_view() + parse_blocks(s, j as int) =~= inv0 + parse_blocks(
                    s,
                    pos0,
                ));
            }
            pos = j;
        }
    }
    proof {
        assert(doc.deep_view() =~= parse_blocks(s, 0));
    }
    doc
}

} // verus!
