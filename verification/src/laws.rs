//! Library-wide laws, stated and proved against the model.

use vstd::prelude::*;
use crate::ast::{BlockModel, InlineMode, ListType, SpanModel};
use crate::model::{
    after_line, code_at, find_delim, find_fence, find_open, heading_at, is_digit_char,
    is_marker_char, is_ws_char, lemma_find_delim, lemma_find_fence, lemma_find_open,
    lemma_skip_ordinal, lemma_skip_run, lemma_skip_ws, list_items, opens_span, para_end,
    paragraph_at, parse_blocks, scan_spans, skip_ordinal, skip_run, skip_ws,
};

verus! {

proof fn lemma_skip_run_exact(s: Seq<char>, i: int, d: char, j: int)
    requires
        0 <= i <= j <= s.len(),
        forall|k: int| i <= k < j ==> s[k] == d,
        j < s.len() ==> s[j] != d,
    ensures
        skip_run(s, i, d) == j,
    decreases j - i,
{
    if i < j {
        lemma_skip_run_exact(s, i + 1, d, j);
    }
}

proof fn lemma_para_end_all(s: Seq<char>, i: int, prev_nl: bool)
    requires
        0 <= i <= s.len(),
        forall|k: int| i <= k < s.len() ==> s[k] != '\n',
    ensures
        para_end(s, i, prev_nl) == s.len(),
    decreases s.len() - i,
{
    if i < s.len() {
        lemma_para_end_all(s, i + 1, s[i] == '\n');
    }
}

proof fn lemma_find_open_all(s: Seq<char>, i: int, end: int, m: InlineMode)
    requires
        0 <= i <= end <= s.len(),
        forall|k: int| i <= k < end ==> !opens_span(s[k], m),
    ensures
        find_open(s, i, end, m) == end,
    decreases end - i,
{
    if i < end {
        lemma_find_open_all(s, i + 1, end, m);
    }
}

/// Parsing the empty input yields the empty document.
pub proof fn lemma_empty_input(s: Seq<char>)
    requires
        s.len() == 0,
    ensures
        parse_blocks(s, 0) == Seq::<BlockModel>::empty(),
{
}

/// The level of a parsed heading equals the exact count of consecutive
/// leading marker characters: when exactly `n` markers stand at `i`,
/// the heading's level is `n`, whatever content follows.
pub proof fn lemma_heading_level_counts_markers(s: Seq<char>, i: int, n: int)
    requires
        0 <= i,
        0 < n,
        i + n <= s.len(),
        forall|k: int| i <= k < i + n ==> s[k] == '#',
        i + n < s.len() ==> s[i + n] != '#',
    ensures
        ({
            let a = skip_ws(s, i + n);
            let b = find_delim(s, a, s.len() as int, '\n');
            heading_at(s, i).0 == BlockModel::Heading(
                n as nat,
                scan_spans(s, a, b, InlineMode::TopLevel),
            )
        }),
{
    lemma_skip_run_exact(s, i, '#', i + n);
}

/// Re-parsing the textual reconstruction of a paragraph whose only span
/// is marker-free text on one line yields that same single paragraph
/// with its one text leaf: parsing such a text is idempotent in
/// structure.
pub proof fn lemma_plain_text_reparse(s: Seq<char>)
    requires
        s.len() > 0,
        forall|k: int| 0 <= k < s.len() ==> !is_marker_char(s[k]) && s[k] != '\n',
    ensures
        parse_blocks(s, 0) == seq![BlockModel::Paragraph(seq![SpanModel::Text(s)])],
{
    assert(!is_marker_char(s[0]) && s[0] != '\n');
    lemma_para_end_all(s, 0, false);
    assert(forall|k: int| 0 <= k < s.len() ==> !opens_span(s[k], InlineMode::TopLevel)) by {
        assert forall|k: int| 0 <= k < s.len() implies !opens_span(
            s[k],
            InlineMode::TopLevel,
        ) by {
            assert(!is_marker_char(s[k]));
        }
    }
    lemma_find_open_all(s, 0, s.len() as int, InlineMode::TopLevel);
    assert(s.subrange(0, s.len() as int) =~= s);
    assert(scan_spans(s, 0, s.len() as int, InlineMode::TopLevel) == seq![SpanModel::Text(s)]);
    assert(paragraph_at(s, 0).0 == BlockModel::Paragraph(seq![SpanModel::Text(s)]));
    assert(paragraph_at(s, 0).1 == s.len());
    assert(parse_blocks(s, s.len() as int) == Seq::<BlockModel>::empty());
    assert(parse_blocks(s, 0) =~= seq![BlockModel::Paragraph(seq![SpanModel::Text(s)])]);
}

proof fn lemma_scan_level_kinds(s: Seq<char>, lo: int, hi: int, m: InlineMode)
    ensures
        forall|k: int|
            0 <= k < scan_spans(s, lo, hi, m).len() ==> !(m == InlineMode::InsideBold
                && scan_spans(s, lo, hi, m)[k] is Bold) && !(m == InlineMode::InsideItalic
                && scan_spans(s, lo, hi, m)[k] is Italic),
    decreases hi - lo,
{
    if 0 <= lo && lo < hi && hi <= s.len() {
        let p = find_open(s, lo, hi, m);
        lemma_find_open(s, lo, hi, m);
        if p < hi {
            let d = s[p];
            let q = find_delim(s, p + 1, hi, d);
            lemma_find_delim(s, p + 1, hi, d);
            let rest_lo = if q < hi {
                q + 1
            } else {
                hi
            };
            lemma_scan_level_kinds(s, rest_lo, hi, m);
        }
    }
}

/// A bold span closes at its own kind's delimiter, honoring nested
/// italics but not nested bold: scanned inside a bold span, every
/// direct child is a text leaf or an italic span — a second bold
/// cannot be opened there.
pub proof fn lemma_no_nested_bold(s: Seq<char>, lo: int, hi: int)
    ensures
        forall|k: int|
            0 <= k < scan_spans(s, lo, hi, InlineMode::InsideBold).len() ==> !(scan_spans(
                s,
                lo,
                hi,
                InlineMode::InsideBold,
            )[k] is Bold),
{
    lemma_scan_level_kinds(s, lo, hi, InlineMode::InsideBold);
}

/// The structural mirror: scanned inside an italic span, every direct
/// child is a text leaf or a bold span — a second italic cannot be
/// opened there.
pub proof fn lemma_no_nested_italic(s: Seq<char>, lo: int, hi: int)
    ensures
        forall|k: int|
            0 <= k < scan_spans(s, lo, hi, InlineMode::InsideItalic).len() ==> !(scan_spans(
                s,
                lo,
                hi,
                InlineMode::InsideItalic,
            )[k] is Italic),
{
    lemma_scan_level_kinds(s, lo, hi, InlineMode::InsideItalic);
}

proof fn lemma_para_end_general(s: Seq<char>, i: int, prev_nl: bool)
    requires
        0 <= i <= s.len(),
    ensures
        ({
            let r = para_end(s, i, prev_nl);
            &&& i <= r <= s.len()
            &&& forall|k: int| i < k < r ==> !(s[k - 1] == '\n' && #[trigger] s[k] == '\n')
            &&& r < s.len() ==> s[r] == '\n'
            &&& (r < s.len() && r > i) ==> s[r - 1] == '\n'
            &&& (r < s.len() && r == i) ==> prev_nl
        }),
    decreases s.len() - i,
{
    if i < s.len() && !(prev_nl && s[i] == '\n') {
        lemma_para_end_general(s, i + 1, s[i] == '\n');
    }
}

/// A blank line terminates a paragraph: the captured text contains no
/// two consecutive line breaks, and when the capture stops before the
/// end of the input it stops exactly at the second line break of a
/// blank pair.
pub proof fn lemma_blank_line_terminates_paragraph(s: Seq<char>, i: int)
    requires
        0 <= i <= s.len(),
    ensures
        ({
            let r = para_end(s, i, false);
            &&& i <= r <= s.len()
            &&& forall|k: int| i < k < r ==> !(s[k - 1] == '\n' && #[trigger] s[k] == '\n')
            &&& r < s.len() ==> (i < r && s[r] == '\n' && s[r - 1] == '\n')
        }),
{
    lemma_para_end_general(s, i, false);
}

/// Code fence content is never inline-parsed: the payload of a code
/// block is always a verbatim region of the input, characters carried
/// over unchanged with no span structure.
pub proof fn lemma_code_content_verbatim(s: Seq<char>, i: int)
    requires
        0 <= i < s.len(),
    ensures
        exists|a: int, b: int|
            #![auto]
            0 <= a <= b <= s.len() && code_at(s, i).0 == BlockModel::Code(s.subrange(a, b)),
{
    lemma_skip_run(s, i, '`');
    let r = skip_run(s, i, '`');
    let w = r - i;
    if w >= 2 {
        lemma_find_fence(s, r, w);
        let ghost a = r;
        let ghost b = find_fence(s, r, w);
        assert(0 <= a <= b <= s.len() && code_at(s, i).0 == BlockModel::Code(s.subrange(a, b)));
    } else {
        lemma_find_delim(s, i + 1, s.len() as int, '`');
        let ghost a = i + 1;
        let ghost b = find_delim(s, i + 1, s.len() as int, '`');
        assert(0 <= a <= b <= s.len() && code_at(s, i).0 == BlockModel::Code(s.subrange(a, b)));
    }
}

/// An inline-span sequence that is the scan of one line of `s`: a
/// region holding no line break.
pub open spec fn single_line_scan_of(s: Seq<char>, it: Seq<SpanModel>) -> bool {
    exists|a: int, b: int|
        #![auto]
        0 <= a <= b <= s.len() && (forall|k: int| a <= k < b ==> s[k] != '\n') && it
            == scan_spans(s, a, b, InlineMode::TopLevel)
}

/// List items are cleanly separated per line: every item of a parsed
/// list is the inline scan of a region of the input that contains no
/// line break.
pub proof fn lemma_list_items_single_line(s: Seq<char>, i: int, kind: ListType)
    requires
        0 <= i <= s.len(),
    ensures
        forall|n: int|
            0 <= n < list_items(s, i, kind).0.len() ==> #[trigger] single_line_scan_of(
                s,
                list_items(s, i, kind).0[n],
            ),
    decreases s.len() - i,
{
    if 0 <= i && i < s.len() {
        let c = s[i];
        if (kind == ListType::Unordered && c == '-') || (kind == ListType::Ordered
            && is_digit_char(c)) {
            let a = if kind == ListType::Unordered && c == '-' {
                skip_ws(s, i + 1)
            } else {
                skip_ws(s, skip_ordinal(s, i + 1))
            };
            if kind == ListType::Unordered && c == '-' {
                lemma_skip_ws(s, i + 1);
            } else {
                lemma_skip_ordinal(s, i + 1);
                lemma_skip_ws(s, skip_ordinal(s, i + 1));
            }
            let b = find_delim(s, a, s.len() as int, '\n');
            lemma_find_delim(s, a, s.len() as int, '\n');
            let nxt = after_line(s, b);
            lemma_list_items_single_line(s, nxt, kind);
            let items = list_items(s, i, kind).0;
            let rest = list_items(s, nxt, kind).0;
            assert(items == seq![scan_spans(s, a, b, InlineMode::TopLevel)] + rest);
            assert(0 <= a <= b <= s.len() && (forall|k: int| a <= k < b ==> s[k] != '\n'));
            assert(single_line_scan_of(s, scan_spans(s, a, b, InlineMode::TopLevel)));
            assert forall|n: int| 0 <= n < items.len() implies #[trigger] single_line_scan_of(
                s,
                items[n],
            ) by {
                if n > 0 {
                    assert(items[n] == rest[n - 1]);
                    assert(single_line_scan_of(s, rest[n - 1]));
                }
            }
        } else if is_ws_char(c) {
            lemma_list_items_single_line(s, i + 1, kind);
            let items = list_items(s, i, kind).0;
            assert forall|n: int| 0 <= n < items.len() implies #[trigger] single_line_scan_of(
                s,
                items[n],
            ) by {
                assert(items[n] == list_items(s, i + 1, kind).0[n]);
                assert(single_line_scan_of(s, list_items(s, i + 1, kind).0[n]));
            }
        }
    }
}

} // verus!
