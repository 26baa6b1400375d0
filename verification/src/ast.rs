//! The document tree produced by the parser, and its mathematical view.
//!
//! The executable types hold text as `Vec<char>`; their deep views are
//! the ghost types `SpanModel` and `BlockModel`, which hold `Seq<char>`.

use vstd::prelude::*;

verus! {

broadcast use vstd::std_specs::vec::group_vec_axioms;

/// Whether a list was introduced by ordinal markers (`1.`) or dashes (`-`).
#[derive(Debug, Clone, Copy, PartialEq, Eq, Structural)]
pub enum ListType {
    Ordered,
    Unordered,
}

/// One inline span: a run of plain text, or a formatted span whose
/// children are again inline spans. Bold and italic may nest into each
/// other, so the type is recursive.
#[derive(Debug, PartialEq, Eq)]
pub enum MarkdownText {
    Text(Vec<char>),
    Bold(Vec<MarkdownText>),
    Italic(Vec<MarkdownText>),
}

/// One top-level block of the document, in source order.
#[derive(Debug, PartialEq, Eq)]
pub enum Markdown {
    /// Level (the exact count of leading `#` markers) and inline content.
    Heading(usize, Vec<MarkdownText>),
    Paragraph(Vec<MarkdownText>),
    /// Quoted lines with markers stripped, rejoined and inline-parsed.
    BlockQuote(Vec<MarkdownText>),
    /// One inline-span sequence per item, in source order.
    List(ListType, Vec<Vec<MarkdownText>>),
    /// Literal fenced text; never inline-parsed.
    Code(Vec<char>),
}

/// Which delimiters may open a nested span at the current scan level:
/// at the top both do; inside a bold span a second bold cannot open,
/// and inside an italic span a second italic cannot open.
#[derive(Debug, Clone, Copy, PartialEq, Eq, Structural)]
pub enum InlineMode {
    TopLevel,
    InsideBold,
    InsideItalic,
}

/// Ghost counterpart of `MarkdownText`.
#[verifier::ext_equal]
pub enum SpanModel {
    Text(Seq<char>),
    Bold(Seq<SpanModel>),
    Italic(Seq<SpanModel>),
}

/// Ghost counterpart of `Markdown`.
#[verifier::ext_equal]
pub enum BlockModel {
    Heading(nat, Seq<SpanModel>),
    Paragraph(Seq<SpanModel>),
    BlockQuote(Seq<SpanModel>),
    List(ListType, Seq<Seq<SpanModel>>),
    Code(Seq<char>),
}

/// The model of one inline span.
pub open spec fn span_view(t: MarkdownText) -> SpanModel
    decreases t,
{
    match t {
        MarkdownText::Text(s) => SpanModel::Text(s@),
        MarkdownText::Bold(children) => SpanModel::Bold(spans_view(children@)),
        MarkdownText::Italic(children) => SpanModel::Italic(spans_view(children@)),
    }
}

/// The model of a sequence of inline spans, element by element.
pub open spec fn spans_view(s: Seq<MarkdownText>) -> Seq<SpanModel>
    decreases s,
{
    if s.len() == 0 {
        Seq::<SpanModel>::empty()
    } else {
        seq![span_view(s[0])] + spans_view(s.drop_first())
    }
}

impl DeepView for MarkdownText {
    type V = SpanModel;

    open spec fn deep_view(&self) -> SpanModel {
        span_view(*self)
    }
}

/// `spans_view` agrees with the element-wise deep view of a vector.
pub proof fn lemma_spans_view_eq(s: Seq<MarkdownText>)
    ensures
        spans_view(s) == Seq::new(s.len(), |i: int| s[i].deep_view()),
    decreases s,
{
    if s.len() > 0 {
        lemma_spans_view_eq(s.drop_first());
        assert(spans_view(s) =~= Seq::new(s.len(), |i: int| s[i].deep_view()));
    } else {
        assert(spans_view(s) =~= Seq::new(s.len(), |i: int| s[i].deep_view()));
    }
}

impl DeepView for Markdown {
    type V = BlockModel;

    open spec fn deep_view(&self) -> BlockModel {
        match self {
            Markdown::Heading(level, content) => BlockModel::Heading(
                *level as nat,
                content.deep_view(),
            ),
            Markdown::Paragraph(content) => BlockModel::Paragraph(content.deep_view()),
            Markdown::BlockQuote(content) => BlockModel::BlockQuote(content.deep_view()),
            Markdown::List(kind, items) => BlockModel::List(*kind, items.deep_view()),
            Markdown::Code(raw) => BlockModel::Code(raw@),
        }
    }
}

} // verus!
