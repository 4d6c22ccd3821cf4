//! Markdown for popovers: the blocks (styled paragraphs and headings, list items, quotes, code blocks and
//! rules) that pulldown-cmark's events describe, and plain text escaped so markdown reads it back literally.

use vstd::prelude::*;
use crate::text::{decimal, decimal_string, is_ascii_punct, is_ascii_punctuation, is_whitespace, is_ws, push_char};
use pulldown_cmark::{CodeBlockKind, Event, Options, Parser, Tag, TagEnd};

verus! {

#[verifier::external_type_specification]
#[verifier::external_body]
pub struct ExCmarkEvent<'a>(Event<'a>);

#[verifier::external_type_specification]
#[verifier::external_body]
pub struct ExCmarkTag<'a>(Tag<'a>);

#[verifier::external_type_specification]
#[verifier::external_body]
pub struct ExCmarkTagEnd(TagEnd);

/// How a run of text is drawn.
#[derive(Clone, Copy, Debug, PartialEq, Eq, Structural)]
pub struct SpanStyle {
    pub bold: bool,
    pub code: bool,
    pub link: bool,
}

impl Default for SpanStyle {
    fn default() -> (r: SpanStyle)
        ensures
            r == (SpanStyle { bold: false, code: false, link: false }),
    {
        SpanStyle { bold: false, code: false, link: false }
    }
}

/// A run of text in one style.
#[derive(Clone, Debug, PartialEq)]
pub struct Span {
    pub text: String,
    pub style: SpanStyle,
}

pub struct SpanView {
    pub text: Seq<char>,
    pub style: SpanStyle,
}

impl View for Span {
    type V = SpanView;

    open spec fn view(&self) -> SpanView {
        SpanView { text: self.text@, style: self.style }
    }
}

pub open spec fn spans_view(spans: Seq<Span>) -> Seq<SpanView> {
    spans.map_values(|s: Span| s@)
}

#[derive(Clone, Copy, Debug, PartialEq, Eq, Structural)]
pub enum TextKind {
    Paragraph,
    Heading,
}

/// One block of a document.
#[derive(Clone, Debug, PartialEq)]
pub enum Block {
    Text { spans: Vec<Span>, kind: TextKind, list_depth: usize, marker: Option<String>, quoted: bool },
    Code { language: Option<String>, text: String },
    Rule,
}

pub enum BlockView {
    Text {
        spans: Seq<SpanView>,
        kind: TextKind,
        list_depth: usize,
        marker: Option<Seq<char>>,
        quoted: bool,
    },
    Code { language: Option<Seq<char>>, text: Seq<char> },
    Rule,
}

pub open spec fn opt_text(o: Option<String>) -> Option<Seq<char>> {
    match o {
        Some(s) => Some(s@),
        None => None,
    }
}

impl View for Block {
    type V = BlockView;

    open spec fn view(&self) -> BlockView {
        match self {
            Block::Text { spans, kind, list_depth, marker, quoted } => BlockView::Text {
                spans: spans_view(spans@),
                kind: *kind,
                list_depth: *list_depth,
                marker: opt_text(*marker),
                quoted: *quoted,
            },
            Block::Code { language, text } => BlockView::Code { language: opt_text(*language), text: text@ },
            Block::Rule => BlockView::Rule,
        }
    }
}

pub open spec fn blocks_view(blocks: Seq<Block>) -> Seq<BlockView> {
    blocks.map_values(|b: Block| b@)
}

/// A parsed document.
#[derive(Clone, Debug, PartialEq)]
pub struct Markdown {
    pub blocks: Vec<Block>,
}

impl View for Markdown {
    type V = Seq<BlockView>;

    open spec fn view(&self) -> Seq<BlockView> {
        blocks_view(self.blocks@)
    }
}

/// The opening tags the blocks are built from; any other opening tag is `Other`.
pub enum MdTag {
    Paragraph,
    Heading,
    BlockQuote,
    /// A list, with the number of its first item when it is ordered.
    List(Option<u64>),
    Item,
    /// A code block, with the info string after its opening fence when it is fenced.
    CodeBlock(Option<String>),
    Strong,
    Link,
    Other,
}

/// The closing tags the blocks are built from; any other closing tag is `Other`.
#[derive(Clone, Copy, Debug, PartialEq, Eq, Structural)]
pub enum MdTagEnd {
    Paragraph,
    Heading,
    BlockQuote,
    List,
    Item,
    CodeBlock,
    Strong,
    Link,
    Other,
}

/// One parser event, as the blocks need it.
pub enum MdEvent {
    Start(MdTag),
    End(MdTagEnd),
    Text(String),
    Code(String),
    Html(String),
    InlineHtml(String),
    SoftBreak,
    HardBreak,
    Rule,
    Other,
}

pub enum MdTagView {
    Paragraph,
    Heading,
    BlockQuote,
    List(Option<u64>),
    Item,
    CodeBlock(Option<Seq<char>>),
    Strong,
    Link,
    Other,
}

pub enum MdEventView {
    Start(MdTagView),
    End(MdTagEnd),
    Text(Seq<char>),
    Code(Seq<char>),
    Html(Seq<char>),
    InlineHtml(Seq<char>),
    SoftBreak,
    HardBreak,
    Rule,
    Other,
}

impl View for MdTag {
    type V = MdTagView;

    open spec fn view(&self) -> MdTagView {
        match self {
            MdTag::Paragraph => MdTagView::Paragraph,
            MdTag::Heading => MdTagView::Heading,
            MdTag::BlockQuote => MdTagView::BlockQuote,
            MdTag::List(start) => MdTagView::List(*start),
            MdTag::Item => MdTagView::Item,
            MdTag::CodeBlock(info) => MdTagView::CodeBlock(opt_text(*info)),
            MdTag::Strong => MdTagView::Strong,
            MdTag::Link => MdTagView::Link,
            MdTag::Other => MdTagView::Other,
        }
    }
}

impl View for MdEvent {
    type V = MdEventView;

    open spec fn view(&self) -> MdEventView {
        match self {
            MdEvent::Start(tag) => MdEventView::Start(tag@),
            MdEvent::End(end) => MdEventView::End(*end),
            MdEvent::Text(t) => MdEventView::Text(t@),
            MdEvent::Code(t) => MdEventView::Code(t@),
            MdEvent::Html(t) => MdEventView::Html(t@),
            MdEvent::InlineHtml(t) => MdEventView::InlineHtml(t@),
            MdEvent::SoftBreak => MdEventView::SoftBreak,
            MdEvent::HardBreak => MdEventView::HardBreak,
            MdEvent::Rule => MdEventView::Rule,
            MdEvent::Other => MdEventView::Other,
        }
    }
}

pub open spec fn events_view(events: Seq<MdEvent>) -> Seq<MdEventView> {
    events.map_values(|e: MdEvent| e@)
}

/// Every char of `t` is whitespace, so it trims to nothing.
pub open spec fn blank(t: Seq<char>) -> bool {
    forall|i: int| 0 <= i < t.len() ==> is_ws(#[trigger] t[i])
}

/// Every span is blank.
pub open spec fn all_blank(spans: Seq<SpanView>) -> bool {
    forall|i: int| 0 <= i < spans.len() ==> blank(#[trigger] spans[i].text)
}

/// The parser's state between events.
pub struct ParseStateView {
    pub blocks: Seq<BlockView>,
    pub spans: Seq<SpanView>,
    pub kind: Option<TextKind>,
    pub bold: nat,
    pub link: nat,
    pub lists: Seq<Option<u64>>,
    pub marker: Option<Seq<char>>,
    pub quote: nat,
    pub code: Option<(Option<Seq<char>>, Seq<char>)>,
}

pub open spec fn initial_state() -> ParseStateView {
    ParseStateView {
        blocks: Seq::empty(),
        spans: Seq::empty(),
        kind: None,
        bold: 0,
        link: 0,
        lists: Seq::empty(),
        marker: None,
        quote: 0,
        code: None,
    }
}

/// Text is bold inside `**` or a heading, and a link inside one.
pub open spec fn style_of(s: ParseStateView) -> SpanStyle {
    SpanStyle { bold: s.bold > 0 || s.kind == Some(TextKind::Heading), code: false, link: s.link > 0 }
}

/// `text` added to the spans: onto the last span when it has the same style, else as a new span.
pub open spec fn pushed(spans: Seq<SpanView>, text: Seq<char>, style: SpanStyle) -> Seq<SpanView> {
    if spans.len() > 0 && spans.last().style == style {
        spans.update(spans.len() - 1, SpanView { text: spans.last().text + text, style })
    } else {
        spans.push(SpanView { text, style })
    }
}

/// The pending spans closed into a text block, unless all of them are blank, in which case they are dropped
/// and the list marker waits for the next block. Either way the pending kind is used up.
pub open spec fn flushed(s: ParseStateView) -> ParseStateView {
    let kind = match s.kind {
        Some(k) => k,
        None => TextKind::Paragraph,
    };
    if all_blank(s.spans) {
        ParseStateView { spans: Seq::empty(), kind: None, ..s }
    } else {
        ParseStateView {
            blocks: s.blocks.push(
                BlockView::Text {
                    spans: s.spans,
                    kind,
                    list_depth: s.lists.len() as usize,
                    marker: s.marker,
                    quoted: s.quote > 0,
                },
            ),
            spans: Seq::empty(),
            kind: None,
            marker: None,
            ..s
        }
    }
}

/// A code fence's language: the info string up to its first whitespace or comma, when that is not empty.
pub open spec fn is_info_stop(c: char) -> bool {
    is_ws(c) || c == ','
}

pub open spec fn info_word_end(info: Seq<char>, i: nat) -> nat
    decreases info.len() - i,
{
    if i >= info.len() {
        info.len()
    } else if is_info_stop(info[i as int]) {
        i
    } else {
        info_word_end(info, i + 1)
    }
}

pub open spec fn fence_language(info: Option<Seq<char>>) -> Option<Seq<char>> {
    match info {
        Some(info) => if info_word_end(info, 0) == 0 {
            None
        } else {
            Some(info.take(info_word_end(info, 0) as int))
        },
        None => None,
    }
}

/// A code block's text without the line break that closes it.
pub open spec fn without_final_newline(t: Seq<char>) -> Seq<char> {
    if t.len() > 0 && t.last() == '\n' {
        t.drop_last()
    } else {
        t
    }
}

/// `n + 1`, wrapping at `u64::MAX`.
pub open spec fn next_number(n: u64) -> u64 {
    if n == u64::MAX {
        0
    } else {
        (n + 1) as u64
    }
}

/// Spans `i` and `i + 1` are drawn differently.
pub open spec fn styles_differ_at(spans: Seq<SpanView>, i: int) -> bool {
    spans[i].style != spans[i + 1].style
}

/// No two neighbouring spans share a style: text in one style is one span.
pub open spec fn spans_merged(spans: Seq<SpanView>) -> bool {
    forall|i: int| 0 <= i < spans.len() - 1 ==> #[trigger] styles_differ_at(spans, i)
}

/// A text block has some visible text and its spans merged; other blocks have nothing to check.
pub open spec fn block_ok(b: BlockView) -> bool {
    match b {
        BlockView::Text { spans, .. } => !all_blank(spans) && spans_merged(spans),
        _ => true,
    }
}

pub open spec fn state_ok(s: ParseStateView) -> bool {
    &&& forall|i: int| 0 <= i < s.blocks.len() ==> #[trigger] block_ok(s.blocks[i])
    &&& spans_merged(s.spans)
}

proof fn lemma_pushed_merged(spans: Seq<SpanView>, text: Seq<char>, style: SpanStyle)
    requires
        spans_merged(spans),
    ensures
        spans_merged(pushed(spans, text, style)),
{
    let p = pushed(spans, text, style);
    assert forall|i: int| 0 <= i < p.len() - 1 implies #[trigger] styles_differ_at(p, i) by {
        if spans.len() > 0 && spans.last().style == style {
            assert(styles_differ_at(spans, i));
        } else if i < spans.len() - 1 {
            assert(styles_differ_at(spans, i));
        }
    }
}

proof fn lemma_flushed_ok(s: ParseStateView)
    requires
        state_ok(s),
    ensures
        state_ok(flushed(s)),
{
    let f = flushed(s);
    assert forall|i: int| 0 <= i < f.blocks.len() implies #[trigger] block_ok(f.blocks[i]) by {
        if i < s.blocks.len() {
            assert(block_ok(s.blocks[i]));
        }
    }
}

proof fn lemma_step_ok(s: ParseStateView, e: MdEventView)
    requires
        state_ok(s),
    ensures
        state_ok(step(s, e)),
{
    lemma_flushed_ok(s);
    let f = flushed(s);
    let t = step(s, e);
    match e {
        MdEventView::Text(x) | MdEventView::Html(x) | MdEventView::InlineHtml(x) => {
            lemma_pushed_merged(s.spans, x, style_of(s));
        },
        MdEventView::Code(x) => {
            lemma_pushed_merged(s.spans, x, SpanStyle { code: true, ..style_of(s) });
        },
        MdEventView::SoftBreak => {
            lemma_pushed_merged(s.spans, seq![' '], style_of(s));
        },
        MdEventView::HardBreak => {
            lemma_pushed_merged(s.spans, seq!['\n'], style_of(s));
        },
        _ => {},
    }
    assert forall|i: int| 0 <= i < t.blocks.len() implies #[trigger] block_ok(t.blocks[i]) by {
        if i < s.blocks.len() {
            assert(block_ok(s.blocks[i]));
        }
        if i < f.blocks.len() {
            assert(block_ok(f.blocks[i]));
        }
    }
}

proof fn lemma_run_ok(events: Seq<MdEventView>)
    ensures
        state_ok(run_events(initial_state(), events)),
    decreases events.len(),
{
    if events.len() > 0 {
        lemma_run_ok(events.drop_last());
        lemma_step_ok(run_events(initial_state(), events.drop_last()), events.last());
    }
}

/// Every text block a run of events gives has some non-whitespace text, and text of one style within it is
/// a single span.
pub proof fn lemma_text_blocks_are_visible_and_merged(events: Seq<MdEventView>)
    ensures
        forall|i: int| 0 <= i < blocks_of(events).len() ==> #[trigger] block_ok(blocks_of(events)[i]),
{
    lemma_run_ok(events);
    lemma_flushed_ok(run_events(initial_state(), events));
}

/// The state after one event.
pub open spec fn step(s: ParseStateView, e: MdEventView) -> ParseStateView {
    match e {
        MdEventView::Start(tag) => match tag {
            MdTagView::Paragraph => ParseStateView { kind: Some(TextKind::Paragraph), ..s },
            MdTagView::Heading => ParseStateView { kind: Some(TextKind::Heading), ..flushed(s) },
            MdTagView::BlockQuote => ParseStateView { quote: flushed(s).quote + 1, ..flushed(s) },
            MdTagView::List(start) => ParseStateView { lists: flushed(s).lists.push(start), ..flushed(s) },
            MdTagView::Item => {
                let f = flushed(s);
                if f.lists.len() > 0 && f.lists.last() is Some {
                    let next = f.lists.last()->0;
                    ParseStateView {
                        marker: Some(decimal(next as nat).push('.')),
                        lists: f.lists.update(f.lists.len() - 1, Some(next_number(next))),
                        ..f
                    }
                } else {
                    ParseStateView { marker: Some(seq!['-']), ..f }
                }
            },
            MdTagView::CodeBlock(info) => ParseStateView {
                code: Some((fence_language(info), Seq::empty())),
                ..flushed(s)
            },
            MdTagView::Strong => ParseStateView { bold: s.bold + 1, ..s },
            MdTagView::Link => ParseStateView { link: s.link + 1, ..s },
            MdTagView::Other => s,
        },
        MdEventView::End(end) => match end {
            MdTagEnd::Paragraph | MdTagEnd::Heading | MdTagEnd::Item => flushed(s),
            MdTagEnd::BlockQuote => ParseStateView {
                quote: if s.quote > 0 {
                    (s.quote - 1) as nat
                } else {
                    0
                },
                ..flushed(s)
            },
            MdTagEnd::List => ParseStateView {
                lists: if s.lists.len() > 0 {
                    s.lists.drop_last()
                } else {
                    s.lists
                },
                ..flushed(s)
            },
            MdTagEnd::CodeBlock => match s.code {
                Some((language, text)) => ParseStateView {
                    blocks: s.blocks.push(BlockView::Code { language, text: without_final_newline(text) }),
                    code: None,
                    ..s
                },
                None => s,
            },
            MdTagEnd::Strong => ParseStateView {
                bold: if s.bold > 0 {
                    (s.bold - 1) as nat
                } else {
                    0
                },
                ..s
            },
            MdTagEnd::Link => ParseStateView {
                link: if s.link > 0 {
                    (s.link - 1) as nat
                } else {
                    0
                },
                ..s
            },
            MdTagEnd::Other => s,
        },
        MdEventView::Text(t) | MdEventView::Html(t) | MdEventView::InlineHtml(t) => match s.code {
            Some((language, code)) => ParseStateView { code: Some((language, code + t)), ..s },
            None => ParseStateView { spans: pushed(s.spans, t, style_of(s)), ..s },
        },
        MdEventView::Code(t) => ParseStateView {
            spans: pushed(s.spans, t, SpanStyle { code: true, ..style_of(s) }),
            ..s
        },
        MdEventView::SoftBreak => ParseStateView { spans: pushed(s.spans, seq![' '], style_of(s)), ..s },
        MdEventView::HardBreak => ParseStateView { spans: pushed(s.spans, seq!['\n'], style_of(s)), ..s },
        MdEventView::Rule => ParseStateView { blocks: flushed(s).blocks.push(BlockView::Rule), ..flushed(s) },
        MdEventView::Other => s,
    }
}

/// The state after a run of events.
pub open spec fn run_events(s: ParseStateView, events: Seq<MdEventView>) -> ParseStateView
    decreases events.len(),
{
    if events.len() == 0 {
        s
    } else {
        step(run_events(s, events.drop_last()), events.last())
    }
}

/// The blocks a run of events describes: the state after all of them, with the last pending text closed.
pub open spec fn blocks_of(events: Seq<MdEventView>) -> Seq<BlockView> {
    flushed(run_events(initial_state(), events)).blocks
}

/// The parser's state between events.
pub struct ParseState {
    blocks: Vec<Block>,
    spans: Vec<Span>,
    kind: Option<TextKind>,
    bold: usize,
    link: usize,
    lists: Vec<Option<u64>>,
    marker: Option<String>,
    quote: usize,
    code: Option<(Option<String>, String)>,
}

pub open spec fn opt_code(c: Option<(Option<String>, String)>) -> Option<(Option<Seq<char>>, Seq<char>)> {
    match c {
        Some((language, text)) => Some((opt_text(language), text@)),
        None => None,
    }
}

impl View for ParseState {
    type V = ParseStateView;

    closed spec fn view(&self) -> ParseStateView {
        ParseStateView {
            blocks: blocks_view(self.blocks@),
            spans: spans_view(self.spans@),
            kind: self.kind,
            bold: self.bold as nat,
            link: self.link as nat,
            lists: self.lists@,
            marker: opt_text(self.marker),
            quote: self.quote as nat,
            code: opt_code(self.code),
        }
    }
}

/// Whether every char of `text` is whitespace.
fn is_blank(text: &str) -> (r: bool)
    ensures
        r == blank(text@),
{
    let mut all = true;
    for c in it: text.chars()
        invariant
            it.seq() == text@,
            all == (forall|j: int| 0 <= j < it.index() ==> is_ws(#[trigger] text@[j])),
    {
        if !is_whitespace(c) {
            all = false;
        }
    }
    all
}

impl ParseState {
    pub fn new() -> (r: ParseState)
        ensures
            r@ == initial_state(),
    {
        let r = ParseState {
            blocks: Vec::new(),
            spans: Vec::new(),
            kind: None,
            bold: 0,
            link: 0,
            lists: Vec::new(),
            marker: None,
            quote: 0,
            code: None,
        };
        proof {
            assert(blocks_view(r.blocks@) =~= Seq::empty());
            assert(spans_view(r.spans@) =~= Seq::empty());
        }
        r
    }

    /// The style text gets here.
    pub fn style(&self) -> (r: SpanStyle)
        ensures
            r == style_of(self@),
    {
        let heading = match self.kind {
            Some(TextKind::Heading) => true,
            _ => false,
        };
        SpanStyle { bold: self.bold > 0 || heading, code: false, link: self.link > 0 }
    }

    /// Add `text` in `style` to the pending spans.
    pub fn push(&mut self, text: &str, style: SpanStyle)
        ensures
            final(self)@ == (ParseStateView { spans: pushed(old(self)@.spans, text@, style), ..old(self)@ }),
    {
        let n = self.spans.len();
        if n > 0 && self.spans[n - 1].style == style {
            let ghost before = self.spans@;
            let mut last = self.spans.pop().unwrap();
            last.text.append(text);
            self.spans.push(last);
            proof {
                assert(self.spans@ == before.update(n - 1, last));
                assert(spans_view(self.spans@) =~= spans_view(before).update(
                    n - 1,
                    SpanView { text: spans_view(before).last().text + text@, style },
                ));
            }
        } else {
            let ghost before = self.spans@;
            self.spans.push(Span { text: String::from_str(text), style });
            proof {
                assert(spans_view(self.spans@) =~= spans_view(before).push(SpanView { text: text@, style }));
            }
        }
    }

    /// Close the pending spans into a text block, or drop them when they are all blank.
    pub fn flush(&mut self)
        ensures
            final(self)@ == flushed(old(self)@),
    {
        let kind = match self.kind.take() {
            Some(k) => k,
            None => TextKind::Paragraph,
        };
        let mut blank_all = true;
        let mut i: usize = 0;
        while i < self.spans.len()
            invariant
                i <= self.spans.len(),
                self.spans@ == old(self).spans@,
                blank_all == (forall|j: int| 0 <= j < i ==> blank(#[trigger] self.spans@[j].text@)),
            decreases self.spans.len() - i,
        {
            if !is_blank(self.spans[i].text.as_str()) {
                blank_all = false;
            }
            i += 1;
        }
        proof {
            assert(blank_all == all_blank(spans_view(self.spans@))) by {
                if !blank_all {
                    let j = choose|j: int| 0 <= j < i && !blank(#[trigger] self.spans@[j].text@);
                    assert(spans_view(self.spans@)[j].text == self.spans@[j].text@);
                }
            }
        }
        if blank_all {
            self.spans = Vec::new();
            proof {
                assert(spans_view(self.spans@) =~= Seq::empty());
            }
            return;
        }
        let mut spans: Vec<Span> = Vec::new();
        std::mem::swap(&mut spans, &mut self.spans);
        let marker = self.marker.take();
        let ghost before = self.blocks@;
        self.blocks.push(Block::Text { spans, kind, list_depth: self.lists.len(), marker, quoted: self.quote > 0 });
        proof {
            assert(spans_view(self.spans@) =~= Seq::empty());
            assert(blocks_view(self.blocks@) =~= blocks_view(before).push(self.blocks@.last()@));
        }
    }
}

/// The events pulldown-cmark's parser yields for `source` with strikethrough enabled.
pub uninterp spec fn cmark_events(source: Seq<char>) -> Seq<MdEventView>;

/// Runs `pulldown_cmark::Parser::new_ext(source, Options::ENABLE_STRIKETHROUGH)` to the end. Claimed: the
/// events it yields, in order, each taken one for one into `MdEvent`, are `cmark_events(source)`; what
/// they are for a given source is not stated.
#[verifier::external_body]
fn parse_cmark(source: &str) -> (r: Vec<MdEvent>)
    ensures
        events_view(r@) == cmark_events(source@),
{
    Parser::new_ext(source, Options::ENABLE_STRIKETHROUGH).map(md_event).collect()
}

/// Takes a `pulldown_cmark::Event` into an `MdEvent`, variant for variant, moving its text; nothing is
/// claimed of it on its own.
#[verifier::external_body]
fn md_event(event: Event) -> MdEvent {
    match event {
        Event::Start(tag) => MdEvent::Start(md_tag(tag)),
        Event::End(end) => MdEvent::End(md_tag_end(end)),
        Event::Text(text) => MdEvent::Text(text.into_string()),
        Event::Code(text) => MdEvent::Code(text.into_string()),
        Event::Html(text) => MdEvent::Html(text.into_string()),
        Event::InlineHtml(text) => MdEvent::InlineHtml(text.into_string()),
        Event::SoftBreak => MdEvent::SoftBreak,
        Event::HardBreak => MdEvent::HardBreak,
        Event::Rule => MdEvent::Rule,
        _ => MdEvent::Other,
    }
}

/// Takes a `pulldown_cmark::Tag` into an `MdTag`, variant for variant; nothing is claimed of it on its own.
#[verifier::external_body]
fn md_tag(tag: Tag) -> MdTag {
    match tag {
        Tag::Paragraph => MdTag::Paragraph,
        Tag::Heading { .. } => MdTag::Heading,
        Tag::BlockQuote(_) => MdTag::BlockQuote,
        Tag::List(start) => MdTag::List(start),
        Tag::Item => MdTag::Item,
        Tag::CodeBlock(CodeBlockKind::Fenced(info)) => MdTag::CodeBlock(Some(info.into_string())),
        Tag::CodeBlock(CodeBlockKind::Indented) => MdTag::CodeBlock(None),
        Tag::Strong => MdTag::Strong,
        Tag::Link { .. } => MdTag::Link,
        _ => MdTag::Other,
    }
}

/// Takes a `pulldown_cmark::TagEnd` into an `MdTagEnd`, variant for variant; nothing is claimed of it on
/// its own.
#[verifier::external_body]
fn md_tag_end(end: TagEnd) -> MdTagEnd {
    match end {
        TagEnd::Paragraph => MdTagEnd::Paragraph,
        TagEnd::Heading(_) => MdTagEnd::Heading,
        TagEnd::BlockQuote(_) => MdTagEnd::BlockQuote,
        TagEnd::List(_) => MdTagEnd::List,
        TagEnd::Item => MdTagEnd::Item,
        TagEnd::CodeBlock => MdTagEnd::CodeBlock,
        TagEnd::Strong => MdTagEnd::Strong,
        TagEnd::Link => MdTagEnd::Link,
        _ => MdTagEnd::Other,
    }
}

/// The language named by a fence's info string.
fn language_of(info: &str) -> (r: Option<String>)
    ensures
        opt_text(r) == fence_language(Some(info@)),
{
    let chars = crate::text::chars_of(info);
    let mut i: usize = 0;
    while i < chars.len() && !(is_whitespace(chars[i]) || chars[i] == ',')
        invariant
            chars@ == info@,
            i <= chars.len(),
            info_word_end(info@, i as nat) == info_word_end(info@, 0),
        decreases chars.len() - i,
    {
        i += 1;
    }
    if i == 0 {
        None
    } else {
        Some(crate::text::string_of_range(&chars, 0, i))
    }
}

/// A code block's text without its closing line break.
fn trim_final_newline(text: String) -> (r: String)
    ensures
        r@ == without_final_newline(text@),
{
    let chars = crate::text::chars_of(text.as_str());
    let n = chars.len();
    if n > 0 && chars[n - 1] == '\n' {
        crate::text::string_of_range(&chars, 0, n - 1)
    } else {
        text
    }
}

impl ParseState {
    /// Take one event.
    pub fn apply(&mut self, event: &MdEvent)
        requires
            old(self)@.bold < usize::MAX,
            old(self)@.link < usize::MAX,
            old(self)@.quote < usize::MAX,
        ensures
            final(self)@ == step(old(self)@, event@),
    {
        match event {
            MdEvent::Start(tag) => match tag {
                MdTag::Paragraph => {
                    self.kind = Some(TextKind::Paragraph);
                },
                MdTag::Heading => {
                    self.flush();
                    self.kind = Some(TextKind::Heading);
                },
                MdTag::BlockQuote => {
                    self.flush();
                    self.quote = self.quote + 1;
                },
                MdTag::List(start) => {
                    self.flush();
                    self.lists.push(*start);
                },
                MdTag::Item => {
                    self.flush();
                    let n = self.lists.len();
                    if n > 0 && self.lists[n - 1].is_some() {
                        let next = self.lists[n - 1].unwrap();
                        let mut marker = decimal_string(next);
                        push_char(&mut marker, '.');
                        self.marker = Some(marker);
                        self.lists.set(n - 1, Some(next.wrapping_add(1)));
                    } else {
                        let mut marker = String::new();
                        push_char(&mut marker, '-');
                        self.marker = Some(marker);
                        proof {
                            assert(marker@ =~= seq!['-']);
                        }
                    }
                },
                MdTag::CodeBlock(info) => {
                    self.flush();
                    let language = match info {
                        Some(info) => language_of(info.as_str()),
                        None => None,
                    };
                    self.code = Some((language, String::new()));
                },
                MdTag::Strong => {
                    self.bold = self.bold + 1;
                },
                MdTag::Link => {
                    self.link = self.link + 1;
                },
                MdTag::Other => {},
            },
            MdEvent::End(end) => match end {
                MdTagEnd::Paragraph | MdTagEnd::Heading | MdTagEnd::Item => {
                    self.flush();
                },
                MdTagEnd::BlockQuote => {
                    self.flush();
                    self.quote = self.quote.saturating_sub(1);
                },
                MdTagEnd::List => {
                    self.flush();
                    self.lists.pop();
                },
                MdTagEnd::CodeBlock => {
                    if let Some((language, text)) = self.code.take() {
                        let ghost before = self.blocks@;
                        self.blocks.push(Block::Code { language, text: trim_final_newline(text) });
                        proof {
                            assert(blocks_view(self.blocks@) =~= blocks_view(before).push(self.blocks@.last()@));
                        }
                    }
                },
                MdTagEnd::Strong => {
                    self.bold = self.bold.saturating_sub(1);
                },
                MdTagEnd::Link => {
                    self.link = self.link.saturating_sub(1);
                },
                MdTagEnd::Other => {},
            },
            MdEvent::Text(t) | MdEvent::Html(t) | MdEvent::InlineHtml(t) => {
                self.add_text(t.as_str());
            },
            MdEvent::Code(t) => {
                let style = SpanStyle { code: true, ..self.style() };
                self.push(t.as_str(), style);
            },
            MdEvent::SoftBreak => {
                let style = self.style();
                proof {
                    reveal_strlit(" ");
                    assert(" "@ =~= seq![' ']);
                }
                self.push(" ", style);
            },
            MdEvent::HardBreak => {
                let style = self.style();
                proof {
                    reveal_strlit("\n");
                    assert("\n"@ =~= seq!['\n']);
                }
                self.push("\n", style);
            },
            MdEvent::Rule => {
                self.flush();
                let ghost before = self.blocks@;
                self.blocks.push(Block::Rule);
                proof {
                    assert(blocks_view(self.blocks@) =~= blocks_view(before).push(BlockView::Rule));
                }
            },
            MdEvent::Other => {},
        }
    }

    /// Text goes into the open code block, if there is one, and into the spans otherwise.
    fn add_text(&mut self, text: &str)
        ensures
            final(self)@ == (match old(self)@.code {
                Some((language, code)) => ParseStateView { code: Some((language, code + text@)), ..old(self)@ },
                None => ParseStateView { spans: pushed(old(self)@.spans, text@, style_of(old(self)@)), ..old(self)@ },
            }),
    {
        match self.code.take() {
            Some((language, mut code)) => {
                code.append(text);
                self.code = Some((language, code));
            },
            None => {
                let style = self.style();
                self.push(text, style);
            },
        }
    }
}

impl Markdown {
    /// The blocks that a run of parser events describes.
    pub fn from_events(events: &Vec<MdEvent>) -> (r: Markdown)
        ensures
            r@ == blocks_of(events_view(events@)),
    {
        let mut state = ParseState::new();
        let mut i: usize = 0;
        while i < events.len()
            invariant
                i <= events.len(),
                state@ == run_events(initial_state(), events_view(events@).take(i as int)),
                state@.bold <= i,
                state@.link <= i,
                state@.quote <= i,
            decreases events.len() - i,
        {
            let ghost es = events_view(events@);
            assert(es.take(i + 1).drop_last() == es.take(i as int));
            state.apply(&events[i]);
            i += 1;
        }
        assert(events_view(events@).take(i as int) == events_view(events@));
        state.flush();
        Markdown { blocks: state.blocks }
    }

    /// Parse markdown source.
    pub fn parse(source: &str) -> (r: Markdown)
        ensures
            r@ == blocks_of(cmark_events(source@)),
    {
        let events = parse_cmark(source);
        Markdown::from_events(&events)
    }

    pub fn is_empty(&self) -> (r: bool)
        ensures
            r == (self@.len() == 0),
    {
        self.blocks.len() == 0
    }
}

/// What one char of plain text becomes: leading spaces and tabs (a tab as four) turn into non-breaking
/// spaces, a line break into a paragraph break, ASCII punctuation gets a backslash.
pub open spec fn escape_piece(c: char, leading: bool) -> Seq<char> {
    if c == '\t' && leading {
        seq!['\u{a0}', '\u{a0}', '\u{a0}', '\u{a0}']
    } else if c == ' ' && leading {
        seq!['\u{a0}']
    } else if c == '\n' {
        seq!['\n', '\n']
    } else if is_ascii_punct(c) {
        seq!['\\', c]
    } else {
        seq![c]
    }
}

/// Whether the next char of text after `t` is in a line's leading indentation.
pub open spec fn leading_after(t: Seq<char>) -> bool
    decreases t.len(),
{
    if t.len() == 0 {
        true
    } else {
        let c = t.last();
        c == '\n' || (leading_after(t.drop_last()) && (c == ' ' || c == '\t'))
    }
}

/// Plain text escaped char by char.
pub open spec fn escaped(t: Seq<char>) -> Seq<char>
    decreases t.len(),
{
    if t.len() == 0 {
        Seq::empty()
    } else {
        escaped(t.drop_last()) + escape_piece(t.last(), leading_after(t.drop_last()))
    }
}

/// Plain text escaped so markdown reads it back unchanged: punctuation backslashed, leading indentation kept
/// as non-breaking spaces (a tab as four), and each line break made a paragraph break.
pub fn escape(text: &str) -> (r: String)
    ensures
        r@ == escaped(text@),
{
    let mut out = String::new();
    let mut leading = true;
    for c in it: text.chars()
        invariant
            it.seq() == text@,
            out@ == escaped(text@.take(it.index() as int)),
            leading == leading_after(text@.take(it.index() as int)),
    {
        let ghost before = text@.take(it.index() as int);
        proof {
            assert(text@.take(it.index() + 1).drop_last() == before);
        }
        if c == '\t' && leading {
            push_char(&mut out, '\u{a0}');
            push_char(&mut out, '\u{a0}');
            push_char(&mut out, '\u{a0}');
            push_char(&mut out, '\u{a0}');
        } else if c == ' ' && leading {
            push_char(&mut out, '\u{a0}');
        } else if c == '\n' {
            push_char(&mut out, '\n');
            push_char(&mut out, '\n');
        } else if is_ascii_punctuation(c) {
            push_char(&mut out, '\\');
            push_char(&mut out, c);
        } else {
            push_char(&mut out, c);
        }
        leading = c == '\n' || (leading && (c == ' ' || c == '\t'));
        proof {
            assert(out@ =~= escaped(before) + escape_piece(c, leading_after(before)));
        }
    }
    proof {
        assert(text@.take(text@.len() as int) == text@);
    }
    out
}

} // verus!
