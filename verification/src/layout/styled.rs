//! The styled document that block layout reads: each node's kind, and for
//! an element the computed values that decide what box it generates.
//!
//! A block container's content is partitioned here into runs of inline
//! content and block-level boxes, in document order, and a box's intrinsic
//! inline sizes are computed from that partition.
use vstd::prelude::*;
use crate::layout::block::{inline_surround_of, widest_of, widest_word, Edges, Intrinsic};
use crate::layout::float::{ClearSide, FloatSide};
use crate::layout::geom::{clamp_au, Au, LogicalEdges};
use crate::layout::text::{measure, width_of};
use crate::layout::inline::{collapse_whitespace, collapsed};
use crate::text_ops::{chars_of, push_str, trim, trim_window};

verus! {

/// How a box takes part in its parent's layout.
#[derive(Clone, Copy, Debug, PartialEq, Eq, Structural)]
pub enum DisplayOutside {
    /// `none`: no box.
    NoBox,
    /// Inline-level.
    Inline,
    /// Block-level.
    Block,
    /// Anything else (table parts, ruby).
    Other,
}

/// The layout a box runs for its children.
#[derive(Clone, Copy, Debug, PartialEq, Eq, Structural)]
pub enum DisplayInside {
    /// `none`: no box.
    NoBox,
    /// Normal flow.
    Flow,
    /// Normal flow, establishing a block formatting context.
    FlowRoot,
    /// Anything else (flex, grid, table).
    Other,
}

/// The computed `float`.
#[derive(Clone, Copy, Debug, PartialEq, Eq, Structural)]
pub enum FloatValue {
    /// `none`.
    NoFloat,
    /// `left`.
    Left,
    /// `right`.
    Right,
    /// `inline-start`.
    InlineStart,
    /// `inline-end`.
    InlineEnd,
}

/// The computed `clear`.
#[derive(Clone, Copy, Debug, PartialEq, Eq, Structural)]
pub enum ClearValue {
    /// `none`.
    NoClear,
    /// `left`.
    Left,
    /// `right`.
    Right,
    /// `inline-start`.
    InlineStart,
    /// `inline-end`.
    InlineEnd,
    /// `both`.
    Both,
}

/// One computed margin, its percentage already resolved against the
/// containing block it is laid out in.
#[derive(Clone, Copy, Debug, PartialEq, Eq, Structural)]
pub enum MarginSide {
    /// `auto`.
    Auto,
    /// A length.
    Length(Au),
    /// A value that needs an anchor, which nothing here has.
    Other,
}

/// One border side: its computed width, and whether its style is `none` or
/// `hidden`.
#[derive(Clone, Copy, Debug, PartialEq, Eq, Structural)]
pub struct BorderSide {
    /// The computed `border-*-width`.
    pub width: Au,
    /// Whether `border-*-style` is `none` or `hidden`.
    pub hidden: bool,
}

/// The four margins.
#[derive(Clone, Copy, Debug, PartialEq, Eq, Structural)]
pub struct MarginSides {
    /// Before the content, along the block axis.
    pub block_start: MarginSide,
    /// After the content, along the block axis.
    pub block_end: MarginSide,
    /// Before the content, along the inline axis.
    pub inline_start: MarginSide,
    /// After the content, along the inline axis.
    pub inline_end: MarginSide,
}

/// The four border sides.
#[derive(Clone, Copy, Debug, PartialEq, Eq, Structural)]
pub struct BorderSides {
    /// Before the content, along the block axis.
    pub block_start: BorderSide,
    /// After the content, along the block axis.
    pub block_end: BorderSide,
    /// Before the content, along the inline axis.
    pub inline_start: BorderSide,
    /// After the content, along the inline axis.
    pub inline_end: BorderSide,
}

/// What block layout reads of an element's computed style. Percentages in
/// margins and padding are resolved against a containing block of zero
/// width, as intrinsic sizing resolves them.
#[derive(Clone, Copy, Debug, PartialEq, Eq, Structural)]
pub struct BoxStyle {
    /// The outer display type.
    pub outside: DisplayOutside,
    /// The inner display type.
    pub inside: DisplayInside,
    /// The computed `float`.
    pub float: FloatValue,
    /// The computed `clear`.
    pub clear: ClearValue,
    /// `width`, when it is a length that needs no containing block; `None`
    /// for `auto`, a percentage, or a keyword.
    pub definite_width: Option<Au>,
    /// The margins.
    pub margin: MarginSides,
    /// The borders.
    pub border: BorderSides,
    /// The padding.
    pub padding: LogicalEdges,
    /// The computed font size.
    pub font_size: Au,
    /// The used line height: `normal` taken as six fifths of the font size.
    pub line_height: Au,
    /// `height`, when it is a length; `None` for `auto`, and for a
    /// percentage, which has no basis while the containing block's height
    /// is itself `auto`.
    pub definite_height: Option<Au>,
}

/// What a node is.
pub enum DomKind {
    /// An element, with its computed style if it has been styled.
    Element(Option<BoxStyle>),
    /// A text node.
    Text(String),
    /// The document, a comment, or a doctype.
    Other,
}

/// A node and its children, in document order.
pub struct DomNode {
    /// What the node is.
    pub kind: DomKind,
    /// Its children.
    pub children: Vec<DomNode>,
}

/// Whether an element with `s` generates no box and no content.
pub open spec fn display_none(s: BoxStyle) -> bool {
    s.outside == DisplayOutside::NoBox && s.inside == DisplayInside::NoBox
}

/// Whether an element with `s` is a block-level block container.
pub open spec fn block_level(s: BoxStyle) -> bool {
    s.outside == DisplayOutside::Block && (s.inside == DisplayInside::Flow || s.inside == DisplayInside::FlowRoot)
}

/// The edge an element with `s` floats to, if it floats.
pub open spec fn float_of(s: BoxStyle) -> Option<FloatSide> {
    match s.float {
        FloatValue::Left | FloatValue::InlineStart => Some(FloatSide::Start),
        FloatValue::Right | FloatValue::InlineEnd => Some(FloatSide::End),
        FloatValue::NoFloat => None,
    }
}

/// Whether the box `node` generates takes part in block layout.
pub fn is_block_level(style: &BoxStyle) -> (r: bool)
    ensures
        r == block_level(*style),
{
    style.outside == DisplayOutside::Block && (style.inside == DisplayInside::Flow || style.inside
        == DisplayInside::FlowRoot)
}

/// Whether an element generates no box at all, and so no content either.
pub fn is_display_none(style: &BoxStyle) -> (r: bool)
    ensures
        r == display_none(*style),
{
    style.outside == DisplayOutside::NoBox && style.inside == DisplayInside::NoBox
}

/// Which edge an element floats to, if it floats. The inline axis runs left
/// to right, so `left` and `inline-start` are one edge.
pub fn float_side(style: &BoxStyle) -> (r: Option<FloatSide>)
    ensures
        r == float_of(*style),
{
    match style.float {
        FloatValue::Left | FloatValue::InlineStart => Some(FloatSide::Start),
        FloatValue::Right | FloatValue::InlineEnd => Some(FloatSide::End),
        FloatValue::NoFloat => None,
    }
}

/// Which floats an element must clear, if any.
pub fn clear_side(style: &BoxStyle) -> (r: Option<ClearSide>)
    ensures
        r == match style.clear {
            ClearValue::Left | ClearValue::InlineStart => Some(ClearSide::Start),
            ClearValue::Right | ClearValue::InlineEnd => Some(ClearSide::End),
            ClearValue::Both => Some(ClearSide::Both),
            ClearValue::NoClear => None::<ClearSide>,
        },
{
    match style.clear {
        ClearValue::Left | ClearValue::InlineStart => Some(ClearSide::Start),
        ClearValue::Right | ClearValue::InlineEnd => Some(ClearSide::End),
        ClearValue::Both => Some(ClearSide::Both),
        ClearValue::NoClear => None,
    }
}

/// Whether an element establishes a block formatting context: a flow root,
/// or a float.
pub fn establishes_formatting_context(style: &BoxStyle) -> (r: bool)
    ensures
        r == (style.inside == DisplayInside::FlowRoot || float_of(*style) is Some),
{
    style.inside == DisplayInside::FlowRoot || float_side(style).is_some()
}

/// The used value of a margin: `auto`, and anything unresolvable, is zero.
pub open spec fn margin_used(m: MarginSide) -> int {
    match m {
        MarginSide::Length(a) => a@,
        _ => 0,
    }
}

/// The used width of a border side: zero when its style is `none` or
/// `hidden`, whatever the width says.
pub open spec fn border_used(b: BorderSide) -> int {
    if b.hidden {
        0
    } else {
        b.width@
    }
}

/// The used value of a margin.
pub fn used_margin(m: MarginSide) -> (r: Au)
    ensures
        r@ == margin_used(m),
{
    match m {
        MarginSide::Length(a) => a,
        _ => Au::zero(),
    }
}

/// The used width of a border side.
pub fn used_border(b: BorderSide) -> (r: Au)
    ensures
        r@ == border_used(b),
{
    if b.hidden {
        Au::zero()
    } else {
        b.width
    }
}

/// The used margins, borders and padding of an element with `style`.
pub fn resolve_edges(style: &BoxStyle) -> (r: Edges)
    ensures
        r.margin.block_start@ == margin_used(style.margin.block_start),
        r.margin.block_end@ == margin_used(style.margin.block_end),
        r.margin.inline_start@ == margin_used(style.margin.inline_start),
        r.margin.inline_end@ == margin_used(style.margin.inline_end),
        r.border.block_start@ == border_used(style.border.block_start),
        r.border.block_end@ == border_used(style.border.block_end),
        r.border.inline_start@ == border_used(style.border.inline_start),
        r.border.inline_end@ == border_used(style.border.inline_end),
        r.padding == style.padding,
{
    Edges {
        margin: LogicalEdges {
            block_start: used_margin(style.margin.block_start),
            block_end: used_margin(style.margin.block_end),
            inline_start: used_margin(style.margin.inline_start),
            inline_end: used_margin(style.margin.inline_end),
        },
        border: LogicalEdges {
            block_start: used_border(style.border.block_start),
            block_end: used_border(style.border.block_end),
            inline_start: used_border(style.border.inline_start),
            inline_end: used_border(style.border.inline_end),
        },
        padding: style.padding,
    }
}

/// One step of a container's content, flattened: text, or a box of its own.
pub enum Token {
    /// Text, to be joined into the run it sits in.
    Text(Seq<char>),
    /// An in-flow block-level box.
    Block(DomNode),
    /// A float.
    Float(DomNode),
}

/// What `node` contributes to its container's content: nothing for a box
/// that is `display: none`, itself for a float or a block-level box, its
/// text for a text node, and otherwise its children's contributions, in
/// order; elements that are not block-level are flattened through.
pub open spec fn node_tokens(node: DomNode) -> Seq<Token>
    decreases node,
{
    match node.kind {
        DomKind::Element(Some(s)) => if display_none(s) {
            Seq::empty()
        } else if float_of(s) is Some {
            seq![Token::Float(node)]
        } else if block_level(s) {
            seq![Token::Block(node)]
        } else {
            children_tokens(node.children@)
        },
        DomKind::Element(None) => children_tokens(node.children@),
        DomKind::Text(t) => seq![Token::Text(t@)],
        DomKind::Other => Seq::empty(),
    }
}

/// What `nodes` contribute, one after another.
pub open spec fn children_tokens(nodes: Seq<DomNode>) -> Seq<Token>
    decreases nodes,
{
    if nodes.len() == 0 {
        Seq::empty()
    } else {
        node_tokens(nodes[0]) + children_tokens(nodes.drop_first())
    }
}

/// One item of a block container's content.
pub enum ContentView {
    /// A run of inline content, white space collapsed.
    InlineRun(Seq<char>),
    /// A block-level child.
    Block(DomNode),
    /// A floated child.
    Float(DomNode),
}

/// The items so far with the run being gathered ended: the run, collapsed,
/// is added unless nothing but white space is left of it.
pub open spec fn flushed(out: Seq<ContentView>, run: Seq<char>) -> Seq<ContentView> {
    let c = collapsed(run);
    if trim(c).len() == 0 {
        out
    } else {
        out.push(ContentView::InlineRun(c))
    }
}

/// Reading `tokens` in order: text gathers into the current run, a float
/// is an item of its own without ending the run, and a block-level box ends
/// the run and follows it.
pub open spec fn gathered(tokens: Seq<Token>) -> (Seq<ContentView>, Seq<char>)
    decreases tokens.len(),
{
    if tokens.len() == 0 {
        (Seq::empty(), Seq::empty())
    } else {
        let (out, run) = gathered(tokens.drop_last());
        match tokens.last() {
            Token::Text(t) => (out, run + t),
            Token::Float(n) => (out.push(ContentView::Float(n)), run),
            Token::Block(n) => (flushed(out, run).push(ContentView::Block(n)), Seq::empty()),
        }
    }
}

/// The content of a block container whose children are `children`.
pub open spec fn partition_of(children: Seq<DomNode>) -> Seq<ContentView> {
    let (out, run) = gathered(children_tokens(children));
    flushed(out, run)
}

/// One item of a block container's content.
pub enum Content<'a> {
    /// A run of inline content, white space collapsed.
    InlineRun(String),
    /// A block-level child.
    Block(&'a DomNode),
    /// A floated child.
    Float(&'a DomNode),
}

impl<'a> View for Content<'a> {
    type V = ContentView;

    open spec fn view(&self) -> ContentView {
        match *self {
            Content::InlineRun(s) => ContentView::InlineRun(s@),
            Content::Block(n) => ContentView::Block(*n),
            Content::Float(n) => ContentView::Float(*n),
        }
    }
}

/// The views of some content items.
pub open spec fn content_views<'a>(s: Seq<Content<'a>>) -> Seq<ContentView> {
    s.map_values(|c: Content<'a>| c@)
}

/// What a stack of nodes still to visit, top last, contributes.
pub open spec fn stack_tokens<'a>(stack: Seq<&'a DomNode>) -> Seq<Token>
    decreases stack.len(),
{
    if stack.len() == 0 {
        Seq::empty()
    } else {
        node_tokens(*stack.last()) + stack_tokens(stack.drop_last())
    }
}

/// How many nodes a subtree holds.
pub open spec fn size_of(node: DomNode) -> nat
    decreases node,
{
    1 + size_of_all(node.children@)
}

/// How many nodes some subtrees hold together.
pub open spec fn size_of_all(nodes: Seq<DomNode>) -> nat
    decreases nodes,
{
    if nodes.len() == 0 {
        0
    } else {
        size_of(nodes[0]) + size_of_all(nodes.drop_first())
    }
}

/// How many nodes a stack of nodes still to visit holds.
pub open spec fn stack_size<'a>(stack: Seq<&'a DomNode>) -> nat
    decreases stack.len(),
{
    if stack.len() == 0 {
        0
    } else {
        size_of(*stack.last()) + stack_size(stack.drop_last())
    }
}

/// Pushing `nodes[j..]` onto a stack, last first, leaves the stack holding
/// their contributions, in order, above what it held.
proof fn lemma_children_step(nodes: Seq<DomNode>, j: int)
    requires
        0 <= j < nodes.len(),
    ensures
        children_tokens(nodes.subrange(j, nodes.len() as int)) == node_tokens(nodes[j]) + children_tokens(
            nodes.subrange(j + 1, nodes.len() as int),
        ),
        size_of_all(nodes.subrange(j, nodes.len() as int)) == size_of(nodes[j]) + size_of_all(
            nodes.subrange(j + 1, nodes.len() as int),
        ),
{
    let rest = nodes.subrange(j, nodes.len() as int);
    assert(rest.drop_first() =~= nodes.subrange(j + 1, nodes.len() as int));
    assert(rest[0] == nodes[j]);
}

/// Ends the run being gathered: it is added to `out`, collapsed, unless
/// nothing but white space is left of it; either way the run is emptied.
pub fn flush_run<'a>(run: &mut String, out: &mut Vec<Content<'a>>)
    ensures
        content_views(final(out)@) == flushed(content_views(old(out)@), old(run)@),
        final(run)@ == Seq::<char>::empty(),
{
    let collapsed_run = collapse_whitespace(run.as_str());
    *run = String::new();
    let v = chars_of(collapsed_run.as_str());
    let (a, b) = trim_window(&v, 0, v.len());
    proof {
        assert(v@.subrange(0, v@.len() as int) =~= v@);
    }
    if a < b {
        let ghost before = out@;
        out.push(Content::InlineRun(collapsed_run));
        proof {
            assert(content_views(out@) =~= content_views(before).push(ContentView::InlineRun(collapsed(old(run)@))));
        }
    }
}

/// The content of the block container `node`, in document order: runs of
/// inline content, and the block-level and floated boxes among them. Inline
/// elements are flattened through; a block-level box ends a run and follows
/// it, a float does not end it, and a run of nothing but white space is
/// dropped. Walked with an explicit stack.
pub fn partition_content<'a>(node: &'a DomNode) -> (r: Vec<Content<'a>>)
    ensures
        content_views(r@) == partition_of(node.children@),
{
    let mut out: Vec<Content<'a>> = Vec::new();
    let mut run = String::new();
    let mut stack: Vec<&'a DomNode> = Vec::new();
    let ghost all = node.children@;
    let ghost total = children_tokens(all);
    let mut j = node.children.len();
    proof {
        assert(all.subrange(j as int, all.len() as int) =~= Seq::<DomNode>::empty());
    }
    while j > 0
        invariant
            j <= all.len(),
            all == node.children@,
            stack_tokens(stack@) == children_tokens(all.subrange(j as int, all.len() as int)),
            stack_size(stack@) == size_of_all(all.subrange(j as int, all.len() as int)),
        decreases j,
    {
        j = j - 1;
        let ghost prev = stack@;
        proof {
            lemma_children_step(all, j as int);
        }
        stack.push(&node.children[j]);
        proof {
            assert(stack@.drop_last() =~= prev);
        }
    }
    proof {
        assert(all.subrange(0, all.len() as int) =~= all);
        assert(gathered(Seq::<Token>::empty()) == (Seq::<ContentView>::empty(), Seq::<char>::empty()));
        assert(content_views(out@) =~= Seq::<ContentView>::empty());
    }
    let ghost mut done: Seq<Token> = Seq::empty();
    while stack.len() > 0
        invariant
            done + stack_tokens(stack@) == total,
            (content_views(out@), run@) == gathered(done),
        decreases stack_size(stack@),
    {
        let ghost before = stack@;
        let current = stack.pop().unwrap();
        proof {
            assert(before.drop_last() =~= stack@);
            assert(before.last() == current);
        }
        match &current.kind {
            DomKind::Element(style) => {
                let skipped = match style {
                    Some(s) => is_display_none(s),
                    None => false,
                };
                if skipped {
                    proof {
                        assert(done + stack_tokens(stack@) =~= total);
                    }
                } else {
                    let floats = match style {
                        Some(s) => float_side(s).is_some(),
                        None => false,
                    };
                    let block = match style {
                        Some(s) => is_block_level(s),
                        None => false,
                    };
                    if floats {
                        let ghost o = out@;
                        out.push(Content::Float(current));
                        proof {
                            assert(content_views(out@) =~= content_views(o).push(ContentView::Float(*current)));
                            let d2 = done.push(Token::Float(*current));
                            assert(d2.drop_last() =~= done);
                            assert(d2 + stack_tokens(stack@) =~= total);
                            done = d2;
                        }
                    } else if block {
                        let ghost r0 = run@;
                        flush_run(&mut run, &mut out);
                        let ghost o = out@;
                        out.push(Content::Block(current));
                        proof {
                            assert(content_views(out@) =~= content_views(o).push(ContentView::Block(*current)));
                            let d2 = done.push(Token::Block(*current));
                            assert(d2.drop_last() =~= done);
                            assert(d2 + stack_tokens(stack@) =~= total);
                            done = d2;
                        }
                    } else {
                        let kids = &current.children;
                        let ghost ks = kids@;
                        let ghost rest = stack@;
                        let mut k = kids.len();
                        proof {
                            assert(ks.subrange(k as int, ks.len() as int) =~= Seq::<DomNode>::empty());
                            assert(node_tokens(*current) == children_tokens(ks));
                            assert(size_of(*current) == 1 + size_of_all(ks));
                        }
                        while k > 0
                            invariant
                                k <= ks.len(),
                                ks == kids@,
                                stack_tokens(stack@) == children_tokens(ks.subrange(k as int, ks.len() as int))
                                    + stack_tokens(rest),
                                stack_size(stack@) == size_of_all(ks.subrange(k as int, ks.len() as int))
                                    + stack_size(rest),
                            decreases k,
                        {
                            k = k - 1;
                            let ghost prev = stack@;
                            proof {
                                lemma_children_step(ks, k as int);
                            }
                            stack.push(&kids[k]);
                            proof {
                                assert(stack@.drop_last() =~= prev);
                            }
                        }
                        proof {
                            assert(ks.subrange(0, ks.len() as int) =~= ks);
                            assert(done + stack_tokens(stack@) =~= total);
                        }
                    }
                }
            },
            DomKind::Text(t) => {
                push_str(&mut run, t.as_str());
                proof {
                    let d2 = done.push(Token::Text(t@));
                    assert(d2.drop_last() =~= done);
                    assert(d2 + stack_tokens(stack@) =~= total);
                    done = d2;
                }
            },
            DomKind::Other => {
                proof {
                    assert(done + stack_tokens(stack@) =~= total);
                }
            },
        }
    }
    proof {
        assert(done =~= total);
    }
    flush_run(&mut run, &mut out);
    out
}


/// The size of the box a content item names; zero for a run.
pub open spec fn item_size(c: ContentView) -> int {
    match c {
        ContentView::Block(n) => size_of(n) as int,
        ContentView::Float(n) => size_of(n) as int,
        ContentView::InlineRun(_) => 0,
    }
}

/// The size of the box a token names; zero for text.
pub open spec fn token_size(t: Token) -> int {
    match t {
        Token::Block(n) => size_of(n) as int,
        Token::Float(n) => size_of(n) as int,
        Token::Text(_) => 0,
    }
}

/// Whether every box that `items` names is smaller than `bound`.
pub open spec fn items_below(items: Seq<ContentView>, bound: nat) -> bool {
    forall|i: int| 0 <= i < items.len() ==> #[trigger] item_size(items[i]) < bound
}

/// The larger of two integers.
pub open spec fn larger(a: int, b: int) -> int {
    if a >= b {
        a
    } else {
        b
    }
}

/// Everything outside the content box of an element with `s`, along the
/// inline axis: its used margins, borders and padding, summed saturating in
/// that order.
pub open spec fn surround_of(s: BoxStyle) -> int {
    clamp_au(
        clamp_au(
            clamp_au(margin_used(s.margin.inline_start) + margin_used(s.margin.inline_end)) + clamp_au(
                border_used(s.border.inline_start) + border_used(s.border.inline_end),
            ),
        ) + clamp_au(s.padding.inline_start@ + s.padding.inline_end@),
    )
}

/// The intrinsic inline sizes, `(min, max)`, of the box `node` generates,
/// border box included: zero for a node with no box; its width and surround
/// when its width is definite; otherwise the widest of its content (its
/// runs, by the widest word and by the whole run, and its block-level and
/// floated children) and its surround.
pub open spec fn intrinsic_of(node: DomNode) -> (int, int)
    decreases size_of(node), 1int, 0int,
{
    match node.kind {
        DomKind::Element(Some(s)) => if display_none(s) {
            (0, 0)
        } else {
            match s.definite_width {
                Some(w) => {
                    let t = clamp_au(w@ + surround_of(s));
                    (t, t)
                },
                None => {
                    let f = items_sizes(partition_of(node.children@), s.font_size, size_of(node));
                    (clamp_au(f.0 + surround_of(s)), clamp_au(f.1 + surround_of(s)))
                },
            }
        },
        _ => (0, 0),
    }
}

/// The widest of `items`, `(min, max)`, starting from zero: a run by its
/// widest word and by its whole width, a box by its intrinsic sizes.
pub open spec fn items_sizes(items: Seq<ContentView>, font_size: Au, bound: nat) -> (int, int)
    decreases bound, 0int, items.len() as int,
    when items_below(items, bound)
{
    if items.len() == 0 {
        (0, 0)
    } else {
        let prev = items_sizes(items.drop_last(), font_size, bound);
        match items.last() {
            ContentView::InlineRun(t) => (
                larger(prev.0, widest_of(t, font_size)),
                larger(prev.1, width_of(t.len() as int, font_size)),
            ),
            ContentView::Block(c) => {
                proof {
                    assert(item_size(items[items.len() - 1]) < bound);
                }
                let ci = intrinsic_of(c);
                (larger(prev.0, ci.0), larger(prev.1, ci.1))
            },
            ContentView::Float(c) => {
                proof {
                    assert(item_size(items[items.len() - 1]) < bound);
                }
                let ci = intrinsic_of(c);
                (larger(prev.0, ci.0), larger(prev.1, ci.1))
            },
        }
    }
}

/// Every box a node contributes is inside it.
proof fn lemma_node_tokens_within(node: DomNode)
    ensures
        forall|i: int| 0 <= i < node_tokens(node).len() ==> #[trigger] token_size(node_tokens(node)[i]) <= size_of(node),
    decreases node,
{
    assert(size_of(node) == 1 + size_of_all(node.children@));
    match node.kind {
        DomKind::Element(Some(s)) => {
            if display_none(s) {
                assert(node_tokens(node).len() == 0);
            } else if float_of(s) is Some {
                assert(node_tokens(node) == seq![Token::Float(node)]);
                assert forall|i: int| 0 <= i < node_tokens(node).len() implies #[trigger] token_size(node_tokens(node)[i])
                    <= size_of(node) by {
                    assert(node_tokens(node)[i] == Token::Float(node));
                }
            } else if block_level(s) {
                assert(node_tokens(node) == seq![Token::Block(node)]);
                assert forall|i: int| 0 <= i < node_tokens(node).len() implies #[trigger] token_size(node_tokens(node)[i])
                    <= size_of(node) by {
                    assert(node_tokens(node)[i] == Token::Block(node));
                }
            } else {
                assert(node_tokens(node) == children_tokens(node.children@));
                lemma_children_tokens_within(node.children@);
                assert forall|i: int| 0 <= i < node_tokens(node).len() implies #[trigger] token_size(node_tokens(node)[i])
                    <= size_of(node) by {
                    assert(token_size(children_tokens(node.children@)[i]) <= size_of_all(node.children@));
                }
            }
        },
        DomKind::Element(None) => {
            assert(node_tokens(node) == children_tokens(node.children@));
            lemma_children_tokens_within(node.children@);
            assert forall|i: int| 0 <= i < node_tokens(node).len() implies #[trigger] token_size(node_tokens(node)[i])
                <= size_of(node) by {
                assert(token_size(children_tokens(node.children@)[i]) <= size_of_all(node.children@));
            }
        },
        DomKind::Text(t) => {
            assert(node_tokens(node) == seq![Token::Text(t@)]);
            assert forall|i: int| 0 <= i < node_tokens(node).len() implies #[trigger] token_size(node_tokens(node)[i])
                <= size_of(node) by {
                assert(node_tokens(node)[i] == Token::Text(t@));
            }
        },
        DomKind::Other => {
            assert(node_tokens(node).len() == 0);
        },
    }
}

/// Every box some nodes contribute is inside one of them.
proof fn lemma_children_tokens_within(nodes: Seq<DomNode>)
    ensures
        forall|i: int|
            0 <= i < children_tokens(nodes).len() ==> #[trigger] token_size(children_tokens(nodes)[i]) <= size_of_all(nodes),
    decreases nodes,
{
    if nodes.len() > 0 {
        lemma_node_tokens_within(nodes[0]);
        lemma_children_tokens_within(nodes.drop_first());
        let a = node_tokens(nodes[0]);
        let b = children_tokens(nodes.drop_first());
        assert forall|i: int| 0 <= i < (a + b).len() implies #[trigger] token_size((a + b)[i]) <= size_of_all(nodes) by {
            if i < a.len() {
                assert((a + b)[i] == a[i]);
            } else {
                assert((a + b)[i] == b[i - a.len()]);
            }
        }
    }
}

/// Gathering tokens names no box the tokens did not.
proof fn lemma_gathered_within(tokens: Seq<Token>, bound: int)
    requires
        forall|i: int| 0 <= i < tokens.len() ==> #[trigger] token_size(tokens[i]) <= bound,
    ensures
        forall|i: int| 0 <= i < gathered(tokens).0.len() ==> #[trigger] item_size(gathered(tokens).0[i]) <= bound,
    decreases tokens.len(),
{
    if tokens.len() > 0 {
        let d = tokens.drop_last();
        assert forall|i: int| 0 <= i < d.len() implies #[trigger] token_size(d[i]) <= bound by {
            assert(d[i] == tokens[i]);
        }
        lemma_gathered_within(d, bound);
        assert(token_size(tokens[tokens.len() - 1]) <= bound);
        let (out, run) = gathered(d);
        let f = flushed(out, run);
        assert forall|i: int| 0 <= i < f.len() implies #[trigger] item_size(f[i]) <= bound by {
            if i < out.len() {
                assert(f[i] == out[i]);
            }
        }
        let g = gathered(tokens).0;
        assert forall|i: int| 0 <= i < g.len() implies #[trigger] item_size(g[i]) <= bound by {
            match tokens.last() {
                Token::Text(t) => {
                    assert(g == out);
                },
                Token::Float(n) => {
                    assert(g == out.push(ContentView::Float(n)));
                    if i < out.len() {
                        assert(g[i] == out[i]);
                    }
                },
                Token::Block(n) => {
                    assert(g == f.push(ContentView::Block(n)));
                    if i < f.len() {
                        assert(g[i] == f[i]);
                    }
                },
            }
        }
    }
}

/// The boxes among a node's content are each smaller than the node.
pub(crate) proof fn lemma_partition_below(node: DomNode)
    ensures
        items_below(partition_of(node.children@), size_of(node)),
{
    let t = children_tokens(node.children@);
    lemma_children_tokens_within(node.children@);
    lemma_gathered_within(t, size_of_all(node.children@) as int);
    assert(size_of(node) == 1 + size_of_all(node.children@));
}

/// How many visits the intrinsic walk makes to finish the box `node`
/// generates once it has been opened: none for a box whose sizes are known
/// without looking inside, otherwise one per item of its content, the
/// visits its boxes take, one to open it and one to close it.
spec fn walk_cost(node: DomNode) -> nat
    decreases size_of(node), 1int, 0int,
{
    match node.kind {
        DomKind::Element(Some(s)) => if display_none(s) || s.definite_width is Some {
            0
        } else {
            2 + items_cost(partition_of(node.children@), size_of(node))
        },
        _ => 0,
    }
}

/// The visits the intrinsic walk makes for `items`.
spec fn items_cost(items: Seq<ContentView>, bound: nat) -> nat
    decreases bound, 0int, items.len() as int,
    when items_below(items, bound)
{
    if items.len() == 0 {
        0
    } else {
        let prev = items_cost(items.drop_last(), bound);
        match items.last() {
            ContentView::InlineRun(_) => prev + 1,
            ContentView::Block(c) => {
                proof {
                    assert(item_size(items[items.len() - 1]) < bound);
                }
                prev + 1 + walk_cost(c)
            },
            ContentView::Float(c) => {
                proof {
                    assert(item_size(items[items.len() - 1]) < bound);
                }
                prev + 1 + walk_cost(c)
            },
        }
    }
}

/// A block container part-way through having its intrinsic sizes computed:
/// its content, how many items of it have been folded in, and the widest
/// contributions so far.
struct IntrinsicFrame<'a> {
    node: Ghost<DomNode>,
    items: Vec<Content<'a>>,
    next: usize,
    font_size: Au,
    surround: Au,
    min: Au,
    max: Au,
}

/// What opening a box gives: its sizes, when they need no look inside, or a
/// frame to fold its content into.
enum Opened<'a> {
    Done(Intrinsic),
    Frame(IntrinsicFrame<'a>),
}

/// The content of the box a frame is for.
spec fn frame_views<'a>(f: IntrinsicFrame<'a>) -> Seq<ContentView> {
    content_views(f.items@)
}

/// A frame for a box that needs its content looked at, holding that
/// content and the widest of its first `next` items.
spec fn frame_ok<'a>(f: IntrinsicFrame<'a>) -> bool {
    let n = f.node@;
    &&& n.kind matches DomKind::Element(Some(s))
    &&& !display_none(s)
    &&& s.definite_width is None
    &&& f.font_size == s.font_size
    &&& f.surround@ == surround_of(s)
    &&& frame_views(f) == partition_of(n.children@)
    &&& f.next <= f.items@.len()
    &&& (f.min@, f.max@) == items_sizes(frame_views(f).take(f.next as int), f.font_size, size_of(n))
}

/// Whether frame `g` is for the box that `f` is at.
spec fn frame_links<'a>(f: IntrinsicFrame<'a>, g: IntrinsicFrame<'a>) -> bool {
    &&& f.next < f.items@.len()
    &&& (frame_views(f)[f.next as int] == ContentView::Block(g.node@) || frame_views(f)[f.next as int]
        == ContentView::Float(g.node@))
}

/// The frames of the walk from `root`: each open, and each above the box
/// the one below it is at.
spec fn frames_ok<'a>(fs: Seq<IntrinsicFrame<'a>>, root: DomNode) -> bool {
    &&& fs.len() > 0
    &&& fs[0].node@ == root
    &&& forall|k: int| 0 <= k < fs.len() ==> frame_ok(#[trigger] fs[k])
    &&& forall|k: int| #![trigger fs[k]] 0 <= k < fs.len() - 1 ==> frame_links(fs[k], fs[k + 1])
}

/// The visits left for the frame on top.
spec fn left_on_top<'a>(f: IntrinsicFrame<'a>) -> int {
    let v = frame_views(f);
    let b = size_of(f.node@);
    1 + items_cost(v, b) - items_cost(v.take(f.next as int), b)
}

/// The visits left for a frame below the top, once the box it is at has
/// been closed.
spec fn left_below<'a>(f: IntrinsicFrame<'a>) -> int {
    let v = frame_views(f);
    let b = size_of(f.node@);
    2 + items_cost(v, b) - items_cost(v.take(f.next + 1), b)
}

/// The visits left for frames below the top.
spec fn cost_below<'a>(fs: Seq<IntrinsicFrame<'a>>) -> int
    decreases fs.len(),
{
    if fs.len() == 0 {
        0
    } else {
        cost_below(fs.drop_last()) + left_below(fs.last())
    }
}

/// The visits the walk has left.
spec fn walk_left<'a>(fs: Seq<IntrinsicFrame<'a>>) -> int {
    cost_below(fs.drop_last()) + left_on_top(fs.last())
}

/// A prefix of items costs its part, item by item.
proof fn lemma_cost_step(v: Seq<ContentView>, bound: nat, i: int)
    requires
        items_below(v, bound),
        0 <= i < v.len(),
    ensures
        items_cost(v.take(i + 1), bound) == items_cost(v.take(i), bound) + match v[i] {
            ContentView::InlineRun(_) => 1,
            ContentView::Block(c) => 1 + walk_cost(c),
            ContentView::Float(c) => 1 + walk_cost(c),
        },
        items_cost(v.take(i), bound) <= items_cost(v, bound),
        items_cost(v.take(i + 1), bound) <= items_cost(v, bound),
{
    let p = v.take(i + 1);
    assert(p.drop_last() =~= v.take(i));
    assert(p.last() == v[i]);
    assert(items_below(p, bound)) by {
        assert forall|k: int| 0 <= k < p.len() implies #[trigger] item_size(p[k]) < bound by {
            assert(p[k] == v[k]);
        }
    }
    assert(items_below(v.take(i), bound)) by {
        assert forall|k: int| 0 <= k < v.take(i).len() implies #[trigger] item_size(v.take(i)[k]) < bound by {
            assert(v.take(i)[k] == v[k]);
        }
    }
    lemma_cost_prefix(v, bound, i + 1);
    lemma_cost_prefix(v, bound, i);
}

/// A prefix of items costs no more than all of them.
proof fn lemma_cost_prefix(v: Seq<ContentView>, bound: nat, i: int)
    requires
        items_below(v, bound),
        0 <= i <= v.len(),
    ensures
        items_cost(v.take(i), bound) <= items_cost(v, bound),
    decreases v.len() - i,
{
    if i < v.len() {
        let p = v.take(i + 1);
        assert(p.drop_last() =~= v.take(i));
        assert(items_below(p, bound)) by {
            assert forall|k: int| 0 <= k < p.len() implies #[trigger] item_size(p[k]) < bound by {
                assert(p[k] == v[k]);
            }
        }
        lemma_cost_prefix(v, bound, i + 1);
    } else {
        assert(v.take(i) =~= v);
    }
}

/// Every box some items name is smaller than the bound, so is every box a
/// prefix of them names.
proof fn lemma_below_prefix(v: Seq<ContentView>, bound: nat, i: int)
    requires
        items_below(v, bound),
        0 <= i <= v.len(),
    ensures
        items_below(v.take(i), bound),
{
    assert forall|k: int| 0 <= k < v.take(i).len() implies #[trigger] item_size(v.take(i)[k]) < bound by {
        assert(v.take(i)[k] == v[k]);
    }
}

/// Open the box `node` generates: its sizes when they need no look inside
/// (no box, no style, or a definite width), otherwise a frame for its
/// content with nothing folded in yet.
fn open_box<'a>(node: &'a DomNode) -> (r: Opened<'a>)
    ensures
        match r {
            Opened::Done(v) => (v.min@, v.max@) == intrinsic_of(*node) && walk_cost(*node) == 0,
            Opened::Frame(f) => frame_ok(f) && f.node@ == *node && f.next == 0 && walk_cost(*node) == 2
                + items_cost(frame_views(f), size_of(*node)),
        },
{
    let zero = Intrinsic { min: Au::zero(), max: Au::zero() };
    let style = match &node.kind {
        DomKind::Element(Some(s)) => s,
        _ => {
            return Opened::Done(zero);
        },
    };
    if is_display_none(style) {
        return Opened::Done(zero);
    }
    let surround = resolve_edges(style).inline_surround();
    match style.definite_width {
        Some(width) => {
            let total = width.plus(surround);
            return Opened::Done(Intrinsic { min: total, max: total });
        },
        None => {},
    }
    let items = partition_content(node);
    proof {
        lemma_partition_below(*node);
        assert(content_views(items@).take(0) =~= Seq::<ContentView>::empty());
    }
    Opened::Frame(
        IntrinsicFrame {
            node: Ghost(*node),
            items,
            next: 0,
            font_size: style.font_size,
            surround,
            min: Au::zero(),
            max: Au::zero(),
        },
    )
}

/// Frames of a walk stay well formed when the top one is replaced by a
/// frame for the same box and content.
proof fn lemma_replace_top<'a>(fs: Seq<IntrinsicFrame<'a>>, t: IntrinsicFrame<'a>, root: DomNode)
    requires
        frames_ok(fs, root),
        frame_ok(t),
        t.node@ == fs.last().node@,
    ensures
        frames_ok(fs.drop_last().push(t), root),
        walk_left(fs.drop_last().push(t)) == cost_below(fs.drop_last()) + left_on_top(t),
{
    let ns = fs.drop_last().push(t);
    assert(ns.drop_last() =~= fs.drop_last());
    assert forall|k: int| 0 <= k < ns.len() implies frame_ok(#[trigger] ns[k]) by {
        if k < ns.len() - 1 {
            assert(ns[k] == fs[k]);
        }
    }
    assert forall|k: int| #![trigger ns[k]] 0 <= k < ns.len() - 1 implies frame_links(ns[k], ns[k + 1]) by {
        assert(ns[k] == fs[k]);
        if k < ns.len() - 2 {
            assert(ns[k + 1] == fs[k + 1]);
        }
        assert(frame_links(fs[k], fs[k + 1]));
    }
}

/// Frames of a walk stay well formed with a frame for the box the top one
/// is at pushed above it.
proof fn lemma_push_frame<'a>(fs: Seq<IntrinsicFrame<'a>>, g: IntrinsicFrame<'a>, root: DomNode)
    requires
        frames_ok(fs, root),
        frame_ok(g),
        frame_links(fs.last(), g),
    ensures
        frames_ok(fs.push(g), root),
        walk_left(fs.push(g)) == cost_below(fs.drop_last()) + left_below(fs.last()) + left_on_top(g),
{
    let ns = fs.push(g);
    assert(ns.drop_last() =~= fs);
    assert forall|k: int| 0 <= k < ns.len() implies frame_ok(#[trigger] ns[k]) by {
        if k < fs.len() {
            assert(ns[k] == fs[k]);
        }
    }
    assert forall|k: int| #![trigger ns[k]] 0 <= k < ns.len() - 1 implies frame_links(ns[k], ns[k + 1]) by {
        assert(ns[k] == fs[k]);
        if k < fs.len() - 1 {
            assert(ns[k + 1] == fs[k + 1]);
        }
    }
}

/// Frames of a walk without their top one are the frames of the walk, and
/// the new top is at the box the old one was for.
proof fn lemma_drop_frame<'a>(fs: Seq<IntrinsicFrame<'a>>, root: DomNode)
    requires
        frames_ok(fs, root),
        fs.len() >= 2,
    ensures
        frames_ok(fs.drop_last(), root),
        frame_links(fs.drop_last().last(), fs.last()),
        walk_left(fs) == cost_below(fs.drop_last().drop_last()) + left_below(fs.drop_last().last())
            + left_on_top(fs.last()),
{
    let ns = fs.drop_last();
    assert forall|k: int| 0 <= k < ns.len() implies frame_ok(#[trigger] ns[k]) by {
        assert(ns[k] == fs[k]);
    }
    assert forall|k: int| #![trigger ns[k]] 0 <= k < ns.len() - 1 implies frame_links(ns[k], ns[k + 1]) by {
        assert(ns[k] == fs[k] && ns[k + 1] == fs[k + 1]);
    }
    assert(frame_links(fs[fs.len() - 2], fs[fs.len() - 1]));
}

/// The sizes of a box whose content must be looked at: the widest of its
/// content, its surround added.
#[verifier::spinoff_prover]
proof fn lemma_intrinsic_open(n: DomNode, s: BoxStyle)
    requires
        n.kind == DomKind::Element(Some(s)),
        !display_none(s),
        s.definite_width is None,
    ensures
        intrinsic_of(n) == (
            clamp_au(items_sizes(partition_of(n.children@), s.font_size, size_of(n)).0 + surround_of(s)),
            clamp_au(items_sizes(partition_of(n.children@), s.font_size, size_of(n)).1 + surround_of(s)),
        ),
{
    lemma_partition_below(n);
}

/// A closed frame's sizes, its surround added, are the box's.
#[verifier::spinoff_prover]
proof fn lemma_frame_closed<'a>(f: IntrinsicFrame<'a>)
    requires
        frame_ok(f),
        f.next == f.items@.len(),
    ensures
        intrinsic_of(f.node@) == (clamp_au(f.min@ + f.surround@), clamp_au(f.max@ + f.surround@)),
{
    let n = f.node@;
    let v = frame_views(f);
    assert(v.take(f.next as int) =~= v);
    match n.kind {
        DomKind::Element(Some(s)) => {
            assert(!display_none(s));
            assert(s.definite_width is None);
            assert(f.font_size == s.font_size);
            lemma_intrinsic_open(n, s);
            assert((f.min@, f.max@) == items_sizes(partition_of(n.children@), s.font_size, size_of(n)));
        },
        _ => {},
    }
}

/// The visits left for frames of a walk are at least one for the top
/// frame and none below it.
proof fn lemma_walk_left_bounds<'a>(fs: Seq<IntrinsicFrame<'a>>, root: DomNode)
    requires
        frames_ok(fs, root),
    ensures
        cost_below(fs.drop_last()) >= 0,
        left_on_top(fs.last()) >= 1,
{
    let below = fs.drop_last();
    assert forall|k: int| 0 <= k < below.len() implies left_below(#[trigger] below[k]) >= 2 by {
        assert(below[k] == fs[k]);
        assert(frame_ok(fs[k]));
        assert(frame_links(fs[k], fs[k + 1]));
        lemma_partition_below(fs[k].node@);
        lemma_cost_step(frame_views(fs[k]), size_of(fs[k].node@), fs[k].next as int);
    }
    lemma_cost_below_nonneg(below);
    let t = fs.last();
    assert(frame_ok(fs[fs.len() - 1]));
    lemma_partition_below(t.node@);
    lemma_cost_prefix(frame_views(t), size_of(t.node@), t.next as int);
}

/// Frames each with visits left cost none below zero.
proof fn lemma_cost_below_nonneg<'a>(fs: Seq<IntrinsicFrame<'a>>)
    requires
        forall|k: int| 0 <= k < fs.len() ==> left_below(#[trigger] fs[k]) >= 2,
    ensures
        cost_below(fs) >= 0,
    decreases fs.len(),
{
    if fs.len() > 0 {
        let d = fs.drop_last();
        assert forall|k: int| 0 <= k < d.len() implies left_below(#[trigger] d[k]) >= 2 by {
            assert(d[k] == fs[k]);
        }
        lemma_cost_below_nonneg(d);
        assert(left_below(fs[fs.len() - 1]) >= 2);
    }
}

/// The larger of two lengths.
fn wider(a: Au, b: Au) -> (r: Au)
    ensures
        r@ == larger(a@, b@),
{
    if b.value() > a.value() {
        b
    } else {
        a
    }
}

/// Fold the next item of the top frame's content into it, or, for a box
/// that needs its own content looked at, open a frame for it above.
fn fold_next<'a>(frames: &mut Vec<IntrinsicFrame<'a>>, Ghost(root): Ghost<DomNode>)
    requires
        frames_ok(old(frames)@, root),
        old(frames)@.last().next < old(frames)@.last().items@.len(),
    ensures
        frames_ok(final(frames)@, root),
        1 <= walk_left(final(frames)@) < walk_left(old(frames)@),
{
    let ghost before = frames@;
    let mut top = frames.pop().unwrap();
    let ghost rest = frames@;
    let ghost v = frame_views(top);
    let ghost b = size_of(top.node@);
    let i = top.next;
    let count = top.items.len();
    proof {
        assert(top == before[before.len() - 1]);
        assert(i < top.items@.len());
        assert(frame_ok(before[before.len() - 1]));
        lemma_partition_below(top.node@);
        lemma_cost_step(v, b, i as int);
        lemma_below_prefix(v, b, i + 1);
        assert(v.take(i + 1).drop_last() =~= v.take(i as int));
        assert(v.take(i + 1).last() == v[i as int]);
        assert(v[i as int] == top.items@[i as int]@);
        if before.len() >= 2 {
            lemma_drop_frame(before, root);
        }
    }
    let opened = match &top.items[i] {
        Content::InlineRun(text) => {
            let o = Opened::Done(
                Intrinsic {
                    min: widest_word(text.as_str(), top.font_size),
                    max: measure(text.as_str(), top.font_size),
                },
            );
            o
        },
        Content::Block(c) | Content::Float(c) => {
            let o = open_box(*c);
            proof {
                assert(item_size(v[i as int]) < b);
                assert(v[i as int] == ContentView::Block(**c) || v[i as int] == ContentView::Float(**c));
                if o is Frame {
                    lemma_partition_below(o->Frame_0.node@);
                    lemma_cost_prefix(frame_views(o->Frame_0), size_of(o->Frame_0.node@), 0);
                    assert(frame_views(o->Frame_0).take(0) =~= Seq::<ContentView>::empty());
                    assert(frame_links(top, o->Frame_0));
                    assert(items_cost(v.take(i + 1), b) == items_cost(v.take(i as int), b) + 3 + items_cost(
                        frame_views(o->Frame_0),
                        size_of(o->Frame_0.node@),
                    ));
                } else {
                    assert(items_cost(v.take(i + 1), b) == items_cost(v.take(i as int), b) + 1);
                    assert(items_sizes(v.take(i + 1), top.font_size, b) == (
                        larger(top.min@, o->Done_0.min@),
                        larger(top.max@, o->Done_0.max@),
                    ));
                }
            }
            o
        },
    };
    match opened {
        Opened::Frame(g) => {
            frames.push(top);
            frames.push(g);
            proof {
                assert(rest.push(top) =~= before);
                lemma_push_frame(before, g, root);
                assert(frames@ =~= before.push(g));
                lemma_walk_left_bounds(frames@, root);
            }
        },
        Opened::Done(value) => {
            top.min = wider(top.min, value.min);
            top.max = wider(top.max, value.max);
            top.next = i + 1;
            frames.push(top);
            proof {
                assert(rest =~= before.drop_last());
                assert(frame_ok(top));
                lemma_replace_top(before, top, root);
                assert(frames@ =~= before.drop_last().push(top));
                lemma_walk_left_bounds(frames@, root);
            }
        },
    }
}

/// Close the top frame, whose content has all been folded in: its sizes
/// are the box's, and they are folded into the frame below, or returned
/// when there is none.
fn close_top<'a>(frames: &mut Vec<IntrinsicFrame<'a>>, Ghost(root): Ghost<DomNode>) -> (r: Option<
    Intrinsic,
>)
    requires
        frames_ok(old(frames)@, root),
        old(frames)@.last().next == old(frames)@.last().items@.len(),
    ensures
        r matches Some(value) ==> (value.min@, value.max@) == intrinsic_of(root),
        r is None ==> frames_ok(final(frames)@, root) && 1 <= walk_left(final(frames)@) < walk_left(
            old(frames)@,
        ),
{
    let ghost before = frames@;
    let top = frames.pop().unwrap();
    let ghost v = frame_views(top);
    proof {
        assert(frame_ok(before[before.len() - 1]));
        assert(v.take(top.next as int) =~= v);
    }
    let value = Intrinsic { min: top.min.plus(top.surround), max: top.max.plus(top.surround) };
    proof {
        assert(top == before[before.len() - 1]);
        lemma_frame_closed(top);
    }
    if frames.len() == 0 {
        proof {
            assert(before.len() == 1);
            assert(top.node@ == root);
        }
        return Some(value);
    }
    proof {
        lemma_drop_frame(before, root);
    }
    let ghost below = frames@;
    let mut parent = frames.pop().unwrap();
    let ghost pv = frame_views(parent);
    let ghost pb = size_of(parent.node@);
    let j = parent.next;
    let count = parent.items.len();
    proof {
        assert(below =~= before.drop_last());
        assert(parent == before.drop_last().last());
        assert(j < parent.items@.len());
        lemma_partition_below(parent.node@);
        lemma_cost_step(pv, pb, j as int);
        lemma_below_prefix(pv, pb, j + 1);
        assert(pv.take(j + 1).drop_last() =~= pv.take(j as int));
        assert(pv.take(j + 1).last() == pv[j as int]);
        assert(item_size(pv[j as int]) < pb);
        lemma_partition_below(top.node@);
        lemma_cost_prefix(v, size_of(top.node@), v.len() as int);
    }
    parent.min = wider(parent.min, value.min);
    parent.max = wider(parent.max, value.max);
    parent.next = j + 1;
    frames.push(parent);
    proof {
        assert(pv.take(j + 1).last() == ContentView::Block(top.node@) || pv.take(j + 1).last()
            == ContentView::Float(top.node@));
        assert((parent.min@, parent.max@) == items_sizes(pv.take(j + 1), parent.font_size, pb));
        assert(frame_ok(parent));
        lemma_replace_top(below, parent, root);
        assert(frames@ =~= below.drop_last().push(parent));
        assert(below.drop_last() =~= before.drop_last().drop_last());
        assert(left_on_top(top) == 1);
        lemma_walk_left_bounds(frames@, root);
    }
    None
}

/// The intrinsic inline sizes of the box `node` generates, border box
/// included: `min` the narrowest it can be without its content
/// overflowing, `max` the width it takes when nothing wraps. Block-level
/// children stack, so both are the widest child's rather than a sum; a
/// percentage resolves against zero. Walked with an explicit stack of
/// frames, one per open box, so nesting depth costs heap rather than call
/// stack.
pub fn intrinsic_inline_size(node: &DomNode) -> (r: Intrinsic)
    ensures
        (r.min@, r.max@) == intrinsic_of(*node),
{
    let first = match open_box(node) {
        Opened::Done(v) => {
            return v;
        },
        Opened::Frame(f) => f,
    };
    let mut frames: Vec<IntrinsicFrame> = Vec::new();
    frames.push(first);
    proof {
        lemma_partition_below(first.node@);
        lemma_cost_prefix(frame_views(first), size_of(first.node@), 0);
        assert(frames@.drop_last() =~= Seq::<IntrinsicFrame>::empty());
    }
    loop
        invariant
            frames_ok(frames@, *node),
            walk_left(frames@) >= 1,
        decreases walk_left(frames@),
    {
        let top = frames.len() - 1;
        if frames[top].next < frames[top].items.len() {
            fold_next(&mut frames, Ghost(*node));
        } else {
            match close_top(&mut frames, Ghost(*node)) {
                Some(value) => {
                    return value;
                },
                None => {},
            }
        }
    }
}

} // verus!
