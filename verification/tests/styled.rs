//! A styled document's content, partitioned for block layout, and the
//! intrinsic inline sizes of the boxes it generates.

use pelorus::layout::block::Intrinsic;
use pelorus::layout::geom::{au, px, Au, LogicalEdges};
use pelorus::layout::styled::{
    clear_side, establishes_formatting_context, float_side, intrinsic_inline_size, is_block_level, is_display_none,
    partition_content, resolve_edges, BorderSide, BorderSides, BoxStyle, ClearValue, Content, DisplayInside,
    DisplayOutside, DomKind, DomNode, FloatValue, MarginSide, MarginSides,
};
use pelorus::layout::float::{ClearSide, FloatSide};
use pelorus::layout::inline::collect_text;

fn style(outside: DisplayOutside, inside: DisplayInside) -> BoxStyle {
    let margin = MarginSide::Length(au(0));
    let border = BorderSide { width: px(3), hidden: true };
    BoxStyle {
        outside,
        inside,
        float: FloatValue::NoFloat,
        clear: ClearValue::NoClear,
        definite_width: None,
        margin: MarginSides { block_start: margin, block_end: margin, inline_start: margin, inline_end: margin },
        border: BorderSides { block_start: border, block_end: border, inline_start: border, inline_end: border },
        padding: LogicalEdges::zero(),
        font_size: px(16),
        line_height: au(1152),
        definite_height: None,
    }
}

fn element(style: BoxStyle, children: Vec<DomNode>) -> DomNode {
    DomNode { kind: DomKind::Element(Some(style)), children }
}

fn block(children: Vec<DomNode>) -> DomNode {
    element(style(DisplayOutside::Block, DisplayInside::Flow), children)
}

fn inline(children: Vec<DomNode>) -> DomNode {
    element(style(DisplayOutside::Inline, DisplayInside::Flow), children)
}

fn hidden(children: Vec<DomNode>) -> DomNode {
    element(style(DisplayOutside::NoBox, DisplayInside::NoBox), children)
}

fn floated(children: Vec<DomNode>) -> DomNode {
    let mut s = style(DisplayOutside::Block, DisplayInside::Flow);
    s.float = FloatValue::Left;
    element(s, children)
}

fn text(t: &str) -> DomNode {
    DomNode { kind: DomKind::Text(t.to_string()), children: Vec::new() }
}

fn describe(items: &[Content<'_>]) -> Vec<String> {
    items
        .iter()
        .map(|item| match item {
            Content::InlineRun(t) => t.clone(),
            Content::Block(_) => "[block]".to_string(),
            Content::Float(_) => "[float]".to_string(),
        })
        .collect()
}

#[test]
fn inline_only_content_is_one_run() {
    let div = block(vec![text("one "), inline(vec![text("two")]), text("  three")]);
    assert_eq!(describe(&partition_content(&div)), vec!["one two three"]);
}

#[test]
fn mixed_content_keeps_document_order() {
    let div = block(vec![text("one"), block(vec![text("two")]), text("three")]);
    let items = partition_content(&div);
    assert_eq!(describe(&items), vec!["one", "[block]", "three"]);
    match items[1] {
        Content::Block(node) => assert!(std::ptr::eq(node, &div.children[1])),
        _ => panic!("the paragraph is a box of its own"),
    }
}

#[test]
fn whitespace_between_blocks_is_no_run() {
    let div = block(vec![block(vec![text("a")]), text("\n  "), block(vec![text("b")])]);
    assert_eq!(describe(&partition_content(&div)), vec!["[block]", "[block]"]);
}

#[test]
fn display_none_contributes_no_text() {
    let div = block(vec![text("a "), hidden(vec![text("title")]), text("b")]);
    assert_eq!(describe(&partition_content(&div)), vec!["a b"]);
}

#[test]
fn a_float_does_not_split_the_run_around_it() {
    let div = block(vec![text("text "), floated(vec![text("f")]), text(" more")]);
    assert_eq!(describe(&partition_content(&div)), vec!["[float]", "text more"]);
}

#[test]
fn a_block_inside_an_inline_splits_the_run() {
    let div = block(vec![inline(vec![text("a"), block(vec![text("b")]), text("c")])]);
    assert_eq!(describe(&partition_content(&div)), vec!["a", "[block]", "c"]);
}

#[test]
fn comments_and_unstyled_elements_are_handled_as_their_kind_says() {
    let comment = DomNode { kind: DomKind::Other, children: vec![text("never")] };
    let unstyled = DomNode { kind: DomKind::Element(None), children: vec![text("seen")] };
    let div = block(vec![comment, unstyled]);
    assert_eq!(describe(&partition_content(&div)), vec!["seen"]);
}

#[test]
fn a_float_shrinks_to_its_text() {
    let f = floated(vec![text("hello world")]);
    assert_eq!(intrinsic_inline_size(&f), Intrinsic { min: px(40), max: px(88) });
}

#[test]
fn a_definite_width_is_both_sizes_with_its_surround() {
    let mut s = style(DisplayOutside::Block, DisplayInside::Flow);
    s.definite_width = Some(px(100));
    s.padding = LogicalEdges { block_start: px(1), block_end: px(1), inline_start: px(10), inline_end: px(10) };
    s.border.inline_start = BorderSide { width: px(2), hidden: false };
    let b = element(s, vec![text("this text is ignored")]);
    assert_eq!(intrinsic_inline_size(&b), Intrinsic { min: px(122), max: px(122) });
}

#[test]
fn block_children_stack_so_the_widest_wins() {
    let outer = block(vec![block(vec![text("aa bbbb")]), block(vec![text("ccc")]), text("d")]);
    assert_eq!(intrinsic_inline_size(&outer), Intrinsic { min: px(32), max: px(56) });
}

#[test]
fn nested_boxes_add_their_surround_at_every_level() {
    let mut s = style(DisplayOutside::Block, DisplayInside::Flow);
    s.padding = LogicalEdges { block_start: px(0), block_end: px(0), inline_start: px(1), inline_end: px(1) };
    let mut node = text("abc de");
    for _ in 0..512 {
        node = element(s, vec![node]);
    }
    let outer = block(vec![node, floated(vec![text("x")])]);
    assert_eq!(intrinsic_inline_size(&outer), Intrinsic { min: px(24 + 1024), max: px(48 + 1024) });
}

#[test]
fn no_box_means_no_size() {
    let zero = Intrinsic { min: Au::zero(), max: Au::zero() };
    assert_eq!(intrinsic_inline_size(&hidden(vec![text("x")])), zero);
    assert_eq!(intrinsic_inline_size(&text("words")), zero);
}

#[test]
fn style_predicates_read_both_halves_of_display() {
    let flow_root = style(DisplayOutside::Block, DisplayInside::FlowRoot);
    assert!(is_block_level(&flow_root));
    assert!(establishes_formatting_context(&flow_root));
    assert!(!is_block_level(&style(DisplayOutside::Block, DisplayInside::Other)));
    assert!(!is_block_level(&style(DisplayOutside::Inline, DisplayInside::Flow)));
    assert!(is_display_none(&style(DisplayOutside::NoBox, DisplayInside::NoBox)));
    assert!(!is_display_none(&style(DisplayOutside::NoBox, DisplayInside::Flow)));
    let mut s = style(DisplayOutside::Block, DisplayInside::Flow);
    s.float = FloatValue::InlineEnd;
    s.clear = ClearValue::Left;
    assert_eq!(float_side(&s), Some(FloatSide::End));
    assert_eq!(clear_side(&s), Some(ClearSide::Start));
    assert!(establishes_formatting_context(&s));
}

#[test]
fn hidden_borders_and_auto_margins_are_zero() {
    let mut s = style(DisplayOutside::Block, DisplayInside::Flow);
    s.margin.inline_start = MarginSide::Auto;
    s.margin.inline_end = MarginSide::Length(px(7));
    s.border.block_start = BorderSide { width: px(4), hidden: false };
    let e = resolve_edges(&s);
    assert_eq!(e.margin.inline_start, px(0));
    assert_eq!(e.margin.inline_end, px(7));
    assert_eq!(e.border.block_start, px(4));
    assert_eq!(e.border.inline_start, px(0), "a hidden border has no width, whatever it says");
}

#[test]
fn collected_text_is_every_text_node_in_document_order() {
    let comment = DomNode { kind: DomKind::Other, children: vec![text("d")] };
    let div = block(vec![text("a "), inline(vec![text("b"), block(vec![text("c")])]), hidden(vec![text("!")]), comment]);
    assert_eq!(collect_text(&div), "a bc!d");
    assert_eq!(collect_text(&text("only")), "only");
    assert_eq!(collect_text(&block(Vec::new())), "");
}
