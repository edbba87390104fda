//! Block layout of whole documents: widths from the containing block,
//! heights from the content, collapsed margins, floats and clearance, and
//! anonymous blocks around inline runs.

use pelorus::layout::block::{collapse, layout_document};
use pelorus::layout::fragment::{FragmentKind, FragmentTree};
use pelorus::layout::geom::{px, Au, LogicalEdges};
use pelorus::layout::styled::{
    BorderSide, BorderSides, BoxStyle, ClearValue, DisplayInside, DisplayOutside, DomKind, DomNode, FloatValue,
    MarginSide, MarginSides,
};

/// A block box with no margin, border or padding, text at `font` pixels on
/// lines `line` pixels tall.
fn flat(font: i32, line: i32) -> BoxStyle {
    let margin = MarginSide::Length(px(0));
    let border = BorderSide { width: px(3), hidden: true };
    BoxStyle {
        outside: DisplayOutside::Block,
        inside: DisplayInside::Flow,
        float: FloatValue::NoFloat,
        clear: ClearValue::NoClear,
        definite_width: None,
        margin: MarginSides { block_start: margin, block_end: margin, inline_start: margin, inline_end: margin },
        border: BorderSides { block_start: border, block_end: border, inline_start: border, inline_end: border },
        padding: LogicalEdges::zero(),
        font_size: px(font),
        line_height: px(line),
        definite_height: None,
    }
}

/// The block style of the plain documents: 16px text on `normal` lines.
fn plain() -> BoxStyle {
    flat(16, 19)
}

fn el(style: BoxStyle, children: Vec<DomNode>) -> DomNode {
    DomNode { kind: DomKind::Element(Some(style)), children }
}

fn text(t: &str) -> DomNode {
    DomNode { kind: DomKind::Text(t.to_string()), children: Vec::new() }
}

fn inline_style(base: BoxStyle) -> BoxStyle {
    BoxStyle { outside: DisplayOutside::Inline, ..base }
}

fn sized(base: BoxStyle, width: Option<i32>, height: Option<i32>) -> BoxStyle {
    BoxStyle { definite_width: width.map(px), definite_height: height.map(px), ..base }
}

fn floated(base: BoxStyle) -> BoxStyle {
    BoxStyle { float: FloatValue::Left, ..base }
}

/// `<html><body>…</body></html>`, both with `style`, around `content`.
fn document(style: BoxStyle, content: Vec<DomNode>) -> DomNode {
    let body = el(style, content);
    let html = el(style, vec![body]);
    DomNode { kind: DomKind::Other, children: vec![html] }
}

/// Lay out at an 800px viewport.
fn layout(doc: &DomNode) -> FragmentTree {
    layout_document(doc, px(800)).expect("a root element exists")
}

fn kinds(tree: &FragmentTree) -> Vec<FragmentKind> {
    tree.in_layout_order().into_iter().filter_map(|(_, id)| tree.get(id).map(|f| f.kind)).collect()
}

fn boxes(tree: &FragmentTree) -> Vec<(FragmentKind, Au, Au, Au, Au)> {
    tree.in_layout_order()
        .into_iter()
        .filter_map(|(_, id)| tree.get(id))
        .map(|f| (f.kind, f.inline_offset, f.block_offset, f.size.inline, f.size.block))
        .collect()
}

fn rects_of(tree: &FragmentTree, kind: FragmentKind) -> Vec<(Au, Au, Au, Au)> {
    boxes(tree).into_iter().filter(|b| b.0 == kind).map(|b| (b.1, b.2, b.3, b.4)).collect()
}

fn bands(tree: &FragmentTree, kind: FragmentKind) -> Vec<(Au, Au)> {
    boxes(tree).into_iter().filter(|b| b.0 == kind).map(|b| (b.2, b.4)).collect()
}

#[test]
fn no_element_means_no_layout() {
    let doc = DomNode { kind: DomKind::Other, children: vec![text("stray")] };
    assert!(layout_document(&doc, px(800)).is_none());
}

#[test]
fn block_a_float_does_not_push_the_next_block_down() {
    let f = el(sized(floated(plain()), Some(50), Some(40)), vec![]);
    let b = el(sized(plain(), None, Some(30)), vec![]);
    let tree = layout(&document(plain(), vec![f, b]));
    let blocks = rects_of(&tree, FragmentKind::Block);
    assert!(blocks.contains(&(px(0), px(0), px(50), px(40))), "{blocks:?}");
    assert!(blocks.contains(&(px(0), px(0), px(800), px(30))), "{blocks:?}");
}

#[test]
fn block_a_float_does_not_split_the_run_around_it() {
    let base = flat(10, 20);
    let f = el(sized(floated(base), Some(10), Some(10)), vec![]);
    let div = el(base, vec![text("before"), f, text("after")]);
    let tree = layout(&document(base, vec![div]));
    assert!(!boxes(&tree).iter().any(|b| b.0 == FragmentKind::AnonymousBlock), "{:?}", boxes(&tree));
    assert_eq!(rects_of(&tree, FragmentKind::Line).len(), 1);
}

#[test]
fn block_a_float_shrinks_to_fit_its_content() {
    let f = el(floated(flat(10, 20)), vec![text("abcd")]);
    let tree = layout(&document(plain(), vec![f]));
    let floats: Vec<_> = rects_of(&tree, FragmentKind::Block).into_iter().filter(|r| r.2 < px(800)).collect();
    assert_eq!(floats, vec![(px(0), px(0), px(20), px(20))]);
}

#[test]
fn block_clear_pushes_a_block_below_the_float() {
    let f = el(sized(floated(plain()), Some(50), Some(40)), vec![]);
    let b = el(BoxStyle { clear: ClearValue::Left, ..sized(plain(), None, Some(30)) }, vec![]);
    let tree = layout(&document(plain(), vec![f, b]));
    assert!(rects_of(&tree, FragmentKind::Block).contains(&(px(0), px(40), px(800), px(30))));
}

#[test]
fn block_clear_on_the_other_side_does_nothing() {
    let f = el(sized(floated(plain()), Some(50), Some(40)), vec![]);
    let b = el(BoxStyle { clear: ClearValue::Right, ..sized(plain(), None, Some(30)) }, vec![]);
    let tree = layout(&document(plain(), vec![f, b]));
    assert!(rects_of(&tree, FragmentKind::Block).contains(&(px(0), px(0), px(800), px(30))));
}

#[test]
fn block_a_flow_root_contains_its_floats() {
    let f = el(sized(floated(plain()), Some(50), Some(40)), vec![]);
    let r = el(BoxStyle { inside: DisplayInside::FlowRoot, ..plain() }, vec![f]);
    let tree = layout(&document(plain(), vec![r]));
    assert!(rects_of(&tree, FragmentKind::Block).contains(&(px(0), px(0), px(800), px(40))));
}

#[test]
fn block_a_plain_block_does_not_contain_its_floats() {
    let f = el(sized(floated(plain()), Some(50), Some(40)), vec![]);
    let r = el(plain(), vec![f]);
    let tree = layout(&document(plain(), vec![r]));
    assert!(rects_of(&tree, FragmentKind::Block).contains(&(px(0), px(0), px(800), px(0))));
}

#[test]
fn block_flow_root_lays_out_as_a_block_container() {
    let r = el(BoxStyle { inside: DisplayInside::FlowRoot, ..sized(plain(), Some(150), Some(20)) }, vec![]);
    let tree = layout(&document(plain(), vec![r]));
    assert!(rects_of(&tree, FragmentKind::Block).contains(&(px(0), px(0), px(150), px(20))));
}

#[test]
fn block_inline_only_content_generates_no_anonymous_box() {
    let s = flat(10, 20);
    let tree = layout(&document(s, vec![el(s, vec![text("just text")])]));
    assert!(!kinds(&tree).contains(&FragmentKind::AnonymousBlock));
}

#[test]
fn block_block_only_content_generates_no_anonymous_box() {
    let s = flat(10, 20);
    let div = el(s, vec![el(s, vec![text("one")]), el(s, vec![text("two")])]);
    let tree = layout(&document(s, vec![div]));
    assert!(!kinds(&tree).contains(&FragmentKind::AnonymousBlock));
}

#[test]
fn block_mixed_content_wraps_each_inline_run() {
    let s = flat(10, 20);
    let div = el(s, vec![text("before"), el(s, vec![text("middle")]), text("after")]);
    let tree = layout(&document(s, vec![div]));
    assert_eq!(bands(&tree, FragmentKind::AnonymousBlock).len(), 2);
}

#[test]
fn block_mixed_content_keeps_document_order() {
    let s = flat(10, 20);
    let div = el(s, vec![text("before"), el(s, vec![text("middle")]), text("after")]);
    let tree = layout(&document(s, vec![div]));
    let container = tree
        .in_layout_order()
        .into_iter()
        .map(|(_, id)| id)
        .find(|id| tree.children(*id).len() == 3)
        .expect("the div has three block-level children");
    let sequence: Vec<(FragmentKind, Au, Au)> = tree
        .children(container)
        .iter()
        .filter_map(|id| tree.get(*id))
        .map(|f| (f.kind, f.block_offset, f.size.block))
        .collect();
    assert_eq!(
        sequence,
        vec![
            (FragmentKind::AnonymousBlock, px(0), px(20)),
            (FragmentKind::Block, px(20), px(20)),
            (FragmentKind::AnonymousBlock, px(40), px(20)),
        ]
    );
}

#[test]
fn block_a_block_inside_an_inline_splits_the_run() {
    let s = flat(10, 20);
    let span = el(inline_style(s), vec![text("before"), el(s, vec![text("middle")]), text("after")]);
    let tree = layout(&document(s, vec![el(s, vec![span])]));
    assert_eq!(bands(&tree, FragmentKind::AnonymousBlock).len(), 2);
}

#[test]
fn block_whitespace_between_blocks_generates_no_anonymous_box() {
    let s = flat(10, 20);
    let div = el(s, vec![text("\n  "), el(s, vec![text("one")]), text("\n  "), el(s, vec![text("two")]), text("\n")]);
    let tree = layout(&document(s, vec![div]));
    assert!(!kinds(&tree).contains(&FragmentKind::AnonymousBlock));
}

#[test]
fn block_display_none_contributes_no_text() {
    let s = flat(10, 20);
    let hidden = BoxStyle { outside: DisplayOutside::NoBox, inside: DisplayInside::NoBox, ..s };
    let div = el(s, vec![el(hidden, vec![text("invisible")])]);
    let tree = layout(&document(s, vec![div]));
    assert!(!kinds(&tree).contains(&FragmentKind::Line));
}

#[test]
fn block_auto_width_fills_the_containing_block() {
    let tree = layout(&document(plain(), vec![el(plain(), vec![])]));
    let order = tree.in_layout_order();
    assert_eq!(order.len(), 4, "icb + html + body + div");
    for (_, id) in &order {
        assert_eq!(tree.get(*id).expect("every id resolves").size.inline, px(800));
    }
}

#[test]
fn block_margins_and_padding_reduce_the_content_width() {
    let mut s = plain();
    s.margin.inline_start = MarginSide::Length(px(10));
    s.margin.inline_end = MarginSide::Length(px(10));
    s.padding.inline_start = px(20);
    s.padding.inline_end = px(20);
    let tree = layout(&document(plain(), vec![el(s, vec![])]));
    let order = tree.in_layout_order();
    let div = order.last().expect("the div is deepest").1;
    let fragment = tree.get(div).expect("resolves");
    assert_eq!(fragment.size.inline, px(780));
    assert_eq!(fragment.inline_offset, px(10));
}

#[test]
fn block_heights_stack_along_the_block_axis() {
    let d = sized(plain(), None, Some(50));
    let tree = layout(&document(plain(), vec![el(d, vec![]), el(d, vec![])]));
    let order = tree.in_layout_order();
    let divs: Vec<_> = order.iter().skip(3).collect();
    assert_eq!(divs.len(), 2);
    assert_eq!(tree.get(divs[0].1).expect("resolves").block_offset, px(0));
    assert_eq!(tree.get(divs[1].1).expect("resolves").block_offset, px(50));
}

#[test]
fn block_auto_height_comes_from_the_children() {
    let d = sized(plain(), None, Some(30));
    let tree = layout(&document(plain(), vec![el(d, vec![]), el(d, vec![])]));
    let root = tree.root().expect("a root fragment");
    assert_eq!(tree.get(root).expect("resolves").size.block, px(60));
}

#[test]
fn block_over_constrained_width_saturates_at_zero() {
    let mut s = plain();
    s.margin.inline_start = MarginSide::Length(px(1000));
    s.margin.inline_end = MarginSide::Length(px(1000));
    let tree = layout(&document(plain(), vec![el(s, vec![])]));
    let div = tree.in_layout_order().last().expect("the div is deepest").1;
    assert_eq!(tree.get(div).expect("resolves").size.inline, px(0));
}

#[test]
fn block_text_content_gives_the_container_a_height() {
    let s = flat(16, 20);
    let tree = layout(&document(s, vec![el(s, vec![text("hello world")])]));
    let order = tree.in_layout_order();
    let div = order.iter().find(|(depth, _)| *depth == 3).expect("icb > html > body > div");
    assert_eq!(tree.get(div.1).expect("resolves").size.block, px(20));
    assert_eq!(tree.children(div.1).len(), 1);
}

#[test]
fn block_text_wraps_and_each_line_adds_height() {
    let s = sized(flat(16, 20), Some(60), None);
    let tree = layout(&document(plain(), vec![el(s, vec![text("aaa bbb ccc ddd")])]));
    let order = tree.in_layout_order();
    let div = order.iter().find(|(depth, _)| *depth == 3).expect("icb > html > body > div");
    let lines = tree.children(div.1).len();
    assert!(lines > 1, "four words in a 60px box must wrap, got {lines} line(s)");
    assert_eq!(tree.get(div.1).expect("resolves").size.block, px(20 * i32::try_from(lines).expect("few lines")));
}

#[test]
fn block_adjoining_sibling_margins_collapse_to_the_larger() {
    let mut a = sized(plain(), None, Some(20));
    a.margin.block_end = MarginSide::Length(px(30));
    let mut b = sized(plain(), None, Some(20));
    b.margin.block_start = MarginSide::Length(px(10));
    let tree = layout(&document(plain(), vec![el(a, vec![]), el(b, vec![])]));
    let order = tree.in_layout_order();
    let second = order.iter().filter(|(depth, _)| *depth == 3).nth(1).expect("two divs at depth 3");
    assert_eq!(tree.get(second.1).expect("resolves").block_offset, px(50));
}

#[test]
fn block_opposite_sign_margins_are_summed() {
    let mut a = sized(plain(), None, Some(20));
    a.margin.block_end = MarginSide::Length(px(30));
    let mut b = sized(plain(), None, Some(20));
    b.margin.block_start = MarginSide::Length(px(-10));
    let tree = layout(&document(plain(), vec![el(a, vec![]), el(b, vec![])]));
    let order = tree.in_layout_order();
    let second = order.iter().filter(|(depth, _)| *depth == 3).nth(1).expect("two divs at depth 3");
    assert_eq!(tree.get(second.1).expect("resolves").block_offset, px(40));
}

#[test]
fn block_two_negative_margins_collapse_to_the_more_negative() {
    assert_eq!(collapse(px(-10), px(-30)), px(-30));
    assert_eq!(collapse(px(-30), px(-10)), px(-30));
    assert_eq!(collapse(px(10), px(30)), px(30));
    assert_eq!(collapse(px(30), px(-10)), px(20));
}

#[test]
fn block_text_flows_beside_a_float() {
    let div_style = sized(flat(10, 20), Some(100), None);
    let f = el(sized(floated(flat(10, 20)), Some(40), Some(20)), vec![]);
    let div = el(div_style, vec![f, text("aaaa bbbb cccc")]);
    let tree = layout(&document(flat(16, 19), vec![div]));
    let lines = rects_of(&tree, FragmentKind::Line);
    assert!(!lines.is_empty(), "the text laid out at all");
    assert_eq!(lines[0].0, px(40), "the first line starts past the float: {lines:?}");
    assert_eq!(lines[1].0, px(0), "the second line is below the float and starts at the edge: {lines:?}");
}
