//! Layout: saturating lengths, text measurement, greedy line breaking,
//! float placement, box-model arithmetic and the flat fragment tree.

use pelorus::layout::block::{
    centre_if_auto_margins, collapse, make_offsets_absolute, resolve_inline_size, shrink_to_fit, widest_word, Edges,
    InlineSize, Intrinsic,
};
use pelorus::layout::float::{ClearSide, FloatContext, FloatSide};
use pelorus::layout::fragment::{Fragment, FragmentId, FragmentKind, FragmentTree};
use pelorus::layout::geom::{au, px, Au, LogicalEdges, LogicalSize};
use pelorus::layout::inline::{break_into_lines, collapse_whitespace, layout_lines, InlineContext};
use pelorus::layout::text::{char_advance, measure, width_without_trailing_spaces, words};

fn max_au() -> Au {
    au(app_units::MAX_AU.0)
}

fn min_au() -> Au {
    au(app_units::MIN_AU.0)
}

// ---- geom ----

#[test]
fn geom_addition_saturates_instead_of_overflowing() {
    let max = au(i32::MAX);
    assert_eq!(max.value(), app_units::MAX_AU.0, "au() must clamp");
    assert_eq!(max.plus(max), max_au());

    let min = au(i32::MIN);
    assert_eq!(min.value(), app_units::MIN_AU.0);
    assert_eq!(min.plus(min), min_au());
    assert_eq!(min.minus(max), min_au());
}

#[test]
fn geom_multiplication_saturates_at_both_ends() {
    let big = px(1_000_000);
    assert_eq!(big.times(1_000_000), max_au());
    assert_eq!(big.times(-1_000_000), min_au());
}

#[test]
fn geom_px_converts_at_sixty_app_units() {
    assert_eq!(px(1), au(60));
    assert_eq!(px(0), au(0));
    assert_eq!(px(-2), au(-120));
    assert_eq!(px(3).to_px(), 3);
}

#[test]
fn geom_edge_sums_saturate() {
    let edges = LogicalEdges {
        inline_start: au(i32::MAX),
        inline_end: au(i32::MAX),
        block_start: au(i32::MIN),
        block_end: au(i32::MIN),
    };
    assert_eq!(edges.inline_sum(), max_au());
    assert_eq!(edges.block_sum(), min_au());
}

#[test]
fn geom_zero_constants_agree_with_default() {
    assert_eq!(LogicalSize::zero(), LogicalSize::default());
    assert_eq!(LogicalEdges::zero(), LogicalEdges::default());
    assert_eq!(LogicalSize::zero().inline, au(0));
}

#[test]
fn geom_division_truncates_towards_zero() {
    assert_eq!(au(7).divided_by(2), au(3));
    assert_eq!(au(-7).divided_by(2), au(-3));
    assert_eq!(au(-61).to_px(), -1);
}

#[test]
fn geom_from_px_agrees_with_app_units() {
    for v in [0, 1, -1, 17, 1_000_000, -1_000_000, i32::MAX, i32::MIN] {
        assert_eq!(px(v).value(), app_units::Au::from_px(v).0);
    }
}

// ---- text ----

#[test]
fn text_advance_is_half_the_font_size() {
    assert_eq!(char_advance(px(16)), px(8));
    assert_eq!(char_advance(px(20)), px(10));
}

#[test]
fn text_measures_characters_not_bytes() {
    assert_eq!(measure("abc", px(16)), measure("日本語", px(16)));
    assert_eq!(measure("abc", px(16)), px(24));
}

#[test]
fn text_empty_string_has_no_width() {
    assert_eq!(measure("", px(16)), px(0));
}

#[test]
fn text_words_keep_their_trailing_space() {
    let split = words("foo bar", px(16));
    assert_eq!(split.len(), 2);
    assert_eq!(split[0].0, "foo ");
    assert_eq!(split[1].0, "bar");
    assert_eq!(split[0].1, px(32));
    assert_eq!(split[1].1, px(24));
}

#[test]
fn text_trailing_spaces_are_dropped_at_a_break() {
    assert_eq!(width_without_trailing_spaces("foo ", px(16)), px(24));
    assert_eq!(width_without_trailing_spaces("foo   ", px(16)), px(24));
    assert_eq!(width_without_trailing_spaces("foo", px(16)), px(24));
}

#[test]
fn text_measurement_is_reproducible() {
    let once = measure("the quick brown fox", px(17));
    let twice = measure("the quick brown fox", px(17));
    assert_eq!(once, twice);
    assert_eq!(char_advance(px(17)), px(17).divided_by(2));
}

#[test]
fn text_spaces_in_a_row_stay_with_the_word_before_them() {
    let split = words("a  b", px(16));
    let pieces: Vec<&str> = split.iter().map(|(w, _)| w.as_str()).collect();
    assert_eq!(pieces, vec!["a ", " ", "b"]);
}

// ---- inline ----

fn context(text: &str, available_px: i32) -> InlineContext<'_> {
    InlineContext { text, font_size: px(16), line_height: px(20), available: px(available_px) }
}

#[test]
fn inline_text_that_fits_is_one_line() {
    let lines = break_into_lines(&context("abc", 100));
    assert_eq!(lines, vec![px(24)]);
}

#[test]
fn inline_text_breaks_greedily_at_spaces() {
    let lines = break_into_lines(&context("foo bar baz", 60));
    assert_eq!(lines.len(), 2, "three words at 60px make two lines");
}

#[test]
fn inline_trailing_space_does_not_widen_a_broken_line() {
    let lines = break_into_lines(&context("foo bar", 40));
    assert_eq!(lines.len(), 2);
    assert_eq!(lines[0], px(24), "the trailing space is dropped, so 3 chars");
}

#[test]
fn inline_an_unbreakable_word_overflows_rather_than_breaking() {
    let lines = break_into_lines(&context("abcdefgh", 20));
    assert_eq!(lines, vec![px(64)], "a word wider than the line is not broken; it overflows");
}

#[test]
fn inline_empty_text_produces_no_lines() {
    assert!(break_into_lines(&context("", 100)).is_empty());
    assert!(break_into_lines(&context("   ", 100)).is_empty());
}

#[test]
fn inline_whitespace_collapses_to_single_spaces() {
    assert_eq!(collapse_whitespace("  foo \n  bar  "), "foo bar");
    assert_eq!(collapse_whitespace("foo"), "foo");
    assert_eq!(collapse_whitespace("\n\t "), "");
}

#[test]
fn inline_a_no_break_space_is_not_collapsed() {
    assert_eq!(collapse_whitespace("a\u{a0}b"), "a\u{a0}b");
    assert_eq!(collapse_whitespace("a \t\r\n b"), "a b");
    assert_eq!(collapse_whitespace("\u{a0}x\u{2003}"), "\u{a0}x\u{2003}");
}

#[test]
fn inline_lines_stack_by_line_height() {
    let mut tree = FragmentTree::new();
    let (lines, total) = layout_lines(&mut tree, &context("foo bar baz", 60));
    assert_eq!(lines.len(), 2);
    assert_eq!(total, px(40), "two lines at 20px");

    let first = tree.get(lines[0]).expect("resolves");
    let second = tree.get(lines[1]).expect("resolves");
    assert_eq!(first.block_offset, px(0));
    assert_eq!(second.block_offset, px(20));
    assert_eq!(first.kind, FragmentKind::Line);
}

#[test]
fn inline_the_widths_of_broken_lines_are_exact() {
    assert_eq!(break_into_lines(&context("foo bar baz", 60)), vec![px(56), px(24)]);
}

// ---- float ----

fn size(inline: i32, block: i32) -> LogicalSize {
    LogicalSize::new(px(inline), px(block))
}

#[test]
fn float_an_empty_context_offers_the_whole_width() {
    let context = FloatContext::new();
    assert_eq!(context.band(px(0), px(100), px(800)), (px(0), px(800)));
}

#[test]
fn float_a_start_float_narrows_the_band_from_the_start() {
    let mut context = FloatContext::new();
    assert_eq!(context.place(FloatSide::Start, size(100, 50), px(0), px(800)).block_start, px(0));
    assert_eq!(context.band(px(0), px(20), px(800)), (px(100), px(800)));
}

#[test]
fn float_an_end_float_narrows_the_band_from_the_end() {
    let mut context = FloatContext::new();
    context.place(FloatSide::End, size(100, 50), px(0), px(800));
    assert_eq!(context.band(px(0), px(20), px(800)), (px(0), px(700)));
}

#[test]
fn float_two_floats_on_one_side_sit_side_by_side() {
    let mut context = FloatContext::new();
    context.place(FloatSide::Start, size(100, 50), px(0), px(800));
    assert_eq!(
        context.place(FloatSide::Start, size(100, 50), px(0), px(800)).block_start,
        px(0),
        "there is room beside the first, so the second stays at the top"
    );
    assert_eq!(context.band(px(0), px(20), px(800)), (px(200), px(800)));
}

#[test]
fn float_a_float_with_no_room_beside_drops_below() {
    let mut context = FloatContext::new();
    context.place(FloatSide::Start, size(500, 50), px(0), px(800));
    assert_eq!(
        context.place(FloatSide::Start, size(500, 50), px(0), px(800)).block_start,
        px(50),
        "500 + 500 does not fit in 800, so the second drops past the first"
    );
    assert_eq!(context.band(px(60), px(70), px(800)), (px(500), px(800)));
}

#[test]
fn float_opposite_sides_share_a_band_until_they_cannot() {
    let mut context = FloatContext::new();
    context.place(FloatSide::Start, size(500, 50), px(0), px(800));
    context.place(FloatSide::End, size(200, 50), px(0), px(800));
    assert_eq!(context.band(px(0), px(20), px(800)), (px(500), px(600)));
    assert_eq!(context.place(FloatSide::End, size(200, 50), px(0), px(800)).block_start, px(50));
}

#[test]
fn float_the_floor_is_respected_even_when_there_is_room() {
    let mut context = FloatContext::new();
    assert_eq!(
        context.place(FloatSide::Start, size(100, 50), px(200), px(800)).block_start,
        px(200),
        "an empty context still honours the floor"
    );
}

#[test]
fn float_a_float_wider_than_the_container_overflows_at_its_floor() {
    let mut context = FloatContext::new();
    assert_eq!(context.place(FloatSide::Start, size(900, 50), px(0), px(800)).block_start, px(0));
}

#[test]
fn float_a_float_that_only_touches_a_range_does_not_narrow_it() {
    let mut context = FloatContext::new();
    context.place(FloatSide::Start, size(100, 50), px(0), px(800));
    assert_eq!(
        context.band(px(50), px(70), px(800)),
        (px(0), px(800)),
        "the float ends at 50 and the range starts there"
    );
}

#[test]
fn float_the_next_edge_below_is_strictly_below() {
    let mut context = FloatContext::new();
    context.place(FloatSide::Start, size(100, 50), px(0), px(800));
    context.place(FloatSide::Start, size(100, 90), px(0), px(800));
    assert_eq!(context.next_edge_below(px(0)), Some(px(50)));
    assert_eq!(context.next_edge_below(px(50)), Some(px(90)));
    assert_eq!(context.next_edge_below(px(90)), None);
}

#[test]
fn float_clearance_is_the_bottom_of_the_floats_named() {
    let mut context = FloatContext::new();
    context.place(FloatSide::Start, size(100, 50), px(0), px(800));
    context.place(FloatSide::End, size(100, 90), px(0), px(800));
    assert_eq!(context.clearance(ClearSide::Start), px(50));
    assert_eq!(context.clearance(ClearSide::End), px(90));
    assert_eq!(context.clearance(ClearSide::Both), px(90));
}

#[test]
fn float_clearance_of_an_empty_context_is_zero() {
    let context = FloatContext::new();
    assert_eq!(context.clearance(ClearSide::Both), Au::zero());
}

#[test]
fn float_the_lowest_edge_is_per_side() {
    let mut context = FloatContext::new();
    context.place(FloatSide::Start, size(100, 50), px(0), px(800));
    context.place(FloatSide::End, size(100, 90), px(0), px(800));
    assert_eq!(context.lowest_edge(Some(FloatSide::Start)), px(50));
    assert_eq!(context.lowest_edge(Some(FloatSide::End)), px(90));
    assert_eq!(context.lowest_edge(None), px(90));
}

#[test]
fn float_an_overflowing_float_leaves_an_empty_band_not_a_negative_one() {
    let mut context = FloatContext::new();
    context.place(FloatSide::Start, size(900, 50), px(0), px(800));
    let (start, end) = context.band(px(0), px(20), px(800));
    assert!(end.value() >= start.value(), "an empty band is {start:?}..{end:?}");
    assert_eq!(end.minus(start), Au::zero());
}

#[test]
fn float_placed_floats_never_overlap() {
    let mut context = FloatContext::new();
    context.place(FloatSide::Start, size(700, 50), px(0), px(800));
    context.place(FloatSide::End, size(700, 50), px(0), px(800));
    let (start, end) = context.band(px(0), px(20), px(800));
    assert_eq!((start, end), (px(700), px(800)), "the second float dropped below rather than overlapping");
}

#[test]
fn float_an_end_float_sits_against_the_end_edge() {
    let mut context = FloatContext::new();
    let placed = context.place(FloatSide::End, size(100, 50), px(10), px(800));
    assert_eq!(placed.inline_start, px(700));
    assert_eq!(placed.inline_end, px(800));
    assert_eq!(placed.block_start, px(10));
    assert_eq!(placed.block_end, px(60));
    assert!(!context.is_empty());
}

#[test]
fn float_a_tall_float_goes_below_a_short_one_it_cannot_fit_beside() {
    let mut context = FloatContext::new();
    context.place(FloatSide::Start, size(100, 80), px(0), px(800));
    context.place(FloatSide::Start, size(600, 20), px(0), px(800));
    // 300 wide does not fit beside both at the top; the wide float ends at
    // 20, and there it fits beside the tall one.
    let placed = context.place(FloatSide::Start, size(300, 10), px(0), px(800));
    assert_eq!(placed.block_start, px(20));
    assert_eq!(placed.inline_start, px(100));
}

// ---- block ----

#[test]
fn block_margins_of_one_sign_collapse_to_the_outermost() {
    assert_eq!(collapse(px(20), px(30)), px(30));
    assert_eq!(collapse(px(30), px(20)), px(30));
    assert_eq!(collapse(px(-20), px(-30)), px(-30));
    assert_eq!(collapse(px(0), px(15)), px(15));
}

#[test]
fn block_margins_of_opposite_signs_are_summed() {
    assert_eq!(collapse(px(40), px(-15)), px(25));
    assert_eq!(collapse(px(-15), px(40)), px(25));
}

#[test]
fn block_shrink_to_fit_takes_the_available_width_between_the_two() {
    let intrinsic = Intrinsic { min: px(50), max: px(300) };
    assert_eq!(shrink_to_fit(intrinsic, px(200)), px(200));
    assert_eq!(shrink_to_fit(intrinsic, px(400)), px(300));
    assert_eq!(shrink_to_fit(intrinsic, px(10)), px(50));
}

#[test]
fn block_the_widest_word_excludes_trailing_spaces() {
    assert_eq!(widest_word("a bbb cc", px(16)), px(24));
    assert_eq!(widest_word("", px(16)), Au::zero());
}

fn edges(margin: i32, border: i32, padding: i32) -> Edges {
    let side = |v: i32| LogicalEdges { block_start: px(v), block_end: px(v), inline_start: px(v), inline_end: px(v) };
    Edges { margin: side(margin), border: side(border), padding: side(padding) }
}

#[test]
fn block_auto_width_fills_what_the_surround_leaves() {
    let e = edges(10, 1, 5);
    assert_eq!(e.inline_surround(), px(32));
    assert_eq!(e.block_surround(), px(12));
    assert_eq!(resolve_inline_size(InlineSize::Auto, px(800), &e), px(768));
    assert_eq!(resolve_inline_size(InlineSize::Used(px(100)), px(800), &e), px(100));
    assert_eq!(resolve_inline_size(InlineSize::Used(px(-5)), px(800), &e), px(0));
    assert_eq!(resolve_inline_size(InlineSize::Auto, px(20), &e), px(0));
    assert_eq!(resolve_inline_size(InlineSize::Intrinsic, px(800), &Edges::zero()), px(800));
}

#[test]
fn block_auto_margins_centre_a_fixed_width_box() {
    let mut e = Edges::zero();
    centre_if_auto_margins(false, true, true, px(800), px(201), &mut e);
    assert_eq!(e.margin.inline_start, au(17_970));
    assert_eq!(e.margin.inline_end, au(17_970));

    let mut e = Edges::zero();
    centre_if_auto_margins(false, true, true, px(800), au(1), &mut e);
    assert_eq!(e.margin.inline_start.plus(e.margin.inline_end), au(48_000 - 1));
    assert_eq!(e.margin.inline_start, au(23_999));

    let mut e = Edges::zero();
    centre_if_auto_margins(false, false, true, px(800), px(200), &mut e);
    assert_eq!(e.margin.inline_start, px(0));
    assert_eq!(e.margin.inline_end, px(600));

    let mut e = Edges::zero();
    centre_if_auto_margins(true, true, true, px(800), px(200), &mut e);
    assert_eq!(e.margin.inline_start, px(0), "width: auto leaves the margins alone");
}

// ---- fragment ----

fn block(inline: i32, block_size: i32) -> Fragment {
    Fragment::new(FragmentKind::Block, LogicalSize::new(px(inline), px(block_size)))
}

#[test]
fn fragment_children_are_a_slice_in_layout_order() {
    let mut tree = FragmentTree::new();
    let root = tree.push(block(100, 100));
    let a = tree.push(block(10, 10));
    let b = tree.push(block(20, 20));
    tree.set_children(root, &[a, b]);

    assert_eq!(tree.children(root), &[a, b]);
    assert_eq!(tree.children(a), &[] as &[FragmentId]);
    assert_eq!(tree.root(), Some(root));
    assert_eq!(tree.len(), 3);
}

#[test]
fn fragment_layout_order_is_preorder_and_depth_tagged() {
    let mut tree = FragmentTree::new();
    let root = tree.push(block(100, 100));
    let a = tree.push(block(10, 10));
    let b = tree.push(block(20, 20));
    let a1 = tree.push(block(5, 5));
    tree.set_children(a, &[a1]);
    tree.set_children(root, &[a, b]);

    let order = tree.in_layout_order();
    assert_eq!(
        order,
        vec![(0, root), (1, a), (2, a1), (1, b)],
        "children must come out before later siblings, tagged with depth"
    );
}

#[test]
fn fragment_deep_tree_walks_without_overflowing() {
    const DEPTH: usize = 100_000;
    let mut tree = FragmentTree::new();
    let mut chain = Vec::with_capacity(DEPTH);
    for _ in 0..DEPTH {
        chain.push(tree.push(block(10, 10)));
    }
    for window in chain.windows(2) {
        tree.set_children(window[0], &[window[1]]);
    }
    let order = tree.in_layout_order();
    assert_eq!(order.len(), DEPTH);
    assert_eq!(order.last().map(|(depth, _)| *depth), Some(DEPTH - 1));
}

#[test]
fn fragment_is_copy_so_drop_cannot_recurse() {
    fn assert_copy<T: Copy>() {}
    assert_copy::<Fragment>();
    assert_copy::<FragmentId>();
}

#[test]
fn fragment_deep_tree_drops_without_overflowing() {
    let mut tree = FragmentTree::new();
    let mut previous: Option<FragmentId> = None;
    for _ in 0..100_000 {
        let id = tree.push(block(10, 10));
        if let Some(parent) = previous {
            tree.set_children(parent, &[id]);
        }
        previous = Some(id);
    }
    drop(tree);
}

#[test]
fn layout_depth_walks_a_deep_fragment_tree_without_overflowing() {
    const DEPTH: usize = 100_000;
    let mut tree = FragmentTree::new();
    let mut chain = Vec::with_capacity(DEPTH);
    for _ in 0..DEPTH {
        chain.push(tree.push(Fragment::new(FragmentKind::Block, LogicalSize::new(px(10), px(10)))));
    }
    for window in chain.windows(2) {
        tree.set_children(window[0], &[window[1]]);
    }
    let order = tree.in_layout_order();
    assert_eq!(order.len(), DEPTH);
    assert_eq!(order.last().map(|(depth, _)| *depth), Some(DEPTH - 1));
}

#[test]
fn layout_depth_drops_a_deep_fragment_tree_without_overflowing() {
    let mut tree = FragmentTree::new();
    let mut previous = None;
    for _ in 0..100_000 {
        let id = tree.push(Fragment::new(FragmentKind::Block, LogicalSize::new(px(10), px(10))));
        if let Some(parent) = previous {
            tree.set_children(parent, &[id]);
        }
        previous = Some(id);
    }
    drop(tree);
}

#[test]
fn layout_depth_fragments_are_copy_so_drop_cannot_recurse() {
    fn assert_copy<T: Copy>() {}
    assert_copy::<Fragment>();
}

#[test]
fn fragment_get_mut_writes_through_and_set_children_replaces() {
    let mut tree = FragmentTree::new();
    let root = tree.push(block(100, 100));
    let a = tree.push(block(10, 10));
    if let Some(f) = tree.get_mut(a) {
        f.block_offset = px(7);
    }
    assert_eq!(tree.get(a).map(|f| f.block_offset), Some(px(7)));
    tree.set_children(root, &[a]);
    tree.set_children(root, &[]);
    assert_eq!(tree.children(root), &[] as &[FragmentId]);
    let mut other = FragmentTree::new();
    let mut far = other.push(block(1, 1));
    for _ in 0..9 {
        far = other.push(block(1, 1));
    }
    assert!(tree.get(far).is_none());
}

#[test]
fn fragment_a_child_pushed_before_its_parent_is_still_walked() {
    let mut tree = FragmentTree::new();
    let root = tree.push(block(100, 100));
    let child = tree.push(block(5, 5));
    let parent = tree.push(block(10, 10));
    tree.set_children(parent, &[child]);
    tree.set_children(root, &[parent]);
    assert_eq!(tree.in_layout_order(), vec![(0, root), (1, parent), (2, child)]);
}

fn at(inline: i32, block_offset: i32) -> Fragment {
    let mut f = block(10, 10);
    f.inline_offset = px(inline);
    f.block_offset = px(block_offset);
    f
}

#[test]
fn block_offsets_become_absolute_down_the_tree() {
    let mut tree = FragmentTree::new();
    let root = tree.push(at(0, 0));
    let a = tree.push(at(10, 5));
    let b = tree.push(at(3, 4));
    let c = tree.push(at(1, 100));
    tree.set_children(root, &[a, c]);
    tree.set_children(a, &[b]);
    make_offsets_absolute(&mut tree);
    let offset = |id| tree.get(id).map(|f| (f.inline_offset, f.block_offset));
    assert_eq!(offset(root), Some((px(0), px(0))));
    assert_eq!(offset(a), Some((px(10), px(5))));
    assert_eq!(offset(b), Some((px(13), px(9))));
    assert_eq!(offset(c), Some((px(1), px(100))));
}

#[test]
fn block_a_fragment_reached_twice_moves_twice() {
    let mut tree = FragmentTree::new();
    let root = tree.push(at(0, 0));
    let a = tree.push(at(10, 0));
    let shared = tree.push(at(1, 1));
    tree.set_children(root, &[a, shared]);
    tree.set_children(a, &[shared]);
    make_offsets_absolute(&mut tree);
    // Visited from the root (moving by nothing) and from `a` (moving by 10).
    assert_eq!(tree.get(shared).map(|f| f.inline_offset), Some(px(11)));
    assert_eq!(tree.get(a).map(|f| f.inline_offset), Some(px(10)));
}
