//! Block layout: the box-model arithmetic (margins, borders and padding,
//! the content width they leave, centring by `auto` margins, shrink-to-fit,
//! the collapsing of adjoining vertical margins), and the layout of a whole
//! styled document into a fragment tree. A box's width is resolved on the
//! way down, from its containing block; its height on the way up, from its
//! content, with its floats placed and its in-flow children stacked in
//! document order.
use vstd::prelude::*;
use crate::layout::fragment::{
    below, children_of, lemma_children_below, links_acyclic, rank, Fragment, FragmentId, FragmentTree, FragmentTreeView,
};
use crate::layout::geom::{clamp_au, trunc_div, Au, LogicalEdges, MAX_AU_VALUE, MIN_AU_VALUE};
use crate::layout::text::{width_of, width_without_trailing_spaces, words, words_of};
use crate::text_ops::trim_end_char;
use crate::layout::fragment::FragmentKind;
use crate::layout::geom::LogicalSize;
use crate::layout::float::{ClearSide, FloatContext, FloatSide};
use crate::layout::inline::{break_into_lines, layout_lines, InlineContext};
use crate::layout::styled::{
    clear_side, content_views, establishes_formatting_context, float_side, intrinsic_inline_size, is_block_level,
    item_size, items_below, lemma_partition_below, partition_content, partition_of, resolve_edges, size_of,
    size_of_all, Content, ContentView, DomKind, DomNode, MarginSide,
};

verus! {

/// The resolved margins, borders and padding of one box.
#[derive(Clone, Copy, Debug, PartialEq, Eq, Structural)]
pub struct Edges {
    /// The margins.
    pub margin: LogicalEdges,
    /// The border widths.
    pub border: LogicalEdges,
    /// The padding.
    pub padding: LogicalEdges,
}

/// The sum of the two inline sides of `e`, saturating.
pub open spec fn inline_sum_of(e: LogicalEdges) -> int {
    clamp_au(e.inline_start@ + e.inline_end@)
}

/// The sum of the two block sides of `e`, saturating.
pub open spec fn block_sum_of(e: LogicalEdges) -> int {
    clamp_au(e.block_start@ + e.block_end@)
}

/// Everything outside the content box of `e` along the inline axis.
pub open spec fn inline_surround_of(e: Edges) -> int {
    clamp_au(clamp_au(inline_sum_of(e.margin) + inline_sum_of(e.border)) + inline_sum_of(e.padding))
}

/// The border and padding of `e` along the block axis.
pub open spec fn block_surround_of(e: Edges) -> int {
    clamp_au(block_sum_of(e.border) + block_sum_of(e.padding))
}

impl Edges {
    /// No margin, border or padding, as an anonymous block box has.
    pub fn zero() -> (r: Edges)
        ensures
            r.margin.inline_start@ == 0 && r.margin.inline_end@ == 0,
            r.margin.block_start@ == 0 && r.margin.block_end@ == 0,
            r.border.inline_start@ == 0 && r.border.inline_end@ == 0,
            r.border.block_start@ == 0 && r.border.block_end@ == 0,
            r.padding.inline_start@ == 0 && r.padding.inline_end@ == 0,
            r.padding.block_start@ == 0 && r.padding.block_end@ == 0,
    {
        Edges { margin: LogicalEdges::zero(), border: LogicalEdges::zero(), padding: LogicalEdges::zero() }
    }

    /// Everything outside the content box along the inline axis: margins,
    /// borders and padding, saturating.
    pub fn inline_surround(&self) -> (r: Au)
        ensures
            r@ == inline_surround_of(*self),
    {
        self.margin.inline_sum().plus(self.border.inline_sum()).plus(self.padding.inline_sum())
    }

    /// Borders and padding along the block axis, saturating; the margins lie
    /// outside the border box the fragment records.
    pub fn block_surround(&self) -> (r: Au)
        ensures
            r@ == block_surround_of(*self),
    {
        self.border.block_sum().plus(self.padding.block_sum())
    }
}

/// Two adjoining vertical margins collapsed into one: the larger when both
/// are non-negative, the more negative when both are non-positive, and the
/// sum (saturating) when their signs differ.
pub open spec fn collapsed(a: int, b: int) -> int {
    if a >= 0 && b >= 0 {
        if a > b {
            a
        } else {
            b
        }
    } else if a <= 0 && b <= 0 {
        if a < b {
            a
        } else {
            b
        }
    } else {
        clamp_au(a + b)
    }
}

/// Collapses two adjoining vertical margins into one.
pub fn collapse(a: Au, b: Au) -> (r: Au)
    ensures
        r@ == collapsed(a@, b@),
{
    let (x, y) = (a.value(), b.value());
    if x >= 0 && y >= 0 {
        if x > y {
            a
        } else {
            b
        }
    } else if x <= 0 && y <= 0 {
        if x < y {
            a
        } else {
            b
        }
    } else {
        a.plus(b)
    }
}

/// Collapsing does not depend on which margin comes first.
pub proof fn lemma_collapse_commutes(a: Au, b: Au)
    ensures
        collapsed(a@, b@) == collapsed(b@, a@),
{
}

/// A margin collapsed with a zero margin is itself, for every margin in the
/// app-unit range.
pub proof fn lemma_collapse_with_zero(a: int)
    requires
        MIN_AU_VALUE <= a <= MAX_AU_VALUE,
    ensures
        collapsed(a, 0) == a,
        collapsed(0, a) == a,
{
}

/// A box's intrinsic inline sizes, border box included: the narrowest it can
/// be without its content overflowing, and the width it takes when nothing
/// wraps.
#[derive(Clone, Copy, Debug, PartialEq, Eq, Structural)]
pub struct Intrinsic {
    /// The preferred minimum width.
    pub min: Au,
    /// The preferred width.
    pub max: Au,
}

/// Shrink-to-fit: `min(max(preferred minimum, available), preferred)`.
pub open spec fn shrunk_to_fit(min: int, max: int, available: int) -> int {
    let lower = if min > available {
        min
    } else {
        available
    };
    if lower < max {
        lower
    } else {
        max
    }
}

/// The shrink-to-fit width of a box with `intrinsic` sizes in `available`.
pub fn shrink_to_fit(intrinsic: Intrinsic, available: Au) -> (r: Au)
    ensures
        r@ == shrunk_to_fit(intrinsic.min@, intrinsic.max@, available@),
{
    let lower = if intrinsic.min.value() > available.value() {
        intrinsic.min
    } else {
        available
    };
    if lower.value() < intrinsic.max.value() {
        lower
    } else {
        intrinsic.max
    }
}

/// Whether `v` is the width of the widest word of `text` at `font_size`,
/// trailing spaces excluded, or zero when `text` has no words.
pub open spec fn is_widest_word(text: Seq<char>, font_size: Au, v: int) -> bool {
    let ws = words_of(text);
    if ws.len() == 0 {
        v == 0
    } else {
        &&& exists|i: int| 0 <= i < ws.len() && v == width_of(#[trigger] trim_end_char(ws[i], ' ').len() as int, font_size)
        &&& forall|i: int| 0 <= i < ws.len() ==> width_of(#[trigger] trim_end_char(ws[i], ' ').len() as int, font_size) <= v
    }
}

/// The width of the widest word of `text` at `font_size`.
pub open spec fn widest_of(text: Seq<char>, font_size: Au) -> int {
    choose|v: int| is_widest_word(text, font_size, v)
}

/// There is one widest width.
pub proof fn lemma_widest_unique(text: Seq<char>, font_size: Au, a: int, b: int)
    requires
        is_widest_word(text, font_size, a),
        is_widest_word(text, font_size, b),
    ensures
        a == b,
{
    let ws = words_of(text);
    if ws.len() > 0 {
        let i = choose|i: int| 0 <= i < ws.len() && a == width_of(#[trigger] trim_end_char(ws[i], ' ').len() as int, font_size);
        let j = choose|j: int| 0 <= j < ws.len() && b == width_of(#[trigger] trim_end_char(ws[j], ' ').len() as int, font_size);
        assert(width_of(trim_end_char(ws[i], ' ').len() as int, font_size) <= b);
        assert(width_of(trim_end_char(ws[j], ' ').len() as int, font_size) <= a);
    }
}

/// The width of the widest word of `text`, without trailing spaces: the
/// narrowest a line of it can be.
pub fn widest_word(text: &str, font_size: Au) -> (r: Au)
    ensures
        is_widest_word(text@, font_size, r@),
        r@ == widest_of(text@, font_size),
{
    let ws = words(text, font_size);
    let ghost all = words_of(text@);
    let mut best: Option<Au> = None;
    let mut i: usize = 0;
    while i < ws.len()
        invariant
            ws@.len() == all.len(),
            all == words_of(text@),
            forall|j: int| 0 <= j < ws@.len() ==> (#[trigger] ws@[j]).0@ == all[j],
            i <= ws@.len(),
            match best {
                None => i == 0,
                Some(b) => {
                    &&& exists|j: int|
                        0 <= j < i && b@ == width_of(#[trigger] trim_end_char(all[j], ' ').len() as int, font_size)
                    &&& forall|j: int|
                        0 <= j < i ==> width_of(#[trigger] trim_end_char(all[j], ' ').len() as int, font_size) <= b@
                },
            },
        decreases ws@.len() - i,
    {
        let w = width_without_trailing_spaces(ws[i].0.as_str(), font_size);
        proof {
            assert(ws@[i as int].0@ == all[i as int]);
        }
        match best {
            None => {
                best = Some(w);
            },
            Some(b) => {
                if w.value() > b.value() {
                    best = Some(w);
                }
            },
        }
        i = i + 1;
    }
    let r = match best {
        None => Au::zero(),
        Some(b) => b,
    };
    proof {
        lemma_widest_unique(text@, font_size, r@, widest_of(text@, font_size));
    }
    r
}

/// What a box's `width` says, once any percentage in it has been resolved
/// against the containing block.
#[derive(Clone, Copy, Debug, PartialEq, Eq, Structural)]
pub enum InlineSize {
    /// `width: auto`.
    Auto,
    /// A length, already resolved.
    Used(Au),
    /// An intrinsic keyword, which is laid out as `auto`.
    Intrinsic,
}

/// The content-box inline size: what the containing block leaves after
/// margins, borders and padding for `auto`, the given width otherwise, and
/// never below zero.
pub open spec fn resolved_inline_size(width: InlineSize, containing: int, edges: Edges) -> int {
    let available = clamp_au(containing - inline_surround_of(edges));
    let available = if available < 0 {
        0
    } else {
        available
    };
    match width {
        InlineSize::Used(used) => if used@ < 0 {
            0
        } else {
            used@
        },
        _ => available,
    }
}

/// The content-box inline size of a box with `width` and `edges` in a
/// containing block `containing` wide.
pub fn resolve_inline_size(width: InlineSize, containing: Au, edges: &Edges) -> (r: Au)
    ensures
        r@ == resolved_inline_size(width, containing@, *edges),
{
    let available = containing.minus(edges.inline_surround());
    let available = if available.value() < 0 {
        Au::zero()
    } else {
        available
    };
    match width {
        InlineSize::Used(used) => if used.value() < 0 {
            Au::zero()
        } else {
            used
        },
        _ => available,
    }
}

/// The inline space a box of `content_inline` with `edges` leaves in a
/// containing block `containing` wide.
pub open spec fn leftover_of(containing: int, content_inline: int, edges: Edges) -> int {
    let used = clamp_au(clamp_au(content_inline + inline_sum_of(edges.border)) + inline_sum_of(edges.padding));
    clamp_au(clamp_au(containing - used) - inline_sum_of(edges.margin))
}

/// Shares the inline space a box leaves between its `auto` inline margins:
/// both halves (the start one rounded down) when both are `auto`, all of it
/// to the one that is. Nothing changes when the width is `auto`, when
/// neither margin is, or when no space is left.
pub fn centre_if_auto_margins(
    width_is_auto: bool,
    start_auto: bool,
    end_auto: bool,
    containing: Au,
    content_inline: Au,
    edges: &mut Edges,
)
    ensures
        final(edges).border == old(edges).border,
        final(edges).padding == old(edges).padding,
        final(edges).margin.block_start == old(edges).margin.block_start,
        final(edges).margin.block_end == old(edges).margin.block_end,
        ({
            let leftover = leftover_of(containing@, content_inline@, *old(edges));
            if width_is_auto || (!start_auto && !end_auto) || leftover <= 0 {
                final(edges).margin == old(edges).margin
            } else if start_auto && end_auto {
                final(edges).margin.inline_start@ == leftover / 2 && final(edges).margin.inline_end@ == leftover
                    - leftover / 2
            } else if start_auto {
                final(edges).margin.inline_start@ == leftover && final(edges).margin.inline_end
                    == old(edges).margin.inline_end
            } else {
                final(edges).margin.inline_end@ == leftover && final(edges).margin.inline_start
                    == old(edges).margin.inline_start
            }
        }),
{
    if width_is_auto {
        return;
    }
    if !start_auto && !end_auto {
        return;
    }
    let used = content_inline.plus(edges.border.inline_sum()).plus(edges.padding.inline_sum());
    let leftover = containing.minus(used).minus(edges.margin.inline_sum());
    if leftover.value() <= 0 {
        return;
    }
    if start_auto && end_auto {
        let half = leftover.divided_by(2);
        proof {
            assert(trunc_div(leftover@, 2) == leftover@ / 2);
        }
        edges.margin.inline_start = half;
        edges.margin.inline_end = leftover.minus(half);
    } else if start_auto {
        edges.margin.inline_start = leftover;
    } else {
        edges.margin.inline_end = leftover;
    }
}


/// The offsets of the fragments of `t`, inline then block.
pub open spec fn offsets_of(t: FragmentTreeView) -> Seq<(int, int)> {
    t.fragments.map_values(|f: Fragment| (f.inline_offset@, f.block_offset@))
}

/// Whether two fragments differ at most in their offsets.
pub open spec fn same_but_offsets(a: Fragment, b: Fragment) -> bool {
    a.kind == b.kind && a.size == b.size && a.first_child == b.first_child && a.child_count == b.child_count
}

/// The offsets `offs` of the fragments of `t` after fragment `id` is
/// visited with the base `(bi, bb)`: its offset moves by the base,
/// saturating, and its children are then visited with its new offset as
/// their base, the last child first. An id not in the tree changes nothing.
pub open spec fn shifted_from(t: FragmentTreeView, offs: Seq<(int, int)>, id: FragmentId, bi: int, bb: int) -> Seq<
    (int, int),
>
    decreases rank(t, id@), 1int, 0int,
{
    if 0 <= id@ < t.fragments.len() && 0 <= id@ < offs.len() {
        let n = (clamp_au(offs[id@].0 + bi), clamp_au(offs[id@].1 + bb));
        shifted_forest(t, offs.update(id@, n), children_of(t, id@), n.0, n.1, id@)
    } else {
        offs
    }
}

/// The offsets after each of `kids`, children of `parent`, is visited with
/// the base `(bi, bb)`, the last first.
pub open spec fn shifted_forest(
    t: FragmentTreeView,
    offs: Seq<(int, int)>,
    kids: Seq<FragmentId>,
    bi: int,
    bb: int,
    parent: int,
) -> Seq<(int, int)>
    decreases rank(t, parent), 0int, kids.len(),
    when below(t, kids, parent)
{
    if kids.len() == 0 {
        offs
    } else {
        shifted_forest(t, shifted_from(t, offs, kids.last(), bi, bb), kids.drop_last(), bi, bb, parent)
    }
}

/// The offsets after the visits still on a stack are made, the top first.
pub open spec fn shifted_stack(t: FragmentTreeView, offs: Seq<(int, int)>, stack: Seq<(FragmentId, Au, Au)>) -> Seq<
    (int, int),
>
    decreases stack.len(),
{
    if stack.len() == 0 {
        offs
    } else {
        shifted_stack(t, shifted_from(t, offs, stack.last().0, stack.last().1@, stack.last().2@), stack.drop_last())
    }
}

/// How many visits fragment `id` and what lies below it take.
pub open spec fn visits_from(t: FragmentTreeView, id: FragmentId) -> nat
    decreases rank(t, id@), 1int, 0int,
{
    if 0 <= id@ < t.fragments.len() {
        1 + visits_forest(t, children_of(t, id@), id@)
    } else {
        1
    }
}

/// How many visits `kids`, children of `parent`, and what lies below them
/// take.
pub open spec fn visits_forest(t: FragmentTreeView, kids: Seq<FragmentId>, parent: int) -> nat
    decreases rank(t, parent), 0int, kids.len(),
    when below(t, kids, parent)
{
    if kids.len() == 0 {
        0
    } else {
        visits_forest(t, kids.drop_last(), parent) + visits_from(t, kids.last())
    }
}

/// How many visits a stack of pending visits takes.
pub open spec fn visits_stack(t: FragmentTreeView, stack: Seq<(FragmentId, Au, Au)>) -> nat
    decreases stack.len(),
{
    if stack.len() == 0 {
        0
    } else {
        visits_from(t, stack.last().0) + visits_stack(t, stack.drop_last())
    }
}

/// Two trees with the same child lists and the same fragments but for
/// their offsets have the same children everywhere.
proof fn lemma_same_children(a: FragmentTreeView, b: FragmentTreeView)
    requires
        a.children == b.children,
        a.fragments.len() == b.fragments.len(),
        forall|i: int| 0 <= i < a.fragments.len() ==> same_but_offsets(#[trigger] a.fragments[i], b.fragments[i]),
    ensures
        forall|i: int| #[trigger] children_of(a, i) == children_of(b, i),
{
    assert forall|i: int| #[trigger] children_of(a, i) == children_of(b, i) by {
        if 0 <= i < a.fragments.len() {
            assert(same_but_offsets(a.fragments[i], b.fragments[i]));
        }
    }
}

/// A prefix of a forest, split before its last child.
proof fn lemma_forest_prefix(kids: Seq<FragmentId>, j: int, t: FragmentTreeView, parent: int)
    requires
        below(t, kids, parent),
        0 <= j < kids.len(),
    ensures
        below(t, kids.take(j + 1), parent),
        below(t, kids.take(j), parent),
        kids.take(j + 1).drop_last() == kids.take(j),
        kids.take(j + 1).last() == kids[j],
{
    assert(kids.take(j + 1).drop_last() =~= kids.take(j));
    assert forall|k: int| 0 <= k < kids.take(j + 1).len() implies rank(t, #[trigger] kids.take(j + 1)[k]@) < rank(t, parent) by {
        assert(kids.take(j + 1)[k] == kids[k]);
    }
    assert forall|k: int| 0 <= k < kids.take(j).len() implies rank(t, #[trigger] kids.take(j)[k]@) < rank(t, parent) by {
        assert(kids.take(j)[k] == kids[k]);
    }
}

/// Turns the offsets of a laid-out tree from parent-relative into offsets
/// from the tree's origin: each fragment, from the root down, moves by its
/// parent's already-absolute offset. A fragment reached along two paths
/// moves once for each. Walked with an explicit stack.
pub fn make_offsets_absolute(tree: &mut FragmentTree)
    requires
        links_acyclic(old(tree)@),
    ensures
        final(tree)@.children == old(tree)@.children,
        final(tree)@.root == old(tree)@.root,
        final(tree)@.fragments.len() == old(tree)@.fragments.len(),
        forall|i: int|
            0 <= i < old(tree)@.fragments.len() ==> same_but_offsets(
                #[trigger] final(tree)@.fragments[i],
                old(tree)@.fragments[i],
            ),
        offsets_of(final(tree)@) == match old(tree)@.root {
            None => offsets_of(old(tree)@),
            Some(root) => shifted_from(old(tree)@, offsets_of(old(tree)@), root, 0, 0),
        },
{
    let ghost t = tree@;
    let root = match tree.root() {
        None => {
            return;
        },
        Some(r) => r,
    };
    let ghost goal = shifted_from(t, offsets_of(t), root, 0, 0);
    let origin = Au::zero();
    let mut stack: Vec<(FragmentId, Au, Au)> = vec![(root, origin, origin)];
    proof {
        assert(stack@.drop_last() =~= Seq::<(FragmentId, Au, Au)>::empty());
        assert(stack@.last() == (root, origin, origin));
        assert(shifted_stack(t, goal, stack@.drop_last()) == goal);
        assert(shifted_stack(t, offsets_of(tree@), stack@) == goal);
    }
    while stack.len() > 0
        invariant
            links_acyclic(t),
            tree@.children == t.children,
            tree@.root == t.root,
            tree@.fragments.len() == t.fragments.len(),
            forall|i: int| 0 <= i < t.fragments.len() ==> same_but_offsets(#[trigger] tree@.fragments[i], t.fragments[i]),
            shifted_stack(t, offsets_of(tree@), stack@) == goal,
        decreases visits_stack(t, stack@),
    {
        let ghost before = stack@;
        let ghost offs = offsets_of(tree@);
        let (id, base_inline, base_block) = stack.pop().unwrap();
        let ghost rest = stack@;
        proof {
            assert(rest =~= before.drop_last());
            assert(before.last() == (id, base_inline, base_block));
            lemma_same_children(tree@, t);
            lemma_children_below(t, id@);
            id.lemma_in_range();
        }
        let current = match tree.get(id) {
            None => None,
            Some(f) => Some(*f),
        };
        match current {
            None => {
                proof {
                    assert(!(0 <= id@ < t.fragments.len()));
                    assert(shifted_from(t, offs, id, base_inline@, base_block@) == offs);
                }
            },
            Some(f) => {
                let inline = f.inline_offset.plus(base_inline);
                let block = f.block_offset.plus(base_block);
                let updated = Fragment { inline_offset: inline, block_offset: block, ..f };
                let ghost mid = tree@;
                proof {
                    assert(0 <= id@ < mid.fragments.len());
                    assert(f == mid.fragments[id@]);
                }
                match tree.get_mut(id) {
                    Some(slot) => {
                        *slot = updated;
                    },
                    None => {},
                }
                proof {
                    assert(tree@.fragments == mid.fragments.update(id@, updated));
                    assert(tree@.children == mid.children);
                }
                let ghost n = (inline@, block@);
                let ghost o2 = offs.update(id@, n);
                proof {
                    assert(tree@.fragments =~= mid.fragments.update(id@, updated));
                    assert forall|i: int| 0 <= i < o2.len() implies #[trigger] offsets_of(tree@)[i] == o2[i] by {
                        if i == id@ {
                            assert(tree@.fragments[i] == updated);
                        } else {
                            assert(tree@.fragments[i] == mid.fragments[i]);
                        }
                    }
                    assert(offsets_of(tree@) =~= o2);
                    assert forall|i: int| 0 <= i < t.fragments.len() implies same_but_offsets(
                        #[trigger] tree@.fragments[i],
                        t.fragments[i],
                    ) by {
                        if i != id@ {
                            assert(tree@.fragments[i] == mid.fragments[i]);
                        }
                    }
                    assert(shifted_from(t, offs, id, base_inline@, base_block@) == shifted_forest(
                        t,
                        o2,
                        children_of(t, id@),
                        inline@,
                        block@,
                        id@,
                    ));
                    lemma_same_children(tree@, t);
                }
                let kids = tree.children(id);
                let ghost ks = kids@;
                let mut j: usize = 0;
                proof {
                    assert(ks == children_of(t, id@));
                    assert(ks.take(0) =~= Seq::<FragmentId>::empty());
                    assert forall|o: Seq<(int, int)>| #[trigger] shifted_stack(t, o, stack@) == shifted_stack(
                        t,
                        shifted_forest(t, o, ks.take(0), inline@, block@, id@),
                        rest,
                    ) by {
                        assert(shifted_forest(t, o, ks.take(0), inline@, block@, id@) == o);
                    }
                }
                while j < kids.len()
                    invariant
                        links_acyclic(t),
                        ks == kids@,
                        ks == children_of(t, id@),
                        below(t, ks, id@),
                        j <= ks.len(),
                        offsets_of(tree@) == o2,
                        forall|o: Seq<(int, int)>|
                            #[trigger] shifted_stack(t, o, stack@) == shifted_stack(
                                t,
                                shifted_forest(t, o, ks.take(j as int), inline@, block@, id@),
                                rest,
                            ),
                        visits_stack(t, stack@) == visits_forest(t, ks.take(j as int), id@) + visits_stack(t, rest),
                    decreases ks.len() - j,
                {
                    let ghost prev = stack@;
                    proof {
                        lemma_forest_prefix(ks, j as int, t, id@);
                    }
                    stack.push((kids[j], inline, block));
                    proof {
                        assert(stack@.drop_last() =~= prev);
                        assert(stack@.last() == (ks[j as int], inline, block));
                        assert forall|o: Seq<(int, int)>| #[trigger] shifted_stack(t, o, stack@) == shifted_stack(
                            t,
                            shifted_forest(t, o, ks.take(j + 1), inline@, block@, id@),
                            rest,
                        ) by {
                            let o1 = shifted_from(t, o, ks[j as int], inline@, block@);
                            assert(shifted_stack(t, o, stack@) == shifted_stack(t, o1, prev));
                            assert(shifted_stack(t, o1, prev) == shifted_stack(
                                t,
                                shifted_forest(t, o1, ks.take(j as int), inline@, block@, id@),
                                rest,
                            ));
                        }
                    }
                    j += 1;
                }
                proof {
                    assert(ks.take(ks.len() as int) =~= ks);
                }
            },
        }
    }
    proof {
        assert(shifted_stack(t, offsets_of(tree@), stack@) == offsets_of(tree@));
    }
}


/// Whether `node`'s subtree holds an element.
pub open spec fn has_element(node: DomNode) -> bool
    decreases node,
{
    node.kind is Element || has_element_in(node.children@)
}

/// Whether some of the subtrees `nodes` holds an element.
pub open spec fn has_element_in(nodes: Seq<DomNode>) -> bool
    decreases nodes,
{
    nodes.len() > 0 && (has_element(nodes[0]) || has_element_in(nodes.drop_first()))
}

/// Whether `node`'s subtree holds an element: the document has a root
/// element to lay out.
fn contains_element(node: &DomNode) -> (r: bool)
    ensures
        r == has_element(*node),
    decreases size_of(*node),
{
    if let DomKind::Element(_) = &node.kind {
        assert(node.kind is Element);
        return true;
    }
    assert(has_element(*node) == has_element_in(node.children@));
    let kids = &node.children;
    let ghost ks = kids@;
    let mut i: usize = 0;
    assert(ks.skip(0) =~= ks);
    while i < kids.len()
        invariant
            ks == kids@,
            i <= ks.len(),
            size_of(*node) == 1 + size_of_all(ks),
            has_element_in(ks) == has_element_in(ks.skip(i as int)),
            has_element(*node) == has_element_in(ks),
            size_of_all(ks.skip(i as int)) <= size_of_all(ks),
        decreases ks.len() - i,
    {
        proof {
            let rest = ks.skip(i as int);
            assert(rest.drop_first() =~= ks.skip(i + 1));
            assert(rest[0] == ks[i as int]);
            assert(size_of_all(rest) == size_of(ks[i as int]) + size_of_all(ks.skip(i + 1)));
            assert(has_element_in(rest) == (has_element(ks[i as int]) || has_element_in(ks.skip(i + 1))));
        }
        if contains_element(&kids[i]) {
            return true;
        }
        i += 1;
    }
    assert(ks.skip(i as int).len() == 0);
    false
}

/// Whether every fragment of `t` has its run inside the child list, and
/// children only after itself: a tree built top-down, each box pushed before
/// what it holds.
pub open spec fn grows_down(t: FragmentTreeView) -> bool {
    &&& forall|i: int|
        0 <= i < t.fragments.len() ==> (#[trigger] t.fragments[i]).children_run().0 + t.fragments[i].children_run().1
            <= t.children.len()
    &&& forall|i: int, k: int|
        0 <= i < t.fragments.len() && 0 <= k < children_of(t, i).len() ==> #[trigger] children_of(t, i)[k]@ > i
}

/// Appending childless fragments, and changing fragments without changing
/// their runs, keeps a tree growing down.
proof fn lemma_grows_extend(t: FragmentTreeView, u: FragmentTreeView)
    requires
        grows_down(t),
        u.children == t.children,
        u.fragments.len() >= t.fragments.len(),
        forall|i: int| 0 <= i < t.fragments.len() ==> (#[trigger] u.fragments[i]).children_run() == t.fragments[i].children_run(),
        forall|i: int| t.fragments.len() <= i < u.fragments.len() ==> (#[trigger] u.fragments[i]).children_run() == (0int, 0int),
    ensures
        grows_down(u),
{
    assert forall|i: int| 0 <= i < u.fragments.len() implies (#[trigger] u.fragments[i]).children_run().0
        + u.fragments[i].children_run().1 <= u.children.len() by {
        if i < t.fragments.len() {
            assert(t.fragments[i].children_run() == u.fragments[i].children_run());
        }
    }
    assert forall|i: int, k: int| 0 <= i < u.fragments.len() && 0 <= k < children_of(u, i).len() implies #[trigger] children_of(
        u,
        i,
    )[k]@ > i by {
        if i < t.fragments.len() {
            assert(children_of(u, i) == children_of(t, i));
        }
    }
}

/// Giving `parent` children that all come after it keeps a tree growing
/// down.
proof fn lemma_grows_set_children(t: FragmentTreeView, u: FragmentTreeView, parent: int, kids: Seq<FragmentId>)
    requires
        grows_down(t),
        0 <= parent < t.fragments.len(),
        t.children.len() + kids.len() <= u32::MAX,
        forall|k: int| 0 <= k < kids.len() ==> #[trigger] kids[k]@ > parent,
        u.children == t.children + kids,
        u.fragments == t.fragments.update(parent, t.fragments[parent].with_run(t.children.len() as int, kids.len() as int)),
    ensures
        grows_down(u),
{
    assert forall|i: int| 0 <= i < u.fragments.len() implies (#[trigger] u.fragments[i]).children_run().0
        + u.fragments[i].children_run().1 <= u.children.len() by {
        if i != parent {
            assert(u.fragments[i] == t.fragments[i]);
        }
    }
    assert forall|i: int, k: int| 0 <= i < u.fragments.len() && 0 <= k < children_of(u, i).len() implies #[trigger] children_of(
        u,
        i,
    )[k]@ > i by {
        if i == parent {
            assert(children_of(u, i) =~= kids);
        } else {
            assert(u.fragments[i] == t.fragments[i]);
            let (start, count) = t.fragments[i].children_run();
            assert(u.children.subrange(start, start + count) =~= t.children.subrange(start, start + count));
            assert(children_of(u, i) == children_of(t, i));
        }
    }
}

/// A tree that grows down has no cycle: numbering fragments by their place
/// puts every child after its parent.
proof fn lemma_grows_acyclic(t: FragmentTreeView)
    requires
        grows_down(t),
    ensures
        links_acyclic(t),
{
    let order = |i: int| i;
    assert(crate::layout::fragment::orders_children(t, order));
}

/// Room left in a tree before its fragment or child ids run out.
const ROOM: usize = 4294967000;

/// Inline content waiting to be laid out as lines: its text, the metrics it
/// is measured with, and the content slot it sits at.
struct PendingRun {
    text: String,
    font_size: Au,
    line_height: Au,
    slot: usize,
}

/// A box laid out for its container: its fragment, the margins around it,
/// and how it takes part in its container's flow.
struct Placed {
    id: FragmentId,
    margin: LogicalEdges,
    float: Option<FloatSide>,
    clear: Option<ClearSide>,
}

/// What fills one slot of a container's content.
enum Slot {
    /// Nothing: a child that generated no box, or a run held directly.
    Empty,
    /// A block-level or floated box.
    Boxed(Placed),
    /// An anonymous block around a run, laid out when its slot comes round.
    Anonymous(FragmentId, PendingRun),
}

/// Whether every fragment a slot names comes after `parent`.
spec fn slot_after(s: Slot, parent: int) -> bool {
    match s {
        Slot::Empty => true,
        Slot::Boxed(p) => p.id@ > parent,
        Slot::Anonymous(id, _) => id@ > parent,
    }
}

/// Whether every fragment a slot names is below `len`.
spec fn slot_within(s: Slot, len: int) -> bool {
    match s {
        Slot::Empty => true,
        Slot::Boxed(p) => p.id@ < len,
        Slot::Anonymous(id, _) => id@ < len,
    }
}

/// The larger of two lengths.
fn later(a: Au, b: Au) -> (r: Au)
    ensures
        r@ == if b@ > a@ { b@ } else { a@ },
{
    if b.value() > a.value() {
        b
    } else {
        a
    }
}

/// What the tree-shaping calls of layout keep: the tree grows down, keeps
/// its root, and only gains fragments.
spec fn keeps(a: FragmentTreeView, b: FragmentTreeView) -> bool {
    &&& grows_down(b)
    &&& b.root == a.root
    &&& b.fragments.len() >= a.fragments.len()
}

/// Move fragment `id` to the given offsets; nothing else changes.
fn set_offsets(tree: &mut FragmentTree, id: FragmentId, inline: Au, block: Au)
    requires
        grows_down(old(tree)@),
    ensures
        keeps(old(tree)@, final(tree)@),
        final(tree)@.fragments.len() == old(tree)@.fragments.len(),
        forall|i: int| 0 <= i < old(tree)@.fragments.len() && i != id@ ==> #[trigger] final(tree)@.fragments[i] == old(tree)@.fragments[i],
        id@ < old(tree)@.fragments.len() ==> final(tree)@.fragments[id@].size == old(tree)@.fragments[id@].size,
{
    let ghost t = tree@;
    proof {
        id.lemma_in_range();
    }
    let current = match tree.get(id) {
        None => None,
        Some(f) => Some(*f),
    };
    match current {
        None => {},
        Some(f) => {
            let updated = Fragment { inline_offset: inline, block_offset: block, ..f };
            let ghost mid = tree@;
            proof {
                assert(mid == t);
                assert(0 <= id@ < mid.fragments.len());
                assert(f == mid.fragments[id@]);
            }
            match tree.get_mut(id) {
                Some(slot) => {
                    *slot = updated;
                },
                None => {},
            }
            proof {
                assert(tree@.fragments == mid.fragments.update(id@, updated));
                assert(tree@.children == mid.children);
                assert(tree@.root == mid.root);
            }
        },
    }
    proof {
        lemma_grows_extend(t, tree@);
    }
}

/// Set fragment `id`'s block size; nothing else changes.
fn set_block_size(tree: &mut FragmentTree, id: FragmentId, block: Au)
    requires
        grows_down(old(tree)@),
    ensures
        keeps(old(tree)@, final(tree)@),
        final(tree)@.fragments.len() == old(tree)@.fragments.len(),
        forall|i: int| 0 <= i < old(tree)@.fragments.len() && i != id@ ==> #[trigger] final(tree)@.fragments[i] == old(tree)@.fragments[i],
        id@ < old(tree)@.fragments.len() ==> final(tree)@.fragments[id@].size.inline == old(tree)@.fragments[id@].size.inline
            && final(tree)@.fragments[id@].kind == old(tree)@.fragments[id@].kind,
{
    let ghost t = tree@;
    proof {
        id.lemma_in_range();
    }
    let current = match tree.get(id) {
        None => None,
        Some(f) => Some(*f),
    };
    match current {
        None => {},
        Some(f) => {
            let updated = Fragment { size: LogicalSize { inline: f.size.inline, block }, ..f };
            let ghost mid = tree@;
            proof {
                assert(mid == t);
                assert(0 <= id@ < mid.fragments.len());
                assert(f == mid.fragments[id@]);
            }
            match tree.get_mut(id) {
                Some(slot) => {
                    *slot = updated;
                },
                None => {},
            }
            proof {
                assert(tree@.fragments == mid.fragments.update(id@, updated));
                assert(tree@.children == mid.children);
                assert(tree@.root == mid.root);
            }
        },
    }
    proof {
        lemma_grows_extend(t, tree@);
    }
}

/// Push a fragment of `kind` and `size`, if there is room for it.
fn push_fragment(tree: &mut FragmentTree, kind: FragmentKind, size: LogicalSize) -> (r: Option<FragmentId>)
    requires
        grows_down(old(tree)@),
    ensures
        keeps(old(tree)@, final(tree)@) || (old(tree)@.root is None && grows_down(final(tree)@)),
        old(tree)@.root is Some ==> final(tree)@.root == old(tree)@.root,
        old(tree)@.root is None && r is Some ==> final(tree)@.root == r,
        final(tree)@.fragments.take(old(tree)@.fragments.len() as int) == old(tree)@.fragments,
        r is None ==> final(tree)@ == old(tree)@,
        old(tree)@.fragments.len() < ROOM ==> r is Some,
        r matches Some(id) ==> id@ == old(tree)@.fragments.len() && final(tree)@.fragments.len() == id@ + 1
            && final(tree)@.fragments[id@].kind == kind && final(tree)@.fragments[id@].size == size,
        final(tree)@.fragments.len() >= old(tree)@.fragments.len(),
{
    if tree.len() >= ROOM {
        return None;
    }
    let ghost t = tree@;
    let fragment = Fragment::new(kind, size);
    let id = tree.push(fragment);
    proof {
        assert(tree@.fragments[t.fragments.len() as int] == fragment);
        lemma_grows_extend(t, tree@);
        assert(tree@.fragments.take(t.fragments.len() as int) =~= t.fragments);
    }
    Some(id)
}

/// Lay the text of `context` out as lines beside the floats already
/// placed: each line is broken greedily to the band the floats leave at
/// its height (`block_origin` down, then a line height more for each line
/// before it) and starts at that band's start. A word wider than its band
/// still gets a line of its own. The line ids, and the block size the
/// lines take; `None` when the tree has no room for them.
fn lines_around(tree: &mut FragmentTree, context: &InlineContext, floats: &FloatContext, block_origin: Au) -> (r:
    Option<(Vec<FragmentId>, Au)>)
    requires
        grows_down(old(tree)@),
        old(tree)@.root is Some,
    ensures
        keeps(old(tree)@, final(tree)@),
        final(tree)@.root is Some,
        final(tree)@.fragments.take(old(tree)@.fragments.len() as int) == old(tree)@.fragments,
        r matches Some((ids, _)) ==> forall|k: int| 0 <= k < ids@.len() ==> #[trigger] ids@[k]@ >= old(tree)@.fragments.len(),
{
    let ghost t0 = tree@;
    let ws = words(context.text, context.font_size);
    let n = ws.len();
    if tree.len() >= ROOM || n >= ROOM - tree.len() {
        return None;
    }
    let line_height = context.line_height;
    let mut lines: Vec<FragmentId> = Vec::new();
    let mut cursor = Au::zero();
    let top = block_origin.plus(cursor);
    let (mut start, mut end) = floats.band(top, top.plus(line_height), context.available);
    let mut current = Au::zero();
    let mut current_trimmed = Au::zero();
    let mut has_content = false;
    let mut i: usize = 0;
    while i < n
        invariant
            n == ws@.len(),
            i <= n,
            t0.fragments.len() + n < ROOM,
            lines@.len() + (if has_content { 1int } else { 0int }) <= i,
            tree@.fragments.len() == t0.fragments.len() + lines@.len(),
            keeps(t0, tree@),
            t0 == old(tree)@,
            tree@.root is Some,
            tree@.fragments.take(t0.fragments.len() as int) == t0.fragments,
            forall|k: int| 0 <= k < lines@.len() ==> #[trigger] lines@[k]@ >= t0.fragments.len(),
        decreases n - i,
    {
        let width = ws[i].1;
        let trimmed = width_without_trailing_spaces(ws[i].0.as_str(), context.font_size);
        if has_content && current.plus(trimmed).value() > end.minus(start).value() {
            match push_line(tree, &mut lines, current_trimmed, line_height, start, cursor, Ghost(t0)) {
                Some(()) => {},
                None => {
                    return None;
                },
            }
            cursor = cursor.plus(line_height);
            let top = block_origin.plus(cursor);
            let band = floats.band(top, top.plus(line_height), context.available);
            start = band.0;
            end = band.1;
            current = width;
            current_trimmed = trimmed;
        } else {
            current = current.plus(width);
            current_trimmed = current.minus(width.minus(trimmed));
            if trimmed.value() > 0 {
                has_content = true;
            }
        }
        i += 1;
    }
    if has_content {
        match push_line(tree, &mut lines, current_trimmed, line_height, start, cursor, Ghost(t0)) {
            Some(()) => {},
            None => {
                return None;
            },
        }
        cursor = cursor.plus(line_height);
    }
    Some((lines, cursor))
}

/// Push one line fragment, `width` by `line_height`, at the given offsets,
/// and note its id in `lines`.
fn push_line(
    tree: &mut FragmentTree,
    lines: &mut Vec<FragmentId>,
    width: Au,
    line_height: Au,
    inline: Au,
    block: Au,
    Ghost(t0): Ghost<FragmentTreeView>,
) -> (r: Option<()>)
    requires
        grows_down(old(tree)@),
        keeps(t0, old(tree)@),
        old(tree)@.root is Some,
        old(tree)@.fragments.take(t0.fragments.len() as int) == t0.fragments,
        forall|k: int| 0 <= k < old(lines)@.len() ==> #[trigger] old(lines)@[k]@ >= t0.fragments.len(),
    ensures
        keeps(t0, final(tree)@),
        final(tree)@.root is Some,
        final(tree)@.fragments.take(t0.fragments.len() as int) == t0.fragments,
        forall|k: int| 0 <= k < final(lines)@.len() ==> #[trigger] final(lines)@[k]@ >= t0.fragments.len(),
        r is Some ==> final(tree)@.fragments.len() == old(tree)@.fragments.len() + 1 && final(lines)@.len() == old(
            lines,
        )@.len() + 1,
        r is None ==> final(tree)@ == old(tree)@ && final(lines)@ == old(lines)@,
{
    let ghost t1 = tree@;
    let id = match push_fragment(tree, FragmentKind::Line, LogicalSize::new(width, line_height)) {
        Some(id) => id,
        None => {
            return None;
        },
    };
    let ghost t2 = tree@;
    set_offsets(tree, id, inline, block);
    let ghost l0 = lines@;
    lines.push(id);
    proof {
        assert forall|k: int| 0 <= k < lines@.len() implies #[trigger] lines@[k]@ >= t0.fragments.len() by {
            if k < l0.len() {
                assert(lines@[k] == l0[k]);
            }
        }
        assert forall|j: int| 0 <= j < t0.fragments.len() implies tree@.fragments[j] == t0.fragments[j] by {
            assert(t1.fragments.take(t0.fragments.len() as int)[j] == t1.fragments[j]);
            assert(t2.fragments.take(t1.fragments.len() as int)[j] == t2.fragments[j]);
        }
        assert(tree@.fragments.take(t0.fragments.len() as int) =~= t0.fragments);
    }
    Some(())
}

/// Lay `run` out as lines pushed onto `tree` and appended to `into`, moved
/// into the container's content box by the given start offsets; the block
/// size they take, or `None` when the tree has no room for them. Lines are
/// not shortened by floats.
fn place_run(
    tree: &mut FragmentTree,
    into: &mut Vec<FragmentId>,
    run: &PendingRun,
    available: Au,
    content_inline_start: Au,
    content_block_start: Au,
    floats: &FloatContext,
    block_origin: Au,
    Ghost(parent): Ghost<int>,
) -> (r: Option<Au>)
    requires
        grows_down(old(tree)@),
        old(tree)@.root is Some,
        0 <= parent < old(tree)@.fragments.len(),
        forall|k: int| 0 <= k < old(into)@.len() ==> #[trigger] old(into)@[k]@ > parent,
    ensures
        keeps(old(tree)@, final(tree)@),
        final(tree)@.fragments.take(old(tree)@.fragments.len() as int) == old(tree)@.fragments,
        forall|k: int| 0 <= k < final(into)@.len() ==> #[trigger] final(into)@[k]@ > parent,
{
    let context = InlineContext {
        text: run.text.as_str(),
        font_size: run.font_size,
        line_height: run.line_height,
        available,
    };
    let ghost t = tree@;
    let (lines, height) = if floats.is_empty() {
        let widths = break_into_lines(&context);
        if tree.len() >= ROOM || widths.len() >= ROOM - tree.len() {
            return None;
        }
        let (lines, height) = layout_lines(tree, &context);
        proof {
            assert forall|i: int| t.fragments.len() <= i < tree@.fragments.len() implies (#[trigger] tree@.fragments[i]).children_run()
                == (0int, 0int) by {
                let j = i - t.fragments.len();
                assert(lines@[j]@ == t.fragments.len() + j);
            }
            assert forall|i: int| 0 <= i < t.fragments.len() implies (#[trigger] tree@.fragments[i]).children_run()
                == t.fragments[i].children_run() by {
                assert(tree@.fragments.take(t.fragments.len() as int)[i] == tree@.fragments[i]);
            }
            lemma_grows_extend(t, tree@);
            assert forall|i: int| 0 <= i < lines@.len() implies (#[trigger] lines@[i])@ >= t.fragments.len() by {
                assert(lines@[i]@ == t.fragments.len() + i);
            }
        }
        (lines, height)
    } else {
        match lines_around(tree, &context, floats, block_origin) {
            Some(p) => p,
            None => {
                return None;
            },
        }
    };
    proof {
        assert forall|i: int| 0 <= i < t.fragments.len() implies #[trigger] tree@.fragments[i] == t.fragments[i] by {
            assert(tree@.fragments.take(t.fragments.len() as int)[i] == tree@.fragments[i]);
        }
    }
    let mut k: usize = 0;
    while k < lines.len()
        invariant
            k <= lines@.len(),
            keeps(t, tree@),
            forall|i: int| 0 <= i < t.fragments.len() ==> #[trigger] tree@.fragments[i] == t.fragments[i],
            forall|i: int| 0 <= i < lines@.len() ==> (#[trigger] lines@[i])@ >= t.fragments.len(),
            t.fragments.len() > parent,
            forall|j: int| 0 <= j < into@.len() ==> #[trigger] into@[j]@ > parent,
        decreases lines@.len() - k,
    {
        let id = lines[k];
        let (inline, block) = match tree.get(id) {
            Some(f) => (f.inline_offset.plus(content_inline_start), f.block_offset.plus(content_block_start)),
            None => (content_inline_start, content_block_start),
        };
        let ghost before = tree@;
        set_offsets(tree, id, inline, block);
        let ghost into0 = into@;
        into.push(id);
        proof {
            assert(into@[into@.len() - 1] == id);
            assert forall|j: int| 0 <= j < into@.len() implies #[trigger] into@[j]@ > parent by {
                if j < into0.len() {
                    assert(into@[j] == into0[j]);
                }
            }
        }
        k += 1;
    }
    proof {
        assert(tree@.fragments.take(t.fragments.len() as int) =~= t.fragments);
    }
    Some(height)
}

/// Lay out the box `node` generates in a containing block `containing`
/// wide: its fragment and everything inside it. `Some(None)` for a node
/// that generates no box; `None` when the tree has no room.
fn lay_out_box(tree: &mut FragmentTree, node: &DomNode, containing: Au) -> (r: Option<Option<Placed>>)
    requires
        grows_down(old(tree)@),
        old(tree)@.root is Some,
    ensures
        keeps(old(tree)@, final(tree)@),
        final(tree)@.fragments.take(old(tree)@.fragments.len() as int) == old(tree)@.fragments,
        r matches Some(Some(p)) ==> p.id@ >= old(tree)@.fragments.len() && p.id@ < final(tree)@.fragments.len(),
    decreases size_of(*node), 1int,
{
    let style = match &node.kind {
        DomKind::Element(Some(s)) => s,
        _ => {
            return Some(None);
        },
    };
    if !is_block_level(style) {
        return Some(None);
    }
    let mut resolved = resolve_edges(style);
    let side = float_side(style);
    let content_inline = match (side, style.definite_width) {
        (Some(_), None) => {
            let available = later(Au::zero(), containing.minus(resolved.inline_surround()));
            let intrinsic = intrinsic_inline_size(node);
            let surround = resolved.border.inline_sum().plus(resolved.padding.inline_sum());
            shrink_to_fit(
                Intrinsic {
                    min: later(Au::zero(), intrinsic.min.minus(surround)),
                    max: later(Au::zero(), intrinsic.max.minus(surround)),
                },
                available,
            )
        },
        (_, Some(w)) => resolve_inline_size(InlineSize::Used(w), containing, &resolved),
        (None, None) => resolve_inline_size(InlineSize::Auto, containing, &resolved),
    };
    if side.is_none() {
        let start_auto = match style.margin.inline_start {
            MarginSide::Auto => true,
            _ => false,
        };
        let end_auto = match style.margin.inline_end {
            MarginSide::Auto => true,
            _ => false,
        };
        centre_if_auto_margins(style.definite_width.is_none(), start_auto, end_auto, containing, content_inline, &mut resolved);
    }
    let width = content_inline.plus(resolved.border.inline_sum()).plus(resolved.padding.inline_sum());
    let ghost t0 = tree@;
    let id = match push_fragment(tree, FragmentKind::Block, LogicalSize::new(width, Au::zero())) {
        Some(id) => id,
        None => {
            return None;
        },
    };
    let ghost t1 = tree@;
    match lay_out_content(
        tree,
        id,
        node,
        content_inline,
        &resolved,
        establishes_formatting_context(style),
        style.definite_height,
        style.font_size,
        style.line_height,
    ) {
        Some(()) => {},
        None => {
            return None;
        },
    }
    proof {
        assert forall|i: int| 0 <= i < t0.fragments.len() implies tree@.fragments[i] == t0.fragments[i] by {
            assert(t1.fragments[i] == t0.fragments[i]) by {
                assert(t1.fragments.take(t0.fragments.len() as int)[i] == t1.fragments[i]);
            }
        }
        assert(tree@.fragments.take(t0.fragments.len() as int) =~= t0.fragments);
    }
    Some(Some(Placed { id, margin: resolved.margin, float: side, clear: clear_side(style) }))
}

/// Lay out the content of the container `node`, whose fragment is `frag`
/// and whose content box is `available` wide: partition it, lay out its
/// boxes and runs in document order, place its floats, collapse the
/// margins between its in-flow children, and give the container its block
/// size. `None` when the tree has no room.
fn lay_out_content(
    tree: &mut FragmentTree,
    frag: FragmentId,
    node: &DomNode,
    available: Au,
    edges: &Edges,
    formatting_root: bool,
    specified: Option<Au>,
    font_size: Au,
    line_height: Au,
) -> (r: Option<()>)
    requires
        grows_down(old(tree)@),
        old(tree)@.root is Some,
        frag@ + 1 == old(tree)@.fragments.len(),
    ensures
        keeps(old(tree)@, final(tree)@),
        forall|i: int| 0 <= i < old(tree)@.fragments.len() && i != frag@ ==> #[trigger] final(tree)@.fragments[i]
            == old(tree)@.fragments[i],
        final(tree)@.fragments[frag@].size.inline == old(tree)@.fragments[frag@].size.inline,
        final(tree)@.fragments[frag@].kind == old(tree)@.fragments[frag@].kind,
    decreases size_of(*node), 0int,
{
    let ghost t0 = tree@;
    let ghost fid = frag@;
    proof {
        frag.lemma_in_range();
    }
    let items = partition_content(node);
    let ghost views = content_views(items@);
    proof {
        lemma_partition_below(*node);
    }
    let n = items.len();
    let mut has_block = false;
    let mut i: usize = 0;
    while i < n
        invariant
            n == items@.len(),
            i <= n,
        decreases n - i,
    {
        if let Content::Block(_) = &items[i] {
            has_block = true;
        }
        i += 1;
    }
    let mut slots: Vec<Slot> = Vec::new();
    let mut own_run: Option<PendingRun> = None;
    i = 0;
    while i < n
        invariant
            n == items@.len(),
            i <= n,
            slots@.len() == i,
            forall|j: int| 0 <= j < slots@.len() ==> slot_after(#[trigger] slots@[j], fid),
            forall|j: int| 0 <= j < slots@.len() ==> slot_within(#[trigger] slots@[j], tree@.fragments.len() as int),
            keeps(t0, tree@),
            t0 == old(tree)@,
            fid == frag@,
            t0.root is Some,
            0 <= fid < t0.fragments.len(),
            forall|j: int| 0 <= j < t0.fragments.len() ==> #[trigger] tree@.fragments[j] == t0.fragments[j],
        decreases n - i,
    {
        let ghost s0 = slots@;
        let ghost tl0 = tree@.fragments.len();
        match &items[i] {
            Content::InlineRun(text) => {
                let mut copy = String::new();
                crate::text_ops::push_str(&mut copy, text.as_str());
                let run = PendingRun { text: copy, font_size, line_height, slot: i };
                if !has_block {
                    own_run = Some(run);
                    slots.push(Slot::Empty);
                } else {
                    let ghost tb = tree@;
                    let id = match push_fragment(tree, FragmentKind::AnonymousBlock, LogicalSize::new(available, Au::zero())) {
                        Some(id) => id,
                        None => {
                            return None;
                        },
                    };
                    proof {
                        assert forall|j: int| 0 <= j < t0.fragments.len() implies #[trigger] tree@.fragments[j]
                            == t0.fragments[j] by {
                            assert(tree@.fragments.take(tb.fragments.len() as int)[j] == tree@.fragments[j]);
                        }
                    }
                    slots.push(Slot::Anonymous(id, run));
                }
            },
            _ => {
                slots.push(Slot::Empty);
            },
        }
        proof {
            assert forall|j: int| 0 <= j < slots@.len() implies slot_after(#[trigger] slots@[j], fid) by {
                if j < s0.len() {
                    assert(slots@[j] == s0[j]);
                }
            }
            assert forall|j: int| 0 <= j < slots@.len() implies slot_within(#[trigger] slots@[j], tree@.fragments.len() as int) by {
                if j < s0.len() {
                    assert(slots@[j] == s0[j]);
                    assert(slot_within(s0[j], tl0 as int));
                }
            }
        }
        i += 1;
    }
    let mut k = n;
    while k > 0
        invariant
            n == items@.len(),
            views == content_views(items@),
            items_below(views, size_of(*node)),
            k <= n,
            slots@.len() == n,
            forall|j: int| 0 <= j < slots@.len() ==> slot_after(#[trigger] slots@[j], fid),
            forall|j: int| 0 <= j < slots@.len() ==> slot_within(#[trigger] slots@[j], tree@.fragments.len() as int),
            keeps(t0, tree@),
            t0 == old(tree)@,
            fid == frag@,
            forall|j: int| 0 <= j < t0.fragments.len() ==> #[trigger] tree@.fragments[j] == t0.fragments[j],
            0 <= fid < t0.fragments.len(),
            t0.root is Some,
        decreases k,
    {
        k = k - 1;
        let child: Option<&DomNode> = match &items[k] {
            Content::Block(c) => Some(*c),
            Content::Float(c) => Some(*c),
            Content::InlineRun(_) => None,
        };
        match child {
            Some(c) => {
                proof {
                    assert(views[k as int] == items@[k as int]@);
                    assert(item_size(views[k as int]) < size_of(*node));
                }
                let ghost tb = tree@;
                let ghost sb = slots@;
                let boxed = lay_out_box(tree, c, available);
                proof {
                    assert forall|j: int| 0 <= j < t0.fragments.len() implies #[trigger] tree@.fragments[j]
                        == t0.fragments[j] by {
                        assert(tree@.fragments.take(tb.fragments.len() as int)[j] == tree@.fragments[j]);
                        assert(tb.fragments[j] == t0.fragments[j]);
                    }
                }
                match boxed {
                    None => {
                        return None;
                    },
                    Some(None) => {},
                    Some(Some(placed)) => {
                        let ghost s0 = slots@;
                        slots.set(k, Slot::Boxed(placed));
                        proof {
                            assert forall|j: int| 0 <= j < slots@.len() implies slot_after(#[trigger] slots@[j], fid) by {
                                if j != k {
                                    assert(slots@[j] == s0[j]);
                                }
                            }
                        }
                    },
                }
                proof {
                    assert forall|j: int| 0 <= j < slots@.len() implies slot_within(#[trigger] slots@[j], tree@.fragments.len() as int) by {
                        if slots@[j] != sb[j] {
                            assert(j == k);
                        } else {
                            assert(slot_within(sb[j], tb.fragments.len() as int));
                        }
                    }
                }
                proof {
                    assert forall|j: int| 0 <= j < t0.fragments.len() implies #[trigger] tree@.fragments[j]
                        == t0.fragments[j] by {
                        assert(tree@.fragments.take(tb.fragments.len() as int)[j] == tree@.fragments[j]);
                        assert(tb.fragments[j] == t0.fragments[j]);
                    }
                }
            },
            None => {},
        }
    }
    exit_container(tree, frag, slots, own_run, available, edges, formatting_root, specified)
}

/// The exit pass of a container: its content slots walked in order, floats
/// placed, runs broken into lines beside what is already placed, in-flow
/// boxes stacked with their adjoining margins collapsed and cleared past
/// the floats they name, and the container given its block size: the
/// specified one, or its content's, stretched to its floats when it
/// establishes a formatting context; its borders and padding added.
fn exit_container(
    tree: &mut FragmentTree,
    frag: FragmentId,
    slots: Vec<Slot>,
    own_run: Option<PendingRun>,
    available: Au,
    edges: &Edges,
    formatting_root: bool,
    specified: Option<Au>,
) -> (r: Option<()>)
    requires
        grows_down(old(tree)@),
        old(tree)@.root is Some,
        frag@ < old(tree)@.fragments.len(),
        forall|j: int| 0 <= j < slots@.len() ==> slot_after(#[trigger] slots@[j], frag@),
        forall|j: int| 0 <= j < slots@.len() ==> slot_within(#[trigger] slots@[j], old(tree)@.fragments.len() as int),
    ensures
        keeps(old(tree)@, final(tree)@),
        forall|i: int| 0 <= i < frag@ ==> #[trigger] final(tree)@.fragments[i]
            == old(tree)@.fragments[i],
        final(tree)@.fragments[frag@].size.inline == old(tree)@.fragments[frag@].size.inline,
        final(tree)@.fragments[frag@].kind == old(tree)@.fragments[frag@].kind,
{
    let ghost t0 = tree@;
    let ghost fid = frag@;
    proof {
        frag.lemma_in_range();
    }
    let surround = edges.block_surround();
    let content_inline_start = edges.border.inline_start.plus(edges.padding.inline_start);
    let content_block_start = edges.border.block_start.plus(edges.padding.block_start);
    let mut floats = FloatContext::new();
    let mut own_run = own_run;
    let mut kids: Vec<FragmentId> = Vec::new();
    let mut cursor = Au::zero();
    let mut pending_margin = Au::zero();
    let mut first_in_flow = true;
    let n = slots.len();
    let mut slot: usize = 0;
    while slot <= n
        invariant
            n == slots@.len(),
            forall|j: int| 0 <= j < slots@.len() ==> slot_after(#[trigger] slots@[j], fid),
            forall|j: int| 0 <= j < slots@.len() ==> slot_within(#[trigger] slots@[j], t0.fragments.len() as int),
            forall|j: int| 0 <= j < kids@.len() ==> #[trigger] kids@[j]@ > fid,
            keeps(t0, tree@),
            t0 == old(tree)@,
            fid == frag@,
            tree@.root is Some,
            0 <= fid < t0.fragments.len(),
            forall|j: int| 0 <= j < fid ==> #[trigger] tree@.fragments[j] == t0.fragments[j],
            tree@.fragments[fid] == t0.fragments[fid],
        decreases n + 1 - slot,
    {
        let take_run = match &own_run {
            Some(run) => run.slot == slot,
            None => false,
        };
        if take_run {
            let run = own_run.take().unwrap();
            let ghost tb = tree@;
            let placed = place_run(tree, &mut kids, &run, available, content_inline_start, content_block_start, &floats, cursor, Ghost(fid));
            proof {
                assert forall|j: int| 0 <= j < t0.fragments.len() implies #[trigger] tree@.fragments[j] == tb.fragments[j] by {
                    assert(tree@.fragments.take(tb.fragments.len() as int)[j] == tree@.fragments[j]);
                }
                assert(tree@.fragments[fid] == t0.fragments[fid]);
                assert forall|j: int| 0 <= j < fid implies #[trigger] tree@.fragments[j] == t0.fragments[j] by {
                    assert(tree@.fragments[j] == tb.fragments[j]);
                }
            }
            match placed {
                Some(height) => {
                    cursor = cursor.plus(height);
                },
                None => {
                    return None;
                },
            }
        }
        if slot < n {
            let mut in_flow: Option<(FragmentId, LogicalEdges, Option<ClearSide>)> = None;
            match &slots[slot] {
                Slot::Empty => {},
                Slot::Boxed(p) => {
                    let kid = p.id;
                    let margin = p.margin;
                    match p.float {
                        Some(side) => {
                            let border_box = match tree.get(kid) {
                                Some(f) => f.size,
                                None => LogicalSize::zero(),
                            };
                            let margin_box = LogicalSize::new(
                                border_box.inline.plus(margin.inline_sum()),
                                border_box.block.plus(margin.block_sum()),
                            );
                            let floor = match p.clear {
                                Some(clear) => later(cursor, floats.clearance(clear)),
                                None => cursor,
                            };
                            let placed = floats.place(side, margin_box, floor, available);
                            set_offsets(
                                tree,
                                kid,
                                content_inline_start.plus(placed.inline_start).plus(margin.inline_start),
                                content_block_start.plus(placed.block_start).plus(margin.block_start),
                            );
                            let ghost k0 = kids@;
                            kids.push(kid);
                            proof {
                                assert forall|j: int| 0 <= j < kids@.len() implies #[trigger] kids@[j]@ > fid by {
                                    if j < k0.len() {
                                        assert(kids@[j] == k0[j]);
                                    }
                                }
                            }
                        },
                        None => {
                            in_flow = Some((kid, margin, p.clear));
                        },
                    }
                },
                Slot::Anonymous(id, run) => {
                    let mut wrapped: Vec<FragmentId> = Vec::new();
                    let ghost tb = tree@;
                    let placed = place_run(tree, &mut wrapped, run, available, Au::zero(), Au::zero(), &floats, Au::zero(), Ghost(id@));
                    proof {
                        assert forall|j: int| 0 <= j < t0.fragments.len() implies #[trigger] tree@.fragments[j]
                            == tb.fragments[j] by {
                            assert(tree@.fragments.take(tb.fragments.len() as int)[j] == tree@.fragments[j]);
                        }
                    }
                    let height = match placed {
                        Some(h) => h,
                        None => {
                            return None;
                        },
                    };
                    if tree.links_len() >= ROOM || wrapped.len() >= ROOM - tree.links_len() {
                        return None;
                    }
                    let ghost tc = tree@;
                    tree.set_children(*id, wrapped.as_slice());
                    proof {
                        if id@ < tc.fragments.len() {
                            lemma_grows_set_children(tc, tree@, id@, wrapped@);
                        } else {
                            lemma_grows_extend(tc, tree@);
                        }
                    }
                    set_block_size(tree, *id, height);
                    in_flow = Some((*id, LogicalEdges::zero(), None));
                },
            }
            match in_flow {
                Some((kid, margin, clear)) => {
                    cursor = if first_in_flow {
                        cursor.plus(margin.block_start)
                    } else {
                        cursor.plus(collapse(pending_margin, margin.block_start))
                    };
                    first_in_flow = false;
                    match clear {
                        Some(c) => {
                            cursor = later(cursor, floats.clearance(c));
                        },
                        None => {},
                    }
                    let size_block = match tree.get(kid) {
                        Some(f) => f.size.block,
                        None => Au::zero(),
                    };
                    set_offsets(tree, kid, content_inline_start.plus(margin.inline_start), content_block_start.plus(cursor));
                    cursor = cursor.plus(size_block);
                    pending_margin = margin.block_end;
                    let ghost k0 = kids@;
                    kids.push(kid);
                    proof {
                        assert forall|j: int| 0 <= j < kids@.len() implies #[trigger] kids@[j]@ > fid by {
                            if j < k0.len() {
                                assert(kids@[j] == k0[j]);
                            }
                        }
                    }
                },
                None => {},
            }
        }
        if slot == n {
            break;
        }
        slot += 1;
    }
    cursor = cursor.plus(pending_margin);
    if formatting_root {
        cursor = later(cursor, floats.lowest_edge(None));
    }
    if tree.links_len() >= ROOM || kids.len() >= ROOM - tree.links_len() {
        return None;
    }
    let ghost tc = tree@;
    tree.set_children(frag, kids.as_slice());
    proof {
        lemma_grows_set_children(tc, tree@, fid, kids@);
    }
    let content = match specified {
        Some(h) => h,
        None => cursor,
    };
    set_block_size(tree, frag, content.plus(surround));
    Some(())
}

/// Lay the document `root` out against a viewport `viewport_inline_size`
/// wide: the fragment tree, rooted at the initial containing block, or
/// `None` when the document has no element to lay out. Block boxes take
/// their containing block's width less their margins, borders and padding
/// (or their own width, centred by `auto` margins); a float shrinks to fit
/// and is placed by its formatting context's floats; in-flow boxes stack,
/// their adjoining margins collapsed, cleared past the floats they name;
/// inline content is broken into lines, wrapped in anonymous blocks when it
/// sits among block boxes. Offsets end up measured from the tree's origin.
pub fn layout_document(root: &DomNode, viewport_inline_size: Au) -> (r: Option<FragmentTree>)
    ensures
        r is Some <==> has_element(*root),
        r matches Some(t) ==> {
            &&& has_element(*root)
            &&& t@.root matches Some(icb) && icb@ == 0
            &&& t@.fragments.len() >= 1
            &&& t@.fragments[0].kind == FragmentKind::Block
            &&& t@.fragments[0].size.inline == viewport_inline_size
            &&& grows_down(t@)
            &&& links_acyclic(t@)
        },
{
    let mut tree = FragmentTree::new();
    let ghost t0 = tree@;
    proof {
        assert(grows_down(t0));
    }
    if !contains_element(root) {
        return None;
    }
    let icb = match push_fragment(&mut tree, FragmentKind::Block, LogicalSize::new(viewport_inline_size, Au::zero())) {
        Some(id) => id,
        None => {
            return None;
        },
    };
    let ghost t1 = tree@;
    let font_size = crate::layout::geom::px(16);
    let line_height = font_size.times(6).divided_by(5);
    let _room = lay_out_content(&mut tree, icb, root, viewport_inline_size, &Edges::zero(), true, None, font_size, line_height);
    let ghost t2 = tree@;
    proof {
        lemma_grows_acyclic(tree@);
    }
    make_offsets_absolute(&mut tree);
    proof {
        assert(same_but_offsets(tree@.fragments[0], t2.fragments[0]));
        assert forall|i: int| 0 <= i < t2.fragments.len() implies (#[trigger] tree@.fragments[i]).children_run()
            == t2.fragments[i].children_run() by {
            assert(same_but_offsets(tree@.fragments[i], t2.fragments[i]));
        }
        lemma_grows_extend(t2, tree@);
        lemma_grows_acyclic(tree@);
    }
    Some(tree)
}

} // verus!
