//! Inline layout: white-space collapsing, and greedy line breaking.
//!
//! Lines break at spaces only. A word wider than the line is not broken; it
//! overflows. A space at the end of a broken line does not count towards the
//! line's width.
use vstd::prelude::*;
use crate::layout::fragment::{Fragment, FragmentId, FragmentKind, FragmentTree, FragmentTreeView};
use crate::layout::geom::{clamp_au, Au, LogicalSize};
use crate::layout::text::{width_of, width_without_trailing_spaces, words, words_of};
use crate::text_ops::{chars_of, trim_end_char};

use crate::text_ops::{push_char, push_str};
use crate::layout::styled::{size_of, size_of_all, stack_size, DomKind, DomNode};

verus! {

/// The text of an inline run and the metrics to lay it out with.
pub struct InlineContext<'a> {
    /// The text, white space already collapsed.
    pub text: &'a str,
    /// The font size.
    pub font_size: Au,
    /// The height of each line.
    pub line_height: Au,
    /// The width lines are broken to.
    pub available: Au,
}

/// Where greedy breaking stands: the width of the line so far, that width
/// without trailing spaces, whether the line has anything but spaces, and
/// the finished lines' widths.
pub struct Breaking {
    pub current: int,
    pub trimmed: int,
    pub has_content: bool,
    pub lines: Seq<int>,
}

/// One more word, of width `width` and `trimmed` without its trailing
/// spaces: it starts a new line when the current one has content and the
/// word, less its spaces, would not fit; otherwise it joins the line.
pub open spec fn break_step(b: Breaking, width: int, trimmed: int, available: int) -> Breaking {
    if b.has_content && clamp_au(b.current + trimmed) > available {
        Breaking { current: width, trimmed, has_content: b.has_content, lines: b.lines.push(b.trimmed) }
    } else {
        let current = clamp_au(b.current + width);
        Breaking {
            current,
            trimmed: clamp_au(current - clamp_au(width - trimmed)),
            has_content: b.has_content || trimmed > 0,
            lines: b.lines,
        }
    }
}

/// Breaking the words `ws` at `font_size` into lines of `available`.
pub open spec fn break_words(ws: Seq<Seq<char>>, font_size: Au, available: int) -> Breaking
    decreases ws.len(),
{
    if ws.len() == 0 {
        Breaking { current: 0, trimmed: 0, has_content: false, lines: Seq::empty() }
    } else {
        break_step(
            break_words(ws.drop_last(), font_size, available),
            width_of(ws.last().len() as int, font_size),
            width_of(trim_end_char(ws.last(), ' ').len() as int, font_size),
            available,
        )
    }
}

/// The widths of the lines `text` breaks into: the finished lines, and the
/// last one if it has anything but spaces.
pub open spec fn line_widths(text: Seq<char>, font_size: Au, available: int) -> Seq<int> {
    let b = break_words(words_of(text), font_size, available);
    if b.has_content {
        b.lines.push(b.trimmed)
    } else {
        b.lines
    }
}

/// The views of a run of lengths.
pub open spec fn au_views(s: Seq<Au>) -> Seq<int> {
    s.map_values(|a: Au| a@)
}

/// Break the run into lines, greedily: the width of each line.
pub fn break_into_lines(context: &InlineContext) -> (r: Vec<Au>)
    ensures
        au_views(r@) == line_widths(context.text@, context.font_size, context.available@),
{
    let ws = words(context.text, context.font_size);
    let ghost wv = words_of(context.text@);
    let mut lines: Vec<Au> = Vec::new();
    let mut current = Au::zero();
    let mut has_content = false;
    let mut current_trimmed = Au::zero();
    let mut i: usize = 0;
    assert(wv.take(0) =~= Seq::<Seq<char>>::empty());
    assert(au_views(lines@) =~= Seq::<int>::empty());
    while i < ws.len()
        invariant
            i <= ws@.len() == wv.len(),
            wv == words_of(context.text@),
            forall|j: int|
                0 <= j < ws@.len() ==> (#[trigger] ws@[j]).0@ == wv[j] && ws@[j].1@ == width_of(
                    wv[j].len() as int,
                    context.font_size,
                ),
            ({
                let b = break_words(wv.take(i as int), context.font_size, context.available@);
                &&& b.current == current@
                &&& b.trimmed == current_trimmed@
                &&& b.has_content == has_content
                &&& b.lines == au_views(lines@)
            }),
        decreases ws@.len() - i,
    {
        assert(wv.take(i + 1).drop_last() =~= wv.take(i as int));
        assert(wv.take(i + 1).last() == wv[i as int]);
        let width = ws[i].1;
        let trimmed = width_without_trailing_spaces(ws[i].0.as_str(), context.font_size);
        if has_content && current.plus(trimmed).value() > context.available.value() {
            let ghost before = lines@;
            lines.push(current_trimmed);
            assert(au_views(lines@) =~= au_views(before).push(current_trimmed@));
            current = width;
            current_trimmed = trimmed;
        } else {
            current = current.plus(width);
            current_trimmed = current.minus(width.minus(trimmed));
            if trimmed.value() > 0 {
                has_content = true;
            }
        }
        i += 1;
    }
    assert(wv.take(ws@.len() as int) =~= wv);
    if has_content {
        let ghost before = lines@;
        lines.push(current_trimmed);
        assert(au_views(lines@) =~= au_views(before).push(current_trimmed@));
    }
    lines
}

/// Whether `c` is white space as `white-space: normal` collapses it: a
/// space, a tab, or a line break. A no-break space is not.
pub open spec fn is_collapsible(c: char) -> bool {
    c == ' ' || c == '\t' || c == '\n' || c == '\r'
}

/// Whether `c` is white space that collapses.
pub fn char_is_collapsible(c: char) -> (r: bool)
    ensures
        r == is_collapsible(c),
{
    c == ' ' || c == '\t' || c == '\n' || c == '\r'
}

/// `text` with each run of spaces, tabs and line breaks made one space, and
/// none at either end; every other character is kept as it is.
pub open spec fn collapsed(text: Seq<char>) -> Seq<char>
    decreases text.len(),
{
    if text.len() == 0 {
        Seq::empty()
    } else {
        let before = collapsed(text.drop_last());
        let c = text.last();
        if is_collapsible(c) {
            before
        } else if text.len() >= 2 && is_collapsible(text[text.len() - 2]) && before.len() > 0 {
            before.push(' ').push(c)
        } else {
            before.push(c)
        }
    }
}

/// Collapse white space for `white-space: normal`: each run of spaces, tabs
/// and line breaks becomes one space, and runs at the start and end
/// disappear. Other characters, a no-break space among them, are kept.
pub fn collapse_whitespace(text: &str) -> (r: String)
    ensures
        r@ == collapsed(text@),
{
    let v = chars_of(text);
    let mut out = String::new();
    let mut in_space = false;
    let mut i: usize = 0;
    let mut empty = true;
    assert(v@.take(0) =~= Seq::<char>::empty());
    while i < v.len()
        invariant
            i <= v@.len(),
            out@ == collapsed(v@.take(i as int)),
            empty == (out@.len() == 0),
            in_space == (i > 0 && is_collapsible(v@[i - 1])),
        decreases v@.len() - i,
    {
        let c = v[i];
        assert(v@.take(i + 1).drop_last() =~= v@.take(i as int));
        assert(v@.take(i + 1).last() == c);
        if char_is_collapsible(c) {
            in_space = true;
        } else {
            if in_space && !empty {
                push_char(&mut out, ' ');
                assert(v@.take(i + 1)[i - 1] == v@[i - 1]);
            }
            in_space = false;
            push_char(&mut out, c);
            empty = false;
        }
        i += 1;
    }
    assert(v@.take(v@.len() as int) =~= v@);
    out
}

/// The line fragments of a run and their total block size: the lines stack
/// from offset zero, each one line height below the last.
pub open spec fn stacked(n: int, line_height: int) -> int
    decreases n,
{
    if n <= 0 {
        0
    } else {
        clamp_au(stacked(n - 1, line_height) + line_height)
    }
}

/// Fragment `f` is the `i`th line of a run: a line box of width `width`
/// and one line height tall, at the start of the line and `i` lines down.
pub open spec fn line_fragment(f: Fragment, width: int, line_height: Au, i: int) -> bool {
    &&& f.kind == FragmentKind::Line
    &&& f.size.inline@ == width
    &&& f.size.block == line_height
    &&& f.block_offset@ == stacked(i, line_height@)
    &&& f.inline_offset@ == 0
    &&& f.children_run() == (0int, 0int)
}

/// Lay the run out as line fragments pushed onto `tree`: their ids, and the
/// block size they take together.
pub fn layout_lines(tree: &mut FragmentTree, context: &InlineContext) -> (r: (Vec<FragmentId>, Au))
    requires
        old(tree)@.fragments.len() + line_widths(context.text@, context.font_size, context.available@).len()
            < u32::MAX,
    ensures
        ({
            let widths = line_widths(context.text@, context.font_size, context.available@);
            let base = old(tree)@.fragments.len();
            &&& r.0@.len() == widths.len()
            &&& r.1@ == stacked(widths.len() as int, context.line_height@)
            &&& final(tree)@.children == old(tree)@.children
            &&& (old(tree)@.root is Some ==> final(tree)@.root == old(tree)@.root)
            &&& final(tree)@.fragments.len() == base + widths.len()
            &&& final(tree)@.fragments.take(base as int) == old(tree)@.fragments
            &&& forall|i: int| 0 <= i < widths.len() ==> (#[trigger] r.0@[i])@ == base + i
            &&& forall|i: int|
                0 <= i < widths.len() ==> line_fragment(
                    #[trigger] final(tree)@.fragments[base + i],
                    widths[i],
                    context.line_height,
                    i,
                )
        }),
{
    let widths = break_into_lines(context);
    let ghost wv = au_views(widths@);
    let ghost base = tree@.fragments.len();
    let mut lines: Vec<FragmentId> = Vec::new();
    let mut cursor = Au::zero();
    let mut i: usize = 0;
    while i < widths.len()
        invariant
            i <= widths@.len(),
            wv == au_views(widths@),
            wv == line_widths(context.text@, context.font_size, context.available@),
            base == old(tree)@.fragments.len(),
            base + wv.len() < u32::MAX,
            lines@.len() == i,
            cursor@ == stacked(i as int, context.line_height@),
            tree@.children == old(tree)@.children,
            old(tree)@.root is Some ==> tree@.root == old(tree)@.root,
            tree@.fragments.len() == base + i,
            tree@.fragments.take(base as int) == old(tree)@.fragments,
            forall|j: int| 0 <= j < i ==> (#[trigger] lines@[j])@ == base + j,
            forall|j: int|
                0 <= j < i ==> line_fragment(#[trigger] tree@.fragments[base + j], wv[j], context.line_height, j),
        decreases widths@.len() - i,
    {
        let mut fragment = Fragment::new(FragmentKind::Line, LogicalSize::new(widths[i], context.line_height));
        fragment.block_offset = cursor;
        let ghost before = tree@.fragments;
        let id = tree.push(fragment);
        assert(tree@.fragments.take(base as int) =~= before.take(base as int));
        let ghost lines_before = lines@;
        lines.push(id);
        proof {
            assert forall|j: int| 0 <= j < i + 1 implies (#[trigger] lines@[j])@ == base + j by {
                if j < i {
                    assert(lines@[j] == lines_before[j]);
                }
            }
            assert forall|j: int| 0 <= j < i + 1 implies line_fragment(#[trigger] tree@.fragments[base + j], wv[j], context.line_height, j) by {
                if j < i {
                    assert(tree@.fragments[base + j] == before[base + j]);
                }
            }
        }
        cursor = cursor.plus(context.line_height);
        i += 1;
    }
    (lines, cursor)
}


/// The text of `node`'s subtree, in document order: its own, if it is a
/// text node, then its children's.
pub open spec fn text_of(node: DomNode) -> Seq<char>
    decreases node,
{
    let own = match node.kind {
        DomKind::Text(t) => t@,
        _ => Seq::empty(),
    };
    own + texts_of(node.children@)
}

/// The text of some subtrees, one after another.
pub open spec fn texts_of(nodes: Seq<DomNode>) -> Seq<char>
    decreases nodes,
{
    if nodes.len() == 0 {
        Seq::empty()
    } else {
        text_of(nodes[0]) + texts_of(nodes.drop_first())
    }
}

/// The text a stack of subtrees still to visit holds, top last.
pub open spec fn stack_text<'a>(stack: Seq<&'a DomNode>) -> Seq<char>
    decreases stack.len(),
{
    if stack.len() == 0 {
        Seq::empty()
    } else {
        text_of(*stack.last()) + stack_text(stack.drop_last())
    }
}

/// The text of `nodes[j..]` is that of `nodes[j]`, then the rest's.
proof fn lemma_texts_step(nodes: Seq<DomNode>, j: int)
    requires
        0 <= j < nodes.len(),
    ensures
        texts_of(nodes.subrange(j, nodes.len() as int)) == text_of(nodes[j]) + texts_of(
            nodes.subrange(j + 1, nodes.len() as int),
        ),
        size_of_all(nodes.subrange(j, nodes.len() as int)) == size_of(nodes[j]) + size_of_all(
            nodes.subrange(j + 1, nodes.len() as int),
        ),
{
    let rest = nodes.subrange(j, nodes.len() as int);
    assert(rest.drop_first() =~= nodes.subrange(j + 1, nodes.len() as int));
    assert(rest[0] == nodes[j]);
}

/// The text content of `node`'s subtree, in document order, concatenated:
/// every text node's text, whatever the elements around it. Walked with an
/// explicit stack.
pub fn collect_text(node: &DomNode) -> (r: String)
    ensures
        r@ == text_of(*node),
{
    let mut out = String::new();
    let mut stack: Vec<&DomNode> = Vec::new();
    stack.push(node);
    proof {
        assert(stack@.drop_last() =~= Seq::<&DomNode>::empty());
        assert(stack_text(stack@.drop_last()) =~= Seq::<char>::empty());
        assert(stack@.last() == node);
        assert(out@ =~= Seq::<char>::empty());
        assert(stack_text(stack@) =~= text_of(*node));
        assert(out@ + stack_text(stack@) =~= text_of(*node));
    }
    while stack.len() > 0
        invariant
            out@ + stack_text(stack@) == text_of(*node),
        decreases stack_size(stack@),
    {
        let ghost before = stack@;
        let current = stack.pop().unwrap();
        let ghost rest = stack@;
        proof {
            assert(before.drop_last() =~= rest);
            assert(before.last() == current);
        }
        let ghost out0 = out@;
        match &current.kind {
            DomKind::Text(t) => {
                push_str(&mut out, t.as_str());
            },
            _ => {},
        }
        let ghost own = out@.skip(out0.len() as int);
        proof {
            assert(out@ =~= out0 + own);
            assert(own == match current.kind {
                DomKind::Text(t) => t@,
                _ => Seq::<char>::empty(),
            });
        }
        let kids = &current.children;
        let ghost ks = kids@;
        let mut k = kids.len();
        proof {
            assert(ks.subrange(k as int, ks.len() as int) =~= Seq::<DomNode>::empty());
            assert(size_of(*current) == 1 + size_of_all(ks));
        }
        while k > 0
            invariant
                k <= ks.len(),
                ks == kids@,
                stack_text(stack@) == texts_of(ks.subrange(k as int, ks.len() as int)) + stack_text(rest),
                stack_size(stack@) == size_of_all(ks.subrange(k as int, ks.len() as int)) + stack_size(rest),
            decreases k,
        {
            k = k - 1;
            let ghost prev = stack@;
            proof {
                lemma_texts_step(ks, k as int);
            }
            stack.push(&kids[k]);
            proof {
                assert(stack@.drop_last() =~= prev);
            }
        }
        proof {
            assert(ks.subrange(0, ks.len() as int) =~= ks);
            assert(out@ + stack_text(stack@) =~= out0 + (own + texts_of(ks)) + stack_text(rest));
        }
    }
    out
}

} // verus!
