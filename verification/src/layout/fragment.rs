//! The fragment tree: the laid-out boxes, in a flat arena.
//!
//! Fragments are `Copy` and refer to their children by index into one shared
//! list, so dropping or walking a deep tree never recurses.
use vstd::prelude::*;
use crate::layout::geom::{Au, LogicalSize};

verus! {

/// A fragment's position in its tree.
#[derive(Clone, Copy, Debug, PartialEq, Eq, PartialOrd, Ord, Hash, Structural)]
pub struct FragmentId(u32);

impl View for FragmentId {
    type V = int;

    closed spec fn view(&self) -> int {
        self.0 as int
    }
}

impl FragmentId {
    /// An id is a non-negative index that fits in 32 bits.
    pub proof fn lemma_in_range(self)
        ensures
            0 <= self@ <= u32::MAX,
    {
    }

    /// The index of the fragment.
    pub fn index(self) -> (r: usize)
        ensures
            r == self@,
    {
        self.0 as usize
    }
}

/// What kind of box a fragment is.
#[derive(Clone, Copy, Debug, PartialEq, Eq, Hash, Structural)]
pub enum FragmentKind {
    /// A block box.
    Block,
    /// A block box generated around an inline run among blocks.
    AnonymousBlock,
    /// One line of an inline run.
    Line,
}

/// One laid-out box: where it sits relative to its parent, how big it is,
/// and where its children are in its tree's child list.
#[derive(Clone, Copy, Debug, PartialEq, Eq, Structural)]
pub struct Fragment {
    /// What kind of box this is.
    pub kind: FragmentKind,
    /// Offset from the parent's content edge, along the inline axis.
    pub inline_offset: Au,
    /// Offset from the parent's content edge, along the block axis.
    pub block_offset: Au,
    /// The border-box size.
    pub size: LogicalSize,
    /// Where the children start in the tree's child list.
    pub first_child: u32,
    /// How many children there are.
    pub child_count: u32,
}

impl Fragment {
    /// A fragment of `kind` and `size` at offset zero, with no children.
    pub fn new(kind: FragmentKind, size: LogicalSize) -> (r: Fragment)
        ensures
            r.kind == kind,
            r.size == size,
            r.inline_offset@ == 0,
            r.block_offset@ == 0,
            r.children_run() == (0int, 0int),
    {
        Fragment { kind, inline_offset: Au::zero(), block_offset: Au::zero(), size, first_child: 0, child_count: 0 }
    }

    /// Where this fragment's children start in its tree's child list, and
    /// how many there are.
    pub open spec fn children_run(self) -> (int, int) {
        (self.first_child as int, self.child_count as int)
    }

    /// `self` with the children run `start` for `count`.
    pub open spec fn with_run(self, start: int, count: int) -> Fragment {
        Fragment { first_child: start as u32, child_count: count as u32, ..self }
    }

    /// How many children this fragment has.
    pub fn child_count(self) -> (r: usize)
        ensures
            r == self.children_run().1,
    {
        self.child_count as usize
    }
}

/// What a [`FragmentTree`] holds: its fragments, the child list they index
/// into, and its root, which is the first fragment pushed.
pub struct FragmentTreeView {
    pub fragments: Seq<Fragment>,
    pub children: Seq<FragmentId>,
    pub root: Option<FragmentId>,
}

/// The children of fragment `i` of `t`: its run of the child list, or none
/// when it has no valid run.
pub open spec fn children_of(t: FragmentTreeView, i: int) -> Seq<FragmentId> {
    let (start, count) = if 0 <= i < t.fragments.len() { t.fragments[i].children_run() } else { (0int, 0int) };
    if 0 <= i < t.fragments.len() && start + count <= t.children.len() {
        t.children.subrange(start, start + count)
    } else {
        Seq::empty()
    }
}

/// Whether `order` numbers the fragments of `t` below the tree's length so
/// that every child in the tree comes after its parent.
pub open spec fn orders_children(t: FragmentTreeView, order: spec_fn(int) -> int) -> bool {
    &&& forall|i: int| 0 <= i < t.fragments.len() ==> 0 <= #[trigger] order(i) < t.fragments.len()
    &&& forall|i: int, k: int|
        0 <= i < t.fragments.len() && 0 <= k < children_of(t, i).len() && 0 <= #[trigger] children_of(t, i)[k]@
            < t.fragments.len() ==> order(children_of(t, i)[k]@) > order(i)
}

/// Whether the child links of `t` form no cycle: some numbering puts every
/// child after its parent. Walking such a tree ends.
pub open spec fn links_acyclic(t: FragmentTreeView) -> bool {
    exists|order: spec_fn(int) -> int| orders_children(t, order)
}

/// A numbering that puts every child after its parent, when there is one.
pub open spec fn child_order(t: FragmentTreeView) -> spec_fn(int) -> int {
    choose|order: spec_fn(int) -> int| orders_children(t, order)
}

/// How far fragment `id` is from the end of [`child_order`]; zero for an
/// id that is not in the tree.
pub open spec fn rank(t: FragmentTreeView, id: int) -> int {
    if 0 <= id < t.fragments.len() && 0 <= child_order(t)(id) < t.fragments.len() {
        t.fragments.len() - child_order(t)(id)
    } else {
        0
    }
}

/// Whether each of `kids` is nearer the end of the tree than `parent`.
pub open spec fn below(t: FragmentTreeView, kids: Seq<FragmentId>, parent: int) -> bool {
    forall|k: int| 0 <= k < kids.len() ==> rank(t, #[trigger] kids[k]@) < rank(t, parent)
}

/// The subtree at `id`, entered at `depth`, in layout order: the fragment
/// itself, then each child's subtree in turn, one level deeper.
pub open spec fn walk_from(t: FragmentTreeView, id: FragmentId, depth: int) -> Seq<(int, FragmentId)>
    decreases rank(t, id@), 1int, 0int,
{
    seq![(depth, id)] + walk_forest(t, children_of(t, id@), depth + 1, id@)
}

/// The subtrees at `kids`, children of `parent`, one after another.
pub open spec fn walk_forest(t: FragmentTreeView, kids: Seq<FragmentId>, depth: int, parent: int) -> Seq<
    (int, FragmentId),
>
    decreases rank(t, parent), 0int, kids.len(),
    when below(t, kids, parent)
{
    if kids.len() == 0 {
        Seq::empty()
    } else {
        walk_from(t, kids[0], depth) + walk_forest(t, kids.drop_first(), depth, parent)
    }
}

/// What a stack of pending subtrees, top last, still has to give.
pub open spec fn walk_stack(t: FragmentTreeView, stack: Seq<(usize, FragmentId)>) -> Seq<(int, FragmentId)>
    decreases stack.len(),
{
    if stack.len() == 0 {
        Seq::empty()
    } else {
        walk_from(t, stack.last().1, stack.last().0 as int) + walk_stack(t, stack.drop_last())
    }
}

/// A walk's depths, widened.
pub open spec fn widened(s: Seq<(usize, FragmentId)>) -> Seq<(int, FragmentId)> {
    s.map_values(|p: (usize, FragmentId)| (p.0 as int, p.1))
}

/// The children of a fragment in a tree without cycles are nearer the end
/// of the child order than their parent.
pub(crate) proof fn lemma_children_below(t: FragmentTreeView, id: int)
    requires
        links_acyclic(t),
    ensures
        below(t, children_of(t, id), id),
{
    let order = child_order(t);
    assert(orders_children(t, order));
    assert forall|k: int| 0 <= k < children_of(t, id).len() implies rank(t, #[trigger] children_of(t, id)[k]@) < rank(
        t,
        id,
    ) by {
        assert(0 <= id < t.fragments.len());
        assert(0 <= order(id) < t.fragments.len());
        let c = children_of(t, id)[k]@;
        if 0 <= c < t.fragments.len() {
            assert(order(c) > order(id));
        }
    }
}

/// A forest walk, split after its first subtree.
proof fn lemma_forest_step(t: FragmentTreeView, kids: Seq<FragmentId>, j: int, depth: int, parent: int)
    requires
        below(t, kids, parent),
        0 <= j < kids.len(),
    ensures
        walk_forest(t, kids.subrange(j, kids.len() as int), depth, parent) == walk_from(t, kids[j], depth)
            + walk_forest(t, kids.subrange(j + 1, kids.len() as int), depth, parent),
{
    let rest = kids.subrange(j, kids.len() as int);
    assert(below(t, rest, parent)) by {
        assert forall|k: int| 0 <= k < rest.len() implies rank(t, #[trigger] rest[k]@) < rank(t, parent) by {
            assert(rest[k] == kids[j + k]);
        }
    }
    assert(rest.drop_first() =~= kids.subrange(j + 1, kids.len() as int));
    assert(rest[0] == kids[j]);
}

/// The laid-out boxes of a document.
#[derive(Clone, Debug, Default, PartialEq)]
pub struct FragmentTree {
    fragments: Vec<Fragment>,
    children: Vec<FragmentId>,
    root: Option<FragmentId>,
}

impl View for FragmentTree {
    type V = FragmentTreeView;

    closed spec fn view(&self) -> FragmentTreeView {
        FragmentTreeView { fragments: self.fragments@, children: self.children@, root: self.root }
    }
}

impl FragmentTree {
    /// An empty tree.
    pub fn new() -> (r: FragmentTree)
        ensures
            r@.fragments.len() == 0,
            r@.children.len() == 0,
            r@.root is None,
    {
        FragmentTree { fragments: Vec::new(), children: Vec::new(), root: None }
    }

    /// How many fragments the tree holds.
    pub fn len(&self) -> (r: usize)
        ensures
            r == self@.fragments.len(),
    {
        self.fragments.len()
    }

    /// Whether the tree holds nothing.
    pub fn is_empty(&self) -> (r: bool)
        ensures
            r == (self@.fragments.len() == 0),
    {
        self.fragments.len() == 0
    }

    /// How many entries the child list holds.
    pub fn links_len(&self) -> (r: usize)
        ensures
            r == self@.children.len(),
    {
        self.children.len()
    }

    /// The first fragment pushed, if any.
    pub fn root(&self) -> (r: Option<FragmentId>)
        ensures
            r == self@.root,
    {
        self.root
    }

    /// The fragment `id` names, if it is in this tree.
    pub fn get(&self, id: FragmentId) -> (r: Option<&Fragment>)
        ensures
            id@ < self@.fragments.len() ==> r == Some(&self@.fragments[id@]),
            id@ >= self@.fragments.len() ==> r is None,
    {
        let i = id.index();
        if i < self.fragments.len() {
            Some(&self.fragments[i])
        } else {
            None
        }
    }

    /// The fragment `id` names, to modify in place, if it is in this tree.
    pub fn get_mut(&mut self, id: FragmentId) -> (r: Option<&mut Fragment>)
        ensures
            r is Some <==> id@ < old(self)@.fragments.len(),
            r matches Some(f) ==> *f == old(self)@.fragments[id@] && final(self)@ == (FragmentTreeView {
                fragments: old(self)@.fragments.update(id@, *final(f)),
                ..old(self)@
            }),
            r is None ==> final(self)@ == old(self)@,
    {
        let i = id.index();
        if i < self.fragments.len() {
            Some(&mut self.fragments[i])
        } else {
            None
        }
    }

    /// The children of fragment `id`, in layout order.
    pub fn children(&self, id: FragmentId) -> (r: &[FragmentId])
        ensures
            r@ == children_of(self@, id@),
    {
        let i = id.index();
        if i >= self.fragments.len() {
            return vstd::slice::slice_subrange(self.children.as_slice(), 0, 0);
        }
        let f = self.fragments[i];
        let start = f.first_child as usize;
        let count = f.child_count as usize;
        if start > self.children.len() || count > self.children.len() - start {
            return vstd::slice::slice_subrange(self.children.as_slice(), 0, 0);
        }
        vstd::slice::slice_subrange(self.children.as_slice(), start, start + count)
    }

    /// Add a fragment; the first one added is the root.
    pub fn push(&mut self, fragment: Fragment) -> (r: FragmentId)
        requires
            old(self)@.fragments.len() < u32::MAX,
        ensures
            r@ == old(self)@.fragments.len(),
            final(self)@.fragments == old(self)@.fragments.push(fragment),
            final(self)@.children == old(self)@.children,
            final(self)@.root == (match old(self)@.root {
                Some(root) => Some(root),
                None => Some(r),
            }),
    {
        let id = FragmentId(self.fragments.len() as u32);
        self.fragments.push(fragment);
        if self.root.is_none() {
            self.root = Some(id);
        }
        id
    }

    /// Give `parent` the children `kids`, in order, appended to the child
    /// list. Nothing else changes; a `parent` not in the tree gets nothing.
    pub fn set_children(&mut self, parent: FragmentId, kids: &[FragmentId])
        requires
            old(self)@.children.len() + kids@.len() <= u32::MAX,
        ensures
            final(self)@.children == old(self)@.children + kids@,
            final(self)@.root == old(self)@.root,
            parent@ < old(self)@.fragments.len() ==> final(self)@.fragments == old(self)@.fragments.update(
                parent@,
                old(self)@.fragments[parent@].with_run(old(self)@.children.len() as int, kids@.len() as int),
            ),
            parent@ >= old(self)@.fragments.len() ==> final(self)@.fragments == old(self)@.fragments,
            parent@ < old(self)@.fragments.len() ==> children_of(final(self)@, parent@) == kids@,
    {
        let start = self.children.len() as u32;
        let mut k: usize = 0;
        let ghost before = self.children@;
        while k < kids.len()
            invariant
                k <= kids@.len(),
                self.children@ == before + kids@.take(k as int),
                self.fragments@ == old(self).fragments@,
                self.root == old(self).root,
                before == old(self).children@,
            decreases kids@.len() - k,
        {
            self.children.push(kids[k]);
            k += 1;
            assert(self.children@ =~= before + kids@.take(k as int));
        }
        assert(kids@.take(kids@.len() as int) =~= kids@);
        let i = parent.index();
        if i < self.fragments.len() {
            let f = self.fragments[i];
            let updated = Fragment { first_child: start, child_count: kids.len() as u32, ..f };
            self.fragments.set(i, updated);
            assert(self.children@.subrange(start as int, start + kids@.len()) =~= kids@);
        }
    }
    /// Every fragment reachable from the root in layout order, as `(depth,
    /// id)`: a fragment, then its children's subtrees in turn. Walked with an
    /// explicit stack, so a deep tree does not deepen the call stack.
    pub fn in_layout_order(&self) -> (r: Vec<(usize, FragmentId)>)
        requires
            links_acyclic(self@),
        ensures
            widened(r@) == match self@.root {
                None => Seq::<(int, FragmentId)>::empty(),
                Some(root) => walk_from(self@, root, 0),
            },
    {
        let mut out: Vec<(usize, FragmentId)> = Vec::new();
        let root = match self.root {
            None => {
                assert(widened(out@) =~= Seq::<(int, FragmentId)>::empty());
                return out;
            },
            Some(root) => root,
        };
        let ghost t = self@;
        let ghost total = walk_from(t, root, 0);
        proof {
            assert(orders_children(t, child_order(t)));
        }
        let n = self.fragments.len();
        let mut stack: Vec<(usize, FragmentId)> = vec![(0usize, root)];
        proof {
            assert(stack@.drop_last() =~= Seq::<(usize, FragmentId)>::empty());
            assert(stack@.last() == (0usize, root));
            assert(walk_stack(t, stack@.drop_last()) =~= Seq::<(int, FragmentId)>::empty());
            assert(walk_stack(t, stack@) =~= total);
            assert(widened(out@) =~= Seq::<(int, FragmentId)>::empty());
        }
        while stack.len() > 0
            invariant
                t == self@,
                links_acyclic(t),
                n == t.fragments.len(),
                widened(out@) + walk_stack(t, stack@) == total,
                forall|k: int|
                    0 <= k < stack@.len() ==> #[trigger] stack@[k].0 <= n && (0 <= stack@[k].1@ < n ==> stack@[k].0
                        <= child_order(t)(stack@[k].1@)),
            decreases total.len() - out@.len(),
        {
            let ghost before = stack@;
            let (depth, id) = stack.pop().unwrap();
            let ghost rest = stack@;
            proof {
                assert(rest =~= before.drop_last());
                assert(before.last() == (depth, id));
                assert(widened(out@.push((depth, id))) =~= widened(out@).push((depth as int, id)));
            }
            out.push((depth, id));
            let kids = self.children(id);
            let ghost ks = kids@;
            proof {
                lemma_children_below(t, id@);
                assert(ks == children_of(t, id@));
                assert(ks.subrange(0, ks.len() as int) =~= ks);
                assert(ks.subrange(ks.len() as int, ks.len() as int) =~= Seq::<FragmentId>::empty());
                assert(walk_from(t, id, depth as int) == seq![(depth as int, id)] + walk_forest(
                    t,
                    ks,
                    depth + 1,
                    id@,
                ));
                assert(widened(out@) + (walk_forest(t, ks, depth + 1, id@) + walk_stack(t, rest)) =~= total);
                assert(orders_children(t, child_order(t)));
                if ks.len() > 0 {
                    assert(0 <= id@ < n);
                }
            }
            let mut j = kids.len();
            while j > 0
                invariant
                    t == self@,
                    links_acyclic(t),
                    n == t.fragments.len(),
                    ks == kids@,
                    ks == children_of(t, id@),
                    below(t, ks, id@),
                    j <= ks.len(),
                    orders_children(t, child_order(t)),
                    ks.len() > 0 ==> 0 <= id@ < n && depth <= child_order(t)(id@),
                    walk_stack(t, stack@) == walk_forest(t, ks.subrange(j as int, ks.len() as int), depth + 1, id@)
                        + walk_stack(t, rest),
                    forall|k: int|
                        0 <= k < stack@.len() ==> #[trigger] stack@[k].0 <= n && (0 <= stack@[k].1@ < n ==> stack@[k].0
                            <= child_order(t)(stack@[k].1@)),
                decreases j,
            {
                j = j - 1;
                let kid = kids[j];
                let ghost prev = stack@;
                proof {
                    lemma_forest_step(t, ks, j as int, depth + 1, id@);
                    if 0 <= ks[j as int]@ < n {
                        assert(child_order(t)(ks[j as int]@) > child_order(t)(id@));
                    }
                }
                let d: usize = depth + 1;
                stack.push((d, kid));
                proof {
                    assert(stack@.drop_last() =~= prev);
                    assert(stack@.last() == (d, kid));
                }
            }
            proof {
                assert(ks.subrange(0, ks.len() as int) =~= ks);
                assert(widened(out@) + walk_stack(t, stack@) =~= total);
            }
        }
        proof {
            assert(walk_stack(t, stack@) =~= Seq::<(int, FragmentId)>::empty());
            assert(widened(out@) =~= total);
        }
        out
    }
}

} // verus!
