//! Floats: boxes taken out of flow and shifted to one inline edge of their
//! containing block, and the record of where each one landed.
//!
//! A [`FloatContext`] holds the floats placed so far in one block
//! formatting context, as margin boxes. Line boxes ask it how much inline
//! space is free across a range of the block axis; a new float asks it
//! where it may go. Floats placed through it never overlap one another.
use vstd::prelude::*;
use crate::layout::geom::{clamp_au, Au, LogicalSize, MAX_AU_VALUE, MIN_AU_VALUE};

verus! {

/// Which inline edge a float is shifted to.
#[derive(Clone, Copy, Debug, PartialEq, Eq, Structural)]
pub enum FloatSide {
    /// The inline-start edge.
    Start,
    /// The inline-end edge.
    End,
}

/// Which floats a box must get below.
#[derive(Clone, Copy, Debug, PartialEq, Eq, Structural)]
pub enum ClearSide {
    /// Every inline-start float.
    Start,
    /// Every inline-end float.
    End,
    /// All of them.
    Both,
}

/// One placed float, as its margin box.
#[derive(Clone, Copy, Debug, PartialEq, Eq, Structural)]
pub struct PlacedFloat {
    /// The edge it was shifted to.
    pub side: FloatSide,
    /// The margin box's inline-start edge.
    pub inline_start: Au,
    /// The margin box's inline-end edge.
    pub inline_end: Au,
    /// The margin box's block-start edge.
    pub block_start: Au,
    /// The margin box's block-end edge.
    pub block_end: Au,
}

/// The larger of two integers.
pub open spec fn max_int(a: int, b: int) -> int {
    if a >= b {
        a
    } else {
        b
    }
}

/// The smaller of two integers.
pub open spec fn min_int(a: int, b: int) -> int {
    if a <= b {
        a
    } else {
        b
    }
}

/// Whether the half-open spans `[a0, a1)` and `[b0, b1)` share a point.
pub open spec fn spans_meet(a0: int, a1: int, b0: int, b1: int) -> bool {
    max_int(a0, b0) < min_int(a1, b1)
}

/// Whether `f` overlaps the box with inline span `[i0, i1)` and block span
/// `[b0, b1)`.
pub open spec fn meets_box(f: PlacedFloat, i0: int, i1: int, b0: int, b1: int) -> bool {
    spans_meet(f.inline_start@, f.inline_end@, i0, i1) && spans_meet(f.block_start@, f.block_end@, b0, b1)
}

/// Whether two placed floats overlap.
pub open spec fn overlap(a: PlacedFloat, b: PlacedFloat) -> bool {
    meets_box(a, b.inline_start@, b.inline_end@, b.block_start@, b.block_end@)
}

/// Whether no two floats of `s` overlap.
pub open spec fn pairwise_disjoint(s: Seq<PlacedFloat>) -> bool {
    forall|i: int, j: int| 0 <= i < j < s.len() ==> !overlap(#[trigger] s[i], #[trigger] s[j])
}

/// Whether `f`'s block extent reaches into the half-open range `[from, to)`;
/// one that only touches it does not.
pub open spec fn crosses(f: PlacedFloat, from: int, to: int) -> bool {
    !(f.block_end@ <= from || f.block_start@ >= to)
}

/// The free inline range across `[from, to)` left by the floats of `s`
/// within `available`: past the furthest inline-start float that crosses
/// the range, and before the nearest inline-end one. It may be inverted.
pub open spec fn raw_band(s: Seq<PlacedFloat>, from: int, to: int, available: int) -> (int, int)
    decreases s.len(),
{
    if s.len() == 0 {
        (0, available)
    } else {
        let prev = raw_band(s.drop_last(), from, to, available);
        let f = s.last();
        if !crosses(f, from, to) {
            prev
        } else {
            match f.side {
                FloatSide::Start => (max_int(prev.0, f.inline_end@), prev.1),
                FloatSide::End => (prev.0, min_int(prev.1, f.inline_start@)),
            }
        }
    }
}

/// The free inline range across `[from, to)`, empty rather than inverted.
pub open spec fn band_of(s: Seq<PlacedFloat>, from: int, to: int, available: int) -> (int, int) {
    let r = raw_band(s, from, to, available);
    if r.1 < r.0 {
        (r.0, r.0)
    } else {
        r
    }
}

/// Whether a float of `size` placed with its block-start edge at `pos` fits
/// in the free range across its whole height.
pub open spec fn fits_at(s: Seq<PlacedFloat>, size: LogicalSize, pos: int, available: int) -> bool {
    let b = band_of(s, pos, clamp_au(pos + size.block@), available);
    clamp_au(b.1 - b.0) >= size.inline@
}

/// Whether `pos` is a place the search for room visits from `floor`: the
/// floor itself, or a float's block-end edge below it.
pub open spec fn is_candidate(s: Seq<PlacedFloat>, floor: int, pos: int) -> bool {
    pos == floor || (pos > floor && exists|i: int| 0 <= i < s.len() && #[trigger] s[i].block_end@ == pos)
}

/// Whether `pos` is where a float of `size` settles, searching down from
/// `floor`: the first place visited where it fits, or, when it fits
/// nowhere, the place past every float's block-end edge.
pub open spec fn settles_at(s: Seq<PlacedFloat>, size: LogicalSize, floor: int, available: int, pos: int) -> bool {
    &&& is_candidate(s, floor, pos)
    &&& (fits_at(s, size, pos, available) || forall|i: int| 0 <= i < s.len() ==> #[trigger] s[i].block_end@ <= pos)
    &&& forall|q: int|
        floor <= q < pos && #[trigger] is_candidate(s, floor, q) ==> !fits_at(s, size, q, available)
}

/// The inline-start edge a float of `size` on `side` gets at `pos`: against
/// its edge of the free range where it fits, against its edge of the
/// container where it overflows.
pub open spec fn inline_start_at(
    s: Seq<PlacedFloat>,
    side: FloatSide,
    size: LogicalSize,
    pos: int,
    available: int,
) -> int {
    let b = band_of(s, pos, clamp_au(pos + size.block@), available);
    if fits_at(s, size, pos, available) {
        match side {
            FloatSide::Start => b.0,
            FloatSide::End => clamp_au(b.1 - size.inline@),
        }
    } else {
        match side {
            FloatSide::Start => 0,
            FloatSide::End => clamp_au(available - size.inline@),
        }
    }
}

/// Whether `f` is on `side`, or `side` names every float.
pub open spec fn on_side(f: PlacedFloat, side: Option<FloatSide>) -> bool {
    match side {
        None => true,
        Some(x) => f.side == x,
    }
}

/// Whether `v` is the lowest block-end edge of the floats of `s` on `side`,
/// or zero when there are none.
pub open spec fn is_lowest_edge(s: Seq<PlacedFloat>, side: Option<FloatSide>, v: int) -> bool {
    if exists|i: int| 0 <= i < s.len() && #[trigger] on_side(s[i], side) {
        &&& exists|i: int| 0 <= i < s.len() && #[trigger] on_side(s[i], side) && s[i].block_end@ == v
        &&& forall|i: int| 0 <= i < s.len() && #[trigger] on_side(s[i], side) ==> s[i].block_end@ <= v
    } else {
        v == 0
    }
}

/// The floats a `clear` value names.
pub open spec fn cleared(clear: ClearSide) -> Option<FloatSide> {
    match clear {
        ClearSide::Start => Some(FloatSide::Start),
        ClearSide::End => Some(FloatSide::End),
        ClearSide::Both => None,
    }
}

/// Where a float settles is determined: no two positions both meet
/// [`settles_at`] for one context, size, floor and container width.
pub proof fn lemma_settles_at_unique(
    s: Seq<PlacedFloat>,
    size: LogicalSize,
    floor: int,
    available: int,
    p: int,
    q: int,
)
    requires
        settles_at(s, size, floor, available, p),
        settles_at(s, size, floor, available, q),
    ensures
        p == q,
{
    if p < q {
        assert(is_candidate(s, floor, p));
        if q != floor {
            let j = choose|j: int| 0 <= j < s.len() && #[trigger] s[j].block_end@ == q;
            assert(s[j].block_end@ <= p);
        }
    } else if q < p {
        assert(is_candidate(s, floor, q));
        if p != floor {
            let j = choose|j: int| 0 <= j < s.len() && #[trigger] s[j].block_end@ == p;
            assert(s[j].block_end@ <= q);
        }
    }
}

/// What the raw band says of each float that crosses the range: an
/// inline-start one ends at or before its start, an inline-end one begins
/// at or after its end; and the start is never negative.
proof fn lemma_raw_band_bounds(s: Seq<PlacedFloat>, from: int, to: int, available: int)
    ensures
        raw_band(s, from, to, available).0 >= 0,
        raw_band(s, from, to, available).1 <= available,
        forall|i: int|
            0 <= i < s.len() && crosses(#[trigger] s[i], from, to) ==> match s[i].side {
                FloatSide::Start => s[i].inline_end@ <= raw_band(s, from, to, available).0,
                FloatSide::End => s[i].inline_start@ >= raw_band(s, from, to, available).1,
            },
    decreases s.len(),
{
    if s.len() > 0 {
        lemma_raw_band_bounds(s.drop_last(), from, to, available);
        assert forall|i: int| 0 <= i < s.len() && crosses(#[trigger] s[i], from, to) implies match s[i].side {
            FloatSide::Start => s[i].inline_end@ <= raw_band(s, from, to, available).0,
            FloatSide::End => s[i].inline_start@ >= raw_band(s, from, to, available).1,
        } by {
            if i < s.len() - 1 {
                assert(s.drop_last()[i] == s[i]);
            }
        }
    }
}

/// A float that fits at `pos`, shifted to its edge of the free range, is
/// clear of every float already placed.
proof fn lemma_fitting_float_is_clear(
    s: Seq<PlacedFloat>,
    side: FloatSide,
    size: LogicalSize,
    pos: int,
    available: int,
    x: int,
    x_end: int,
)
    requires
        MIN_AU_VALUE <= pos <= MAX_AU_VALUE,
        MIN_AU_VALUE <= size.inline@ <= MAX_AU_VALUE,
        MIN_AU_VALUE <= band_of(s, pos, clamp_au(pos + size.block@), available).0 <= MAX_AU_VALUE,
        MIN_AU_VALUE <= band_of(s, pos, clamp_au(pos + size.block@), available).1 <= MAX_AU_VALUE,
        fits_at(s, size, pos, available),
        x == inline_start_at(s, side, size, pos, available),
        x_end == clamp_au(x + size.inline@),
    ensures
        forall|i: int| 0 <= i < s.len() ==> !meets_box(#[trigger] s[i], x, x_end, pos, clamp_au(pos + size.block@)),
{
    let to = clamp_au(pos + size.block@);
    let r = raw_band(s, pos, to, available);
    let b = band_of(s, pos, to, available);
    let w = size.inline@;
    lemma_raw_band_bounds(s, pos, to, available);
    assert forall|i: int| 0 <= i < s.len() implies !meets_box(#[trigger] s[i], x, x_end, pos, to) by {
        let f = s[i];
        if crosses(f, pos, to) {
            if w > 0 {
                assert(b == r);
                assert(b.1 - b.0 >= w);
                match side {
                    FloatSide::Start => {
                        assert(x == b.0);
                        assert(x_end <= b.1);
                    },
                    FloatSide::End => {
                        assert(x == b.1 - w);
                        assert(x >= b.0);
                        assert(x_end == b.1);
                    },
                }
            } else {
                assert(x_end <= x);
            }
        }
    }
}

/// The floats placed so far in one block formatting context, in placing
/// order, no two of them overlapping.
pub struct FloatContext {
    floats: Vec<PlacedFloat>,
}

impl View for FloatContext {
    type V = Seq<PlacedFloat>;

    closed spec fn view(&self) -> Seq<PlacedFloat> {
        self.floats@
    }
}

impl Clone for FloatContext {
    fn clone(&self) -> (r: FloatContext)
        ensures
            r@ == self@,
    {
        proof {
            use_type_invariant(self);
        }
        FloatContext { floats: self.floats.clone() }
    }
}

impl Default for FloatContext {
    fn default() -> (r: FloatContext)
        ensures
            r@ == Seq::<PlacedFloat>::empty(),
    {
        FloatContext::new()
    }
}

impl FloatContext {
    #[verifier::type_invariant]
    closed spec fn well_formed(self) -> bool {
        pairwise_disjoint(self.floats@)
    }

    /// A context with no floats in it.
    pub fn new() -> (r: FloatContext)
        ensures
            r@ == Seq::<PlacedFloat>::empty(),
    {
        FloatContext { floats: Vec::new() }
    }

    /// Whether no float has been placed.
    pub fn is_empty(&self) -> (r: bool)
        ensures
            r == (self@.len() == 0),
    {
        self.floats.len() == 0
    }

    /// The free inline range across the block range `[block_start,
    /// block_end)`, within a container `available` wide: the range free
    /// across all of it, and empty rather than inverted.
    pub fn band(&self, block_start: Au, block_end: Au, available: Au) -> (r: (Au, Au))
        ensures
            (r.0@, r.1@) == band_of(self@, block_start@, block_end@, available@),
            r.0@ <= r.1@,
    {
        let mut start = Au::zero();
        let mut end = available;
        let n = self.floats.len();
        let mut i: usize = 0;
        while i < n
            invariant
                n == self.floats@.len(),
                i <= n,
                (start@, end@) == raw_band(self.floats@.subrange(0, i as int), block_start@, block_end@, available@),
            decreases n - i,
        {
            let f = self.floats[i];
            proof {
                assert(self.floats@.subrange(0, i as int + 1).drop_last() =~= self.floats@.subrange(0, i as int));
                assert(self.floats@.subrange(0, i as int + 1).last() == f);
            }
            if !(f.block_end.value() <= block_start.value() || f.block_start.value() >= block_end.value()) {
                match f.side {
                    FloatSide::Start => {
                        if f.inline_end.value() > start.value() {
                            start = f.inline_end;
                        }
                    },
                    FloatSide::End => {
                        if f.inline_start.value() < end.value() {
                            end = f.inline_start;
                        }
                    },
                }
            }
            i = i + 1;
        }
        proof {
            assert(self.floats@.subrange(0, n as int) =~= self.floats@);
        }
        if end.value() < start.value() {
            (start, start)
        } else {
            (start, end)
        }
    }

    /// Places a float of margin-box `size` on `side`, no higher than
    /// `floor`, in a container `available` wide, and returns where it went.
    ///
    /// The search walks down from the floor through the floats' block-end
    /// edges and stops at the first place where the float fits in the free
    /// range across its whole height; a float that fits nowhere goes past
    /// every float and overflows its container there.
    pub fn place(&mut self, side: FloatSide, size: LogicalSize, floor: Au, available: Au) -> (r: PlacedFloat)
        ensures
            settles_at(old(self)@, size, floor@, available@, r.block_start@),
            r.block_start@ >= floor@,
            r.side == side,
            r.inline_start@ == inline_start_at(old(self)@, side, size, r.block_start@, available@),
            r.inline_end@ == clamp_au(r.inline_start@ + size.inline@),
            r.block_end@ == clamp_au(r.block_start@ + size.block@),
            final(self)@ == old(self)@.push(r),
            forall|i: int| 0 <= i < old(self)@.len() ==> !overlap(#[trigger] old(self)@[i], r),
            pairwise_disjoint(final(self)@),
    {
        let ghost s = self@;
        let mut block_start = floor;
        // Lengths are read here only for their range, which the proof of
        // non-overlap uses.
        let _ = size.inline.value();
        loop
            invariant
                self@ == s,
                old(self)@ == s,
                is_candidate(s, floor@, block_start@),
                floor@ <= block_start@,
                forall|q: int|
                    floor@ <= q < block_start@ && #[trigger] is_candidate(s, floor@, q) ==> !fits_at(
                        s,
                        size,
                        q,
                        available@,
                    ),
            decreases MAX_AU_VALUE - block_start@,
        {
            let _ = block_start.value();
            let block_end = block_start.plus(size.block);
            let (start, end) = self.band(block_start, block_end, available);
            let _ = start.value();
            let _ = end.value();
            if end.minus(start).value() >= size.inline.value() {
                let inline_start = match side {
                    FloatSide::Start => start,
                    FloatSide::End => end.minus(size.inline),
                };
                proof {
                    lemma_fitting_float_is_clear(
                        s,
                        side,
                        size,
                        block_start@,
                        available@,
                        inline_start@,
                        clamp_au(inline_start@ + size.inline@),
                    );
                }
                return self.push(side, inline_start, block_start, size);
            }
            match self.next_edge_below(block_start) {
                None => {
                    let inline_start = match side {
                        FloatSide::Start => Au::zero(),
                        FloatSide::End => available.minus(size.inline),
                    };
                    return self.push(side, inline_start, block_start, size);
                },
                Some(next) => {
                    let _ = next.value();
                    proof {
                        assert forall|q: int|
                            floor@ <= q < next@ && #[trigger] is_candidate(s, floor@, q) implies !fits_at(
                            s,
                            size,
                            q,
                            available@,
                        ) by {
                            if q > block_start@ {
                                let j = choose|j: int| 0 <= j < s.len() && #[trigger] s[j].block_end@ == q;
                                assert(s[j].block_end@ > block_start@);
                            }
                        }
                    }
                    block_start = next;
                },
            }
        }
    }

    /// The nearest float block-end edge strictly below `block_position`,
    /// or `None` when no float ends below it.
    pub fn next_edge_below(&self, block_position: Au) -> (r: Option<Au>)
        ensures
            match r {
                None => forall|i: int| 0 <= i < self@.len() ==> #[trigger] self@[i].block_end@ <= block_position@,
                Some(e) => {
                    &&& e@ > block_position@
                    &&& exists|i: int| 0 <= i < self@.len() && #[trigger] self@[i].block_end@ == e@
                    &&& forall|i: int|
                        0 <= i < self@.len() && #[trigger] self@[i].block_end@ > block_position@ ==> e@
                            <= self@[i].block_end@
                },
            },
    {
        let mut best: Option<Au> = None;
        let n = self.floats.len();
        let mut i: usize = 0;
        while i < n
            invariant
                n == self.floats@.len(),
                i <= n,
                match best {
                    None => forall|k: int| 0 <= k < i ==> #[trigger] self.floats@[k].block_end@ <= block_position@,
                    Some(e) => {
                        &&& e@ > block_position@
                        &&& exists|k: int| 0 <= k < i && #[trigger] self.floats@[k].block_end@ == e@
                        &&& forall|k: int|
                            0 <= k < i && #[trigger] self.floats@[k].block_end@ > block_position@ ==> e@
                                <= self.floats@[k].block_end@
                    },
                },
            decreases n - i,
        {
            let edge = self.floats[i].block_end;
            if edge.value() > block_position.value() {
                match best {
                    None => {
                        best = Some(edge);
                    },
                    Some(e) => {
                        if edge.value() < e.value() {
                            best = Some(edge);
                        }
                    },
                }
            }
            i = i + 1;
        }
        best
    }

    /// Records a float at a position already decided.
    fn push(&mut self, side: FloatSide, inline_start: Au, block_start: Au, size: LogicalSize) -> (r: PlacedFloat)
        requires
            forall|i: int|
                0 <= i < old(self)@.len() ==> !meets_box(
                    #[trigger] old(self)@[i],
                    inline_start@,
                    clamp_au(inline_start@ + size.inline@),
                    block_start@,
                    clamp_au(block_start@ + size.block@),
                ),
        ensures
            r.side == side,
            r.inline_start == inline_start,
            r.inline_end@ == clamp_au(inline_start@ + size.inline@),
            r.block_start == block_start,
            r.block_end@ == clamp_au(block_start@ + size.block@),
            final(self)@ == old(self)@.push(r),
            forall|i: int| 0 <= i < old(self)@.len() ==> !overlap(#[trigger] old(self)@[i], r),
            pairwise_disjoint(final(self)@),
    {
        proof {
            use_type_invariant(&*self);
        }
        let placed = PlacedFloat {
            side,
            inline_start,
            inline_end: inline_start.plus(size.inline),
            block_start,
            block_end: block_start.plus(size.block),
        };
        let mut taken = FloatContext::new();
        std::mem::swap(&mut taken, self);
        let FloatContext { floats: mut fs } = taken;
        let ghost before = fs@;
        assert(before == old(self)@);
        assert(pairwise_disjoint(before));
        fs.push(placed);
        proof {
            assert forall|i: int, j: int| 0 <= i < j < fs@.len() implies !overlap(#[trigger] fs@[i], #[trigger] fs@[j]) by {
                if j < before.len() {
                    assert(fs@[i] == before[i] && fs@[j] == before[j]);
                } else {
                    assert(fs@[i] == before[i]);
                    assert(fs@[j] == placed);
                }
            }
        }
        *self = FloatContext { floats: fs };
        placed
    }

    /// The block position a box that clears `clear` may not start above:
    /// the lowest block-end edge of the floats it names, zero when there
    /// are none.
    pub fn clearance(&self, clear: ClearSide) -> (r: Au)
        ensures
            is_lowest_edge(self@, cleared(clear), r@),
    {
        self.lowest_edge(
            match clear {
                ClearSide::Start => Some(FloatSide::Start),
                ClearSide::End => Some(FloatSide::End),
                ClearSide::Both => None,
            },
        )
    }

    /// The lowest block-end edge of the floats on `side`, or of all of them
    /// when `side` is `None`; zero when there are none.
    pub fn lowest_edge(&self, side: Option<FloatSide>) -> (r: Au)
        ensures
            is_lowest_edge(self@, side, r@),
    {
        let mut best: Option<Au> = None;
        let n = self.floats.len();
        let mut i: usize = 0;
        while i < n
            invariant
                n == self.floats@.len(),
                i <= n,
                match best {
                    None => forall|k: int| 0 <= k < i ==> !#[trigger] on_side(self.floats@[k], side),
                    Some(e) => {
                        &&& exists|k: int|
                            0 <= k < i && #[trigger] on_side(self.floats@[k], side) && self.floats@[k].block_end@ == e@
                        &&& forall|k: int|
                            0 <= k < i && #[trigger] on_side(self.floats@[k], side) ==> self.floats@[k].block_end@
                                <= e@
                    },
                },
            decreases n - i,
        {
            let f = self.floats[i];
            let matches = match side {
                None => true,
                Some(x) => f.side == x,
            };
            assert(matches == on_side(self.floats@[i as int], side));
            if matches {
                match best {
                    None => {
                        best = Some(f.block_end);
                    },
                    Some(e) => {
                        if f.block_end.value() > e.value() {
                            best = Some(f.block_end);
                        }
                    },
                }
            }
            i = i + 1;
        }
        match best {
            None => Au::zero(),
            Some(e) => e,
        }
    }
}

} // verus!
