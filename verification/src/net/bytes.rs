//! Byte-sequence operations for the wire parsers: finding a byte, and
//! trimming ASCII white space.
use vstd::prelude::*;

verus! {

/// The position of the first `x` in `s`, or -1.
pub open spec fn find_byte(s: Seq<u8>, x: u8) -> int
    decreases s.len(),
{
    if s.len() == 0 {
        -1
    } else if s[0] == x {
        0
    } else {
        let r = find_byte(s.drop_first(), x);
        if r < 0 {
            -1
        } else {
            r + 1
        }
    }
}

/// `find_byte` is a position of `s` holding `x` with none before it, or -1
/// when `x` does not occur.
pub proof fn lemma_find_byte(s: Seq<u8>, x: u8)
    ensures
        -1 <= find_byte(s, x) < s.len(),
        find_byte(s, x) >= 0 ==> s[find_byte(s, x)] == x,
        forall|j: int| 0 <= j < s.len() && (find_byte(s, x) < 0 || j < find_byte(s, x)) ==> s[j] != x,
    decreases s.len(),
{
    if s.len() > 0 && s[0] != x {
        let t = s.drop_first();
        lemma_find_byte(t, x);
        assert forall|j: int| 0 <= j < s.len() && (find_byte(s, x) < 0 || j < find_byte(s, x)) implies s[j] != x by {
            if j > 0 {
                assert(s[j] == t[j - 1]);
            }
        }
    }
}

/// The first `x` in `b[lo..hi]`, relative to `lo`.
pub fn find_byte_in(b: &[u8], lo: usize, hi: usize, x: u8) -> (r: Option<usize>)
    requires
        lo <= hi <= b@.len(),
    ensures
        match r {
            Some(k) => k < hi - lo && find_byte(b@.subrange(lo as int, hi as int), x) == k,
            None => find_byte(b@.subrange(lo as int, hi as int), x) == -1,
        },
{
    let ghost w = b@.subrange(lo as int, hi as int);
    proof {
        lemma_find_byte(w, x);
    }
    let mut i = lo;
    while i < hi
        invariant
            lo <= i <= hi <= b@.len(),
            w == b@.subrange(lo as int, hi as int),
            forall|j: int| 0 <= j < i - lo ==> w[j] != x,
            -1 <= find_byte(w, x) < w.len(),
            find_byte(w, x) >= 0 ==> w[find_byte(w, x)] == x,
            forall|j: int| 0 <= j < w.len() && (find_byte(w, x) < 0 || j < find_byte(w, x)) ==> w[j] != x,
        decreases hi - i,
    {
        if b[i] == x {
            assert(w[i - lo] == x);
            return Some(i - lo);
        }
        i += 1;
    }
    None
}

/// ASCII white space as `u8::is_ascii_whitespace` has it: space, tab, line
/// feed, form feed and carriage return.
pub open spec fn is_ascii_ws(b: u8) -> bool {
    b == 32 || b == 9 || b == 10 || b == 12 || b == 13
}

/// `s` without its leading ASCII white space.
pub open spec fn trim_ascii_start(s: Seq<u8>) -> Seq<u8>
    decreases s.len(),
{
    if s.len() > 0 && is_ascii_ws(s[0]) {
        trim_ascii_start(s.drop_first())
    } else {
        s
    }
}

/// `s` without its trailing ASCII white space.
pub open spec fn trim_ascii_end(s: Seq<u8>) -> Seq<u8>
    decreases s.len(),
{
    if s.len() > 0 && is_ascii_ws(s.last()) {
        trim_ascii_end(s.drop_last())
    } else {
        s
    }
}

/// `s` without surrounding ASCII white space.
pub open spec fn trim_ascii(s: Seq<u8>) -> Seq<u8> {
    trim_ascii_end(trim_ascii_start(s))
}

/// The window of `b[lo..hi]` left after trimming ASCII white space.
pub fn trim_ascii_window(b: &[u8], lo: usize, hi: usize) -> (r: (usize, usize))
    requires
        lo <= hi <= b@.len(),
    ensures
        lo <= r.0 <= r.1 <= hi,
        b@.subrange(r.0 as int, r.1 as int) == trim_ascii(b@.subrange(lo as int, hi as int)),
{
    let ghost w = b@.subrange(lo as int, hi as int);
    let mut a = lo;
    assert(w.skip(0) =~= w);
    while a < hi && (b[a] == 32 || b[a] == 9 || b[a] == 10 || b[a] == 12 || b[a] == 13)
        invariant
            lo <= a <= hi <= b@.len(),
            w == b@.subrange(lo as int, hi as int),
            trim_ascii_start(w) == trim_ascii_start(w.skip(a - lo)),
        decreases hi - a,
    {
        assert(w.skip(a - lo).drop_first() =~= w.skip(a - lo + 1));
        a += 1;
    }
    assert(w.skip(a - lo) =~= b@.subrange(a as int, hi as int));
    let ghost t = b@.subrange(a as int, hi as int);
    let mut e = hi;
    assert(t.take(hi - a) =~= t);
    while e > a && (b[e - 1] == 32 || b[e - 1] == 9 || b[e - 1] == 10 || b[e - 1] == 12 || b[e - 1] == 13)
        invariant
            lo <= a <= e <= hi <= b@.len(),
            t == b@.subrange(a as int, hi as int),
            trim_ascii_end(t) == trim_ascii_end(t.take(e - a)),
        decreases e - a,
    {
        assert(t.take(e - a).drop_last() =~= t.take(e - a - 1));
        e -= 1;
    }
    assert(t.take(e - a) =~= b@.subrange(a as int, e as int));
    assert(trim_ascii_end(t.take(e - a)) == t.take(e - a)) by {
        let u = t.take(e - a);
        if u.len() > 0 {
            assert(u.last() == b@[e - 1]);
        }
    }
    (a, e)
}

/// The bytes of `b[lo..hi]`, as a vector of their own.
pub fn bytes_window(b: &[u8], lo: usize, hi: usize) -> (r: Vec<u8>)
    requires
        lo <= hi <= b@.len(),
    ensures
        r@ == b@.subrange(lo as int, hi as int),
{
    let mut r: Vec<u8> = Vec::new();
    let mut i = lo;
    while i < hi
        invariant
            lo <= i <= hi <= b@.len(),
            r@ == b@.subrange(lo as int, i as int),
        decreases hi - i,
    {
        r.push(b[i]);
        i += 1;
        assert(r@ =~= b@.subrange(lo as int, i as int));
    }
    r
}

} // verus!
