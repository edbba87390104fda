//! Character-sequence operations shared by the parsers: ASCII case folding,
//! Unicode white-space trimming, and searching within a window of a buffer.
//!
//! Parsers here work on a `Vec<char>` taken once from the input and on
//! half-open windows `[lo, hi)` into it, so that no intermediate string is
//! built until a result is.
use vstd::prelude::*;

verus! {

/// `char::is_whitespace`: the Unicode `White_Space` property.
pub open spec fn is_ws(c: char) -> bool {
    ||| '\t' <= c <= '\r'
    ||| c == ' '
    ||| c == '\u{85}'
    ||| c == '\u{a0}'
    ||| c == '\u{1680}'
    ||| '\u{2000}' <= c <= '\u{200a}'
    ||| c == '\u{2028}'
    ||| c == '\u{2029}'
    ||| c == '\u{202f}'
    ||| c == '\u{205f}'
    ||| c == '\u{3000}'
}

/// `char::is_whitespace`, computed.
pub fn char_is_ws(c: char) -> (r: bool)
    ensures
        r == is_ws(c),
{
    ('\t' <= c && c <= '\r') || c == ' ' || c == '\u{85}' || c == '\u{a0}' || c == '\u{1680}'
        || ('\u{2000}' <= c && c <= '\u{200a}') || c == '\u{2028}' || c == '\u{2029}' || c
        == '\u{202f}' || c == '\u{205f}' || c == '\u{3000}'
}

/// `char::to_ascii_lowercase`.
pub open spec fn lower_char(c: char) -> char {
    if 'A' <= c <= 'Z' {
        ((c as u32) + 32) as char
    } else {
        c
    }
}

/// `to_ascii_lowercase` over a whole sequence.
pub open spec fn lower(s: Seq<char>) -> Seq<char> {
    Seq::new(s.len(), |i: int| lower_char(s[i]))
}

/// Every character is ASCII.
pub open spec fn all_ascii(s: Seq<char>) -> bool {
    forall|i: int| 0 <= i < s.len() ==> #[trigger] s[i] <= '\u{7f}'
}

/// `trim_start` with the `White_Space` predicate.
pub open spec fn trim_start(s: Seq<char>) -> Seq<char>
    decreases s.len(),
{
    if s.len() > 0 && is_ws(s[0]) {
        trim_start(s.drop_first())
    } else {
        s
    }
}

/// `trim_end` with the `White_Space` predicate.
pub open spec fn trim_end(s: Seq<char>) -> Seq<char>
    decreases s.len(),
{
    if s.len() > 0 && is_ws(s.last()) {
        trim_end(s.drop_last())
    } else {
        s
    }
}

/// `str::trim`.
pub open spec fn trim(s: Seq<char>) -> Seq<char> {
    trim_end(trim_start(s))
}

/// `trim_start_matches(c)`.
pub open spec fn trim_start_char(s: Seq<char>, c: char) -> Seq<char>
    decreases s.len(),
{
    if s.len() > 0 && s[0] == c {
        trim_start_char(s.drop_first(), c)
    } else {
        s
    }
}

/// `trim_end_matches(c)`.
pub open spec fn trim_end_char(s: Seq<char>, c: char) -> Seq<char>
    decreases s.len(),
{
    if s.len() > 0 && s.last() == c {
        trim_end_char(s.drop_last(), c)
    } else {
        s
    }
}

/// `k` is the first position of `c` in `s`.
pub open spec fn first_at(s: Seq<char>, c: char, k: int) -> bool {
    &&& 0 <= k < s.len()
    &&& s[k] == c
    &&& forall|j: int| 0 <= j < k ==> s[j] != c
}

/// `k` is the last position of `c` in `s`.
pub open spec fn last_at(s: Seq<char>, c: char, k: int) -> bool {
    &&& 0 <= k < s.len()
    &&& s[k] == c
    &&& forall|j: int| k < j < s.len() ==> s[j] != c
}

/// `str::find(c)`: the first position of `c`, or -1.
pub open spec fn find(s: Seq<char>, c: char) -> int {
    if exists|k: int| first_at(s, c, k) {
        choose|k: int| first_at(s, c, k)
    } else {
        -1
    }
}

/// `str::rfind(c)`: the last position of `c`, or -1.
pub open spec fn rfind(s: Seq<char>, c: char) -> int {
    if exists|k: int| last_at(s, c, k) {
        choose|k: int| last_at(s, c, k)
    } else {
        -1
    }
}

/// `s` has `c` somewhere.
pub open spec fn has_char(s: Seq<char>, c: char) -> bool {
    exists|k: int| 0 <= k < s.len() && s[k] == c
}

/// `s.starts_with(p)`.
pub open spec fn starts_with(s: Seq<char>, p: Seq<char>) -> bool {
    p.len() <= s.len() && s.take(p.len() as int) == p
}

/// `s.ends_with(p)`.
pub open spec fn ends_with(s: Seq<char>, p: Seq<char>) -> bool {
    p.len() <= s.len() && s.skip(s.len() - p.len()) == p
}

/// `s.contains("..")`.
pub open spec fn has_double_dot(s: Seq<char>) -> bool {
    exists|k: int| 0 <= k && k + 1 < s.len() && s[k] == '.' && #[trigger] s[k + 1] == '.'
}

pub proof fn lemma_find_unique(s: Seq<char>, c: char, k: int)
    requires
        first_at(s, c, k),
    ensures
        find(s, c) == k,
{
    let j = choose|j: int| first_at(s, c, j);
    assert(first_at(s, c, j));
    if j < k {
        assert(s[j] != c);
    }
    if k < j {
        assert(s[k] != c);
    }
}

pub proof fn lemma_rfind_unique(s: Seq<char>, c: char, k: int)
    requires
        last_at(s, c, k),
    ensures
        rfind(s, c) == k,
{
    let j = choose|j: int| last_at(s, c, j);
    assert(last_at(s, c, j));
    if j < k {
        assert(s[k] != c);
    }
    if k < j {
        assert(s[j] != c);
    }
}

pub proof fn lemma_find_absent(s: Seq<char>, c: char)
    requires
        forall|j: int| 0 <= j < s.len() ==> s[j] != c,
    ensures
        find(s, c) == -1,
        rfind(s, c) == -1,
        !has_char(s, c),
{
}

pub proof fn lemma_find_range(s: Seq<char>, c: char)
    ensures
        -1 <= find(s, c) < s.len(),
        find(s, c) >= 0 ==> first_at(s, c, find(s, c)),
        find(s, c) == -1 <==> !has_char(s, c),
        -1 <= rfind(s, c) < s.len(),
        rfind(s, c) >= 0 ==> last_at(s, c, rfind(s, c)),
        rfind(s, c) == -1 <==> !has_char(s, c),
{
    if has_char(s, c) {
        let k = choose|k: int| 0 <= k < s.len() && s[k] == c;
        lemma_first_exists(s, c, k);
        lemma_last_exists(s, c, k);
    } else {
        assert forall|k: int| !first_at(s, c, k) by {
            if first_at(s, c, k) {
                assert(s[k] == c);
            }
        }
        assert forall|k: int| !last_at(s, c, k) by {
            if last_at(s, c, k) {
                assert(s[k] == c);
            }
        }
    }
}

proof fn lemma_first_exists(s: Seq<char>, c: char, k: int)
    requires
        0 <= k < s.len(),
        s[k] == c,
    ensures
        exists|m: int| first_at(s, c, m),
    decreases k,
{
    if forall|j: int| 0 <= j < k ==> s[j] != c {
        assert(first_at(s, c, k));
    } else {
        let j2 = choose|j: int| 0 <= j < k && s[j] == c;
        lemma_first_exists(s, c, j2);
    }
}

proof fn lemma_last_exists(s: Seq<char>, c: char, k: int)
    requires
        0 <= k < s.len(),
        s[k] == c,
    ensures
        exists|m: int| last_at(s, c, m),
    decreases s.len() - k,
{
    if forall|j: int| k < j < s.len() ==> s[j] != c {
        assert(last_at(s, c, k));
    } else {
        let j2 = choose|j: int| k < j < s.len() && s[j] == c;
        lemma_last_exists(s, c, j2);
    }
}

/// The characters of `s`.
pub fn chars_of(s: &str) -> (v: Vec<char>)
    ensures
        v@ == s@,
{
    let mut v: Vec<char> = Vec::new();
    for c in it: s.chars()
        invariant
            v@ == it.seq().take(it.index() as int),
            it.seq() == s@,
    {
        v.push(c);
    }
    v
}

/// `String::push`.
#[verifier::external_body]
pub(crate) fn push_char(s: &mut String, c: char)
    ensures
        final(s)@ == old(s)@.push(c),
{
    s.push(c);
}

/// `String::push_str`.
#[verifier::external_body]
pub(crate) fn push_str(s: &mut String, t: &str)
    ensures
        final(s)@ == old(s)@ + t@,
{
    s.push_str(t);
}

/// The string spelled by `v[lo..hi]`.
pub fn string_of(v: &Vec<char>, lo: usize, hi: usize) -> (s: String)
    requires
        lo <= hi <= v.len(),
    ensures
        s@ == v@.subrange(lo as int, hi as int),
{
    let mut s = String::new();
    let mut i = lo;
    while i < hi
        invariant
            lo <= i <= hi <= v.len(),
            s@ == v@.subrange(lo as int, i as int),
        decreases hi - i,
    {
        push_char(&mut s, v[i]);
        assert(v@.subrange(lo as int, i + 1) == v@.subrange(lo as int, i as int).push(v@[i as int]));
        i += 1;
    }
    s
}

/// The string spelled by all of `v`.
pub fn string_of_all(v: &Vec<char>) -> (s: String)
    ensures
        s@ == v@,
{
    let s = string_of(v, 0, v.len());
    assert(v@.subrange(0, v@.len() as int) == v@);
    s
}

/// `char::to_ascii_lowercase`.
pub fn lower_one(c: char) -> (r: char)
    ensures
        r == lower_char(c),
{
    if 'A' <= c && c <= 'Z' {
        let r = ((c as u8) + 32) as char;
        r
    } else {
        c
    }
}

/// `v[lo..hi]`, ASCII-lowercased.
pub fn lower_window(v: &Vec<char>, lo: usize, hi: usize) -> (r: Vec<char>)
    requires
        lo <= hi <= v.len(),
    ensures
        r@ == lower(v@.subrange(lo as int, hi as int)),
{
    let mut r: Vec<char> = Vec::new();
    let mut i = lo;
    while i < hi
        invariant
            lo <= i <= hi <= v.len(),
            r@ == lower(v@.subrange(lo as int, i as int)),
        decreases hi - i,
    {
        let c = lower_one(v[i]);
        r.push(c);
        i += 1;
        assert(r@ =~= lower(v@.subrange(lo as int, i as int)));
    }
    r
}

/// Whether `v[lo..hi]` is all ASCII.
pub fn window_is_ascii(v: &Vec<char>, lo: usize, hi: usize) -> (r: bool)
    requires
        lo <= hi <= v.len(),
    ensures
        r == all_ascii(v@.subrange(lo as int, hi as int)),
{
    let mut i = lo;
    while i < hi
        invariant
            lo <= i <= hi <= v.len(),
            all_ascii(v@.subrange(lo as int, i as int)),
        decreases hi - i,
    {
        if v[i] > '\u{7f}' {
            assert(v@.subrange(lo as int, hi as int)[i - lo] == v@[i as int]);
            return false;
        }
        i += 1;
        assert(all_ascii(v@.subrange(lo as int, i as int))) by {
            assert forall|k: int| 0 <= k < i - lo implies #[trigger] v@.subrange(lo as int, i as int)[k] <= '\u{7f}' by {
                if k < i - 1 - lo {
                    assert(v@.subrange(lo as int, i - 1)[k] == v@.subrange(lo as int, i as int)[k]);
                }
            }
        }
    }
    true
}

proof fn lemma_trim_start_step(s: Seq<char>, i: int)
    requires
        0 <= i < s.len(),
        is_ws(s[i]),
    ensures
        trim_start(s.skip(i)) == trim_start(s.skip(i + 1)),
{
    assert(s.skip(i).drop_first() =~= s.skip(i + 1));
}

proof fn lemma_trim_end_step(s: Seq<char>, j: int)
    requires
        0 < j <= s.len(),
        is_ws(s[j - 1]),
    ensures
        trim_end(s.take(j)) == trim_end(s.take(j - 1)),
{
    assert(s.take(j).drop_last() =~= s.take(j - 1));
}

/// The window of `v[lo..hi]` that `str::trim` keeps.
pub fn trim_window(v: &Vec<char>, lo: usize, hi: usize) -> (r: (usize, usize))
    requires
        lo <= hi <= v.len(),
    ensures
        lo <= r.0 <= r.1 <= hi,
        v@.subrange(r.0 as int, r.1 as int) == trim(v@.subrange(lo as int, hi as int)),
{
    let ghost w = v@.subrange(lo as int, hi as int);
    let mut a = lo;
    assert(w.skip(0) =~= w);
    while a < hi && char_is_ws(v[a])
        invariant
            lo <= a <= hi <= v.len(),
            w == v@.subrange(lo as int, hi as int),
            trim_start(w) == trim_start(w.skip(a - lo)),
        decreases hi - a,
    {
        proof {
            lemma_trim_start_step(w, a - lo);
        }
        a += 1;
    }
    assert(trim_start(w.skip(a - lo)) == w.skip(a - lo));
    assert(w.skip(a - lo) =~= v@.subrange(a as int, hi as int));
    let ghost t = v@.subrange(a as int, hi as int);
    let mut b = hi;
    assert(t.take(hi - a) =~= t);
    while b > a && char_is_ws(v[b - 1])
        invariant
            lo <= a <= b <= hi <= v.len(),
            t == v@.subrange(a as int, hi as int),
            trim_end(t) == trim_end(t.take(b - a)),
        decreases b - a,
    {
        proof {
            lemma_trim_end_step(t, b - a);
        }
        b -= 1;
    }
    assert(t.take(b - a) =~= v@.subrange(a as int, b as int));
    assert(t.take(b - a) =~= t.take(b - a));
    assert(trim_end(t.take(b - a)) == t.take(b - a)) by {
        let u = t.take(b - a);
        if u.len() > 0 {
            assert(u.last() == v@[b - 1]);
        }
    }
    (a, b)
}

/// The first position of `c` in `v[lo..hi]`, relative to the window.
pub fn find_in(v: &Vec<char>, lo: usize, hi: usize, c: char) -> (r: Option<usize>)
    requires
        lo <= hi <= v.len(),
    ensures
        match r {
            Some(k) => k < hi - lo && find(v@.subrange(lo as int, hi as int), c) == k,
            None => find(v@.subrange(lo as int, hi as int), c) == -1,
        },
{
    let ghost w = v@.subrange(lo as int, hi as int);
    let mut i = lo;
    while i < hi
        invariant
            lo <= i <= hi <= v.len(),
            w == v@.subrange(lo as int, hi as int),
            forall|j: int| 0 <= j < i - lo ==> w[j] != c,
        decreases hi - i,
    {
        if v[i] == c {
            proof {
                assert(first_at(w, c, i - lo));
                lemma_find_unique(w, c, i - lo);
            }
            return Some(i - lo);
        }
        i += 1;
    }
    proof {
        lemma_find_absent(w, c);
    }
    None
}

/// The last position of `c` in `v[lo..hi]`, relative to the window.
pub fn rfind_in(v: &Vec<char>, lo: usize, hi: usize, c: char) -> (r: Option<usize>)
    requires
        lo <= hi <= v.len(),
    ensures
        match r {
            Some(k) => k < hi - lo && rfind(v@.subrange(lo as int, hi as int), c) == k,
            None => rfind(v@.subrange(lo as int, hi as int), c) == -1,
        },
{
    let ghost w = v@.subrange(lo as int, hi as int);
    let mut i = hi;
    while i > lo
        invariant
            lo <= i <= hi <= v.len(),
            w == v@.subrange(lo as int, hi as int),
            forall|j: int| i - lo <= j < w.len() ==> w[j] != c,
        decreases i - lo,
    {
        if v[i - 1] == c {
            proof {
                assert(last_at(w, c, i - 1 - lo));
                lemma_rfind_unique(w, c, i - 1 - lo);
            }
            return Some(i - 1 - lo);
        }
        i -= 1;
    }
    proof {
        lemma_find_absent(w, c);
    }
    None
}

/// Whether `a[alo..ahi]` and `b[blo..bhi]` spell the same characters.
pub fn window_eq(a: &Vec<char>, alo: usize, ahi: usize, b: &Vec<char>, blo: usize, bhi: usize) -> (r: bool)
    requires
        alo <= ahi <= a.len(),
        blo <= bhi <= b.len(),
    ensures
        r == (a@.subrange(alo as int, ahi as int) == b@.subrange(blo as int, bhi as int)),
{
    if ahi - alo != bhi - blo {
        assert(a@.subrange(alo as int, ahi as int).len() != b@.subrange(blo as int, bhi as int).len());
        return false;
    }
    let n = ahi - alo;
    let mut i: usize = 0;
    while i < n
        invariant
            n == ahi - alo == bhi - blo,
            alo <= ahi <= a.len(),
            blo <= bhi <= b.len(),
            0 <= i <= n,
            forall|k: int| 0 <= k < i ==> #[trigger] a@[alo + k] == b@[blo + k],
        decreases n - i,
    {
        if a[alo + i] != b[blo + i] {
            assert(a@.subrange(alo as int, ahi as int)[i as int] != b@.subrange(blo as int, bhi as int)[i as int]);
            return false;
        }
        i += 1;
    }
    assert forall|k: int| 0 <= k < n implies #[trigger] a@.subrange(alo as int, ahi as int)[k] == b@.subrange(blo as int, bhi as int)[k] by {
        assert(a@[alo + k] == b@[blo + k]);
    }
    assert(a@.subrange(alo as int, ahi as int) =~= b@.subrange(blo as int, bhi as int));
    true
}

/// Whether two sequences of characters are equal.
pub fn vec_eq(a: &Vec<char>, b: &Vec<char>) -> (r: bool)
    ensures
        r == (a@ == b@),
{
    let r = window_eq(a, 0, a.len(), b, 0, b.len());
    assert(a@.subrange(0, a.len() as int) == a@);
    assert(b@.subrange(0, b.len() as int) == b@);
    r
}

/// Whether `v[lo..hi]` contains `..`.
pub fn window_has_double_dot(v: &Vec<char>, lo: usize, hi: usize) -> (r: bool)
    requires
        lo <= hi <= v.len(),
    ensures
        r == has_double_dot(v@.subrange(lo as int, hi as int)),
{
    let ghost w = v@.subrange(lo as int, hi as int);
    let mut i = lo;
    while hi - i >= 2
        invariant
            lo <= i <= hi <= v.len(),
            w == v@.subrange(lo as int, hi as int),
            forall|k: int| 0 <= k < i - lo && k + 1 < w.len() ==> !(w[k] == '.' && #[trigger] w[k + 1] == '.'),
        decreases hi - i,
    {
        if v[i] == '.' && v[i + 1] == '.' {
            assert(w[i - lo] == '.' && w[i - lo + 1] == '.');
            return true;
        }
        i += 1;
    }
    false
}

/// The window of `v[lo..hi]` that `trim_start_matches(c).trim_end_matches(c)`
/// keeps.
pub fn trim_char_window(v: &Vec<char>, lo: usize, hi: usize, c: char) -> (r: (usize, usize))
    requires
        lo <= hi <= v.len(),
    ensures
        lo <= r.0 <= r.1 <= hi,
        v@.subrange(r.0 as int, r.1 as int) == trim_end_char(
            trim_start_char(v@.subrange(lo as int, hi as int), c),
            c,
        ),
{
    let ghost w = v@.subrange(lo as int, hi as int);
    let mut a = lo;
    assert(w.skip(0) =~= w);
    while a < hi && v[a] == c
        invariant
            lo <= a <= hi <= v.len(),
            w == v@.subrange(lo as int, hi as int),
            trim_start_char(w, c) == trim_start_char(w.skip(a - lo), c),
        decreases hi - a,
    {
        assert(w.skip(a - lo).drop_first() =~= w.skip(a - lo + 1));
        a += 1;
    }
    assert(w.skip(a - lo) =~= v@.subrange(a as int, hi as int));
    let ghost t = v@.subrange(a as int, hi as int);
    assert(trim_start_char(t, c) == t);
    let mut b = hi;
    assert(t.take(hi - a) =~= t);
    while b > a && v[b - 1] == c
        invariant
            lo <= a <= b <= hi <= v.len(),
            t == v@.subrange(a as int, hi as int),
            trim_end_char(t, c) == trim_end_char(t.take(b - a), c),
        decreases b - a,
    {
        assert(t.take(b - a).drop_last() =~= t.take(b - a - 1));
        b -= 1;
    }
    assert(t.take(b - a) =~= v@.subrange(a as int, b as int));
    assert(trim_end_char(t.take(b - a), c) == t.take(b - a)) by {
        let u = t.take(b - a);
        if u.len() > 0 {
            assert(u.last() == v@[b - 1]);
        }
    }
    (a, b)
}

/// The characters of `v[lo..hi]`, as a vector of their own.
pub fn window_vec(v: &Vec<char>, lo: usize, hi: usize) -> (r: Vec<char>)
    requires
        lo <= hi <= v.len(),
    ensures
        r@ == v@.subrange(lo as int, hi as int),
{
    let mut r: Vec<char> = Vec::new();
    let mut i = lo;
    while i < hi
        invariant
            lo <= i <= hi <= v.len(),
            r@ == v@.subrange(lo as int, i as int),
        decreases hi - i,
    {
        r.push(v[i]);
        i += 1;
        assert(r@ =~= v@.subrange(lo as int, i as int));
    }
    r
}

/// Whether `v[lo..hi]` starts with `p`.
pub fn window_starts_with(v: &Vec<char>, lo: usize, hi: usize, p: &Vec<char>) -> (r: bool)
    requires
        lo <= hi <= v.len(),
    ensures
        r == starts_with(v@.subrange(lo as int, hi as int), p@),
{
    if p.len() > hi - lo {
        return false;
    }
    let r = window_eq(v, lo, lo + p.len(), p, 0, p.len());
    assert(v@.subrange(lo as int, hi as int).take(p@.len() as int) =~= v@.subrange(lo as int, lo + p@.len()));
    assert(p@.subrange(0, p@.len() as int) =~= p@);
    r
}

/// Whether `h` is `d` with one or more labels in front: `x.d` for a
/// non-empty `x`.
pub open spec fn strictly_under(h: Seq<char>, d: Seq<char>) -> bool {
    &&& h.len() >= d.len() + 2
    &&& ends_with(h, d)
    &&& h[h.len() - d.len() - 1] == '.'
}

/// Whether `h` is `x.d` for a non-empty `x`, computed.
pub fn is_strictly_under(h: &Vec<char>, d: &Vec<char>) -> (r: bool)
    ensures
        r == strictly_under(h@, d@),
{
    if h.len() < 2 || h.len() - 2 < d.len() {
        return false;
    }
    let start = h.len() - d.len();
    let same = window_eq(h, start, h.len(), d, 0, d.len());
    assert(h@.skip(h@.len() - d@.len()) =~= h@.subrange(start as int, h@.len() as int));
    assert(d@.subrange(0, d@.len() as int) =~= d@);
    same && h[start - 1] == '.'
}

} // verus!

verus! {

/// `s` split at every `c`: what `str::split(c)` yields.
pub open spec fn split_char(s: Seq<char>, c: char) -> Seq<Seq<char>>
    decreases s.len(),
{
    let k = find(s, c);
    if k < 0 {
        seq![s]
    } else {
        proof {
            lemma_find_range(s, c);
        }
        seq![s.take(k)] + split_char(s.skip(k + 1), c)
    }
}

/// The pieces of `s` between line feeds. Every consumer trims each piece and
/// skips empty ones, so this agrees with `str::lines` for them: a `\r` before
/// the `\n` is trimmed away, and a final empty piece is skipped.
pub open spec fn split_lines(s: Seq<char>) -> Seq<Seq<char>> {
    split_char(s, '\n')
}

/// Labels joined with `.`: `[T]::join(".")`.
pub open spec fn join_dot(ls: Seq<Seq<char>>) -> Seq<char>
    decreases ls.len(),
{
    if ls.len() == 0 {
        Seq::empty()
    } else if ls.len() == 1 {
        ls[0]
    } else {
        ls[0] + seq!['.'] + join_dot(ls.drop_first())
    }
}

/// One step of walking `s` piece by piece: the piece starting at `pos` ends at
/// `end` (exclusive), which is either a `c` or the end of `s`.
pub proof fn lemma_split_step(s: Seq<char>, c: char, pos: int, end: int)
    requires
        0 <= pos <= end <= s.len(),
        forall|j: int| pos <= j < end ==> s[j] != c,
        end < s.len() ==> s[end] == c,
    ensures
        end < s.len() ==> split_char(s.skip(pos), c) == seq![s.subrange(pos, end)] + split_char(
            s.skip(end + 1),
            c,
        ),
        end == s.len() ==> split_char(s.skip(pos), c) == seq![s.subrange(pos, end)],
{
    let t = s.skip(pos);
    if end < s.len() {
        assert(first_at(t, c, end - pos));
        lemma_find_unique(t, c, end - pos);
        assert(t.take(end - pos) =~= s.subrange(pos, end));
        assert(t.skip(end - pos + 1) =~= s.skip(end + 1));
    } else {
        assert forall|j: int| 0 <= j < t.len() implies t[j] != c by {
            assert(t[j] == s[pos + j]);
        }
        lemma_find_absent(t, c);
        assert(t =~= s.subrange(pos, end));
    }
}

/// Where the next piece starting at `pos` of `v` ends: the next `c`, or the end.
pub fn piece_end(v: &Vec<char>, pos: usize, c: char) -> (end: usize)
    requires
        pos <= v.len(),
    ensures
        pos <= end <= v.len(),
        forall|j: int| pos <= j < end ==> v@[j] != c,
        end < v.len() ==> v@[end as int] == c,
{
    let mut i = pos;
    while i < v.len() && v[i] != c
        invariant
            pos <= i <= v.len(),
            forall|j: int| pos <= j < i ==> v@[j] != c,
        decreases v.len() - i,
    {
        i += 1;
    }
    i
}

/// `bounds` are the windows of `h` that its `c`-separated `labels` occupy, in
/// order, each ending at the `c` before the next.
pub open spec fn pieces_of(h: Seq<char>, c: char, labels: Seq<Seq<char>>, bounds: Seq<(usize, usize)>) -> bool {
    &&& labels.len() == bounds.len()
    &&& bounds.len() > 0
    &&& bounds[0].0 == 0
    &&& bounds[bounds.len() - 1].1 == h.len()
    &&& forall|j: int| 0 <= j < bounds.len() ==> #[trigger] bounds[j].0 <= bounds[j].1 <= h.len()
    &&& forall|j: int| 0 <= j < bounds.len() ==> #[trigger] labels[j] == h.subrange(bounds[j].0 as int, bounds[j].1 as int)
    &&& forall|j: int| 0 <= j < bounds.len() - 1 ==> #[trigger] bounds[j].1 + 1 == bounds[j + 1].0
        && h[bounds[j].1 as int] == c
}

pub proof fn lemma_join_windows(h: Seq<char>, labels: Seq<Seq<char>>, bounds: Seq<(usize, usize)>, i: int)
    requires
        pieces_of(h, '.', labels, bounds),
        0 <= i < bounds.len(),
    ensures
        join_dot(labels.skip(i)) == h.subrange(bounds[i].0 as int, h.len() as int),
    decreases bounds.len() - i,
{
    let rest = labels.skip(i);
    if i == bounds.len() - 1 {
        assert(rest.len() == 1);
        assert(rest[0] == labels[i]);
    } else {
        lemma_join_windows(h, labels, bounds, i + 1);
        assert(rest.drop_first() =~= labels.skip(i + 1));
        assert(rest[0] == labels[i]);
        let a = bounds[i].0 as int;
        let b = bounds[i].1 as int;
        assert(bounds[i].1 + 1 == bounds[i + 1].0);
        assert(h.subrange(a, h.len() as int) =~= h.subrange(a, b) + seq!['.'] + h.subrange(b + 1, h.len() as int));
    }
}

pub proof fn lemma_labels_fit(h: Seq<char>, labels: Seq<Seq<char>>, bounds: Seq<(usize, usize)>)
    requires
        pieces_of(h, '.', labels, bounds),
        h.len() <= usize::MAX,
    ensures
        bounds.len() <= h.len() + 1,
{
    // each label but the last is followed by a dot, so the starts strictly increase
    assert forall|j: int| 0 <= j < bounds.len() implies #[trigger] bounds[j].0 >= j by {
        lemma_start_at_least(h, labels, bounds, j);
    }
    assert(bounds[bounds.len() - 1].0 >= bounds.len() - 1);
}

proof fn lemma_start_at_least(h: Seq<char>, labels: Seq<Seq<char>>, bounds: Seq<(usize, usize)>, j: int)
    requires
        pieces_of(h, '.', labels, bounds),
        0 <= j < bounds.len(),
    ensures
        bounds[j].0 >= j,
    decreases j,
{
    if j > 0 {
        lemma_start_at_least(h, labels, bounds, j - 1);
        assert(bounds[j - 1].1 + 1 == bounds[j].0);
        assert(bounds[j - 1].0 <= bounds[j - 1].1);
    }
}

/// The windows of the `c`-separated pieces of `h`.
pub fn split_bounds(h: &Vec<char>, c: char) -> (bounds: Vec<(usize, usize)>)
    ensures
        pieces_of(h@, c, split_char(h@, c), bounds@),
{
    let mut bounds: Vec<(usize, usize)> = Vec::new();
    let ghost mut done: Seq<Seq<char>> = Seq::empty();
    let mut pos: usize = 0;
    proof {
        assert(h@.skip(0) =~= h@);
    }
    loop
        invariant
            pos <= h.len(),
            split_char(h@, c) == done + split_char(h@.skip(pos as int), c),
            done.len() == bounds@.len(),
            bounds@.len() > 0 ==> bounds[0].0 == 0,
            bounds@.len() == 0 ==> pos == 0,
            bounds@.len() > 0 ==> bounds[bounds@.len() - 1].1 + 1 == pos && h@[pos - 1] == c,
            forall|j: int| 0 <= j < bounds@.len() ==> #[trigger] bounds@[j].0 <= bounds@[j].1 < h.len(),
            forall|j: int| 0 <= j < bounds@.len() ==> #[trigger] done[j] == h@.subrange(bounds@[j].0 as int, bounds@[j].1 as int),
            forall|j: int| 0 <= j < bounds@.len() - 1 ==> #[trigger] bounds@[j].1 + 1 == bounds@[j + 1].0
                && h@[bounds@[j].1 as int] == c,
        decreases h.len() - pos,
    {
        let end = piece_end(h, pos, c);
        proof {
            lemma_split_step(h@, c, pos as int, end as int);
        }
        let ghost piece = h@.subrange(pos as int, end as int);
        bounds.push((pos, end));
        proof {
            done = done.push(piece);
        }
        if end == h.len() {
            proof {
                assert(split_char(h@, c) =~= done);
            }
            return bounds;
        }
        proof {
            assert(split_char(h@, c) =~= done + split_char(h@.skip(end + 1), c));
        }
        pos = end + 1;
    }
}

/// Joining one more label puts a dot before it.
pub proof fn lemma_join_push(ls: Seq<Seq<char>>, l: Seq<char>)
    ensures
        ls.len() == 0 ==> join_dot(ls.push(l)) == l,
        ls.len() > 0 ==> join_dot(ls.push(l)) == join_dot(ls) + seq!['.'] + l,
    decreases ls.len(),
{
    let t = ls.push(l);
    if ls.len() == 1 {
        assert(t.drop_first() =~= seq![l]);
        assert(join_dot(seq![l]) == l);
    } else if ls.len() > 1 {
        lemma_join_push(ls.drop_first(), l);
        assert(t.drop_first() =~= ls.drop_first().push(l));
        assert(join_dot(t) =~= join_dot(ls) + seq!['.'] + l);
    }
}

} // verus!
