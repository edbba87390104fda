//! Recognising IP address literals, so that a host written as an address is
//! never mistaken for a name with a registrable domain.
//!
//! The grammar is the one `IpAddr`'s `FromStr` accepts: four dotted decimal
//! octets without leading zeros, or eight colon-separated groups of one to four
//! hex digits, at most one `::` standing for one or more zero groups, and an
//! optional dotted IPv4 address in place of the last two groups.
use vstd::prelude::*;
use crate::text_ops::{pieces_of, split_bounds, split_char};

verus! {

pub open spec fn is_dec_digit(c: char) -> bool {
    '0' <= c <= '9'
}

pub open spec fn is_hex_digit(c: char) -> bool {
    ||| '0' <= c <= '9'
    ||| 'a' <= c <= 'f'
    ||| 'A' <= c <= 'F'
}

/// The decimal value of a string of digits.
pub open spec fn dec_value(p: Seq<char>) -> int
    decreases p.len(),
{
    if p.len() == 0 {
        0
    } else {
        dec_value(p.drop_last()) * 10 + (p.last() as int - '0' as int)
    }
}

/// One octet of a dotted IPv4 address.
pub open spec fn dec_octet(p: Seq<char>) -> bool {
    &&& 1 <= p.len() <= 3
    &&& forall|i: int| 0 <= i < p.len() ==> is_dec_digit(#[trigger] p[i])
    &&& (p.len() == 1 || p[0] != '0')
    &&& dec_value(p) <= 255
}

/// A dotted IPv4 address.
pub open spec fn is_ipv4(s: Seq<char>) -> bool {
    let ps = split_char(s, '.');
    ps.len() == 4 && forall|i: int| 0 <= i < 4 ==> dec_octet(#[trigger] ps[i])
}

/// One group of an IPv6 address.
pub open spec fn hex_group(p: Seq<char>) -> bool {
    &&& 1 <= p.len() <= 4
    &&& forall|i: int| 0 <= i < p.len() ==> is_hex_digit(#[trigger] p[i])
}

pub open spec fn all_hex(ps: Seq<Seq<char>>) -> bool {
    forall|i: int| 0 <= i < ps.len() ==> hex_group(#[trigger] ps[i])
}

/// How many 16-bit groups the pieces spell, an IPv4 address at the end counting
/// two; -1 when they are not groups.
pub open spec fn group_count(ps: Seq<Seq<char>>) -> int {
    if all_hex(ps) {
        ps.len() as int
    } else if ps.len() > 0 && all_hex(ps.drop_last()) && is_ipv4(ps.last()) {
        ps.len() + 1int
    } else {
        -1
    }
}

/// `k` is where the first `::` in `s` starts.
pub open spec fn double_colon_at(s: Seq<char>, k: int) -> bool {
    &&& 0 <= k && k + 1 < s.len()
    &&& s[k] == ':' && s[k + 1] == ':'
    &&& forall|j: int| 0 <= j < k ==> !(#[trigger] s[j] == ':' && s[j + 1] == ':')
}

pub open spec fn first_double_colon(s: Seq<char>) -> int {
    if exists|k: int| double_colon_at(s, k) {
        choose|k: int| double_colon_at(s, k)
    } else {
        -1
    }
}

/// Groups before a `::`: none, or colon-separated hex groups.
pub open spec fn head_count(hd: Seq<char>) -> int {
    if hd.len() == 0 {
        0
    } else if all_hex(split_char(hd, ':')) {
        split_char(hd, ':').len() as int
    } else {
        -1
    }
}

/// Groups after a `::`: none, or what [`group_count`] counts.
pub open spec fn tail_count(tl: Seq<char>) -> int {
    if tl.len() == 0 {
        0
    } else {
        group_count(split_char(tl, ':'))
    }
}

/// A textual IPv6 address.
pub open spec fn is_ipv6(s: Seq<char>) -> bool {
    let k = first_double_colon(s);
    if k < 0 {
        group_count(split_char(s, ':')) == 8
    } else {
        let h = head_count(s.take(k));
        let t = tail_count(s.skip(k + 2));
        h >= 0 && t >= 0 && h + t <= 7
    }
}

/// What `str::parse::<IpAddr>` accepts.
pub open spec fn is_ip_literal(s: Seq<char>) -> bool {
    is_ipv4(s) || is_ipv6(s)
}

fn copy_window(v: &Vec<char>, lo: usize, hi: usize) -> (r: Vec<char>)
    requires
        lo <= hi <= v.len(),
    ensures
        r@ == v@.subrange(lo as int, hi as int),
{
    let mut r: Vec<char> = Vec::new();
    let mut i = lo;
    while i < hi
        invariant
            lo <= i <= hi <= v.len(),
            r@ == v@.subrange(lo as int, i as int),
        decreases hi - i,
    {
        r.push(v[i]);
        i += 1;
        assert(r@ =~= v@.subrange(lo as int, i as int));
    }
    r
}

fn dec_octet_window(v: &Vec<char>, lo: usize, hi: usize) -> (r: bool)
    requires
        lo <= hi <= v.len(),
    ensures
        r == dec_octet(v@.subrange(lo as int, hi as int)),
{
    let ghost p = v@.subrange(lo as int, hi as int);
    let n = hi - lo;
    if n < 1 || n > 3 {
        return false;
    }
    let mut value: u32 = 0;
    let mut i: usize = 0;
    while i < n
        invariant
            n == hi - lo,
            1 <= n <= 3,
            lo <= hi <= v.len(),
            p == v@.subrange(lo as int, hi as int),
            i <= n,
            forall|k: int| 0 <= k < i ==> is_dec_digit(#[trigger] p[k]),
            value == dec_value(p.take(i as int)),
            value < (if i == 0 { 1int } else if i == 1 { 10int } else if i == 2 { 100int } else { 1000int }),
        decreases n - i,
    {
        let c = v[lo + i];
        if !('0' <= c && c <= '9') {
            assert(p[i as int] == c);
            return false;
        }
        assert(p.take(i + 1).drop_last() =~= p.take(i as int));
        assert(p.take(i + 1).last() == c);
        value = value * 10 + (c as u32 - '0' as u32);
        i += 1;
    }
    assert(p.take(n as int) =~= p);
    if n > 1 && v[lo] == '0' {
        return false;
    }
    value <= 255
}

fn hex_group_window(v: &Vec<char>, lo: usize, hi: usize) -> (r: bool)
    requires
        lo <= hi <= v.len(),
    ensures
        r == hex_group(v@.subrange(lo as int, hi as int)),
{
    let ghost p = v@.subrange(lo as int, hi as int);
    let n = hi - lo;
    if n < 1 || n > 4 {
        return false;
    }
    let mut i: usize = 0;
    while i < n
        invariant
            n == hi - lo,
            lo <= hi <= v.len(),
            p == v@.subrange(lo as int, hi as int),
            i <= n,
            forall|k: int| 0 <= k < i ==> is_hex_digit(#[trigger] p[k]),
        decreases n - i,
    {
        let c = v[lo + i];
        if !(('0' <= c && c <= '9') || ('a' <= c && c <= 'f') || ('A' <= c && c <= 'F')) {
            assert(p[i as int] == c);
            return false;
        }
        i += 1;
    }
    true
}

/// Whether every piece of `h` in `bounds[..upto]` is a hex group.
#[verifier::loop_isolation(false)]
fn pieces_hex(h: &Vec<char>, bounds: &Vec<(usize, usize)>, upto: usize, c: char) -> (r: bool)
    requires
        pieces_of(h@, c, split_char(h@, c), bounds@),
        upto <= bounds.len(),
    ensures
        r == all_hex(split_char(h@, c).take(upto as int)),
{
    let ghost ps = split_char(h@, c);
    let mut i: usize = 0;
    while i < upto
        invariant
            pieces_of(h@, c, ps, bounds@),
            upto <= bounds.len(),
            i <= upto,
            forall|k: int| 0 <= k < i ==> hex_group(#[trigger] ps[k]),
        decreases upto - i,
    {
        assert(ps[i as int] == h@.subrange(bounds@[i as int].0 as int, bounds@[i as int].1 as int));
        if !hex_group_window(h, bounds[i].0, bounds[i].1) {
            assert(ps.take(upto as int)[i as int] == ps[i as int]);
            assert(!hex_group(ps.take(upto as int)[i as int]));
            return false;
        }
        i += 1;
    }
    assert forall|k: int| 0 <= k < upto implies hex_group(#[trigger] ps.take(upto as int)[k]) by {
        assert(ps.take(upto as int)[k] == ps[k]);
    }
    true
}

#[verifier::loop_isolation(false)]
fn is_ipv4_vec(h: &Vec<char>) -> (r: bool)
    ensures
        r == is_ipv4(h@),
{
    let bounds = split_bounds(h, '.');
    let ghost ps = split_char(h@, '.');
    if bounds.len() != 4 {
        assert(ps.len() != 4);
        return false;
    }
    let mut i: usize = 0;
    while i < 4
        invariant
            pieces_of(h@, '.', ps, bounds@),
            bounds@.len() == 4,
            i <= 4,
            forall|k: int| 0 <= k < i ==> dec_octet(#[trigger] ps[k]),
        decreases 4 - i,
    {
        assert(ps[i as int] == h@.subrange(bounds@[i as int].0 as int, bounds@[i as int].1 as int));
        if !dec_octet_window(h, bounds[i].0, bounds[i].1) {
            assert(!dec_octet(ps[i as int]));
            return false;
        }
        i += 1;
    }
    assert(ps.len() == 4);
    true
}

/// [`group_count`] of the colon-separated pieces of `h`; `None` for -1.
#[verifier::loop_isolation(false)]
fn group_count_vec(h: &Vec<char>) -> (r: Option<u128>)
    ensures
        match r {
            Some(n) => group_count(split_char(h@, ':')) == n,
            None => group_count(split_char(h@, ':')) == -1,
        },
{
    let bounds = split_bounds(h, ':');
    let ghost ps = split_char(h@, ':');
    let n = bounds.len();
    proof {
        assert(ps.take(n as int) =~= ps);
    }
    assert(ps.len() == n);
    if pieces_hex(h, &bounds, n, ':') {
        assert(all_hex(ps));
        return Some(n as u128);
    }
    assert(!all_hex(ps));
    proof {
        assert(ps.take(n - 1) =~= ps.drop_last());
    }
    if pieces_hex(h, &bounds, n - 1, ':') {
        let last = copy_window(h, bounds[n - 1].0, bounds[n - 1].1);
        assert(ps[n - 1] == h@.subrange(bounds@[n - 1].0 as int, bounds@[n - 1].1 as int));
        assert(last@ == ps.last());
        if is_ipv4_vec(&last) {
            return Some(n as u128 + 1);
        }
    }
    None
}

fn first_double_colon_vec(h: &Vec<char>) -> (r: Option<usize>)
    ensures
        match r {
            Some(k) => k + 1 < h.len() && first_double_colon(h@) == k,
            None => first_double_colon(h@) == -1,
        },
{
    let mut i: usize = 0;
    while h.len() >= 2 && i < h.len() - 1
        invariant
            i <= h.len(),
            forall|j: int| 0 <= j < i && j + 1 < h.len() ==> !(#[trigger] h@[j] == ':' && h@[j + 1] == ':'),
        decreases h.len() - i,
    {
        if h[i] == ':' && h[i + 1] == ':' {
            proof {
                assert(double_colon_at(h@, i as int));
                let k = choose|k: int| double_colon_at(h@, k);
                if k < i {
                    assert(h@[k] == ':' && h@[k + 1] == ':');
                }
                if i < k {
                    assert(!(h@[i as int] == ':' && h@[i + 1] == ':'));
                }
            }
            return Some(i);
        }
        i += 1;
    }
    proof {
        assert forall|k: int| !double_colon_at(h@, k) by {
            if double_colon_at(h@, k) {
                assert(h@[k] == ':' && h@[k + 1] == ':');
            }
        }
    }
    None
}

fn is_ipv6_vec(h: &Vec<char>) -> (r: bool)
    ensures
        r == is_ipv6(h@),
{
    match first_double_colon_vec(h) {
        None => match group_count_vec(h) {
            Some(n) => n == 8,
            None => false,
        },
        Some(k) => {
            let hd = copy_window(h, 0, k);
            let tl = copy_window(h, k + 2, h.len());
            assert(hd@ == h@.take(k as int));
            assert(tl@ == h@.skip(k + 2));
            let head: u128 = if hd.len() == 0 {
                0
            } else {
                let b = split_bounds(&hd, ':');
                proof {
                    assert(split_char(hd@, ':').take(b@.len() as int) =~= split_char(hd@, ':'));
                }
                if pieces_hex(&hd, &b, b.len(), ':') {
                    b.len() as u128
                } else {
                    return false;
                }
            };
            let tail: u128 = if tl.len() == 0 {
                0
            } else {
                match group_count_vec(&tl) {
                    Some(t) => t,
                    None => return false,
                }
            };
            head <= 7 && tail <= 7 - head
        },
    }
}

/// Whether `h` is an IP address literal, as `str::parse::<IpAddr>` decides.
pub fn host_is_ip_literal(h: &Vec<char>) -> (r: bool)
    ensures
        r == is_ip_literal(h@),
{
    is_ipv4_vec(h) || is_ipv6_vec(h)
}

} // verus!
