//! The Public Suffix List, and the registrable domain (eTLD+1) it yields.
//!
//! A rule is one of three kinds: a **normal** rule `com`, a **wildcard** rule
//! `*.ck` whose `*` matches exactly one label, and an **exception** rule
//! `!www.ck` that removes a match the wildcard would make. Suffixes are tried
//! from the longest to the shortest and the first rule found decides; a host
//! matching no rule is treated as matching `*`, so an unknown TLD yields the
//! last two labels. Hosts arrive already in Punycode; nothing here handles
//! Unicode.
use vstd::prelude::*;
use crate::net::table::CharTable;
use crate::text_ops::{
    all_ascii, chars_of, has_double_dot, join_dot, lemma_join_windows, lemma_labels_fit,
    lemma_split_step, lower, lower_window, piece_end, pieces_of, split_bounds, split_char,
    split_lines, string_of, string_of_all, trim, trim_end_char, trim_window, vec_eq, window_eq,
    window_has_double_dot,
};
use crate::net::ip::{is_ip_literal, host_is_ip_literal};

verus! {

/// Which of the three kinds of rule an entry is.
#[derive(Debug, Clone, Copy, PartialEq, Eq, Structural)]
pub enum RuleKind {
    /// `com`
    Normal,
    /// `*.ck` — the label before it is also part of the suffix.
    Wildcard,
    /// `!www.ck` — this is *not* a suffix, despite a wildcard saying so.
    Exception,
}

/// Why a list could not be used.
#[derive(Debug, Clone, PartialEq, Eq, Structural)]
pub enum PslError {
    /// The list held no usable rules. An empty list would make every host its
    /// own registrable domain, silently widening every partition.
    Empty,
}

/// The list, parsed: rule text (without `*.` or `!`, lowercased) to its kind.
pub struct PublicSuffixList {
    rules: CharTable<RuleKind>,
}

/// What one line of the published list contributes, if anything.
pub open spec fn rule_of_line(line: Seq<char>) -> Option<(Seq<char>, RuleKind)> {
    let t = trim(line);
    if t.len() == 0 || (t.len() >= 2 && t[0] == '/' && t[1] == '/') {
        None
    } else {
        let (kind, body) = if t[0] == '!' {
            (RuleKind::Exception, t.drop_first())
        } else if t.len() >= 2 && t[0] == '*' && t[1] == '.' {
            (RuleKind::Wildcard, t.skip(2))
        } else {
            (RuleKind::Normal, t)
        };
        if body.len() == 0 {
            None
        } else {
            Some((lower(body), kind))
        }
    }
}

/// The rules a sequence of lines defines; a later line for the same rule text
/// replaces an earlier one.
pub open spec fn rules_of_lines(lines: Seq<Seq<char>>) -> Map<Seq<char>, RuleKind>
    decreases lines.len(),
{
    if lines.len() == 0 {
        Map::empty()
    } else {
        let m = rules_of_lines(lines.drop_last());
        match rule_of_line(lines.last()) {
            Some((key, kind)) => m.insert(key, kind),
            None => m,
        }
    }
}

/// The rules the published text form defines.
pub open spec fn rules_of_text(text: Seq<char>) -> Map<Seq<char>, RuleKind> {
    rules_of_lines(split_lines(text))
}

/// The suffix label count the rules give when the candidates of `labels` are
/// tried from `labels.skip(start)` onwards (longest first); `None` when no rule
/// matches any of them.
pub open spec fn matched_suffix(
    rules: Map<Seq<char>, RuleKind>,
    labels: Seq<Seq<char>>,
    start: int,
) -> Option<int>
    decreases labels.len() - start,
{
    if start < 0 || start >= labels.len() {
        None
    } else {
        let candidate = join_dot(labels.skip(start));
        let count = labels.len() - start;
        if rules.contains_key(candidate) {
            match rules[candidate] {
                RuleKind::Exception => Some(count - 1),
                RuleKind::Wildcard => Some(count + 1),
                RuleKind::Normal => Some(count),
            }
        } else {
            matched_suffix(rules, labels, start + 1)
        }
    }
}

/// The longest suffix of the host that has a rule decides, whatever rules
/// match shorter suffixes: when the suffix of `labels` from label `s` on has
/// a rule and no longer suffix has one, the public suffix is that many
/// labels for a normal rule, one more for a wildcard, one fewer for an
/// exception. With rules `uk` and `co.uk`, `x.y.co.uk` has the two-label
/// public suffix `co.uk`, not `uk`.
pub proof fn lemma_longest_rule_decides(rules: Map<Seq<char>, RuleKind>, labels: Seq<Seq<char>>, s: int)
    requires
        0 <= s < labels.len(),
        rules.contains_key(join_dot(labels.skip(s))),
        forall|j: int| 0 <= j < s ==> !rules.contains_key(#[trigger] join_dot(labels.skip(j))),
    ensures
        matched_suffix(rules, labels, 0) == Some(
            match rules[join_dot(labels.skip(s))] {
                RuleKind::Normal => labels.len() - s,
                RuleKind::Wildcard => labels.len() - s + 1,
                RuleKind::Exception => labels.len() - s - 1,
            },
        ),
{
    lemma_walk_from(rules, labels, s, 0);
}

/// Walking on from `j` before `s` gives what walking from `s` gives.
proof fn lemma_walk_from(rules: Map<Seq<char>, RuleKind>, labels: Seq<Seq<char>>, s: int, j: int)
    requires
        0 <= j <= s < labels.len(),
        forall|k: int| 0 <= k < s ==> !rules.contains_key(#[trigger] join_dot(labels.skip(k))),
    ensures
        matched_suffix(rules, labels, j) == matched_suffix(rules, labels, s),
    decreases s - j,
{
    if j < s {
        assert(!rules.contains_key(join_dot(labels.skip(j))));
        lemma_walk_from(rules, labels, s, j + 1);
    }
}

/// The host as the suffix walk sees it: trailing dots dropped, lowercased.
pub open spec fn normalized_host(host: Seq<char>) -> Seq<char> {
    lower(trim_end_char(host, '.'))
}

/// The registrable domain of `host` under `rules`, where `ip_literal` says
/// whether the normalized host parses as an IP address.
pub open spec fn registrable(
    rules: Map<Seq<char>, RuleKind>,
    host: Seq<char>,
    ip_literal: bool,
) -> Option<Seq<char>> {
    let h = normalized_host(host);
    if h.len() == 0 || h[0] == '.' || has_double_dot(h) || ip_literal || h[0] == '[' {
        None
    } else {
        let labels = split_char(h, '.');
        let n = labels.len();
        let suffix = match matched_suffix(rules, labels, 0) {
            Some(s) => s,
            None => 1,
        };
        if n <= suffix {
            None
        } else {
            Some(join_dot(labels.skip(n - (suffix + 1))))
        }
    }
}

impl View for PublicSuffixList {
    type V = Map<Seq<char>, RuleKind>;

    closed spec fn view(&self) -> Map<Seq<char>, RuleKind> {
        self.rules@
    }
}

impl PublicSuffixList {
    /// Parse the list from its published text form.
    ///
    /// Refuses an empty result: a list that parsed to nothing would make every
    /// host its own registrable domain.
    pub fn parse(text: &str) -> (r: Result<Self, PslError>)
        ensures
            match r {
                Ok(list) => list@ == rules_of_text(text@) && list@.dom().len() > 0,
                Err(PslError::Empty) => rules_of_text(text@).dom().len() == 0,
            },
    {
        let v = chars_of(text);
        let mut rules: CharTable<RuleKind> = CharTable::new();
        let mut pos: usize = 0;
        let ghost mut done: Seq<Seq<char>> = Seq::empty();
        proof {
            assert(v@.skip(0) =~= v@);
            assert(split_lines(v@) =~= done + split_lines(v@.skip(0)));
        }
        loop
            invariant_except_break
                split_lines(v@) == done + split_lines(v@.skip(pos as int)),
            invariant
                pos <= v.len(),
                v@ == text@,
                rules@ == rules_of_lines(done),
            ensures
                rules@ == rules_of_text(text@),
            decreases v.len() - pos,
        {
            let end = piece_end(&v, pos, '\n');
            proof {
                lemma_split_step(v@, '\n', pos as int, end as int);
            }
            let ghost piece = v@.subrange(pos as int, end as int);
            let rule = rule_of_window(&v, pos, end);
            match rule {
                Some((key, kind)) => {
                    rules.set(key, kind);
                },
                None => {},
            }
            proof {
                let next = done.push(piece);
                assert(next.drop_last() =~= done);
                assert(next.last() == piece);
                done = next;
            }
            if end == v.len() {
                proof {
                    assert(split_lines(v@) =~= done);
                }
                break;
            }
            proof {
                assert(split_lines(v@) =~= done + split_lines(v@.skip(end + 1)));
            }
            pos = end + 1;
        }
        if rules.len() == 0 {
            return Err(PslError::Empty);
        }
        Ok(PublicSuffixList { rules })
    }

    /// How many rules were parsed.
    pub fn len(&self) -> (n: usize)
        ensures
            n == self@.dom().len(),
    {
        self.rules.len()
    }

    /// Whether the list is empty. Never true for a list from [`Self::parse`].
    pub fn is_empty(&self) -> (r: bool)
        ensures
            r == (self@.dom().len() == 0),
    {
        self.rules.len() == 0
    }

    /// The registrable domain — eTLD+1 — for `host`.
    ///
    /// `None` when the host *is* a public suffix with nothing registrable below
    /// it, when it is an IP literal, or when it is malformed. Every caller must
    /// treat `None` as "cannot be partitioned" and refuse.
    pub fn registrable_domain(&self, host: &str) -> (r: Option<String>)
        ensures
            r matches Some(d) ==> registrable(self@, host@, is_ip_literal(normalized_host(host@)))
                == Some(d@),
            r is None ==> registrable(self@, host@, is_ip_literal(normalized_host(host@))) is None,
    {
        let v = chars_of(host);
        let trimmed = trim_end_window(&v, '.');
        let h = lower_window(&v, 0, trimmed);
        let ip_literal = host_is_ip_literal(&h);
        self.registrable_domain_given(host, ip_literal)
    }

    /// The registrable domain of `host`, given whether its normalized form
    /// (trailing dots dropped, lowercased) parses as an IP address.
    pub fn registrable_domain_given(&self, host: &str, ip_literal: bool) -> (r: Option<String>)
        ensures
            r matches Some(d) ==> registrable(self@, host@, ip_literal) == Some(d@),
            r is None ==> registrable(self@, host@, ip_literal) is None,
    {
        let v = chars_of(host);
        let trimmed = trim_end_window(&v, '.');
        let h = lower_window(&v, 0, trimmed);
        proof {
            assert(v@.subrange(0, trimmed as int) == trim_end_char(host@, '.'));
        }
        if h.len() == 0 || h[0] == '.' || window_has_double_dot(&h, 0, h.len()) || ip_literal
            || h[0] == '[' {
            proof {
                assert(h@.subrange(0, h@.len() as int) == h@);
            }
            return None;
        }
        proof {
            assert(h@.subrange(0, h@.len() as int) == h@);
        }
        let bounds = split_bounds(&h, '.');
        let ghost labels = split_char(h@, '.');
        let n = bounds.len();
        let mut suffix: Option<u128> = None;
        let mut start: usize = 0;
        while start < n
            invariant_except_break
                suffix is None,
                matched_suffix(self@, labels, 0) == matched_suffix(self@, labels, start as int),
            invariant
                pieces_of(h@, '.', labels, bounds@),
                n == bounds@.len() == labels.len(),
                start <= n,
            ensures
                suffix matches Some(s) ==> matched_suffix(self@, labels, 0) == Some(s as int),
                suffix is None ==> matched_suffix(self@, labels, 0) is None,
            decreases n - start,
        {
            proof {
                lemma_join_windows(h@, labels, bounds@, start as int);
            }
            let count = n - start;
            match self.rules.get(&h, bounds[start].0, h.len()) {
                Some(RuleKind::Exception) => {
                    suffix = Some(count as u128 - 1);
                    break;
                },
                Some(RuleKind::Wildcard) => {
                    suffix = Some(count as u128 + 1);
                    break;
                },
                Some(RuleKind::Normal) => {
                    suffix = Some(count as u128);
                    break;
                },
                None => {},
            }
            start += 1;
        }
        let suffix_labels: u128 = match suffix {
            Some(s) => s,
            None => 1,
        };
        if n as u128 <= suffix_labels {
            return None;
        }
        let first = n - (suffix_labels as usize + 1);
        proof {
            lemma_join_windows(h@, labels, bounds@, first as int);
        }
        Some(string_of(&h, bounds[first].0, h.len()))
    }
}

/// One line of the list, classified.
fn rule_of_window(v: &Vec<char>, lo: usize, hi: usize) -> (r: Option<(Vec<char>, RuleKind)>)
    requires
        lo <= hi <= v.len(),
    ensures
        match r {
            Some((key, kind)) => rule_of_line(v@.subrange(lo as int, hi as int)) == Some((key@, kind)),
            None => rule_of_line(v@.subrange(lo as int, hi as int)) is None,
        },
{
    let (a, b) = trim_window(v, lo, hi);
    let ghost t = v@.subrange(a as int, b as int);
    if a == b || (b - a >= 2 && v[a] == '/' && v[a + 1] == '/') {
        return None;
    }
    let (kind, body_start) = if v[a] == '!' {
        (RuleKind::Exception, a + 1)
    } else if b - a >= 2 && v[a] == '*' && v[a + 1] == '.' {
        (RuleKind::Wildcard, a + 2)
    } else {
        (RuleKind::Normal, a)
    };
    proof {
        assert(t.drop_first() =~= v@.subrange(a + 1, b as int));
        if b - a >= 2 {
            assert(t.skip(2) =~= v@.subrange(a + 2, b as int));
        }
    }
    if body_start == b {
        return None;
    }
    let key = lower_window(v, body_start, b);
    Some((key, kind))
}

/// The length of `v` with trailing `c`s dropped.
pub fn trim_end_window(v: &Vec<char>, c: char) -> (n: usize)
    ensures
        n <= v.len(),
        v@.subrange(0, n as int) == trim_end_char(v@, c),
{
    let mut n = v.len();
    assert(v@.subrange(0, v@.len() as int) =~= v@);
    while n > 0 && v[n - 1] == c
        invariant
            n <= v.len(),
            trim_end_char(v@, c) == trim_end_char(v@.subrange(0, n as int), c),
        decreases n,
    {
        assert(v@.subrange(0, n as int).drop_last() =~= v@.subrange(0, n - 1));
        n -= 1;
    }
    n
}

impl PslError {
    /// The message this error is shown with.
    pub fn to_string(&self) -> (r: String)
        ensures
            r@ == "the public suffix list contained no rules"@,
    {
        let mut s = String::new();
        crate::text_ops::push_str(&mut s, "the public suffix list contained no rules");
        s
    }
}

} // verus!
