//! Text measurement: every character advances by half the font size.
//!
//! A stand-in for real shaping that keeps layout deterministic: widths are a
//! count of characters (not bytes) times a fixed advance.
use vstd::prelude::*;
use crate::layout::geom::{clamp_au, trunc_div, Au};
use crate::text_ops::{chars_of, find, first_at, lemma_find_range, lemma_find_unique, string_of, trim_end_char};

verus! {

/// What the font size is divided by to give a character's advance.
pub const ADVANCE_DIVISOR: i32 = 2;

/// The advance of one character at `font_size`.
pub fn char_advance(font_size: Au) -> (r: Au)
    ensures
        r@ == trunc_div(font_size@, 2),
{
    font_size.divided_by(ADVANCE_DIVISOR)
}

/// The width of `n` characters at `font_size`: the advance times the count,
/// saturating (a count past `i32::MAX` counts as `i32::MAX`).
pub open spec fn width_of(n: int, font_size: Au) -> int {
    clamp_au(trunc_div(font_size@, 2) * (if n > i32::MAX { i32::MAX as int } else { n }))
}

/// The width of `text` at `font_size`.
pub fn measure(text: &str, font_size: Au) -> (r: Au)
    ensures
        r@ == width_of(text@.len() as int, font_size),
{
    let v = chars_of(text);
    width_of_count(v.len(), font_size)
}

/// The width of `n` characters.
fn width_of_count(n: usize, font_size: Au) -> (r: Au)
    ensures
        r@ == width_of(n as int, font_size),
{
    let advance = char_advance(font_size);
    let count: i32 = if n > i32::MAX as usize {
        i32::MAX
    } else {
        n as i32
    };
    advance.times(count)
}

/// `s` cut after each space: each piece keeps its trailing space, and what
/// follows the last space, if anything, is the last piece.
pub open spec fn words_of(s: Seq<char>) -> Seq<Seq<char>>
    decreases s.len(),
{
    let k = find(s, ' ');
    if k < 0 {
        if s.len() == 0 {
            Seq::empty()
        } else {
            seq![s]
        }
    } else {
        proof {
            lemma_find_range(s, ' ');
        }
        seq![s.take(k + 1)] + words_of(s.skip(k + 1))
    }
}

/// A place where a line may be broken, and the width of the text since the
/// previous one. Lines break at ASCII spaces only.
#[derive(Clone, Copy, Debug, PartialEq, Eq, Structural)]
pub struct BreakOpportunity {
    /// Byte offset of the break in the text.
    pub offset: usize,
    /// The width of the text from the previous break to this one.
    pub width: Au,
}

/// The pieces of `text` between break opportunities, each with its width.
pub fn words(text: &str, font_size: Au) -> (r: Vec<(String, Au)>)
    ensures
        r@.len() == words_of(text@).len(),
        forall|i: int|
            0 <= i < r@.len() ==> (#[trigger] r@[i]).0@ == words_of(text@)[i] && r@[i].1@ == width_of(
                words_of(text@)[i].len() as int,
                font_size,
            ),
{
    let v = chars_of(text);
    let ghost s = v@;
    let mut out: Vec<(String, Au)> = Vec::new();
    let ghost mut done: Seq<Seq<char>> = Seq::empty();
    let mut start: usize = 0;
    let mut i: usize = 0;
    assert(s.skip(0) =~= s);
    while i < v.len()
        invariant
            s == v@,
            start <= i <= v@.len(),
            words_of(s) == done + words_of(s.skip(start as int)),
            forall|j: int| start <= j < i ==> s[j] != ' ',
            out@.len() == done.len(),
            forall|j: int|
                0 <= j < out@.len() ==> (#[trigger] out@[j]).0@ == done[j] && out@[j].1@ == width_of(
                    done[j].len() as int,
                    font_size,
                ),
        decreases v@.len() - i,
    {
        if v[i] == ' ' {
            let ghost rest = s.skip(start as int);
            proof {
                assert(first_at(rest, ' ', i - start));
                lemma_find_unique(rest, ' ', i - start);
                assert(rest.take(i - start + 1) =~= s.subrange(start as int, i + 1));
                assert(rest.skip(i - start + 1) =~= s.skip(i + 1));
            }
            let word = string_of(&v, start, i + 1);
            let width = width_of_count(i + 1 - start, font_size);
            out.push((word, width));
            proof {
                done = done.push(s.subrange(start as int, i + 1));
                assert(words_of(s) =~= done + words_of(s.skip(i + 1)));
            }
            start = i + 1;
        }
        i += 1;
    }
    let ghost rest = s.skip(start as int);
    proof {
        assert forall|j: int| 0 <= j < rest.len() implies rest[j] != ' ' by {
            assert(rest[j] == s[start + j]);
        }
        crate::text_ops::lemma_find_absent(rest, ' ');
    }
    if start < v.len() {
        let word = string_of(&v, start, v.len());
        let width = width_of_count(v.len() - start, font_size);
        out.push((word, width));
        proof {
            assert(rest =~= s.subrange(start as int, s.len() as int));
            done = done.push(rest);
        }
    } else {
        assert(rest.len() == 0);
    }
    assert(words_of(s) =~= done);
    out
}

/// The width of `word` without its trailing spaces.
pub fn width_without_trailing_spaces(word: &str, font_size: Au) -> (r: Au)
    ensures
        r@ == width_of(trim_end_char(word@, ' ').len() as int, font_size),
{
    let v = chars_of(word);
    let n = crate::net::psl::trim_end_window(&v, ' ');
    width_of_count(n, font_size)
}

} // verus!
