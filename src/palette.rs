use vstd::prelude::*;

use itertools::Itertools;

use crate::game::{Color, ColorModel};

verus! {

/// Space, tab, line feed, form feed and carriage return.
pub open spec fn is_ascii_space(c: char) -> bool {
    c == ' ' || c == '\t' || c == '\n' || c == '\x0C' || c == '\r'
}

/// The words of `s` that are complete, and the word still being read.
pub open spec fn split_words(s: Seq<char>) -> (Seq<Seq<char>>, Seq<char>)
    decreases s.len(),
{
    if s.len() == 0 {
        (Seq::empty(), Seq::empty())
    } else {
        let (done, cur) = split_words(s.drop_last());
        if !is_ascii_space(s.last()) {
            (done, cur.push(s.last()))
        } else if cur.len() > 0 {
            (done.push(cur), Seq::empty())
        } else {
            (done, cur)
        }
    }
}

/// The words of a text: its maximal runs of characters that are not ASCII
/// whitespace, in order.
pub open spec fn ascii_words(s: Seq<char>) -> Seq<Seq<char>> {
    let (done, cur) = split_words(s);
    if cur.len() > 0 {
        done.push(cur)
    } else {
        done
    }
}

pub open spec fn is_digit(c: char) -> bool {
    '0' <= c && c <= '9'
}

/// The value of a string of decimal digits.
pub open spec fn digits_value(d: Seq<char>) -> int
    decreases d.len(),
{
    if d.len() == 0 {
        0
    } else {
        digits_value(d.drop_last()) * 10 + (d.last() as int - '0' as int)
    }
}

/// The value of a word read as a decimal `u8`: an optional `+`, then one or
/// more digits with a value of at most 255; `None` for any other word.
pub open spec fn u8_of(w: Seq<char>) -> Option<u8> {
    let d = if w.len() > 0 && w[0] == '+' {
        w.drop_first()
    } else {
        w
    };
    if d.len() > 0 && (forall|i: int| 0 <= i < d.len() ==> is_digit(#[trigger] d[i])) && digits_value(d) <= 255 {
        Some(digits_value(d) as u8)
    } else {
        None
    }
}

/// Relies on `str::split_ascii_whitespace`: the words of `s`, in order.
#[verifier::external_body]
fn words(s: &str) -> (r: Vec<String>)
    ensures
        r@.map_values(|w: String| w@) == ascii_words(s@),
{
    s.split_ascii_whitespace().map(|w| w.to_string()).collect()
}

/// Relies on `str::parse::<u8>`: the word's value, or `None` on an error.
#[verifier::external_body]
fn parse_u8(w: &String) -> (r: Option<u8>)
    ensures
        r == u8_of(w@),
{
    w.parse::<u8>().ok()
}

/// Relies on `Itertools::collect_tuple`: a triple exactly when the vector holds
/// three values, taken in order.
#[verifier::external_body]
fn collect_three(v: Vec<u8>) -> (r: Option<(u8, u8, u8)>)
    ensures
        v@.len() == 3 ==> r == Some((v@[0], v@[1], v@[2])),
        v@.len() != 3 ==> r is None,
{
    v.into_iter().collect_tuple()
}

/// The values that were read, in order, the failed reads left out.
pub open spec fn kept(values: Seq<Option<u8>>) -> Seq<u8>
    decreases values.len(),
{
    if values.len() == 0 {
        Seq::empty()
    } else {
        match values.last() {
            Some(x) => kept(values.drop_last()).push(x),
            None => kept(values.drop_last()),
        }
    }
}

/// Three channel values, when there are exactly three.
pub open spec fn rgb_of(values: Seq<u8>) -> Option<(u8, u8, u8)> {
    if values.len() == 3 {
        Some((values[0], values[1], values[2]))
    } else {
        None
    }
}

/// The channels given by the results of reading each word: the successful
/// reads, which must be exactly three.
pub fn rgb_from_reads(reads: &Vec<Option<u8>>) -> (r: Option<(u8, u8, u8)>)
    ensures
        r == rgb_of(kept(reads@)),
{
    let mut values: Vec<u8> = Vec::new();
    assert(reads@.take(0) =~= Seq::<Option<u8>>::empty());
    for i in 0..reads.len()
        invariant
            values@ == kept(reads@.take(i as int)),
    {
        assert(reads@.take(i + 1).drop_last() =~= reads@.take(i as int));
        match reads[i] {
            Some(x) => values.push(x),
            None => {},
        }
    }
    assert(reads@.take(reads@.len() as int) =~= reads@);
    collect_three(values)
}

/// Reads "R G B" channels from a line: its words that are decimal `u8` values,
/// which must be exactly three; the other words are skipped.
pub fn parse_rgb(input: &str) -> (r: Option<(u8, u8, u8)>)
    ensures
        r == rgb_of(kept(ascii_words(input@).map_values(|w: Seq<char>| u8_of(w)))),
{
    let ws = words(input);
    let mut reads: Vec<Option<u8>> = Vec::new();
    for i in 0..ws.len()
        invariant
            reads@.len() == i,
            forall|k: int| 0 <= k < i ==> reads@[k] == u8_of(#[trigger] ws@[k]@),
    {
        reads.push(parse_u8(&ws[i]));
    }
    assert(reads@ =~= ascii_words(input@).map_values(|w: Seq<char>| u8_of(w)));
    rgb_from_reads(&reads)
}

/// The palette after adding `c`: it replaces the first colour of the same name,
/// or goes at the end when there is none.
pub open spec fn with_color(p: Seq<ColorModel>, c: ColorModel) -> Seq<ColorModel> {
    if exists|i: int| 0 <= i < p.len() && #[trigger] p[i].0 == c.0 {
        let i = choose|i: int|
            0 <= i < p.len() && p[i].0 == c.0 && forall|j: int| 0 <= j < i ==> #[trigger] p[j].0 != c.0;
        p.update(i, c)
    } else {
        p.push(c)
    }
}

/// Adds `color` to the palette, replacing the first colour of the same name.
pub fn set_color(colors: &mut Vec<Color>, color: Color)
    ensures
        final(colors)@.map_values(|x: Color| x@) == with_color(old(colors)@.map_values(|x: Color| x@), color@),
{
    let ghost p = old(colors)@.map_values(|x: Color| x@);
    let n = colors.len();
    let mut i: usize = 0;
    while i < n
        invariant
            n == colors@.len(),
            colors@ == old(colors)@,
            p == colors@.map_values(|x: Color| x@),
            p.len() == n,
            i <= n,
            forall|j: int| 0 <= j < i ==> #[trigger] p[j].0 != color@.0,
        decreases n - i,
    {
        assert(p[i as int] == colors@[i as int]@);
        if colors[i].same_name(&color) {
            assert(p[i as int].0 == color@.0);
            let ghost k = choose|k: int|
                0 <= k < p.len() && p[k].0 == color@.0 && forall|j: int| 0 <= j < k ==> #[trigger] p[j].0 != color@.0;
            assert(k == i) by {
                if k < i {
                    assert(p[k].0 != color@.0);
                } else if k > i {
                    assert(p[i as int].0 != color@.0);
                }
            }
            colors.set(i, color);
            assert(colors@.map_values(|x: Color| x@) =~= with_color(p, color@));
            return;
        }
        i += 1;
    }
    colors.push(color);
    assert(colors@.map_values(|x: Color| x@) =~= with_color(p, color@));
}

} // verus!
