//! The shape of a PBN tag, `[Name "value"]`, found inside running text.
use vstd::prelude::*;
use crate::text::{find_char, find_char_from, has_prefix, is_whitespace, is_ws, lemma_find_char, prefix_at};

verus! {

/// The first index at or after `i` that is not white space, or `s.len()`.
pub open spec fn ws_end(s: Seq<char>, i: int) -> int
    decreases s.len() - i,
{
    if i >= s.len() {
        s.len() as int
    } else if is_ws(s[i]) {
        ws_end(s, i + 1)
    } else {
        i
    }
}

pub proof fn lemma_ws_end(s: Seq<char>, i: int)
    requires
        0 <= i <= s.len(),
    ensures
        i <= ws_end(s, i) <= s.len(),
        forall|k: int| i <= k < ws_end(s, i) ==> is_ws(#[trigger] s[k]),
        ws_end(s, i) < s.len() ==> !is_ws(s[ws_end(s, i)]),
    decreases s.len() - i,
{
    if i < s.len() && is_ws(s[i]) {
        lemma_ws_end(s, i + 1);
    }
}

/// The opening of a tag named `name`: `[` followed by the name.
pub open spec fn tag_open(name: Seq<char>) -> Seq<char> {
    seq!['['] + name
}

/// Whether a tag `[name <white space> "value"]` starts at `p`, with a value
/// of at least `min_value` characters (none of them a `"`). If so, the start
/// and end of the value and the end of the tag.
///
/// This is the text `\[name\s+"([^"]*)"\]` (or `[^"]+` when `min_value` is
/// one) matches at `p`: the white space before the quote is a maximal run,
/// and the value runs to the first quote after the opening one.
pub open spec fn tag_at(s: Seq<char>, p: int, name: Seq<char>, min_value: int) -> Option<
    (int, int, int),
> {
    if 0 <= p && has_prefix(s.skip(p), tag_open(name)) {
        let q = p + 1 + name.len();
        let w = ws_end(s, q);
        if w > q && w < s.len() && s[w] == '"' {
            let e = find_char(s, '"', w + 1);
            if e < s.len() && e + 1 < s.len() && s[e + 1] == ']' && e - (w + 1) >= min_value {
                Some((w + 1, e, e + 2))
            } else {
                None
            }
        } else {
            None
        }
    } else {
        None
    }
}

/// The first tag `[name "value"]` at or after `p`: its start, the start and
/// end of its value, and its end.
pub open spec fn first_tag_from(s: Seq<char>, p: int, name: Seq<char>, min_value: int) -> Option<
    (int, int, int, int),
>
    decreases s.len() - p,
{
    if p < 0 || p >= s.len() {
        None
    } else {
        match tag_at(s, p, name, min_value) {
            Some(t) => Some((p, t.0, t.1, t.2)),
            None => first_tag_from(s, p + 1, name, min_value),
        }
    }
}

/// Whether a tag `[name "value"]` starts at `p`.
fn tag_at_exec(s: &[char], p: usize, name: &[char], min_value: usize) -> (r: Option<
    (usize, usize, usize),
>)
    requires
        p <= s.len(),
        name.len() < usize::MAX - 1,
    ensures
        match tag_at(s@, p as int, name@, min_value as int) {
            Some(t) => r == Some((t.0 as usize, t.1 as usize, t.2 as usize)),
            None => r is None,
        },
{
    if p >= s.len() || s[p] != '[' {
        proof {
            if has_prefix(s@.skip(p as int), tag_open(name@)) {
                assert(s@.skip(p as int).take(tag_open(name@).len() as int)[0] == '[');
            }
        }
        return None;
    }
    if !prefix_at(s, p + 1, name) {
        proof {
            if has_prefix(s@.skip(p as int), tag_open(name@)) {
                assert(s@.skip(p + 1).take(name@.len() as int) =~= s@.skip(p as int).take(
                    tag_open(name@).len() as int,
                ).drop_first());
                assert(s@.skip(p as int).take(tag_open(name@).len() as int).drop_first()
                    =~= tag_open(name@).drop_first());
                assert(tag_open(name@).drop_first() =~= name@);
            }
        }
        return None;
    }
    proof {
        assert(s@.skip(p as int).take(tag_open(name@).len() as int) =~= tag_open(name@));
    }
    let q = p + 1 + name.len();
    let mut w = q;
    while w < s.len() && is_whitespace(s[w])
        invariant
            q <= w <= s.len(),
            ws_end(s@, q as int) == ws_end(s@, w as int),
        decreases s.len() - w,
    {
        w = w + 1;
    }
    if !(w > q && w < s.len() && s[w] == '"') {
        return None;
    }
    let e = find_char_from(s, '"', w + 1);
    if e < s.len() && e + 1 < s.len() && s[e + 1] == ']' && e - (w + 1) >= min_value {
        Some((w + 1, e, e + 2))
    } else {
        None
    }
}

/// The first tag `[name "value"]` in `s` at or after `from`.
pub fn find_tag(s: &[char], from: usize, name: &[char], min_value: usize) -> (r: Option<
    (usize, usize, usize, usize),
>)
    requires
        from <= s.len(),
        name.len() < usize::MAX - 1,
    ensures
        match first_tag_from(s@, from as int, name@, min_value as int) {
            Some(t) => r == Some((t.0 as usize, t.1 as usize, t.2 as usize, t.3 as usize)),
            None => r is None,
        },
{
    let mut p = from;
    while p < s.len()
        invariant
            from <= p <= s.len(),
            name.len() < usize::MAX - 1,
            first_tag_from(s@, from as int, name@, min_value as int) == first_tag_from(
                s@,
                p as int,
                name@,
                min_value as int,
            ),
        decreases s.len() - p,
    {
        match tag_at_exec(s, p, name, min_value) {
            Some(t) => {
                return Some((p, t.0, t.1, t.2));
            },
            None => {},
        }
        p = p + 1;
    }
    None
}

/// Bounds of a found tag lie inside the text, in order.
pub proof fn lemma_first_tag_bounds(s: Seq<char>, p: int, name: Seq<char>, min_value: int)
    requires
        0 <= p,
    ensures
        first_tag_from(s, p, name, min_value) matches Some(t) ==> p <= t.0 && t.0 + name.len() + 3
            <= t.1 <= t.2 && t.2 + 2 == t.3 && t.3 <= s.len() && t.2 - t.1 >= min_value,
    decreases s.len() - p,
{
    if 0 <= p < s.len() {
        match tag_at(s, p, name, min_value) {
            Some(t) => {
                let q = p + 1 + name.len();
                lemma_ws_end(s, q);
                lemma_find_char(s, '"', ws_end(s, q) + 1);
            },
            None => {
                lemma_first_tag_bounds(s, p + 1, name, min_value);
            },
        }
    }
}

} // verus!
