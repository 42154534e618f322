//! Turning the seat words of `{...}` commentary with the table.
use vstd::prelude::*;
use crate::text::{all_ascii, chars_of, push_all, string_of};

verus! {

/// Whether `c` is a word character for the `regex` crate's `\b` (Unicode
/// Alphabetic, Mark, Decimal_Number, Connector_Punctuation or Join_Control).
pub uninterp spec fn is_word_char(c: char) -> bool;

/// Whether an ASCII character is a word character: `0`-`9`, `A`-`Z`, `_`
/// or `a`-`z`.
pub open spec fn ascii_word_char(c: char) -> bool {
    ||| ('0' <= c && c <= '9')
    ||| ('A' <= c && c <= 'Z')
    ||| c == '_'
    ||| ('a' <= c && c <= 'z')
}

/// `regex_syntax::is_word_character`.
///
/// Trusted: the result is named `is_word_char` of the argument; of the
/// Unicode table only its ASCII part is claimed (an ASCII character is a
/// word character exactly when it is a digit, a letter or `_`). The crate
/// is built with its default features, `unicode-perl` among them, so the
/// call does not panic.
#[verifier::external_body]
fn word_character(c: char) -> (r: bool)
    ensures
        r == is_word_char(c),
        (c as u32) < 128 ==> r == ascii_word_char(c),
{
    regex_syntax::is_word_character(c)
}

/// The seat words, by their index: `North`, `East`, `South`, `West`.
pub open spec fn dir_word(i: int) -> Seq<char> {
    if i == 0 {
        seq!['N', 'o', 'r', 't', 'h']
    } else if i == 1 {
        seq!['E', 'a', 's', 't']
    } else if i == 2 {
        seq!['S', 'o', 'u', 't', 'h']
    } else {
        seq!['W', 'e', 's', 't']
    }
}

/// Whether `c` matches the lower-case letter `l` ignoring case, as the
/// `regex` crate's case-insensitive matching does for the letters of the
/// seat words (simple case folding: `s` also matches the long s, `ſ`).
pub open spec fn letter_matches(c: char, l: char) -> bool {
    ||| c == l
    ||| c == upper_letter(l)
    ||| (l == 's' && c == '\u{17f}')
}

/// The upper-case form of a lower-case letter `a` to `z`.
pub open spec fn upper_letter(c: char) -> char {
    if 'a' <= c && c <= 'z' {
        ((c as int) - 32) as char
    } else {
        c
    }
}

/// The lower-case form of a seat word's letter.
pub open spec fn lower_letter(c: char) -> char {
    if 'A' <= c && c <= 'Z' {
        ((c as int) + 32) as char
    } else {
        c
    }
}

/// Whether the seat word `w` starts `s`, ignoring case.
pub open spec fn word_at(s: Seq<char>, w: int) -> bool {
    let word = dir_word(w);
    word.len() <= s.len() && forall|k: int|
        0 <= k < word.len() ==> letter_matches(#[trigger] s[k], lower_letter(word[k]))
}

/// Whether a character is an upper-case letter among those a seat word can
/// match (`A` to `Z`).
pub open spec fn is_upper(c: char) -> bool {
    'A' <= c && c <= 'Z'
}

/// The marker a matched word is first replaced by, recording its case
/// (all upper, capitalised, or lower) and which seat it names.
pub open spec fn placeholder(matched: Seq<char>, w: int) -> Seq<char> {
    let style = if is_upper(matched[0]) {
        if forall|k: int| 0 <= k < matched.len() ==> is_upper(#[trigger] matched[k]) {
            "UPPER"@
        } else {
            "TITLE"@
        }
    } else {
        "LOWER"@
    };
    "__DIR_"@ + style + seq!['_'] + crate::text::decimal(w as nat) + "__"@
}

/// Whether each character of `s` is a word character.
pub open spec fn word_flags(s: Seq<char>) -> Seq<bool> {
    Seq::new(s.len(), |i: int| is_word_char(s[i]))
}

/// One pass of `(?i)\b<word>\b` over `s`, whose characters' word flags are
/// `flags` (the character before `s` having flag `prev`; a missing one
/// counts as no word character), replacing each match, leftmost first and
/// without overlap, by its placeholder.
pub open spec fn word_pass(s: Seq<char>, flags: Seq<bool>, w: int, prev: bool) -> Seq<char>
    decreases s.len(),
{
    if s.len() == 0 {
        Seq::empty()
    } else {
        let n = dir_word(w).len() as int;
        let after = if n < s.len() {
            flags[n]
        } else {
            false
        };
        if word_at(s, w) && prev != flags[0] && flags[n - 1] != after {
            placeholder(s.take(n), w) + word_pass(s.skip(n), flags.skip(n), w, flags[n - 1])
        } else {
            seq![s[0]] + word_pass(s.drop_first(), flags.drop_first(), w, flags[0])
        }
    }
}

/// One pass of a seat word over `s` with the word flags of its own
/// characters.
pub open spec fn mark_pass(s: Seq<char>, w: int) -> Seq<char> {
    word_pass(s, word_flags(s), w, false)
}

/// The word flags of ASCII text.
pub open spec fn ascii_flags(s: Seq<char>) -> Seq<bool> {
    Seq::new(s.len(), |i: int| ascii_word_char(s[i]))
}

/// One pass of a seat word over ASCII text.
pub open spec fn ascii_mark_pass(s: Seq<char>, w: int) -> Seq<char> {
    word_pass(s, ascii_flags(s), w, false)
}

/// `s` with every occurrence of `pat` (leftmost first, without overlap)
/// replaced by `rep`, as `str::replace` does.
pub open spec fn replace_all(s: Seq<char>, pat: Seq<char>, rep: Seq<char>) -> Seq<char>
    decreases s.len(),
{
    if s.len() == 0 {
        Seq::empty()
    } else if pat.len() > 0 && pat.len() <= s.len() && s.take(pat.len() as int) == pat {
        rep + replace_all(s.skip(pat.len() as int), pat, rep)
    } else {
        seq![s[0]] + replace_all(s.drop_first(), pat, rep)
    }
}

/// The marker text for a style and seat index.
pub open spec fn marker(style: Seq<char>, i: int) -> Seq<char> {
    "__DIR_"@ + style + seq!['_'] + crate::text::decimal(i as nat) + "__"@
}

/// The upper-case form of a seat word.
pub open spec fn upper_word(i: int) -> Seq<char> {
    if i == 0 {
        seq!['N', 'O', 'R', 'T', 'H']
    } else if i == 1 {
        seq!['E', 'A', 'S', 'T']
    } else if i == 2 {
        seq!['S', 'O', 'U', 'T', 'H']
    } else {
        seq!['W', 'E', 'S', 'T']
    }
}

/// The lower-case form of a seat word.
pub open spec fn lower_word(i: int) -> Seq<char> {
    if i == 0 {
        seq!['n', 'o', 'r', 't', 'h']
    } else if i == 1 {
        seq!['e', 'a', 's', 't']
    } else if i == 2 {
        seq!['s', 'o', 'u', 't', 'h']
    } else {
        seq!['w', 'e', 's', 't']
    }
}

/// The markers of seat `i` replaced by the words of the seat `rotation`
/// places clockwise, in its three case styles.
pub open spec fn unmark(s: Seq<char>, i: int, rotation: int) -> Seq<char> {
    let j = (i + rotation) % 4;
    replace_all(
        replace_all(replace_all(s, marker("TITLE"@, i), dir_word(j)), marker("LOWER"@, i), lower_word(j)),
        marker("UPPER"@, i),
        upper_word(j),
    )
}

/// ASCII commentary text after the table turns by `rotation`: as
/// `rotated_commentary`, with the ASCII word characters.
pub open spec fn rotated_ascii_commentary(text: Seq<char>, rotation: int) -> Seq<char> {
    if rotation == 0 {
        text
    } else {
        let p0 = ascii_mark_pass(text, 0);
        let p1 = ascii_mark_pass(p0, 1);
        let p2 = ascii_mark_pass(p1, 2);
        let p3 = ascii_mark_pass(p2, 3);
        unmark(unmark(unmark(unmark(p3, 0, rotation), 1, rotation), 2, rotation), 3, rotation)
    }
}

proof fn lemma_concat_ascii(a: Seq<char>, b: Seq<char>)
    requires
        all_ascii(a),
        all_ascii(b),
    ensures
        all_ascii(a + b),
{
    assert forall|i: int| 0 <= i < (a + b).len() implies (#[trigger] (a + b)[i] as u32) < 128 by {
        if i < a.len() {
            assert((a + b)[i] == a[i]);
        } else {
            assert((a + b)[i] == b[i - a.len()]);
        }
    }
}

proof fn lemma_placeholder_ascii(matched: Seq<char>, w: int)
    requires
        0 <= w < 4,
    ensures
        all_ascii(placeholder(matched, w)),
{
    reveal_strlit("__DIR_");
    reveal_strlit("UPPER");
    reveal_strlit("TITLE");
    reveal_strlit("LOWER");
    reveal_strlit("__");
    assert(crate::text::decimal(w as nat) == seq![crate::text::digit_char(w)]);
    let style = if is_upper(matched[0]) {
        if forall|k: int| 0 <= k < matched.len() ==> is_upper(#[trigger] matched[k]) {
            "UPPER"@
        } else {
            "TITLE"@
        }
    } else {
        "LOWER"@
    };
    assert(all_ascii("__DIR_"@));
    assert(all_ascii(style));
    assert(all_ascii(seq!['_']));
    assert(all_ascii(crate::text::decimal(w as nat)));
    assert(all_ascii("__"@));
    lemma_concat_ascii("__DIR_"@, style);
    lemma_concat_ascii("__DIR_"@ + style, seq!['_']);
    lemma_concat_ascii("__DIR_"@ + style + seq!['_'], crate::text::decimal(w as nat));
    lemma_concat_ascii("__DIR_"@ + style + seq!['_'] + crate::text::decimal(w as nat), "__"@);
}

proof fn lemma_word_pass_ascii(s: Seq<char>, flags: Seq<bool>, w: int, prev: bool)
    requires
        all_ascii(s),
        0 <= w < 4,
    ensures
        all_ascii(word_pass(s, flags, w, prev)),
    decreases s.len(),
{
    if s.len() > 0 {
        let n = dir_word(w).len() as int;
        let after = if n < s.len() {
            flags[n]
        } else {
            false
        };
        if word_at(s, w) && prev != flags[0] && flags[n - 1] != after {
            assert(all_ascii(s.skip(n))) by {
                assert forall|i: int| 0 <= i < s.skip(n).len() implies (#[trigger] s.skip(n)[i] as u32) < 128 by {
                    assert(s.skip(n)[i] == s[i + n]);
                }
            }
            lemma_word_pass_ascii(s.skip(n), flags.skip(n), w, flags[n - 1]);
            lemma_placeholder_ascii(s.take(n), w);
            lemma_concat_ascii(placeholder(s.take(n), w), word_pass(s.skip(n), flags.skip(n), w, flags[n - 1]));
        } else {
            assert(all_ascii(s.drop_first())) by {
                assert forall|i: int| 0 <= i < s.drop_first().len() implies (#[trigger] s.drop_first()[i] as u32) < 128 by {
                    assert(s.drop_first()[i] == s[i + 1]);
                }
            }
            lemma_word_pass_ascii(s.drop_first(), flags.drop_first(), w, flags[0]);
            assert(all_ascii(seq![s[0]]));
            lemma_concat_ascii(seq![s[0]], word_pass(s.drop_first(), flags.drop_first(), w, flags[0]));
        }
    }
}

/// Commentary text after the table turns by `rotation`.
///
/// Each whole word `North`, `East`, `South` or `West`, in any case, is first
/// replaced by a marker of its seat and case style (one pass per seat word,
/// in that order); then, seat by seat, the markers are replaced by the word
/// of the seat the table turned it to, in the same style: all capitals,
/// capitalised, or lower case.
pub open spec fn rotated_commentary(text: Seq<char>, rotation: int) -> Seq<char> {
    if rotation == 0 {
        text
    } else {
        let p0 = mark_pass(text, 0);
        let p1 = mark_pass(p0, 1);
        let p2 = mark_pass(p1, 2);
        let p3 = mark_pass(p2, 3);
        unmark(unmark(unmark(unmark(p3, 0, rotation), 1, rotation), 2, rotation), 3, rotation)
    }
}


/// The seat word with index `w`.
fn dir_word_exec(w: usize) -> (r: Vec<char>)
    requires
        w < 4,
    ensures
        r@ == dir_word(w as int),
{
    let r = if w == 0 {
        vec!['N', 'o', 'r', 't', 'h']
    } else if w == 1 {
        vec!['E', 'a', 's', 't']
    } else if w == 2 {
        vec!['S', 'o', 'u', 't', 'h']
    } else {
        vec!['W', 'e', 's', 't']
    };
    assert(r@ =~= dir_word(w as int));
    r
}

fn lower_word_exec(w: usize) -> (r: Vec<char>)
    requires
        w < 4,
    ensures
        r@ == lower_word(w as int),
{
    let r = if w == 0 {
        vec!['n', 'o', 'r', 't', 'h']
    } else if w == 1 {
        vec!['e', 'a', 's', 't']
    } else if w == 2 {
        vec!['s', 'o', 'u', 't', 'h']
    } else {
        vec!['w', 'e', 's', 't']
    };
    assert(r@ =~= lower_word(w as int));
    r
}

fn upper_word_exec(w: usize) -> (r: Vec<char>)
    requires
        w < 4,
    ensures
        r@ == upper_word(w as int),
{
    let r = if w == 0 {
        vec!['N', 'O', 'R', 'T', 'H']
    } else if w == 1 {
        vec!['E', 'A', 'S', 'T']
    } else if w == 2 {
        vec!['S', 'O', 'U', 'T', 'H']
    } else {
        vec!['W', 'E', 'S', 'T']
    };
    assert(r@ =~= upper_word(w as int));
    r
}

fn marker_exec(style: &str, i: usize) -> (r: Vec<char>)
    ensures
        r@ == marker(style@, i as int),
{
    let mut r = chars_of("__DIR_");
    crate::text::push_str(&mut r, style);
    r.push('_');
    crate::text::push_decimal(&mut r, i as u64);
    crate::text::push_str(&mut r, "__");
    r
}

/// Whether the seat word `w` starts `s[at..]`, ignoring case.
fn word_at_exec(s: &Vec<char>, at: usize, word: &Vec<char>, w: usize) -> (r: bool)
    requires
        at <= s.len(),
        w < 4,
        word@ == dir_word(w as int),
    ensures
        r == word_at(s@.skip(at as int), w as int),
{
    if word.len() > s.len() - at {
        return false;
    }
    let mut k: usize = 0;
    while k < word.len()
        invariant
            k <= word.len() <= s.len() - at,
            at <= s.len(),
            word@ == dir_word(w as int),
            forall|m: int| 0 <= m < k ==> letter_matches(#[trigger] s@.skip(at as int)[m], lower_letter(word@[m])),
        decreases word.len() - k,
    {
        let c = s[at + k];
        let l0 = word[k];
        let l = if 'A' <= l0 && l0 <= 'Z' {
            ((l0 as u8) + 32) as char
        } else {
            l0
        };
        assert(l == lower_letter(word@[k as int])) by {
            assert(word@[k as int] == l0);
        }
        let up = if 'a' <= l && l <= 'z' {
            ((l as u8) - 32) as char
        } else {
            l
        };
        let ok = c == l || c == up || (l == 's' && c == '\u{17f}');
        assert(s@.skip(at as int)[k as int] == c);
        if !ok {
            return false;
        }
        k = k + 1;
    }
    true
}

/// The placeholder for the word just matched.
fn placeholder_exec(s: &Vec<char>, at: usize, n: usize, w: usize) -> (r: Vec<char>)
    requires
        n > 0,
        at + n <= s.len(),
        w < 4,
    ensures
        r@ == placeholder(s@.subrange(at as int, at + n), w as int),
{
    let ghost matched = s@.subrange(at as int, at + n);
    let first_upper = 'A' <= s[at] && s[at] <= 'Z';
    let mut all_upper = true;
    let mut k: usize = 0;
    while k < n
        invariant
            k <= n,
            at + n <= s.len(),
            matched == s@.subrange(at as int, at + n),
            all_upper == forall|m: int| 0 <= m < k ==> is_upper(#[trigger] matched[m]),
        decreases n - k,
    {
        let c = s[at + k];
        assert(matched[k as int] == c);
        if !('A' <= c && c <= 'Z') {
            all_upper = false;
        }
        k = k + 1;
    }
    assert(matched[0] == s@[at as int]);
    let style = if first_upper {
        if all_upper {
            "UPPER"
        } else {
            "TITLE"
        }
    } else {
        "LOWER"
    };
    marker_exec(style, w)
}

/// Marks each whole-word occurrence of the seat word `w` (in any case) in
/// `s` by its placeholder, `flags` giving which characters of `s` are word
/// characters.
pub fn mark_seat_word(s: &Vec<char>, w: usize, flags: &Vec<bool>) -> (r: Vec<char>)
    requires
        w < 4,
        flags@.len() == s@.len(),
    ensures
        r@ == word_pass(s@, flags@, w as int, false),
{
    let word = dir_word_exec(w);
    let n = word.len();
    let mut out: Vec<char> = Vec::new();
    let mut i: usize = 0;
    let mut prev: bool = false;
    assert(s@.skip(0) =~= s@);
    assert(flags@.skip(0) =~= flags@);
    assert(out@ + word_pass(s@, flags@, w as int, false) =~= word_pass(s@, flags@, w as int, false));
    while i < s.len()
        invariant
            i <= s.len(),
            flags@.len() == s@.len(),
            w < 4,
            word@ == dir_word(w as int),
            n == word@.len(),
            n > 0,
            out@ + word_pass(s@.skip(i as int), flags@.skip(i as int), w as int, prev) == word_pass(s@, flags@, w as int, false),
        decreases s.len() - i,
    {
        let ghost rest = s@.skip(i as int);
        let ghost fr = flags@.skip(i as int);
        let matched = word_at_exec(s, i, &word, w);
        let mut hit = false;
        if matched && prev != flags[i] && i + n <= s.len() {
            let after = if i + n < s.len() {
                flags[i + n]
            } else {
                false
            };
            if flags[i + n - 1] != after {
                hit = true;
            }
        }
        proof {
            assert(rest.len() > 0);
            assert(fr[0] == flags@[i as int]);
            if matched {
                assert(fr[n - 1] == flags@[i + n - 1]);
                if (n as int) < rest.len() {
                    assert(fr[n as int] == flags@[i + n]);
                }
            }
        }
        if hit {
            let ph = placeholder_exec(s, i, n, w);
            assert(rest.take(n as int) =~= s@.subrange(i as int, i + n));
            assert(rest.skip(n as int) =~= s@.skip(i + n));
            assert(fr.skip(n as int) =~= flags@.skip(i + n));
            let ghost before = out@;
            push_all(&mut out, &ph);
            assert(word_pass(rest, fr, w as int, prev) == ph@ + word_pass(s@.skip(i + n), flags@.skip(i + n), w as int, flags@[i + n - 1]));
            assert(out@ + word_pass(s@.skip(i + n), flags@.skip(i + n), w as int, flags@[i + n - 1]) =~= before + word_pass(rest, fr, w as int, prev));
            prev = flags[i + n - 1];
            i = i + n;
        } else {
            assert(rest.drop_first() =~= s@.skip(i + 1));
            assert(fr.drop_first() =~= flags@.skip(i + 1));
            let ghost before = out@;
            out.push(s[i]);
            assert(word_pass(rest, fr, w as int, prev) == seq![s@[i as int]] + word_pass(s@.skip(i + 1), flags@.skip(i + 1), w as int, flags@[i as int]));
            assert(out@ + word_pass(s@.skip(i + 1), flags@.skip(i + 1), w as int, flags@[i as int]) =~= before + word_pass(rest, fr, w as int, prev));
            prev = flags[i];
            i = i + 1;
        }
    }
    assert(word_pass(s@.skip(i as int), flags@.skip(i as int), w as int, prev) =~= Seq::<char>::empty());
    assert(out@ + Seq::<char>::empty() =~= out@);
    out
}

/// Which characters of `s` are word characters.
fn word_flags_exec(s: &Vec<char>) -> (r: Vec<bool>)
    ensures
        r@ == word_flags(s@),
        all_ascii(s@) ==> r@ == ascii_flags(s@),
{
    let mut r: Vec<bool> = Vec::new();
    let mut i: usize = 0;
    while i < s.len()
        invariant
            i <= s.len(),
            r@ =~= word_flags(s@).take(i as int),
            all_ascii(s@) ==> r@ =~= ascii_flags(s@).take(i as int),
        decreases s.len() - i,
    {
        let c = s[i];
        let f = word_character(c);
        proof {
            if all_ascii(s@) {
                assert((s@[i as int] as u32) < 128);
            }
        }
        r.push(f);
        i = i + 1;
    }
    assert(r@ =~= word_flags(s@));
    proof {
        if all_ascii(s@) {
            assert(r@ =~= ascii_flags(s@));
        }
    }
    r
}

/// One pass of a seat word over `s`.
fn mark_pass_exec(s: &Vec<char>, w: usize) -> (r: Vec<char>)
    requires
        w < 4,
    ensures
        r@ == mark_pass(s@, w as int),
        all_ascii(s@) ==> r@ == ascii_mark_pass(s@, w as int) && all_ascii(r@),
{
    let flags = word_flags_exec(s);
    let r = mark_seat_word(s, w, &flags);
    proof {
        if all_ascii(s@) {
            lemma_word_pass_ascii(s@, flags@, w as int, false);
        }
    }
    r
}

/// Every occurrence of `pat` in `s` replaced by `rep`.
fn replace_all_exec(s: &Vec<char>, pat: &Vec<char>, rep: &Vec<char>) -> (r: Vec<char>)
    ensures
        r@ == replace_all(s@, pat@, rep@),
{
    let mut out: Vec<char> = Vec::new();
    let mut i: usize = 0;
    assert(s@.skip(0) =~= s@);
    assert(out@ + replace_all(s@, pat@, rep@) =~= replace_all(s@, pat@, rep@));
    while i < s.len()
        invariant
            i <= s.len(),
            out@ + replace_all(s@.skip(i as int), pat@, rep@) == replace_all(s@, pat@, rep@),
        decreases s.len() - i,
    {
        let ghost rest = s@.skip(i as int);
        let hit = pat.len() > 0 && crate::text::prefix_at(s.as_slice(), i, pat.as_slice());
        let ghost before = out@;
        if hit {
            push_all(&mut out, rep);
            assert(rest.skip(pat.len() as int) =~= s@.skip(i + pat.len()));
            assert(out@ + replace_all(s@.skip(i + pat.len()), pat@, rep@) =~= before + replace_all(rest, pat@, rep@));
            i = i + pat.len();
        } else {
            assert(rest.drop_first() =~= s@.skip(i + 1));
            out.push(s[i]);
            assert(out@ + replace_all(s@.skip(i + 1), pat@, rep@) =~= before + replace_all(rest, pat@, rep@));
            i = i + 1;
        }
    }
    assert(replace_all(s@.skip(i as int), pat@, rep@) =~= Seq::<char>::empty());
    assert(out@ + Seq::<char>::empty() =~= out@);
    out
}

fn unmark_exec(s: &Vec<char>, i: usize, rotation: u8) -> (r: Vec<char>)
    requires
        i < 4,
    ensures
        r@ == unmark(s@, i as int, rotation as int),
{
    let j = (i + rotation as usize) % 4;
    let a = replace_all_exec(s, &marker_exec("TITLE", i), &dir_word_exec(j));
    let b = replace_all_exec(&a, &marker_exec("LOWER", i), &lower_word_exec(j));
    replace_all_exec(&b, &marker_exec("UPPER", i), &upper_word_exec(j))
}

/// Rotates the seat words (`North`, `East`, `South`, `West`, whole words in
/// any case) of commentary text by `rotation` quarter turns, keeping each
/// word's case style.
pub fn rotate_commentary(text: &str, rotation: u8) -> (r: String)
    ensures
        r@ == rotated_commentary(text@, rotation as int),
        all_ascii(text@) ==> r@ == rotated_ascii_commentary(text@, rotation as int),
{
    if rotation == 0 {
        return text.to_owned();
    }
    let t = chars_of(text);
    let p0 = mark_pass_exec(&t, 0);
    let p1 = mark_pass_exec(&p0, 1);
    let p2 = mark_pass_exec(&p1, 2);
    let p3 = mark_pass_exec(&p2, 3);
    let u0 = unmark_exec(&p3, 0, rotation);
    let u1 = unmark_exec(&u0, 1, rotation);
    let u2 = unmark_exec(&u1, 2, rotation);
    let u3 = unmark_exec(&u2, 3, rotation);
    string_of(&u3)
}

} // verus!
