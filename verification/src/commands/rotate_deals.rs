//! `rotate-deals`: turning each board so that a chosen seat sits where a
//! pattern asks, and moving everything that names a seat with the hands.
use vstd::prelude::*;
use crate::bridge::{
    dir_at, dir_char, dir_index, dir_of_char, direction_to_index, hand_of, lemma_full_turn,
    lemma_rotation_composes, lemma_rotated_injective, rotate_direction, rotate_vulnerability,
    rotated, rotation_amount, standard_vul_at, vul_rotated, Board, Deal, Direction,
    Vulnerability,
};
use crate::text::{
    chars_eq, chars_of, copy_range, find_char, find_char_from, has_prefix, is_ws, is_whitespace,
    lemma_find_char, push_all, push_str, split_char, split_on, string_of, string_views, trim,
    trim_bounds, trimmed, views,
};

verus! {

// ---------------------------------------------------------------------------
// Single values that name a seat or a side
// ---------------------------------------------------------------------------

/// Whether a character is one of the upper-case letters `A` to `Z`.
pub open spec fn is_ascii_upper(c: char) -> bool {
    'A' <= c && c <= 'Z'
}

/// A seat letter turned with the table, keeping its case; any other
/// character is left as it is.
pub open spec fn rotated_char(c: char, rotation: int) -> char {
    match dir_of_char(c) {
        Some(d) => if is_ascii_upper(c) {
            dir_char(rotated(d, rotation))
        } else {
            lower_of(dir_char(rotated(d, rotation)))
        },
        None => c,
    }
}

/// The lower-case form of an upper-case seat letter.
pub open spec fn lower_of(c: char) -> char {
    if c == 'N' {
        'n'
    } else if c == 'E' {
        'e'
    } else if c == 'S' {
        's'
    } else if c == 'W' {
        'w'
    } else {
        c
    }
}

/// Rotates a direction character (`N`, `E`, `S`, `W`, either case).
pub fn rotate_direction_char(c: char, rotation: u8) -> (r: char)
    ensures
        r == rotated_char(c, rotation as int),
{
    match Direction::from_char(c) {
        Some(dir) => {
            let rotated_dir = rotate_direction(dir, rotation);
            let upper = rotated_dir.to_char();
            if 'A' <= c && c <= 'Z' {
                upper
            } else if upper == 'N' {
                'n'
            } else if upper == 'E' {
                'e'
            } else if upper == 'S' {
                's'
            } else {
                'w'
            }
        },
        None => c,
    }
}

/// A one-character value turned with the table; any longer or shorter
/// value is left as it is.
pub open spec fn rotated_value(value: Seq<char>, rotation: int) -> Seq<char> {
    if value.len() == 1 {
        seq![rotated_char(value[0], rotation)]
    } else {
        value
    }
}

fn rotate_direction_chars(value: &Vec<char>, rotation: u8) -> (r: Vec<char>)
    ensures
        r@ == rotated_value(value@, rotation as int),
{
    if value.len() == 1 {
        let c = rotate_direction_char(value[0], rotation);
        let r = vec![c];
        assert(r@ =~= seq![c]);
        r
    } else {
        value.clone()
    }
}

/// Rotates a direction value such as `N` or `e` (a single character).
pub fn rotate_direction_value(value: &str, rotation: u8) -> (r: String)
    ensures
        r@ == rotated_value(value@, rotation as int),
{
    string_of(&rotate_direction_chars(&chars_of(value), rotation))
}

/// `NS`.
pub open spec fn ns_text() -> Seq<char> {
    seq!['N', 'S']
}

/// `EW`.
pub open spec fn ew_text() -> Seq<char> {
    seq!['E', 'W']
}

/// A value that starts with a side (`NS 420`, `EW -100`) after the table
/// turns: on an odd turn the side swaps, otherwise nothing changes.
pub open spec fn rotated_score(value: Seq<char>, rotation: int) -> Seq<char> {
    if rotation % 2 == 0 {
        value
    } else if has_prefix(value, ns_text()) {
        ew_text() + value.skip(2)
    } else if has_prefix(value, ew_text()) {
        ns_text() + value.skip(2)
    } else {
        value
    }
}

fn rotate_score_chars(value: &Vec<char>, rotation: u8) -> (r: Vec<char>)
    ensures
        r@ == rotated_score(value@, rotation as int),
{
    if rotation % 2 == 0 {
        return value.clone();
    }
    if value.len() >= 2 && value[0] == 'N' && value[1] == 'S' {
        let mut r = vec!['E', 'W'];
        let rest = copy_range(value, 2, value.len());
        push_all(&mut r, &rest);
        assert(has_prefix(value@, ns_text())) by {
            assert(value@.take(2) =~= ns_text());
        }
        assert(r@ =~= ew_text() + value@.skip(2));
        r
    } else if value.len() >= 2 && value[0] == 'E' && value[1] == 'W' {
        let mut r = vec!['N', 'S'];
        let rest = copy_range(value, 2, value.len());
        push_all(&mut r, &rest);
        assert(!has_prefix(value@, ns_text())) by {
            if has_prefix(value@, ns_text()) {
                assert(value@.take(2)[0] == 'N');
            }
        }
        assert(has_prefix(value@, ew_text())) by {
            assert(value@.take(2) =~= ew_text());
        }
        assert(r@ =~= ns_text() + value@.skip(2));
        r
    } else {
        assert(!has_prefix(value@, ns_text())) by {
            if has_prefix(value@, ns_text()) {
                assert(value@.take(2)[0] == 'N');
                assert(value@.take(2)[1] == 'S');
            }
        }
        assert(!has_prefix(value@, ew_text())) by {
            if has_prefix(value@, ew_text()) {
                assert(value@.take(2)[0] == 'E');
                assert(value@.take(2)[1] == 'W');
            }
        }
        value.clone()
    }
}

/// Rotates a `Score`-like value (`NS 420` becomes `EW 420` on an odd turn).
pub fn rotate_score_value(value: &str, rotation: u8) -> (r: String)
    ensures
        r@ == rotated_score(value@, rotation as int),
{
    string_of(&rotate_score_chars(&chars_of(value), rotation))
}

/// Turning a side-prefixed value by `r` and then by `s` is turning it by
/// `r + s`; a half turn or a full turn leaves it unchanged.
pub proof fn lemma_score_rotation_composes(value: Seq<char>, r: int, s: int)
    requires
        r >= 0,
        s >= 0,
    ensures
        rotated_score(rotated_score(value, r), s) == rotated_score(value, r + s),
{
    let v1 = rotated_score(value, r);
    if r % 2 == 1 {
        if has_prefix(value, ns_text()) {
            assert(v1.take(2) =~= ew_text());
            assert(!has_prefix(v1, ns_text())) by {
                assert(v1.take(2)[0] == 'E');
            }
            assert(v1.skip(2) =~= value.skip(2));
            if s % 2 == 1 {
                assert(ns_text() + v1.skip(2) =~= value) by {
                    assert(value.take(2) =~= ns_text());
                    assert(value =~= value.take(2) + value.skip(2));
                }
            }
        } else if has_prefix(value, ew_text()) {
            assert(v1.take(2) =~= ns_text());
            assert(v1.skip(2) =~= value.skip(2));
            if s % 2 == 1 {
                assert(ew_text() + v1.skip(2) =~= value) by {
                    assert(value.take(2) =~= ew_text());
                    assert(value =~= value.take(2) + value.skip(2));
                }
            }
        }
    }
}

/// Turning a one-character value by `r` and then by `s` is turning it by
/// `r + s`.
pub proof fn lemma_value_rotation_composes(value: Seq<char>, r: int, s: int)
    requires
        r >= 0,
        s >= 0,
    ensures
        rotated_value(rotated_value(value, r), s) == rotated_value(value, r + s),
{
    if value.len() == 1 {
        let c = value[0];
        match dir_of_char(c) {
            Some(d) => {
                lemma_rotation_composes(d, r, s);
                let c1 = rotated_char(c, r);
                assert(dir_of_char(c1) == Some(rotated(d, r)));
                assert(is_ascii_upper(c1) == is_ascii_upper(c));
            },
            None => {},
        }
        assert(rotated_value(value, r) =~= seq![rotated_char(c, r)]);
    }
}


// ---------------------------------------------------------------------------
// Par contracts
// ---------------------------------------------------------------------------

/// The index of the first `"; "` in `s` at or after `i`, or `s.len()`.
pub open spec fn find_sep(s: Seq<char>, i: int) -> int
    decreases s.len() - i,
{
    if i >= s.len() {
        s.len() as int
    } else if i + 1 < s.len() && s[i] == ';' && s[i + 1] == ' ' {
        i
    } else {
        find_sep(s, i + 1)
    }
}

pub proof fn lemma_find_sep(s: Seq<char>, i: int)
    requires
        0 <= i <= s.len(),
    ensures
        i <= find_sep(s, i) <= s.len(),
        find_sep(s, i) < s.len() ==> find_sep(s, i) + 1 < s.len(),
        find_sep(s, i) < s.len() ==> s[find_sep(s, i)] == ';' && s[find_sep(s, i) + 1] == ' ',
    decreases s.len() - i,
{
    if i < s.len() && !(i + 1 < s.len() && s[i] == ';' && s[i + 1] == ' ') {
        lemma_find_sep(s, i + 1);
    }
}

/// The pieces of `s[i..]` between occurrences of `"; "`.
pub open spec fn split_sep_from(s: Seq<char>, i: int) -> Seq<Seq<char>>
    decreases s.len() + 1 - i,
{
    if i < 0 || i > s.len() {
        seq![]
    } else {
        let e = find_sep(s, i);
        proof {
            lemma_find_sep(s, i);
        }
        if e < s.len() {
            seq![s.subrange(i, e)] + split_sep_from(s, e + 2)
        } else {
            seq![s.subrange(i, e)]
        }
    }
}

/// Pieces joined with `"; "` between them.
pub open spec fn join_sep(pieces: Seq<Seq<char>>) -> Seq<char>
    decreases pieces.len(),
{
    if pieces.len() == 0 {
        Seq::empty()
    } else if pieces.len() == 1 {
        pieces[0]
    } else {
        join_sep(pieces.drop_last()) + seq![';', ' '] + pieces.last()
    }
}

/// One contract of a par (`NS 4H+1`, `N 3N=`) after the table turns: a side
/// swaps as a score's does, a single seat moves with its hand, and anything
/// else (or a contract without a space) is left as it is.
pub open spec fn rotated_contract(c: Seq<char>, rotation: int) -> Seq<char> {
    let sp = find_char(c, ' ', 0);
    if sp >= c.len() {
        c
    } else {
        let declarer = c.take(sp);
        let rest = c.skip(sp + 1);
        if declarer == ns_text() || declarer == ew_text() {
            rotated_score(declarer, rotation) + seq![' '] + rest
        } else if declarer.len() == 1 {
            rotated_value(declarer, rotation) + seq![' '] + rest
        } else {
            c
        }
    }
}

/// A `ParContract` value after the table turns by `rotation`: each contract
/// of a tie, separated by `"; "`, names who plays it after the turn.
pub open spec fn rotated_par(value: Seq<char>, rotation: int) -> Seq<char> {
    if rotation == 0 {
        value
    } else {
        let pieces = split_sep_from(value, 0);
        join_sep(Seq::new(pieces.len(), |i: int| rotated_contract(pieces[i], rotation)))
    }
}

fn rotate_contract_chars(c: &Vec<char>, rotation: u8) -> (r: Vec<char>)
    ensures
        r@ == rotated_contract(c@, rotation as int),
{
    let sp = find_char_from(c.as_slice(), ' ', 0);
    if sp >= c.len() {
        return c.clone();
    }
    proof {
        lemma_find_char(c@, ' ', 0);
    }
    let declarer = copy_range(c, 0, sp);
    let rest = copy_range(c, sp + 1, c.len());
    assert(declarer@ =~= c@.take(sp as int));
    assert(rest@ =~= c@.skip(sp + 1));
    let is_ns = declarer.len() == 2 && declarer[0] == 'N' && declarer[1] == 'S';
    let is_ew = declarer.len() == 2 && declarer[0] == 'E' && declarer[1] == 'W';
    assert(is_ns == (declarer@ == ns_text())) by {
        if declarer@ == ns_text() {
            assert(declarer@[0] == 'N');
        }
        if is_ns {
            assert(declarer@ =~= ns_text());
        }
    }
    assert(is_ew == (declarer@ == ew_text())) by {
        if declarer@ == ew_text() {
            assert(declarer@[0] == 'E');
        }
        if is_ew {
            assert(declarer@ =~= ew_text());
        }
    }
    let moved = if is_ns || is_ew {
        rotate_score_chars(&declarer, rotation)
    } else if declarer.len() == 1 {
        rotate_direction_chars(&declarer, rotation)
    } else {
        return c.clone();
    };
    let mut r = moved;
    r.push(' ');
    push_all(&mut r, &rest);
    r
}

/// Rotates a `ParContract` value, such as `NS 4H+1`, `N 3N=` or
/// `EW 2SX-1; EW 3CX-1`: each contract names who declares it, a side
/// swapping on an odd turn and a seat moving with its hand.
pub fn rotate_par_contract(value: &str, rotation: u8) -> (r: String)
    ensures
        r@ == rotated_par(value@, rotation as int),
{
    if rotation == 0 {
        return value.to_owned();
    }
    let v = chars_of(value);
    let ghost pieces = split_sep_from(v@, 0);
    let ghost target = Seq::new(pieces.len(), |i: int| rotated_contract(pieces[i], rotation as int));
    let mut out: Vec<char> = Vec::new();
    let mut i: usize = 0;
    let mut k: usize = 0;
    loop
        invariant
            i <= v.len(),
            v@ == value@,
            rotation != 0,
            pieces == split_sep_from(v@, 0),
            target == Seq::new(pieces.len(), |j: int| rotated_contract(pieces[j], rotation as int)),
            k < pieces.len(),
            k <= i,
            pieces.skip(k as int) == split_sep_from(v@, i as int),
            k == 0 ==> out@.len() == 0,
            k > 0 ==> out@ == join_sep(target.take(k as int)) + seq![';', ' '],
        decreases v.len() + 1 - i,
    {
        proof {
            lemma_find_sep(v@, i as int);
        }
        let mut e = i;
        while e < v.len() && !(e + 1 < v.len() && v[e] == ';' && v[e + 1] == ' ')
            invariant
                i <= e <= v.len(),
                find_sep(v@, i as int) == find_sep(v@, e as int),
            decreases v.len() - e,
        {
            e = e + 1;
        }
        let piece = copy_range(&v, i, e);
        assert(pieces[k as int] == piece@) by {
            assert(pieces.skip(k as int)[0] == split_sep_from(v@, i as int)[0]);
        }
        let rotated_piece = rotate_contract_chars(&piece, rotation);
        let ghost before = out@;
        push_all(&mut out, &rotated_piece);
        proof {
            assert(target.take(k + 1).drop_last() =~= target.take(k as int));
            assert(target.take(k + 1).last() == rotated_piece@);
            if k == 0 {
                assert(target.take(1) =~= seq![rotated_piece@]);
                assert(out@ =~= join_sep(target.take(1)));
            } else {
                assert(out@ =~= join_sep(target.take(k + 1)));
            }
        }
        if e < v.len() {
            out.push(';');
            out.push(' ');
            assert(split_sep_from(v@, i as int) == seq![piece@] + split_sep_from(v@, e + 2));
            assert(pieces.skip(k + 1) =~= pieces.skip(k as int).drop_first());
            assert((seq![piece@] + split_sep_from(v@, e + 2)).drop_first() =~= split_sep_from(v@, e + 2));
            assert(k + 1 < pieces.len()) by {
                assert(split_sep_from(v@, e + 2).len() >= 1);
            }
            i = e + 2;
            k = k + 1;
        } else {
            assert(pieces.skip(k as int) =~= seq![piece@]);
            assert(k + 1 == pieces.len());
            assert(target.take(k + 1) =~= target);
            assert(out@ == join_sep(target));
            assert(rotated_par(value@, rotation as int) == join_sep(target));
            return string_of(&out);
        }
    }
}


// ---------------------------------------------------------------------------
// Turning a par twice
// ---------------------------------------------------------------------------

/// Whether `p` holds no `"; "`.
pub open spec fn no_sep(p: Seq<char>) -> bool {
    forall|k: int| 0 <= k && k + 1 < p.len() ==> !(#[trigger] p[k] == ';' && p[k + 1] == ' ')
}

proof fn lemma_find_sep_first(s: Seq<char>, i: int)
    requires
        0 <= i <= s.len(),
    ensures
        forall|k: int|
            i <= k < find_sep(s, i) ==> !(k + 1 < s.len() && #[trigger] s[k] == ';' && s[k + 1] == ' '),
    decreases s.len() - i,
{
    if i < s.len() && !(i + 1 < s.len() && s[i] == ';' && s[i + 1] == ' ') {
        lemma_find_sep_first(s, i + 1);
    }
}

proof fn lemma_find_sep_at(s: Seq<char>, i: int, e: int)
    requires
        0 <= i <= e <= s.len(),
        forall|k: int| i <= k < e ==> !(k + 1 < s.len() && #[trigger] s[k] == ';' && s[k + 1] == ' '),
        e == s.len() || (e + 1 < s.len() && s[e] == ';' && s[e + 1] == ' '),
    ensures
        find_sep(s, i) == e,
    decreases e - i,
{
    if i < e {
        lemma_find_sep_at(s, i + 1, e);
    }
}

proof fn lemma_pieces_no_sep(s: Seq<char>, i: int)
    requires
        0 <= i <= s.len(),
    ensures
        split_sep_from(s, i).len() >= 1,
        forall|j: int| 0 <= j < split_sep_from(s, i).len() ==> no_sep(#[trigger] split_sep_from(s, i)[j]),
    decreases s.len() + 1 - i,
{
    let e = find_sep(s, i);
    lemma_find_sep(s, i);
    lemma_find_sep_first(s, i);
    let piece = s.subrange(i, e);
    assert forall|k: int| 0 <= k && k + 1 < piece.len() implies !(#[trigger] piece[k] == ';' && piece[k + 1] == ' ') by {
        assert(piece[k] == s[i + k] && piece[k + 1] == s[i + k + 1]);
    }
    if e < s.len() {
        lemma_pieces_no_sep(s, e + 2);
        let rest = split_sep_from(s, e + 2);
        assert(split_sep_from(s, i) == seq![piece] + rest);
        assert forall|j: int| 0 <= j < split_sep_from(s, i).len() implies no_sep(#[trigger] split_sep_from(s, i)[j]) by {
            if j > 0 {
                assert(split_sep_from(s, i)[j] == rest[j - 1]);
            }
        }
    } else {
        assert(split_sep_from(s, i) == seq![piece]);
    }
}

proof fn lemma_find_sep_shift(pre: Seq<char>, t: Seq<char>, j: int)
    requires
        0 <= j <= t.len(),
    ensures
        find_sep(pre + t, pre.len() + j) == pre.len() + find_sep(t, j),
    decreases t.len() - j,
{
    let s = pre + t;
    let i = pre.len() + j;
    if j < t.len() {
        assert(s[i] == t[j]);
        if j + 1 < t.len() {
            assert(s[i + 1] == t[j + 1]);
        }
        if !(j + 1 < t.len() && t[j] == ';' && t[j + 1] == ' ') {
            lemma_find_sep_shift(pre, t, j + 1);
        }
    }
}

proof fn lemma_split_shift(pre: Seq<char>, t: Seq<char>, j: int)
    requires
        0 <= j <= t.len(),
    ensures
        split_sep_from(pre + t, pre.len() + j) == split_sep_from(t, j),
    decreases t.len() + 1 - j,
{
    let s = pre + t;
    let i = pre.len() + j;
    lemma_find_sep_shift(pre, t, j);
    lemma_find_sep(t, j);
    let e = find_sep(t, j);
    assert(s.subrange(i, pre.len() + e) =~= t.subrange(j, e));
    if e < t.len() {
        lemma_split_shift(pre, t, e + 2);
    }
}

proof fn lemma_split_one(p: Seq<char>)
    requires
        no_sep(p),
    ensures
        split_sep_from(p, 0) == seq![p],
{
    assert forall|k: int| 0 <= k < p.len() implies !(k + 1 < p.len() && #[trigger] p[k] == ';' && p[k + 1] == ' ') by {}
    lemma_find_sep_at(p, 0, p.len() as int);
    assert(p.subrange(0, p.len() as int) =~= p);
}

proof fn lemma_split_cons(p: Seq<char>, t: Seq<char>)
    requires
        no_sep(p),
    ensures
        split_sep_from(p + seq![';', ' '] + t, 0) == seq![p] + split_sep_from(t, 0),
{
    let pre = p + seq![';', ' '];
    let s = pre + t;
    let n = p.len() as int;
    assert forall|k: int| 0 <= k < n implies !(k + 1 < s.len() && #[trigger] s[k] == ';' && s[k + 1] == ' ') by {
        assert(s[k] == p[k]);
        if k + 1 < n {
            assert(s[k + 1] == p[k + 1]);
        } else {
            assert(s[k + 1] == ';');
        }
    }
    assert(s[n] == ';' && s[n + 1] == ' ');
    lemma_find_sep_at(s, 0, n);
    assert(s.subrange(0, n) =~= p);
    lemma_split_shift(pre, t, 0);
}

proof fn lemma_join_front(ps: Seq<Seq<char>>)
    requires
        ps.len() >= 2,
    ensures
        join_sep(ps) == ps[0] + seq![';', ' '] + join_sep(ps.drop_first()),
    decreases ps.len(),
{
    let sep = seq![';', ' '];
    if ps.len() == 2 {
        assert(ps.drop_last() =~= seq![ps[0]]);
        assert(ps.drop_first() =~= seq![ps[1]]);
        assert(join_sep(seq![ps[0]]) == ps[0]);
        assert(join_sep(seq![ps[1]]) == ps[1]);
        assert(join_sep(ps) == join_sep(ps.drop_last()) + sep + ps.last());
    } else {
        let a = ps.drop_last();
        let b = ps.drop_first();
        lemma_join_front(a);
        assert(a.drop_first() =~= b.drop_last());
        assert(a[0] == ps[0]);
        assert(b.last() == ps.last());
        assert(join_sep(ps) == join_sep(a) + sep + ps.last());
        assert(join_sep(b) == join_sep(b.drop_last()) + sep + b.last());
        assert(join_sep(ps) =~= ps[0] + sep + join_sep(b));
    }
}

proof fn lemma_split_join(ps: Seq<Seq<char>>)
    requires
        ps.len() >= 1,
        forall|j: int| 0 <= j < ps.len() ==> no_sep(#[trigger] ps[j]),
    ensures
        split_sep_from(join_sep(ps), 0) == ps,
    decreases ps.len(),
{
    if ps.len() == 1 {
        assert(no_sep(ps[0]));
        lemma_split_one(ps[0]);
        assert(seq![ps[0]] =~= ps);
    } else {
        lemma_join_front(ps);
        let rest = ps.drop_first();
        assert forall|j: int| 0 <= j < rest.len() implies no_sep(#[trigger] rest[j]) by {
            assert(rest[j] == ps[j + 1]);
        }
        lemma_split_join(rest);
        assert(no_sep(ps[0]));
        lemma_split_cons(ps[0], join_sep(rest));
        assert(seq![ps[0]] + rest =~= ps);
    }
}

/// Whether a character names a seat, in either case.
pub open spec fn is_seat_letter(c: char) -> bool {
    dir_of_char(c) is Some
}

proof fn lemma_rotated_char_letter(c: char, r: int)
    ensures
        rotated_char(c, r) == c || (is_seat_letter(c) && is_seat_letter(rotated_char(c, r))),
        is_seat_letter(c) ==> is_seat_letter(rotated_char(c, r)) && is_ascii_upper(rotated_char(c, r)) == is_ascii_upper(c),
{
    match dir_of_char(c) {
        Some(d) => {
            let e = rotated(d, r);
            match e {
                Direction::North => {},
                Direction::East => {},
                Direction::South => {},
                Direction::West => {},
            }
        },
        None => {},
    }
}

proof fn lemma_first_space(c: Seq<char>, d: Seq<char>, rest: Seq<char>)
    requires
        c == d + seq![' '] + rest,
        forall|k: int| 0 <= k < d.len() ==> #[trigger] d[k] != ' ',
    ensures
        find_char(c, ' ', 0) == d.len(),
        c.take(d.len() as int) == d,
        c.skip(d.len() as int + 1) == rest,
{
    lemma_find_char(c, ' ', 0);
    let f = find_char(c, ' ', 0);
    assert(c[d.len() as int] == ' ');
    if f < d.len() {
        assert(c[f] == d[f]);
    }
    assert(c.take(d.len() as int) =~= d);
    assert(c.skip(d.len() as int + 1) =~= rest);
}

/// A contract turned by `r`: the same length, and each character either
/// unchanged or a seat letter where a seat letter stood.
proof fn lemma_contract_shape(c: Seq<char>, r: int)
    ensures
        rotated_contract(c, r).len() == c.len(),
        forall|k: int|
            0 <= k < c.len() ==> #[trigger] rotated_contract(c, r)[k] == c[k] || (is_seat_letter(c[k])
                && is_seat_letter(rotated_contract(c, r)[k])),
{
    let sp = find_char(c, ' ', 0);
    lemma_find_char(c, ' ', 0);
    if sp < c.len() {
        let declarer = c.take(sp);
        let rest = c.skip(sp + 1);
        let c2 = rotated_contract(c, r);
        assert(c =~= declarer + seq![' '] + rest);
        if declarer == ns_text() || declarer == ew_text() {
            let d2 = rotated_score(declarer, r);
            assert(d2 == ns_text() || d2 == ew_text() || d2 == declarer) by {
                if r % 2 != 0 {
                    if has_prefix(declarer, ns_text()) {
                        assert(declarer.skip(2) =~= Seq::<char>::empty());
                        assert(d2 =~= ew_text());
                    } else if has_prefix(declarer, ew_text()) {
                        assert(declarer.skip(2) =~= Seq::<char>::empty());
                        assert(d2 =~= ns_text());
                    }
                }
            }
            assert forall|k: int| 0 <= k < c.len() implies #[trigger] c2[k] == c[k] || (is_seat_letter(c[k])
                && is_seat_letter(c2[k])) by {
                if k < 2 {
                    assert(c[k] == declarer[k]);
                    assert(c2[k] == d2[k]);
                } else {
                    assert(c2[k] == c[k]);
                }
            }
        } else if declarer.len() == 1 {
            lemma_rotated_char_letter(declarer[0], r);
            assert forall|k: int| 0 <= k < c.len() implies #[trigger] c2[k] == c[k] || (is_seat_letter(c[k])
                && is_seat_letter(c2[k])) by {
                if k == 0 {
                    assert(c[0] == declarer[0]);
                    assert(c2[0] == rotated_char(declarer[0], r));
                } else {
                    assert(c2[k] == c[k]);
                }
            }
        }
    }
}

proof fn lemma_contract_no_sep(c: Seq<char>, r: int)
    requires
        no_sep(c),
    ensures
        no_sep(rotated_contract(c, r)),
{
    lemma_contract_shape(c, r);
    let c2 = rotated_contract(c, r);
    assert forall|k: int| 0 <= k && k + 1 < c2.len() implies !(#[trigger] c2[k] == ';' && c2[k + 1] == ' ') by {
        if c2[k] == ';' && c2[k + 1] == ' ' {
            assert(c2[k] == c[k] || is_seat_letter(c2[k]));
            assert(c2[k + 1] == c[k + 1] || is_seat_letter(c2[k + 1]));
            assert(c[k] == ';' && c[k + 1] == ' ');
        }
    }
}

/// Turning one contract by `r` and then by `s` is turning it by `r + s`.
proof fn lemma_contract_rotation_composes(c: Seq<char>, r: int, s: int)
    requires
        r >= 0,
        s >= 0,
    ensures
        rotated_contract(rotated_contract(c, r), s) == rotated_contract(c, r + s),
{
    let sp = find_char(c, ' ', 0);
    lemma_find_char(c, ' ', 0);
    if sp < c.len() {
        let declarer = c.take(sp);
        let rest = c.skip(sp + 1);
        assert(c =~= declarer + seq![' '] + rest);
        if declarer == ns_text() || declarer == ew_text() {
            let d1 = rotated_score(declarer, r);
            assert(d1 == ns_text() || d1 == ew_text()) by {
                if r % 2 != 0 {
                    if has_prefix(declarer, ns_text()) {
                        assert(declarer.skip(2) =~= Seq::<char>::empty());
                        assert(d1 =~= ew_text());
                    } else {
                        assert(declarer.take(2) =~= declarer);
                        assert(declarer.skip(2) =~= Seq::<char>::empty());
                        assert(d1 =~= ns_text());
                    }
                }
            }
            lemma_first_space(d1 + seq![' '] + rest, d1, rest);
            lemma_score_rotation_composes(declarer, r, s);
        } else if declarer.len() == 1 {
            let d1 = rotated_value(declarer, r);
            lemma_rotated_char_letter(declarer[0], r);
            assert(declarer[0] != ' ');
            assert(d1[0] != ' ');
            assert(d1.len() == 1 && ns_text().len() == 2 && ew_text().len() == 2);
            lemma_first_space(d1 + seq![' '] + rest, d1, rest);
            lemma_value_rotation_composes(declarer, r, s);
        }
    }
}

/// Turning a par by `r` and then by `s` is turning it by `r + s`: each
/// contract's declaring side or seat moves on, and the contracts themselves
/// and their separators stay as they were.
pub proof fn lemma_par_rotation_composes(value: Seq<char>, r: int, s: int)
    requires
        r >= 0,
        s >= 0,
    ensures
        rotated_par(rotated_par(value, r), s) == rotated_par(value, r + s),
{
    if r != 0 && s != 0 {
        let ps = split_sep_from(value, 0);
        lemma_pieces_no_sep(value, 0);
        let r1 = Seq::new(ps.len(), |i: int| rotated_contract(ps[i], r));
        assert forall|j: int| 0 <= j < r1.len() implies no_sep(#[trigger] r1[j]) by {
            assert(no_sep(ps[j]));
            lemma_contract_no_sep(ps[j], r);
        }
        lemma_split_join(r1);
        assert(rotated_par(value, r) == join_sep(r1));
        let r2 = Seq::new(r1.len(), |i: int| rotated_contract(r1[i], s));
        let r3 = Seq::new(ps.len(), |i: int| rotated_contract(ps[i], r + s));
        assert forall|j: int| 0 <= j < r2.len() implies #[trigger] r2[j] == r3[j] by {
            lemma_contract_rotation_composes(ps[j], r, s);
        }
        assert(r2 =~= r3);
    }
}

proof fn lemma_join_split(s: Seq<char>, i: int)
    requires
        0 <= i <= s.len(),
    ensures
        join_sep(split_sep_from(s, i)) == s.subrange(i, s.len() as int),
    decreases s.len() + 1 - i,
{
    lemma_find_sep(s, i);
    let e = find_sep(s, i);
    let piece = s.subrange(i, e);
    if e < s.len() {
        lemma_join_split(s, e + 2);
        lemma_pieces_no_sep(s, e + 2);
        let rest = split_sep_from(s, e + 2);
        let ps = split_sep_from(s, i);
        assert(ps == seq![piece] + rest);
        lemma_join_front(ps);
        assert(ps.drop_first() =~= rest);
        assert(ps[0] == piece);
        assert(piece + seq![';', ' '] + s.subrange(e + 2, s.len() as int) =~= s.subrange(i, s.len() as int));
    } else {
        assert(split_sep_from(s, i) == seq![piece]);
        assert(join_sep(seq![piece]) == piece);
    }
}

proof fn lemma_contract_full_turn(c: Seq<char>)
    ensures
        rotated_contract(c, 4) == c,
{
    let sp = find_char(c, ' ', 0);
    lemma_find_char(c, ' ', 0);
    if sp < c.len() {
        let declarer = c.take(sp);
        let rest = c.skip(sp + 1);
        assert(c =~= declarer + seq![' '] + rest);
        if declarer.len() == 1 {
            let ch = declarer[0];
            match dir_of_char(ch) {
                Some(d) => {
                    lemma_full_turn(d, 1);
                    assert(rotated(d, 4) == d);
                },
                None => {},
            }
            assert(rotated_value(declarer, 4) =~= declarer);
        }
    }
}

/// A full turn leaves a par as it was, and so does a turn by `r` followed
/// by a turn by `4 - r`.
pub proof fn lemma_par_full_turn(value: Seq<char>, r: int)
    requires
        0 <= r <= 4,
    ensures
        rotated_par(value, 4) == value,
        rotated_par(rotated_par(value, r), 4 - r) == value,
{
    let ps = split_sep_from(value, 0);
    let turned = Seq::new(ps.len(), |i: int| rotated_contract(ps[i], 4));
    assert forall|i: int| 0 <= i < ps.len() implies #[trigger] turned[i] == ps[i] by {
        lemma_contract_full_turn(ps[i]);
    }
    assert(turned =~= ps);
    lemma_join_split(value, 0);
    assert(value.subrange(0, value.len() as int) =~= value);
    lemma_par_rotation_composes(value, r, 4 - r);
}

/// Whether `b` is `a` with at most some seat letters changed into other
/// seat letters.
pub open spec fn seats_changed_only(a: Seq<char>, b: Seq<char>) -> bool {
    &&& b.len() == a.len()
    &&& forall|k: int| 0 <= k < a.len() ==> #[trigger] b[k] == a[k] || (is_seat_letter(a[k]) && is_seat_letter(b[k]))
}

proof fn lemma_seats_changed_concat(a1: Seq<char>, b1: Seq<char>, a2: Seq<char>, b2: Seq<char>)
    requires
        seats_changed_only(a1, b1),
        seats_changed_only(a2, b2),
    ensures
        seats_changed_only(a1 + a2, b1 + b2),
{
    assert forall|k: int| 0 <= k < (a1 + a2).len() implies #[trigger] (b1 + b2)[k] == (a1 + a2)[k] || (
    is_seat_letter((a1 + a2)[k]) && is_seat_letter((b1 + b2)[k])) by {
        if k < a1.len() {
            assert((a1 + a2)[k] == a1[k] && (b1 + b2)[k] == b1[k]);
        } else {
            assert((a1 + a2)[k] == a2[k - a1.len()] && (b1 + b2)[k] == b2[k - a1.len()]);
        }
    }
}

proof fn lemma_join_seats_changed(ps: Seq<Seq<char>>, qs: Seq<Seq<char>>)
    requires
        qs.len() == ps.len(),
        forall|i: int| 0 <= i < ps.len() ==> seats_changed_only(#[trigger] ps[i], qs[i]),
    ensures
        seats_changed_only(join_sep(ps), join_sep(qs)),
    decreases ps.len(),
{
    if ps.len() == 1 {
        assert(seats_changed_only(ps[0], qs[0]));
    } else if ps.len() > 1 {
        let pd = ps.drop_last();
        let qd = qs.drop_last();
        assert forall|i: int| 0 <= i < pd.len() implies seats_changed_only(#[trigger] pd[i], qd[i]) by {
            assert(pd[i] == ps[i] && qd[i] == qs[i]);
        }
        lemma_join_seats_changed(pd, qd);
        let sep = seq![';', ' '];
        assert(seats_changed_only(sep, sep));
        lemma_seats_changed_concat(join_sep(pd), join_sep(qd), sep, sep);
        assert(seats_changed_only(ps.last(), qs.last())) by {
            assert(ps.last() == ps[ps.len() - 1] && qs.last() == qs[ps.len() - 1]);
        }
        lemma_seats_changed_concat(join_sep(pd) + sep, join_sep(qd) + sep, ps.last(), qs.last());
    } else {
        assert(join_sep(ps) == Seq::<char>::empty() && join_sep(qs) == Seq::<char>::empty());
    }
}

/// Turning a par changes nothing but seat letters: each contract's
/// declaring side or seat, nothing of the contracts themselves.
pub proof fn lemma_par_changes_only_seats(value: Seq<char>, r: int)
    ensures
        seats_changed_only(value, rotated_par(value, r)),
{
    if r != 0 {
        let ps = split_sep_from(value, 0);
        let qs = Seq::new(ps.len(), |i: int| rotated_contract(ps[i], r));
        assert forall|i: int| 0 <= i < ps.len() implies seats_changed_only(#[trigger] ps[i], qs[i]) by {
            lemma_contract_shape(ps[i], r);
        }
        lemma_join_seats_changed(ps, qs);
        lemma_join_split(value, 0);
        assert(value.subrange(0, value.len() as int) =~= value);
    }
}

// ---------------------------------------------------------------------------
// Table sections: the declarer column and the fields of a row
// ---------------------------------------------------------------------------

/// A column's name in a table header: the text before any `\` format
/// specifier, trimmed.
pub open spec fn column_name(col: Seq<char>) -> Seq<char> {
    trim(col.take(find_char(col, '\\', 0)))
}

/// The index of the first column named `Declarer` among `cols`.
pub open spec fn declarer_index(cols: Seq<Seq<char>>, k: int) -> Option<int>
    decreases cols.len() - k,
{
    if k < 0 || k >= cols.len() {
        None
    } else if column_name(cols[k]) == "Declarer"@ {
        Some(k)
    } else {
        declarer_index(cols, k + 1)
    }
}

/// The index of the `Declarer` column of a table section's header value
/// (columns separated by `;`, each possibly followed by `\` and a format),
/// or `None` if the section does not name one.
pub fn declarer_column(header: &str) -> (r: Option<usize>)
    ensures
        match r {
            Some(c) => declarer_index(split_char(header@, ';'), 0) == Some(c as int),
            None => declarer_index(split_char(header@, ';'), 0) is None,
        },
{
    let h = chars_of(header);
    let cols = split_on(&h, ';');
    let target = chars_of("Declarer");
    let mut k: usize = 0;
    while k < cols.len()
        invariant
            k <= cols.len(),
            views(cols@) == split_char(header@, ';'),
            target@ == "Declarer"@,
            declarer_index(views(cols@), 0) == declarer_index(views(cols@), k as int),
        decreases cols.len() - k,
    {
        let col = &cols[k];
        let cut = find_char_from(col.as_slice(), '\\', 0);
        let first = copy_range(col, 0, cut);
        assert(first@ =~= col@.take(cut as int));
        let name = trimmed(&first);
        assert(views(cols@)[k as int] == col@);
        if chars_eq(name.as_slice(), target.as_slice()) {
            return Some(k);
        }
        k = k + 1;
    }
    None
}

/// The index of the first white-space character at or after `i`, or
/// `s.len()`.
pub open spec fn field_end(s: Seq<char>, i: int) -> int
    decreases s.len() - i,
{
    if i >= s.len() {
        s.len() as int
    } else if is_ws(s[i]) {
        i
    } else {
        field_end(s, i + 1)
    }
}

pub proof fn lemma_field_end(s: Seq<char>, i: int)
    requires
        0 <= i <= s.len(),
    ensures
        i <= field_end(s, i) <= s.len(),
    decreases s.len() - i,
{
    if i < s.len() && !is_ws(s[i]) {
        lemma_field_end(s, i + 1);
    }
}

/// The white-space-separated fields of `s` from index `i` on, each with the
/// index it starts at.
pub open spec fn fields_from(s: Seq<char>, i: int) -> Seq<(int, Seq<char>)>
    decreases s.len() - i,
{
    if i < 0 || i >= s.len() {
        seq![]
    } else {
        let j = crate::pbn::ws_end(s, i);
        proof {
            crate::pbn::lemma_ws_end(s, i);
        }
        if j >= s.len() {
            seq![]
        } else {
            let e = field_end(s, j);
            proof {
                lemma_field_end(s, j);
            }
            if e <= i {
                seq![]
            } else {
                seq![(j, s.subrange(j, e))] + fields_from(s, e)
            }
        }
    }
}

/// Field `index` of a row, with the index of its first character.
pub open spec fn row_field_spec(row: Seq<char>, index: int) -> Option<(int, Seq<char>)> {
    let fields = fields_from(row, 0);
    if 0 <= index < fields.len() {
        Some(fields[index])
    } else {
        None
    }
}

fn row_field_chars(row: &Vec<char>, index: usize) -> (r: Option<(usize, Vec<char>)>)
    ensures
        match row_field_spec(row@, index as int) {
            Some(f) => r matches Some(g) && g.0 == f.0 && g.1@ == f.1,
            None => r is None,
        },
{
    let ghost all = fields_from(row@, 0);
    let mut i: usize = 0;
    let mut n: usize = 0;
    while i < row.len()
        invariant
            i <= row.len(),
            n <= i,
            all == fields_from(row@, 0),
            n <= index,
            n <= all.len(),
            all.skip(n as int) == fields_from(row@, i as int),
        decreases row.len() - i,
    {
        let mut j = i;
        while j < row.len() && is_whitespace(row[j])
            invariant
                i <= j <= row.len(),
                crate::pbn::ws_end(row@, i as int) == crate::pbn::ws_end(row@, j as int),
            decreases row.len() - j,
        {
            j = j + 1;
        }
        if j >= row.len() {
            assert(fields_from(row@, i as int) =~= Seq::<(int, Seq<char>)>::empty());
            assert(all.len() == n);
            return None;
        }
        let mut e = j;
        while e < row.len() && !is_whitespace(row[e])
            invariant
                j <= e <= row.len(),
                field_end(row@, j as int) == field_end(row@, e as int),
            decreases row.len() - e,
        {
            e = e + 1;
        }
        assert(e > j) by {
            assert(!is_ws(row@[j as int]));
        }
        assert(fields_from(row@, i as int) == seq![(j as int, row@.subrange(j as int, e as int))]
            + fields_from(row@, e as int));
        assert(all.skip(n as int).len() > 0);
        assert(n < all.len());
        assert(all.skip(n as int)[0] == (j as int, row@.subrange(j as int, e as int)));
        if n == index {
            let f = copy_range(row, j, e);
            return Some((j, f));
        }
        assert(all.skip(n + 1) =~= all.skip(n as int).drop_first());
        assert((seq![(j as int, row@.subrange(j as int, e as int))] + fields_from(row@, e as int)).drop_first() =~= fields_from(row@, e as int));
        n = n + 1;
        i = e;
    }
    assert(fields_from(row@, i as int) =~= Seq::<(int, Seq<char>)>::empty());
    None
}

/// One white-space-separated field of a table row, with the byte offset
/// of its first character in the row's UTF-8 text, so that a field can be
/// replaced without disturbing the row's spacing.
pub fn row_field(row: &str, index: usize) -> (r: Option<(usize, String)>)
    requires
        crate::text::utf8_len(row@) <= usize::MAX,
    ensures
        match row_field_spec(row@, index as int) {
            Some(f) => r matches Some(g) && g.0 == crate::text::utf8_len(row@.take(f.0)) && g.1@ == f.1,
            None => r is None,
        },
{
    let v = chars_of(row);
    match row_field_chars(&v, index) {
        Some((offset, f)) => {
            proof {
                lemma_fields_in_row(v@, 0, index as int);
            }
            Some((crate::text::utf8_prefix_len(&v, offset), string_of(&f)))
        },
        None => None,
    }
}


// ---------------------------------------------------------------------------
// Rotating the rows of an [OptimumResultTable]
// ---------------------------------------------------------------------------

/// A row relabelled for a turn of the table: the seat in its declarer column
/// is replaced by the seat its cards went to, the rest of the row kept as it
/// was. `None` if that column is missing or holds anything but a seat.
pub open spec fn relabel(row: Seq<char>, col: int, rotation: int) -> Option<(char, Seq<char>)> {
    match row_field_spec(row, col) {
        None => None,
        Some(f) => if f.1.len() == 1 && dir_of_char(f.1[0]) is Some {
            let nl = dir_char(rotated(dir_of_char(f.1[0])->0, rotation));
            Some((nl, row.take(f.0) + seq![nl] + row.skip(f.0 + 1)))
        } else {
            None
        },
    }
}

/// Every row relabelled, or `None` if any row cannot be.
pub open spec fn relabel_all(rows: Seq<Seq<char>>, col: int, rotation: int) -> Option<Seq<(char, Seq<char>)>>
    decreases rows.len(),
{
    if rows.len() == 0 {
        Some(Seq::empty())
    } else {
        match relabel_all(rows.drop_last(), col, rotation) {
            None => None,
            Some(rel) => match relabel(rows.last(), col, rotation) {
                None => None,
                Some(x) => Some(rel.push(x)),
            },
        }
    }
}

/// The declarers the rows list, by the first character of their declarer
/// column, each once, in the order they first appear.
pub open spec fn label_order(rows: Seq<Seq<char>>, col: int) -> Seq<char>
    decreases rows.len(),
{
    if rows.len() == 0 {
        Seq::empty()
    } else {
        let acc = label_order(rows.drop_last(), col);
        match row_field_spec(rows.last(), col) {
            Some(f) => if f.1.len() > 0 && !acc.contains(f.1[0]) {
                acc.push(f.1[0])
            } else {
                acc
            },
            None => acc,
        }
    }
}

/// The relabelled rows whose new label is `l`, in order.
pub open spec fn rows_labelled(rel: Seq<(char, Seq<char>)>, l: char) -> Seq<Seq<char>>
    decreases rel.len(),
{
    if rel.len() == 0 {
        Seq::empty()
    } else {
        let acc = rows_labelled(rel.drop_last(), l);
        if rel.last().0 == l {
            acc.push(rel.last().1)
        } else {
            acc
        }
    }
}

/// The relabelled rows whose new label is not in `order`, in order.
pub open spec fn rows_unlisted(rel: Seq<(char, Seq<char>)>, order: Seq<char>) -> Seq<Seq<char>>
    decreases rel.len(),
{
    if rel.len() == 0 {
        Seq::empty()
    } else {
        let acc = rows_unlisted(rel.drop_last(), order);
        if !order.contains(rel.last().0) {
            acc.push(rel.last().1)
        } else {
            acc
        }
    }
}

/// The groups of rows for the labels of `order`, one group after another.
pub open spec fn grouped(rel: Seq<(char, Seq<char>)>, order: Seq<char>) -> Seq<Seq<char>>
    decreases order.len(),
{
    if order.len() == 0 {
        Seq::empty()
    } else {
        grouped(rel, order.drop_last()) + rows_labelled(rel, order.last())
    }
}

/// The rows of a table section after the table turns by `rotation`.
///
/// Each row's declarer is relabelled with the seat its cards went to; the
/// rows are then regrouped so the groups keep the order the source listed
/// its declarers in, rows whose new label was not among the listed ones
/// coming last. If any row lacks a seat in the declarer column, the rows
/// are returned as they are.
pub open spec fn rotated_rows(rows: Seq<Seq<char>>, col: int, rotation: int) -> Seq<Seq<char>> {
    if rotation == 0 {
        rows
    } else {
        match relabel_all(rows, col, rotation) {
            None => rows,
            Some(rel) => {
                let order = label_order(rows, col);
                grouped(rel, order) + rows_unlisted(rel, order)
            },
        }
    }
}

/// Whether `c` is in `v`.
fn contains_label(v: &Vec<char>, c: char) -> (r: bool)
    ensures
        r == v@.contains(c),
{
    let mut i: usize = 0;
    while i < v.len()
        invariant
            i <= v.len(),
            forall|k: int| 0 <= k < i ==> v@[k] != c,
        decreases v.len() - i,
    {
        if v[i] == c {
            assert(v@[i as int] == c);
            return true;
        }
        i = i + 1;
    }
    false
}

/// Relabels one row, or says it cannot be.
fn relabel_row(row: &Vec<char>, col: usize, rotation: u8) -> (r: Option<(char, Vec<char>)>)
    ensures
        match relabel(row@, col as int, rotation as int) {
            Some(x) => r matches Some(y) && y.0 == x.0 && y.1@ == x.1,
            None => r is None,
        },
{
    match row_field_chars(row, col) {
        None => None,
        Some((offset, field)) => {
            if field.len() != 1 {
                return None;
            }
            match Direction::from_char(field[0]) {
                None => None,
                Some(dir) => {
                    let new_label = rotate_direction(dir, rotation).to_char();
                    proof {
                        lemma_fields_in_row(row@, 0, col as int);
                    }
                    let ghost f = row_field_spec(row@, col as int)->0;
                    assert(offset == f.0 && field@ == f.1);
                    assert(f.1 == row@.subrange(f.0, f.0 + 1));
                    assert(offset + 1 <= row.len());
                    let mut out = copy_range(row, 0, offset);
                    out.push(new_label);
                    let rest = copy_range(row, offset + 1, row.len());
                    push_all(&mut out, &rest);
                    assert(out@ =~= row@.take(offset as int) + seq![new_label] + row@.skip(offset + 1));
                    Some((new_label, out))
                },
            }
        },
    }
}

/// Each field lies in its row where its offset says.
proof fn lemma_fields_in_row(s: Seq<char>, i: int, k: int)
    requires
        0 <= i,
    ensures
        0 <= k < fields_from(s, i).len() ==> {
            let f = fields_from(s, i)[k];
            i <= f.0 && f.0 + f.1.len() <= s.len() && f.1 == s.subrange(f.0, f.0 + f.1.len())
        },
    decreases s.len() - i,
{
    if 0 <= i < s.len() {
        let j = crate::pbn::ws_end(s, i);
        crate::pbn::lemma_ws_end(s, i);
        if j < s.len() {
            let e = field_end(s, j);
            lemma_field_end(s, j);
            if e > i {
                if k > 0 {
                    lemma_fields_in_row(s, e, k - 1);
                }
            }
        }
    }
}

/// Rotates the `Declarer` column of a table section's data rows, keeping the
/// order in which the source listed its declarers.
pub fn rotate_dd_rows(rows: &[String], declarer_col: usize, rotation: u8) -> (r: Vec<String>)
    ensures
        string_views(r@) == rotated_rows(string_views(rows@), declarer_col as int, rotation as int),
{
    let ghost input = string_views(rows@);
    if rotation == 0 {
        return crate::text::clone_strings(rows);
    }
    let mut labels: Vec<char> = Vec::new();
    let mut texts: Vec<Vec<char>> = Vec::new();
    let mut i: usize = 0;
    while i < rows.len()
        invariant
            i <= rows.len(),
            input == string_views(rows@),
            labels@.len() == texts@.len(),
            relabel_all(input.take(i as int), declarer_col as int, rotation as int) matches Some(rel)
                && rel.len() == labels@.len()
                && forall|k: int| 0 <= k < rel.len() ==> #[trigger] rel[k] == (labels@[k], texts@[k]@),
        decreases rows.len() - i,
    {
        let row = chars_of(rows[i].as_str());
        assert(input.take(i + 1).drop_last() =~= input.take(i as int));
        assert(input.take(i + 1).last() == row@);
        match relabel_row(&row, declarer_col, rotation) {
            None => {
                proof {
                    lemma_relabel_all_none(input, declarer_col as int, rotation as int, i + 1);
                }
                return crate::text::clone_strings(rows);
            },
            Some((l, t)) => {
                labels.push(l);
                texts.push(t);
            },
        }
        i = i + 1;
    }
    assert(input.take(rows.len() as int) =~= input);
    let ghost rel = relabel_all(input, declarer_col as int, rotation as int)->0;
    // The order the source listed its declarers in.
    let mut order: Vec<char> = Vec::new();
    let mut i: usize = 0;
    while i < rows.len()
        invariant
            i <= rows.len(),
            input == string_views(rows@),
            order@ == label_order(input.take(i as int), declarer_col as int),
        decreases rows.len() - i,
    {
        let row = chars_of(rows[i].as_str());
        assert(input.take(i + 1).drop_last() =~= input.take(i as int));
        assert(input.take(i + 1).last() == row@);
        match row_field_chars(&row, declarer_col) {
            Some((_offset, field)) => {
                if field.len() > 0 {
                    let c = field[0];
                    if !contains_label(&order, c) {
                        order.push(c);
                    }
                }
            },
            None => {},
        }
        i = i + 1;
    }
    assert(input.take(rows.len() as int) =~= input);
    let mut out: Vec<Vec<char>> = Vec::new();
    let mut g: usize = 0;
    while g < order.len()
        invariant
            g <= order.len(),
            labels@.len() == texts@.len() == rel.len(),
            forall|k: int| 0 <= k < rel.len() ==> #[trigger] rel[k] == (labels@[k], texts@[k]@),
            views(out@) == grouped(rel, order@.take(g as int)),
        decreases order.len() - g,
    {
        let label = order[g];
        let ghost before = views(out@);
        let mut k: usize = 0;
        while k < labels.len()
            invariant
                k <= labels.len(),
                labels@.len() == texts@.len() == rel.len(),
                forall|m: int| 0 <= m < rel.len() ==> #[trigger] rel[m] == (labels@[m], texts@[m]@),
                views(out@) == before + rows_labelled(rel.take(k as int), label),
            decreases labels.len() - k,
        {
            assert(rel.take(k + 1).drop_last() =~= rel.take(k as int));
            assert(rel.take(k + 1).last() == rel[k as int]);
            if labels[k] == label {
                let ghost b2 = views(out@);
                out.push(texts[k].clone());
                assert(views(out@) =~= b2.push(texts@[k as int]@));
            }
            k = k + 1;
        }
        assert(rel.take(labels.len() as int) =~= rel);
        assert(order@.take(g + 1).drop_last() =~= order@.take(g as int));
        assert(order@.take(g + 1).last() == label);
        g = g + 1;
    }
    assert(order@.take(order.len() as int) =~= order@);
    let ghost groups = views(out@);
    let mut k: usize = 0;
    while k < labels.len()
        invariant
            k <= labels.len(),
            labels@.len() == texts@.len() == rel.len(),
            forall|m: int| 0 <= m < rel.len() ==> #[trigger] rel[m] == (labels@[m], texts@[m]@),
            views(out@) == groups + rows_unlisted(rel.take(k as int), order@),
        decreases labels.len() - k,
    {
        assert(rel.take(k + 1).drop_last() =~= rel.take(k as int));
        assert(rel.take(k + 1).last() == rel[k as int]);
        if !contains_label(&order, labels[k]) {
            let ghost b2 = views(out@);
            out.push(texts[k].clone());
            assert(views(out@) =~= b2.push(texts@[k as int]@));
        }
        k = k + 1;
    }
    assert(rel.take(labels.len() as int) =~= rel);
    crate::text::strings_of(&out)
}

/// Once a prefix of the rows cannot be relabelled, neither can the whole.
proof fn lemma_relabel_all_none(rows: Seq<Seq<char>>, col: int, rotation: int, j: int)
    requires
        0 <= j <= rows.len(),
        relabel_all(rows.take(j), col, rotation) is None,
    ensures
        relabel_all(rows, col, rotation) is None,
    decreases rows.len() - j,
{
    if j < rows.len() {
        assert(rows.take(j + 1).drop_last() =~= rows.take(j));
        lemma_relabel_all_none(rows, col, rotation, j + 1);
    } else {
        assert(rows.take(j) =~= rows);
    }
}


// ---------------------------------------------------------------------------
// Tag lines and the tags of each board
// ---------------------------------------------------------------------------

/// A whole tag line `[Name "value"]` (already trimmed) split into its name
/// and value: the name runs to the first space, the value is the rest,
/// trimmed, which must be wrapped in double quotes.
pub open spec fn tag_line_spec(line: Seq<char>) -> Option<(Seq<char>, Seq<char>)> {
    if line.len() >= 2 && line[0] == '[' && line.last() == ']' {
        let inner = line.subrange(1, line.len() - 1);
        let sp = find_char(inner, ' ', 0);
        if sp >= inner.len() {
            None
        } else {
            let value = trim(inner.skip(sp + 1));
            if value.len() >= 2 && value[0] == '"' && value.last() == '"' {
                Some((inner.take(sp), value.subrange(1, value.len() - 1)))
            } else {
                None
            }
        }
    } else {
        None
    }
}

/// Splits a tag line into its name and value.
pub fn parse_tag_line_chars(line: &Vec<char>) -> (r: Option<(Vec<char>, Vec<char>)>)
    ensures
        match tag_line_spec(line@) {
            Some(t) => r matches Some(u) && u.0@ == t.0 && u.1@ == t.1,
            None => r is None,
        },
{
    let n = line.len();
    if !(n >= 2 && line[0] == '[' && line[n - 1] == ']') {
        return None;
    }
    let inner = copy_range(line, 1, n - 1);
    let sp = find_char_from(inner.as_slice(), ' ', 0);
    if sp >= inner.len() {
        return None;
    }
    let after = copy_range(&inner, sp + 1, inner.len());
    assert(after@ =~= inner@.skip(sp + 1));
    let value = trimmed(&after);
    let m = value.len();
    if !(m >= 2 && value[0] == '"' && value[m - 1] == '"') {
        return None;
    }
    let name = copy_range(&inner, 0, sp);
    assert(name@ =~= inner@.take(sp as int));
    let v = copy_range(&value, 1, m - 1);
    Some((name, v))
}

/// Splits a tag line such as `[Dealer "N"]` into its name and value.
pub fn parse_tag_line(line: &str) -> (r: Option<(String, String)>)
    ensures
        match tag_line_spec(line@) {
            Some(t) => r matches Some(u) && u.0@ == t.0 && u.1@ == t.1,
            None => r is None,
        },
{
    match parse_tag_line_chars(&chars_of(line)) {
        Some((name, value)) => Some((string_of(&name), string_of(&value))),
        None => None,
    }
}

/// The tags of a file that belong to numbered boards: for every tag line
/// after a `[Board "n"]` with a number, the board number, the tag's name
/// and its value, in file order. `Board` tags themselves are not listed.
pub struct ExtraTags {
    entries: Vec<(u32, Vec<char>, Vec<char>)>,
}

impl ExtraTags {
    /// The listed tags, in file order.
    pub closed spec fn entries_view(&self) -> Seq<(u32, Seq<char>, Seq<char>)> {
        self.entries@.map_values(|e: (u32, Vec<char>, Vec<char>)| (e.0, e.1@, e.2@))
    }

    /// The value of tag `name` on board `board`: the last such tag listed.
    pub fn get(&self, board: u32, name: &Vec<char>) -> (r: Option<Vec<char>>)
        ensures
            match tag_lookup(self.entries_view(), board, name@) {
                Some(v) => r matches Some(w) && w@ == v,
                None => r is None,
            },
    {
        let ghost all = self.entries_view();
        let mut i = self.entries.len();
        assert(all.take(i as int) =~= all);
        while i > 0
            invariant
                i <= self.entries.len(),
                all == self.entries_view(),
                tag_lookup(all, board, name@) == tag_lookup(all.take(i as int), board, name@),
            decreases i,
        {
            let e = &self.entries[i - 1];
            assert(all.take(i as int).drop_last() =~= all.take(i - 1));
            assert(all.take(i as int).last() == (e.0, e.1@, e.2@));
            if e.0 == board && chars_eq(e.1.as_slice(), name.as_slice()) {
                return Some(e.2.clone());
            }
            i = i - 1;
        }
        None
    }
}

/// The value of tag `name` on board `board` among `entries`: the last listed.
pub open spec fn tag_lookup(entries: Seq<(u32, Seq<char>, Seq<char>)>, board: u32, name: Seq<char>) -> Option<Seq<char>>
    decreases entries.len(),
{
    if entries.len() == 0 {
        None
    } else if entries.last().0 == board && entries.last().1 == name {
        Some(entries.last().2)
    } else {
        tag_lookup(entries.drop_last(), board, name)
    }
}

/// What reading the tag lines gives: the board the lines belong to, if a
/// numbered `[Board]` tag has been seen, and the tags listed so far.
pub open spec fn extra_tags_step(
    st: (Option<u32>, Seq<(u32, Seq<char>, Seq<char>)>),
    line: Seq<char>,
) -> (Option<u32>, Seq<(u32, Seq<char>, Seq<char>)>) {
    let t = trim(line);
    if !(t.len() > 0 && t[0] == '[' && t.last() == ']') {
        st
    } else {
        match tag_line_spec(t) {
            None => st,
            Some(tag) => if tag.0 == "Board"@ {
                match crate::text::parse_u32_spec(tag.1) {
                    Some(n) => (Some(n), st.1),
                    None => st,
                }
            } else {
                match st.0 {
                    Some(b) => (st.0, st.1.push((b, tag.0, tag.1))),
                    None => st,
                }
            },
        }
    }
}

/// The state after the given lines.
pub open spec fn extra_tags_lines(ls: Seq<Seq<char>>) -> (Option<u32>, Seq<(u32, Seq<char>, Seq<char>)>)
    decreases ls.len(),
{
    if ls.len() == 0 {
        (None, Seq::empty())
    } else {
        extra_tags_step(extra_tags_lines(ls.drop_last()), ls.last())
    }
}

/// Reads the tags of each numbered board, which the rotation basis and
/// other per-board decisions look up.
pub fn parse_extra_tags(content: &str) -> (r: ExtraTags)
    ensures
        r.entries_view() == extra_tags_lines(crate::text::lines(content@)).1,
{
    let text = chars_of(content);
    let ls = crate::text::lines_of(&text);
    let board_name = chars_of("Board");
    let mut tags = ExtraTags { entries: Vec::new() };
    let mut current: Option<u32> = None;
    let mut i: usize = 0;
    while i < ls.len()
        invariant
            i <= ls.len(),
            views(ls@) == crate::text::lines(content@),
            board_name@ == "Board"@,
            extra_tags_lines(views(ls@).take(i as int)) == (current, tags.entries_view()),
        decreases ls.len() - i,
    {
        let t = trimmed(&ls[i]);
        assert(views(ls@).take(i + 1).drop_last() =~= views(ls@).take(i as int));
        assert(views(ls@).take(i + 1).last() == ls@[i as int]@);
        if t.len() > 0 && t[0] == '[' && t[t.len() - 1] == ']' {
            match parse_tag_line_chars(&t) {
                Some((name, value)) => {
                    if chars_eq(name.as_slice(), board_name.as_slice()) {
                        match crate::text::parse_u32(value.as_slice()) {
                            Some(n) => {
                                current = Some(n);
                            },
                            None => {},
                        }
                    } else {
                        match current {
                            Some(b) => {
                                let ghost before = tags.entries_view();
                                let ghost entry = (b, name@, value@);
                                tags.entries.push((b, name, value));
                                assert(tags.entries_view() =~= before.push(entry));
                            },
                            None => {},
                        }
                    }
                },
                None => {},
            }
        }
        i = i + 1;
    }
    assert(views(ls@).take(ls.len() as int) =~= views(ls@));
    tags
}


// ---------------------------------------------------------------------------
// Rotating a board
// ---------------------------------------------------------------------------

/// A board after the table turns by `rotation` (0 to 3): the dealer moves
/// with the table; vulnerability swaps sides on an odd turn, or is set from
/// the board number when standard vulnerability is asked for; each seat
/// receives the hand of the seat `rotation` places anticlockwise from it.
pub open spec fn rotated_board(b: Board, rotation: int, use_standard_vul: bool) -> Board {
    Board {
        number: b.number,
        dealer: match b.dealer {
            Some(d) => Some(rotated(d, rotation)),
            None => None,
        },
        vulnerable: if use_standard_vul {
            match b.number {
                Some(n) => standard_vul_at(n as int + 15),
                None => b.vulnerable,
            }
        } else {
            vul_rotated(b.vulnerable, rotation)
        },
        deal: b.deal,
    }
}

/// The hands after the turn: the hand a seat held now sits `rotation` seats
/// clockwise.
pub open spec fn hands_rotated(old_deal: Deal, new_deal: Deal, rotation: int) -> bool {
    forall|d: Direction| #[trigger] hand_of(new_deal, rotated(d, rotation)) == hand_of(old_deal, d)
}

/// Rotates a board by `rotation` quarter turns clockwise (four turns being
/// a full turn).
pub fn rotate_board(board: &mut Board, rotation: u8, use_standard_vul: bool)
    ensures
        final(board).number == rotated_board(*old(board), rotation as int, use_standard_vul).number,
        final(board).dealer == rotated_board(*old(board), rotation as int, use_standard_vul).dealer,
        final(board).vulnerable == rotated_board(*old(board), rotation as int, use_standard_vul).vulnerable,
        hands_rotated(old(board).deal, final(board).deal, rotation as int),
{
    if let Some(dealer) = board.dealer {
        board.dealer = Some(rotate_direction(dealer, rotation));
    }
    if use_standard_vul {
        if let Some(num) = board.number {
            board.vulnerable = Vulnerability::from_board_number(num);
        }
    } else {
        board.vulnerable = rotate_vulnerability(board.vulnerable, rotation);
    }
    let old_deal = board.deal.clone();
    let dirs = Direction::all();
    let ghost number = board.number;
    let ghost dealer = board.dealer;
    let ghost vulnerable = board.vulnerable;
    let turn = rotation % 4;
    let mut i: usize = 0;
    while i < 4
        invariant
            i <= 4,
            turn < 4,
            board.number == number,
            board.dealer == dealer,
            board.vulnerable == vulnerable,
            forall|k: int| 0 <= k < 4 ==> #[trigger] dirs@[k] == dir_at(k),
            forall|d: Direction|
                dir_index(d) < i ==> #[trigger] hand_of(board.deal, d) == hand_of(old_deal, rotated(d, 4 - turn)),
        decreases 4 - i,
    {
        let dir = dirs[i];
        let source_dir = rotate_direction(dir, 4 - turn);
        let hand = old_deal.hand(source_dir).clone();
        board.deal.set_hand(dir, hand);
        proof {
            assert forall|d: Direction|
                dir_index(d) < i + 1 implies #[trigger] hand_of(board.deal, d) == hand_of(old_deal, rotated(d, 4 - turn)) by {
                if dir_index(d) == i {
                    assert(d == dir);
                }
            }
        }
        i = i + 1;
    }
    proof {
        assert forall|d: Direction| #[trigger] hand_of(board.deal, rotated(d, rotation as int)) == hand_of(old_deal, d) by {
            let e = rotated(d, rotation as int);
            assert(dir_index(e) < 4);
            let q = rotation as int / 4;
            assert(rotation as int + (4 - turn) == 4 * (q + 1));
            lemma_rotation_composes(d, rotation as int, 4 - turn);
            lemma_full_turn(d, q + 1);
        }
    }
}

/// Turning a board by `r` and then by `s` (without standard vulnerability)
/// gives the board that turning it by `r + s` gives.
pub proof fn lemma_board_rotation_composes(b: Board, r: int, s: int)
    requires
        r >= 0,
        s >= 0,
    ensures
        rotated_board(rotated_board(b, r, false), s, false) == rotated_board(b, r + s, false),
{
    match b.dealer {
        Some(d) => lemma_rotation_composes(d, r, s),
        None => {},
    }
    let v = b.vulnerable;
    assert(vul_rotated(vul_rotated(v, r), s) == vul_rotated(v, r + s)) by {
        assert((r + s) % 2 == 1 <==> (r % 2 == 1) != (s % 2 == 1));
    }
}

/// Hands moved by `r` and then by `s` are the hands moved by `r + s`.
pub proof fn lemma_hands_rotation_composes(a: Deal, b: Deal, c: Deal, r: int, s: int)
    requires
        r >= 0,
        s >= 0,
        hands_rotated(a, b, r),
        hands_rotated(b, c, s),
    ensures
        hands_rotated(a, c, r + s),
{
    assert forall|d: Direction| #[trigger] hand_of(c, rotated(d, r + s)) == hand_of(a, d) by {
        lemma_rotation_composes(d, r, s);
        assert(hand_of(c, rotated(rotated(d, r), s)) == hand_of(b, rotated(d, r)));
    }
}

/// How the current orientation of each board is found.
#[derive(Clone, Copy, Debug, PartialEq, Eq, Structural)]
pub enum RotationBasis {
    /// The `RotationBasis` tag, else `Student`, else `Declarer`, else the
    /// dealer, else North.
    Standard,
    /// The `RotationBasis` tag.
    BasisTag,
    /// The `Student` tag.
    Student,
    /// The `Declarer` tag.
    Declarer,
    /// The dealer.
    Dealer,
    /// The seat the `Deal` tag starts from (its first character), else the
    /// dealer, else North.
    Deal,
    /// Every board faces North.
    North,
    /// Every board faces South.
    South,
    /// Every board faces East.
    East,
    /// Every board faces West.
    West,
}

impl Default for RotationBasis {
    fn default() -> (r: Self)
        ensures
            r == RotationBasis::Standard,
    {
        RotationBasis::Standard
    }
}

/// The seat a board tag names, by its first character.
pub open spec fn tag_direction(tags: Seq<(u32, Seq<char>, Seq<char>)>, board: u32, name: Seq<char>) -> Option<Direction> {
    match tag_lookup(tags, board, name) {
        Some(v) => if v.len() > 0 {
            dir_of_char(v[0])
        } else {
            None
        },
        None => None,
    }
}

/// The seat a board faces and the name of what said so.
pub open spec fn basis_spec(
    dealer: Option<Direction>,
    tags: Seq<(u32, Seq<char>, Seq<char>)>,
    board: u32,
    basis: RotationBasis,
) -> (Direction, Seq<char>) {
    let or_north = |o: Option<Direction>| match o {
        Some(d) => d,
        None => Direction::North,
    };
    match basis {
        RotationBasis::Standard => if tag_direction(tags, board, "RotationBasis"@) is Some {
            (tag_direction(tags, board, "RotationBasis"@)->0, "RotationBasis"@)
        } else if tag_direction(tags, board, "Student"@) is Some {
            (tag_direction(tags, board, "Student"@)->0, "Student"@)
        } else if tag_direction(tags, board, "Declarer"@) is Some {
            (tag_direction(tags, board, "Declarer"@)->0, "Declarer"@)
        } else if dealer is Some {
            (dealer->0, "Dealer"@)
        } else {
            (Direction::North, "North"@)
        },
        RotationBasis::BasisTag => (or_north(tag_direction(tags, board, "RotationBasis"@)), "RotationBasis"@),
        RotationBasis::Student => (or_north(tag_direction(tags, board, "Student"@)), "Student"@),
        RotationBasis::Declarer => (or_north(tag_direction(tags, board, "Declarer"@)), "Declarer"@),
        RotationBasis::Dealer => (or_north(dealer), "Dealer"@),
        RotationBasis::Deal => match tag_direction(tags, board, "Deal"@) {
            Some(d) => (d, "Deal"@),
            None => (or_north(dealer), "Deal"@),
        },
        RotationBasis::North => (Direction::North, "North"@),
        RotationBasis::South => (Direction::South, "South"@),
        RotationBasis::East => (Direction::East, "East"@),
        RotationBasis::West => (Direction::West, "West"@),
    }
}

/// Whether the last `[name "..."]` tag of board `board` starts with a
/// letter naming seat `d`.
pub open spec fn tag_names_seat(tags: Seq<(u32, Seq<char>, Seq<char>)>, board: u32, name: Seq<char>, d: Direction) -> bool {
    match tag_lookup(tags, board, name) {
        Some(v) => v.len() > 0 && (v[0] == dir_char(d) || v[0] == lower_of(dir_char(d))),
        None => false,
    }
}

/// Whether no seat is named by the board's `name` tag.
pub open spec fn tag_names_no_seat(tags: Seq<(u32, Seq<char>, Seq<char>)>, board: u32, name: Seq<char>) -> bool {
    forall|d: Direction| !#[trigger] tag_names_seat(tags, board, name, d)
}

proof fn lemma_tag_direction_names(tags: Seq<(u32, Seq<char>, Seq<char>)>, board: u32, name: Seq<char>)
    ensures
        forall|d: Direction| tag_names_seat(tags, board, name, d) ==> #[trigger] tag_direction(tags, board, name) == Some(d),
        tag_names_no_seat(tags, board, name) ==> tag_direction(tags, board, name) is None,
{
    assert forall|d: Direction| tag_names_seat(tags, board, name, d) implies #[trigger] tag_direction(tags, board, name) == Some(d) by {
        match d {
            Direction::North => {},
            Direction::East => {},
            Direction::South => {},
            Direction::West => {},
        }
    }
    if tag_names_no_seat(tags, board, name) {
        if tag_direction(tags, board, name) is Some {
            let d = tag_direction(tags, board, name)->0;
            assert(tag_names_seat(tags, board, name, d));
        }
    }
}

/// The standard basis goes by priority: a seat named by the `RotationBasis`
/// tag, else by the `Student` tag, else by the `Declarer` tag, else the
/// dealer, else North; the kind found says which. Each single-tag basis
/// takes the seat its tag names (for `Deal`, the seat the deal starts
/// from), falling back to North (for `Deal`, to the dealer, then North).
pub proof fn lemma_basis_priority(dealer: Option<Direction>, tags: Seq<(u32, Seq<char>, Seq<char>)>, board: u32)
    ensures
        forall|d: Direction|
            #[trigger] tag_names_seat(tags, board, "RotationBasis"@, d) ==> basis_spec(dealer, tags, board, RotationBasis::Standard)
                == (d, "RotationBasis"@),
        forall|d: Direction|
            tag_names_no_seat(tags, board, "RotationBasis"@) && #[trigger] tag_names_seat(tags, board, "Student"@, d)
                ==> basis_spec(dealer, tags, board, RotationBasis::Standard) == (d, "Student"@),
        forall|d: Direction|
            tag_names_no_seat(tags, board, "RotationBasis"@) && tag_names_no_seat(tags, board, "Student"@)
                && #[trigger] tag_names_seat(tags, board, "Declarer"@, d) ==> basis_spec(
                dealer,
                tags,
                board,
                RotationBasis::Standard,
            ) == (d, "Declarer"@),
        tag_names_no_seat(tags, board, "RotationBasis"@) && tag_names_no_seat(tags, board, "Student"@)
            && tag_names_no_seat(tags, board, "Declarer"@) ==> basis_spec(dealer, tags, board, RotationBasis::Standard)
            == match dealer {
            Some(d) => (d, "Dealer"@),
            None => (Direction::North, "North"@),
        },
        forall|d: Direction|
            #[trigger] tag_names_seat(tags, board, "Declarer"@, d) ==> basis_spec(dealer, tags, board, RotationBasis::Declarer)
                == (d, "Declarer"@),
        forall|d: Direction|
            #[trigger] tag_names_seat(tags, board, "Student"@, d) ==> basis_spec(dealer, tags, board, RotationBasis::Student)
                == (d, "Student"@),
        forall|d: Direction|
            #[trigger] tag_names_seat(tags, board, "RotationBasis"@, d) ==> basis_spec(dealer, tags, board, RotationBasis::BasisTag)
                == (d, "RotationBasis"@),
        forall|d: Direction|
            #[trigger] tag_names_seat(tags, board, "Deal"@, d) ==> basis_spec(dealer, tags, board, RotationBasis::Deal)
                == (d, "Deal"@),
        tag_names_no_seat(tags, board, "Deal"@) ==> basis_spec(dealer, tags, board, RotationBasis::Deal) == (
            match dealer {
                Some(d) => d,
                None => Direction::North,
            },
            "Deal"@,
        ),
        basis_spec(dealer, tags, board, RotationBasis::Dealer) == (
            match dealer {
                Some(d) => d,
                None => Direction::North,
            },
            "Dealer"@,
        ),
        basis_spec(dealer, tags, board, RotationBasis::North).0 == Direction::North,
        basis_spec(dealer, tags, board, RotationBasis::East).0 == Direction::East,
        basis_spec(dealer, tags, board, RotationBasis::South).0 == Direction::South,
        basis_spec(dealer, tags, board, RotationBasis::West).0 == Direction::West,
{
    lemma_tag_direction_names(tags, board, "RotationBasis"@);
    lemma_tag_direction_names(tags, board, "Student"@);
    lemma_tag_direction_names(tags, board, "Declarer"@);
    lemma_tag_direction_names(tags, board, "Deal"@);
}

/// A seat letter turned by `r` is a single letter naming the seat turned by
/// `r`, in the same case.
pub proof fn lemma_seat_value_turns(c: char, d: Direction, r: int)
    requires
        dir_of_char(c) == Some(d),
    ensures
        rotated_value(seq![c], r).len() == 1,
        dir_of_char(rotated_value(seq![c], r)[0]) == Some(rotated(d, r)),
        is_ascii_upper(rotated_value(seq![c], r)[0]) == is_ascii_upper(c),
{
    assert(seq![c].len() == 1 && seq![c][0] == c);
    match rotated(d, r) {
        Direction::North => {},
        Direction::East => {},
        Direction::South => {},
        Direction::West => {},
    }
}

fn tag_direction_exec(tags: &ExtraTags, board: u32, name: &str) -> (r: Option<Direction>)
    ensures
        r == tag_direction(tags.entries_view(), board, name@),
{
    let n = chars_of(name);
    match tags.get(board, &n) {
        Some(v) => if v.len() > 0 {
            Direction::from_char(v[0])
        } else {
            None
        },
        None => None,
    }
}

/// Finds the seat board `board_num` currently faces, by the chosen basis,
/// and the name of what said so.
pub fn find_basis(board: &Board, tags: &ExtraTags, board_num: u32, basis: RotationBasis) -> (r: (Direction, &'static str))
    ensures
        (r.0, r.1@) == basis_spec(board.dealer, tags.entries_view(), board_num, basis),
{
    let or_north = |o: Option<Direction>| -> (d: Direction)
        ensures
            d == match o {
                Some(x) => x,
                None => Direction::North,
            },
        {
            match o {
                Some(x) => x,
                None => Direction::North,
            }
        };
    match basis {
        RotationBasis::Standard => {
            if let Some(dir) = tag_direction_exec(tags, board_num, "RotationBasis") {
                (dir, "RotationBasis")
            } else if let Some(dir) = tag_direction_exec(tags, board_num, "Student") {
                (dir, "Student")
            } else if let Some(dir) = tag_direction_exec(tags, board_num, "Declarer") {
                (dir, "Declarer")
            } else if let Some(dir) = board.dealer {
                (dir, "Dealer")
            } else {
                (Direction::North, "North")
            }
        },
        RotationBasis::BasisTag => (or_north(tag_direction_exec(tags, board_num, "RotationBasis")), "RotationBasis"),
        RotationBasis::Student => (or_north(tag_direction_exec(tags, board_num, "Student")), "Student"),
        RotationBasis::Declarer => (or_north(tag_direction_exec(tags, board_num, "Declarer")), "Declarer"),
        RotationBasis::Dealer => (or_north(board.dealer), "Dealer"),
        RotationBasis::Deal => match tag_direction_exec(tags, board_num, "Deal") {
            Some(d) => (d, "Deal"),
            None => (or_north(board.dealer), "Deal"),
        },
        RotationBasis::North => (Direction::North, "North"),
        RotationBasis::South => (Direction::South, "South"),
        RotationBasis::East => (Direction::East, "East"),
        RotationBasis::West => (Direction::West, "West"),
    }
}


// ---------------------------------------------------------------------------
// Patterns, output names and rotation notes
// ---------------------------------------------------------------------------

/// Why a rotation cannot be made.
#[derive(Debug, PartialEq, Eq)]
pub enum RotateError {
    /// A pattern character is not a seat letter.
    InvalidDirection(char),
    /// A pattern is empty.
    EmptyPattern,
    /// `--output` was given together with several patterns.
    OutputWithMultiplePatterns,
    /// No board of the input has a deal.
    NoValidBoards,
}

/// The first character of `s` that names no seat, if any.
pub open spec fn first_non_seat(s: Seq<char>, i: int) -> Option<char>
    decreases s.len() - i,
{
    if i < 0 || i >= s.len() {
        None
    } else if dir_of_char(s[i]) is None {
        Some(s[i])
    } else {
        first_non_seat(s, i + 1)
    }
}

/// What an upper-cased pattern reads as: the seats its letters name, or the
/// first character that names none, or that it is empty.
pub open spec fn seats_spec(up: Seq<char>) -> Result<Seq<Direction>, RotateError> {
    match first_non_seat(up, 0) {
        Some(c) => Err(RotateError::InvalidDirection(c)),
        None => if up.len() == 0 {
            Err(RotateError::EmptyPattern)
        } else {
            Ok(Seq::new(up.len(), |i: int| dir_of_char(up[i])->0))
        },
    }
}

/// What a pattern such as `NESW` reads as: the seats its upper-cased
/// letters name, or the first character that names none, or that it is
/// empty.
pub open spec fn pattern_spec(pattern: Seq<char>) -> Result<Seq<Direction>, RotateError> {
    seats_spec(crate::text::uppercase(pattern))
}

/// The seats an upper-cased pattern names, one per character.
pub fn seats_of_pattern(up: &str) -> (r: Result<Vec<Direction>, RotateError>)
    ensures
        match r {
            Ok(v) => seats_spec(up@) == Ok::<Seq<Direction>, RotateError>(v@),
            Err(e) => seats_spec(up@) == Err::<Seq<Direction>, RotateError>(e),
        },
{
    let chars = chars_of(up);
    let ghost upv = up@;
    let mut directions: Vec<Direction> = Vec::new();
    let mut i: usize = 0;
    while i < chars.len()
        invariant
            i <= chars.len(),
            chars@ == upv,
            upv == up@,
            first_non_seat(upv, 0) == first_non_seat(upv, i as int),
            directions@.len() == i,
            forall|k: int| 0 <= k < i ==> dir_of_char(upv[k]) == Some(#[trigger] directions@[k]),
        decreases chars.len() - i,
    {
        match Direction::from_char(chars[i]) {
            Some(dir) => {
                directions.push(dir);
            },
            None => {
                assert(upv[i as int] == chars[i as int]);
                assert(first_non_seat(upv, i as int) == Some(chars[i as int]));
                return Err(RotateError::InvalidDirection(chars[i]));
            },
        }
        i = i + 1;
    }
    if directions.len() == 0 {
        return Err(RotateError::EmptyPattern);
    }
    assert(directions@ =~= Seq::new(upv.len(), |k: int| dir_of_char(upv[k])->0));
    Ok(directions)
}

/// Parses a pattern string like `NESW` or `ns` into the seats it names.
pub fn parse_pattern(pattern: &str) -> (r: Result<Vec<Direction>, RotateError>)
    ensures
        match r {
            Ok(v) => pattern_spec(pattern@) == Ok::<Seq<Direction>, RotateError>(v@),
            Err(e) => pattern_spec(pattern@) == Err::<Seq<Direction>, RotateError>(e),
        },
        crate::text::all_ascii(pattern@) ==> pattern_spec(pattern@) == seats_spec(crate::text::ascii_upper(pattern@)),
{
    seats_of_pattern(crate::text::to_uppercase(pattern).as_str())
}

/// `<stem> - <name>.<ext>`, the extension `pbn` when there is none.
pub open spec fn output_name_spec(stem: Seq<char>, extension: Option<&str>, name: Seq<char>) -> Seq<char> {
    stem + " - "@ + name + seq!['.'] + match extension {
        Some(e) => e@,
        None => "pbn"@,
    }
}

/// The name of the file written for an (upper-cased) pattern name.
pub fn output_name(stem: &str, extension: Option<&str>, name: &str) -> (r: String)
    ensures
        r@ == output_name_spec(stem@, extension, name@),
{
    let mut out = chars_of(stem);
    push_str(&mut out, " - ");
    push_str(&mut out, name);
    out.push('.');
    match extension {
        Some(e) => push_str(&mut out, e),
        None => push_str(&mut out, "pbn"),
    }
    string_of(&out)
}

/// The name of the file written for a pattern: `<stem> - <PATTERN>.<ext>`,
/// the extension `pbn` when the input has none.
pub fn make_output_path(stem: &str, extension: Option<&str>, pattern: &str) -> (r: String)
    ensures
        r@ == output_name_spec(stem@, extension, crate::text::uppercase(pattern@)),
        crate::text::all_ascii(pattern@) ==> r@ == output_name_spec(stem@, extension, crate::text::ascii_upper(pattern@)),
{
    output_name(stem, extension, crate::text::to_uppercase(pattern).as_str())
}

/// The comma-separated patterns of the `--pattern` option, each trimmed.
pub fn split_patterns(pattern: &str) -> (r: Vec<String>)
    ensures
        r@.len() == split_char(pattern@, ',').len(),
        forall|i: int| 0 <= i < r@.len() ==> #[trigger] r@[i]@ == trim(split_char(pattern@, ',')[i]),
{
    let p = chars_of(pattern);
    let parts = split_on(&p, ',');
    let mut r: Vec<String> = Vec::new();
    let mut i: usize = 0;
    while i < parts.len()
        invariant
            i <= parts.len(),
            views(parts@) == split_char(pattern@, ','),
            r@.len() == i,
            forall|k: int| 0 <= k < i ==> #[trigger] r@[k]@ == trim(split_char(pattern@, ',')[k]),
        decreases parts.len() - i,
    {
        assert(views(parts@)[i as int] == parts@[i as int]@);
        r.push(string_of(&trimmed(&parts[i])));
        i = i + 1;
    }
    r
}

/// Information about the rotation applied to a board.
pub struct RotationInfo {
    pub rotation: u8,
    pub target: Direction,
    pub basis: Direction,
    pub basis_kind: String,
    pub use_standard_vul: bool,
}

/// `true` or `false`, as `format!` writes a `bool`.
pub open spec fn bool_text(b: bool) -> Seq<char> {
    if b {
        "true"@
    } else {
        "false"@
    }
}

/// The `[RotationNote "..."]` line that records a board's rotation.
pub open spec fn rotation_note_text(info: RotationInfo, board_num: u32) -> Seq<char> {
    "[RotationNote \"Board "@ + crate::text::decimal(board_num as nat) + ", chOption: "@
        + seq![dir_char(info.target)] + ", chBasis: "@ + seq![dir_char(info.basis)]
        + ", basisKind:"@ + info.basis_kind@ + ", nOption:"@ + crate::text::decimal(
        dir_index(info.target) as nat,
    ) + ", nBasis: "@ + crate::text::decimal(dir_index(info.basis) as nat) + ", nRot: "@
        + crate::text::decimal(info.rotation as nat) + ", useStandardVul: "@ + bool_text(
        info.use_standard_vul,
    ) + "\"]"@
}

impl RotationInfo {
    /// The `[RotationNote "..."]` line for board `board_num`.
    pub fn to_rotation_note(&self, board_num: u32) -> (r: String)
        ensures
            r@ == rotation_note_text(*self, board_num),
    {
        let mut out = chars_of("[RotationNote \"Board ");
        crate::text::push_decimal(&mut out, board_num as u64);
        push_str(&mut out, ", chOption: ");
        out.push(self.target.to_char());
        push_str(&mut out, ", chBasis: ");
        out.push(self.basis.to_char());
        push_str(&mut out, ", basisKind:");
        push_str(&mut out, self.basis_kind.as_str());
        push_str(&mut out, ", nOption:");
        crate::text::push_decimal(&mut out, direction_to_index(self.target) as u64);
        push_str(&mut out, ", nBasis: ");
        crate::text::push_decimal(&mut out, direction_to_index(self.basis) as u64);
        push_str(&mut out, ", nRot: ");
        crate::text::push_decimal(&mut out, self.rotation as u64);
        push_str(&mut out, ", useStandardVul: ");
        if self.use_standard_vul {
            push_str(&mut out, "true");
        } else {
            push_str(&mut out, "false");
        }
        push_str(&mut out, "\"]");
        assert(out@ =~= rotation_note_text(*self, board_num));
        string_of(&out)
    }
}


// ---------------------------------------------------------------------------
// Rotating every board of a file for one pattern
// ---------------------------------------------------------------------------

/// Whether a board has a deal (some hand holds a card).
pub open spec fn has_valid_deal(b: Board) -> bool {
    exists|d: Direction| crate::bridge::hand_has_cards(#[trigger] hand_of(b.deal, d))
}

/// Whether a board has a valid deal (not empty or a placeholder).
pub fn board_has_valid_deal(board: &Board) -> (r: bool)
    ensures
        r == has_valid_deal(*board),
{
    board.deal.has_cards()
}

/// The boards that have a deal, in order.
pub open spec fn valid_boards(bs: Seq<Board>) -> Seq<Board>
    decreases bs.len(),
{
    if bs.len() == 0 {
        Seq::empty()
    } else if has_valid_deal(bs.last()) {
        valid_boards(bs.drop_last()).push(bs.last())
    } else {
        valid_boards(bs.drop_last())
    }
}

/// The rotation recorded for each board, by board number; a later entry for
/// the same number replaces an earlier one.
pub struct RotationInfos {
    entries: Vec<(u32, RotationInfo)>,
}

/// The rotation recorded for board `num`: the last entry for it.
pub open spec fn info_lookup(entries: Seq<(u32, RotationInfo)>, num: u32) -> Option<RotationInfo>
    decreases entries.len(),
{
    if entries.len() == 0 {
        None
    } else if entries.last().0 == num {
        Some(entries.last().1)
    } else {
        info_lookup(entries.drop_last(), num)
    }
}

impl RotationInfos {
    /// The recorded entries, in the order they were recorded.
    pub closed spec fn entries_view(&self) -> Seq<(u32, RotationInfo)> {
        self.entries@
    }

    /// No rotation recorded yet.
    pub fn new() -> (r: RotationInfos)
        ensures
            r.entries_view() == Seq::<(u32, RotationInfo)>::empty(),
    {
        RotationInfos { entries: Vec::new() }
    }

    /// Records the rotation of board `num`.
    pub fn insert(&mut self, num: u32, info: RotationInfo)
        ensures
            final(self).entries_view() == old(self).entries_view().push((num, info)),
    {
        self.entries.push((num, info));
    }

    /// The rotation recorded for board `num`.
    pub fn get(&self, num: u32) -> (r: Option<&RotationInfo>)
        ensures
            match info_lookup(self.entries_view(), num) {
                Some(i) => r == Some(&i),
                None => r is None,
            },
    {
        let mut i = self.entries.len();
        assert(self.entries@.take(i as int) =~= self.entries@);
        while i > 0
            invariant
                i <= self.entries.len(),
                info_lookup(self.entries@, num) == info_lookup(self.entries@.take(i as int), num),
            decreases i,
        {
            assert(self.entries@.take(i as int).drop_last() =~= self.entries@.take(i - 1));
            if self.entries[i - 1].0 == num {
                return Some(&self.entries[i - 1].1);
            }
            i = i - 1;
        }
        None
    }
}

/// The number a board is known by: its own, or its place (from one) when it
/// has none.
pub open spec fn board_number_at(b: Board, i: int) -> u32 {
    match b.number {
        Some(n) => n,
        None => (i + 1) as u32,
    }
}

/// The rotation board `i` (of the boards with deals) receives for a
/// pattern: from the seat it faces to the pattern's seat for its place.
pub open spec fn rotation_for(
    b: Board,
    i: int,
    pattern: Seq<Direction>,
    tags: Seq<(u32, Seq<char>, Seq<char>)>,
    basis: RotationBasis,
) -> int {
    let from = basis_spec(b.dealer, tags, board_number_at(b, i), basis).0;
    let to = pattern[i % (pattern.len() as int)];
    (dir_index(to) + 4 - dir_index(from)) % 4
}

/// Rotates every board that has a deal so that its basis seat comes to the
/// seat the pattern gives for its place (cycling through the pattern),
/// numbering unnumbered boards by place, and records each rotation. With
/// standard vulnerability every board, turned or not, takes the
/// vulnerability of its number.
pub fn rotate_boards(
    boards: &Vec<Board>,
    pattern: &Vec<Direction>,
    tags: &ExtraTags,
    basis: RotationBasis,
    use_standard_vul: bool,
) -> (r: (Vec<Board>, RotationInfos))
    requires
        pattern@.len() > 0,
        boards@.len() < u32::MAX,
    ensures
        r.0@.len() == valid_boards(boards@).len(),
        r.1.entries_view().len() == r.0@.len(),
        forall|i: int| 0 <= i < r.0@.len() ==> {
            let b = valid_boards(boards@)[i];
            let num = board_number_at(b, i);
            let rot = rotation_for(b, i, pattern@, tags.entries_view(), basis);
            let basis_found = basis_spec(b.dealer, tags.entries_view(), num, basis);
            let out = #[trigger] r.0@[i];
            &&& out.number == Some(num)
            &&& r.1.entries_view()[i].0 == num
            &&& r.1.entries_view()[i].1.rotation == rot
            &&& r.1.entries_view()[i].1.target == pattern@[i % (pattern@.len() as int)]
            &&& r.1.entries_view()[i].1.basis == basis_found.0
            &&& r.1.entries_view()[i].1.basis_kind@ == basis_found.1
            &&& r.1.entries_view()[i].1.use_standard_vul == use_standard_vul
            &&& out.vulnerable == rotated_board(Board { number: Some(num), ..b }, rot, use_standard_vul).vulnerable
            &&& if rot == 0 {
                out.dealer == b.dealer && out.deal == b.deal
            } else {
                let expect = rotated_board(Board { number: Some(num), ..b }, rot, use_standard_vul);
                &&& out.dealer == expect.dealer
                &&& hands_rotated(b.deal, out.deal, rot)
            }
        },
{
    // The boards that have a deal.
    let mut valid: Vec<Board> = Vec::new();
    let mut i: usize = 0;
    while i < boards.len()
        invariant
            i <= boards.len(),
            valid@ == valid_boards(boards@.take(i as int)),
        decreases boards.len() - i,
    {
        assert(boards@.take(i + 1).drop_last() =~= boards@.take(i as int));
        assert(boards@.take(i + 1).last() == boards@[i as int]);
        if board_has_valid_deal(&boards[i]) {
            valid.push(boards[i].clone());
        }
        i = i + 1;
    }
    assert(boards@.take(boards.len() as int) =~= boards@);
    proof {
        lemma_valid_boards_len(boards@);
    }
    let ghost vb = valid@;
    let mut out: Vec<Board> = Vec::new();
    let mut infos = RotationInfos::new();
    let mut i: usize = 0;
    while i < valid.len()
        invariant
            i <= valid.len(),
            valid@ == vb,
            vb == valid_boards(boards@),
            vb.len() <= boards@.len() < u32::MAX,
            pattern@.len() > 0,
            out@.len() == i,
            infos.entries_view().len() == i,
            forall|k: int| 0 <= k < i ==> {
                let b = vb[k];
                let num = board_number_at(b, k);
                let rot = rotation_for(b, k, pattern@, tags.entries_view(), basis);
                let basis_found = basis_spec(b.dealer, tags.entries_view(), num, basis);
                let o = #[trigger] out@[k];
                &&& o.number == Some(num)
                &&& infos.entries_view()[k].0 == num
                &&& infos.entries_view()[k].1.rotation == rot
                &&& infos.entries_view()[k].1.target == pattern@[k % (pattern@.len() as int)]
                &&& infos.entries_view()[k].1.basis == basis_found.0
                &&& infos.entries_view()[k].1.basis_kind@ == basis_found.1
                &&& infos.entries_view()[k].1.use_standard_vul == use_standard_vul
                &&& o.vulnerable == rotated_board(Board { number: Some(num), ..b }, rot, use_standard_vul).vulnerable
                &&& if rot == 0 {
                    o.dealer == b.dealer && o.deal == b.deal
                } else {
                    let expect = rotated_board(Board { number: Some(num), ..b }, rot, use_standard_vul);
                    &&& o.dealer == expect.dealer
                    &&& hands_rotated(b.deal, o.deal, rot)
                }
            },
        decreases valid.len() - i,
    {
        let mut board = valid[i].clone();
        if board.number.is_none() {
            board.number = Some((i + 1) as u32);
        }
        let board_num = match board.number {
            Some(n) => n,
            None => 0,
        };
        let target = pattern[i % pattern.len()];
        let (basis_dir, basis_kind) = find_basis(&board, tags, board_num, basis);
        let rotation = rotation_amount(basis_dir, target);
        let ghost before = infos.entries_view();
        let info = RotationInfo {
            rotation,
            target,
            basis: basis_dir,
            basis_kind: basis_kind.to_owned(),
            use_standard_vul,
        };
        infos.insert(board_num, info);
        let ghost numbered = board;
        if rotation != 0 {
            rotate_board(&mut board, rotation, use_standard_vul);
        } else if use_standard_vul {
            board.vulnerable = Vulnerability::from_board_number(board_num);
        }
        out.push(board);
        proof {
            let b = vb[i as int];
            assert(numbered == Board { number: Some(board_num), ..b });
            assert(board_num == board_number_at(b, i as int));
            assert(rotation == rotation_for(b, i as int, pattern@, tags.entries_view(), basis));
        }
        i = i + 1;
    }
    (out, infos)
}

/// A board turned by its rotation brings the seat it faced to the seat the
/// pattern gives for its place; so when the basis is the dealer, the
/// rotated dealer is the pattern's seat.
pub proof fn lemma_rotation_reaches_pattern(
    b: Board,
    i: int,
    pattern: Seq<Direction>,
    tags: Seq<(u32, Seq<char>, Seq<char>)>,
    basis: RotationBasis,
    use_standard_vul: bool,
)
    requires
        pattern.len() > 0,
        0 <= i,
    ensures
        rotated(
            basis_spec(b.dealer, tags, board_number_at(b, i), basis).0,
            rotation_for(b, i, pattern, tags, basis),
        ) == pattern[i % (pattern.len() as int)],
        b.dealer is Some && basis_spec(b.dealer, tags, board_number_at(b, i), basis).0 == b.dealer->0
            ==> rotated_board(
            Board { number: Some(board_number_at(b, i)), ..b },
            rotation_for(b, i, pattern, tags, basis),
            use_standard_vul,
        ).dealer == Some(pattern[i % (pattern.len() as int)]),
{
    let from = basis_spec(b.dealer, tags, board_number_at(b, i), basis).0;
    let to = pattern[i % (pattern.len() as int)];
    crate::bridge::lemma_rotation_reaches(from, to);
}

/// There are no more boards with deals than boards.
proof fn lemma_valid_boards_len(bs: Seq<Board>)
    ensures
        valid_boards(bs).len() <= bs.len(),
    decreases bs.len(),
{
    if bs.len() > 0 {
        lemma_valid_boards_len(bs.drop_last());
    }
}

/// The options of `rotate-deals`.
pub struct Args {
    /// Input PBN file.
    pub input: String,
    /// Output PBN file (defaults to the input's name with the pattern
    /// appended); not used with several patterns.
    pub output: Option<String>,
    /// Rotation pattern(s): seats for the dealer, comma-separated for
    /// several output files.
    pub pattern: String,
    /// How each board's current orientation is found.
    pub basis: RotationBasis,
    /// Set vulnerability from the board number instead of rotating it.
    pub standard_vul: bool,
}

/// Whether the options can be used together: `--output` names one file, so
/// it cannot go with several patterns.
pub fn check_output_option(patterns: &Vec<String>, output: &Option<String>) -> (r: Result<(), RotateError>)
    ensures
        r is Err <==> (patterns@.len() > 1 && output is Some),
        r matches Err(e) ==> e == RotateError::OutputWithMultiplePatterns,
{
    if patterns.len() > 1 && output.is_some() {
        Err(RotateError::OutputWithMultiplePatterns)
    } else {
        Ok(())
    }
}


// ---------------------------------------------------------------------------
// The packed DoubleDummyTricks tag
// ---------------------------------------------------------------------------

/// The rotated encodings of `DoubleDummyTricks` values, gathered by decoding
/// each value, turning its table with `rotate_dd_table`, and encoding it
/// again. A value with no entry did not decode.
pub struct DdTricksRotations {
    entries: Vec<(Vec<char>, u8, Vec<char>)>,
}

/// The encoding recorded for `value` turned by `rotation`: the first entry.
pub open spec fn dd_tricks_lookup(entries: Seq<(Seq<char>, u8, Seq<char>)>, value: Seq<char>, rotation: u8) -> Option<Seq<char>>
    decreases entries.len(),
{
    if entries.len() == 0 {
        None
    } else if entries[0].0 == value && entries[0].1 == rotation {
        Some(entries[0].2)
    } else {
        dd_tricks_lookup(entries.drop_first(), value, rotation)
    }
}

/// A `DoubleDummyTricks` value after the table turns by `rotation`: the
/// recorded encoding of the turned table, or the value as it stands when
/// the turn is none or the value did not decode.
pub open spec fn rotated_dd_tricks(entries: Seq<(Seq<char>, u8, Seq<char>)>, value: Seq<char>, rotation: u8) -> Seq<char> {
    if rotation == 0 {
        value
    } else {
        match dd_tricks_lookup(entries, value, rotation) {
            Some(v) => v,
            None => value,
        }
    }
}

impl DdTricksRotations {
    /// The recorded entries: value, turn, encoding of the turned table.
    pub closed spec fn entries_view(&self) -> Seq<(Seq<char>, u8, Seq<char>)> {
        self.entries@.map_values(|e: (Vec<char>, u8, Vec<char>)| (e.0@, e.1, e.2@))
    }

    /// Nothing recorded.
    pub fn new() -> (r: DdTricksRotations)
        ensures
            r.entries_view() == Seq::<(Seq<char>, u8, Seq<char>)>::empty(),
    {
        let r = DdTricksRotations { entries: Vec::new() };
        assert(r.entries_view() =~= Seq::<(Seq<char>, u8, Seq<char>)>::empty());
        r
    }

    /// Records that `value` turned by `rotation` is encoded as `rotated`.
    pub fn insert(&mut self, value: &str, rotation: u8, rotated: &str)
        ensures
            final(self).entries_view() == old(self).entries_view().push((value@, rotation, rotated@)),
    {
        let ghost before = self.entries_view();
        self.entries.push((chars_of(value), rotation, chars_of(rotated)));
        assert(self.entries_view() =~= before.push((value@, rotation, rotated@)));
    }

    fn lookup(&self, value: &Vec<char>, rotation: u8) -> (r: Option<Vec<char>>)
        ensures
            match dd_tricks_lookup(self.entries_view(), value@, rotation) {
                Some(v) => r matches Some(w) && w@ == v,
                None => r is None,
            },
    {
        let ghost all = self.entries_view();
        let mut i: usize = 0;
        assert(all.skip(0) =~= all);
        while i < self.entries.len()
            invariant
                i <= self.entries.len(),
                all == self.entries_view(),
                dd_tricks_lookup(all, value@, rotation) == dd_tricks_lookup(all.skip(i as int), value@, rotation),
            decreases self.entries.len() - i,
        {
            let e = &self.entries[i];
            assert(all.skip(i as int)[0] == (e.0@, e.1, e.2@));
            if e.1 == rotation && chars_eq(e.0.as_slice(), value.as_slice()) {
                return Some(e.2.clone());
            }
            assert(all.skip(i as int).drop_first() =~= all.skip(i + 1));
            i = i + 1;
        }
        None
    }
}

/// Rotates a `DoubleDummyTricks` value by the recorded encodings.
pub fn rotate_double_dummy_tricks_chars(value: &Vec<char>, rotation: u8, known: &DdTricksRotations) -> (r: Vec<char>)
    ensures
        r@ == rotated_dd_tricks(known.entries_view(), value@, rotation),
{
    if rotation == 0 {
        return value.clone();
    }
    match known.lookup(value, rotation) {
        Some(v) => v,
        None => value.clone(),
    }
}

/// Rotates a `DoubleDummyTricks` value: the same table an
/// `[OptimumResultTable]` holds, packed in a fixed order of declarers and
/// strains, so each cell moves to the seat its hand went to.
pub fn rotate_double_dummy_tricks(value: &str, rotation: u8, known: &DdTricksRotations) -> (r: String)
    ensures
        r@ == rotated_dd_tricks(known.entries_view(), value@, rotation),
{
    string_of(&rotate_double_dummy_tricks_chars(&chars_of(value), rotation, known))
}

/// The values of every `[DoubleDummyTricks "..."]` tag line of a file, in
/// order.
pub fn double_dummy_values(content: &str) -> (r: Vec<String>)
    ensures
        string_views(r@) == dd_values_of(crate::text::lines(content@)),
{
    let text = chars_of(content);
    let ls = crate::text::lines_of(&text);
    let name = chars_of("DoubleDummyTricks");
    let mut r: Vec<String> = Vec::new();
    let mut i: usize = 0;
    while i < ls.len()
        invariant
            i <= ls.len(),
            views(ls@) == crate::text::lines(content@),
            name@ == "DoubleDummyTricks"@,
            string_views(r@) == dd_values_of(views(ls@).take(i as int)),
        decreases ls.len() - i,
    {
        let t = trimmed(&ls[i]);
        assert(views(ls@).take(i + 1).drop_last() =~= views(ls@).take(i as int));
        assert(views(ls@).take(i + 1).last() == ls@[i as int]@);
        match parse_tag_line_chars(&t) {
            Some((n, v)) => {
                if chars_eq(n.as_slice(), name.as_slice()) {
                    let ghost before = string_views(r@);
                    let sv = string_of(&v);
                    r.push(sv);
                    assert(string_views(r@) =~= before.push(v@));
                }
            },
            None => {},
        }
        i = i + 1;
    }
    assert(views(ls@).take(ls.len() as int) =~= views(ls@));
    r
}

/// The `DoubleDummyTricks` values among the given lines.
pub open spec fn dd_values_of(ls: Seq<Seq<char>>) -> Seq<Seq<char>>
    decreases ls.len(),
{
    if ls.len() == 0 {
        Seq::empty()
    } else {
        let acc = dd_values_of(ls.drop_last());
        match tag_line_spec(trim(ls.last())) {
            Some(t) => if t.0 == "DoubleDummyTricks"@ {
                acc.push(t.1)
            } else {
                acc
            },
            None => acc,
        }
    }
}


// ---------------------------------------------------------------------------
// A relabelled row keeps its fields: the table section and the table move
// together
// ---------------------------------------------------------------------------

/// Two texts of the same length with white space in the same places.
pub open spec fn same_spacing(s: Seq<char>, t: Seq<char>) -> bool {
    s.len() == t.len() && forall|k: int| 0 <= k < s.len() ==> is_ws(#[trigger] s[k]) == is_ws(t[k])
}

proof fn lemma_ws_end_agree(s: Seq<char>, t: Seq<char>, i: int)
    requires
        same_spacing(s, t),
        0 <= i <= s.len(),
    ensures
        crate::pbn::ws_end(s, i) == crate::pbn::ws_end(t, i),
    decreases s.len() - i,
{
    if i < s.len() {
        assert(is_ws(s[i]) == is_ws(t[i]));
        lemma_ws_end_agree(s, t, i + 1);
    }
}

proof fn lemma_field_end_agree(s: Seq<char>, t: Seq<char>, i: int)
    requires
        same_spacing(s, t),
        0 <= i <= s.len(),
    ensures
        field_end(s, i) == field_end(t, i),
    decreases s.len() - i,
{
    if i < s.len() {
        assert(is_ws(s[i]) == is_ws(t[i]));
        lemma_field_end_agree(s, t, i + 1);
    }
}

/// Texts with the same spacing have their fields at the same places, with
/// the same lengths.
proof fn lemma_fields_agree(s: Seq<char>, t: Seq<char>, i: int)
    requires
        same_spacing(s, t),
        0 <= i,
    ensures
        fields_from(t, i).len() == fields_from(s, i).len(),
        forall|k: int| 0 <= k < fields_from(s, i).len() ==> {
            &&& (#[trigger] fields_from(t, i)[k]).0 == fields_from(s, i)[k].0
            &&& fields_from(t, i)[k].1.len() == fields_from(s, i)[k].1.len()
        },
    decreases s.len() - i,
{
    if i < s.len() {
        lemma_ws_end_agree(s, t, i);
        let j = crate::pbn::ws_end(s, i);
        crate::pbn::lemma_ws_end(s, i);
        if j < s.len() {
            lemma_field_end_agree(s, t, j);
            lemma_field_end(s, j);
            let e = field_end(s, j);
            if e > i {
                lemma_fields_agree(s, t, e);
                assert forall|k: int| 0 <= k < fields_from(s, i).len() implies {
                    &&& (#[trigger] fields_from(t, i)[k]).0 == fields_from(s, i)[k].0
                    &&& fields_from(t, i)[k].1.len() == fields_from(s, i)[k].1.len()
                } by {
                    if k > 0 {
                        assert(fields_from(t, i)[k] == fields_from(t, e)[k - 1]);
                        assert(fields_from(s, i)[k] == fields_from(s, e)[k - 1]);
                    }
                }
            }
        }
    }
}

/// Fields come in order, each ending before the next begins, none before
/// `i`.
proof fn lemma_fields_ordered(s: Seq<char>, i: int)
    requires
        0 <= i,
    ensures
        forall|k: int| 0 <= k < fields_from(s, i).len() ==> i <= (#[trigger] fields_from(s, i)[k]).0,
        forall|k1: int, k2: int|
            0 <= k1 < k2 < fields_from(s, i).len() ==> (#[trigger] fields_from(s, i)[k1]).0
                + fields_from(s, i)[k1].1.len() <= (#[trigger] fields_from(s, i)[k2]).0,
    decreases s.len() - i,
{
    if 0 <= i < s.len() {
        let j = crate::pbn::ws_end(s, i);
        crate::pbn::lemma_ws_end(s, i);
        if j < s.len() {
            let e = field_end(s, j);
            lemma_field_end(s, j);
            if e > i {
                lemma_fields_ordered(s, e);
                lemma_fields_in_row(s, i, 0);
                assert forall|k: int| 0 <= k < fields_from(s, i).len() implies i <= (#[trigger] fields_from(s, i)[k]).0 by {
                    if k > 0 {
                        assert(fields_from(s, i)[k] == fields_from(s, e)[k - 1]);
                    }
                }
                assert forall|k1: int, k2: int|
                    0 <= k1 < k2 < fields_from(s, i).len() implies (#[trigger] fields_from(s, i)[k1]).0
                        + fields_from(s, i)[k1].1.len() <= (#[trigger] fields_from(s, i)[k2]).0 by {
                    assert(fields_from(s, i)[k2] == fields_from(s, e)[k2 - 1]);
                    if k1 > 0 {
                        assert(fields_from(s, i)[k1] == fields_from(s, e)[k1 - 1]);
                    }
                }
            }
        }
    }
}

/// Whatever a table row says a seat makes, the relabelled row says of the
/// seat the cards went to, and the turned table agrees: the relabelled
/// row's declarer column names the turned seat, every other column is
/// exactly as it was, and the turned table gives that seat the tricks the
/// unturned table gave the first.
pub proof fn lemma_rows_and_table_in_step(
    row: Seq<char>,
    col: int,
    rotation: int,
    a: crate::bridge::DdTable,
    b: crate::bridge::DdTable,
)
    requires
        0 <= col,
        relabel(row, col, rotation) is Some,
        crate::bridge::table_rotated(a, b, rotation),
    ensures
        ({
            let f = row_field_spec(row, col)->0;
            let d = dir_of_char(f.1[0])->0;
            let relabelled = relabel(row, col, rotation)->0;
            let text = relabelled.1;
            &&& row_field_spec(text, col) == Some((f.0, seq![dir_char(rotated(d, rotation))]))
            &&& forall|j: int| j != col ==> #[trigger] row_field_spec(text, j) == row_field_spec(row, j)
            &&& forall|s: crate::bridge::Strain| #[trigger] b.tricks_view(rotated(d, rotation), s) == a.tricks_view(d, s)
        }),
{
    let f = row_field_spec(row, col)->0;
    let d = dir_of_char(f.1[0])->0;
    let nl = dir_char(rotated(d, rotation));
    let relabelled = relabel(row, col, rotation)->0;
    let text = relabelled.1;
    lemma_fields_in_row(row, 0, col);
    let off = f.0;
    assert(f.1 == row.subrange(off, off + 1));
    assert(text == row.take(off) + seq![nl] + row.skip(off + 1));
    assert(text.len() == row.len());
    assert forall|k: int| 0 <= k < row.len() implies is_ws(#[trigger] row[k]) == is_ws(text[k]) by {
        if k == off {
            assert(row[k] == f.1[0]);
            assert(text[k] == nl);
        } else if k < off {
            assert(text[k] == row[k]);
        } else {
            assert(text[k] == row[k]);
        }
    }
    assert(same_spacing(row, text));
    lemma_fields_agree(row, text, 0);
    lemma_fields_ordered(row, 0);
    let fr = fields_from(row, 0);
    let ft = fields_from(text, 0);
    assert forall|k: int| 0 <= k < fr.len() implies (#[trigger] ft[k]).1 == if k == col {
        seq![nl]
    } else {
        fr[k].1
    } by {
        lemma_fields_in_row(text, 0, k);
        lemma_fields_in_row(row, 0, k);
        let o = fr[k].0;
        let n = fr[k].1.len();
        if k == col {
            assert(ft[k].1 =~= seq![nl]);
        } else {
            if k < col {
                assert(o + n <= off);
            } else {
                assert(off + 1 <= o);
            }
            assert forall|m: int| 0 <= m < n implies ft[k].1[m] == fr[k].1[m] by {
                assert(ft[k].1[m] == text[o + m]);
                assert(fr[k].1[m] == row[o + m]);
                if o + m < off {
                    assert(text[o + m] == row[o + m]);
                } else {
                    assert(text[o + m] == row[o + m]);
                }
            }
            assert(ft[k].1 =~= fr[k].1);
        }
    }
    assert forall|j: int| j != col implies #[trigger] row_field_spec(text, j) == row_field_spec(row, j) by {
        if 0 <= j < fr.len() {
            assert(ft[j] == fr[j]);
        }
    }
    assert(ft[col] == (off, seq![nl]));
}


// ---------------------------------------------------------------------------
// Regrouping the rows loses and repeats none of them
// ---------------------------------------------------------------------------

/// How many times `x` occurs in `s`.
pub open spec fn count_in(s: Seq<Seq<char>>, x: Seq<char>) -> nat
    decreases s.len(),
{
    if s.len() == 0 {
        0
    } else {
        count_in(s.drop_last(), x) + if s.last() == x {
            1nat
        } else {
            0nat
        }
    }
}

/// The relabelled texts, in the input's order.
pub open spec fn relabelled_texts(rel: Seq<(char, Seq<char>)>) -> Seq<Seq<char>> {
    Seq::new(rel.len(), |i: int| rel[i].1)
}

proof fn lemma_count_concat(a: Seq<Seq<char>>, b: Seq<Seq<char>>, x: Seq<char>)
    ensures
        count_in(a + b, x) == count_in(a, x) + count_in(b, x),
    decreases b.len(),
{
    if b.len() == 0 {
        assert(a + b =~= a);
    } else {
        assert((a + b).drop_last() =~= a + b.drop_last());
        lemma_count_concat(a, b.drop_last(), x);
    }
}

proof fn lemma_unlisted_empty(rel: Seq<(char, Seq<char>)>)
    ensures
        rows_unlisted(rel, Seq::empty()) == relabelled_texts(rel),
    decreases rel.len(),
{
    if rel.len() > 0 {
        lemma_unlisted_empty(rel.drop_last());
        assert(relabelled_texts(rel) =~= relabelled_texts(rel.drop_last()).push(rel.last().1));
    } else {
        assert(relabelled_texts(rel) =~= Seq::<Seq<char>>::empty());
    }
}

proof fn lemma_count_push(s: Seq<Seq<char>>, t: Seq<char>, x: Seq<char>)
    ensures
        count_in(s.push(t), x) == count_in(s, x) + if t == x {
            1nat
        } else {
            0nat
        },
{
    assert(s.push(t).drop_last() =~= s);
}

proof fn lemma_unlisted_split(rel: Seq<(char, Seq<char>)>, o: Seq<char>, l: char, x: Seq<char>)
    requires
        !o.contains(l),
    ensures
        count_in(rows_unlisted(rel, o), x) == count_in(rows_unlisted(rel, o.push(l)), x) + count_in(
            rows_labelled(rel, l),
            x,
        ),
    decreases rel.len(),
{
    if rel.len() > 0 {
        let r = rel.drop_last();
        let c = rel.last().0;
        let t = rel.last().1;
        let o2 = o.push(l);
        lemma_unlisted_split(r, o, l, x);
        assert(o2.contains(c) == (o.contains(c) || c == l)) by {
            if o.contains(c) {
                let k = choose|k: int| 0 <= k < o.len() && o[k] == c;
                assert(o2[k] == c);
            }
            if c == l {
                assert(o2[o.len() as int] == l);
            }
            if o2.contains(c) {
                let k = choose|k: int| 0 <= k < o2.len() && o2[k] == c;
                if k < o.len() {
                    assert(o[k] == c);
                }
            }
        }
        let u1 = rows_unlisted(r, o);
        let u2 = rows_unlisted(r, o2);
        let lb = rows_labelled(r, l);
        lemma_count_push(u1, t, x);
        lemma_count_push(u2, t, x);
        lemma_count_push(lb, t, x);
        if c == l {
            assert(rows_unlisted(rel, o) == u1.push(t));
            assert(rows_unlisted(rel, o2) == u2);
            assert(rows_labelled(rel, l) == lb.push(t));
        } else if o.contains(c) {
            assert(rows_unlisted(rel, o) == u1);
            assert(rows_unlisted(rel, o2) == u2);
            assert(rows_labelled(rel, l) == lb);
        } else {
            assert(rows_unlisted(rel, o) == u1.push(t));
            assert(rows_unlisted(rel, o2) == u2.push(t));
            assert(rows_labelled(rel, l) == lb);
        }
    }
}

proof fn lemma_grouping_counts(rel: Seq<(char, Seq<char>)>, o: Seq<char>, x: Seq<char>)
    requires
        forall|i: int, j: int| 0 <= i < j < o.len() ==> o[i] != o[j],
    ensures
        count_in(grouped(rel, o), x) + count_in(rows_unlisted(rel, o), x) == count_in(
            relabelled_texts(rel),
            x,
        ),
    decreases o.len(),
{
    if o.len() == 0 {
        lemma_unlisted_empty(rel);
        assert(o =~= Seq::<char>::empty());
        assert(grouped(rel, o).len() == 0);
        assert(count_in(grouped(rel, o), x) == 0);
    } else {
        let p = o.drop_last();
        let l = o.last();
        assert(!p.contains(l)) by {
            if p.contains(l) {
                let k = choose|k: int| 0 <= k < p.len() && p[k] == l;
                assert(o[k] == o[o.len() - 1]);
            }
        }
        assert forall|i: int, j: int| 0 <= i < j < p.len() implies p[i] != p[j] by {
            assert(p[i] == o[i] && p[j] == o[j]);
        }
        lemma_grouping_counts(rel, p, x);
        lemma_unlisted_split(rel, p, l, x);
        assert(p.push(l) =~= o);
        assert(grouped(rel, o) == grouped(rel, p) + rows_labelled(rel, l));
        lemma_count_concat(grouped(rel, p), rows_labelled(rel, l), x);
    }
}

proof fn lemma_label_order_distinct(rows: Seq<Seq<char>>, col: int)
    ensures
        forall|i: int, j: int|
            0 <= i < j < label_order(rows, col).len() ==> label_order(rows, col)[i] != label_order(
                rows,
                col,
            )[j],
    decreases rows.len(),
{
    if rows.len() > 0 {
        lemma_label_order_distinct(rows.drop_last(), col);
        let acc = label_order(rows.drop_last(), col);
        match row_field_spec(rows.last(), col) {
            Some(f) => if f.1.len() > 0 && !acc.contains(f.1[0]) {
                assert forall|i: int, j: int|
                    0 <= i < j < acc.push(f.1[0]).len() implies acc.push(f.1[0])[i] != acc.push(f.1[0])[j] by {
                    if j == acc.len() {
                        assert(acc[i] != f.1[0]) by {
                            if acc[i] == f.1[0] {
                                assert(acc.contains(f.1[0]));
                            }
                        }
                    }
                }
            },
            None => {},
        }
    }
}

/// Every relabelled row appears once in the rotated section and no other
/// row does: the regrouping only reorders (for a real turn of a section
/// whose every row names a seat).
pub proof fn lemma_rotated_rows_keep_every_row(rows: Seq<Seq<char>>, col: int, rotation: int)
    requires
        rotation != 0,
        relabel_all(rows, col, rotation) is Some,
    ensures
        forall|x: Seq<char>|
            #[trigger] count_in(rotated_rows(rows, col, rotation), x) == count_in(
                relabelled_texts(relabel_all(rows, col, rotation)->0),
                x,
            ),
{
    let rel = relabel_all(rows, col, rotation)->0;
    let order = label_order(rows, col);
    lemma_label_order_distinct(rows, col);
    assert forall|x: Seq<char>|
        #[trigger] count_in(rotated_rows(rows, col, rotation), x) == count_in(relabelled_texts(rel), x) by {
        lemma_grouping_counts(rel, order, x);
        lemma_count_concat(grouped(rel, order), rows_unlisted(rel, order), x);
    }
}

/// Each relabelled row is its input row relabelled.
pub proof fn lemma_relabel_all_rows(rows: Seq<Seq<char>>, col: int, rotation: int)
    requires
        relabel_all(rows, col, rotation) is Some,
    ensures
        relabel_all(rows, col, rotation)->0.len() == rows.len(),
        forall|k: int|
            0 <= k < rows.len() ==> relabel(#[trigger] rows[k], col, rotation) == Some(
                relabel_all(rows, col, rotation)->0[k],
            ),
    decreases rows.len(),
{
    if rows.len() > 0 {
        lemma_relabel_all_rows(rows.drop_last(), col, rotation);
        assert forall|k: int| 0 <= k < rows.len() implies relabel(#[trigger] rows[k], col, rotation) == Some(
            relabel_all(rows, col, rotation)->0[k],
        ) by {
            if k < rows.len() - 1 {
                assert(rows[k] == rows.drop_last()[k]);
            }
        }
    }
}

} // verus!
