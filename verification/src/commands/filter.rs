//! `filter`: boards whose text a regular expression matches, and those it
//! does not, each with the file's header.
use vstd::prelude::*;
use crate::pbn::{first_tag_from, find_tag, lemma_first_tag_bounds};
use crate::text::{
    lines_text, chars_of, chars_of_all, concat, copy_range, decimal, decimal_of, ends_with_char, has_prefix,
    lines, lines_of, push_all, push_decimal, push_str, starts_with_char, string_of,
    string_views, strings_of, trim, trimmed, views,
};

verus! {

// ---------------------------------------------------------------------------
// Splitting a file into its header and boards
// ---------------------------------------------------------------------------

/// `[Event `, the line that starts a new board.
pub open spec fn event_open() -> Seq<char> {
    seq!['[', 'E', 'v', 'e', 'n', 't', ' ']
}

/// What splitting has gathered after some lines: the header, the finished
/// boards, the board being gathered, and whether the header is still open.
pub type SplitState = (Seq<char>, Seq<Seq<char>>, Seq<char>, bool);

/// One line's effect on the split.
///
/// While the header is open, `%` directives and blank lines join the
/// header (and `;` comments too when `comments` holds), and the first line
/// that starts with `[` opens the first board; any other line is dropped.
/// After that every line joins the current board, and an `[Event ` line
/// starts a new board once the current one has text.
pub open spec fn split_step(st: SplitState, line: Seq<char>, comments: bool) -> SplitState {
    let t = trim(line);
    let with_nl = line.push('\n');
    if st.3 {
        if starts_with_char(t, '%') || (comments && starts_with_char(t, ';')) || t.len() == 0 {
            (st.0 + with_nl, st.1, st.2, true)
        } else if starts_with_char(t, '[') {
            (st.0, st.1, st.2 + with_nl, false)
        } else {
            st
        }
    } else if has_prefix(t, event_open()) && st.2.len() > 0 {
        (st.0, st.1.push(st.2), with_nl, false)
    } else {
        (st.0, st.1, st.2 + with_nl, false)
    }
}

/// The split after the given lines.
pub open spec fn split_lines(ls: Seq<Seq<char>>, comments: bool) -> SplitState
    decreases ls.len(),
{
    if ls.len() == 0 {
        (Seq::empty(), Seq::empty(), Seq::empty(), true)
    } else {
        split_step(split_lines(ls.drop_last(), comments), ls.last(), comments)
    }
}

/// A file's header and its board sections, `;` comments before the first
/// board kept in the header when `comments` holds and dropped otherwise.
pub open spec fn split_spec_with(content: Seq<char>, comments: bool) -> (Seq<char>, Seq<Seq<char>>) {
    let st = split_lines(lines(content), comments);
    (st.0, if st.2.len() > 0 {
        st.1.push(st.2)
    } else {
        st.1
    })
}

/// A file's header and its board sections, as `split_pbn_content` gives them.
pub open spec fn split_spec(content: Seq<char>) -> (Seq<char>, Seq<Seq<char>>) {
    split_spec_with(content, true)
}

/// Splits PBN text into its header (the `%`, `;` and blank lines before the
/// first tag) and its board sections, each section running from one `[Event `
/// line to the next, every line ending in a newline.
pub fn split_pbn_content(content: &str) -> (r: (String, Vec<String>))
    ensures
        (r.0@, string_views(r.1@)) == split_spec(content@),
{
    split_sections(content, true)
}

/// Splits PBN text into its header (the `%` and blank lines before the
/// first tag, and the `;` comments there when `keep_comments` holds) and its
/// board sections, each running from one `[Event ` line to the next, every
/// line ending in a newline.
pub fn split_sections(content: &str, keep_comments: bool) -> (r: (String, Vec<String>))
    ensures
        (r.0@, string_views(r.1@)) == split_spec_with(content@, keep_comments),
{
    let text = chars_of(content);
    let ls = lines_of(&text);
    let mut header: Vec<char> = Vec::new();
    let mut boards: Vec<Vec<char>> = Vec::new();
    let mut current: Vec<char> = Vec::new();
    let mut in_header = true;
    let ev: Vec<char> = vec!['[', 'E', 'v', 'e', 'n', 't', ' '];
    assert(ev@ =~= event_open());
    let mut i: usize = 0;
    while i < ls.len()
        invariant
            i <= ls.len(),
            views(ls@) == lines(content@),
            ev@ == event_open(),
            split_lines(views(ls@).take(i as int), keep_comments) == (header@, views(boards@), current@, in_header),
        decreases ls.len() - i,
    {
        let line = &ls[i];
        let t = trimmed(line);
        let ghost st = (header@, views(boards@), current@, in_header);
        assert(views(ls@).take(i + 1).drop_last() =~= views(ls@).take(i as int));
        assert(views(ls@).take(i + 1).last() == line@);
        if in_header {
            if (t.len() > 0 && (t[0] == '%' || (keep_comments && t[0] == ';'))) || t.len() == 0 {
                push_all(&mut header, line);
                header.push('\n');
            } else if t.len() > 0 && t[0] == '[' {
                in_header = false;
                push_all(&mut current, line);
                current.push('\n');
            }
        } else {
            if crate::text::prefix_at(t.as_slice(), 0, ev.as_slice()) && current.len() > 0 {
                assert(t@.skip(0) =~= t@);
                let done = current;
                let ghost before = views(boards@);
                boards.push(done);
                assert(views(boards@) =~= before.push(st.2));
                current = Vec::new();
            } else {
                assert(t@.skip(0) =~= t@);
            }
            push_all(&mut current, line);
            current.push('\n');
        }
        proof {
            assert(split_lines(views(ls@).take(i + 1), keep_comments) == split_step(st, line@, keep_comments));
            assert(header@ =~= split_step(st, line@, keep_comments).0);
            assert(current@ =~= split_step(st, line@, keep_comments).2);
        }
        i = i + 1;
    }
    assert(views(ls@).take(ls.len() as int) =~= views(ls@));
    if current.len() > 0 {
        let ghost before = views(boards@);
        boards.push(current);
        assert(views(boards@) =~= before.push(split_lines(lines(content@), keep_comments).2));
    }
    (string_of(&header), strings_of(&boards))
}


// ---------------------------------------------------------------------------
// Writing boards back out
// ---------------------------------------------------------------------------

/// A board's text as it is written out: ending in a newline.
pub open spec fn with_final_newline(b: Seq<char>) -> Seq<char> {
    if ends_with_char(b, '\n') {
        b
    } else {
        b.push('\n')
    }
}

/// The boards' texts, each ending in a newline, one after another.
pub open spec fn boards_text(boards: Seq<Seq<char>>) -> Seq<char>
    decreases boards.len(),
{
    if boards.len() == 0 {
        Seq::empty()
    } else {
        boards_text(boards.drop_last()) + with_final_newline(boards.last())
    }
}

/// Builds a file from a header and board sections: the header, then each
/// board, each ending in a newline.
pub fn build_output(header: &str, boards: &[String]) -> (r: String)
    ensures
        r@ == header@ + boards_text(string_views(boards@)),
{
    let mut out = chars_of(header);
    let mut i: usize = 0;
    while i < boards.len()
        invariant
            i <= boards.len(),
            out@ == header@ + boards_text(string_views(boards@).take(i as int)),
        decreases boards.len() - i,
    {
        let b = chars_of(boards[i].as_str());
        push_all(&mut out, &b);
        if !(b.len() > 0 && b[b.len() - 1] == '\n') {
            out.push('\n');
        }
        assert(string_views(boards@).take(i + 1).drop_last() =~= string_views(boards@).take(
            i as int,
        ));
        assert(string_views(boards@).take(i + 1).last() == b@);
        i = i + 1;
    }
    assert(string_views(boards@).take(boards.len() as int) =~= string_views(boards@));
    string_of(&out)
}

// ---------------------------------------------------------------------------
// Splitting loses and repeats no line of the boards
// ---------------------------------------------------------------------------

/// Whether a line before the first board belongs to the header: a `%`
/// directive, a `;` comment or a blank line.
pub open spec fn header_line(line: Seq<char>) -> bool {
    starts_with_char(trim(line), '%') || starts_with_char(trim(line), ';') || trim(line).len() == 0
}

/// Whether a line opens the first board: it starts with `[`.
pub open spec fn opens_board(line: Seq<char>) -> bool {
    starts_with_char(trim(line), '[')
}

/// The index of the line that opens the first board, if any.
pub open spec fn board_start(ls: Seq<Seq<char>>) -> Option<int>
    decreases ls.len(),
{
    if ls.len() == 0 {
        None
    } else {
        match board_start(ls.drop_last()) {
            Some(k) => Some(k),
            None => if opens_board(ls.last()) {
                Some(ls.len() - 1)
            } else {
                None
            },
        }
    }
}

/// The header lines among the given lines, each followed by a newline.
pub open spec fn kept_header(ls: Seq<Seq<char>>) -> Seq<char>
    decreases ls.len(),
{
    if ls.len() == 0 {
        Seq::empty()
    } else {
        kept_header(ls.drop_last()) + if header_line(ls.last()) {
            ls.last().push('\n')
        } else {
            Seq::empty()
        }
    }
}

proof fn lemma_split_lines_state(ls: Seq<Seq<char>>)
    ensures
        ({
            let st = split_lines(ls, true);
            match board_start(ls) {
                None => st.3 && st.0 == kept_header(ls) && st.1.len() == 0 && st.2.len() == 0,
                Some(k) => {
                    &&& 0 <= k < ls.len()
                    &&& !st.3
                    &&& st.0 == kept_header(ls.take(k))
                    &&& ends_with_char(st.2, '\n')
                    &&& boards_text(st.1) + st.2 == lines_text(ls.skip(k))
                },
            }
        }),
    decreases ls.len(),
{
    if ls.len() > 0 {
        let p = ls.drop_last();
        let line = ls.last();
        lemma_split_lines_state(p);
        let st = split_lines(p, true);
        let with_nl = line.push('\n');
        assert(split_lines(ls, true) == split_step(st, line, true));
        match board_start(p) {
            None => {
                if header_line(line) {
                    assert(kept_header(ls) == kept_header(p) + with_nl);
                } else if opens_board(line) {
                    assert(ls.take(p.len() as int) =~= p);
                    assert(ls.skip(p.len() as int) =~= seq![line]);
                    assert(seq![line].drop_last() =~= Seq::<Seq<char>>::empty());
                    assert(lines_text(seq![line]) == lines_text(Seq::<Seq<char>>::empty()) + with_nl);
                    assert(st.2 + with_nl =~= with_nl);
                    assert(boards_text(st.1) =~= Seq::<char>::empty());
                    assert(boards_text(st.1) + (st.2 + with_nl) =~= with_nl);
                } else {
                    assert(kept_header(ls) =~= kept_header(p));
                }
            },
            Some(k) => {
                assert(ls.take(k) =~= p.take(k));
                assert(ls.skip(k) =~= p.skip(k).push(line));
                assert(ls.skip(k).drop_last() =~= p.skip(k));
                let t = trim(line);
                if has_prefix(t, event_open()) && st.2.len() > 0 {
                    assert(st.1.push(st.2).drop_last() =~= st.1);
                    assert(boards_text(st.1.push(st.2)) == boards_text(st.1) + with_final_newline(st.2));
                    assert(boards_text(st.1.push(st.2)) + with_nl =~= boards_text(st.1) + st.2 + with_nl);
                } else {
                    assert(boards_text(st.1) + (st.2 + with_nl) =~= boards_text(st.1) + st.2 + with_nl);
                }
            },
        }
    }
}

/// Splitting a file loses and repeats no line of its boards: the boards,
/// written back one after another, are exactly the file's lines from the
/// one that opens the first board on, and the header is the `%`, `;` and
/// blank lines before it. Without a line that opens a board there are no boards.
pub proof fn lemma_split_keeps_every_line(content: Seq<char>)
    ensures
        ({
            let ls = lines(content);
            let sp = split_spec(content);
            match board_start(ls) {
                None => sp.0 == kept_header(ls) && sp.1.len() == 0,
                Some(k) => sp.0 == kept_header(ls.take(k)) && boards_text(sp.1) == lines_text(ls.skip(k)),
            }
        }),
{
    let ls = lines(content);
    lemma_split_lines_state(ls);
    let st = split_lines(ls, true);
    match board_start(ls) {
        None => {},
        Some(k) => {
            assert(st.1.push(st.2).drop_last() =~= st.1);
            assert(boards_text(st.1.push(st.2)) == boards_text(st.1) + with_final_newline(st.2));
        },
    }
}

/// Where the header ends: the line that opens the first board, or the end.
pub open spec fn header_end(ls: Seq<Seq<char>>) -> int {
    match board_start(ls) {
        Some(k) => k,
        None => ls.len() as int,
    }
}

proof fn lemma_kept_header_all(ls: Seq<Seq<char>>)
    requires
        forall|i: int| 0 <= i < ls.len() ==> header_line(#[trigger] ls[i]),
    ensures
        kept_header(ls) == lines_text(ls),
    decreases ls.len(),
{
    if ls.len() > 0 {
        let p = ls.drop_last();
        assert forall|i: int| 0 <= i < p.len() implies header_line(#[trigger] p[i]) by {
            assert(p[i] == ls[i]);
        }
        lemma_kept_header_all(p);
        assert(header_line(ls[ls.len() - 1]));
    }
}

/// Rebuilding a split file gives back the file's lines, each ending in a
/// newline, as long as splitting dropped nothing: every line before the
/// first board is a `%` directive, a `;` comment or blank.
pub proof fn lemma_rebuild_gives_back_the_lines(content: Seq<char>)
    requires
        forall|i: int| 0 <= i < header_end(lines(content)) ==> header_line(#[trigger] lines(content)[i]),
    ensures
        split_spec(content).0 + boards_text(split_spec(content).1) == lines_text(lines(content)),
{
    let ls = lines(content);
    lemma_split_keeps_every_line(content);
    match board_start(ls) {
        None => {
            lemma_kept_header_all(ls);
            assert(boards_text(split_spec(content).1) =~= Seq::<char>::empty());
        },
        Some(k) => {
            lemma_board_start_bounds(ls);
            let h = ls.take(k);
            assert forall|i: int| 0 <= i < h.len() implies header_line(#[trigger] h[i]) by {
                assert(h[i] == ls[i]);
            }
            lemma_kept_header_all(h);
            crate::text::lemma_lines_text_concat(h, ls.skip(k));
            assert(h + ls.skip(k) =~= ls);
        },
    }
}

proof fn lemma_board_start_bounds(ls: Seq<Seq<char>>)
    ensures
        board_start(ls) matches Some(k) ==> 0 <= k < ls.len(),
    decreases ls.len(),
{
    if ls.len() > 0 {
        lemma_board_start_bounds(ls.drop_last());
    }
}

/// `Board`.
pub open spec fn board_name() -> Seq<char> {
    seq!['B', 'o', 'a', 'r', 'd']
}

/// A `[Board "n"]` tag.
pub open spec fn board_tag(n: nat) -> Seq<char> {
    seq!['[', 'B', 'o', 'a', 'r', 'd', ' ', '"'] + decimal(n) + seq!['"', ']']
}

/// A board's text with its first `[Board "..."]` tag (any white space after
/// the name, any value) replaced by `[Board "n"]`; unchanged without one.
pub open spec fn renumbered(b: Seq<char>, n: nat) -> Seq<char> {
    match first_tag_from(b, 0, board_name(), 0) {
        Some(t) => b.take(t.0) + board_tag(n) + b.skip(t.3),
        None => b,
    }
}

/// Renumbering writes the new number so that it reads back: a board with a
/// `[Board "..."]` tag has that first tag replaced by `[Board "d"]`, where
/// `d` is a run of digits that reads as `n`, and nothing else changes; a
/// board without one is left as it is.
pub proof fn lemma_renumbered_reads_back(b: Seq<char>, n: u32)
    ensures
        match first_tag_from(b, 0, board_name(), 0) {
            Some(t) => exists|d: Seq<char>|
                crate::text::parse_u32_spec(d) == Some(n) && renumbered(b, n as nat) == b.take(t.0) + seq![
                    '[',
                    'B',
                    'o',
                    'a',
                    'r',
                    'd',
                    ' ',
                    '"',
                ] + d + seq!['"', ']'] + b.skip(t.3),
            None => renumbered(b, n as nat) == b,
        },
{
    crate::text::lemma_decimal_reads_back(n);
    match first_tag_from(b, 0, board_name(), 0) {
        Some(t) => {
            let d = decimal(n as nat);
            assert(crate::text::parse_u32_spec(d) == Some(n));
            assert(renumbered(b, n as nat) == b.take(t.0) + seq!['[', 'B', 'o', 'a', 'r', 'd', ' ', '"'] + d
                + seq!['"', ']'] + b.skip(t.3));
        },
        None => {},
    }
}

/// Renumbers boards 1, 2, 3, ... in the order given, by rewriting each
/// board's first `[Board "..."]` tag.
pub fn renumber_boards(boards: &[String]) -> (r: Vec<String>)
    ensures
        r@.len() == boards@.len(),
        forall|i: int|
            0 <= i < boards@.len() ==> #[trigger] r@[i]@ == renumbered(boards@[i]@, (i + 1) as nat),
{
    let name: Vec<char> = vec!['B', 'o', 'a', 'r', 'd'];
    assert(name@ =~= board_name());
    let mut r: Vec<String> = Vec::new();
    let mut i: usize = 0;
    while i < boards.len()
        invariant
            i <= boards.len(),
            name@ == board_name(),
            r@.len() == i,
            forall|k: int|
                0 <= k < i ==> #[trigger] r@[k]@ == renumbered(boards@[k]@, (k + 1) as nat),
        decreases boards.len() - i,
    {
        let b = chars_of(boards[i].as_str());
        let found = find_tag(b.as_slice(), 0, name.as_slice(), 0);
        proof {
            lemma_first_tag_bounds(b@, 0, board_name(), 0);
        }
        let out = match found {
            Some((start, _vs, _ve, end)) => {
                let mut out = copy_range(&b, 0, start);
                let mut tag: Vec<char> = vec!['[', 'B', 'o', 'a', 'r', 'd', ' ', '"'];
                push_decimal(&mut tag, i as u64 + 1);
                tag.push('"');
                tag.push(']');
                assert(tag@ =~= board_tag((i + 1) as nat));
                push_all(&mut out, &tag);
                let rest = copy_range(&b, end, b.len());
                push_all(&mut out, &rest);
                assert(b@.take(start as int) =~= b@.subrange(0, start as int));
                assert(b@.skip(end as int) =~= b@.subrange(end as int, b.len() as int));
                out
            },
            None => b,
        };
        let s = string_of(&out);
        r.push(s);
        i = i + 1;
    }
    r
}


// ---------------------------------------------------------------------------
// Matching boards against the user's pattern
// ---------------------------------------------------------------------------

/// The compiled form of a regular expression (`regex::Regex`).
#[verifier::external_type_specification]
#[verifier::external_body]
pub struct ExRegex(regex::Regex);

/// Why a regular expression did not compile (`regex::Error`).
#[verifier::external_type_specification]
#[verifier::external_body]
pub struct ExRegexError(regex::Error);

/// Whether the `regex` crate compiles `pattern`, matching case-insensitively
/// when `case_insensitive` holds.
pub uninterp spec fn regex_compiles(pattern: Seq<char>, case_insensitive: bool) -> bool;

/// Whether the regular expression `pattern` (case-insensitive when
/// `case_insensitive` holds) matches somewhere in `text`, as the `regex`
/// crate decides it.
pub uninterp spec fn regex_finds(pattern: Seq<char>, case_insensitive: bool, text: Seq<char>) -> bool;

/// Compiles `pattern` with `regex::RegexBuilder`, setting case-insensitive
/// matching as asked.
///
/// Trusted: the result is `Ok` exactly when the crate accepts the pattern
/// with that setting; nothing else is said of the compiled value here.
#[verifier::external_body]
fn compile_regex(pattern: &str, case_insensitive: bool) -> (r: Result<regex::Regex, regex::Error>)
    ensures
        r is Ok <==> regex_compiles(pattern@, case_insensitive),
{
    regex::RegexBuilder::new(pattern).case_insensitive(case_insensitive).build()
}

/// The message of a `regex::Error`, as its `Display` writes it.
///
/// Trusted, and nothing is claimed of the text.
#[verifier::external_body]
fn regex_error_message(e: &regex::Error) -> String {
    e.to_string()
}

/// A compiled board pattern together with the pattern text it was compiled
/// from.
pub struct BoardPattern {
    re: regex::Regex,
    pattern: String,
    case_insensitive: bool,
}

/// Why a filter could not be set up.
#[derive(Debug)]
pub enum FilterError {
    /// The pattern is not a regular expression the `regex` crate accepts.
    InvalidPattern { pattern: String, reason: String },
}

/// `regex::Regex::is_match` on the pattern's compiled form.
///
/// Trusted: `p.re` was compiled by `compile_regex` from `p.pattern` with
/// `p.case_insensitive` (the only constructor, `BoardPattern::new`, does so),
/// so the answer is the crate's verdict for that pattern on `text`.
#[verifier::external_body]
fn pattern_is_match(p: &BoardPattern, text: &str) -> (r: bool)
    ensures
        r == regex_finds(p.pattern@, p.case_insensitive, text@),
{
    p.re.is_match(text)
}

impl BoardPattern {
    /// The pattern text.
    pub closed spec fn pattern_view(&self) -> Seq<char> {
        self.pattern@
    }

    /// Whether matching ignores case.
    pub closed spec fn ignores_case(&self) -> bool {
        self.case_insensitive
    }

    /// Compiles `pattern`; matching ignores case unless `case_sensitive`.
    pub fn new(pattern: &str, case_sensitive: bool) -> (r: Result<BoardPattern, FilterError>)
        ensures
            r is Ok <==> regex_compiles(pattern@, !case_sensitive),
            r matches Ok(p) ==> p.pattern_view() == pattern@ && p.ignores_case() == !case_sensitive,
            r matches Err(FilterError::InvalidPattern { pattern: q, reason: _ }) ==> q@ == pattern@,
    {
        match compile_regex(pattern, !case_sensitive) {
            Ok(re) => Ok(BoardPattern {
                re,
                pattern: pattern.to_owned(),
                case_insensitive: !case_sensitive,
            }),
            Err(e) => Err(
                FilterError::InvalidPattern { pattern: pattern.to_owned(), reason: regex_error_message(&e) },
            ),
        }
    }

    /// Whether the pattern matches somewhere in `text`.
    pub fn is_match(&self, text: &str) -> (r: bool)
        ensures
            r == regex_finds(self.pattern_view(), self.ignores_case(), text@),
    {
        pattern_is_match(self, text)
    }
}

/// The boards whose flag (the flag at the board's own index) is `want`,
/// in their order.
pub open spec fn select_by(boards: Seq<Seq<char>>, flags: Seq<bool>, want: bool) -> Seq<Seq<char>>
    decreases boards.len(),
{
    if boards.len() == 0 {
        Seq::empty()
    } else {
        let rest = select_by(boards.drop_last(), flags, want);
        if flags[boards.len() - 1] == want {
            rest.push(boards.last())
        } else {
            rest
        }
    }
}

/// Whether the pattern matches each board.
pub open spec fn match_flags(boards: Seq<Seq<char>>, pattern: Seq<char>, ci: bool) -> Seq<bool> {
    Seq::new(boards.len(), |i: int| regex_finds(pattern, ci, boards[i]))
}

/// The boards the pattern matches (`want`) or does not match (`!want`), in
/// their order.
pub open spec fn select(boards: Seq<Seq<char>>, pattern: Seq<char>, ci: bool, want: bool) -> Seq<Seq<char>> {
    select_by(boards, match_flags(boards, pattern, ci), want)
}

/// Separates boards by their flags: those flagged, then those not, each
/// keeping the input order.
pub fn split_by_matches(boards: &Vec<String>, matches: &Vec<bool>) -> (r: (Vec<String>, Vec<String>))
    requires
        matches@.len() == boards@.len(),
    ensures
        string_views(r.0@) == select_by(string_views(boards@), matches@, true),
        string_views(r.1@) == select_by(string_views(boards@), matches@, false),
{
    let ghost all = string_views(boards@);
    let mut matched: Vec<String> = Vec::new();
    let mut not_matched: Vec<String> = Vec::new();
    let mut i: usize = 0;
    while i < boards.len()
        invariant
            i <= boards.len(),
            matches@.len() == boards@.len(),
            all == string_views(boards@),
            string_views(matched@) == select_by(all.take(i as int), matches@, true),
            string_views(not_matched@) == select_by(all.take(i as int), matches@, false),
        decreases boards.len() - i,
    {
        let section = boards[i].clone();
        assert(all.take(i + 1).drop_last() =~= all.take(i as int));
        assert(all.take(i + 1).last() == section@);
        if matches[i] {
            let ghost before = string_views(matched@);
            matched.push(section);
            assert(string_views(matched@) =~= before.push(all[i as int]));
        } else {
            let ghost before = string_views(not_matched@);
            not_matched.push(section);
            assert(string_views(not_matched@) =~= before.push(all[i as int]));
        }
        i = i + 1;
    }
    assert(all.take(boards.len() as int) =~= all);
    (matched, not_matched)
}

/// Separates boards into those the pattern matches and those it does not,
/// each keeping the input order.
pub fn partition_boards(boards: &Vec<String>, pattern: &BoardPattern) -> (r: (Vec<String>, Vec<String>))
    ensures
        string_views(r.0@) == select(string_views(boards@), pattern.pattern_view(), pattern.ignores_case(), true),
        string_views(r.1@) == select(string_views(boards@), pattern.pattern_view(), pattern.ignores_case(), false),
{
    let ghost all = string_views(boards@);
    let mut matches: Vec<bool> = Vec::new();
    let mut i: usize = 0;
    while i < boards.len()
        invariant
            i <= boards.len(),
            all == string_views(boards@),
            matches@ =~= match_flags(all, pattern.pattern_view(), pattern.ignores_case()).take(i as int),
        decreases boards.len() - i,
    {
        let m = pattern.is_match(boards[i].as_str());
        matches.push(m);
        i = i + 1;
    }
    assert(matches@ =~= match_flags(all, pattern.pattern_view(), pattern.ignores_case()));
    split_by_matches(boards, &matches)
}

proof fn lemma_select_by_counts(boards: Seq<Seq<char>>, flags: Seq<bool>)
    ensures
        select_by(boards, flags, true).len() + select_by(boards, flags, false).len() == boards.len(),
    decreases boards.len(),
{
    if boards.len() > 0 {
        lemma_select_by_counts(boards.drop_last(), flags);
    }
}

/// Every board goes to exactly one side: the two sides together hold as many
/// boards as went in.
pub proof fn lemma_partition_counts(boards: Seq<Seq<char>>, pattern: Seq<char>, ci: bool)
    ensures
        select(boards, pattern, ci, true).len() + select(boards, pattern, ci, false).len()
            == boards.len(),
{
    lemma_select_by_counts(boards, match_flags(boards, pattern, ci));
}

// ---------------------------------------------------------------------------
// The command
// ---------------------------------------------------------------------------

/// The options of `filter`.
pub struct Args {
    /// Input PBN file.
    pub input: String,
    /// Regular expression matched against each board.
    pub pattern: String,
    /// Output file for matched boards.
    pub matched: Option<String>,
    /// Output file for boards that did not match.
    pub not_matched: Option<String>,
    /// Match case-sensitively (the default ignores case).
    pub case_sensitive: bool,
    /// Renumber boards 1, 2, 3, ... (on by default).
    pub renumber: bool,
    /// Also make PDFs of the output files.
    pub pdf: bool,
    /// Leave page furniture out of the PDFs.
    pub no_page_furniture: bool,
}

/// Which outputs to write: the matched file unless only `--not-matched` is
/// given, and the not-matched file when it is given.
pub fn outputs_to_write(matched: &Option<String>, not_matched: &Option<String>) -> (r: (bool, bool))
    ensures
        r.0 == (matched is Some || not_matched is None),
        r.1 == (not_matched is Some),
{
    (matched.is_some() || not_matched.is_none(), not_matched.is_some())
}

/// `<stem>-<suffix>.pbn`, the name of a default output file.
pub fn default_output_name(stem: &str, suffix: &str) -> (r: String)
    ensures
        r@ == stem@ + seq!['-'] + suffix@ + seq!['.', 'p', 'b', 'n'],
{
    let mut out = chars_of(stem);
    out.push('-');
    push_str(&mut out, suffix);
    out.push('.');
    out.push('p');
    out.push('b');
    out.push('n');
    string_of(&out)
}

/// The text written for one side of a filter: the header, then the boards,
/// renumbered from 1 when asked.
pub open spec fn side_text(header: Seq<char>, boards: Seq<Seq<char>>, renumber: bool) -> Seq<char> {
    header + boards_text(
        if renumber {
            Seq::new(boards.len(), |i: int| renumbered(boards[i], (i + 1) as nat))
        } else {
            boards
        },
    )
}

/// One output file's text: the header and the boards, renumbered when asked.
pub fn side_output(header: &str, boards: &Vec<String>, renumber: bool) -> (r: String)
    ensures
        r@ == side_text(header@, string_views(boards@), renumber),
{
    if renumber {
        let renumbered_boards = renumber_boards(boards.as_slice());
        assert(string_views(renumbered_boards@) =~= Seq::new(
            string_views(boards@).len(),
            |i: int| renumbered(string_views(boards@)[i], (i + 1) as nat),
        ));
        build_output(header, renumbered_boards.as_slice())
    } else {
        build_output(header, boards.as_slice())
    }
}

} // verus!
