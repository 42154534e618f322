//! `to-pdf`: which boards and which layout a PDF is made of.
use vstd::prelude::*;
use crate::text::{
    all_digits, chars_of, contains_char, copy_range, lines, parse_u32, parse_u32_spec, split_char,
    split_on, string_of, trim, trimmed, views,
};

verus! {

/// Why a board range could not be read.
#[derive(Debug, PartialEq, Eq)]
pub enum BoardRangeError {
    /// A part with a `-` that is not exactly two numbers joined by one `-`.
    InvalidRange(String),
    /// One end of a range is not a number.
    InvalidNumberInRange(String),
    /// A part without a `-` is not a number.
    InvalidBoardNumber(String),
}

/// What a board range error says: its kind (0 range, 1 number in range,
/// 2 board number) and the text it quotes.
pub open spec fn range_error_view(e: BoardRangeError) -> (int, Seq<char>) {
    match e {
        BoardRangeError::InvalidRange(s) => (0, s@),
        BoardRangeError::InvalidNumberInRange(s) => (1, s@),
        BoardRangeError::InvalidBoardNumber(s) => (2, s@),
    }
}

/// The numbers `start` to `end` inclusive, none if `end < start`.
pub open spec fn range_items(start: u32, end: u32) -> Seq<u32> {
    if end >= start {
        Seq::new((end - start + 1) as nat, |k: int| (start + k) as u32)
    } else {
        Seq::empty()
    }
}

/// The boards one trimmed part of a range names, or what is wrong with it.
pub open spec fn range_part_spec(part: Seq<char>) -> Result<Seq<u32>, (int, Seq<char>)> {
    if part.contains('-') {
        let pieces = split_char(part, '-');
        if pieces.len() != 2 {
            Err((0, part))
        } else {
            match parse_u32_spec(trim(pieces[0])) {
                None => Err((1, pieces[0])),
                Some(a) => match parse_u32_spec(trim(pieces[1])) {
                    None => Err((1, pieces[1])),
                    Some(b) => Ok(range_items(a, b)),
                },
            }
        }
    } else {
        match parse_u32_spec(part) {
            None => Err((2, part)),
            Some(n) => Ok(seq![n]),
        }
    }
}

/// The boards a list of comma-separated parts names, in order, or the first
/// thing wrong with it.
pub open spec fn range_parts_spec(parts: Seq<Seq<char>>) -> Result<Seq<u32>, (int, Seq<char>)>
    decreases parts.len(),
{
    if parts.len() == 0 {
        Ok(Seq::empty())
    } else {
        match range_parts_spec(parts.drop_last()) {
            Err(e) => Err(e),
            Ok(a) => match range_part_spec(trim(parts.last())) {
                Err(e) => Err(e),
                Ok(b) => Ok(a + b),
            },
        }
    }
}

/// Once a prefix of the parts is wrong, the whole list is wrong the same way.
proof fn lemma_range_parts_err(parts: Seq<Seq<char>>, j: int)
    requires
        0 <= j <= parts.len(),
        range_parts_spec(parts.take(j)) is Err,
    ensures
        range_parts_spec(parts) == range_parts_spec(parts.take(j)),
    decreases parts.len() - j,
{
    if j < parts.len() {
        assert(parts.take(j + 1).drop_last() =~= parts.take(j));
        lemma_range_parts_err(parts, j + 1);
    } else {
        assert(parts.take(j) =~= parts);
    }
}

/// The boards a range such as `1-4,7,9-12` names.
pub open spec fn board_range_spec(range: Seq<char>) -> Result<Seq<u32>, (int, Seq<char>)> {
    range_parts_spec(split_char(range, ','))
}

/// Appends `start..=end`.
fn push_range(out: &mut Vec<u32>, start: u32, end: u32)
    ensures
        final(out)@ == old(out)@ + range_items(start, end),
{
    if start > end {
        assert(old(out)@ + range_items(start, end) =~= old(out)@);
        return;
    }
    let mut i: u64 = start as u64;
    while i <= end as u64
        invariant
            start <= i <= end as u64 + 1,
            start <= end,
            out@ == old(out)@ + range_items(start, end).take(i - start),
        decreases end as u64 + 1 - i,
    {
        out.push(i as u32);
        i = i + 1;
        assert(range_items(start, end).take(i - start) =~= range_items(start, end).take(
            i - 1 - start,
        ).push((i - 1) as u32));
    }
    assert(range_items(start, end).take(end - start + 1) =~= range_items(start, end));
}

/// The boards one trimmed part of a range names.
fn parse_range_part(part: &Vec<char>) -> (r: Result<Vec<u32>, BoardRangeError>)
    ensures
        match r {
            Ok(v) => range_part_spec(part@) == Ok::<Seq<u32>, (int, Seq<char>)>(v@),
            Err(e) => range_part_spec(part@) == Err::<Seq<u32>, (int, Seq<char>)>(
                range_error_view(e),
            ),
        },
{
    let mut out: Vec<u32> = Vec::new();
    if contains_char(part.as_slice(), '-') {
        let pieces = split_on(part, '-');
        if pieces.len() != 2 {
            return Err(BoardRangeError::InvalidRange(string_of(part)));
        }
        assert(pieces@[0]@ == split_char(part@, '-')[0]);
        assert(pieces@[1]@ == split_char(part@, '-')[1]);
        let a_text = trimmed(&pieces[0]);
        let a = match parse_u32(a_text.as_slice()) {
            Some(a) => a,
            None => {
                return Err(BoardRangeError::InvalidNumberInRange(string_of(&pieces[0])));
            },
        };
        let b_text = trimmed(&pieces[1]);
        let b = match parse_u32(b_text.as_slice()) {
            Some(b) => b,
            None => {
                return Err(BoardRangeError::InvalidNumberInRange(string_of(&pieces[1])));
            },
        };
        push_range(&mut out, a, b);
        assert(out@ =~= range_items(a, b));
        Ok(out)
    } else {
        match parse_u32(part.as_slice()) {
            Some(n) => {
                out.push(n);
                assert(out@ =~= seq![n]);
                Ok(out)
            },
            None => Err(BoardRangeError::InvalidBoardNumber(string_of(part))),
        }
    }
}

/// Parses a board range specification such as `1-4`, `1,3,5` or
/// `1-4,7,9-12` into the board numbers it names, in order.
pub fn parse_board_range(range: &str) -> (r: Result<Vec<u32>, BoardRangeError>)
    ensures
        match r {
            Ok(v) => board_range_spec(range@) == Ok::<Seq<u32>, (int, Seq<char>)>(v@),
            Err(e) => board_range_spec(range@) == Err::<Seq<u32>, (int, Seq<char>)>(
                range_error_view(e),
            ),
        },
{
    let text = chars_of(range);
    let parts = split_on(&text, ',');
    let ghost all = views(parts@);
    let mut boards: Vec<u32> = Vec::new();
    let mut i: usize = 0;
    while i < parts.len()
        invariant
            i <= parts.len(),
            all == views(parts@),
            all == split_char(range@, ','),
            range_parts_spec(all.take(i as int)) == Ok::<Seq<u32>, (int, Seq<char>)>(boards@),
        decreases parts.len() - i,
    {
        let part = trimmed(&parts[i]);
        assert(all.take(i + 1).drop_last() =~= all.take(i as int));
        assert(all.take(i + 1).last() == parts@[i as int]@);
        match parse_range_part(&part) {
            Ok(items) => {
                let mut k: usize = 0;
                let ghost before = boards@;
                while k < items.len()
                    invariant
                        k <= items.len(),
                        boards@ == before + items@.take(k as int),
                    decreases items.len() - k,
                {
                    boards.push(items[k]);
                    k = k + 1;
                    assert(items@.take(k as int) =~= items@.take(k - 1).push(items@[k - 1]));
                }
                assert(items@.take(items.len() as int) =~= items@);
            },
            Err(e) => {
                proof {
                    lemma_range_parts_err(all, i + 1);
                }
                return Err(e);
            },
        }
        i = i + 1;
    }
    assert(all.take(parts.len() as int) =~= all);
    Ok(boards)
}


/// The page layouts a PDF can be drawn in.
#[derive(Clone, Copy, Debug, PartialEq, Eq, Structural)]
pub enum Layout {
    /// Full hand diagram with bidding table and commentary.
    Analysis,
    /// Simplified layout for practice bidding.
    BiddingSheets,
    /// Declarer's plan, one deal per page.
    DeclarersPlan1up,
    /// Declarer's plan, two deals per page (turned 90 degrees).
    DeclarersPlan2up,
    /// Declarer's plan practice sheets, four deals per page.
    DeclarersPlan,
    /// Six deals per page, for the dealer.
    DealerSummary,
    /// Compact hand record: eighteen boards per page, hands and HCP only.
    HandRecord,
}

impl Default for Layout {
    fn default() -> (r: Self)
        ensures
            r == Layout::Analysis,
    {
        Layout::Analysis
    }
}

/// The options of `to-pdf`.
pub struct Args {
    /// Input PBN file.
    pub input: String,
    /// Output PDF file (defaults to the input with a `.pdf` extension).
    pub output: Option<String>,
    /// Layout style (defaults by the file, see `default_layout`).
    pub layout: Option<Layout>,
    /// Board range to include (`1-4`, `1,3,5`).
    pub board_range: Option<String>,
    /// Circle sure winners (declarer's plan layouts).
    pub circle_sure_winners: bool,
    /// Circle promotable winners (declarer's plan layouts).
    pub circle_promotable_winners: bool,
    /// Circle length winners (declarer's plan layouts).
    pub circle_length_winners: bool,
    /// Draw commentary written inside `[Auction]` or `[Play]`.
    pub section_commentary: bool,
    /// Leave out the event header or headings and the `%PageFooter` lines.
    pub no_page_furniture: bool,
}

/// The lines of a file that start with `%`, in order.
pub open spec fn metadata_lines(ls: Seq<Seq<char>>) -> Seq<Seq<char>>
    decreases ls.len(),
{
    if ls.len() == 0 {
        Seq::empty()
    } else if ls.last().len() > 0 && ls.last()[0] == '%' {
        metadata_lines(ls.drop_last()).push(ls.last())
    } else {
        metadata_lines(ls.drop_last())
    }
}

/// The metadata comments of a PBN file: its lines that start with `%`.
pub fn metadata_comments(content: &str) -> (r: Vec<String>)
    ensures
        crate::text::string_views(r@) == metadata_lines(crate::text::lines(content@)),
{
    let text = chars_of(content);
    let ls = crate::text::lines_of(&text);
    let mut r: Vec<String> = Vec::new();
    let mut i: usize = 0;
    while i < ls.len()
        invariant
            i <= ls.len(),
            views(ls@) == crate::text::lines(content@),
            crate::text::string_views(r@) == metadata_lines(views(ls@).take(i as int)),
        decreases ls.len() - i,
    {
        assert(views(ls@).take(i + 1).drop_last() =~= views(ls@).take(i as int));
        assert(views(ls@).take(i + 1).last() == ls@[i as int]@);
        if ls[i].len() > 0 && ls[i][0] == '%' {
            let ghost before = crate::text::string_views(r@);
            let line = string_of(&ls[i]);
            r.push(line);
            assert(crate::text::string_views(r@) =~= before.push(ls@[i as int]@));
        }
        i = i + 1;
    }
    assert(views(ls@).take(ls.len() as int) =~= views(ls@));
    r
}

/// `%BoardsPerPage 18`, the directive of a hand-record file.
pub open spec fn hand_record_directive() -> Seq<char> {
    "%BoardsPerPage 18"@
}

/// The layout used when none is asked for: the hand record for a file with
/// a `%BoardsPerPage 18` line, the analysis layout otherwise.
pub open spec fn default_layout_spec(content: Seq<char>) -> Layout {
    if exists|i: int| 0 <= i < lines(content).len() && trim(#[trigger] lines(content)[i]) == hand_record_directive() {
        Layout::HandRecord
    } else {
        Layout::Analysis
    }
}

/// The layout used when none is asked for.
pub fn default_layout(content: &str) -> (r: Layout)
    ensures
        r == default_layout_spec(content@),
{
    let text = chars_of(content);
    let ls = crate::text::lines_of(&text);
    let directive = chars_of("%BoardsPerPage 18");
    let mut i: usize = 0;
    while i < ls.len()
        invariant
            i <= ls.len(),
            views(ls@) == lines(content@),
            directive@ == hand_record_directive(),
            forall|k: int| 0 <= k < i ==> trim(#[trigger] lines(content@)[k]) != hand_record_directive(),
        decreases ls.len() - i,
    {
        let t = trimmed(&ls[i]);
        assert(views(ls@)[i as int] == ls@[i as int]@);
        if crate::text::chars_eq(t.as_slice(), directive.as_slice()) {
            return Layout::HandRecord;
        }
        i = i + 1;
    }
    Layout::Analysis
}

/// The layout a PDF is drawn in: the one asked for, else the default.
pub fn choose_layout(requested: Option<Layout>, content: &str) -> (r: Layout)
    ensures
        r == match requested {
            Some(l) => l,
            None => default_layout_spec(content@),
        },
{
    match requested {
        Some(l) => l,
        None => default_layout(content),
    }
}

} // verus!
