//! Writing a rotated PBN file: the input text line by line, with every
//! tag, table row and commentary that names a seat turned with its board.
use vstd::prelude::*;
use crate::bridge::{deal_text, dir_char, vul_text, Board, Direction};
use crate::commands::commentary::{rotate_commentary, rotated_commentary};
use crate::commands::rotate_deals::{
    declarer_index, info_lookup, parse_tag_line_chars, rotate_dd_rows, rotate_direction_value,
    rotate_par_contract, rotate_score_value, rotated_dd_tricks, rotated_par, rotated_rows,
    rotated_score, rotated_value, rotation_note_text, tag_line_spec, DdTricksRotations,
    RotationInfos,
};
use crate::text::{
    chars_eq, chars_of, concat, lines, lines_of, parse_u32, parse_u32_spec, push_all, push_str,
    split_char, split_on, string_of, string_views, strings_of, trim, trimmed, views,
};

verus! {

/// Where the writer stands after some lines of the file.
#[verifier::ext_equal]
pub struct WriteState {
    /// The text written so far.
    pub out: Seq<char>,
    /// The number of the board being written, if it is one being kept.
    pub current: Option<u32>,
    /// That board's place among the rotated boards.
    pub index: int,
    /// Whether a multi-line `{...}` commentary is open.
    pub in_comm: bool,
    /// The lines of that commentary so far.
    pub buffer: Seq<char>,
    /// The current board's rotation.
    pub rotation: u8,
    /// Whether no kept board has been started yet.
    pub first: bool,
    /// An `[OptimumResultTable]` being gathered: its declarer column, the
    /// rotation, and its rows so far.
    pub dd: Option<(int, u8, Seq<Seq<char>>)>,
}

/// A line and its newline.
pub open spec fn nl(l: Seq<char>) -> Seq<char> {
    l.push('\n')
}

/// A tag `[name "value"]`.
pub open spec fn tag_text(name: Seq<char>, value: Seq<char>) -> Seq<char> {
    seq!['['] + name + seq![' ', '"'] + value + seq!['"', ']']
}

/// A tag written as `[name "value"]` reads back as that name and value,
/// for any value and any name without a space; and trimming leaves it as it
/// is.
pub proof fn lemma_tag_line_reads_back(name: Seq<char>, value: Seq<char>)
    requires
        !name.contains(' '),
    ensures
        trim(tag_text(name, value)) == tag_text(name, value),
        tag_line_spec(tag_text(name, value)) == Some((name, value)),
{
    let t = tag_text(name, value);
    let n = name.len() as int;
    assert(t[0] == '[');
    assert(t.last() == ']');
    assert(crate::text::trim_start(t) == t);
    assert(crate::text::trim_end(t) == t);
    let inner = t.subrange(1, t.len() - 1);
    assert(inner =~= name + seq![' ', '"'] + value + seq!['"']);
    crate::text::lemma_find_char(inner, ' ', 0);
    let sp = crate::text::find_char(inner, ' ', 0);
    assert(inner[n] == ' ');
    assert(sp == n) by {
        if sp < n {
            assert(inner[sp] == name[sp]);
            assert(name.contains(' '));
        }
    }
    let v = inner.skip(n + 1);
    assert(v =~= seq!['"'] + value + seq!['"']);
    assert(v[0] == '"' && v.last() == '"');
    assert(crate::text::trim_start(v) == v);
    assert(crate::text::trim_end(v) == v);
    assert(inner.take(n) =~= name);
    assert(v.subrange(1, v.len() - 1) =~= value);
}

/// Whether a trimmed line is a data row of a table section: not empty and
/// not a tag, commentary, directive or comment.
pub open spec fn is_table_row(t: Seq<char>) -> bool {
    t.len() > 0 && t[0] != '[' && t[0] != '{' && t[0] != '%' && t[0] != ';'
}

/// Rows, each followed by a newline.
pub open spec fn rows_text(rows: Seq<Seq<char>>) -> Seq<char>
    decreases rows.len(),
{
    if rows.len() == 0 {
        Seq::empty()
    } else {
        rows_text(rows.drop_last()) + nl(rows.last())
    }
}

/// The state with a gathered table section written out, rotated.
pub open spec fn flushed(st: WriteState) -> WriteState {
    match st.dd {
        Some(sec) => WriteState {
            out: st.out + rows_text(rotated_rows(sec.2, sec.0, sec.1 as int)),
            dd: None,
            ..st
        },
        None => st,
    }
}

/// Commentary as written: turned when it belongs to a kept board that
/// turns.
pub open spec fn comm_text(st: WriteState, text: Seq<char>) -> Seq<char> {
    if st.current is Some && st.rotation != 0 {
        rotated_commentary(text, st.rotation as int)
    } else {
        text
    }
}

/// The place of the first rotated board numbered `num`.
pub open spec fn board_position(boards: Seq<Board>, num: u32, i: int) -> Option<int>
    decreases boards.len() - i,
{
    if i < 0 || i >= boards.len() {
        None
    } else if boards[i].number == Some(num) {
        Some(i)
    } else {
        board_position(boards, num, i + 1)
    }
}

/// The `Event`, `Site` and `Date` lines written before each kept board.
pub open spec fn board_header(first: bool, title: Seq<char>) -> Seq<char> {
    nl(tag_text("Event"@, if first {
        title
    } else {
        Seq::empty()
    })) + nl(tag_text("Site"@, Seq::empty())) + nl(tag_text("Date"@, Seq::empty()))
}

/// A tag line of a kept board, as written.
pub open spec fn board_tag_step(
    boards: Seq<Board>,
    infos: Seq<(u32, crate::commands::rotate_deals::RotationInfo)>,
    dd: Seq<(Seq<char>, u8, Seq<char>)>,
    s: WriteState,
    line: Seq<char>,
    name: Seq<char>,
    value: Seq<char>,
) -> WriteState {
    let b = boards[s.index];
    let r = s.rotation;
    let dealer = match b.dealer {
        Some(d) => d,
        None => Direction::North,
    };
    if name == "Dealer"@ {
        WriteState { out: s.out + nl(tag_text(name, seq![dir_char(dealer)])), ..s }
    } else if name == "Vulnerable"@ {
        WriteState { out: s.out + nl(tag_text(name, vul_text(b.vulnerable))), ..s }
    } else if name == "Deal"@ {
        WriteState { out: s.out + nl(tag_text(name, deal_text(b.deal, dealer))), ..s }
    } else if name == "Auction"@ || name == "Play"@ || name == "Declarer"@ {
        WriteState { out: s.out + nl(tag_text(name, rotated_value(value, r as int))), ..s }
    } else if name == "Score"@ || name == "OptimumScore"@ {
        WriteState { out: s.out + nl(tag_text(name, rotated_score(value, r as int))), ..s }
    } else if name == "DoubleDummyTricks"@ {
        WriteState { out: s.out + nl(tag_text(name, rotated_dd_tricks(dd, value, r))), ..s }
    } else if name == "ParContract"@ {
        WriteState { out: s.out + nl(tag_text(name, rotated_par(value, r as int))), ..s }
    } else if name == "OptimumResultTable"@ {
        WriteState {
            out: s.out + nl(line),
            dd: match declarer_index(split_char(value, ';'), 0) {
                Some(c) => Some((c, r, Seq::empty())),
                None => s.dd,
            },
            ..s
        }
    } else if name == "BCFlags"@ {
        WriteState {
            out: s.out + nl(line) + match info_lookup(infos, s.current->0) {
                Some(info) => nl(rotation_note_text(info, s.current->0)),
                None => Seq::empty(),
            },
            ..s
        }
    } else {
        WriteState { out: s.out + nl(line), ..s }
    }
}

/// A tag line (trimmed `t`), as written.
pub open spec fn tag_step(
    title: Seq<char>,
    boards: Seq<Board>,
    infos: Seq<(u32, crate::commands::rotate_deals::RotationInfo)>,
    dd: Seq<(Seq<char>, u8, Seq<char>)>,
    s: WriteState,
    line: Seq<char>,
    t: Seq<char>,
) -> WriteState {
    match tag_line_spec(t) {
        None => WriteState { out: s.out + nl(line), ..s },
        Some(tag) => if tag.0 == "Board"@ {
            match parse_u32_spec(tag.1) {
                Some(num) => match board_position(boards, num, 0) {
                    Some(idx) => WriteState {
                        out: s.out + board_header(s.first, title) + nl(line),
                        current: Some(num),
                        index: idx,
                        rotation: match info_lookup(infos, num) {
                            Some(info) => info.rotation,
                            None => 0,
                        },
                        first: false,
                        ..s
                    },
                    None => WriteState { current: None, rotation: 0, ..s },
                },
                None => WriteState { out: s.out + nl(line), ..s },
            }
        } else if tag.0 == "Event"@ || tag.0 == "Site"@ || tag.0 == "Date"@ {
            s
        } else if s.current is None {
            s
        } else {
            board_tag_step(boards, infos, dd, s, line, tag.0, tag.1)
        },
    }
}

/// One line of the input file, as written.
#[verifier::opaque]
pub open spec fn write_step(
    title: Seq<char>,
    boards: Seq<Board>,
    infos: Seq<(u32, crate::commands::rotate_deals::RotationInfo)>,
    dd: Seq<(Seq<char>, u8, Seq<char>)>,
    st: WriteState,
    line: Seq<char>,
) -> WriteState {
    let t = trim(line);
    if st.dd is Some && is_table_row(t) {
        let sec = st.dd->0;
        WriteState { dd: Some((sec.0, sec.1, sec.2.push(line))), ..st }
    } else {
        let s = flushed(st);
        let opens = t.len() > 0 && t[0] == '{';
        let closes = t.len() > 0 && t.last() == '}';
        if opens && !closes {
            WriteState { in_comm: true, buffer: nl(line), ..s }
        } else if s.in_comm {
            let b = s.buffer + nl(line);
            if closes {
                WriteState { in_comm: false, buffer: b, out: s.out + comm_text(s, b), ..s }
            } else {
                WriteState { buffer: b, ..s }
            }
        } else if opens && closes {
            WriteState { out: s.out + nl(comm_text(s, line)), ..s }
        } else if (t.len() > 0 && (t[0] == '%' || t[0] == ';')) || t.len() == 0 {
            WriteState { out: s.out + nl(line), ..s }
        } else if t.len() > 0 && t[0] == '[' && t.last() == ']' {
            tag_step(title, boards, infos, dd, s, line, t)
        } else {
            WriteState { out: s.out + nl(line), ..s }
        }
    }
}

/// The state after the given lines.
pub open spec fn write_lines(
    title: Seq<char>,
    boards: Seq<Board>,
    infos: Seq<(u32, crate::commands::rotate_deals::RotationInfo)>,
    dd: Seq<(Seq<char>, u8, Seq<char>)>,
    ls: Seq<Seq<char>>,
) -> WriteState
    decreases ls.len(),
{
    if ls.len() == 0 {
        WriteState {
            out: Seq::empty(),
            current: None,
            index: 0,
            in_comm: false,
            buffer: Seq::empty(),
            rotation: 0,
            first: true,
            dd: None,
        }
    } else {
        write_step(title, boards, infos, dd, write_lines(title, boards, infos, dd, ls.drop_last()), ls.last())
    }
}

/// The value of the first `[Event "..."]` line with a value, or nothing.
pub open spec fn event_title(ls: Seq<Seq<char>>) -> Seq<char>
    decreases ls.len(),
{
    if ls.len() == 0 {
        Seq::empty()
    } else {
        match tag_line_spec(trim(ls[0])) {
            Some(t) => if t.0 == "Event"@ && t.1.len() > 0 {
                t.1
            } else {
                event_title(ls.drop_first())
            },
            None => event_title(ls.drop_first()),
        }
    }
}

/// The rotated file for the given input text.
pub open spec fn rotated_pbn_text(
    content: Seq<char>,
    boards: Seq<Board>,
    infos: Seq<(u32, crate::commands::rotate_deals::RotationInfo)>,
    dd: Seq<(Seq<char>, u8, Seq<char>)>,
) -> Seq<char> {
    let ls = lines(content);
    flushed(write_lines(event_title(ls), boards, infos, dd, ls)).out
}


// ---------------------------------------------------------------------------
// What the writer does with a board's lines
// ---------------------------------------------------------------------------

/// A kept board's tag line is written turned by the board's rotation: the
/// seat of `Auction`, `Play` and `Declarer` turned, the side of `Score` and
/// `OptimumScore` swapped on an odd turn, each contract of `ParContract`
/// and the packed `DoubleDummyTricks` table turned; `Dealer`, `Vulnerable`
/// and `Deal` written from the rotated board; any other tag (but the
/// `Board`, `Event`, `Site`, `Date`, `OptimumResultTable` and `BCFlags`
/// lines, which have their own handling) copied as it is. The board being
/// written and its rotation stay.
pub proof fn lemma_kept_board_tag_written(
    title: Seq<char>,
    boards: Seq<Board>,
    infos: Seq<(u32, crate::commands::rotate_deals::RotationInfo)>,
    dd: Seq<(Seq<char>, u8, Seq<char>)>,
    ls: Seq<Seq<char>>,
    j: int,
    name: Seq<char>,
    value: Seq<char>,
)
    requires
        0 <= j < ls.len(),
        tag_line_spec(trim(ls[j])) == Some((name, value)),
        write_lines(title, boards, infos, dd, ls.take(j)).current is Some,
        !write_lines(title, boards, infos, dd, ls.take(j)).in_comm,
        write_lines(title, boards, infos, dd, ls.take(j)).dd is None,
        name != "Board"@ && name != "Event"@ && name != "Site"@ && name != "Date"@,
        name != "OptimumResultTable"@ && name != "BCFlags"@,
    ensures
        ({
            let before = write_lines(title, boards, infos, dd, ls.take(j));
            let after = write_lines(title, boards, infos, dd, ls.take(j + 1));
            let r = before.rotation;
            &&& after.current == before.current
            &&& after.rotation == r
            &&& after.index == before.index
            &&& (name == "Auction"@ || name == "Play"@ || name == "Declarer"@) ==> after.out == before.out
                + tag_text(name, rotated_value(value, r as int)).push('\n')
            &&& (name == "Score"@ || name == "OptimumScore"@) ==> after.out == before.out + tag_text(
                name,
                rotated_score(value, r as int),
            ).push('\n')
            &&& name == "ParContract"@ ==> after.out == before.out + tag_text(name, rotated_par(value, r as int)).push(
                '\n',
            )
            &&& name == "DoubleDummyTricks"@ ==> after.out == before.out + tag_text(
                name,
                rotated_dd_tricks(dd, value, r),
            ).push('\n')
            &&& name == "Dealer"@ ==> after.out == before.out + tag_text(
                name,
                seq![dir_char(board_dealer(boards, before.index))],
            ).push('\n')
            &&& name == "Vulnerable"@ ==> after.out == before.out + tag_text(
                name,
                vul_text(boards[before.index].vulnerable),
            ).push('\n')
            &&& name == "Deal"@ ==> after.out == before.out + tag_text(
                name,
                deal_text(boards[before.index].deal, board_dealer(boards, before.index)),
            ).push('\n')
            &&& !(name == "Auction"@ || name == "Play"@ || name == "Declarer"@ || name == "Score"@
                || name == "OptimumScore"@ || name == "ParContract"@ || name == "DoubleDummyTricks"@
                || name == "Dealer"@ || name == "Vulnerable"@ || name == "Deal"@) ==> after.out
                == before.out + ls[j].push('\n')
        }),
{
    lemma_tag_line_step(title, boards, infos, dd, ls, j, name, value);
    let before = write_lines(title, boards, infos, dd, ls.take(j));
    let after = write_lines(title, boards, infos, dd, ls.take(j + 1));
    let line = ls[j];
    assert(after == board_tag_step(boards, infos, dd, before, line, name, value));
    reveal_strlit("Dealer");
    reveal_strlit("Vulnerable");
    reveal_strlit("Deal");
    reveal_strlit("Auction");
    reveal_strlit("Play");
    reveal_strlit("Declarer");
    reveal_strlit("Score");
    reveal_strlit("OptimumScore");
    reveal_strlit("DoubleDummyTricks");
    reveal_strlit("ParContract");
    reveal_strlit("OptimumResultTable");
    reveal_strlit("BCFlags");
    assert("Dealer"@.len() == 6 && "Vulnerable"@.len() == 10 && "Deal"@.len() == 4);
    assert("Auction"@.len() == 7 && "Play"@.len() == 4 && "Declarer"@.len() == 8);
    assert("Score"@.len() == 5 && "OptimumScore"@.len() == 12 && "DoubleDummyTricks"@.len() == 17);
    assert("ParContract"@.len() == 11);
    assert("Deal"@[1] == 'e' && "Play"@[1] == 'l');
}

/// The dealer of the rotated board at `index`, North when it has none.
pub open spec fn board_dealer(boards: Seq<Board>, index: int) -> Direction {
    match boards[index].dealer {
        Some(d) => d,
        None => Direction::North,
    }
}

proof fn lemma_tag_line_step(
    title: Seq<char>,
    boards: Seq<Board>,
    infos: Seq<(u32, crate::commands::rotate_deals::RotationInfo)>,
    dd: Seq<(Seq<char>, u8, Seq<char>)>,
    ls: Seq<Seq<char>>,
    j: int,
    name: Seq<char>,
    value: Seq<char>,
)
    requires
        0 <= j < ls.len(),
        tag_line_spec(trim(ls[j])) == Some((name, value)),
        write_lines(title, boards, infos, dd, ls.take(j)).current is Some,
        !write_lines(title, boards, infos, dd, ls.take(j)).in_comm,
        write_lines(title, boards, infos, dd, ls.take(j)).dd is None,
        name != "Board"@ && name != "Event"@ && name != "Site"@ && name != "Date"@,
    ensures
        write_lines(title, boards, infos, dd, ls.take(j + 1)) == board_tag_step(
            boards,
            infos,
            dd,
            write_lines(title, boards, infos, dd, ls.take(j)),
            ls[j],
            name,
            value,
        ),
{
    let st = write_lines(title, boards, infos, dd, ls.take(j));
    let line = ls[j];
    let t = trim(line);
    assert(ls.take(j + 1).drop_last() =~= ls.take(j));
    assert(ls.take(j + 1).last() == line);
    assert(write_lines(title, boards, infos, dd, ls.take(j + 1)) == write_step(title, boards, infos, dd, st, line));
    assert(flushed(st) == st);
    assert(t.len() >= 2 && t[0] == '[' && t.last() == ']');
    reveal(write_step);
    assert(write_step(title, boards, infos, dd, st, line) == tag_step(title, boards, infos, dd, st, line, t));
}

/// A `[Board "n"]` line of a board that was rotated starts that board: the
/// `Event`, `Site` and `Date` lines and the line itself are written, and
/// the writer takes up the board's number and its recorded rotation (none
/// when nothing is recorded).
pub proof fn lemma_board_line_starts_board(
    title: Seq<char>,
    boards: Seq<Board>,
    infos: Seq<(u32, crate::commands::rotate_deals::RotationInfo)>,
    dd: Seq<(Seq<char>, u8, Seq<char>)>,
    ls: Seq<Seq<char>>,
    j: int,
    value: Seq<char>,
    num: u32,
)
    requires
        0 <= j < ls.len(),
        tag_line_spec(trim(ls[j])) == Some(("Board"@, value)),
        parse_u32_spec(value) == Some(num),
        board_position(boards, num, 0) is Some,
        !write_lines(title, boards, infos, dd, ls.take(j)).in_comm,
        write_lines(title, boards, infos, dd, ls.take(j)).dd is None,
    ensures
        ({
            let before = write_lines(title, boards, infos, dd, ls.take(j));
            let after = write_lines(title, boards, infos, dd, ls.take(j + 1));
            &&& after.current == Some(num)
            &&& boards[after.index].number == Some(num)
            &&& after.rotation == match info_lookup(infos, num) {
                Some(info) => info.rotation,
                None => 0u8,
            }
            &&& after.out == before.out + board_header(before.first, title) + ls[j].push('\n')
        }),
{
    reveal(write_step);
    assert(ls.take(j + 1).drop_last() =~= ls.take(j));
    assert(ls.take(j + 1).last() == ls[j]);
    reveal_strlit("Board");
    lemma_board_position_found(boards, num, 0);
}

proof fn lemma_board_position_found(boards: Seq<Board>, num: u32, i: int)
    requires
        board_position(boards, num, i) is Some,
    ensures
        0 <= board_position(boards, num, i)->0 < boards.len(),
        boards[board_position(boards, num, i)->0].number == Some(num),
    decreases boards.len() - i,
{
    if !(i < 0 || i >= boards.len()) && boards[i].number != Some(num) {
        lemma_board_position_found(boards, num, i + 1);
    }
}

/// The exec form of a gathered table section: declarer column, rotation,
/// rows.
pub open spec fn section_view(sec: Option<(usize, u8, Vec<String>)>) -> Option<(int, u8, Seq<Seq<char>>)> {
    match sec {
        Some(x) => Some((x.0 as int, x.1, string_views(x.2@))),
        None => None,
    }
}

/// Writes out a gathered `[OptimumResultTable]`, rotated, and clears it.
pub fn flush_dd_section(output: &mut Vec<char>, section: &mut Option<(usize, u8, Vec<String>)>)
    ensures
        *final(section) is None,
        final(output)@ == old(output)@ + match section_view(*old(section)) {
            Some(sec) => rows_text(rotated_rows(sec.2, sec.0, sec.1 as int)),
            None => Seq::empty(),
        },
{
    let taken = section.take();
    match taken {
        Some((column, rotation, rows)) => {
            let rotated = rotate_dd_rows(&rows, column, rotation);
            let ghost rs = string_views(rotated@);
            let ghost start = output@;
            let mut i: usize = 0;
            while i < rotated.len()
                invariant
                    i <= rotated.len(),
                    rs == string_views(rotated@),
                    output@ == start + rows_text(rs.take(i as int)),
                decreases rotated.len() - i,
            {
                push_str(output, rotated[i].as_str());
                output.push('\n');
                assert(rs.take(i + 1).drop_last() =~= rs.take(i as int));
                assert(rs.take(i + 1).last() == rotated@[i as int]@);
                i = i + 1;
            }
            assert(rs.take(rotated.len() as int) =~= rs);
        },
        None => {
            assert(output@ =~= old(output)@ + Seq::<char>::empty());
        },
    }
}

/// The writer's state.
pub struct Writer {
    out: Vec<char>,
    current: Option<u32>,
    index: usize,
    in_comm: bool,
    buffer: Vec<char>,
    rotation: u8,
    first: bool,
    dd: Option<(usize, u8, Vec<String>)>,
}

impl Writer {
    pub closed spec fn view_state(&self) -> WriteState {
        WriteState {
            out: self.out@,
            current: self.current,
            index: self.index as int,
            in_comm: self.in_comm,
            buffer: self.buffer@,
            rotation: self.rotation,
            first: self.first,
            dd: section_view(self.dd),
        }
    }

    pub closed spec fn index_valid(&self, n: int) -> bool {
        self.current is Some ==> self.index < n
    }
}

/// Appends a tag line `[name "value"]` and its newline.
fn push_tag(out: &mut Vec<char>, name: &Vec<char>, value: &Vec<char>)
    ensures
        final(out)@ == old(out)@ + nl(tag_text(name@, value@)),
{
    out.push('[');
    push_all(out, name);
    out.push(' ');
    out.push('"');
    push_all(out, value);
    out.push('"');
    out.push(']');
    out.push('\n');
    assert(final(out)@ =~= old(out)@ + nl(tag_text(name@, value@)));
}

/// Appends a line and its newline.
fn push_line(out: &mut Vec<char>, line: &Vec<char>)
    ensures
        final(out)@ == old(out)@ + nl(line@),
{
    push_all(out, line);
    out.push('\n');
}

/// Whether `name` is the literal `lit`.
fn is_name(name: &Vec<char>, lit: &str) -> (r: bool)
    ensures
        r == (name@ == lit@),
{
    let l = chars_of(lit);
    chars_eq(name.as_slice(), l.as_slice())
}

/// The place of the first rotated board numbered `num`.
fn find_board(boards: &Vec<Board>, num: u32) -> (r: Option<usize>)
    ensures
        match r {
            Some(k) => board_position(boards@, num, 0) == Some(k as int) && k < boards@.len(),
            None => board_position(boards@, num, 0) is None,
        },
{
    let mut i: usize = 0;
    while i < boards.len()
        invariant
            i <= boards.len(),
            board_position(boards@, num, 0) == board_position(boards@, num, i as int),
        decreases boards.len() - i,
    {
        if boards[i].number == Some(num) {
            return Some(i);
        }
        i = i + 1;
    }
    None
}

/// Writes a tag line of a kept board.
fn write_board_tag(
    w: &mut Writer,
    boards: &Vec<Board>,
    infos: &RotationInfos,
    dd: &DdTricksRotations,
    line: &Vec<char>,
    name: &Vec<char>,
    value: &Vec<char>,
)
    requires
        old(w).current is Some,
        old(w).index < boards@.len(),
    ensures
        final(w).view_state() == board_tag_step(
            boards@,
            infos.entries_view(),
            dd.entries_view(),
            old(w).view_state(),
            line@,
            name@,
            value@,
        ),
{
    let ghost s0 = w.view_state();
    let b = &boards[w.index];
    let r = w.rotation;
    let dealer = match b.dealer {
        Some(d) => d,
        None => Direction::North,
    };
    if is_name(name, "Dealer") {
        let dv = vec![dealer.to_char()];
        assert(dv@ =~= seq![dir_char(dealer)]);
        push_tag(&mut w.out, name, &dv);

    } else if is_name(name, "Vulnerable") {
        push_tag(&mut w.out, name, &b.vulnerable.to_pbn());
    } else if is_name(name, "Deal") {
        push_tag(&mut w.out, name, &b.deal.to_pbn(dealer));
    } else if is_name(name, "Auction") || is_name(name, "Play") || is_name(name, "Declarer") {
        let v = chars_of(rotate_direction_value(string_of(value).as_str(), r).as_str());
        push_tag(&mut w.out, name, &v);
    } else if is_name(name, "Score") || is_name(name, "OptimumScore") {
        let v = chars_of(rotate_score_value(string_of(value).as_str(), r).as_str());
        push_tag(&mut w.out, name, &v);
    } else if is_name(name, "DoubleDummyTricks") {
        let v = crate::commands::rotate_deals::rotate_double_dummy_tricks_chars(value, r, dd);
        push_tag(&mut w.out, name, &v);
    } else if is_name(name, "ParContract") {
        let v = chars_of(rotate_par_contract(string_of(value).as_str(), r).as_str());
        push_tag(&mut w.out, name, &v);
    } else if is_name(name, "OptimumResultTable") {
        push_line(&mut w.out, line);
        match crate::commands::rotate_deals::declarer_column(string_of(value).as_str()) {
            Some(column) => {
                let rows: Vec<String> = Vec::new();
                assert(string_views(rows@) =~= Seq::<Seq<char>>::empty());
                w.dd = Some((column, r, rows));
            },
            None => {},
        }
    } else if is_name(name, "BCFlags") {
        push_line(&mut w.out, line);
        let num = match w.current {
            Some(n) => n,
            None => 0,
        };
        let ghost mid = w.out@;
        match infos.get(num) {
            Some(info) => {
                let note = chars_of(info.to_rotation_note(num).as_str());
                push_line(&mut w.out, &note);
            },
            None => {
                assert(w.out@ =~= mid + Seq::<char>::empty());
            },
        }
    } else {
        push_line(&mut w.out, line);
    }
}

/// Writes a tag line (trimmed `t`).
fn write_tag_line(
    w: &mut Writer,
    title: &Vec<char>,
    boards: &Vec<Board>,
    infos: &RotationInfos,
    dd: &DdTricksRotations,
    line: &Vec<char>,
    t: &Vec<char>,
)
    requires
        old(w).index_valid(boards@.len() as int),
    ensures
        final(w).index_valid(boards@.len() as int),
        final(w).view_state() == tag_step(
            title@,
            boards@,
            infos.entries_view(),
            dd.entries_view(),
            old(w).view_state(),
            line@,
            t@,
        ),
{
    match parse_tag_line_chars(t) {
        None => {
            push_line(&mut w.out, line);
        },
        Some((name, value)) => {
            if is_name(&name, "Board") {
                match parse_u32(value.as_slice()) {
                    Some(num) => match find_board(boards, num) {
                        Some(idx) => {
                            let empty: Vec<char> = Vec::new();
                            let ghost start = w.out@;
                            if w.first {
                                push_tag(&mut w.out, &chars_of("Event"), title);
                            } else {
                                push_tag(&mut w.out, &chars_of("Event"), &empty);
                            }
                            push_tag(&mut w.out, &chars_of("Site"), &empty);
                            push_tag(&mut w.out, &chars_of("Date"), &empty);
                            assert(w.out@ =~= start + board_header(w.first, title@));
                            push_line(&mut w.out, line);
                            w.current = Some(num);
                            w.index = idx;
                            w.rotation = match infos.get(num) {
                                Some(info) => info.rotation,
                                None => 0,
                            };
                            w.first = false;
                        },
                        None => {
                            w.current = None;
                            w.rotation = 0;
                        },
                    },
                    None => {
                        push_line(&mut w.out, line);
                    },
                }
            } else if is_name(&name, "Event") || is_name(&name, "Site") || is_name(&name, "Date") {
            } else if w.current.is_none() {
            } else {
                write_board_tag(w, boards, infos, dd, line, &name, &value);
            }
        },
    }
}

/// Writes one line of the input file.
fn write_line(
    w: &mut Writer,
    title: &Vec<char>,
    boards: &Vec<Board>,
    infos: &RotationInfos,
    dd: &DdTricksRotations,
    line: &Vec<char>,
)
    requires
        old(w).index_valid(boards@.len() as int),
    ensures
        final(w).index_valid(boards@.len() as int),
        final(w).view_state() == write_step(
            title@,
            boards@,
            infos.entries_view(),
            dd.entries_view(),
            old(w).view_state(),
            line@,
        ),
{
    reveal(write_step);
    let t = trimmed(line);
    let is_row = t.len() > 0 && t[0] != '[' && t[0] != '{' && t[0] != '%' && t[0] != ';';
    if w.dd.is_some() && is_row {
        let mut sec = w.dd.take();
        match sec {
            Some((c, r, mut rows)) => {
                let ghost before = string_views(rows@);
                rows.push(string_of(line));
                assert(string_views(rows@) =~= before.push(line@));
                w.dd = Some((c, r, rows));
            },
            None => {},
        }
        return;
    }
    flush_dd_section(&mut w.out, &mut w.dd);
    let opens = t.len() > 0 && t[0] == '{';
    let closes = t.len() > 0 && t[t.len() - 1] == '}';
    if opens && !closes {
        w.in_comm = true;
        let mut b: Vec<char> = Vec::new();
        push_line(&mut b, line);
        w.buffer = b;
    } else if w.in_comm {
        push_line(&mut w.buffer, line);
        if closes {
            w.in_comm = false;
            if w.current.is_some() && w.rotation != 0 {
                let rotated = chars_of(rotate_commentary(string_of(&w.buffer).as_str(), w.rotation).as_str());
                push_all(&mut w.out, &rotated);
            } else {
                let b = w.buffer.clone();
                push_all(&mut w.out, &b);
            }
        }
    } else if opens && closes {
        if w.current.is_some() && w.rotation != 0 {
            let rotated = chars_of(rotate_commentary(string_of(line).as_str(), w.rotation).as_str());
            push_line(&mut w.out, &rotated);
        } else {
            push_line(&mut w.out, line);
        }
    } else if (t.len() > 0 && (t[0] == '%' || t[0] == ';')) || t.len() == 0 {
        push_line(&mut w.out, line);
    } else if t.len() > 0 && t[0] == '[' && t[t.len() - 1] == ']' {
        write_tag_line(w, title, boards, infos, dd, line, &t);
    } else {
        push_line(&mut w.out, line);
    }
}

/// The title for the first board: the value of the first `[Event]` tag
/// with one.
fn find_event_title(ls: &Vec<Vec<char>>) -> (r: Vec<char>)
    ensures
        r@ == event_title(views(ls@)),
{
    let mut i: usize = 0;
    let ghost all = views(ls@);
    assert(all.skip(0) =~= all);
    while i < ls.len()
        invariant
            i <= ls.len(),
            all == views(ls@),
            event_title(all) == event_title(all.skip(i as int)),
        decreases ls.len() - i,
    {
        let t = trimmed(&ls[i]);
        assert(all.skip(i as int)[0] == ls@[i as int]@);
        assert(all.skip(i as int).drop_first() =~= all.skip(i + 1));
        match parse_tag_line_chars(&t) {
            Some((name, value)) => {
                if is_name(&name, "Event") && value.len() > 0 {
                    return value;
                }
            },
            None => {},
        }
        i = i + 1;
    }
    Vec::new()
}

/// Writes the rotated PBN text: the input file line by line, each kept
/// board's seat-naming tags, table rows and commentary turned by its
/// rotation, boards that were not rotated left out, and `Event`, `Site`
/// and `Date` written afresh before each kept board.
pub fn write_rotated_pbn(
    original_content: &str,
    rotated_boards: &Vec<Board>,
    rotation_infos: &RotationInfos,
    dd_tricks: &DdTricksRotations,
) -> (r: String)
    ensures
        r@ == rotated_pbn_text(
            original_content@,
            rotated_boards@,
            rotation_infos.entries_view(),
            dd_tricks.entries_view(),
        ),
{
    let text = chars_of(original_content);
    let ls = lines_of(&text);
    let title = find_event_title(&ls);
    let mut w = Writer {
        out: Vec::new(),
        current: None,
        index: 0,
        in_comm: false,
        buffer: Vec::new(),
        rotation: 0,
        first: true,
        dd: None,
    };
    let ghost all = views(ls@);
    let mut i: usize = 0;
    while i < ls.len()
        invariant
            i <= ls.len(),
            all == views(ls@),
            all == lines(original_content@),
            title@ == event_title(all),
            w.index_valid(rotated_boards@.len() as int),
            w.view_state() == write_lines(
                title@,
                rotated_boards@,
                rotation_infos.entries_view(),
                dd_tricks.entries_view(),
                all.take(i as int),
            ),
        decreases ls.len() - i,
    {
        assert(all.take(i + 1).drop_last() =~= all.take(i as int));
        assert(all.take(i + 1).last() == ls@[i as int]@);
        write_line(&mut w, &title, rotated_boards, rotation_infos, dd_tricks, &ls[i]);
        i = i + 1;
    }
    assert(all.take(ls.len() as int) =~= all);
    flush_dd_section(&mut w.out, &mut w.dd);
    string_of(&w.out)
}

} // verus!
