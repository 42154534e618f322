//! `block-replicate`: copies of a set of boards laid out in blocks for
//! multi-table play, each copy carrying the standard dealer and
//! vulnerability of its place and tags that record the board it copies.
use vstd::prelude::*;
use crate::bridge::{
    dir_at, dir_char, standard_dealer_of_index, standard_vul_at, standard_vul_of_index,
    vul_text, Direction, Vulnerability,
};
use crate::commands::filter::with_final_newline;
use crate::pbn::{find_tag, first_tag_from, lemma_first_tag_bounds};
use crate::text::{
    chars_of, concat, copy_range, decimal, decimal_of, push_all, push_concat, push_decimal, push_str, string_of, string_views,
    strings_of, views,
};

use crate::commands::filter::{split_sections, split_spec_with};

verus! {

/// Standard vulnerability pattern (repeats every 16 boards).
pub const STANDARD_VUL: [Vulnerability; 16] = [
    Vulnerability::Neither,
    Vulnerability::NorthSouth,
    Vulnerability::EastWest,
    Vulnerability::Both,
    Vulnerability::NorthSouth,
    Vulnerability::EastWest,
    Vulnerability::Both,
    Vulnerability::Neither,
    Vulnerability::EastWest,
    Vulnerability::Both,
    Vulnerability::Neither,
    Vulnerability::NorthSouth,
    Vulnerability::Both,
    Vulnerability::Neither,
    Vulnerability::NorthSouth,
    Vulnerability::EastWest,
];

/// Standard dealer pattern (repeats every 4 boards).
pub const STANDARD_DEALER: [Direction; 4] = [
    Direction::North,
    Direction::East,
    Direction::South,
    Direction::West,
];

/// Filler deal where each player gets all cards of one suit.
pub const FILLER_DEAL: &'static str = "N:AKQJT98765432... .AKQJT98765432.. ..AKQJT98765432. ...AKQJT98765432";


/// The standard tables agree with the standard cycles.
pub proof fn lemma_standard_tables()
    ensures
        forall|i: int| 0 <= i < 16 ==> #[trigger] STANDARD_VUL@[i] == standard_vul_at(i),
        forall|i: int| 0 <= i < 4 ==> #[trigger] STANDARD_DEALER@[i] == dir_at(i),
{
}

/// The value of the first `[name "value"]` tag with a non-empty value, or
/// nothing.
pub open spec fn tag_value_spec(section: Seq<char>, name: Seq<char>) -> Seq<char> {
    match first_tag_from(section, 0, name, 1) {
        Some(t) => section.subrange(t.1, t.2),
        None => Seq::empty(),
    }
}

/// Whether a tag name is plain letters and digits.
pub open spec fn is_plain_name(name: Seq<char>) -> bool {
    forall|i: int|
        0 <= i < name.len() ==> ('a' <= #[trigger] name[i] <= 'z' || 'A' <= name[i] <= 'Z' || '0'
            <= name[i] <= '9')
}

/// The value of the first `[tag_name "value"]` tag in a board section whose
/// value is not empty (white space of any kind may separate name and
/// value), or an empty string if there is none.
pub fn extract_tag_value(section: &str, tag_name: &str) -> (r: String)
    requires
        is_plain_name(tag_name@),
    ensures
        r@ == tag_value_spec(section@, tag_name@),
{
    let s = chars_of(section);
    let name = chars_of(tag_name);
    if name.len() >= usize::MAX - 1 {
        // A name this long cannot fit inside any text alongside its brackets.
        proof {
            lemma_first_tag_bounds(s@, 0, name@, 1);
            match first_tag_from(s@, 0, name@, 1) {
                Some(t) => {
                    assert(t.3 <= s@.len());
                    assert(s@.len() == s.len());
                },
                None => {},
            }
        }
        return String::new();
    }
    let found = find_tag(s.as_slice(), 0, name.as_slice(), 1);
    proof {
        lemma_first_tag_bounds(s@, 0, name@, 1);
    }
    match found {
        Some((_start, vs, ve, _end)) => {
            proof {
                match first_tag_from(s@, 0, name@, 1) {
                    Some(t) => {
                        assert(found == Some((t.0 as usize, t.1 as usize, t.2 as usize, t.3 as usize)));
                        assert(t.1 <= t.2 <= s@.len());
                        assert(s@.len() == s.len());
                        assert(0 <= t.0);
                        assert(vs == t.1 && ve == t.2);
                    },
                    None => {
                        assert(found is None);
                    },
                }
            }
            string_of(&copy_range(&s, vs, ve))
        },
        None => String::new(),
    }
}

/// One tag line: `[name "value"]` and a newline.
pub open spec fn tag_line(name: Seq<char>, value: Seq<char>) -> Seq<char> {
    seq!['['] + name + seq![' ', '"'] + value + seq!['"', ']', '\n']
}

/// Appends a tag line.
fn push_tag_line(out: &mut Vec<char>, name: &str, value: &Vec<char>)
    ensures
        final(out)@ == old(out)@ + tag_line(name@, value@),
{
    out.push('[');
    push_str(out, name);
    out.push(' ');
    out.push('"');
    push_all(out, value);
    out.push('"');
    out.push(']');
    out.push('\n');
    assert(final(out)@ =~= old(out)@ + tag_line(name@, value@));
}

/// The lines of a board in a replicated block (or a filler board): board
/// number `bd + 1`, the standard dealer and vulnerability of that number,
/// the deal and `BCFlags` it copies, and the tags that record which board
/// of which block it is, then a blank line.
pub open spec fn replicated_board_lines(
    bd: int,
    block_num: int,
    board_in_block: int,
    deal: Seq<char>,
    bcflags: Seq<char>,
) -> Seq<Seq<char>> {
    seq![
        tag_line("Event"@, Seq::empty()),
        tag_line("Site"@, Seq::empty()),
        tag_line("Date"@, Seq::empty()),
        tag_line("Board"@, decimal((bd + 1) as nat)),
        tag_line("West"@, Seq::empty()),
        tag_line("North"@, Seq::empty()),
        tag_line("East"@, Seq::empty()),
        tag_line("South"@, Seq::empty()),
        tag_line("Dealer"@, seq![dir_char(dir_at(bd))]),
        tag_line("Vulnerable"@, vul_text(standard_vul_at(bd))),
        tag_line("Deal"@, deal),
        tag_line("Scoring"@, Seq::empty()),
        tag_line("Declarer"@, Seq::empty()),
        tag_line("Contract"@, Seq::empty()),
        tag_line("Result"@, Seq::empty()),
    ] + (if bcflags.len() > 0 {
        seq![tag_line("BCFlags"@, bcflags)]
    } else {
        Seq::empty()
    }) + seq![
        tag_line("VirtualBoard"@, decimal((board_in_block + 1) as nat)),
        tag_line("VirtualDealer"@, seq![dir_char(dir_at(board_in_block))]),
        tag_line("VirtualVulnerable"@, vul_text(standard_vul_at(board_in_block))),
        tag_line("BlockNumber"@, decimal((block_num + 1) as nat)),
        seq!['\n'],
    ]
}

/// The dealers of the standard four-board cycle, board 1 first.
pub open spec fn dealer_cycle() -> Seq<Direction> {
    seq![Direction::North, Direction::East, Direction::South, Direction::West]
}

/// The vulnerability of the standard sixteen-board cycle, board 1 first.
pub open spec fn vul_cycle() -> Seq<Vulnerability> {
    seq![
        Vulnerability::Neither, Vulnerability::NorthSouth, Vulnerability::EastWest, Vulnerability::Both,
        Vulnerability::NorthSouth, Vulnerability::EastWest, Vulnerability::Both, Vulnerability::Neither,
        Vulnerability::EastWest, Vulnerability::Both, Vulnerability::Neither, Vulnerability::NorthSouth,
        Vulnerability::Both, Vulnerability::Neither, Vulnerability::NorthSouth, Vulnerability::EastWest,
    ]
}

/// A generated board numbered `n` (`bd + 1`) carries the dealer and the
/// vulnerability of board `n` in the standard cycles, whatever its place in
/// its block; the `Virtual` tags carry those of the board it stands for
/// (its place in the block), and `BlockNumber` its block, counting from 1.
pub proof fn lemma_generated_board_tags(bd: int, block_num: int, board_in_block: int, deal: Seq<char>, bcflags: Seq<char>)
    requires
        0 <= bd,
        0 <= board_in_block,
    ensures
        ({
            let ls = replicated_board_lines(bd, block_num, board_in_block, deal, bcflags);
            let k = ls.len() - 5;
            &&& ls[3] == tag_line("Board"@, decimal((bd + 1) as nat))
            &&& ls[8] == tag_line("Dealer"@, seq![dir_char(dealer_cycle()[bd % 4])])
            &&& ls[9] == tag_line("Vulnerable"@, vul_text(vul_cycle()[bd % 16]))
            &&& ls[10] == tag_line("Deal"@, deal)
            &&& ls[k] == tag_line("VirtualBoard"@, decimal((board_in_block + 1) as nat))
            &&& ls[k + 1] == tag_line("VirtualDealer"@, seq![dir_char(dealer_cycle()[board_in_block % 4])])
            &&& ls[k + 2] == tag_line("VirtualVulnerable"@, vul_text(vul_cycle()[board_in_block % 16]))
            &&& ls[k + 3] == tag_line("BlockNumber"@, decimal((block_num + 1) as nat))
        }),
{
    let ls = replicated_board_lines(bd, block_num, board_in_block, deal, bcflags);
    let i = bd % 16;
    let j = board_in_block % 16;
    assert(standard_vul_at(bd) == vul_cycle()[i]);
    assert(standard_vul_at(board_in_block) == vul_cycle()[j]);
    assert(dir_at(bd) == dealer_cycle()[bd % 4]);
    assert(dir_at(board_in_block) == dealer_cycle()[board_in_block % 4]);
}

/// The text of a generated board: its lines, one after another.
pub open spec fn replicated_board_text(
    bd: int,
    block_num: int,
    board_in_block: int,
    deal: Seq<char>,
    bcflags: Seq<char>,
) -> Seq<char> {
    concat(replicated_board_lines(bd, block_num, board_in_block, deal, bcflags))
}

/// A tag line, as characters.
fn tag_line_of(name: &str, value: &Vec<char>) -> (r: Vec<char>)
    ensures
        r@ == tag_line(name@, value@),
{
    let mut r: Vec<char> = Vec::new();
    push_tag_line(&mut r, name, value);
    assert(Seq::<char>::empty() + tag_line(name@, value@) =~= tag_line(name@, value@));
    r
}

/// Appends the text of a generated board.
fn push_replicated_board(
    output: &mut Vec<char>,
    bd: u32,
    block_num: u32,
    board_in_block: u32,
    deal_str: &Vec<char>,
    bcflags: &Vec<char>,
)
    requires
        bd < u32::MAX,
        block_num < u32::MAX,
        board_in_block < u32::MAX,
    ensures
        final(output)@ == old(output)@ + replicated_board_text(
            bd as int,
            block_num as int,
            board_in_block as int,
            deal_str@,
            bcflags@,
        ),
{
    let empty: Vec<char> = Vec::new();
    let dealer = STANDARD_DEALER[(bd % 4) as usize];
    let vulnerable = STANDARD_VUL[(bd % 16) as usize];
    let virtual_dealer = STANDARD_DEALER[(board_in_block % 4) as usize];
    let virtual_vul = STANDARD_VUL[(board_in_block % 16) as usize];
    proof {
        lemma_standard_tables();
        assert(dir_at(bd as int) == dir_at((bd % 4) as int));
        assert(standard_vul_at(bd as int) == standard_vul_at((bd % 16) as int));
        assert(dir_at(board_in_block as int) == dir_at((board_in_block % 4) as int));
        assert(standard_vul_at(board_in_block as int) == standard_vul_at(
            (board_in_block % 16) as int,
        ));
    }
    let num = decimal_of(bd as u64 + 1);
    let vb = decimal_of(board_in_block as u64 + 1);
    let bn = decimal_of(block_num as u64 + 1);
    let mut lines: Vec<Vec<char>> = Vec::new();
    lines.push(tag_line_of("Event", &empty));
    lines.push(tag_line_of("Site", &empty));
    lines.push(tag_line_of("Date", &empty));
    lines.push(tag_line_of("Board", &num));
    lines.push(tag_line_of("West", &empty));
    lines.push(tag_line_of("North", &empty));
    lines.push(tag_line_of("East", &empty));
    lines.push(tag_line_of("South", &empty));
    lines.push(tag_line_of("Dealer", &vec![dealer.to_char()]));
    lines.push(tag_line_of("Vulnerable", &vulnerable.to_pbn()));
    lines.push(tag_line_of("Deal", deal_str));
    lines.push(tag_line_of("Scoring", &empty));
    lines.push(tag_line_of("Declarer", &empty));
    lines.push(tag_line_of("Contract", &empty));
    lines.push(tag_line_of("Result", &empty));
    let ghost head = views(lines@);
    assert(head[0] == tag_line("Event"@, Seq::empty()));
    assert(head[3] == tag_line("Board"@, decimal((bd + 1) as nat)));
    assert(head[8] == tag_line("Dealer"@, seq![dir_char(dir_at(bd as int))]));
    assert(head[9] == tag_line("Vulnerable"@, vul_text(standard_vul_at(bd as int))));
    assert(head[10] == tag_line("Deal"@, deal_str@));
    assert(head =~= replicated_board_lines(
        bd as int,
        block_num as int,
        board_in_block as int,
        deal_str@,
        bcflags@,
    ).take(15));
    if bcflags.len() > 0 {
        lines.push(tag_line_of("BCFlags", bcflags));
    }
    let ghost flag_part: Seq<Seq<char>> = if bcflags@.len() > 0 {
        seq![tag_line("BCFlags"@, bcflags@)]
    } else {
        Seq::empty()
    };
    assert(views(lines@) =~= head + flag_part);
    let ghost mid = views(lines@);
    lines.push(tag_line_of("VirtualBoard", &vb));
    lines.push(tag_line_of("VirtualDealer", &vec![virtual_dealer.to_char()]));
    lines.push(tag_line_of("VirtualVulnerable", &virtual_vul.to_pbn()));
    lines.push(tag_line_of("BlockNumber", &bn));
    lines.push(vec!['\n']);
    proof {
        let spec_lines = replicated_board_lines(
            bd as int,
            block_num as int,
            board_in_block as int,
            deal_str@,
            bcflags@,
        );
        let tail = views(lines@).skip(mid.len() as int);
        assert(tail[0] == tag_line("VirtualBoard"@, decimal((board_in_block + 1) as nat)));
        assert(tail[1] == tag_line("VirtualDealer"@, seq![dir_char(dir_at(board_in_block as int))]));
        assert(tail[2] == tag_line("VirtualVulnerable"@, vul_text(standard_vul_at(board_in_block as int))));
        assert(tail[3] == tag_line("BlockNumber"@, decimal((block_num + 1) as nat)));
        assert(tail[4] == seq!['\n']);
        let spec_tail = seq![
            tag_line("VirtualBoard"@, decimal((board_in_block + 1) as nat)),
            tag_line("VirtualDealer"@, seq![dir_char(dir_at(board_in_block as int))]),
            tag_line("VirtualVulnerable"@, vul_text(standard_vul_at(board_in_block as int))),
            tag_line("BlockNumber"@, decimal((block_num + 1) as nat)),
            seq!['\n'],
        ];
        assert(tail =~= spec_tail);
        assert(views(lines@) =~= mid + tail);
        assert(spec_lines =~= spec_lines.take(15) + flag_part + spec_tail);
        assert(views(lines@) =~= spec_lines);
    }
    push_concat(output, &lines);
}

/// The text for output board `bd` (counting from zero) of a replication.
///
/// The first block keeps the input boards as they were, commentary and
/// all; every other board, and any board past the end of the input, is
/// generated with `replicated_board_text`, copying the deal and `BCFlags`
/// of the board it stands for or using the filler deal where there is none.
pub open spec fn output_board_text(
    sections: Seq<Seq<char>>,
    deals: Seq<Seq<char>>,
    bcflags: Seq<Seq<char>>,
    block_size: int,
    bd: int,
) -> Seq<char> {
    let block_num = bd / block_size;
    let board_in_block = bd % block_size;
    if block_num == 0 && board_in_block < sections.len() {
        with_final_newline(sections[board_in_block])
    } else {
        replicated_board_text(
            bd,
            block_num,
            board_in_block,
            if board_in_block < deals.len() {
                deals[board_in_block]
            } else {
                FILLER_DEAL@
            },
            if board_in_block < bcflags.len() {
                bcflags[board_in_block]
            } else {
                Seq::empty()
            },
        )
    }
}

/// The texts of output boards `0..n`, one after another.
pub open spec fn output_boards_text(
    sections: Seq<Seq<char>>,
    deals: Seq<Seq<char>>,
    bcflags: Seq<Seq<char>>,
    block_size: int,
    n: int,
) -> Seq<char>
    decreases n,
{
    if n <= 0 {
        Seq::empty()
    } else {
        output_boards_text(sections, deals, bcflags, block_size, n - 1) + output_board_text(
            sections,
            deals,
            bcflags,
            block_size,
            n - 1,
        )
    }
}

/// Generates the replicated PBN text: the header, then
/// `block_size * block_count` boards.
pub fn generate_replicated_pbn(
    header: &str,
    board_sections: &[String],
    deal_strings: &[String],
    bcflags_strings: &[String],
    block_size: u32,
    block_count: u32,
) -> (r: String)
    requires
        block_size * block_count <= u32::MAX,
        board_sections@.len() <= u32::MAX,
    ensures
        r@ == header@ + output_boards_text(
            string_views(board_sections@),
            string_views(deal_strings@),
            string_views(bcflags_strings@),
            block_size as int,
            block_size * block_count,
        ),
{
    let ghost sections = string_views(board_sections@);
    let ghost deals = string_views(deal_strings@);
    let ghost flags = string_views(bcflags_strings@);
    let mut output = chars_of(header);
    let input_board_count = board_sections.len() as u32;
    let total = block_size * block_count;
    let filler = chars_of(FILLER_DEAL);
    let empty: Vec<char> = Vec::new();
    let mut bd: u32 = 0;
    while bd < total
        invariant
            bd <= total,
            total == block_size * block_count,
            total > 0 ==> block_size > 0,
            input_board_count == sections.len(),
            sections == string_views(board_sections@),
            deals == string_views(deal_strings@),
            flags == string_views(bcflags_strings@),
            filler@ == FILLER_DEAL@,
            empty@ == Seq::<char>::empty(),
            output@ == header@ + output_boards_text(sections, deals, flags, block_size as int, bd as int),
        decreases total - bd,
    {
        assert(block_size > 0) by (nonlinear_arith)
            requires
                bd < total,
                total == block_size * block_count,
        ;
        let block_num = bd / block_size;
        let board_in_block = bd % block_size;
        let ghost before = output@;
        if block_num == 0 && board_in_block < input_board_count {
            let section = chars_of(board_sections[board_in_block as usize].as_str());
            push_all(&mut output, &section);
            if !(section.len() > 0 && section[section.len() - 1] == '\n') {
                output.push('\n');
            }
            assert(output@ =~= before + output_board_text(sections, deals, flags, block_size as int, bd as int));
        } else {
            let deal_str = if (board_in_block as usize) < deal_strings.len() {
                chars_of(deal_strings[board_in_block as usize].as_str())
            } else {
                filler.clone()
            };
            let bcflags = if (board_in_block as usize) < bcflags_strings.len() {
                chars_of(bcflags_strings[board_in_block as usize].as_str())
            } else {
                empty.clone()
            };
            push_replicated_board(&mut output, bd, block_num, board_in_block, &deal_str, &bcflags);
            assert(output@ =~= before + output_board_text(sections, deals, flags, block_size as int, bd as int));
        }
        bd = bd + 1;
    }
    string_of(&output)
}

/// Splits PBN text into its header (the `%` and blank lines before the
/// first tag; other lines there, `;` comments among them, are dropped) and
/// its board sections, each running from one `[Event ` line to the next,
/// every line ending in a newline.
pub fn split_pbn_content(content: &str) -> (r: (String, Vec<String>))
    ensures
        (r.0@, string_views(r.1@)) == split_spec_with(content@, false),
{
    split_sections(content, false)
}

/// The options of `block-replicate`.
pub struct Args {
    /// Input PBN file.
    pub input: String,
    /// Output PBN file (defaults to the input's name with a `BxC` suffix).
    pub output: Option<String>,
    /// Boards per block (defaults to the number of input boards).
    pub block_size: Option<u32>,
    /// Blocks to make (defaults to as many as fit in 36 boards).
    pub block_count: Option<u32>,
    /// Also make a PDF hand record.
    pub pdf: bool,
}

/// Why a replication cannot be made.
#[derive(Debug, PartialEq, Eq)]
pub enum ReplicateError {
    /// The input has no boards.
    NoBoards,
    /// The block count came out as zero.
    ZeroBlockCount,
}

/// The block size and count a replication uses, given the number of input
/// boards and the options: the size defaults to the number of input boards,
/// the count to as many blocks as fit in 36 boards.
pub open spec fn block_plan_spec(input: u32, block_size: Option<u32>, block_count: Option<u32>) -> Result<(u32, u32), ReplicateError> {
    if input == 0 {
        Err(ReplicateError::NoBoards)
    } else {
        let size = match block_size {
            Some(b) => b,
            None => input,
        };
        let count = match block_count {
            Some(c) => c,
            None => (36int / (size as int)) as u32,
        };
        if count == 0 {
            Err(ReplicateError::ZeroBlockCount)
        } else {
            Ok((size, count))
        }
    }
}

/// Decides the block size and count.
pub fn plan_blocks(input_board_count: u32, block_size: Option<u32>, block_count: Option<u32>) -> (r: Result<(u32, u32), ReplicateError>)
    requires
        !(block_size == Some(0u32) && block_count is None),
    ensures
        r == block_plan_spec(input_board_count, block_size, block_count),
{
    if input_board_count == 0 {
        return Err(ReplicateError::NoBoards);
    }
    let size = match block_size {
        Some(b) => b,
        None => input_board_count,
    };
    let count = match block_count {
        Some(c) => c,
        None => 36 / size,
    };
    if count == 0 {
        return Err(ReplicateError::ZeroBlockCount);
    }
    Ok((size, count))
}

/// The values of a tag in each board section (`extract_tag_value` of each).
pub fn extract_tag_values(sections: &Vec<String>, tag_name: &str) -> (r: Vec<String>)
    requires
        is_plain_name(tag_name@),
    ensures
        r@.len() == sections@.len(),
        forall|i: int| 0 <= i < sections@.len() ==> #[trigger] r@[i]@ == tag_value_spec(sections@[i]@, tag_name@),
{
    let mut r: Vec<String> = Vec::new();
    let mut i: usize = 0;
    while i < sections.len()
        invariant
            i <= sections.len(),
            is_plain_name(tag_name@),
            r@.len() == i,
            forall|k: int| 0 <= k < i ==> #[trigger] r@[k]@ == tag_value_spec(sections@[k]@, tag_name@),
        decreases sections.len() - i,
    {
        r.push(extract_tag_value(sections[i].as_str(), tag_name));
        i = i + 1;
    }
    r
}

/// `<stem> - <size>x<count>.pbn`, the default output name.
pub fn replicated_output_name(stem: &str, block_size: u32, block_count: u32) -> (r: String)
    ensures
        r@ == stem@ + " - "@ + decimal(block_size as nat) + seq!['x'] + decimal(block_count as nat) + ".pbn"@,
{
    let mut out = chars_of(stem);
    push_str(&mut out, " - ");
    push_decimal(&mut out, block_size as u64);
    out.push('x');
    push_decimal(&mut out, block_count as u64);
    push_str(&mut out, ".pbn");
    string_of(&out)
}

} // verus!
