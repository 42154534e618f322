//! Presenting and scoring a double-dummy table: the console table and a
//! simplified par.
use vstd::prelude::*;
use crate::bridge::{
    dir_char, dir_index, strain_at, strain_index, strain_text, strain_trick_value, DdTable,
    Direction, Strain, Vulnerability,
};
use crate::text::{chars_of, decimal, push_all, push_decimal, push_str, string_of};

pub use crate::commands::to_pdf::parse_board_range;

verus! {

/// Declarer rows of this tool's console table: partners adjacent.
pub const DISPLAY_DECLARERS: [Direction; 4] = [
    Direction::North,
    Direction::South,
    Direction::East,
    Direction::West,
];

/// Strain columns of this tool's console table: no trump first, then
/// spades down to clubs.
pub const DISPLAY_STRAINS: [Strain; 5] = [
    Strain::NoTrump,
    Strain::Spades,
    Strain::Hearts,
    Strain::Diamonds,
    Strain::Clubs,
];

/// The display tables list the declarers and strains the table is drawn in.
pub proof fn lemma_display_tables()
    ensures
        forall|i: int| 0 <= i < 4 ==> #[trigger] DISPLAY_DECLARERS@[i] == display_declarer(i),
        forall|i: int| 0 <= i < 5 ==> #[trigger] DISPLAY_STRAINS@[i] == strain_at(i),
{
}

/// Declarer rows of the console table: partners adjacent.
pub open spec fn display_declarer(i: int) -> Direction {
    if i == 0 {
        Direction::North
    } else if i == 1 {
        Direction::South
    } else if i == 2 {
        Direction::East
    } else {
        Direction::West
    }
}

fn display_declarer_exec(i: usize) -> (d: Direction)
    requires
        i < 4,
    ensures
        d == display_declarer(i as int),
{
    if i == 0 {
        Direction::North
    } else if i == 1 {
        Direction::South
    } else if i == 2 {
        Direction::East
    } else {
        Direction::West
    }
}

/// A number right-aligned in two columns, as `format!("{:2}", n)` writes it.
pub open spec fn pad2(n: u8) -> Seq<char> {
    if n < 10 {
        seq![' '] + decimal(n as nat)
    } else {
        decimal(n as nat)
    }
}

/// The header line of the console table.
pub open spec fn display_header() -> Seq<char> {
    "       NT   S   H   D   C\n"@
}

/// The cells of one declarer's row, from strain `0` to strain `k - 1`.
pub open spec fn display_cells(table: DdTable, d: Direction, k: int) -> Seq<char>
    decreases k,
{
    if k <= 0 {
        Seq::empty()
    } else {
        display_cells(table, d, k - 1) + seq![' ', ' '] + pad2(table.tricks_view(d, strain_at(k - 1)))
    }
}

/// One declarer's row of the console table.
pub open spec fn display_row(table: DdTable, d: Direction) -> Seq<char> {
    seq![' ', ' ', dir_char(d), ' ', ' '] + display_cells(table, d, 5) + seq!['\n']
}

/// The header and the first `k` rows of the console table.
pub open spec fn display_text(table: DdTable, k: int) -> Seq<char>
    decreases k,
{
    if k <= 0 {
        display_header()
    } else {
        display_text(table, k - 1) + display_row(table, display_declarer(k - 1))
    }
}

/// Formats a solved table for the console: a header of strains, then one
/// row per declarer (N, S, E, W), each cell right-aligned in two columns
/// after two spaces, strains from no trump down to clubs.
pub fn display_table(table: &DdTable) -> (r: String)
    ensures
        r@ == display_text(*table, 4),
{
    let mut output = chars_of("       NT   S   H   D   C\n");
    let strains = Strain::all();
    let mut i: usize = 0;
    while i < 4
        invariant
            i <= 4,
            forall|k: int| 0 <= k < 5 ==> #[trigger] strains@[k] == strain_at(k),
            output@ == display_text(*table, i as int),
        decreases 4 - i,
    {
        let declarer = display_declarer_exec(i);
        let ghost row_start = output@;
        output.push(' ');
        output.push(' ');
        output.push(declarer.to_char());
        output.push(' ');
        output.push(' ');
        let ghost cells_start = output@;
        let mut j: usize = 0;
        while j < 5
            invariant
                j <= 5,
                forall|k: int| 0 <= k < 5 ==> #[trigger] strains@[k] == strain_at(k),
                output@ == cells_start + display_cells(*table, declarer, j as int),
            decreases 5 - j,
        {
            let t: u8 = table.tricks(declarer, strains[j]);
            output.push(' ');
            output.push(' ');
            if t < 10 {
                output.push(' ');
            }
            push_decimal(&mut output, t as u64);
            j = j + 1;
        }
        output.push('\n');
        assert(output@ =~= row_start + display_row(*table, declarer));
        i = i + 1;
    }
    string_of(&output)
}

/// The level at which a strain makes game: 3 in no trump, 4 in a major,
/// 5 in a minor.
pub open spec fn game_level(s: Strain) -> int {
    match s {
        Strain::NoTrump => 3,
        Strain::Spades | Strain::Hearts => 4,
        Strain::Diamonds | Strain::Clubs => 5,
    }
}

/// The score of a made contract: trick score (40 for the first no-trump
/// trick, 30 after; 30 a trick in a major, 20 in a minor), doubled when
/// doubled; a game bonus (500 vulnerable, 300 not) or a part-score bonus of
/// 50; a slam bonus (small 750/500, grand 1500/1000); and each overtrick
/// (or, for fewer tricks, each trick short) at the trick value, or at
/// 200/100 when doubled.
pub open spec fn score_spec(level: int, s: Strain, tricks: int, vul: bool, doubled: bool) -> int {
    let over: int = tricks - (level + 6);
    let tv: int = strain_trick_value(s);
    let trick_score: int = if s == Strain::NoTrump {
        40 + (level - 1) * 30
    } else {
        level * tv
    };
    let doubled_score: int = if doubled {
        trick_score * 2
    } else {
        trick_score
    };
    let game: int = if level >= game_level(s) {
        if vul {
            500
        } else {
            300
        }
    } else {
        50
    };
    let slam: int = if level == 6 {
        if vul {
            750
        } else {
            500
        }
    } else if level == 7 {
        if vul {
            1500
        } else {
            1000
        }
    } else {
        0
    };
    let over_value: int = if doubled {
        if vul {
            200
        } else {
            100
        }
    } else {
        tv
    };
    doubled_score + game + slam + over * over_value
}

/// The slam bonus of a level: 500 (750 vulnerable) for six, 1000 (1500
/// vulnerable) for seven, nothing below.
pub open spec fn slam_bonus(level: int, vul: bool) -> int {
    if level == 6 {
        if vul { 750 } else { 500 }
    } else if level == 7 {
        if vul { 1500 } else { 1000 }
    } else {
        0
    }
}

/// The scoring table of a made, undoubled contract, strain by strain, with
/// `over` the tricks beyond `level + 6`: in a minor 20 a trick, a game
/// bonus (300, or 500 vulnerable) only from the five level and a part-score
/// bonus of 50 below it; in a major 30 a trick, game from the four level;
/// in no trump 40 for the first trick and 30 for each other, game from the
/// three level.
pub proof fn lemma_undoubled_scores(level: int, tricks: int, vul: bool)
    ensures
        ({
            let over = tricks - level - 6;
            let game = if vul { 500int } else { 300int };
            &&& score_spec(level, Strain::Clubs, tricks, vul, false) == 20 * level + 20 * over + (if level >= 5 {
                game
            } else {
                50
            }) + slam_bonus(level, vul)
            &&& score_spec(level, Strain::Diamonds, tricks, vul, false) == 20 * level + 20 * over + (if level
                >= 5 {
                game
            } else {
                50
            }) + slam_bonus(level, vul)
            &&& score_spec(level, Strain::Hearts, tricks, vul, false) == 30 * level + 30 * over + (if level >= 4 {
                game
            } else {
                50
            }) + slam_bonus(level, vul)
            &&& score_spec(level, Strain::Spades, tricks, vul, false) == 30 * level + 30 * over + (if level >= 4 {
                game
            } else {
                50
            }) + slam_bonus(level, vul)
            &&& score_spec(level, Strain::NoTrump, tricks, vul, false) == 40 + 30 * (level - 1) + 30 * over + (
            if level >= 3 {
                game
            } else {
                50
            }) + slam_bonus(level, vul)
        }),
{
}

/// Doubling doubles the trick score, and each overtrick then scores 100
/// (200 vulnerable) whatever the strain; the bonuses stay as undoubled.
pub proof fn lemma_doubled_scores(level: int, s: Strain, tricks: int, vul: bool)
    ensures
        score_spec(level, s, tricks, vul, true) == score_spec(level, s, tricks, vul, false) + (if s
            == Strain::NoTrump {
            40 + 30 * (level - 1)
        } else {
            level * strain_trick_value(s)
        }) + (tricks - level - 6) * ((if vul { 200int } else { 100int }) - strain_trick_value(s)),
{
    let over = tricks - level - 6;
    let tv = strain_trick_value(s);
    assert(over * (if vul { 200int } else { 100int }) == over * tv + over * ((if vul { 200int } else { 100int }) - tv)) by (nonlinear_arith);
}

/// Calculates the score for a made contract.
pub fn calculate_score(level: u8, strain: Strain, tricks: u8, vul: bool, doubled: bool) -> (r: i32)
    ensures
        r == score_spec(level as int, strain, tricks as int, vul, doubled),
{
    let overtricks: i32 = tricks as i32 - (level as i32 + 6);
    let trick_value: i32 = strain.trick_value();
    let mut score: i32 = if strain == Strain::NoTrump {
        40 + (level as i32 - 1) * 30
    } else if trick_value == 20 {
        level as i32 * 20
    } else {
        level as i32 * 30
    };
    if doubled {
        score = score * 2;
    }
    let game_threshold: u8 = match strain {
        Strain::NoTrump => 3,
        Strain::Spades | Strain::Hearts => 4,
        Strain::Diamonds | Strain::Clubs => 5,
    };
    if level >= game_threshold {
        score = score + if vul {
            500
        } else {
            300
        };
    } else {
        score = score + 50;
    }
    if level == 6 {
        score = score + if vul {
            750
        } else {
            500
        };
    } else if level == 7 {
        score = score + if vul {
            1500
        } else {
            1000
        };
    }
    let overtrick_value: i32 = if doubled {
        if vul {
            200
        } else {
            100
        }
    } else {
        trick_value
    };
    let extra: i32 = if overtrick_value == 20 {
        overtricks * 20
    } else if overtrick_value == 30 {
        overtricks * 30
    } else if overtrick_value == 100 {
        overtricks * 100
    } else {
        overtricks * 200
    };
    score + extra
}


/// Candidate `k` (0 to 69) of a side's search: the declarer (`k / 35`: the
/// first or second of the side), the strain (`(k / 7) % 5`, no trump down
/// to clubs) and the level (`k % 7 + 1`).
pub open spec fn candidate(is_ns: bool, k: int) -> (Direction, Strain, int) {
    let d = if k / 35 == 0 {
        if is_ns {
            Direction::North
        } else {
            Direction::East
        }
    } else {
        if is_ns {
            Direction::South
        } else {
            Direction::West
        }
    };
    (d, strain_at((k / 7) % 5), k % 7 + 1)
}

/// A contract as the par names it: `4S by N`.
pub open spec fn contract_text(level: int, s: Strain, d: Direction) -> Seq<char> {
    decimal(level as nat) + strain_text(s) + " by "@ + seq![dir_char(d)]
}

/// Whether candidate `k` makes: the declarer takes at least `level + 6`
/// tricks in its strain.
pub open spec fn makes(table: DdTable, is_ns: bool, k: int) -> bool {
    let c = candidate(is_ns, k);
    table.tricks_view(c.0, c.1) >= c.2 + 6
}

/// The score of candidate `k` when made (undoubled).
pub open spec fn candidate_score(table: DdTable, is_ns: bool, vul: bool, k: int) -> int {
    let c = candidate(is_ns, k);
    score_spec(c.2, c.1, table.tricks_view(c.0, c.1) as int, vul, false)
}

/// The best contract among the first `n` candidates: the first made
/// candidate of highest score, as text and score; empty text and the
/// lowest `i32` when none makes.
pub open spec fn best_among(table: DdTable, is_ns: bool, vul: bool, n: int) -> (Seq<char>, int)
    decreases n,
{
    if n <= 0 {
        (Seq::empty(), i32::MIN as int)
    } else {
        let prev = best_among(table, is_ns, vul, n - 1);
        let k = n - 1;
        if makes(table, is_ns, k) && candidate_score(table, is_ns, vul, k) > prev.1 {
            let c = candidate(is_ns, k);
            (contract_text(c.2, c.1, c.0), candidate_score(table, is_ns, vul, k))
        } else {
            prev
        }
    }
}

/// A side's best contract: the best candidate, or `Pass` scoring 0 when
/// nothing makes.
pub open spec fn best_for_side(table: DdTable, is_ns: bool, vul: bool) -> (Seq<char>, int) {
    let b = best_among(table, is_ns, vul, 70);
    if b.0.len() == 0 {
        ("Pass"@, 0)
    } else {
        b
    }
}

/// The highest-scoring contract one side can make, and its score.
pub fn best_contract_for_side(table: &DdTable, is_ns: bool, declarer_vul: bool) -> (r: (String, i32))
    ensures
        (r.0@, r.1 as int) == best_for_side(*table, is_ns, declarer_vul),
{
    let declarers: [Direction; 2] = if is_ns {
        [Direction::North, Direction::South]
    } else {
        [Direction::East, Direction::West]
    };
    let strains = Strain::all();
    let mut best_contract: Vec<char> = Vec::new();
    let mut best_score: i32 = i32::MIN;
    let mut a: usize = 0;
    while a < 2
        invariant
            a <= 2,
            forall|k: int| 0 <= k < 5 ==> #[trigger] strains@[k] == strain_at(k),
            declarers@[0] == candidate(is_ns, 0).0,
            declarers@[1] == candidate(is_ns, 35).0,
            (best_contract@, best_score as int) == best_among(*table, is_ns, declarer_vul, 35 * a),
        decreases 2 - a,
    {
        let declarer = declarers[a];
        let mut b: usize = 0;
        while b < 5
            invariant
                a < 2,
                b <= 5,
                declarer == declarers@[a as int],
                forall|k: int| 0 <= k < 5 ==> #[trigger] strains@[k] == strain_at(k),
                declarers@[0] == candidate(is_ns, 0).0,
                declarers@[1] == candidate(is_ns, 35).0,
                (best_contract@, best_score as int) == best_among(*table, is_ns, declarer_vul, 35 * a + 7 * b),
            decreases 5 - b,
        {
            let strain = strains[b];
            let tricks = table.tricks(declarer, strain);
            let mut level: u8 = 1;
            while level <= 7
                invariant
                    a < 2,
                    b < 5,
                    1 <= level <= 8,
                    declarer == declarers@[a as int],
                    strain == strain_at(b as int),
                    tricks == table.tricks_view(declarer, strain),
                    declarers@[0] == candidate(is_ns, 0).0,
                    declarers@[1] == candidate(is_ns, 35).0,
                    (best_contract@, best_score as int) == best_among(*table, is_ns, declarer_vul, 35 * a + 7 * b + level - 1),
                decreases 8 - level,
            {
                let ghost k: int = 35 * a + 7 * b + level - 1;
                proof {
                    assert(k / 35 == a as int);
                    assert((k / 7) % 5 == b as int);
                    assert(k % 7 + 1 == level as int);
                    assert(candidate(is_ns, k).0 == declarer);
                }
                let required = level + 6;
                if tricks >= required {
                    let score = calculate_score(level, strain, tricks, declarer_vul, false);
                    if score > best_score {
                        best_score = score;
                        let mut c: Vec<char> = Vec::new();
                        push_decimal(&mut c, level as u64);
                        push_all(&mut c, &strain.to_pbn());
                        push_str(&mut c, " by ");
                        c.push(declarer.to_char());
                        best_contract = c;
                    }
                }
                level = level + 1;
            }
            b = b + 1;
        }
        a = a + 1;
    }
    if best_contract.len() == 0 {
        return (string_of(&chars_of("Pass")), 0);
    }
    (string_of(&best_contract), best_score)
}

/// The par contract and score for a solved table: the better of the two
/// sides' best makeable contracts (North-South's when they tie), without
/// modelling a sacrifice. The score is from North-South's side.
pub open spec fn par_spec(table: DdTable, vul_ns: bool, vul_ew: bool) -> (Seq<char>, int) {
    let ns = best_for_side(table, true, vul_ns);
    let ew = best_for_side(table, false, vul_ew);
    if ns.1 >= ew.1 {
        ns
    } else {
        (ew.0, -ew.1)
    }
}

/// The par contract and score for a solved table.
pub fn par_score(table: &DdTable, vul_ns: bool, vul_ew: bool) -> (r: (String, i32))
    ensures
        (r.0@, r.1 as int) == par_spec(*table, vul_ns, vul_ew),
{
    let (ns_contract, ns_score) = best_contract_for_side(table, true, vul_ns);
    let (ew_contract, ew_score) = best_contract_for_side(table, false, vul_ew);
    proof {
        lemma_best_bounds(*table, true, vul_ns, 70);
        lemma_best_bounds(*table, false, vul_ew, 70);
    }
    if ns_score >= ew_score {
        (ns_contract, ns_score)
    } else {
        (ew_contract, -ew_score)
    }
}

/// The sign of the par says who plays it: each side's best score is at
/// least zero, so the par's score (from North-South's side) is at least
/// zero exactly when North-South's contract is the par, and otherwise it is
/// East-West's contract with their score negated.
pub proof fn lemma_par_sign_names_the_side(table: DdTable, vul_ns: bool, vul_ew: bool)
    ensures
        best_for_side(table, true, vul_ns).1 >= 0,
        best_for_side(table, false, vul_ew).1 >= 0,
        par_spec(table, vul_ns, vul_ew).1 >= 0 <==> par_spec(table, vul_ns, vul_ew) == best_for_side(table, true, vul_ns),
        par_spec(table, vul_ns, vul_ew).1 < 0 ==> par_spec(table, vul_ns, vul_ew) == (
            best_for_side(table, false, vul_ew).0,
            -best_for_side(table, false, vul_ew).1,
        ),
{
    lemma_best_bounds(table, true, vul_ns, 70);
    lemma_best_bounds(table, false, vul_ew, 70);
}

/// The best score found is the lowest `i32` (nothing made) or a made
/// contract's score, which lies between 0 and 10000.
proof fn lemma_best_bounds(table: DdTable, is_ns: bool, vul: bool, n: int)
    requires
        0 <= n <= 70,
    ensures
        best_among(table, is_ns, vul, n).0.len() == 0 ==> best_among(table, is_ns, vul, n).1 == i32::MIN,
        best_among(table, is_ns, vul, n).0.len() > 0 ==> 0 <= best_among(table, is_ns, vul, n).1 <= 10000,
        best_for_side(table, is_ns, vul).1 >= 0 || n < 70,
    decreases n,
{
    if n > 0 {
        lemma_best_bounds(table, is_ns, vul, n - 1);
        let k = n - 1;
        if makes(table, is_ns, k) {
            lemma_candidate_score_bounds(table, is_ns, vul, k);
            let c = candidate(is_ns, k);
            assert(contract_text(c.2, c.1, c.0).len() > 0) by {
                assert(decimal(c.2 as nat).len() > 0) by {
                    lemma_decimal_nonempty(c.2 as nat);
                }
            }
        }
    }
}

proof fn lemma_decimal_nonempty(n: nat)
    ensures
        decimal(n).len() > 0,
    decreases n,
{
    if n >= 10 {
        lemma_decimal_nonempty(n / 10);
    }
}

/// A made candidate scores between 0 and 10000.
proof fn lemma_candidate_score_bounds(table: DdTable, is_ns: bool, vul: bool, k: int)
    requires
        0 <= k < 70,
        makes(table, is_ns, k),
    ensures
        0 <= candidate_score(table, is_ns, vul, k) <= 10000,
{
    let c = candidate(is_ns, k);
    let t = table.tricks_view(c.0, c.1) as int;
    let level = c.2;
    assert(1 <= level <= 7);
    assert(level + 6 <= t <= 255);
    let over = t - (level + 6);
    let tv = strain_trick_value(c.1);
    assert(tv == 20 || tv == 30);
    assert(0 <= over * tv <= 249 * 30) by (nonlinear_arith)
        requires
            0 <= over <= 249,
            0 <= tv <= 30,
    ;
    assert(0 <= level * tv <= 210) by (nonlinear_arith)
        requires
            1 <= level <= 7,
            0 <= tv <= 30,
    ;
    assert(candidate_score(table, is_ns, vul, k) == score_spec(level, c.1, t, vul, false));
}


/// No made candidate scores more than the side's best, and the best is the
/// score of a made candidate unless nothing makes, when the side passes
/// for 0.
pub proof fn lemma_best_is_maximal(table: DdTable, is_ns: bool, vul: bool)
    ensures
        forall|k: int|
            0 <= k < 70 && makes(table, is_ns, k) ==> candidate_score(table, is_ns, vul, k)
                <= #[trigger] best_for_side(table, is_ns, vul).1,
        best_for_side(table, is_ns, vul).0 == "Pass"@ && best_for_side(table, is_ns, vul).1 == 0
            || exists|k: int|
            0 <= k < 70 && makes(table, is_ns, k) && best_for_side(table, is_ns, vul).1
                == candidate_score(table, is_ns, vul, k),
{
    lemma_best_prefix(table, is_ns, vul, 70);
    lemma_best_bounds(table, is_ns, vul, 70);
}

proof fn lemma_best_prefix(table: DdTable, is_ns: bool, vul: bool, n: int)
    requires
        0 <= n <= 70,
    ensures
        forall|k: int|
            0 <= k < n && makes(table, is_ns, k) ==> candidate_score(table, is_ns, vul, k)
                <= best_among(table, is_ns, vul, n).1,
        best_among(table, is_ns, vul, n).0.len() == 0 || exists|k: int|
            0 <= k < n && makes(table, is_ns, k) && best_among(table, is_ns, vul, n).1
                == candidate_score(table, is_ns, vul, k),
        best_among(table, is_ns, vul, n).0.len() == 0 ==> forall|k: int|
            0 <= k < n ==> !makes(table, is_ns, k),
    decreases n,
{
    if n > 0 {
        lemma_best_prefix(table, is_ns, vul, n - 1);
        lemma_best_bounds(table, is_ns, vul, n - 1);
        let k = n - 1;
        if makes(table, is_ns, k) {
            lemma_candidate_score_bounds(table, is_ns, vul, k);
            let c = candidate(is_ns, k);
            lemma_decimal_nonempty(c.2 as nat);
        }
    }
}

/// Which sides are vulnerable: North-South, East-West.
pub fn vulnerability_flags(v: Vulnerability) -> (r: (bool, bool))
    ensures
        r.0 == (v == Vulnerability::NorthSouth || v == Vulnerability::Both),
        r.1 == (v == Vulnerability::EastWest || v == Vulnerability::Both),
{
    match v {
        Vulnerability::Neither => (false, false),
        Vulnerability::NorthSouth => (true, false),
        Vulnerability::EastWest => (false, true),
        Vulnerability::Both => (true, true),
    }
}

/// Whether `n` is in `list`.
fn list_contains(list: &Vec<u32>, n: u32) -> (r: bool)
    ensures
        r == list@.contains(n),
{
    let mut i: usize = 0;
    while i < list.len()
        invariant
            i <= list.len(),
            forall|k: int| 0 <= k < i ==> list@[k] != n,
        decreases list.len() - i,
    {
        if list[i] == n {
            assert(list@[i as int] == n);
            return true;
        }
        i = i + 1;
    }
    false
}

/// Whether a board is among those a board range selects: every board when
/// no range is given, otherwise a numbered board whose number the range
/// lists.
pub fn board_selected(number: Option<u32>, allowed: &Option<Vec<u32>>) -> (r: bool)
    ensures
        r == match allowed {
            Some(list) => number is Some && list@.contains(number->0),
            None => true,
        },
{
    match allowed {
        Some(list) => match number {
            Some(n) => list_contains(list, n),
            None => false,
        },
        None => true,
    }
}

/// Whether a board numbered `number` is among those `allowed` selects.
pub open spec fn is_selected(number: Option<u32>, allowed: Option<Vec<u32>>) -> bool {
    match allowed {
        Some(list) => number is Some && list@.contains(number->0),
        None => true,
    }
}

/// The places of the boards the range selects, in order.
pub open spec fn selected_places(numbers: Seq<Option<u32>>, allowed: Option<Vec<u32>>) -> Seq<int>
    decreases numbers.len(),
{
    if numbers.len() == 0 {
        Seq::empty()
    } else {
        let rest = selected_places(numbers.drop_last(), allowed);
        if is_selected(numbers.last(), allowed) {
            rest.push(numbers.len() - 1)
        } else {
            rest
        }
    }
}

/// Why no board can be analyzed.
#[derive(Debug, PartialEq, Eq)]
pub enum AnalyzeError {
    /// The board range selects none of the boards.
    NoBoardsSelected,
}

/// The places of the boards to analyze, given each board's number and the
/// board range (every board when there is none); an error when it selects
/// none.
pub fn select_boards(numbers: &Vec<Option<u32>>, allowed: &Option<Vec<u32>>) -> (r: Result<Vec<usize>, AnalyzeError>)
    ensures
        match r {
            Ok(v) => selected_places(numbers@, *allowed).len() > 0 && v@.len() == selected_places(numbers@, *allowed).len()
                && forall|k: int| 0 <= k < v@.len() ==> v@[k] as int == #[trigger] selected_places(numbers@, *allowed)[k],
            Err(e) => e == AnalyzeError::NoBoardsSelected && selected_places(numbers@, *allowed).len() == 0,
        },
{
    let mut v: Vec<usize> = Vec::new();
    let mut i: usize = 0;
    while i < numbers.len()
        invariant
            i <= numbers.len(),
            v@.len() == selected_places(numbers@.take(i as int), *allowed).len(),
            forall|k: int| 0 <= k < v@.len() ==> v@[k] as int == #[trigger] selected_places(numbers@.take(i as int), *allowed)[k],
        decreases numbers.len() - i,
    {
        assert(numbers@.take(i + 1).drop_last() =~= numbers@.take(i as int));
        assert(numbers@.take(i + 1).last() == numbers@[i as int]);
        if board_selected(numbers[i], allowed) {
            v.push(i);
        }
        i = i + 1;
    }
    assert(numbers@.take(numbers.len() as int) =~= numbers@);
    if v.len() == 0 {
        Err(AnalyzeError::NoBoardsSelected)
    } else {
        Ok(v)
    }
}

/// The tricks a declarer takes, from the tricks North-South take.
pub fn declarer_tricks(declarer: Direction, ns_tricks: u8, num_tricks: u8) -> (r: u8)
    requires
        ns_tricks <= num_tricks,
    ensures
        r == if declarer == Direction::North || declarer == Direction::South {
            ns_tricks as int
        } else {
            num_tricks - ns_tricks
        },
{
    match declarer {
        Direction::North | Direction::South => ns_tricks,
        Direction::East | Direction::West => num_tricks - ns_tricks,
    }
}

/// The deal as a solver reads it (`N:` then the hands of North, East, South
/// and West), or nothing when no hand holds a card.
pub fn board_to_deal_text(deal: &crate::bridge::Deal) -> (r: Option<String>)
    ensures
        match r {
            Some(s) => (exists|d: Direction| crate::bridge::hand_has_cards(#[trigger] crate::bridge::hand_of(*deal, d)))
                && s@ == crate::bridge::deal_text(*deal, Direction::North),
            None => forall|d: Direction| !crate::bridge::hand_has_cards(#[trigger] crate::bridge::hand_of(*deal, d)),
        },
{
    if !deal.has_cards() {
        return None;
    }
    Some(string_of(&deal.to_pbn(Direction::North)))
}

/// The options of `analyze`.
pub struct Args {
    /// Input PBN file.
    pub input: String,
    /// Output PBN file with double-dummy results.
    pub output: Option<String>,
    /// Board range to analyze (`1-4`, `1,3,5`).
    pub board_range: Option<String>,
    /// Show each board's table and par.
    pub verbose: bool,
}

} // verus!
