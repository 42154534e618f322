//! Seats, vulnerability and strains, and how a quarter turn of the table moves
//! them.
use vstd::prelude::*;

verus! {

/// A seat at the table.
#[derive(Clone, Copy, Debug, PartialEq, Eq, Hash, Structural)]
pub enum Direction {
    North,
    East,
    South,
    West,
}

/// Which sides are vulnerable on a board.
#[derive(Clone, Copy, Debug, PartialEq, Eq, Hash, Structural)]
pub enum Vulnerability {
    Neither,
    NorthSouth,
    EastWest,
    Both,
}

/// A denomination: no trump or one of the four suits.
#[derive(Clone, Copy, Debug, PartialEq, Eq, Hash, Structural)]
pub enum Strain {
    NoTrump,
    Spades,
    Hearts,
    Diamonds,
    Clubs,
}

/// The seat's place in clockwise order from North.
pub open spec fn dir_index(d: Direction) -> int {
    match d {
        Direction::North => 0,
        Direction::East => 1,
        Direction::South => 2,
        Direction::West => 3,
    }
}

/// The seat at clockwise place `i` (taken modulo four) from North.
pub open spec fn dir_at(i: int) -> Direction {
    let k = i % 4;
    if k == 0 {
        Direction::North
    } else if k == 1 {
        Direction::East
    } else if k == 2 {
        Direction::South
    } else {
        Direction::West
    }
}

/// The seat `r` quarter turns clockwise from `d`.
pub open spec fn rotated(d: Direction, r: int) -> Direction {
    dir_at(dir_index(d) + r)
}

/// The upper-case letter that names a seat.
pub open spec fn dir_char(d: Direction) -> char {
    match d {
        Direction::North => 'N',
        Direction::East => 'E',
        Direction::South => 'S',
        Direction::West => 'W',
    }
}

/// The seat a letter names, in either case.
pub open spec fn dir_of_char(c: char) -> Option<Direction> {
    if c == 'N' || c == 'n' {
        Some(Direction::North)
    } else if c == 'E' || c == 'e' {
        Some(Direction::East)
    } else if c == 'S' || c == 's' {
        Some(Direction::South)
    } else if c == 'W' || c == 'w' {
        Some(Direction::West)
    } else {
        None
    }
}

impl Direction {
    /// The four seats in clockwise order from North.
    pub fn all() -> (r: [Direction; 4])
        ensures
            forall|i: int| 0 <= i < 4 ==> #[trigger] r@[i] == dir_at(i),
    {
        [Direction::North, Direction::East, Direction::South, Direction::West]
    }

    /// The seat a letter names (`N`, `E`, `S`, `W`, in either case).
    pub fn from_char(c: char) -> (r: Option<Direction>)
        ensures
            r == dir_of_char(c),
    {
        if c == 'N' || c == 'n' {
            Some(Direction::North)
        } else if c == 'E' || c == 'e' {
            Some(Direction::East)
        } else if c == 'S' || c == 's' {
            Some(Direction::South)
        } else if c == 'W' || c == 'w' {
            Some(Direction::West)
        } else {
            None
        }
    }

    /// The upper-case letter that names the seat.
    pub fn to_char(&self) -> (c: char)
        ensures
            c == dir_char(*self),
    {
        match self {
            Direction::North => 'N',
            Direction::East => 'E',
            Direction::South => 'S',
            Direction::West => 'W',
        }
    }
}

/// The seat's place in clockwise order from North.
pub fn direction_index(dir: Direction) -> (i: usize)
    ensures
        i == dir_index(dir),
        i < 4,
{
    match dir {
        Direction::North => 0,
        Direction::East => 1,
        Direction::South => 2,
        Direction::West => 3,
    }
}

/// The seat's place in clockwise order from North, as a small number.
pub fn direction_to_index(dir: Direction) -> (i: u8)
    ensures
        i == dir_index(dir),
{
    match dir {
        Direction::North => 0,
        Direction::East => 1,
        Direction::South => 2,
        Direction::West => 3,
    }
}

/// How many quarter turns clockwise take `from` to `to` (0 to 3).
pub fn rotation_amount(from: Direction, to: Direction) -> (r: u8)
    ensures
        r < 4,
        r == (dir_index(to) + 4 - dir_index(from)) % 4,
        rotated(from, r as int) == to,
{
    let from_idx = direction_index(from);
    let to_idx = direction_index(to);
    ((to_idx + 4 - from_idx) % 4) as u8
}

/// The seat `rotation` quarter turns clockwise from `dir`.
pub fn rotate_direction(dir: Direction, rotation: u8) -> (r: Direction)
    ensures
        r == rotated(dir, rotation as int),
{
    let idx = direction_index(dir);
    let new_idx = (idx + rotation as usize) % 4;
    if new_idx == 0 {
        Direction::North
    } else if new_idx == 1 {
        Direction::East
    } else if new_idx == 2 {
        Direction::South
    } else {
        Direction::West
    }
}

/// Turning the table by `r` and then by `s` is turning it by `r + s`.
pub proof fn lemma_rotation_composes(d: Direction, r: int, s: int)
    requires
        r >= 0,
        s >= 0,
    ensures
        rotated(rotated(d, r), s) == rotated(d, r + s),
{
    let i = dir_index(d);
    assert(dir_index(dir_at(i + r)) == (i + r) % 4);
    assert(((i + r) % 4 + s) % 4 == (i + r + s) % 4) by (nonlinear_arith)
        requires
            i >= 0,
            r >= 0,
            s >= 0,
    ;
}

/// A whole number of full turns changes no seat.
pub proof fn lemma_full_turn(d: Direction, k: int)
    requires
        k >= 0,
    ensures
        rotated(d, 4 * k) == d,
{
    let i = dir_index(d);
    assert((i + 4 * k) % 4 == i) by (nonlinear_arith)
        requires
            0 <= i < 4,
            k >= 0,
    ;
}

/// The tag text of a vulnerability.
pub open spec fn vul_text(v: Vulnerability) -> Seq<char> {
    match v {
        Vulnerability::Neither => seq!['N', 'o', 'n', 'e'],
        Vulnerability::NorthSouth => seq!['N', 'S'],
        Vulnerability::EastWest => seq!['E', 'W'],
        Vulnerability::Both => seq!['A', 'l', 'l'],
    }
}

/// The vulnerability of board `(k % 16) + 1` in the standard sixteen-board
/// cycle.
pub open spec fn standard_vul_at(k: int) -> Vulnerability {
    let i = k % 16;
    if i == 0 || i == 7 || i == 10 || i == 13 {
        Vulnerability::Neither
    } else if i == 1 || i == 4 || i == 11 || i == 14 {
        Vulnerability::NorthSouth
    } else if i == 2 || i == 5 || i == 8 || i == 15 {
        Vulnerability::EastWest
    } else {
        Vulnerability::Both
    }
}

/// The side vulnerability moves to when the table turns by `r`.
pub open spec fn vul_rotated(v: Vulnerability, r: int) -> Vulnerability {
    if r % 2 == 1 {
        match v {
            Vulnerability::NorthSouth => Vulnerability::EastWest,
            Vulnerability::EastWest => Vulnerability::NorthSouth,
            other => other,
        }
    } else {
        v
    }
}

impl Vulnerability {
    /// The tag text: `None`, `NS`, `EW` or `All`.
    pub fn to_pbn(&self) -> (s: Vec<char>)
        ensures
            s@ == vul_text(*self),
    {
        match self {
            Vulnerability::Neither => vec!['N', 'o', 'n', 'e'],
            Vulnerability::NorthSouth => vec!['N', 'S'],
            Vulnerability::EastWest => vec!['E', 'W'],
            Vulnerability::Both => vec!['A', 'l', 'l'],
        }
    }

    /// The standard vulnerability of a board number (board 1 none, 2 NS,
    /// 3 EW, 4 both, repeating every sixteen boards).
    pub fn from_board_number(num: u32) -> (v: Vulnerability)
        ensures
            v == standard_vul_at(num as int + 15),
    {
        standard_vul_of_index(((num as u64 + 15) % 16) as u32)
    }
}

/// The vulnerability at place `i` of the standard sixteen-board cycle.
pub fn standard_vul_of_index(i: u32) -> (v: Vulnerability)
    ensures
        v == standard_vul_at(i as int),
{
    let k = i % 16;
    if k == 0 || k == 7 || k == 10 || k == 13 {
        Vulnerability::Neither
    } else if k == 1 || k == 4 || k == 11 || k == 14 {
        Vulnerability::NorthSouth
    } else if k == 2 || k == 5 || k == 8 || k == 15 {
        Vulnerability::EastWest
    } else {
        Vulnerability::Both
    }
}

/// The standard dealer at place `i` of the four-board cycle.
pub fn standard_dealer_of_index(i: u32) -> (d: Direction)
    ensures
        d == dir_at(i as int),
{
    let k = i % 4;
    if k == 0 {
        Direction::North
    } else if k == 1 {
        Direction::East
    } else if k == 2 {
        Direction::South
    } else {
        Direction::West
    }
}

/// Vulnerability after the table turns by `rotation`: on an odd turn the
/// sides swap.
pub fn rotate_vulnerability(v: Vulnerability, rotation: u8) -> (r: Vulnerability)
    ensures
        r == vul_rotated(v, rotation as int),
{
    if rotation % 2 == 1 {
        match v {
            Vulnerability::NorthSouth => Vulnerability::EastWest,
            Vulnerability::EastWest => Vulnerability::NorthSouth,
            other => other,
        }
    } else {
        v
    }
}

/// The tag text of a strain: `NT`, `S`, `H`, `D` or `C`.
pub open spec fn strain_text(s: Strain) -> Seq<char> {
    match s {
        Strain::NoTrump => seq!['N', 'T'],
        Strain::Spades => seq!['S'],
        Strain::Hearts => seq!['H'],
        Strain::Diamonds => seq!['D'],
        Strain::Clubs => seq!['C'],
    }
}

/// The score of one trick over book in a strain (after the first in no trump).
pub open spec fn strain_trick_value(s: Strain) -> int {
    match s {
        Strain::Diamonds | Strain::Clubs => 20,
        _ => 30,
    }
}

/// The strain at place `i` of no trump, spades, hearts, diamonds, clubs.
pub open spec fn strain_at(i: int) -> Strain {
    if i == 0 {
        Strain::NoTrump
    } else if i == 1 {
        Strain::Spades
    } else if i == 2 {
        Strain::Hearts
    } else if i == 3 {
        Strain::Diamonds
    } else {
        Strain::Clubs
    }
}

/// The strain's place in no trump, spades, hearts, diamonds, clubs.
pub open spec fn strain_index(s: Strain) -> int {
    match s {
        Strain::NoTrump => 0,
        Strain::Spades => 1,
        Strain::Hearts => 2,
        Strain::Diamonds => 3,
        Strain::Clubs => 4,
    }
}

impl Strain {
    /// The five strains: no trump, then spades down to clubs.
    pub fn all() -> (r: [Strain; 5])
        ensures
            forall|i: int| 0 <= i < 5 ==> #[trigger] r@[i] == strain_at(i),
    {
        [Strain::NoTrump, Strain::Spades, Strain::Hearts, Strain::Diamonds, Strain::Clubs]
    }

    /// The score of one trick over book (after the first in no trump).
    pub fn trick_value(&self) -> (v: i32)
        ensures
            v == strain_trick_value(*self),
    {
        match self {
            Strain::Diamonds | Strain::Clubs => 20,
            _ => 30,
        }
    }

    /// The tag text of the strain.
    pub fn to_pbn(&self) -> (s: Vec<char>)
        ensures
            s@ == strain_text(*self),
    {
        match self {
            Strain::NoTrump => vec!['N', 'T'],
            Strain::Spades => vec!['S'],
            Strain::Hearts => vec!['H'],
            Strain::Diamonds => vec!['D'],
            Strain::Clubs => vec!['C'],
        }
    }

    /// The strain's place in no trump, spades, hearts, diamonds, clubs.
    pub fn index(&self) -> (i: usize)
        ensures
            i == strain_index(*self),
            i < 5,
    {
        match self {
            Strain::NoTrump => 0,
            Strain::Spades => 1,
            Strain::Hearts => 2,
            Strain::Diamonds => 3,
            Strain::Clubs => 4,
        }
    }
}


// ---------------------------------------------------------------------------
// Deals and boards
// ---------------------------------------------------------------------------

/// The four hands of a deal, each in PBN hand notation (`AKQ.JT9.8.765`:
/// spades, hearts, diamonds, clubs, separated by dots).
pub struct Deal {
    pub north: String,
    pub east: String,
    pub south: String,
    pub west: String,
}

/// The hand of a seat.
pub open spec fn hand_of(deal: Deal, d: Direction) -> Seq<char> {
    match d {
        Direction::North => deal.north@,
        Direction::East => deal.east@,
        Direction::South => deal.south@,
        Direction::West => deal.west@,
    }
}

/// Whether a hand's text names at least one card (a character other than
/// the suit separators).
pub open spec fn hand_has_cards(h: Seq<char>) -> bool {
    exists|i: int| 0 <= i < h.len() && h[i] != '.'
}

/// The deal in PBN notation starting from `first`: the seat letter, a
/// colon, then the four hands clockwise from `first`, separated by spaces.
pub open spec fn deal_text(deal: Deal, first: Direction) -> Seq<char> {
    seq![dir_char(first), ':'] + hand_of(deal, first) + seq![' '] + hand_of(deal, rotated(first, 1))
        + seq![' '] + hand_of(deal, rotated(first, 2)) + seq![' '] + hand_of(
        deal,
        rotated(first, 3),
    )
}

fn text_has_cards(h: &String) -> (r: bool)
    ensures
        r == hand_has_cards(h@),
{
    let v = crate::text::chars_of(h.as_str());
    let mut i: usize = 0;
    while i < v.len()
        invariant
            i <= v.len(),
            v@ == h@,
            forall|k: int| 0 <= k < i ==> v@[k] == '.',
        decreases v.len() - i,
    {
        if v[i] != '.' {
            return true;
        }
        i = i + 1;
    }
    false
}

impl Clone for Deal {
    fn clone(&self) -> (r: Self)
        ensures
            r == *self,
    {
        Deal {
            north: self.north.clone(),
            east: self.east.clone(),
            south: self.south.clone(),
            west: self.west.clone(),
        }
    }
}

impl Deal {
    /// A deal of four empty hands.
    pub fn new() -> (r: Deal)
        ensures
            forall|d: Direction| hand_of(r, d) == Seq::<char>::empty(),
    {
        Deal { north: String::new(), east: String::new(), south: String::new(), west: String::new() }
    }

    /// The hand of a seat.
    pub fn hand(&self, d: Direction) -> (r: &String)
        ensures
            r@ == hand_of(*self, d),
    {
        match d {
            Direction::North => &self.north,
            Direction::East => &self.east,
            Direction::South => &self.south,
            Direction::West => &self.west,
        }
    }

    /// Replaces the hand of a seat.
    pub fn set_hand(&mut self, d: Direction, hand: String)
        ensures
            hand_of(*final(self), d) == hand@,
            forall|e: Direction| e != d ==> hand_of(*final(self), e) == hand_of(*old(self), e),
    {
        match d {
            Direction::North => self.north = hand,
            Direction::East => self.east = hand,
            Direction::South => self.south = hand,
            Direction::West => self.west = hand,
        }
    }

    /// Whether any hand holds a card.
    pub fn has_cards(&self) -> (r: bool)
        ensures
            r == exists|d: Direction| hand_has_cards(#[trigger] hand_of(*self, d)),
    {
        let r = text_has_cards(&self.north) || text_has_cards(&self.east) || text_has_cards(
            &self.south,
        ) || text_has_cards(&self.west);
        proof {
            if r {
                if hand_has_cards(self.north@) {
                    assert(hand_has_cards(hand_of(*self, Direction::North)));
                } else if hand_has_cards(self.east@) {
                    assert(hand_has_cards(hand_of(*self, Direction::East)));
                } else if hand_has_cards(self.south@) {
                    assert(hand_has_cards(hand_of(*self, Direction::South)));
                } else {
                    assert(hand_has_cards(hand_of(*self, Direction::West)));
                }
            } else {
                assert forall|d: Direction| !hand_has_cards(#[trigger] hand_of(*self, d)) by {
                    match d {
                        Direction::North => {},
                        Direction::East => {},
                        Direction::South => {},
                        Direction::West => {},
                    }
                }
            }
        }
        r
    }

    /// The deal in PBN notation, starting from `first`.
    pub fn to_pbn(&self, first: Direction) -> (r: Vec<char>)
        ensures
            r@ == deal_text(*self, first),
    {
        let mut out: Vec<char> = Vec::new();
        out.push(first.to_char());
        out.push(':');
        crate::text::push_str(&mut out, self.hand(first).as_str());
        out.push(' ');
        crate::text::push_str(&mut out, self.hand(rotate_direction(first, 1)).as_str());
        out.push(' ');
        crate::text::push_str(&mut out, self.hand(rotate_direction(first, 2)).as_str());
        out.push(' ');
        crate::text::push_str(&mut out, self.hand(rotate_direction(first, 3)).as_str());
        assert(out@ =~= deal_text(*self, first));
        out
    }
}

/// A board as the rotation works on it.
pub struct Board {
    pub number: Option<u32>,
    pub dealer: Option<Direction>,
    pub vulnerable: Vulnerability,
    pub deal: Deal,
}

impl Clone for Board {
    fn clone(&self) -> (r: Self)
        ensures
            r == *self,
    {
        Board {
            number: self.number,
            dealer: self.dealer,
            vulnerable: self.vulnerable,
            deal: self.deal.clone(),
        }
    }
}

// ---------------------------------------------------------------------------
// Double-dummy tables
// ---------------------------------------------------------------------------

/// The tricks each seat can take as declarer in each strain.
pub struct DdTable {
    cells: Vec<u8>,
}

/// Where a cell is kept: declarers in clockwise order from North, strains
/// from no trump down to clubs within each.
pub open spec fn cell_index(d: Direction, s: Strain) -> int {
    dir_index(d) * 5 + strain_index(s)
}

impl DdTable {
    #[verifier::type_invariant]
    closed spec fn well_formed(self) -> bool {
        self.cells@.len() == 20
    }

    /// The tricks `d` can take as declarer in `s`.
    pub closed spec fn tricks_view(self, d: Direction, s: Strain) -> u8 {
        self.cells@[cell_index(d, s)]
    }

    /// A table of zeros.
    pub fn new() -> (r: DdTable)
        ensures
            forall|d: Direction, s: Strain| #[trigger] r.tricks_view(d, s) == 0,
    {
        let mut cells: Vec<u8> = Vec::new();
        let mut i: usize = 0;
        while i < 20
            invariant
                i <= 20,
                cells@.len() == i,
                forall|k: int| 0 <= k < i ==> cells@[k] == 0,
            decreases 20 - i,
        {
            cells.push(0);
            i = i + 1;
        }
        DdTable { cells }
    }

    /// The tricks `d` can take as declarer in `s`.
    pub fn tricks(&self, d: Direction, s: Strain) -> (r: u8)
        ensures
            r == self.tricks_view(d, s),
    {
        proof {
            use_type_invariant(self);
        }
        self.cells[direction_index(d) * 5 + s.index()]
    }

    /// Records the tricks `d` can take as declarer in `s`.
    pub fn set(&mut self, d: Direction, s: Strain, tricks: u8)
        ensures
            final(self).tricks_view(d, s) == tricks,
            forall|e: Direction, t: Strain|
                !(e == d && t == s) ==> #[trigger] final(self).tricks_view(e, t) == old(self).tricks_view(e, t),
    {
        proof {
            use_type_invariant(&*self);
        }
        let i = direction_index(d) * 5 + s.index();
        let mut cells = self.cells.clone();
        assert(cells@ =~= self.cells@);
        cells.set(i, tricks);
        *self = DdTable { cells };
        proof {
            assert forall|e: Direction, t: Strain|
                !(e == d && t == s) implies #[trigger] self.tricks_view(e, t) == old(self).tricks_view(e, t) by {
                assert(cell_index(e, t) != cell_index(d, s));
            }
        }
    }
}

/// Whether `b` is `a` after the table turns by `r`: whatever a seat could
/// make in `a`, the seat its cards went to makes in `b`.
pub open spec fn table_rotated(a: DdTable, b: DdTable, r: int) -> bool {
    forall|d: Direction, s: Strain| #[trigger] b.tricks_view(rotated(d, r), s) == a.tricks_view(d, s)
}

/// Turning a table by `r` and then by `s` turns it by `r + s`.
pub proof fn lemma_table_rotation_composes(a: DdTable, b: DdTable, c: DdTable, r: int, s: int)
    requires
        r >= 0,
        s >= 0,
        table_rotated(a, b, r),
        table_rotated(b, c, s),
    ensures
        table_rotated(a, c, r + s),
{
    assert forall|d: Direction, t: Strain| #[trigger] c.tricks_view(rotated(d, r + s), t) == a.tricks_view(d, t) by {
        lemma_rotation_composes(d, r, s);
        assert(c.tricks_view(rotated(rotated(d, r), s), t) == b.tricks_view(rotated(d, r), t));
    }
}

/// A whole number of full turns leaves every cell where it was.
pub proof fn lemma_table_full_turn(a: DdTable, b: DdTable, k: int)
    requires
        k >= 0,
        table_rotated(a, b, 4 * k),
    ensures
        forall|d: Direction, s: Strain| #[trigger] b.tricks_view(d, s) == a.tricks_view(d, s),
{
    assert forall|d: Direction, s: Strain| #[trigger] b.tricks_view(d, s) == a.tricks_view(d, s) by {
        lemma_full_turn(d, k);
        assert(b.tricks_view(rotated(d, 4 * k), s) == a.tricks_view(d, s));
    }
}

/// The rotation found by `rotation_amount` takes `from` to `to`.
pub proof fn lemma_rotation_reaches(from: Direction, to: Direction)
    ensures
        rotated(from, (dir_index(to) + 4 - dir_index(from)) % 4) == to,
{
}

/// The table after the table turns by `rotation`: what a seat could make,
/// the seat its cards went to can make.
pub fn rotate_dd_table(table: &DdTable, rotation: u8) -> (r: DdTable)
    ensures
        table_rotated(*table, r, rotation as int),
{
    let mut out = DdTable::new();
    let dirs = Direction::all();
    let strains = Strain::all();
    let mut i: usize = 0;
    while i < 4
        invariant
            i <= 4,
            forall|k: int| 0 <= k < 4 ==> #[trigger] dirs@[k] == dir_at(k),
            forall|k: int| 0 <= k < 5 ==> #[trigger] strains@[k] == strain_at(k),
            forall|d: Direction, s: Strain|
                dir_index(d) < i ==> #[trigger] out.tricks_view(rotated(d, rotation as int), s) == table.tricks_view(d, s),
        decreases 4 - i,
    {
        let d = dirs[i];
        let mut j: usize = 0;
        while j < 5
            invariant
                i < 4,
                j <= 5,
                d == dir_at(i as int),
                forall|k: int| 0 <= k < 5 ==> #[trigger] strains@[k] == strain_at(k),
                forall|e: Direction, s: Strain|
                    dir_index(e) < i ==> #[trigger] out.tricks_view(rotated(e, rotation as int), s) == table.tricks_view(e, s),
                forall|s: Strain|
                    strain_index(s) < j ==> #[trigger] out.tricks_view(rotated(d, rotation as int), s) == table.tricks_view(d, s),
            decreases 5 - j,
        {
            let s = strains[j];
            let t = table.tricks(d, s);
            out.set(rotate_direction(d, rotation), s, t);
            proof {
                assert forall|e: Direction, u: Strain|
                    dir_index(e) < i implies #[trigger] out.tricks_view(rotated(e, rotation as int), u) == table.tricks_view(e, u) by {
                    lemma_rotated_injective(e, d, rotation as int);
                }
                assert forall|u: Strain|
                    strain_index(u) < j + 1 implies #[trigger] out.tricks_view(rotated(d, rotation as int), u) == table.tricks_view(d, u) by {
                    if strain_index(u) == j {
                        assert(u == s);
                    }
                }
            }
            j = j + 1;
        }
        proof {
            assert forall|e: Direction, s: Strain|
                dir_index(e) < i + 1 implies #[trigger] out.tricks_view(rotated(e, rotation as int), s) == table.tricks_view(e, s) by {
                if dir_index(e) == i {
                    assert(e == d);
                    assert(strain_index(s) < 5);
                }
            }
        }
        i = i + 1;
    }
    proof {
        assert forall|d: Direction, s: Strain|
            #[trigger] out.tricks_view(rotated(d, rotation as int), s) == table.tricks_view(d, s) by {
            assert(dir_index(d) < 4);
        }
    }
    out
}

/// Different seats turn to different seats.
pub proof fn lemma_rotated_injective(a: Direction, b: Direction, r: int)
    ensures
        rotated(a, r) == rotated(b, r) ==> a == b,
{
    let i = dir_index(a);
    let j = dir_index(b);
    assert(dir_index(dir_at(i + r)) == (i + r) % 4);
    assert(dir_index(dir_at(j + r)) == (j + r) % 4);
    if (i + r) % 4 == (j + r) % 4 {
        assert(i == j) by (nonlinear_arith)
            requires
                (i + r) % 4 == (j + r) % 4,
                0 <= i < 4,
                0 <= j < 4,
        ;
    }
}

/// Every seat is where some seat turns to.
pub proof fn lemma_rotated_onto(b: Direction, r: int)
    requires
        r >= 0,
    ensures
        rotated(rotated(b, 4 * (r + 1) - r), r) == b,
{
    lemma_rotation_composes(b, 4 * (r + 1) - r, r);
    lemma_full_turn(b, r + 1);
}
} // verus!
