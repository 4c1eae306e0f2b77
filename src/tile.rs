use vstd::prelude::*;

verus! {

/// The five suits: three numbered suits with values 1 to 9, then the winds
/// (1 to 4) and the dragons (1 to 3).
#[derive(Clone, Copy, Debug, PartialEq, Eq, Hash, PartialOrd, Ord, Structural)]
pub enum TileSuit {
    Man,
    Pin,
    Sou,
    Wind,
    Dragon,
}

/// Number of physical tiles: four copies of each of the 34 identities.
pub const FULL_SET_SIZE: usize = 136;

/// How many values a suit has.
pub open spec fn suit_size(s: TileSuit) -> int {
    match s {
        TileSuit::Man | TileSuit::Pin | TileSuit::Sou => 9,
        TileSuit::Wind => 4,
        TileSuit::Dragon => 3,
    }
}

/// The first canonical index of a suit's band.
pub open spec fn suit_base(s: TileSuit) -> int {
    match s {
        TileSuit::Man => 0,
        TileSuit::Pin => 9,
        TileSuit::Sou => 18,
        TileSuit::Wind => 27,
        TileSuit::Dragon => 31,
    }
}

pub open spec fn numbered(s: TileSuit) -> bool {
    s == TileSuit::Man || s == TileSuit::Pin || s == TileSuit::Sou
}

/// A tile identity: a suit and a value. Ordered by suit, then value.
#[derive(Clone, Copy, Debug, PartialEq, Eq, Hash, PartialOrd, Ord, Structural)]
pub struct TileId {
    pub suit: TileSuit,
    pub value: u8,
}

/// The identity at canonical index `i` (for `0 <= i < 34`).
pub open spec fn tile_at(i: int) -> TileId {
    if i < 9 {
        TileId { suit: TileSuit::Man, value: (i + 1) as u8 }
    } else if i < 18 {
        TileId { suit: TileSuit::Pin, value: (i - 8) as u8 }
    } else if i < 27 {
        TileId { suit: TileSuit::Sou, value: (i - 17) as u8 }
    } else if i < 31 {
        TileId { suit: TileSuit::Wind, value: (i - 26) as u8 }
    } else {
        TileId { suit: TileSuit::Dragon, value: (i - 30) as u8 }
    }
}

impl TileId {
    /// The value lies in its suit's range.
    pub open spec fn wf(self) -> bool {
        1 <= self.value <= suit_size(self.suit)
    }

    /// Canonical index in `[0, 34)`.
    pub open spec fn index(self) -> int {
        suit_base(self.suit) + self.value - 1
    }

    pub open spec fn honor(self) -> bool {
        !numbered(self.suit)
    }

    pub open spec fn simple(self) -> bool {
        numbered(self.suit) && 2 <= self.value <= 8
    }

    pub open spec fn terminal(self) -> bool {
        numbered(self.suit) && (self.value == 1 || self.value == 9)
    }

    pub fn is_honor(&self) -> (r: bool)
        ensures
            r == self.honor(),
    {
        match self.suit {
            TileSuit::Wind | TileSuit::Dragon => true,
            _ => false,
        }
    }

    pub fn is_simple(&self) -> (r: bool)
        ensures
            r == self.simple(),
    {
        !self.is_honor() && self.value >= 2 && self.value <= 8
    }

    pub fn is_terminal(&self) -> (r: bool)
        ensures
            r == self.terminal(),
    {
        !self.is_honor() && (self.value == 1 || self.value == 9)
    }

    /// Position in a 34-slot count array.
    pub fn to_index(&self) -> (r: usize)
        requires
            self.wf(),
        ensures
            r == self.index(),
            r < 34,
    {
        match self.suit {
            TileSuit::Man => (self.value - 1) as usize,
            TileSuit::Pin => 9 + (self.value - 1) as usize,
            TileSuit::Sou => 18 + (self.value - 1) as usize,
            TileSuit::Wind => 27 + (self.value - 1) as usize,
            TileSuit::Dragon => 31 + (self.value - 1) as usize,
        }
    }

    /// The identity at a position of a 34-slot count array.
    pub fn from_index(index: usize) -> (r: TileId)
        requires
            index < 34,
        ensures
            r == tile_at(index as int),
            r.wf(),
    {
        if index <= 8 {
            TileId { suit: TileSuit::Man, value: (index + 1) as u8 }
        } else if index <= 17 {
            TileId { suit: TileSuit::Pin, value: (index - 8) as u8 }
        } else if index <= 26 {
            TileId { suit: TileSuit::Sou, value: (index - 17) as u8 }
        } else if index <= 30 {
            TileId { suit: TileSuit::Wind, value: (index - 26) as u8 }
        } else {
            TileId { suit: TileSuit::Dragon, value: (index - 30) as u8 }
        }
    }
}

/// The character of a value 1 to 9.
pub open spec fn digit_char(v: u8) -> char {
    match v {
        1 => '1',
        2 => '2',
        3 => '3',
        4 => '4',
        5 => '5',
        6 => '6',
        7 => '7',
        8 => '8',
        _ => '9',
    }
}

/// The display text of a tile: value and suit sign for numbered tiles, the
/// honor's own sign for winds and dragons.
pub open spec fn label_chars(t: TileId) -> Seq<char> {
    match t.suit {
        TileSuit::Man => seq![digit_char(t.value), '万'],
        TileSuit::Pin => seq![digit_char(t.value), '筒'],
        TileSuit::Sou => seq![digit_char(t.value), '条'],
        TileSuit::Wind => seq![
            if t.value == 1 {
                '东'
            } else if t.value == 2 {
                '南'
            } else if t.value == 3 {
                '西'
            } else {
                '北'
            },
        ],
        TileSuit::Dragon => seq![
            if t.value == 1 {
                '中'
            } else if t.value == 2 {
                '发'
            } else {
                '白'
            },
        ],
    }
}

/// Display colour class of a tile, one per suit, and one per dragon.
#[derive(Clone, Copy, Debug, PartialEq, Eq, Hash, Structural)]
pub enum TileColor {
    Red,
    Blue,
    Green,
    DarkGray,
    DragonRed,
    DragonGreen,
    DragonWhite,
}

pub open spec fn color_of(t: TileId) -> TileColor {
    match t.suit {
        TileSuit::Man => TileColor::Red,
        TileSuit::Pin => TileColor::Blue,
        TileSuit::Sou => TileColor::Green,
        TileSuit::Wind => TileColor::DarkGray,
        TileSuit::Dragon => if t.value == 1 {
            TileColor::DragonRed
        } else if t.value == 2 {
            TileColor::DragonGreen
        } else {
            TileColor::DragonWhite
        },
    }
}

/// Relies on `String::push`: the character is appended at the end.
#[verifier::external_body]
fn push_char(s: &mut String, c: char)
    ensures
        final(s)@ == old(s)@.push(c),
{
    s.push(c)
}

fn digit(v: u8) -> (c: char)
    requires
        1 <= v <= 9,
    ensures
        c == digit_char(v),
{
    match v {
        1 => '1',
        2 => '2',
        3 => '3',
        4 => '4',
        5 => '5',
        6 => '6',
        7 => '7',
        8 => '8',
        _ => '9',
    }
}

impl TileId {
    pub fn label(&self) -> (r: String)
        requires
            self.wf(),
        ensures
            r@ == label_chars(*self),
    {
        let mut s = String::new();
        match self.suit {
            TileSuit::Man => {
                push_char(&mut s, digit(self.value));
                push_char(&mut s, '万');
            },
            TileSuit::Pin => {
                push_char(&mut s, digit(self.value));
                push_char(&mut s, '筒');
            },
            TileSuit::Sou => {
                push_char(&mut s, digit(self.value));
                push_char(&mut s, '条');
            },
            TileSuit::Wind => {
                let c = if self.value == 1 {
                    '东'
                } else if self.value == 2 {
                    '南'
                } else if self.value == 3 {
                    '西'
                } else {
                    '北'
                };
                push_char(&mut s, c);
            },
            TileSuit::Dragon => {
                let c = if self.value == 1 {
                    '中'
                } else if self.value == 2 {
                    '发'
                } else {
                    '白'
                };
                push_char(&mut s, c);
            },
        }
        assert(s@ =~= label_chars(*self));
        s
    }

    pub fn suit_color(&self) -> (r: TileColor)
        requires
            self.wf(),
        ensures
            r == color_of(*self),
    {
        match self.suit {
            TileSuit::Man => TileColor::Red,
            TileSuit::Pin => TileColor::Blue,
            TileSuit::Sou => TileColor::Green,
            TileSuit::Wind => TileColor::DarkGray,
            TileSuit::Dragon => if self.value == 1 {
                TileColor::DragonRed
            } else if self.value == 2 {
                TileColor::DragonGreen
            } else {
                TileColor::DragonWhite
            },
        }
    }
}

/// One of the 136 physical tiles: an identity and which of its four copies.
#[derive(Clone, Copy, Debug, PartialEq, Eq, Structural)]
pub struct Tile {
    pub id: TileId,
    pub copy_index: u8,
}

/// Where a physical tile currently is.
#[derive(Clone, Copy, Debug, PartialEq, Eq, Structural)]
pub enum TileLocation {
    Wall,
    Hand,
    Board,
    Discarded,
}

/// The tile at position `k` of the full set: the copies of each identity
/// stand together, identities in canonical order.
pub open spec fn full_set_tile(k: int) -> Tile {
    Tile { id: tile_at(k / 4), copy_index: (k % 4) as u8 }
}

impl Tile {
    pub fn generate_full_set() -> (r: Vec<Tile>)
        ensures
            r@.len() == 136,
            forall|k: int| 0 <= k < 136 ==> #[trigger] r@[k] == full_set_tile(k),
    {
        let mut tiles: Vec<Tile> = Vec::with_capacity(136);
        let mut idx: usize = 0;
        while idx < 34
            invariant
                idx <= 34,
                tiles@.len() == 4 * idx,
                forall|k: int| 0 <= k < tiles@.len() ==> #[trigger] tiles@[k] == full_set_tile(k),
            decreases 34 - idx,
        {
            let id = TileId::from_index(idx);
            let mut copy: u8 = 0;
            while copy < 4
                invariant
                    idx < 34,
                    copy <= 4,
                    id == tile_at(idx as int),
                    tiles@.len() == 4 * idx + copy,
                    forall|k: int| 0 <= k < tiles@.len() ==> #[trigger] tiles@[k] == full_set_tile(k),
                decreases 4 - copy,
            {
                let ghost k = 4 * idx + copy;
                assert(k / 4 == idx && k % 4 == copy) by (nonlinear_arith)
                    requires
                        k == 4 * idx + copy,
                        0 <= copy < 4,
                ;
                tiles.push(Tile { id, copy_index: copy });
                copy = copy + 1;
            }
            idx = idx + 1;
        }
        tiles
    }
}

/// The full set holds every identity in exactly the four copies 0 to 3, side
/// by side, and no physical tile twice.
pub proof fn lemma_full_set_contents(t: TileId, c: int, j: int, k: int)
    requires
        t.wf(),
        0 <= c < 4,
        0 <= j < 136,
        0 <= k < 136,
    ensures
        full_set_tile(4 * t.index() + c) == (Tile { id: t, copy_index: c as u8 }),
        full_set_tile(j).id.wf(),
        full_set_tile(j).copy_index < 4,
        full_set_tile(j).id == t <==> 4 * t.index() <= j < 4 * t.index() + 4,
        j != k ==> full_set_tile(j) != full_set_tile(k),
{
    let i = t.index();
    assert((4 * i + c) / 4 == i && (4 * i + c) % 4 == c) by (nonlinear_arith)
        requires
            0 <= c < 4,
    ;
    assert(0 <= j / 4 < 34 && 0 <= j % 4 < 4 && j == 4 * (j / 4) + j % 4) by (nonlinear_arith)
        requires
            0 <= j < 136,
    ;
    assert(0 <= k / 4 < 34 && 0 <= k % 4 < 4 && k == 4 * (k / 4) + k % 4) by (nonlinear_arith)
        requires
            0 <= k < 136,
    ;
    lemma_index_round_trip(t, j / 4);
    lemma_index_round_trip(t, k / 4);
    if full_set_tile(j).id == t {
        assert(j / 4 == i);
    }
    if 4 * i <= j < 4 * i + 4 {
        assert(j / 4 == i) by (nonlinear_arith)
            requires
                4 * i <= j < 4 * i + 4,
        ;
    }
}

/// Encoding a well-formed identity and decoding it gives it back, and every
/// index of `[0, 34)` decodes to a well-formed identity that encodes to it.
pub proof fn lemma_index_round_trip(t: TileId, i: int)
    requires
        t.wf(),
        0 <= i < 34,
    ensures
        tile_at(t.index()) == t,
        tile_at(i).wf(),
        tile_at(i).index() == i,
        0 <= t.index() < 34,
{
}

} // verus!
