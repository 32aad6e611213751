use vstd::prelude::*;
use vstd::string::StringSliceAdditionalSpecFns;

verus! {

/// Code that marks an empty slot.
pub const NO_CARD: u8 = 255;

/// One of the 52 cards, coded as `suit * 13 + rank`; rank 0 is a deuce and
/// rank 12 an ace, suits run clubs, diamonds, hearts, spades.
#[derive(Clone, Copy, Debug, PartialEq, Eq, Structural)]
pub struct Card(pub u8);

/// Rank of a card code.
pub open spec fn rank_of(code: u8) -> int {
    (code % 13) as int
}

/// Suit of a card code.
pub open spec fn suit_of(code: u8) -> int {
    (code / 13) as int
}

/// Rank that a text character stands for, `-1` for none.
pub open spec fn rank_of_char(b: u8) -> int {
    if b == 0x32 { 0 }       // '2'
    else if b == 0x33 { 1 }  // '3'
    else if b == 0x34 { 2 }  // '4'
    else if b == 0x35 { 3 }  // '5'
    else if b == 0x36 { 4 }  // '6'
    else if b == 0x37 { 5 }  // '7'
    else if b == 0x38 { 6 }  // '8'
    else if b == 0x39 { 7 }  // '9'
    else if b == 0x54 { 8 }  // 'T'
    else if b == 0x4a { 9 }  // 'J'
    else if b == 0x51 { 10 } // 'Q'
    else if b == 0x4b { 11 } // 'K'
    else if b == 0x41 { 12 } // 'A'
    else { -1 }
}

/// Suit that a text character stands for, `-1` for none.
pub open spec fn suit_of_char(b: u8) -> int {
    if b == 0x63 { 0 }       // 'c'
    else if b == 0x64 { 1 }  // 'd'
    else if b == 0x68 { 2 }  // 'h'
    else if b == 0x73 { 3 }  // 's'
    else { -1 }
}

/// The card that a two-character token names: rank character, then suit.
pub open spec fn card_of_token(t: Seq<u8>) -> Option<Card> {
    if t.len() == 2 && rank_of_char(t[0]) >= 0 && suit_of_char(t[1]) >= 0 {
        Some(Card((suit_of_char(t[1]) * 13 + rank_of_char(t[0])) as u8))
    } else {
        None
    }
}

fn rank_char_value(b: u8) -> (r: Option<u8>)
    ensures
        r == (if rank_of_char(b) >= 0 { Some(rank_of_char(b) as u8) } else { None::<u8> }),
{
    match b {
        0x32 => Some(0),
        0x33 => Some(1),
        0x34 => Some(2),
        0x35 => Some(3),
        0x36 => Some(4),
        0x37 => Some(5),
        0x38 => Some(6),
        0x39 => Some(7),
        0x54 => Some(8),
        0x4a => Some(9),
        0x51 => Some(10),
        0x4b => Some(11),
        0x41 => Some(12),
        _ => None,
    }
}

fn suit_char_value(b: u8) -> (r: Option<u8>)
    ensures
        r == (if suit_of_char(b) >= 0 { Some(suit_of_char(b) as u8) } else { None::<u8> }),
{
    match b {
        0x63 => Some(0),
        0x64 => Some(1),
        0x68 => Some(2),
        0x73 => Some(3),
        _ => None,
    }
}

/// Reads the card token that starts at `at` in `b`.
pub(crate) fn parse_token(b: &[u8], at: usize) -> (r: Option<Card>)
    requires
        at + 2 <= b@.len(),
    ensures
        r == card_of_token(b@.subrange(at as int, at + 2)),
{
    let t: Ghost<Seq<u8>> = Ghost(b@.subrange(at as int, at + 2));
    assert(t@[0] == b@[at as int] && t@[1] == b@[at + 1]);
    match (rank_char_value(b[at]), suit_char_value(b[at + 1])) {
        (Some(rank), Some(suit)) => Some(Card(suit * 13 + rank)),
        _ => None,
    }
}

impl Card {
    #[inline]
    pub fn rank(&self) -> (r: u8)
        ensures
            r == rank_of(self.0),
    {
        self.0 % 13
    }

    #[inline]
    pub fn suit(&self) -> (r: u8)
        ensures
            r == suit_of(self.0),
    {
        self.0 / 13
    }

    /// Reads a two-character token such as `As` (ace of spades); `None` when the
    /// text is not exactly a rank character from `23456789TJQKA` followed by a
    /// suit character from `cdhs`.
    pub fn parse(s: &str) -> (r: Option<Card>)
        ensures
            r == card_of_token(s.spec_bytes()),
    {
        let b = s.as_bytes();
        if b.len() != 2 {
            return None;
        }
        assert(b@.subrange(0, 2) =~= b@);
        parse_token(b, 0)
    }
}

fn rank_char(rank: u8) -> (b: u8)
    requires
        rank < 13,
    ensures
        rank_of_char(b) == rank,
{
    match rank {
        0 => 0x32,
        1 => 0x33,
        2 => 0x34,
        3 => 0x35,
        4 => 0x36,
        5 => 0x37,
        6 => 0x38,
        7 => 0x39,
        8 => 0x54,
        9 => 0x4a,
        10 => 0x51,
        11 => 0x4b,
        _ => 0x41,
    }
}

fn suit_char(suit: u8) -> (b: u8)
    requires
        suit < 4,
    ensures
        suit_of_char(b) == suit,
{
    match suit {
        0 => 0x63,
        1 => 0x64,
        2 => 0x68,
        _ => 0x73,
    }
}

impl Card {
    /// The two-character token of a real card, as [`Card::parse`] reads it.
    pub fn text(&self) -> (r: [u8; 2])
        requires
            self.0 < 52,
        ensures
            card_of_token(r@) == Some(*self),
    {
        let r = [rank_char(self.rank()), suit_char(self.suit())];
        assert(r@.len() == 2);
        r
    }
}

impl From<u8> for Card {
    fn from(code: u8) -> (r: Card) {
        Card(code)
    }
}

impl vstd::std_specs::convert::FromSpecImpl<u8> for Card {
    open spec fn obeys_from_spec() -> bool {
        true
    }

    open spec fn from_spec(code: u8) -> Card {
        Card(code)
    }
}

} // verus!
