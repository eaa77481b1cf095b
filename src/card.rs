use vstd::prelude::*;

verus! {

/// The four suits; suits carry no order among themselves.
#[derive(Clone, Copy, Debug, PartialEq, Eq, Structural)]
pub enum Suit {
    Spade,
    Heart,
    Diamond,
    Club,
}

/// One card: a rank in 2..=14 (11 = Jack, 12 = Queen, 13 = King, 14 = Ace) and a suit.
#[derive(Clone, Copy, Debug, PartialEq, Eq, Structural)]
pub struct Card {
    pub rank: usize,
    pub suit: Suit,
}

/// Why a hand's text could not be read.
#[derive(Clone, Copy, Debug, PartialEq, Eq, Structural)]
pub enum ParseError {
    /// A card's rank token is not one of 2..9, 10, J, Q, K, A.
    RankNotFound,
    /// A card's suit letter is not one of S, H, D, C.
    SuitNotFound,
    /// The hand does not consist of exactly five space-separated cards.
    WrongCardCount,
}

/// The rank named by a rank token that has been left-padded with '0' to two characters.
pub open spec fn rank_of_pair(a: char, b: char) -> Option<nat> {
    if a == '0' && '2' <= b && b <= '9' {
        Some((b as nat - '0' as nat) as nat)
    } else if a == '1' && b == '0' {
        Some(10)
    } else if a == '0' && b == 'J' {
        Some(11)
    } else if a == '0' && b == 'Q' {
        Some(12)
    } else if a == '0' && b == 'K' {
        Some(13)
    } else if a == '0' && b == 'A' {
        Some(14)
    } else {
        None
    }
}

/// The rank named by a rank token of any length: one character is padded with '0',
/// two are read as they stand, anything else names no rank.
pub open spec fn rank_of_token(r: Seq<char>) -> Option<nat> {
    if r.len() == 1 {
        rank_of_pair('0', r[0])
    } else if r.len() == 2 {
        rank_of_pair(r[0], r[1])
    } else {
        None
    }
}

pub open spec fn suit_of_letter(c: char) -> Option<Suit> {
    if c == 'S' {
        Some(Suit::Spade)
    } else if c == 'H' {
        Some(Suit::Heart)
    } else if c == 'D' {
        Some(Suit::Diamond)
    } else if c == 'C' {
        Some(Suit::Club)
    } else {
        None
    }
}

/// The rank part of a card token: everything before its final (suit) character.
pub open spec fn rank_part(t: Seq<char>) -> Seq<char> {
    if t.len() == 0 {
        t
    } else {
        t.drop_last()
    }
}

/// What a card token denotes. The rank is checked before the suit.
pub open spec fn card_of_token(t: Seq<char>) -> Result<Card, ParseError> {
    match rank_of_token(rank_part(t)) {
        None => Err(ParseError::RankNotFound),
        Some(r) => match suit_of_letter(t.last()) {
            None => Err(ParseError::SuitNotFound),
            Some(s) => Ok(Card { rank: r as usize, suit: s }),
        },
    }
}

pub open spec fn valid_rank(r: nat) -> bool {
    2 <= r <= 14
}

fn rank_of_chars(a: char, b: char) -> (r: Option<usize>)
    ensures
        r == (match rank_of_pair(a, b) {
            Some(v) => Some(v as usize),
            None => None::<usize>,
        }),
{
    if a == '0' && '2' <= b && b <= '9' {
        Some((b as u32 - '0' as u32) as usize)
    } else if a == '1' && b == '0' {
        Some(10)
    } else if a == '0' && b == 'J' {
        Some(11)
    } else if a == '0' && b == 'Q' {
        Some(12)
    } else if a == '0' && b == 'K' {
        Some(13)
    } else if a == '0' && b == 'A' {
        Some(14)
    } else {
        None
    }
}

fn suit_of_char(c: char) -> (r: Option<Suit>)
    ensures
        r == suit_of_letter(c),
{
    if c == 'S' {
        Some(Suit::Spade)
    } else if c == 'H' {
        Some(Suit::Heart)
    } else if c == 'D' {
        Some(Suit::Diamond)
    } else if c == 'C' {
        Some(Suit::Club)
    } else {
        None
    }
}

/// Reads a card from its characters: a rank token ("2".."9", "10", "J", "Q", "K", "A")
/// followed by one suit letter ("S", "H", "D", "C").
pub fn parse_card_chars(t: &Vec<char>) -> (r: Result<Card, ParseError>)
    ensures
        r == card_of_token(t@),
        r is Ok ==> valid_rank(r->Ok_0.rank as nat),
{
    let n = t.len();
    let rank = if n == 2 {
        rank_of_chars('0', t[0])
    } else if n == 3 {
        rank_of_chars(t[0], t[1])
    } else {
        None
    };
    match rank {
        None => Err(ParseError::RankNotFound),
        Some(v) => match suit_of_char(t[n - 1]) {
            None => Err(ParseError::SuitNotFound),
            Some(s) => Ok(Card { rank: v, suit: s }),
        },
    }
}

/// The characters of a string, in order.
pub fn chars_of(s: &str) -> (r: Vec<char>)
    ensures
        r@ == s@,
{
    let n = s.unicode_len();
    let mut chars: Vec<char> = Vec::new();
    let mut i: usize = 0;
    while i < n
        invariant
            n == s@.len(),
            i <= n,
            chars@ == s@.take(i as int),
        decreases n - i,
    {
        chars.push(s.get_char(i));
        i = i + 1;
    }
    assert(chars@ == s@);
    chars
}

/// Reads a card from its text, such as "10S", "QH" or "2C".
pub fn parse_card(token: &str) -> (r: Result<Card, ParseError>)
    ensures
        r == card_of_token(token@),
        r is Ok ==> valid_rank(r->Ok_0.rank as nat),
{
    let chars = chars_of(token);
    parse_card_chars(&chars)
}

/// The rank token that names a rank: "2".."9", "10", "J", "Q", "K", "A".
pub open spec fn rank_text(r: nat) -> Seq<char> {
    if r == 10 {
        seq!['1', '0']
    } else if r == 11 {
        seq!['J']
    } else if r == 12 {
        seq!['Q']
    } else if r == 13 {
        seq!['K']
    } else if r == 14 {
        seq!['A']
    } else {
        seq![(('0' as nat) + r) as char]
    }
}

pub open spec fn suit_letter(s: Suit) -> char {
    match s {
        Suit::Spade => 'S',
        Suit::Heart => 'H',
        Suit::Diamond => 'D',
        Suit::Club => 'C',
    }
}

/// Every rank token followed by every suit letter reads back as that rank and suit.
pub proof fn lemma_card_round_trip(r: nat, s: Suit)
    requires
        valid_rank(r),
    ensures
        card_of_token(rank_text(r).push(suit_letter(s))) == Ok::<Card, ParseError>(
            Card { rank: r as usize, suit: s },
        ),
{
    let t = rank_text(r).push(suit_letter(s));
    assert(rank_part(t) =~= rank_text(r));
    assert(t.last() == suit_letter(s));
    if r < 10 {
        assert(rank_text(r)[0] == ((('0' as nat) + r) as char));
    }
}

} // verus!
