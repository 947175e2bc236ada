use vstd::prelude::*;
use rand::seq::SliceRandom;

verus! {

/// The four French suits.
#[derive(Clone, Copy, PartialEq, Eq, Structural, Debug)]
pub enum Suit {
    Clubs,
    Hearts,
    Diamonds,
    Spades,
}

/// Card ranks. `Joker` carries numeric code 0, `Ace` 1, `Two` 2, and so on
/// up to `King` 13. Note that this code order is not the order in which
/// ranks beat each other during play; see `card_rank_order`.
#[derive(Clone, Copy, PartialEq, Eq, Structural, Debug)]
pub enum Rank {
    Joker,
    Ace,
    Two,
    Three,
    Four,
    Five,
    Six,
    Seven,
    Eight,
    Nine,
    Ten,
    Jack,
    Queen,
    King,
}

impl Rank {
    /// Numeric code of a rank: `Joker` is 0, `Ace` is 1, ..., `King` is 13.
    pub open spec fn code(self) -> int {
        match self {
            Rank::Joker => 0,
            Rank::Ace => 1,
            Rank::Two => 2,
            Rank::Three => 3,
            Rank::Four => 4,
            Rank::Five => 5,
            Rank::Six => 6,
            Rank::Seven => 7,
            Rank::Eight => 8,
            Rank::Nine => 9,
            Rank::Ten => 10,
            Rank::Jack => 11,
            Rank::Queen => 12,
            Rank::King => 13,
        }
    }

    /// The rank a numeric code stands for, `None` for codes above 13.
    pub fn from_code(value: u8) -> (r: Option<Rank>)
        ensures
            value <= 13 ==> (r matches Some(rank) && rank.code() == value),
            value > 13 ==> r is None,
    {
        match value {
            0 => Some(Rank::Joker),
            1 => Some(Rank::Ace),
            2 => Some(Rank::Two),
            3 => Some(Rank::Three),
            4 => Some(Rank::Four),
            5 => Some(Rank::Five),
            6 => Some(Rank::Six),
            7 => Some(Rank::Seven),
            8 => Some(Rank::Eight),
            9 => Some(Rank::Nine),
            10 => Some(Rank::Ten),
            11 => Some(Rank::Jack),
            12 => Some(Rank::Queen),
            13 => Some(Rank::King),
            _ => None,
        }
    }
}

/// The rank whose numeric code is `code`; inverse of `Rank::code`.
pub open spec fn rank_with_code(code: int) -> Rank {
    if code == 0 {
        Rank::Joker
    } else if code == 1 {
        Rank::Ace
    } else if code == 2 {
        Rank::Two
    } else if code == 3 {
        Rank::Three
    } else if code == 4 {
        Rank::Four
    } else if code == 5 {
        Rank::Five
    } else if code == 6 {
        Rank::Six
    } else if code == 7 {
        Rank::Seven
    } else if code == 8 {
        Rank::Eight
    } else if code == 9 {
        Rank::Nine
    } else if code == 10 {
        Rank::Ten
    } else if code == 11 {
        Rank::Jack
    } else if code == 12 {
        Rank::Queen
    } else {
        Rank::King
    }
}

/// A playing card: a suit and a rank, compared structurally.
#[derive(Clone, Copy, PartialEq, Eq, Structural, Debug)]
pub struct Card {
    pub suit: Suit,
    pub rank: Rank,
}

impl Card {
    pub fn new(suit: Suit, rank: Rank) -> (c: Self)
        ensures
            c == (Card { suit, rank }),
    {
        Self { suit, rank }
    }
}

/// One suit's run of cards in a fresh deck, rank codes `lo` (inclusive)
/// up to 13 (inclusive), in code order.
pub open spec fn suit_run(suit: Suit, lo: int) -> Seq<Card> {
    Seq::new((14 - lo) as nat, |i: int| Card { suit, rank: rank_with_code(lo + i) })
}

/// The contents of a fresh 52-card deck, in construction order:
/// suit-major (clubs, diamonds, hearts, spades), rank codes 1 to 13 within a suit.
pub open spec fn full_deck() -> Seq<Card> {
    suit_run(Suit::Clubs, 1) + suit_run(Suit::Diamonds, 1) + suit_run(Suit::Hearts, 1) + suit_run(
        Suit::Spades,
        1,
    )
}

/// The contents of a fresh deck with jokers: one card of every
/// (suit, rank) combination, rank codes 0 to 13.
pub open spec fn full_deck_with_jokers() -> Seq<Card> {
    suit_run(Suit::Clubs, 0) + suit_run(Suit::Diamonds, 0) + suit_run(Suit::Hearts, 0) + suit_run(
        Suit::Spades,
        0,
    )
}

/// Distinct codes stand for distinct ranks.
pub proof fn lemma_rank_with_code_injective(a: int, b: int)
    requires
        0 <= a <= 13,
        0 <= b <= 13,
        a != b,
    ensures
        rank_with_code(a) != rank_with_code(b),
{
}

/// A fresh deck holds no duplicate (suit, rank) pair: every position shows
/// a different card.
#[verifier::rlimit(50)]
pub proof fn lemma_full_deck_no_duplicates()
    ensures
        full_deck().len() == 52,
        full_deck().no_duplicates(),
{
    let d = full_deck();
    assert forall|i: int| 0 <= i < 13 implies #[trigger] d[i] == (Card {
        suit: Suit::Clubs,
        rank: rank_with_code(i + 1),
    }) by {
        assert(d[i] == suit_run(Suit::Clubs, 1)[i]);
    }
    assert forall|i: int| 13 <= i < 26 implies #[trigger] d[i] == (Card {
        suit: Suit::Diamonds,
        rank: rank_with_code(i - 12),
    }) by {
        assert(d[i] == suit_run(Suit::Diamonds, 1)[i - 13]);
    }
    assert forall|i: int| 26 <= i < 39 implies #[trigger] d[i] == (Card {
        suit: Suit::Hearts,
        rank: rank_with_code(i - 25),
    }) by {
        assert(d[i] == suit_run(Suit::Hearts, 1)[i - 26]);
    }
    assert forall|i: int| 39 <= i < 52 implies #[trigger] d[i] == (Card {
        suit: Suit::Spades,
        rank: rank_with_code(i - 38),
    }) by {
        assert(d[i] == suit_run(Suit::Spades, 1)[i - 39]);
    }
    assert forall|i: int, j: int| 0 <= i < d.len() && 0 <= j < d.len() && i != j implies d[i]
        != d[j] by {
        if i / 13 == j / 13 {
            let a = i - (i / 13) * 13 + 1;
            let b = j - (j / 13) * 13 + 1;
            lemma_rank_with_code_injective(a, b);
        }
    }
}

/// An ordered deck of cards. The top of the deck is the end of the
/// sequence: cards are drawn from the top with `pop`, and the bottom
/// card (the first element) is revealed as the trump with `pop_last`.
#[derive(Clone)]
pub struct Deck {
    deck: Vec<Card>,
}

impl View for Deck {
    type V = Seq<Card>;

    closed spec fn view(&self) -> Seq<Card> {
        self.deck@
    }
}

impl Deck {
    /// A fresh unshuffled 52-card deck, suit-major, rank-minor.
    pub fn new() -> (d: Self)
        ensures
            d@ == full_deck(),
    {
        let mut deck: Vec<Card> = Vec::new();
        Self::push_suit_run(&mut deck, Suit::Clubs, 1);
        Self::push_suit_run(&mut deck, Suit::Diamonds, 1);
        Self::push_suit_run(&mut deck, Suit::Hearts, 1);
        Self::push_suit_run(&mut deck, Suit::Spades, 1);
        proof {
            assert(deck@ =~= full_deck());
        }
        Self { deck }
    }

    /// A fresh unshuffled deck with one card of every (suit, rank)
    /// combination, jokers included.
    pub fn new_with_jokers() -> (d: Self)
        ensures
            d@ == full_deck_with_jokers(),
    {
        let mut deck: Vec<Card> = Vec::new();
        Self::push_suit_run(&mut deck, Suit::Clubs, 0);
        Self::push_suit_run(&mut deck, Suit::Diamonds, 0);
        Self::push_suit_run(&mut deck, Suit::Hearts, 0);
        Self::push_suit_run(&mut deck, Suit::Spades, 0);
        proof {
            assert(deck@ =~= full_deck_with_jokers());
        }
        Self { deck }
    }

    /// Appends one suit's cards, rank codes `lo` to 13 in order.
    fn push_suit_run(deck: &mut Vec<Card>, suit: Suit, lo: u8)
        requires
            lo <= 1,
        ensures
            final(deck)@ == old(deck)@ + suit_run(suit, lo as int),
    {
        let ghost orig = deck@;
        let mut code: u8 = lo;
        while code <= 13
            invariant
                lo <= code <= 14,
                deck@ == orig + suit_run(suit, lo as int).take(code - lo),
            decreases 14 - code,
        {
            let rank = Rank::from_code(code).unwrap();
            deck.push(Card { suit, rank });
            proof {
                assert(rank == rank_with_code(code as int));
                assert(suit_run(suit, lo as int).take(code + 1 - lo) =~= suit_run(
                    suit,
                    lo as int,
                ).take(code - lo).push(Card { suit, rank }));
            }
            code = code + 1;
        }
        proof {
            assert(suit_run(suit, lo as int).take(14 - lo) =~= suit_run(suit, lo as int));
        }
    }

    /// Relies on rand's `SliceRandom::shuffle` with `thread_rng`: it permutes
    /// the slice in place, so the deck afterwards holds the same cards, in
    /// some order.
    #[verifier::external_body]
    pub fn shuffle(&mut self)
        ensures
            final(self)@.to_multiset() == old(self)@.to_multiset(),
            final(self)@.len() == old(self)@.len(),
    {
        self.deck.shuffle(&mut rand::thread_rng());
    }

    /// Removes and returns the top card (the last element), `None` if empty.
    pub fn pop(&mut self) -> (r: Option<Card>)
        ensures
            old(self)@.len() > 0 ==> r == Some(old(self)@.last()) && final(self)@ == old(self)@.drop_last(),
            old(self)@.len() == 0 ==> r is None && final(self)@ == old(self)@,
    {
        self.deck.pop()
    }

    /// Removes and returns the bottom card (the first element), `None` if
    /// empty; used once per round, to reveal the trump card.
    pub fn pop_last(&mut self) -> (r: Option<Card>)
        ensures
            old(self)@.len() > 0 ==> r == Some(old(self)@.first()) && final(self)@ == old(self)@.drop_first(),
            old(self)@.len() == 0 ==> r is None && final(self)@ == old(self)@,
    {
        if self.deck.is_empty() {
            None
        } else {
            let card = self.deck.remove(0);
            proof {
                assert(self.deck@ =~= old(self)@.drop_first());
            }
            Some(card)
        }
    }

    /// The top card without removing it, `None` if empty.
    pub fn peek(&self) -> (r: Option<Card>)
        ensures
            self@.len() > 0 ==> r == Some(self@.last()),
            self@.len() == 0 ==> r is None,
    {
        if self.deck.len() == 0 {
            None
        } else {
            Some(self.deck[self.deck.len() - 1])
        }
    }

    /// The bottom card without removing it, `None` if empty.
    pub fn peek_last(&self) -> (r: Option<Card>)
        ensures
            self@.len() > 0 ==> r == Some(self@.first()),
            self@.len() == 0 ==> r is None,
    {
        if self.deck.len() == 0 {
            None
        } else {
            Some(self.deck[0])
        }
    }

    /// Appends a card to the top of the deck.
    pub fn push(&mut self, card: Card)
        ensures
            final(self)@ == old(self)@.push(card),
    {
        self.deck.push(card);
    }

    /// How many cards the deck holds.
    pub fn count(&self) -> (n: usize)
        ensures
            n == self@.len(),
    {
        self.deck.len()
    }
}

} // verus!
