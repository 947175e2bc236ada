use vstd::prelude::*;
use crate::deck::{Card, Deck, full_deck};
use vstd::multiset::Multiset;

verus! {

/// A player at the table: a stable identity and the hand of cards held.
/// The hand is unordered in meaning; positions matter only as temporary
/// indices for the engine's card-selection actions.
#[derive(Clone)]
pub struct Player {
    pub id: u8,
    pub cards: Vec<Card>,
}

/// The mathematical image of a `Player`.
#[verifier::ext_equal]
pub ghost struct PlayerV {
    pub id: u8,
    pub cards: Seq<Card>,
}

impl View for Player {
    type V = PlayerV;

    open spec fn view(&self) -> PlayerV {
        PlayerV { id: self.id, cards: self.cards@ }
    }
}

impl Player {
    pub fn new(id: u8) -> (p: Self)
        ensures
            p@ == (PlayerV { id, cards: Seq::<Card>::empty() }),
    {
        let p = Player { id, cards: Vec::new() };
        proof {
            assert(p@ =~= (PlayerV { id, cards: Seq::<Card>::empty() }));
        }
        p
    }

    /// A copy of the player's hand.
    pub fn hand(&self) -> (r: Vec<Card>)
        ensures
            r@ == self.cards@,
    {
        let mut r: Vec<Card> = Vec::new();
        let mut i: usize = 0;
        while i < self.cards.len()
            invariant
                i <= self.cards@.len(),
                r@ == self.cards@.take(i as int),
            decreases self.cards@.len() - i,
        {
            r.push(self.cards[i]);
            proof {
                assert(self.cards@.take(i + 1) =~= self.cards@.take(i as int).push(
                    self.cards@[i as int],
                ));
            }
            i = i + 1;
        }
        proof {
            assert(self.cards@.take(self.cards@.len() as int) =~= self.cards@);
        }
        r
    }

    /// Removes and returns the card at `index` in the hand; `None`, and no
    /// change, when `index` is out of range.
    pub fn pop_card(&mut self, index: usize) -> (r: Option<Card>)
        ensures
            index < old(self).cards@.len() ==> r == Some(old(self).cards@[index as int])
                && final(self)@ == (PlayerV {
                id: old(self)@.id,
                cards: old(self).cards@.remove(index as int),
            }),
            index >= old(self).cards@.len() ==> r is None && final(self)@ == old(self)@,
    {
        if index >= self.cards.len() {
            None
        } else {
            Some(self.cards.remove(index))
        }
    }

    /// The first position in the hand holding a card equal to `card`,
    /// or `None` when the hand holds no such card.
    pub fn card_index(&self, card: &Card) -> (r: Option<usize>)
        ensures
            match r {
                Some(i) => i < self.cards@.len() && self.cards@[i as int] == *card && (forall|j: int|
                    0 <= j < i ==> self.cards@[j] != *card),
                None => forall|j: int| 0 <= j < self.cards@.len() ==> self.cards@[j] != *card,
            },
    {
        let mut i: usize = 0;
        while i < self.cards.len()
            invariant
                i <= self.cards@.len(),
                forall|j: int| 0 <= j < i ==> self.cards@[j] != *card,
            decreases self.cards@.len() - i,
        {
            if self.cards[i] == *card {
                return Some(i);
            }
            i = i + 1;
        }
        None
    }
}

/// The sum of all hand sizes at the table.
pub open spec fn hands_total(players: Seq<PlayerV>) -> int
    decreases players.len(),
{
    if players.len() == 0 {
        0
    } else {
        players[0].cards.len() + hands_total(players.drop_first())
    }
}

/// How many players hold at least one card.
pub open spec fn count_with_cards(players: Seq<PlayerV>) -> int
    decreases players.len(),
{
    if players.len() == 0 {
        0
    } else {
        (if players[0].cards.len() > 0 {
            1int
        } else {
            0int
        }) + count_with_cards(players.drop_first())
    }
}

/// Replacing one player's entry changes the hand total by exactly the
/// difference of the two hand sizes.
pub proof fn lemma_hands_total_update(players: Seq<PlayerV>, i: int, p: PlayerV)
    requires
        0 <= i < players.len(),
    ensures
        hands_total(players.update(i, p)) == hands_total(players) - players[i].cards.len()
            + p.cards.len(),
    decreases players.len(),
{
    if i == 0 {
        assert(players.update(0, p).drop_first() =~= players.drop_first());
    } else {
        assert(players.update(i, p).drop_first() =~= players.drop_first().update(i - 1, p));
        lemma_hands_total_update(players.drop_first(), i - 1, p);
    }
}

/// The multiset of every card held in some hand at the table.
pub open spec fn hands_multiset(players: Seq<PlayerV>) -> Multiset<Card>
    decreases players.len(),
{
    if players.len() == 0 {
        Multiset::<Card>::empty()
    } else {
        players[0].cards.to_multiset().add(hands_multiset(players.drop_first()))
    }
}

/// With empty hands all around, the combined hand multiset is empty.
pub proof fn lemma_hands_multiset_empty(players: Seq<PlayerV>)
    requires
        forall|i: int| 0 <= i < players.len() ==> #[trigger] players[i].cards.len() == 0,
    ensures
        hands_multiset(players) =~= Multiset::<Card>::empty(),
    decreases players.len(),
{
    broadcast use vstd::multiset::group_multiset_axioms;
    broadcast use vstd::seq_lib::group_to_multiset_ensures;

    if players.len() > 0 {
        assert(players[0].cards.len() == 0);
        assert forall|x: Card| players[0].cards.to_multiset().count(x) == 0 by {
            assert(!players[0].cards.contains(x));
        }
        assert forall|i: int|
            0 <= i < players.drop_first().len() implies #[trigger] players.drop_first()[i].cards.len()
            == 0 by {
            assert(players[i + 1].cards.len() == 0);
        }
        lemma_hands_multiset_empty(players.drop_first());
    }
}

/// Replacing one player's entry exchanges exactly that hand's cards within
/// the combined hand multiset.
pub proof fn lemma_hands_multiset_update(players: Seq<PlayerV>, i: int, p: PlayerV)
    requires
        0 <= i < players.len(),
    ensures
        hands_multiset(players.update(i, p)).add(players[i].cards.to_multiset())
            =~= hands_multiset(players).add(p.cards.to_multiset()),
    decreases players.len(),
{
    broadcast use vstd::multiset::group_multiset_axioms;

    if i == 0 {
        assert(players.update(0, p).drop_first() =~= players.drop_first());
    } else {
        assert(players.update(i, p).drop_first() =~= players.drop_first().update(i - 1, p));
        lemma_hands_multiset_update(players.drop_first(), i - 1, p);
        assert(players.drop_first()[i - 1] == players[i]);
        assert forall|x: Card|
            hands_multiset(players.update(i, p)).add(players[i].cards.to_multiset()).count(x)
                == hands_multiset(players).add(p.cards.to_multiset()).count(x) by {
            assert(hands_multiset(players.drop_first().update(i - 1, p)).add(
                players.drop_first()[i - 1].cards.to_multiset(),
            ).count(x) == hands_multiset(players.drop_first()).add(
                p.cards.to_multiset(),
            ).count(x));
        }
    }
}

/// Extending a prefix of the seats by one adds exactly that seat's
/// contribution to the count of card-holding players.
pub proof fn lemma_count_take_step(players: Seq<PlayerV>, i: int)
    requires
        0 <= i < players.len(),
    ensures
        count_with_cards(players.take(i + 1)) == count_with_cards(players.take(i)) + (if players[i].cards.len()
            > 0 {
            1int
        } else {
            0int
        }),
    decreases i,
{
    if i == 0 {
        assert(players.take(1).drop_first() =~= players.take(0));
    } else {
        lemma_count_take_step(players.drop_first(), i - 1);
        assert(players.take(i + 1).drop_first() =~= players.drop_first().take(i));
        assert(players.take(i).drop_first() =~= players.drop_first().take(i - 1));
    }
}

/// When every hand holds `k` cards, the hand total is `k` per seat.
pub proof fn lemma_hands_total_uniform(players: Seq<PlayerV>, k: int)
    requires
        forall|i: int| 0 <= i < players.len() ==> #[trigger] players[i].cards.len() == k,
    ensures
        hands_total(players) == players.len() * k,
    decreases players.len(),
{
    if players.len() == 0 {
    } else {
        lemma_hands_total_uniform(players.drop_first(), k);
        assert(players.len() * k == (players.len() - 1) * k + k) by (nonlinear_arith);
    }
}

/// The shared table: the draw deck, the seated players, the cursor of the
/// player to act, and the turn and round counters.
#[derive(Clone)]
pub struct Table {
    pub deck: Deck,
    pub players: Vec<Player>,
    pub player_index: usize,
    pub turn: usize,
    pub round: usize,
}

/// The mathematical image of a `Table`.
#[verifier::ext_equal]
pub ghost struct TableV {
    pub deck: Seq<Card>,
    pub players: Seq<PlayerV>,
    pub player_index: int,
    pub turn: int,
    pub round: int,
}

impl View for Table {
    type V = TableV;

    open spec fn view(&self) -> TableV {
        TableV {
            deck: self.deck@,
            players: self.players@.map_values(|p: Player| p@),
            player_index: self.player_index as int,
            turn: self.turn as int,
            round: self.round as int,
        }
    }
}

impl Table {
    /// Seats `players` fresh players with empty hands behind a fresh
    /// unshuffled deck, with the cursor on the first seat.
    pub fn new(players: u8) -> (t: Self)
        ensures
            t@.deck == full_deck(),
            t@.players.len() == players as int,
            forall|i: int|
                0 <= i < players as int ==> t@.players[i] == (PlayerV {
                    id: i as u8,
                    cards: Seq::<Card>::empty(),
                }),
            t@.player_index == 0,
            t@.turn == 0,
            t@.round == 0,
    {
        let mut seated: Vec<Player> = Vec::new();
        let mut id: u8 = 0;
        while id < players
            invariant
                id <= players,
                seated@.len() == id as int,
                forall|i: int|
                    0 <= i < id as int ==> seated@[i]@ == (PlayerV {
                        id: i as u8,
                        cards: Seq::<Card>::empty(),
                    }),
            decreases players - id,
        {
            seated.push(Player::new(id));
            id = id + 1;
        }
        Table { players: seated, deck: Deck::new(), player_index: 0, turn: 0, round: 0 }
    }

    /// Replaces the deck with a fresh unshuffled one and empties every hand;
    /// counters and cursor are left as they are.
    pub fn reset(&mut self)
        ensures
            final(self)@.deck == full_deck(),
            final(self)@.players.len() == old(self)@.players.len(),
            forall|i: int|
                0 <= i < old(self)@.players.len() ==> final(self)@.players[i] == (PlayerV {
                    id: old(self)@.players[i].id,
                    cards: Seq::<Card>::empty(),
                }),
            final(self)@.player_index == old(self)@.player_index,
            final(self)@.turn == old(self)@.turn,
            final(self)@.round == old(self)@.round,
    {
        self.deck = Deck::new();
        let n = self.players.len();
        let mut i: usize = 0;
        while i < n
            invariant
                i <= n,
                n == self.players@.len(),
                forall|j: int|
                    0 <= j < i as int ==> self.players@[j]@ == (PlayerV {
                        id: old(self)@.players[j].id,
                        cards: Seq::<Card>::empty(),
                    }),
                forall|j: int| i as int <= j < n ==> self.players@[j]@ == old(self)@.players[j],
                self.deck@ == full_deck(),
                self.player_index == old(self).player_index,
                self.turn == old(self).turn,
                self.round == old(self).round,
            decreases n - i,
        {
            let id = self.players[i].id;
            self.players.set(i, Player { id, cards: Vec::new() });
            i = i + 1;
        }
    }

    /// The player at the cursor, `None` when the cursor is out of range.
    pub fn current_player(&self) -> (r: Option<&Player>)
        ensures
            match r {
                Some(p) => self@.player_index < self@.players.len() && p@ == self@.players[self@.player_index],
                None => self@.player_index >= self@.players.len(),
            },
    {
        if self.player_index < self.players.len() {
            Some(&self.players[self.player_index])
        } else {
            None
        }
    }

    /// Moves the cursor to `next_player_index` and counts the turn.
    pub fn next_turn(&mut self, next_player_index: usize)
        requires
            old(self).turn < usize::MAX,
        ensures
            final(self)@ == (TableV {
                player_index: next_player_index as int,
                turn: old(self)@.turn + 1,
                ..old(self)@
            }),
    {
        self.player_index = next_player_index;
        self.turn = self.turn + 1;
    }
}

} // verus!
