use vstd::prelude::*;
use std::cmp::Ordering;
use crate::deck::{Card, Rank, Suit};
use crate::table::{PlayerV, Table, TableV, count_with_cards, hands_multiset, hands_total, lemma_count_take_step, lemma_hands_multiset_empty, lemma_hands_multiset_update, lemma_hands_total_update, lemma_hands_total_uniform};
use vstd::multiset::Multiset;
use vstd::seq_lib::lemma_multiset_commutative;

verus! {

/// The phases of a game, exhaustively.
#[derive(Clone, Copy, PartialEq, Eq, Structural, Debug)]
pub enum State {
    Initial,
    PlayerAttacking,
    PlayerDefending,
    GameOver,
}

/// The discrete requests a player may dispatch through `player_action`.
#[derive(Clone, Copy, PartialEq, Eq, Structural, Debug)]
pub enum PlayerAction {
    AddCard,
    TakeCard,
    Submit,
    SwapTrumpCard,
}

/// The rule engine: the shared table, the revealed trump card, the two
/// in-play zones, the discard pile, and the phase of the game.
pub struct Moska {
    pub table: Table,
    pub trump_card: Card,
    pub attacker_cards: Vec<Card>,
    pub defender_cards: Vec<Card>,
    pub discarded: Vec<Card>,
    pub state: State,
}

/// The mathematical image of a `Moska` engine.
#[verifier::ext_equal]
pub ghost struct MoskaV {
    pub table: TableV,
    pub trump_card: Card,
    pub attacker_cards: Seq<Card>,
    pub defender_cards: Seq<Card>,
    pub discarded: Seq<Card>,
    pub state: State,
}

impl View for Moska {
    type V = MoskaV;

    open spec fn view(&self) -> MoskaV {
        MoskaV {
            table: self.table@,
            trump_card: self.trump_card,
            attacker_cards: self.attacker_cards@,
            defender_cards: self.defender_cards@,
            discarded: self.discarded@,
            state: self.state,
        }
    }
}

/// Where a rank stands in the Moska beating order: Two lowest, then Three
/// up to King, then Ace, and the Joker above everything. This is not the
/// numeric code order of `Rank::code`.
pub open spec fn rank_order(rank: Rank) -> int {
    match rank {
        Rank::Two => 0,
        Rank::Three => 1,
        Rank::Four => 2,
        Rank::Five => 3,
        Rank::Six => 4,
        Rank::Seven => 5,
        Rank::Eight => 6,
        Rank::Nine => 7,
        Rank::Ten => 8,
        Rank::Jack => 9,
        Rank::Queen => 10,
        Rank::King => 11,
        Rank::Ace => 12,
        Rank::Joker => 13,
    }
}

/// Where a rank stands in the Moska beating order.
pub fn card_rank_order(rank: Rank) -> (r: usize)
    ensures
        r == rank_order(rank),
{
    match rank {
        Rank::Two => 0,
        Rank::Three => 1,
        Rank::Four => 2,
        Rank::Five => 3,
        Rank::Six => 4,
        Rank::Seven => 5,
        Rank::Eight => 6,
        Rank::Nine => 7,
        Rank::Ten => 8,
        Rank::Jack => 9,
        Rank::Queen => 10,
        Rank::King => 11,
        Rank::Ace => 12,
        Rank::Joker => 13,
    }
}

/// Whether the defending card `def` defeats the attacking card `atk`:
/// with equal suits the higher beating order wins; with different suits
/// only a trump-suited defender wins.
pub open spec fn beats(atk: Card, def: Card, trump_suit: Suit) -> bool {
    if atk.suit == def.suit {
        rank_order(def.rank) > rank_order(atk.rank)
    } else {
        def.suit == trump_suit
    }
}

/// Whether `def` defeats `atk` under `trump_suit`; executable form of `beats`.
fn card_beats(atk: Card, def: Card, trump_suit: Suit) -> (r: bool)
    ensures
        r == beats(atk, def, trump_suit),
{
    if atk.suit == def.suit {
        card_rank_order(def.rank) > card_rank_order(atk.rank)
    } else {
        def.suit == trump_suit
    }
}

/// Comparison of two cards under a trump suit: within one suit the beating
/// order decides; across suits the second card wins exactly when it is a
/// trump. Equal cards compare as `Less`, as the beating order is strict.
pub open spec fn spec_card_cmp(a: Card, b: Card, trump_suit: Suit) -> Ordering {
    if a.suit == b.suit {
        if rank_order(a.rank) > rank_order(b.rank) {
            Ordering::Greater
        } else {
            Ordering::Less
        }
    } else if b.suit == trump_suit {
        Ordering::Greater
    } else {
        Ordering::Less
    }
}

/// Compares two cards under a trump suit; executable form of `spec_card_cmp`.
pub fn card_cmp(a: &Card, b: &Card, trump_suit: Suit) -> (r: Ordering)
    ensures
        r == spec_card_cmp(*a, *b, trump_suit),
{
    if a.suit == b.suit {
        if card_rank_order(a.rank) > card_rank_order(b.rank) {
            Ordering::Greater
        } else {
            Ordering::Less
        }
    } else if b.suit == trump_suit {
        Ordering::Greater
    } else {
        Ordering::Less
    }
}

/// `i`, wrapped once into `[0, n)`; the scan below only ever steps past
/// the end by less than a full lap.
pub open spec fn wrap_index(i: int, n: int) -> int {
    if i < n {
        i
    } else {
        i - n
    }
}

/// The seat the turn passes to, scanning from offset `k` after `start`:
/// the first seat in cyclic order holding cards, or `start` itself when
/// the scan comes back around empty-handed.
pub open spec fn next_from(players: Seq<PlayerV>, start: int, k: int) -> int
    decreases players.len() - k,
{
    let n = players.len() as int;
    if k >= n {
        start
    } else if players[wrap_index(start + k, n)].cards.len() > 0 {
        wrap_index(start + k, n)
    } else {
        next_from(players, start, k + 1)
    }
}

/// The scan lands on a valid seat.
pub proof fn lemma_next_from_in_range(players: Seq<PlayerV>, start: int, k: int)
    requires
        0 <= start < players.len(),
        1 <= k,
    ensures
        0 <= next_from(players, start, k) < players.len(),
    decreases players.len() - k,
{
    let n = players.len() as int;
    if k >= n {
    } else if players[wrap_index(start + k, n)].cards.len() > 0 {
    } else {
        lemma_next_from_in_range(players, start, k + 1);
    }
}

impl MoskaV {
    /// Well-formedness of the engine: at least one seated player, no more
    /// seats than the `u8` player count the table is built from, and the
    /// cursor on a valid seat.
    pub open spec fn wf(self) -> bool {
        &&& 1 <= self.table.players.len() <= 255
        &&& 0 <= self.table.player_index < self.table.players.len()
    }

    /// The suit of the revealed trump card.
    pub open spec fn trump_suit(self) -> Suit {
        self.trump_card.suit
    }

    /// The hand of the player at the cursor.
    pub open spec fn current_hand(self) -> Seq<Card> {
        self.table.players[self.table.player_index].cards
    }

    /// The seat the turn would pass to: the next seat in cyclic order
    /// holding cards, or the current seat when no other seat has any.
    pub open spec fn next_player(self) -> int {
        next_from(self.table.players, self.table.player_index, 1)
    }
}

/// Whether the card at position `i` has a rank mate: another card, at a
/// different position, of the same rank.
pub open spec fn has_mate(cards: Seq<Card>, i: int) -> bool {
    exists|j: int| 0 <= j < cards.len() && j != i && #[trigger] cards[j].rank == cards[i].rank
}

/// Every card in the zone has a rank mate. A zone of two or more cards is
/// a legal attack only when this holds, so no rank occurs exactly once.
pub open spec fn ranks_paired(cards: Seq<Card>) -> bool {
    forall|i: int| 0 <= i < cards.len() ==> #[trigger] has_mate(cards, i)
}

impl MoskaV {
    /// Legality of the attacker zone as an attack: non-empty, no larger
    /// than the hand of the seat that would have to defend it, and either
    /// a single card or made up entirely of rank-mated cards.
    pub open spec fn attack_valid(self) -> bool {
        let atk = self.attacker_cards;
        &&& atk.len() > 0
        &&& atk.len() <= self.table.players[self.next_player()].cards.len()
        &&& (atk.len() == 1 || ranks_paired(atk))
    }
}

/// Whether the attacking cards from position `i` on can each be assigned a
/// distinct defending card that defeats them, drawing only on defender
/// positions not yet marked in `used`.
pub open spec fn matching_from(
    atk: Seq<Card>,
    def: Seq<Card>,
    trump_suit: Suit,
    i: int,
    used: Seq<bool>,
) -> bool
    decreases atk.len() - i,
{
    if i >= atk.len() {
        true
    } else {
        exists|j: int|
            0 <= j < def.len() && !used[j] && #[trigger] beats(atk[i], def[j], trump_suit)
                && matching_from(atk, def, trump_suit, i + 1, used.update(j, true))
    }
}

/// A sequence of `n` cleared marks.
pub open spec fn none_used(n: nat) -> Seq<bool> {
    Seq::new(n, |j: int| false)
}

impl MoskaV {
    /// Legality of the defender zone as a defense: trivially true while no
    /// defending card has been played; otherwise the zones must have equal
    /// size and some assignment of distinct defending cards must defeat
    /// every attacking card.
    pub open spec fn defense_valid(self) -> bool {
        let atk = self.attacker_cards;
        let def = self.defender_cards;
        ||| def.len() == 0
        ||| (atk.len() == def.len() && matching_from(
            atk,
            def,
            self.trump_suit(),
            0,
            none_used(def.len()),
        ))
    }
}

impl MoskaV {
    /// The engine after both zones are moved onto the discard pile.
    pub open spec fn discard_spec(self) -> MoskaV {
        MoskaV {
            discarded: self.discarded + self.attacker_cards + self.defender_cards,
            attacker_cards: Seq::<Card>::empty(),
            defender_cards: Seq::<Card>::empty(),
            ..self
        }
    }

    /// How many cards the player at `seat` draws: up to a hand of six,
    /// while the deck lasts.
    pub open spec fn draw_count_at(self, seat: int) -> int {
        let hand = self.table.players[seat].cards.len() as int;
        let deck = self.table.deck.len() as int;
        if hand >= 6 {
            0
        } else if deck <= 6 - hand {
            deck
        } else {
            6 - hand
        }
    }

    /// The engine after the player at `seat` draws back up: the drawn cards
    /// leave the top of the deck and join the hand in drawing order.
    pub open spec fn draw_at_spec(self, seat: int) -> MoskaV {
        let k = self.draw_count_at(seat);
        let m = self.table.deck.len() as int;
        let pv = self.table.players[seat];
        let new_hand = pv.cards + self.table.deck.subrange(m - k, m).reverse();
        MoskaV {
            table: TableV {
                deck: self.table.deck.take(m - k),
                players: self.table.players.update(seat, PlayerV { id: pv.id, cards: new_hand }),
                ..self.table
            },
            ..self
        }
    }

    /// The engine after the player at the cursor draws back up.
    pub open spec fn draw_spec(self) -> MoskaV {
        self.draw_at_spec(self.table.player_index)
    }

    /// The engine after the attacker zone is withdrawn into the hand of the
    /// player at the cursor, in zone order.
    pub open spec fn withdraw_spec(self) -> MoskaV {
        let pv = self.table.players[self.table.player_index];
        MoskaV {
            table: TableV {
                players: self.table.players.update(
                    self.table.player_index,
                    PlayerV { id: pv.id, cards: pv.cards + self.attacker_cards },
                ),
                ..self.table
            },
            attacker_cards: Seq::<Card>::empty(),
            ..self
        }
    }

    /// The engine after the turn passes. With exactly one card-holding
    /// player left the game is over, and neither cursor nor turn counter
    /// moves; otherwise the cursor advances to the next card-holding seat,
    /// the turn counts up, and the phase becomes attacking or defending
    /// according to whether the attacker zone is empty.
    pub open spec fn next_turn_spec(self) -> MoskaV {
        if count_with_cards(self.table.players) == 1 {
            MoskaV { state: State::GameOver, ..self }
        } else {
            MoskaV {
                state: if self.attacker_cards.len() == 0 {
                    State::PlayerAttacking
                } else {
                    State::PlayerDefending
                },
                table: TableV {
                    player_index: self.next_player(),
                    turn: self.table.turn + 1,
                    ..self.table
                },
                ..self
            }
        }
    }

    /// The engine after the card at position `i` of the current hand and
    /// the trump card change places.
    pub open spec fn swap_trump_spec(self, i: int) -> MoskaV {
        let pv = self.table.players[self.table.player_index];
        MoskaV {
            trump_card: pv.cards[i],
            table: TableV {
                players: self.table.players.update(
                    self.table.player_index,
                    PlayerV { id: pv.id, cards: pv.cards.update(i, self.trump_card) },
                ),
                ..self.table
            },
            ..self
        }
    }
}

impl Moska {
    /// Moves both zones onto the discard pile.
    fn discard_table(&mut self)
        ensures
            final(self)@ == old(self)@.discard_spec(),
    {
        self.discarded.append(&mut self.attacker_cards);
        self.discarded.append(&mut self.defender_cards);
        proof {
            assert(self@ =~= old(self)@.discard_spec());
        }
    }

    /// Draws the player at `seat` back up to a hand of six, or until the
    /// deck runs out.
    fn draw_up(&mut self, seat: usize)
        requires
            old(self)@.wf(),
            seat < old(self)@.table.players.len(),
        ensures
            final(self)@ == old(self)@.draw_at_spec(seat as int),
            final(self)@.wf(),
    {
        let ghost pre = old(self)@;
        let ghost m0 = pre.table.deck.len() as int;
        let pi = seat;
        proof {
            assert(pre.table.players[pi as int].cards + pre.table.deck.subrange(m0, m0).reverse()
                =~= pre.table.players[pi as int].cards);
            assert(self@.table.players =~= pre.table.players.update(
                pi as int,
                PlayerV {
                    id: pre.table.players[pi as int].id,
                    cards: pre.table.players[pi as int].cards + pre.table.deck.subrange(
                        m0,
                        m0,
                    ).reverse(),
                },
            ));
        }
        while self.table.players[pi].cards.len() < 6 && self.table.deck.count() > 0
            invariant
                pre.wf(),
                pi < pre.table.players.len(),
                self@.table.players.len() == pre.table.players.len(),
                m0 == pre.table.deck.len(),
                self@.table.deck.len() <= m0,
                self@.table.deck == pre.table.deck.take(self@.table.deck.len() as int),
                m0 - self@.table.deck.len() <= pre.draw_count_at(pi as int),
                self@.table.players == pre.table.players.update(
                    pi as int,
                    PlayerV {
                        id: pre.table.players[pi as int].id,
                        cards: pre.table.players[pi as int].cards + pre.table.deck.subrange(
                            self@.table.deck.len() as int,
                            m0,
                        ).reverse(),
                    },
                ),
                self@.table.player_index == pre.table.player_index,
                self@.table.turn == pre.table.turn,
                self@.table.round == pre.table.round,
                self@.trump_card == pre.trump_card,
                self@.attacker_cards == pre.attacker_cards,
                self@.defender_cards == pre.defender_cards,
                self@.discarded == pre.discarded,
                self@.state == pre.state,
            decreases self@.table.deck.len(),
        {
            let ghost deck_before = self@.table.deck;
            let ghost players_before = self@.table.players;
            let ghost l = deck_before.len() as int;
            proof {
                assert(players_before[pi as int].cards.len() == pre.table.players[
                    pi as int
                ].cards.len() + (m0 - l));
                assert(pre.table.players[pi as int].cards.len() + (m0 - l) < 6);
                assert(m0 - (l - 1) <= pre.draw_count_at(pi as int));
            }
            let card_opt = self.table.deck.pop();
            if let Some(card) = card_opt {
                self.table.players[pi].cards.push(card);
                proof {
                    assert(card == pre.table.deck[l - 1]);
                    assert(self@.table.deck =~= pre.table.deck.take(l - 1));
                    assert(self@.table.players =~= players_before.update(
                        pi as int,
                        PlayerV {
                            id: players_before[pi as int].id,
                            cards: players_before[pi as int].cards.push(card),
                        },
                    ));
                    assert(pre.table.players[pi as int].cards + pre.table.deck.subrange(
                        l - 1,
                        m0,
                    ).reverse() =~= (pre.table.players[pi as int].cards + pre.table.deck.subrange(
                        l,
                        m0,
                    ).reverse()).push(card));
                    assert(self@.table.players =~= pre.table.players.update(
                        pi as int,
                        PlayerV {
                            id: pre.table.players[pi as int].id,
                            cards: pre.table.players[pi as int].cards + pre.table.deck.subrange(
                                l - 1,
                                m0,
                            ).reverse(),
                        },
                    ));
                }
            }
        }
        proof {
            let t = m0 - self@.table.deck.len();
            assert(self@.table.players[pi as int].cards.len() == pre.table.players[
                pi as int
            ].cards.len() + t);
            assert(t == pre.draw_count_at(pi as int)) by {
                if self@.table.players[pi as int].cards.len() >= 6 {
                } else {
                    assert(self@.table.deck.len() == 0);
                }
            }
            assert(self@ =~= pre.draw_at_spec(pi as int));
        }
    }

    /// Draws the player at the cursor back up to a hand of six, or until
    /// the deck runs out.
    fn draw_cards(&mut self)
        requires
            old(self)@.wf(),
        ensures
            final(self)@ == old(self)@.draw_spec(),
            final(self)@.wf(),
    {
        let seat = self.table.player_index;
        self.draw_up(seat);
    }

    /// Passes the turn: detects the end of the game, otherwise sets the
    /// phase from the attacker zone and moves the cursor to the next
    /// card-holding seat.
    pub fn next_turn(&mut self) -> (r: bool)
        requires
            old(self)@.wf(),
            old(self)@.table.turn < usize::MAX,
        ensures
            final(self)@ == old(self)@.next_turn_spec(),
            r,
            final(self)@.wf(),
    {
        let n = self.table.players.len();
        let mut count: usize = 0;
        let mut i: usize = 0;
        while i < n
            invariant
                i <= n,
                count <= i,
                n == self@.table.players.len(),
                self@ == old(self)@,
                count as int == count_with_cards(self@.table.players.take(i as int)),
            decreases n - i,
        {
            proof {
                lemma_count_take_step(self@.table.players, i as int);
            }
            if self.table.players[i].cards.len() > 0 {
                count = count + 1;
            }
            i = i + 1;
        }
        proof {
            assert(self@.table.players.take(n as int) =~= self@.table.players);
        }
        if count == 1 {
            self.state = State::GameOver;
            proof {
                assert(self@ =~= old(self)@.next_turn_spec());
            }
            return true;
        }
        if self.attacker_cards.len() == 0 {
            self.state = State::PlayerAttacking;
        } else {
            self.state = State::PlayerDefending;
        }
        let np = self.next_player();
        self.table.next_turn(np);
        proof {
            lemma_next_from_in_range(old(self)@.table.players, old(self)@.table.player_index, 1);
            assert(self@ =~= old(self)@.next_turn_spec());
        }
        true
    }

    /// Exchanges the card at `card_index` of the current player's hand with
    /// the trump card; with an out-of-range index nothing changes.
    pub fn swap_trumpcard(&mut self, card_index: usize) -> (r: bool)
        requires
            old(self)@.wf(),
        ensures
            card_index < old(self)@.current_hand().len() ==> r && final(self)@ == old(
                self,
            )@.swap_trump_spec(card_index as int),
            card_index >= old(self)@.current_hand().len() ==> !r && final(self)@ == old(self)@,
            final(self)@.wf(),
    {
        let pi = self.table.player_index;
        if card_index < self.table.players[pi].cards.len() {
            let card_copy = self.table.players[pi].cards[card_index];
            self.table.players[pi].cards.set(card_index, self.trump_card);
            self.trump_card = card_copy;
            proof {
                assert(self@ =~= old(self)@.swap_trump_spec(card_index as int));
            }
            true
        } else {
            false
        }
    }
}

/// The first position in `hand` at or after `k` holding a card equal to
/// `c`, or -1 when there is none.
pub open spec fn first_pos(hand: Seq<Card>, c: Card, k: int) -> int
    decreases hand.len() - k,
{
    if k < 0 || k >= hand.len() {
        -1
    } else if hand[k] == c {
        k
    } else {
        first_pos(hand, c, k + 1)
    }
}

/// `first_pos` lands on the first occurrence.
pub proof fn lemma_first_pos_found(hand: Seq<Card>, c: Card, k: int, i: int)
    requires
        0 <= k <= i < hand.len(),
        hand[i] == c,
        forall|j: int| k <= j < i ==> hand[j] != c,
    ensures
        first_pos(hand, c, k) == i,
    decreases i - k,
{
    if k < i {
        lemma_first_pos_found(hand, c, k + 1, i);
    }
}

/// `first_pos` reports absence exactly when the card occurs nowhere.
pub proof fn lemma_first_pos_absent(hand: Seq<Card>, c: Card, k: int)
    requires
        0 <= k <= hand.len(),
        forall|j: int| k <= j < hand.len() ==> hand[j] != c,
    ensures
        first_pos(hand, c, k) == -1,
    decreases hand.len() - k,
{
    if k < hand.len() {
        lemma_first_pos_absent(hand, c, k + 1);
    }
}

/// A found position is a real position: `first_pos` returns -1 or a
/// position in range holding the card.
pub proof fn lemma_first_pos_range(hand: Seq<Card>, c: Card, k: int)
    requires
        0 <= k,
    ensures
        first_pos(hand, c, k) == -1 || (k <= first_pos(hand, c, k) < hand.len() && hand[first_pos(
            hand,
            c,
            k,
        )] == c),
    decreases hand.len() - k,
{
    if k < hand.len() && hand[k] != c {
        lemma_first_pos_range(hand, c, k + 1);
    }
}

impl MoskaV {
    /// The position of the two of the trump suit in the current hand, or
    /// -1 when the hand holds no such card.
    pub open spec fn trump_two_pos(self) -> int {
        first_pos(self.current_hand(), Card { suit: self.trump_suit(), rank: Rank::Two }, 0)
    }

    /// The engine after the card at position `i` of the current hand is
    /// played onto the zone the phase selects: the attacker zone while
    /// attacking, the defender zone while defending.
    pub open spec fn place_card_spec(self, i: int) -> MoskaV {
        let pv = self.table.players[self.table.player_index];
        let card = pv.cards[i];
        let played = MoskaV {
            table: TableV {
                players: self.table.players.update(
                    self.table.player_index,
                    PlayerV { id: pv.id, cards: pv.cards.remove(i) },
                ),
                ..self.table
            },
            ..self
        };
        if self.state == State::PlayerAttacking {
            MoskaV { attacker_cards: self.attacker_cards.push(card), ..played }
        } else {
            MoskaV { defender_cards: self.defender_cards.push(card), ..played }
        }
    }

    /// The engine after the card at position `i` of the phase's own zone is
    /// reclaimed into the current player's hand.
    pub open spec fn take_card_spec(self, i: int) -> MoskaV {
        let pv = self.table.players[self.table.player_index];
        if self.state == State::PlayerAttacking {
            MoskaV {
                table: TableV {
                    players: self.table.players.update(
                        self.table.player_index,
                        PlayerV { id: pv.id, cards: pv.cards.push(self.attacker_cards[i]) },
                    ),
                    ..self.table
                },
                attacker_cards: self.attacker_cards.remove(i),
                ..self
            }
        } else {
            MoskaV {
                table: TableV {
                    players: self.table.players.update(
                        self.table.player_index,
                        PlayerV { id: pv.id, cards: pv.cards.push(self.defender_cards[i]) },
                    ),
                    ..self.table
                },
                defender_cards: self.defender_cards.remove(i),
                ..self
            }
        }
    }

    /// Every card in play: the deck, all hands, both zones, the discard
    /// pile, and the revealed trump card.
    pub open spec fn total_cards(self) -> int {
        self.table.deck.len() + hands_total(self.table.players) + self.attacker_cards.len()
            + self.defender_cards.len() + self.discarded.len() + 1
    }

    /// Whether the game is in a consistent, submittable position.
    pub open spec fn valid_spec(self) -> bool {
        match self.state {
            State::PlayerAttacking => self.attack_valid(),
            State::PlayerDefending => self.defense_valid(),
            State::GameOver => true,
            State::Initial => false,
        }
    }

    /// Whether a dispatched request has any effect on the game: the
    /// preconditions of the transition table, per action and phase.
    pub open spec fn action_ok(self, action: PlayerAction, i: int) -> bool {
        match action {
            PlayerAction::AddCard => (self.state == State::PlayerAttacking || self.state
                == State::PlayerDefending) && 0 <= i < self.current_hand().len(),
            PlayerAction::TakeCard => (self.state == State::PlayerAttacking && 0 <= i
                < self.attacker_cards.len()) || (self.state == State::PlayerDefending && 0 <= i
                < self.defender_cards.len()),
            PlayerAction::Submit => match self.state {
                State::PlayerAttacking => self.attack_valid(),
                State::PlayerDefending => self.defender_cards.len() == 0 || self.defense_valid(),
                _ => false,
            },
            PlayerAction::SwapTrumpCard => self.trump_two_pos() >= 0,
        }
    }

    /// The engine after a dispatched request: the transition table of the
    /// state machine, with rejected requests leaving the game unchanged.
    pub open spec fn action_spec(self, action: PlayerAction, i: int) -> MoskaV {
        if !self.action_ok(action, i) {
            self
        } else {
            match action {
                PlayerAction::AddCard => self.place_card_spec(i),
                PlayerAction::TakeCard => self.take_card_spec(i),
                PlayerAction::Submit => match self.state {
                    State::PlayerAttacking => self.draw_spec().next_turn_spec(),
                    State::PlayerDefending => if self.defender_cards.len() == 0 {
                        self.withdraw_spec().draw_spec().next_turn_spec()
                    } else {
                        let cleared = MoskaV {
                            state: State::PlayerAttacking,
                            ..self.discard_spec().draw_spec()
                        };
                        if cleared.current_hand().len() == 0 {
                            cleared.next_turn_spec()
                        } else {
                            cleared
                        }
                    },
                    _ => self,
                },
                PlayerAction::SwapTrumpCard => self.swap_trump_spec(self.trump_two_pos()),
            }
        }
    }
}

/// Backtracking search for an assignment of unused defending cards to the
/// attacking cards from position `i` on; `used` is restored on return.
fn match_search(
    atk: &Vec<Card>,
    def: &Vec<Card>,
    trump_suit: Suit,
    i: usize,
    used: &mut Vec<bool>,
) -> (r: bool)
    requires
        old(used)@.len() == def@.len(),
        i <= atk@.len(),
    ensures
        final(used)@ == old(used)@,
        r == matching_from(atk@, def@, trump_suit, i as int, old(used)@),
    decreases atk@.len() - i,
{
    if i >= atk.len() {
        return true;
    }
    let n_atk = atk.len();
    let mut j: usize = 0;
    while j < def.len()
        invariant
            j <= def@.len(),
            i < n_atk,
            n_atk == atk@.len(),
            used@ == old(used)@,
            used@.len() == def@.len(),
            forall|j2: int|
                0 <= j2 < j ==> !(!old(used)@[j2] && #[trigger] beats(
                    atk@[i as int],
                    def@[j2],
                    trump_suit,
                ) && matching_from(atk@, def@, trump_suit, i + 1, old(used)@.update(j2, true))),
        decreases def@.len() - j,
    {
        if !used[j] && card_beats(atk[i], def[j], trump_suit) {
            used.set(j, true);
            proof {
                assert(used@ =~= old(used)@.update(j as int, true));
            }
            let found = match_search(atk, def, trump_suit, i + 1, used);
            used.set(j, false);
            proof {
                assert(used@ =~= old(used)@);
            }
            if found {
                proof {
                    assert(0 <= j < def@.len() && !old(used)@[j as int] && beats(
                        atk@[i as int],
                        def@[j as int],
                        trump_suit,
                    ) && matching_from(
                        atk@,
                        def@,
                        trump_suit,
                        i + 1,
                        old(used)@.update(j as int, true),
                    ));
                }
                return true;
            }
        }
        j = j + 1;
    }
    proof {
        assert(!matching_from(atk@, def@, trump_suit, i as int, old(used)@)) by {
            if matching_from(atk@, def@, trump_suit, i as int, old(used)@) {
                let jj = choose|j: int|
                    0 <= j < def@.len() && !old(used)@[j] && #[trigger] beats(
                        atk@[i as int],
                        def@[j],
                        trump_suit,
                    ) && matching_from(atk@, def@, trump_suit, i + 1, old(used)@.update(j, true));
                assert(false);
            }
        }
    }
    false
}

impl Moska {
    /// Legality of the defender zone as a defense; executable form of
    /// `MoskaV::defense_valid`. The search over assignments is exhaustive,
    /// so the result agrees exactly with a brute-force search over all
    /// permutations of the defender zone.
    pub fn eval_defense(&self) -> (r: bool)
        ensures
            r == self@.defense_valid(),
    {
        if self.defender_cards.len() == 0 {
            return true;
        }
        if self.attacker_cards.len() != self.defender_cards.len() {
            return false;
        }
        let mut used: Vec<bool> = Vec::new();
        let mut j: usize = 0;
        while j < self.defender_cards.len()
            invariant
                j <= self@.defender_cards.len(),
                used@ == none_used(j as nat),
            decreases self@.defender_cards.len() - j,
        {
            used.push(false);
            proof {
                assert(used@ =~= none_used((j + 1) as nat));
            }
            j = j + 1;
        }
        match_search(&self.attacker_cards, &self.defender_cards, self.trump_card.suit, 0, &mut used)
    }
}

impl Moska {
    /// Whether the defending card `def` defeats the attacking card `atk`
    /// under the current trump suit.
    pub fn resolve_pair(&self, atk: &Card, def: &Card) -> (r: bool)
        ensures
            r == beats(*atk, *def, self@.trump_suit()),
    {
        card_beats(*atk, *def, self.trump_card.suit)
    }

    /// Legality of the attacker zone as an attack; executable form of
    /// `MoskaV::attack_valid`.
    pub fn eval_attack(&self) -> (r: bool)
        requires
            self@.wf(),
        ensures
            r == self@.attack_valid(),
    {
        let n = self.attacker_cards.len();
        if n == 0 {
            return false;
        }
        let next = self.next_player();
        if n > self.table.players[next].cards.len() {
            return false;
        }
        if n == 1 {
            return true;
        }
        let mut i: usize = 0;
        while i < n
            invariant
                i <= n,
                2 <= n,
                n == self@.attacker_cards.len(),
                n <= self@.table.players[self@.next_player()].cards.len(),
                forall|i2: int| 0 <= i2 < i ==> #[trigger] has_mate(self@.attacker_cards, i2),
            decreases n - i,
        {
            let mut found = false;
            let mut j: usize = 0;
            while j < n
                invariant
                    j <= n,
                    i < n,
                    n == self@.attacker_cards.len(),
                    found <==> exists|j2: int|
                        0 <= j2 < j && j2 != i as int && #[trigger] self@.attacker_cards[j2].rank
                            == self@.attacker_cards[i as int].rank,
                decreases n - j,
            {
                if j != i && self.attacker_cards[j].rank == self.attacker_cards[i].rank {
                    found = true;
                }
                j = j + 1;
            }
            proof {
                let atk = self@.attacker_cards;
                if found {
                    let jj = choose|j2: int|
                        0 <= j2 < n && j2 != i as int && #[trigger] atk[j2].rank == atk[i as int].rank;
                    assert(has_mate(atk, i as int));
                } else {
                    assert(!has_mate(atk, i as int)) by {
                        if has_mate(atk, i as int) {
                            let jj = choose|j2: int|
                                0 <= j2 < atk.len() && j2 != i as int && #[trigger] atk[j2].rank
                                    == atk[i as int].rank;
                            assert(0 <= jj < n && jj != i as int && atk[jj].rank == atk[
                                i as int
                            ].rank);
                        }
                    }
                }
            }
            if !found {
                proof {
                    assert(!ranks_paired(self@.attacker_cards));
                }
                return false;
            }
            i = i + 1;
        }
        proof {
            assert(ranks_paired(self@.attacker_cards));
        }
        true
    }

    /// The seat the turn would pass to; executable form of
    /// `MoskaV::next_player`.
    pub fn next_player(&self) -> (r: usize)
        requires
            self@.wf(),
        ensures
            r as int == self@.next_player(),
            r < self.table.players.len(),
    {
        let num_players = self.table.players.len();
        let start = self.table.player_index;
        let mut k: usize = 1;
        while k < num_players
            invariant
                1 <= k <= num_players,
                num_players == self@.table.players.len(),
                self@.wf(),
                start == self@.table.player_index,
                next_from(self@.table.players, start as int, 1) == next_from(
                    self@.table.players,
                    start as int,
                    k as int,
                ),
            decreases num_players - k,
        {
            let idx = if start + k < num_players {
                start + k
            } else {
                start + k - num_players
            };
            if self.table.players[idx].cards.len() > 0 {
                proof {
                    lemma_next_from_in_range(self@.table.players, start as int, 1);
                }
                return idx;
            }
            k = k + 1;
        }
        start
    }
}

impl Moska {
    /// A fresh engine for `players` players: an unshuffled table, a
    /// placeholder two of hearts in the trump slot, empty zones, and the
    /// `Initial` phase. `new_round` must run before play starts.
    pub fn new(players: u8) -> (m: Self)
        requires
            players >= 1,
        ensures
            m@.wf(),
            m@.table.deck == crate::deck::full_deck(),
            m@.table.players.len() == players as int,
            forall|i: int|
                0 <= i < players as int ==> m@.table.players[i] == (PlayerV {
                    id: i as u8,
                    cards: Seq::<Card>::empty(),
                }),
            m@.table.player_index == 0,
            m@.table.turn == 0,
            m@.table.round == 0,
            m@.trump_card == (Card { suit: Suit::Hearts, rank: Rank::Two }),
            m@.attacker_cards == Seq::<Card>::empty(),
            m@.defender_cards == Seq::<Card>::empty(),
            m@.discarded == Seq::<Card>::empty(),
            m@.state == State::Initial,
    {
        let m = Self {
            table: Table::new(players),
            trump_card: Card::new(Suit::Hearts, Rank::Two),
            attacker_cards: Vec::new(),
            defender_cards: Vec::new(),
            discarded: Vec::new(),
            state: State::Initial,
        };
        proof {
            assert(m@.attacker_cards =~= Seq::<Card>::empty());
            assert(m@.defender_cards =~= Seq::<Card>::empty());
            assert(m@.discarded =~= Seq::<Card>::empty());
        }
        m
    }

    /// Clears the table for a fresh deal: a new shuffled deck, empty hands
    /// and zones, an empty discard pile, and the `Initial` phase. Counters
    /// and cursor stay.
    fn reset(&mut self)
        requires
            old(self)@.wf(),
        ensures
            final(self)@.wf(),
            final(self)@.table.deck.to_multiset() == crate::deck::full_deck().to_multiset(),
            final(self)@.table.deck.len() == 52,
            final(self)@.table.players.len() == old(self)@.table.players.len(),
            forall|i: int|
                0 <= i < old(self)@.table.players.len() ==> final(self)@.table.players[i]
                    == (PlayerV {
                    id: old(self)@.table.players[i].id,
                    cards: Seq::<Card>::empty(),
                }),
            final(self)@.table.player_index == old(self)@.table.player_index,
            final(self)@.table.turn == old(self)@.table.turn,
            final(self)@.table.round == old(self)@.table.round,
            final(self)@.trump_card == old(self)@.trump_card,
            final(self)@.attacker_cards == Seq::<Card>::empty(),
            final(self)@.defender_cards == Seq::<Card>::empty(),
            final(self)@.discarded == Seq::<Card>::empty(),
            final(self)@.state == State::Initial,
    {
        self.table.reset();
        self.attacker_cards.clear();
        self.defender_cards.clear();
        self.discarded.clear();
        proof {
            assert(crate::deck::full_deck().len() == 52);
            assert(self@.attacker_cards =~= Seq::<Card>::empty());
            assert(self@.defender_cards =~= Seq::<Card>::empty());
            assert(self@.discarded =~= Seq::<Card>::empty());
        }
        self.table.deck.shuffle();
        self.state = State::Initial;
    }

    /// Deals a fresh round: resets and shuffles, gives every player six
    /// cards off the top of the deck in seat order, and reveals the trump
    /// card from the bottom of what remains.
    fn setup(&mut self)
        requires
            old(self)@.wf(),
            old(self)@.table.players.len() * 6 < 52,
        ensures
            final(self)@.wf(),
            final(self)@.table.players.len() == old(self)@.table.players.len(),
            forall|i: int|
                0 <= i < old(self)@.table.players.len() ==> final(self)@.table.players[i].id == old(
                    self,
                )@.table.players[i].id,
            forall|i: int|
                0 <= i < old(self)@.table.players.len()
                    ==> #[trigger] final(self)@.table.players[i].cards.len() == 6,
            final(self)@.table.deck.len() == 52 - 6 * old(self)@.table.players.len() - 1,
            final(self)@.table.player_index == old(self)@.table.player_index,
            final(self)@.table.turn == old(self)@.table.turn,
            final(self)@.table.round == old(self)@.table.round,
            final(self)@.attacker_cards == Seq::<Card>::empty(),
            final(self)@.defender_cards == Seq::<Card>::empty(),
            final(self)@.discarded == Seq::<Card>::empty(),
            final(self)@.state == State::Initial,
            final(self)@.table.deck.to_multiset().add(
                hands_multiset(final(self)@.table.players),
            ).insert(final(self)@.trump_card) == crate::deck::full_deck().to_multiset(),
    {
        self.reset();
        let ghost base = self@;
        proof {
            lemma_hands_multiset_empty(base.table.players);
        }
        let n = self.table.players.len();
        let mut p: usize = 0;
        while p < n
            invariant
                p <= n,
                n == self@.table.players.len(),
                n == base.table.players.len(),
                n * 6 < 52,
                base.wf(),
                base.table.deck.len() == 52,
                forall|i: int|
                    0 <= i < n as int ==> #[trigger] base.table.players[i].cards.len() == 0,
                self@.wf(),
                self@.table.deck.len() == 52 - 6 * p,
                forall|i: int|
                    0 <= i < p as int ==> #[trigger] self@.table.players[i].cards.len() == 6
                        && self@.table.players[i].id == base.table.players[i].id,
                forall|i: int|
                    p as int <= i < n as int ==> #[trigger] self@.table.players[i]
                        == base.table.players[i],
                self@.table.player_index == base.table.player_index,
                self@.table.turn == base.table.turn,
                self@.table.round == base.table.round,
                self@.trump_card == base.trump_card,
                self@.attacker_cards == base.attacker_cards,
                self@.defender_cards == base.defender_cards,
                self@.discarded == base.discarded,
                self@.state == base.state,
                self@.table.deck.to_multiset().add(hands_multiset(self@.table.players))
                    == base.table.deck.to_multiset().add(hands_multiset(base.table.players)),
            decreases n - p,
        {
            let ghost before = self@;
            proof {
                assert(self@.table.players[p as int] == base.table.players[p as int]);
                assert(before.draw_count_at(p as int) == 6);
            }
            self.draw_up(p);
            proof {
                lemma_draw_deck_hands(before, p as int);
                assert(self@.table.players[p as int].cards.len() == 6);
                assert forall|i: int| 0 <= i < n as int && i != p as int
                    implies #[trigger] self@.table.players[i] == before.table.players[i] by {
                    assert(self@.table.players == before.table.players.update(
                        p as int,
                        self@.table.players[p as int],
                    ));
                }
            }
            p = p + 1;
        }
        let ghost dealt = self@;
        let trump_opt = self.table.deck.pop_last();
        if let Some(trump) = trump_opt {
            self.trump_card = trump;
        }
        proof {
            assert forall|i: int| 0 <= i < old(self)@.table.players.len() implies self@.table.players[i].id
                == old(self)@.table.players[i].id by {
                assert(self@.table.players[i].cards.len() == 6);
                assert(base.table.players[i] == (PlayerV {
                    id: old(self)@.table.players[i].id,
                    cards: Seq::<Card>::empty(),
                }));
            }
            broadcast use vstd::multiset::group_multiset_axioms;
            broadcast use vstd::seq_lib::group_to_multiset_ensures;

            assert(dealt.table.deck.remove(0) =~= dealt.table.deck.drop_first());
            assert(dealt.table.deck.contains(self@.trump_card)) by {
                assert(dealt.table.deck[0] == self@.trump_card);
            }
            assert forall|x: Card|
                self@.table.deck.to_multiset().add(hands_multiset(self@.table.players)).insert(
                    self@.trump_card,
                ).count(x) == crate::deck::full_deck().to_multiset().count(x) by {
                assert(dealt.table.deck.remove(0).to_multiset() == dealt.table.deck.to_multiset().remove(
                    dealt.table.deck[0],
                ));
                assert(dealt.table.deck.to_multiset().count(self@.trump_card) > 0);
                assert(dealt.table.deck.to_multiset().add(
                    hands_multiset(dealt.table.players),
                ).count(x) == base.table.deck.to_multiset().add(
                    hands_multiset(base.table.players),
                ).count(x));
                assert(hands_multiset(base.table.players).count(x) == 0);
            }
            assert(self@.table.deck.to_multiset().add(hands_multiset(self@.table.players)).insert(
                self@.trump_card,
            ) =~= crate::deck::full_deck().to_multiset());
        }
    }

    /// Starts a new round: counts the round, deals fresh hands of six,
    /// reveals the trump card and opens play with the current player
    /// attacking.
    pub fn new_round(&mut self)
        requires
            old(self)@.wf(),
            old(self)@.table.round < usize::MAX,
            old(self)@.table.players.len() * 6 < 52,
        ensures
            final(self)@.wf(),
            final(self)@.table.players.len() == old(self)@.table.players.len(),
            forall|i: int|
                0 <= i < old(self)@.table.players.len() ==> final(self)@.table.players[i].id == old(
                    self,
                )@.table.players[i].id,
            forall|i: int|
                0 <= i < old(self)@.table.players.len()
                    ==> #[trigger] final(self)@.table.players[i].cards.len() == 6,
            final(self)@.table.deck.len() == 52 - 6 * old(self)@.table.players.len() - 1,
            final(self)@.table.player_index == old(self)@.table.player_index,
            final(self)@.table.turn == old(self)@.table.turn,
            final(self)@.table.round == old(self)@.table.round + 1,
            final(self)@.attacker_cards == Seq::<Card>::empty(),
            final(self)@.defender_cards == Seq::<Card>::empty(),
            final(self)@.discarded == Seq::<Card>::empty(),
            final(self)@.state == State::PlayerAttacking,
            final(self)@.total_cards() == 52,
            final(self)@.table.deck.to_multiset().add(
                hands_multiset(final(self)@.table.players),
            ).insert(final(self)@.trump_card) == crate::deck::full_deck().to_multiset(),
    {
        self.table.round = self.table.round + 1;
        self.setup();
        self.state = State::PlayerAttacking;
        proof {
            lemma_hands_total_uniform(self@.table.players, 6);
        }
    }

    /// Whether the game is in a consistent, submittable position: a legal
    /// attack while attacking, a legal defense while defending, trivially
    /// true once the game is over, and false before the first round.
    pub fn valid(&self) -> (r: bool)
        requires
            self@.wf(),
        ensures
            r == self@.valid_spec(),
    {
        match self.state {
            State::PlayerAttacking => self.eval_attack(),
            State::PlayerDefending => self.eval_defense(),
            State::GameOver => true,
            State::Initial => false,
        }
    }

    /// A copy of the cards a player holds; empty for an out-of-range seat.
    pub fn player_cards(&self, player_index: usize) -> (r: Vec<Card>)
        ensures
            r@ == if (player_index as int) < self@.table.players.len() {
                self@.table.players[player_index as int].cards
            } else {
                Seq::<Card>::empty()
            },
    {
        if player_index < self.table.players.len() {
            self.table.players[player_index].hand()
        } else {
            let r: Vec<Card> = Vec::new();
            proof {
                assert(r@ =~= Seq::<Card>::empty());
            }
            r
        }
    }

    /// Dispatches one player request onto the engine and reports whether it
    /// had any effect; rejected requests leave the game unchanged.
    pub fn player_action(&mut self, action: PlayerAction, card_index: usize) -> (r: bool)
        requires
            old(self)@.wf(),
            old(self)@.table.turn < usize::MAX,
        ensures
            final(self)@ == old(self)@.action_spec(action, card_index as int),
            r == old(self)@.action_ok(action, card_index as int),
            final(self)@.wf(),
    {
        match action {
            PlayerAction::AddCard => {
                match self.state {
                    State::PlayerAttacking | State::PlayerDefending => {},
                    _ => {
                        return false;
                    },
                }
                let pi = self.table.player_index;
                if card_index >= self.table.players[pi].cards.len() {
                    return false;
                }
                let card = self.table.players[pi].cards.remove(card_index);
                match self.state {
                    State::PlayerAttacking => self.attacker_cards.push(card),
                    _ => self.defender_cards.push(card),
                }
                proof {
                    assert(self@ =~= old(self)@.place_card_spec(card_index as int));
                }
                true
            },
            PlayerAction::TakeCard => {
                match self.state {
                    State::PlayerAttacking => {
                        if card_index >= self.attacker_cards.len() {
                            return false;
                        }
                        let card = self.attacker_cards.remove(card_index);
                        let pi = self.table.player_index;
                        self.table.players[pi].cards.push(card);
                        proof {
                            assert(self@ =~= old(self)@.take_card_spec(card_index as int));
                        }
                        true
                    },
                    State::PlayerDefending => {
                        if card_index >= self.defender_cards.len() {
                            return false;
                        }
                        let card = self.defender_cards.remove(card_index);
                        let pi = self.table.player_index;
                        self.table.players[pi].cards.push(card);
                        proof {
                            assert(self@ =~= old(self)@.take_card_spec(card_index as int));
                        }
                        true
                    },
                    _ => false,
                }
            },
            PlayerAction::Submit => {
                match self.state {
                    State::PlayerAttacking => {
                        if self.eval_attack() {
                            self.draw_cards();
                            self.next_turn();
                            true
                        } else {
                            false
                        }
                    },
                    State::PlayerDefending => {
                        if self.defender_cards.len() == 0 {
                            // Forced withdrawal: the attacker zone joins the
                            // defending player's hand before the turn passes.
                            let pi = self.table.player_index;
                            self.table.players[pi].cards.append(&mut self.attacker_cards);
                            proof {
                                assert(self@ =~= old(self)@.withdraw_spec());
                            }
                            self.draw_cards();
                            self.next_turn();
                            true
                        } else if self.eval_defense() {
                            self.discard_table();
                            self.draw_cards();
                            self.state = State::PlayerAttacking;
                            let pi = self.table.player_index;
                            if self.table.players[pi].cards.len() == 0 {
                                self.next_turn();
                            }
                            true
                        } else {
                            false
                        }
                    },
                    _ => false,
                }
            },
            PlayerAction::SwapTrumpCard => {
                let pi = self.table.player_index;
                let target = Card { suit: self.trump_card.suit, rank: Rank::Two };
                let found = self.table.players[pi].card_index(&target);
                match found {
                    Some(i) => {
                        proof {
                            lemma_first_pos_found(old(self)@.current_hand(), target, 0, i as int);
                        }
                        self.swap_trumpcard(i)
                    },
                    None => {
                        proof {
                            lemma_first_pos_absent(old(self)@.current_hand(), target, 0);
                        }
                        false
                    },
                }
            },
        }
    }
}

/// The cards of `cards` whose rank is `r`, in their original order.
pub open spec fn cards_of_rank(cards: Seq<Card>, r: Rank) -> Seq<Card>
    decreases cards.len(),
{
    if cards.len() == 0 {
        Seq::<Card>::empty()
    } else if cards.last().rank == r {
        cards_of_rank(cards.drop_last(), r).push(cards.last())
    } else {
        cards_of_rank(cards.drop_last(), r)
    }
}

/// The rank groups of size two or more among the first `i` cards' ranks:
/// one group per rank, ordered by the rank's first appearance, each group
/// listing all its cards in original order.
pub open spec fn pair_groups_upto(cards: Seq<Card>, i: int) -> Seq<Seq<Card>>
    decreases i,
{
    if i <= 0 {
        Seq::<Seq<Card>>::empty()
    } else {
        let prev = pair_groups_upto(cards, i - 1);
        let r = cards[i - 1].rank;
        if (exists|j: int| 0 <= j < i - 1 && #[trigger] cards[j].rank == r) || cards_of_rank(
            cards,
            r,
        ).len() < 2 {
            prev
        } else {
            prev.push(cards_of_rank(cards, r))
        }
    }
}

/// All rank groups of size two or more, in first-appearance order.
pub open spec fn pair_groups(cards: Seq<Card>) -> Seq<Seq<Card>> {
    pair_groups_upto(cards, cards.len() as int)
}

/// Groups the cards by rank and returns every group of two or more cards,
/// in order of each rank's first appearance.
pub fn find_pairs(cards: &Vec<Card>) -> (r: Vec<Vec<Card>>)
    ensures
        r@.map_values(|g: Vec<Card>| g@) == pair_groups(cards@),
{
    let mut groups: Vec<Vec<Card>> = Vec::new();
    let n = cards.len();
    proof {
        assert(groups@.map_values(|g: Vec<Card>| g@) =~= pair_groups_upto(cards@, 0));
    }
    let mut i: usize = 0;
    while i < n
        invariant
            i <= n,
            n == cards@.len(),
            groups@.map_values(|g: Vec<Card>| g@) == pair_groups_upto(cards@, i as int),
        decreases n - i,
    {
        let mut seen = false;
        let mut j: usize = 0;
        while j < i
            invariant
                j <= i,
                i < n,
                n == cards@.len(),
                seen <==> exists|j2: int|
                    0 <= j2 < j && #[trigger] cards@[j2].rank == cards@[i as int].rank,
            decreases i - j,
        {
            if cards[j].rank == cards[i].rank {
                seen = true;
            }
            j = j + 1;
        }
        if !seen {
            let mut group: Vec<Card> = Vec::new();
            proof {
                assert(group@ =~= cards_of_rank(cards@.take(0), cards@[i as int].rank));
            }
            let mut k: usize = 0;
            while k < n
                invariant
                    k <= n,
                    i < n,
                    n == cards@.len(),
                    group@ == cards_of_rank(cards@.take(k as int), cards@[i as int].rank),
                decreases n - k,
            {
                proof {
                    assert(cards@.take(k + 1).drop_last() =~= cards@.take(k as int));
                    assert(cards@.take(k + 1).last() == cards@[k as int]);
                }
                if cards[k].rank == cards[i].rank {
                    group.push(cards[k]);
                }
                k = k + 1;
            }
            proof {
                assert(cards@.take(n as int) =~= cards@);
            }
            if group.len() >= 2 {
                groups.push(group);
                proof {
                    assert(groups@.map_values(|g: Vec<Card>| g@) =~= pair_groups_upto(
                        cards@,
                        i + 1,
                    ));
                }
            } else {
                proof {
                    assert(groups@.map_values(|g: Vec<Card>| g@) =~= pair_groups_upto(
                        cards@,
                        i + 1,
                    ));
                }
            }
        } else {
            proof {
                assert(groups@.map_values(|g: Vec<Card>| g@) =~= pair_groups_upto(cards@, i + 1));
            }
        }
        i = i + 1;
    }
    groups
}

// ---------------------------------------------------------------------------
// Laws of the rule engine.
// ---------------------------------------------------------------------------

/// Trump dominance: a defending card of the trump suit defeats any
/// attacking card of a different, non-trump suit, whatever the ranks.
pub proof fn lemma_trump_dominance(atk: Card, def: Card, trump_suit: Suit)
    requires
        def.suit == trump_suit,
        atk.suit != trump_suit,
    ensures
        beats(atk, def, trump_suit),
{
}

/// An attacker zone of a single card, within the defender's capacity, is
/// always a legal attack.
pub proof fn lemma_attack_single_card(m: MoskaV)
    requires
        m.attacker_cards.len() == 1,
        m.table.players[m.next_player()].cards.len() >= 1,
    ensures
        m.attack_valid(),
{
}

/// An attacker zone of two or more cards among which the rank at position
/// `i` occurs exactly once is never a legal attack.
pub proof fn lemma_attack_orphan_rank(m: MoskaV, i: int)
    requires
        m.attacker_cards.len() >= 2,
        0 <= i < m.attacker_cards.len(),
        forall|j: int|
            0 <= j < m.attacker_cards.len() && j != i ==> m.attacker_cards[j].rank
                != m.attacker_cards[i].rank,
    ensures
        !m.attack_valid(),
{
    let atk = m.attacker_cards;
    assert(!has_mate(atk, i)) by {
        if has_mate(atk, i) {
            let j = choose|j: int|
                0 <= j < atk.len() && j != i && #[trigger] atk[j].rank == atk[i].rank;
        }
    }
    assert(!ranks_paired(atk));
}

/// The scan either finds a seat with cards or falls back to where it
/// started.
pub proof fn lemma_next_from_hit_or_start(players: Seq<PlayerV>, start: int, k: int)
    requires
        0 <= start < players.len(),
        1 <= k,
    ensures
        next_from(players, start, k) == start || players[next_from(players, start, k)].cards.len()
            > 0,
    decreases players.len() - k,
{
    let n = players.len() as int;
    if k >= n {
    } else if players[wrap_index(start + k, n)].cards.len() > 0 {
    } else {
        lemma_next_from_hit_or_start(players, start, k + 1);
    }
}

/// When some seat ahead in the scan holds cards, the scan lands on a seat
/// holding cards.
pub proof fn lemma_next_from_finds(players: Seq<PlayerV>, start: int, k: int, kstar: int)
    requires
        0 <= start < players.len(),
        1 <= k <= kstar,
        kstar <= players.len() - 1,
        players[wrap_index(start + kstar, players.len() as int)].cards.len() > 0,
    ensures
        players[next_from(players, start, k)].cards.len() > 0,
    decreases kstar - k,
{
    let n = players.len() as int;
    if players[wrap_index(start + k, n)].cards.len() > 0 {
    } else {
        lemma_next_from_finds(players, start, k + 1, kstar);
    }
}

/// Elimination: when exactly one player still holds cards, passing the
/// turn ends the game. The state becomes `GameOver`, the cursor and the
/// turn counter stay where they are, and the scan target is the lone
/// card-holding seat.
pub proof fn lemma_lone_player_game_over(m: MoskaV, lone: int)
    requires
        m.wf(),
        count_with_cards(m.table.players) == 1,
        0 <= lone < m.table.players.len(),
        m.table.players[lone].cards.len() > 0,
        forall|j: int|
            0 <= j < m.table.players.len() && j != lone ==> #[trigger] m.table.players[j].cards.len()
                == 0,
    ensures
        m.next_turn_spec().state == State::GameOver,
        m.next_turn_spec().table.player_index == m.table.player_index,
        m.next_turn_spec().table.turn == m.table.turn,
        m.next_player() == lone,
{
    let players = m.table.players;
    let n = players.len() as int;
    let start = m.table.player_index;
    lemma_next_from_in_range(players, start, 1);
    lemma_next_from_hit_or_start(players, start, 1);
    let r = next_from(players, start, 1);
    if lone == start {
        if players[r].cards.len() > 0 {
            assert(r == lone);
        } else {
            assert(r == start);
        }
    } else {
        let kstar = if lone > start {
            lone - start
        } else {
            lone - start + n
        };
        assert(wrap_index(start + kstar, n) == lone);
        lemma_next_from_finds(players, start, 1, kstar);
        assert(r == lone);
    }
}

/// `n` distinct positions drawn from `[0, n)`: an arrangement that pairs
/// every attacking position with its own defender position.
pub open spec fn is_index_permutation(p: Seq<int>, n: int) -> bool {
    &&& p.len() == n
    &&& forall|k: int| 0 <= k < n ==> 0 <= #[trigger] p[k] < n
    &&& forall|k1: int, k2: int| 0 <= k1 < k2 < n ==> p[k1] != p[k2]
}

/// One candidate assignment for the defense: a defender position for each
/// attacking card from `i` on, all distinct, unused, and winning.
pub open spec fn winning_assignment(
    atk: Seq<Card>,
    def: Seq<Card>,
    trump_suit: Suit,
    i: int,
    used: Seq<bool>,
    p: Seq<int>,
) -> bool {
    &&& p.len() == atk.len()
    &&& forall|k: int|
        i <= k < p.len() ==> 0 <= #[trigger] p[k] < def.len() && !used[p[k]] && beats(
            atk[k],
            def[p[k]],
            trump_suit,
        )
    &&& forall|k1: int, k2: int| i <= k1 < k2 < p.len() ==> p[k1] != p[k2]
}

/// The backtracking matching succeeds exactly when some winning assignment
/// exists.
pub proof fn lemma_matching_iff_assignment(
    atk: Seq<Card>,
    def: Seq<Card>,
    trump_suit: Suit,
    i: int,
    used: Seq<bool>,
)
    requires
        0 <= i <= atk.len(),
        used.len() == def.len(),
    ensures
        matching_from(atk, def, trump_suit, i, used) <==> exists|p: Seq<int>|
            #[trigger] winning_assignment(atk, def, trump_suit, i, used, p),
    decreases atk.len() - i,
{
    if i == atk.len() {
        let p = Seq::new(atk.len(), |k: int| 0int);
        assert(winning_assignment(atk, def, trump_suit, i, used, p));
    } else {
        assert(matching_from(atk, def, trump_suit, i, used) ==> exists|p: Seq<int>|
            #[trigger] winning_assignment(atk, def, trump_suit, i, used, p)) by {
            if matching_from(atk, def, trump_suit, i, used) {
                let j = choose|j: int|
                    0 <= j < def.len() && !used[j] && #[trigger] beats(atk[i], def[j], trump_suit)
                        && matching_from(atk, def, trump_suit, i + 1, used.update(j, true));
                lemma_matching_iff_assignment(atk, def, trump_suit, i + 1, used.update(j, true));
                let p1 = choose|p1: Seq<int>|
                    #[trigger] winning_assignment(atk, def, trump_suit, i + 1, used.update(j, true), p1);
                let p = p1.update(i, j);
                assert(winning_assignment(atk, def, trump_suit, i, used, p)) by {
                    assert forall|k: int|
                        i <= k < p.len() implies 0 <= #[trigger] p[k] < def.len() && !used[p[k]]
                            && beats(atk[k], def[p[k]], trump_suit) by {
                        if k != i {
                            assert(p[k] == p1[k]);
                            assert(0 <= p1[k] < def.len() && !used.update(j, true)[p1[k]] && beats(
                                atk[k],
                                def[p1[k]],
                                trump_suit,
                            ));
                        }
                    }
                    assert forall|k1: int, k2: int| i <= k1 < k2 < p.len() implies p[k1]
                        != p[k2] by {
                        if k1 == i {
                            assert(0 <= p1[k2] < def.len() && !used.update(j, true)[p1[k2]]
                                && beats(atk[k2], def[p1[k2]], trump_suit));
                        } else {
                            assert(p1[k1] != p1[k2]);
                        }
                    }
                }
            }
        }
        assert((exists|p: Seq<int>| #[trigger] winning_assignment(atk, def, trump_suit, i, used, p))
            ==> matching_from(atk, def, trump_suit, i, used)) by {
            if exists|p: Seq<int>| #[trigger] winning_assignment(atk, def, trump_suit, i, used, p) {
                let p = choose|p: Seq<int>| #[trigger] winning_assignment(atk, def, trump_suit, i, used, p);
                let j = p[i];
                assert(0 <= j < def.len() && !used[j] && beats(atk[i], def[j], trump_suit));
                assert(winning_assignment(atk, def, trump_suit, i + 1, used.update(j, true), p)) by {
                    assert forall|k: int|
                        i + 1 <= k < p.len() implies 0 <= #[trigger] p[k] < def.len()
                            && !used.update(j, true)[p[k]] && beats(atk[k], def[p[k]], trump_suit) by {
                        assert(0 <= p[k] < def.len() && !used[p[k]] && beats(
                            atk[k],
                            def[p[k]],
                            trump_suit,
                        ));
                        assert(p[i] != p[k]);
                    }
                }
                lemma_matching_iff_assignment(atk, def, trump_suit, i + 1, used.update(j, true));
                assert(matching_from(atk, def, trump_suit, i + 1, used.update(j, true)));
            }
        }
    }
}

/// Permutation equivalence of the defense search: the matching search over
/// a fresh zone pair of equal size succeeds exactly when some permutation
/// of the defender zone defeats the attacker zone position by position, as
/// a brute-force search over all permutations would find.
pub proof fn lemma_defense_permutation_equivalence(atk: Seq<Card>, def: Seq<Card>, trump_suit: Suit)
    requires
        atk.len() == def.len(),
    ensures
        matching_from(atk, def, trump_suit, 0, none_used(def.len())) <==> exists|p: Seq<int>|
            #[trigger] is_index_permutation(p, def.len() as int) && (forall|k: int|
                0 <= k < atk.len() ==> beats(atk[k], def[#[trigger] p[k]], trump_suit)),
{
    let used0 = none_used(def.len());
    let n = def.len() as int;
    lemma_matching_iff_assignment(atk, def, trump_suit, 0, used0);
    assert((exists|p: Seq<int>| #[trigger] winning_assignment(atk, def, trump_suit, 0, used0, p)) ==> (
    exists|p: Seq<int>|
        #[trigger] is_index_permutation(p, n) && (forall|k: int|
            0 <= k < atk.len() ==> beats(atk[k], def[#[trigger] p[k]], trump_suit)))) by {
        if exists|p: Seq<int>| #[trigger] winning_assignment(atk, def, trump_suit, 0, used0, p) {
            let p = choose|p: Seq<int>| #[trigger] winning_assignment(atk, def, trump_suit, 0, used0, p);
            assert forall|k: int| 0 <= k < n implies 0 <= #[trigger] p[k] < n by {
                assert(0 <= p[k] < def.len() && !used0[p[k]] && beats(
                    atk[k],
                    def[p[k]],
                    trump_suit,
                ));
            }
            assert forall|k: int|
                0 <= k < atk.len() implies beats(atk[k], def[#[trigger] p[k]], trump_suit) by {
                assert(0 <= p[k] < def.len() && !used0[p[k]] && beats(
                    atk[k],
                    def[p[k]],
                    trump_suit,
                ));
            }
            assert(is_index_permutation(p, n));
        }
    }
    assert((exists|p: Seq<int>|
        #[trigger] is_index_permutation(p, n) && (forall|k: int|
            0 <= k < atk.len() ==> beats(atk[k], def[#[trigger] p[k]], trump_suit))) ==> (
    exists|p: Seq<int>| winning_assignment(atk, def, trump_suit, 0, used0, p))) by {
        if exists|p: Seq<int>|
            #[trigger] is_index_permutation(p, n) && (forall|k: int|
                0 <= k < atk.len() ==> beats(atk[k], def[#[trigger] p[k]], trump_suit)) {
            let p = choose|p: Seq<int>|
                #[trigger] is_index_permutation(p, n) && (forall|k: int|
                    0 <= k < atk.len() ==> beats(atk[k], def[#[trigger] p[k]], trump_suit));
            assert(winning_assignment(atk, def, trump_suit, 0, used0, p)) by {
                assert forall|k: int|
                    0 <= k < p.len() implies 0 <= #[trigger] p[k] < def.len() && !used0[p[k]]
                        && beats(atk[k], def[p[k]], trump_suit) by {
                    assert(0 <= p[k] < n);
                    assert(beats(atk[k], def[p[k]], trump_suit));
                }
            }
        }
    }
}

/// The defense evaluation agrees with brute-force permutation search: an
/// attempted defense is legal exactly when the zones have equal size and
/// some permutation of the defender zone defeats the attacker zone
/// position by position.
pub proof fn lemma_defense_valid_permutation(m: MoskaV)
    requires
        m.defender_cards.len() > 0,
    ensures
        m.defense_valid() <==> (m.attacker_cards.len() == m.defender_cards.len() && exists|
            p: Seq<int>,
        |
            is_index_permutation(p, m.defender_cards.len() as int) && (forall|k: int|
                0 <= k < m.attacker_cards.len() ==> beats(
                    m.attacker_cards[k],
                    m.defender_cards[#[trigger] p[k]],
                    m.trump_suit(),
                ))),
{
    if m.attacker_cards.len() == m.defender_cards.len() {
        lemma_defense_permutation_equivalence(
            m.attacker_cards,
            m.defender_cards,
            m.trump_suit(),
        );
    }
}

/// The zone invariant of the phases: while attacking, no defending card is
/// down; a defense is only ever in progress against a non-empty attack.
pub open spec fn zones_consistent(m: MoskaV) -> bool {
    &&& m.state == State::PlayerAttacking ==> m.defender_cards.len() == 0
    &&& m.state == State::PlayerDefending ==> m.attacker_cards.len() > 0
}

/// Every dispatched request preserves the zone invariant; a fresh round
/// establishes it with empty zones and the attacking phase.
pub proof fn lemma_action_preserves_zones(m: MoskaV, action: PlayerAction, i: int)
    requires
        m.wf(),
        zones_consistent(m),
    ensures
        zones_consistent(m.action_spec(action, i)),
{
}

impl MoskaV {
    /// Every card in play, as a multiset: the deck, the hands, both zones,
    /// the discard pile, and the trump slot, each card counted with its
    /// multiplicity.
    pub open spec fn cards_multiset(self) -> Multiset<Card> {
        self.table.deck.to_multiset().add(hands_multiset(self.table.players)).add(
            self.attacker_cards.to_multiset(),
        ).add(self.defender_cards.to_multiset()).add(self.discarded.to_multiset()).insert(
            self.trump_card,
        )
    }
}

/// Drawing up conserves cards one by one: what leaves the deck joins the
/// hand, card for card.
pub proof fn lemma_draw_multiset(m: MoskaV, seat: int)
    requires
        0 <= seat < m.table.players.len(),
    ensures
        m.draw_at_spec(seat).cards_multiset() =~= m.cards_multiset(),
{
    broadcast use vstd::multiset::group_multiset_axioms;
    broadcast use vstd::seq_lib::group_to_multiset_ensures;

    let k = m.draw_count_at(seat);
    let md = m.table.deck.len() as int;
    let pv = m.table.players[seat];
    let drawn = m.table.deck.subrange(md - k, md);
    let new_hand = pv.cards + drawn.reverse();
    assert(m.table.deck =~= m.table.deck.take(md - k) + drawn);
    lemma_multiset_commutative(m.table.deck.take(md - k), drawn);
    lemma_multiset_commutative(pv.cards, drawn.reverse());
    drawn.lemma_reverse_to_multiset();
    lemma_hands_multiset_update(m.table.players, seat, PlayerV { id: pv.id, cards: new_hand });
    assert forall|x: Card|
        m.draw_at_spec(seat).cards_multiset().count(x) == m.cards_multiset().count(x) by {
        assert(hands_multiset(
            m.table.players.update(seat, PlayerV { id: pv.id, cards: new_hand }),
        ).add(pv.cards.to_multiset()).count(x) == hands_multiset(m.table.players).add(
            new_hand.to_multiset(),
        ).count(x));
        assert(m.table.deck.to_multiset().count(x) == m.table.deck.take(md - k).to_multiset().count(
            x,
        ) + drawn.to_multiset().count(x));
        assert(new_hand.to_multiset().count(x) == pv.cards.to_multiset().count(x)
            + drawn.to_multiset().count(x));
    }
}

/// Placing a hand card onto a zone conserves the card multiset.
proof fn lemma_place_card_multiset(m: MoskaV, i: int)
    requires
        m.wf(),
        m.action_ok(PlayerAction::AddCard, i),
    ensures
        m.place_card_spec(i).cards_multiset() =~= m.cards_multiset(),
{
    broadcast use vstd::multiset::group_multiset_axioms;
    broadcast use vstd::seq_lib::group_to_multiset_ensures;

    let pi = m.table.player_index;
    let pv = m.table.players[pi];
    let card = pv.cards[i];
    lemma_hands_multiset_update(
        m.table.players,
        pi,
        PlayerV { id: pv.id, cards: pv.cards.remove(i) },
    );
    assert(pv.cards.contains(card));
    assert forall|x: Card|
        m.place_card_spec(i).cards_multiset().count(x) == m.cards_multiset().count(x) by {
        assert(hands_multiset(
            m.table.players.update(pi, PlayerV { id: pv.id, cards: pv.cards.remove(i) }),
        ).add(pv.cards.to_multiset()).count(x) == hands_multiset(m.table.players).add(
            pv.cards.remove(i).to_multiset(),
        ).count(x));
        assert(pv.cards.to_multiset().count(card) > 0);
        if m.state == State::PlayerAttacking {
            assert(m.attacker_cards.push(card).to_multiset().count(x)
                == m.attacker_cards.to_multiset().insert(card).count(x));
        } else {
            assert(m.defender_cards.push(card).to_multiset().count(x)
                == m.defender_cards.to_multiset().insert(card).count(x));
        }
    }
}

/// Reclaiming a zone card into the hand conserves the card multiset.
proof fn lemma_take_card_multiset(m: MoskaV, i: int)
    requires
        m.wf(),
        m.action_ok(PlayerAction::TakeCard, i),
    ensures
        m.take_card_spec(i).cards_multiset() =~= m.cards_multiset(),
{
    broadcast use vstd::multiset::group_multiset_axioms;
    broadcast use vstd::seq_lib::group_to_multiset_ensures;

    let pi = m.table.player_index;
    let pv = m.table.players[pi];
    if m.state == State::PlayerAttacking {
        let card = m.attacker_cards[i];
        lemma_hands_multiset_update(
            m.table.players,
            pi,
            PlayerV { id: pv.id, cards: pv.cards.push(card) },
        );
        assert(m.attacker_cards.contains(card));
        assert forall|x: Card|
            m.take_card_spec(i).cards_multiset().count(x) == m.cards_multiset().count(x) by {
            assert(hands_multiset(
                m.table.players.update(pi, PlayerV { id: pv.id, cards: pv.cards.push(card) }),
            ).add(pv.cards.to_multiset()).count(x) == hands_multiset(m.table.players).add(
                pv.cards.push(card).to_multiset(),
            ).count(x));
            assert(m.attacker_cards.to_multiset().count(card) > 0);
        }
    } else {
        let card = m.defender_cards[i];
        lemma_hands_multiset_update(
            m.table.players,
            pi,
            PlayerV { id: pv.id, cards: pv.cards.push(card) },
        );
        assert(m.defender_cards.contains(card));
        assert forall|x: Card|
            m.take_card_spec(i).cards_multiset().count(x) == m.cards_multiset().count(x) by {
            assert(hands_multiset(
                m.table.players.update(pi, PlayerV { id: pv.id, cards: pv.cards.push(card) }),
            ).add(pv.cards.to_multiset()).count(x) == hands_multiset(m.table.players).add(
                pv.cards.push(card).to_multiset(),
            ).count(x));
            assert(m.defender_cards.to_multiset().count(card) > 0);
        }
    }
}

/// Withdrawing the attacker zone into the current hand conserves the card
/// multiset.
proof fn lemma_withdraw_multiset(m: MoskaV)
    requires
        m.wf(),
    ensures
        m.withdraw_spec().cards_multiset() =~= m.cards_multiset(),
{
    broadcast use vstd::multiset::group_multiset_axioms;
    broadcast use vstd::seq_lib::group_to_multiset_ensures;

    let pi = m.table.player_index;
    let pv = m.table.players[pi];
    lemma_hands_multiset_update(
        m.table.players,
        pi,
        PlayerV { id: pv.id, cards: pv.cards + m.attacker_cards },
    );
    lemma_multiset_commutative(pv.cards, m.attacker_cards);
    assert forall|x: Card|
        m.withdraw_spec().cards_multiset().count(x) == m.cards_multiset().count(x) by {
        assert(hands_multiset(
            m.table.players.update(
                pi,
                PlayerV { id: pv.id, cards: pv.cards + m.attacker_cards },
            ),
        ).add(pv.cards.to_multiset()).count(x) == hands_multiset(m.table.players).add(
            (pv.cards + m.attacker_cards).to_multiset(),
        ).count(x));
        assert(Seq::<Card>::empty().to_multiset().count(x) == 0) by {
            assert(!Seq::<Card>::empty().contains(x));
        }
    }
}

/// Discarding both zones conserves the card multiset.
proof fn lemma_discard_multiset(m: MoskaV)
    ensures
        m.discard_spec().cards_multiset() =~= m.cards_multiset(),
{
    broadcast use vstd::multiset::group_multiset_axioms;
    broadcast use vstd::seq_lib::group_to_multiset_ensures;

    lemma_multiset_commutative(m.discarded, m.attacker_cards);
    lemma_multiset_commutative(m.discarded + m.attacker_cards, m.defender_cards);
    assert forall|x: Card|
        m.discard_spec().cards_multiset().count(x) == m.cards_multiset().count(x) by {
        assert((m.discarded + m.attacker_cards + m.defender_cards).to_multiset().count(x) == (
        m.discarded + m.attacker_cards).to_multiset().count(x)
            + m.defender_cards.to_multiset().count(x));
        assert((m.discarded + m.attacker_cards).to_multiset().count(x)
            == m.discarded.to_multiset().count(x) + m.attacker_cards.to_multiset().count(x));
        assert(Seq::<Card>::empty().to_multiset().count(x) == 0) by {
            assert(!Seq::<Card>::empty().contains(x));
        }
    }
}

/// Swapping the trump card with a hand card conserves the card multiset.
proof fn lemma_swap_multiset(m: MoskaV)
    requires
        m.wf(),
        m.action_ok(PlayerAction::SwapTrumpCard, 0),
    ensures
        m.swap_trump_spec(m.trump_two_pos()).cards_multiset() =~= m.cards_multiset(),
{
    broadcast use vstd::multiset::group_multiset_axioms;
    broadcast use vstd::seq_lib::group_to_multiset_ensures;

    let pi = m.table.player_index;
    let pv = m.table.players[pi];
    let j = m.trump_two_pos();
    lemma_first_pos_range(m.current_hand(), Card { suit: m.trump_suit(), rank: Rank::Two }, 0);
    let two = pv.cards[j];
    lemma_hands_multiset_update(
        m.table.players,
        pi,
        PlayerV { id: pv.id, cards: pv.cards.update(j, m.trump_card) },
    );
    assert(pv.cards.update(j, m.trump_card).to_multiset() == pv.cards.to_multiset().remove(
        two,
    ).insert(m.trump_card));
    assert(pv.cards.contains(two));
    assert forall|x: Card|
        m.swap_trump_spec(j).cards_multiset().count(x) == m.cards_multiset().count(x) by {
        assert(hands_multiset(
            m.table.players.update(
                pi,
                PlayerV { id: pv.id, cards: pv.cards.update(j, m.trump_card) },
            ),
        ).add(pv.cards.to_multiset()).count(x) == hands_multiset(m.table.players).add(
            pv.cards.update(j, m.trump_card).to_multiset(),
        ).count(x));
        assert(pv.cards.to_multiset().count(two) > 0);
    }
}

/// Drawing up moves cards between the deck and one hand only: together the
/// two hold the same cards before and after.
proof fn lemma_draw_deck_hands(m: MoskaV, seat: int)
    requires
        0 <= seat < m.table.players.len(),
    ensures
        m.draw_at_spec(seat).table.deck.to_multiset().add(
            hands_multiset(m.draw_at_spec(seat).table.players),
        ) == m.table.deck.to_multiset().add(hands_multiset(m.table.players)),
{
    broadcast use vstd::multiset::group_multiset_axioms;

    lemma_draw_multiset(m, seat);
    let d = m.draw_at_spec(seat);
    assert forall|x: Card|
        d.table.deck.to_multiset().add(hands_multiset(d.table.players)).count(x)
            == m.table.deck.to_multiset().add(hands_multiset(m.table.players)).count(x) by {
        assert(d.cards_multiset().count(x) == m.cards_multiset().count(x));
    }
    assert(d.table.deck.to_multiset().add(hands_multiset(d.table.players))
        =~= m.table.deck.to_multiset().add(hands_multiset(m.table.players)));
}

/// Conservation card by card: no dispatched request creates, destroys or
/// duplicates a card. The multiset of cards in play — deck, hands, zones,
/// discard pile and trump slot together — is invariant under
/// `player_action`.
pub proof fn lemma_action_conserves_card_multiset(m: MoskaV, action: PlayerAction, i: int)
    requires
        m.wf(),
    ensures
        m.action_spec(action, i).cards_multiset() =~= m.cards_multiset(),
{
    if m.action_ok(action, i) {
        let pi = m.table.player_index;
        match action {
            PlayerAction::AddCard => {
                lemma_place_card_multiset(m, i);
            },
            PlayerAction::TakeCard => {
                lemma_take_card_multiset(m, i);
            },
            PlayerAction::Submit => {
                match m.state {
                    State::PlayerAttacking => {
                        lemma_draw_multiset(m, pi);
                        assert(m.draw_spec().next_turn_spec().cards_multiset()
                            =~= m.draw_spec().cards_multiset());
                    },
                    State::PlayerDefending => {
                        if m.defender_cards.len() == 0 {
                            let w = m.withdraw_spec();
                            lemma_withdraw_multiset(m);
                            lemma_draw_multiset(w, pi);
                            assert(w.draw_spec().next_turn_spec().cards_multiset()
                                =~= w.draw_spec().cards_multiset());
                        } else {
                            let c = m.discard_spec();
                            lemma_discard_multiset(m);
                            lemma_draw_multiset(c, pi);
                            let cleared = MoskaV { state: State::PlayerAttacking, ..c.draw_spec() };
                            assert(cleared.cards_multiset() =~= c.draw_spec().cards_multiset());
                            if cleared.current_hand().len() == 0 {
                                assert(cleared.next_turn_spec().cards_multiset()
                                    =~= cleared.cards_multiset());
                            }
                        }
                    },
                    _ => {},
                }
            },
            PlayerAction::SwapTrumpCard => {
                lemma_swap_multiset(m);
            },
        }
    }
}

/// Drawing up conserves cards: what leaves the deck joins the hand./// Drawing up conserves cards: what leaves the deck joins the hand.
pub proof fn lemma_draw_conserves(m: MoskaV, seat: int)
    requires
        0 <= seat < m.table.players.len(),
    ensures
        m.draw_at_spec(seat).total_cards() == m.total_cards(),
{
    let k = m.draw_count_at(seat);
    let pv = m.table.players[seat];
    lemma_hands_total_update(
        m.table.players,
        seat,
        PlayerV {
            id: pv.id,
            cards: pv.cards + m.table.deck.subrange(
                m.table.deck.len() - k,
                m.table.deck.len() as int,
            ).reverse(),
        },
    );
}

/// Conservation: no dispatched request creates or destroys a card. The
/// total across the deck, every hand, both zones, the discard pile and the
/// trump slot is the same after `player_action` as before it.
pub proof fn lemma_action_conserves_cards(m: MoskaV, action: PlayerAction, i: int)
    requires
        m.wf(),
    ensures
        m.action_spec(action, i).total_cards() == m.total_cards(),
{
    if m.action_ok(action, i) {
        let pi = m.table.player_index;
        let pv = m.table.players[pi];
        match action {
            PlayerAction::AddCard => {
                lemma_hands_total_update(
                    m.table.players,
                    pi,
                    PlayerV { id: pv.id, cards: pv.cards.remove(i) },
                );
            },
            PlayerAction::TakeCard => {
                if m.state == State::PlayerAttacking {
                    lemma_hands_total_update(
                        m.table.players,
                        pi,
                        PlayerV { id: pv.id, cards: pv.cards.push(m.attacker_cards[i]) },
                    );
                } else {
                    lemma_hands_total_update(
                        m.table.players,
                        pi,
                        PlayerV { id: pv.id, cards: pv.cards.push(m.defender_cards[i]) },
                    );
                }
            },
            PlayerAction::Submit => {
                match m.state {
                    State::PlayerAttacking => {
                        lemma_draw_conserves(m, pi);
                        assert(m.draw_spec().next_turn_spec().total_cards()
                            == m.draw_spec().total_cards());
                    },
                    State::PlayerDefending => {
                        if m.defender_cards.len() == 0 {
                            let w = m.withdraw_spec();
                            lemma_hands_total_update(
                                m.table.players,
                                pi,
                                PlayerV { id: pv.id, cards: pv.cards + m.attacker_cards },
                            );
                            assert(w.total_cards() == m.total_cards());
                            lemma_draw_conserves(w, pi);
                            assert(w.draw_spec().next_turn_spec().total_cards()
                                == w.draw_spec().total_cards());
                        } else {
                            let c = m.discard_spec();
                            assert(c.total_cards() == m.total_cards());
                            lemma_draw_conserves(c, pi);
                            let cleared = MoskaV { state: State::PlayerAttacking, ..c.draw_spec() };
                            assert(cleared.total_cards() == c.draw_spec().total_cards());
                            if cleared.current_hand().len() == 0 {
                                assert(cleared.next_turn_spec().total_cards()
                                    == cleared.total_cards());
                            }
                        }
                    },
                    _ => {},
                }
            },
            PlayerAction::SwapTrumpCard => {
                let j = m.trump_two_pos();
                lemma_first_pos_range(
                    m.current_hand(),
                    Card { suit: m.trump_suit(), rank: Rank::Two },
                    0,
                );
                lemma_hands_total_update(
                    m.table.players,
                    pi,
                    PlayerV { id: pv.id, cards: pv.cards.update(j, m.trump_card) },
                );
            },
        }
    }
}

} // verus!
