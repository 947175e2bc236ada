use std::cmp::Ordering;

use moska::deck::{Card, Deck, Rank, Suit};
use moska::game::moska::{card_cmp, card_rank_order, find_pairs, Moska, PlayerAction, State};
use moska::table::Player;

/// Deck + hands + zones + discard + trump slot, for conservation checks.
fn total_cards(game: &Moska) -> usize {
    let hands: usize = (0..game.table.players.len())
        .map(|i| game.table.players[i].cards.len())
        .sum();
    game.table.deck.count()
        + hands
        + game.attacker_cards.len()
        + game.defender_cards.len()
        + game.discarded.len()
        + 1
}

#[test]
fn test_fresh_deck_contents() {
    let mut deck = Deck::new();
    assert_eq!(deck.count(), 52);
    // built suit-major, rank-minor: the last card pushed is the king of spades
    assert_eq!(deck.peek(), Some(Card::new(Suit::Spades, Rank::King)));
    // and the bottom card is the ace of clubs
    assert_eq!(deck.peek_last(), Some(Card::new(Suit::Clubs, Rank::Ace)));
    assert_eq!(deck.pop(), Some(Card::new(Suit::Spades, Rank::King)));
    assert_eq!(deck.pop_last(), Some(Card::new(Suit::Clubs, Rank::Ace)));
    assert_eq!(deck.count(), 50);
    deck.push(Card::new(Suit::Spades, Rank::King));
    assert_eq!(deck.count(), 51);

    let jokers = Deck::new_with_jokers();
    assert_eq!(jokers.count(), 56);
    assert_eq!(jokers.peek_last(), Some(Card::new(Suit::Clubs, Rank::Joker)));
}

#[test]
fn test_empty_deck_operations() {
    let mut deck = Deck::new();
    while let Some(_) = deck.pop() {}
    assert_eq!(deck.count(), 0);
    assert_eq!(deck.pop(), None);
    assert_eq!(deck.pop_last(), None);
    assert_eq!(deck.peek(), None);
    assert_eq!(deck.peek_last(), None);
}

#[test]
fn test_rank_from_code() {
    assert_eq!(Rank::from_code(0), Some(Rank::Joker));
    assert_eq!(Rank::from_code(1), Some(Rank::Ace));
    assert_eq!(Rank::from_code(2), Some(Rank::Two));
    assert_eq!(Rank::from_code(13), Some(Rank::King));
    assert_eq!(Rank::from_code(14), None);
    assert_eq!(Rank::from_code(255), None);
}

#[test]
fn test_rank_order_table() {
    assert_eq!(card_rank_order(Rank::Two), 0);
    assert_eq!(card_rank_order(Rank::Three), 1);
    assert_eq!(card_rank_order(Rank::Ten), 8);
    assert_eq!(card_rank_order(Rank::Jack), 9);
    assert_eq!(card_rank_order(Rank::Queen), 10);
    assert_eq!(card_rank_order(Rank::King), 11);
    assert_eq!(card_rank_order(Rank::Ace), 12);
    assert_eq!(card_rank_order(Rank::Joker), 13);
}

#[test]
fn test_card_cmp_ordering() {
    let trump = Suit::Spades;
    // same suit: beating order decides
    assert_eq!(
        card_cmp(
            &Card::new(Suit::Hearts, Rank::Ace),
            &Card::new(Suit::Hearts, Rank::King),
            trump
        ),
        Ordering::Greater
    );
    assert_eq!(
        card_cmp(
            &Card::new(Suit::Hearts, Rank::Two),
            &Card::new(Suit::Hearts, Rank::Three),
            trump
        ),
        Ordering::Less
    );
    // different suits: the second card wins exactly when it is a trump
    assert_eq!(
        card_cmp(
            &Card::new(Suit::Hearts, Rank::Ace),
            &Card::new(Suit::Spades, Rank::Two),
            trump
        ),
        Ordering::Greater
    );
    assert_eq!(
        card_cmp(
            &Card::new(Suit::Spades, Rank::Two),
            &Card::new(Suit::Hearts, Rank::Ace),
            trump
        ),
        Ordering::Less
    );
}

#[test]
fn test_trump_dominance() {
    let mut game = Moska::new(2);
    game.new_round();
    game.trump_card = Card::new(Suit::Spades, Rank::Ace);
    // a lowly trump two defeats a high card of another suit
    assert!(game.resolve_pair(
        &Card::new(Suit::Hearts, Rank::King),
        &Card::new(Suit::Spades, Rank::Two)
    ));
    // but not a card of its own suit with a higher beating order
    assert!(!game.resolve_pair(
        &Card::new(Suit::Spades, Rank::Three),
        &Card::new(Suit::Spades, Rank::Two)
    ));
    // the joker outranks everything within a suit
    assert!(game.resolve_pair(
        &Card::new(Suit::Hearts, Rank::Ace),
        &Card::new(Suit::Hearts, Rank::Joker)
    ));
}

#[test]
fn test_fresh_round_single_attack() {
    // two players, fresh round, hands of six; a single two of hearts is a
    // legal attack and submitting passes the turn to the defender
    let mut game = Moska::new(2);
    game.new_round();
    game.attacker_cards.push(Card::new(Suit::Hearts, Rank::Two));
    assert_eq!(game.eval_attack(), true);
    game.player_action(PlayerAction::Submit, 0);
    assert_eq!(game.state, State::PlayerDefending);
    assert_eq!(game.table.turn, 1);
    assert_eq!(game.table.player_index, 1);
}

#[test]
fn test_pair_attack_regression() {
    // attacker plays the pair [two of diamonds, two of clubs]; the defender
    // zone holds [three of diamonds, five of clubs] under spades as trump:
    // the identity pairing resolves both, so the defense is legal
    let mut game = Moska::new(2);
    game.new_round();
    game.state = State::PlayerDefending;
    game.trump_card = Card::new(Suit::Spades, Rank::Ace);
    game.attacker_cards
        .push(Card::new(Suit::Diamonds, Rank::Two));
    game.attacker_cards.push(Card::new(Suit::Clubs, Rank::Two));
    game.defender_cards
        .push(Card::new(Suit::Diamonds, Rank::Three));
    game.defender_cards.push(Card::new(Suit::Clubs, Rank::Five));
    assert_eq!(game.eval_defense(), true);
}

#[test]
fn test_withdraw_on_empty_defense() {
    // submitting while defending with an empty defender zone moves every
    // attacker-zone card into the defender's hand and passes the turn
    let mut game = Moska::new(2);
    game.new_round();
    game.attacker_cards.push(Card::new(Suit::Hearts, Rank::Two));
    game.attacker_cards
        .push(Card::new(Suit::Diamonds, Rank::Two));
    game.player_action(PlayerAction::Submit, 0);
    assert_eq!(game.state, State::PlayerDefending);
    assert_eq!(game.table.player_index, 1);
    let hand_before = game.table.players[1].cards.len();
    let turn_before = game.table.turn;
    assert!(game.player_action(PlayerAction::Submit, 0));
    assert_eq!(game.table.players[1].cards.len(), hand_before + 2);
    assert_eq!(game.attacker_cards.len(), 0);
    assert_eq!(game.table.turn, turn_before + 1);
    assert_eq!(game.state, State::PlayerAttacking);
    assert_eq!(game.table.player_index, 0);
}

#[test]
fn test_conservation_through_play() {
    let mut game = Moska::new(3);
    game.new_round();
    assert_eq!(total_cards(&game), 52);

    // play a card, reclaim it, play it again, submit, withdraw
    game.player_action(PlayerAction::AddCard, 2);
    assert_eq!(total_cards(&game), 52);
    game.player_action(PlayerAction::TakeCard, 0);
    assert_eq!(total_cards(&game), 52);
    game.player_action(PlayerAction::AddCard, 0);
    assert_eq!(total_cards(&game), 52);
    game.player_action(PlayerAction::Submit, 0);
    assert_eq!(total_cards(&game), 52);
    // defender withdraws
    game.player_action(PlayerAction::Submit, 0);
    assert_eq!(total_cards(&game), 52);
}

#[test]
fn test_rejected_actions_change_nothing() {
    let mut game = Moska::new(2);
    game.new_round();
    // out-of-range card index
    assert!(!game.player_action(PlayerAction::AddCard, 42));
    assert_eq!(game.table.players[0].cards.len(), 6);
    assert_eq!(game.attacker_cards.len(), 0);
    // nothing to reclaim
    assert!(!game.player_action(PlayerAction::TakeCard, 0));
    // empty attack is illegal
    assert!(!game.player_action(PlayerAction::Submit, 0));
    assert_eq!(game.state, State::PlayerAttacking);
    assert_eq!(game.table.turn, 0);
    // swapping without the two of the trump suit
    game.table.players[0].cards = vec![Card::new(Suit::Hearts, Rank::Five)];
    game.trump_card = Card::new(Suit::Spades, Rank::Ace);
    assert!(!game.player_action(PlayerAction::SwapTrumpCard, 0));
    assert_eq!(game.table.players[0].cards[0], Card::new(Suit::Hearts, Rank::Five));
}

#[test]
fn test_attack_capacity_limit() {
    // an attack may not hold more cards than the defender's hand
    let mut game = Moska::new(2);
    game.new_round();
    game.table.players[1].cards = vec![Card::new(Suit::Hearts, Rank::Three)];
    game.attacker_cards.push(Card::new(Suit::Clubs, Rank::Four));
    game.attacker_cards
        .push(Card::new(Suit::Diamonds, Rank::Four));
    assert_eq!(game.eval_attack(), false);
    game.attacker_cards.pop();
    assert_eq!(game.eval_attack(), true);
}

#[test]
fn test_find_pairs_groups() {
    let cards = vec![
        Card::new(Suit::Hearts, Rank::Two),
        Card::new(Suit::Clubs, Rank::Five),
        Card::new(Suit::Diamonds, Rank::Two),
        Card::new(Suit::Spades, Rank::Five),
        Card::new(Suit::Hearts, Rank::Nine),
        Card::new(Suit::Clubs, Rank::Two),
    ];
    let groups = find_pairs(&cards);
    assert_eq!(groups.len(), 2);
    // twos first (first appearance), in original order
    assert_eq!(groups[0].len(), 3);
    assert_eq!(groups[0][0], Card::new(Suit::Hearts, Rank::Two));
    assert_eq!(groups[0][1], Card::new(Suit::Diamonds, Rank::Two));
    assert_eq!(groups[0][2], Card::new(Suit::Clubs, Rank::Two));
    assert_eq!(groups[1].len(), 2);
    assert_eq!(groups[1][0], Card::new(Suit::Clubs, Rank::Five));
    assert_eq!(groups[1][1], Card::new(Suit::Spades, Rank::Five));

    let lone = vec![Card::new(Suit::Hearts, Rank::Nine)];
    assert_eq!(find_pairs(&lone).len(), 0);
}

#[test]
fn test_player_hand_operations() {
    let mut player = Player::new(3);
    assert_eq!(player.id, 3);
    player.cards.push(Card::new(Suit::Hearts, Rank::Two));
    player.cards.push(Card::new(Suit::Clubs, Rank::Five));
    assert_eq!(player.hand(), player.cards);
    assert_eq!(
        player.card_index(&Card::new(Suit::Clubs, Rank::Five)),
        Some(1)
    );
    assert_eq!(player.card_index(&Card::new(Suit::Clubs, Rank::Six)), None);
    assert_eq!(player.pop_card(5), None);
    assert_eq!(player.pop_card(0), Some(Card::new(Suit::Hearts, Rank::Two)));
    assert_eq!(player.cards.len(), 1);
}

#[test]
fn test_player_cards_accessor() {
    let mut game = Moska::new(2);
    game.new_round();
    assert_eq!(game.player_cards(0), game.table.players[0].cards);
    assert_eq!(game.player_cards(1).len(), 6);
    assert_eq!(game.player_cards(7), vec![]);
}

#[test]
fn test_valid_by_state() {
    let mut game = Moska::new(2);
    assert_eq!(game.valid(), false);
    game.new_round();
    // an empty attacker zone is not yet a valid attack
    assert_eq!(game.valid(), false);
    game.attacker_cards.push(Card::new(Suit::Hearts, Rank::Two));
    assert_eq!(game.valid(), true);
    game.state = State::PlayerDefending;
    // an empty defender zone counts as a trivially valid defense
    assert_eq!(game.valid(), true);
    game.state = State::GameOver;
    assert_eq!(game.valid(), true);
}

#[test]
fn test_swap_trumpcard_direct() {
    let mut game = Moska::new(2);
    game.new_round();
    game.trump_card = Card::new(Suit::Spades, Rank::Ace);
    game.table.players[0].cards = vec![
        Card::new(Suit::Hearts, Rank::Five),
        Card::new(Suit::Spades, Rank::Two),
    ];
    // direct swap by position, out of range first
    assert_eq!(game.swap_trumpcard(9), false);
    assert_eq!(game.swap_trumpcard(1), true);
    assert_eq!(game.trump_card, Card::new(Suit::Spades, Rank::Two));
    assert_eq!(
        game.table.players[0].cards[1],
        Card::new(Suit::Spades, Rank::Ace)
    );
}

#[test]
fn test_shuffle_keeps_count() {
    let mut game = Moska::new(4);
    game.new_round();
    // the shuffled deal still accounts for every card
    assert_eq!(total_cards(&game), 52);
    assert_eq!(game.table.deck.count(), 52 - 4 * 6 - 1);
}
