use moska::deck::{Card, Rank, Suit};
use moska::game::moska::{Moska, PlayerAction, State};

#[test]
fn test_cards() {
    let mut game = Moska::new(2);
    game.new_round();

    assert_eq!(game.table.players[0].cards.len(), 6);
    assert_eq!(game.table.players[1].cards.len(), 6);

    // player 0 turn
    assert_eq!(game.table.player_index, 0);
    assert_eq!(game.state, State::PlayerAttacking);

    // play first card from hand
    game.player_action(PlayerAction::AddCard, 0);
    assert_eq!(game.table.players[0].cards.len(), 5);
    assert_eq!(game.attacker_cards.len(), 1);

    // end attacking turn, should fill hand
    game.player_action(PlayerAction::Submit, 0);
    assert_eq!(game.table.players[0].cards.len(), 6);

    // player 1 turn
    assert_eq!(game.table.player_index, 1);
    assert_eq!(game.state, State::PlayerDefending);

    // play first card from hand
    game.player_action(PlayerAction::AddCard, 0);
    assert_eq!(game.table.players[1].cards.len(), 5);
    assert_eq!(game.defender_cards.len(), 1);

    // take card back
    game.player_action(PlayerAction::TakeCard, 0);
    assert_eq!(game.table.players[1].cards.len(), 6);
    assert_eq!(game.defender_cards.len(), 0);

    // fold turn
    game.player_action(PlayerAction::Submit, 0);
    assert_eq!(game.table.players[1].cards.len(), 7);
    assert_eq!(game.attacker_cards.len(), 0);

    // player 0 turn
    assert_eq!(game.table.player_index, 0);
    assert_eq!(game.state, State::PlayerAttacking);
}

#[test]
fn test_attack() {
    let mut game = Moska::new(2);
    game.new_round();

    // empty table, should be illegal
    assert_eq!(game.eval_attack(), false);

    // add 2 of hearts, should be ok
    game.attacker_cards.push(Card::new(Suit::Hearts, Rank::Two));
    assert_eq!(game.eval_attack(), true);

    // add 3 of diamonds, should be illegal
    game.attacker_cards
        .push(Card::new(Suit::Diamonds, Rank::Three));
    assert_eq!(game.eval_attack(), false);
    game.attacker_cards.pop();

    // make a pair, should be ok
    game.attacker_cards
        .push(Card::new(Suit::Diamonds, Rank::Two));
    assert_eq!(game.eval_attack(), true);

    // add a second pair, should be ok
    game.attacker_cards
        .push(Card::new(Suit::Spades, Rank::Four));
    game.attacker_cards.push(Card::new(Suit::Clubs, Rank::Four));
    assert_eq!(game.attacker_cards.len(), 4);
    assert_eq!(game.eval_attack(), true);

    // pop last card out, should be illegal
    game.attacker_cards.pop();
    assert_eq!(game.attacker_cards.len(), 3);
    assert_eq!(game.eval_attack(), false);

    game.attacker_cards.pop();
    assert_eq!(game.eval_attack(), true);
}

#[test]
fn test_defend() {
    let mut game = Moska::new(2);
    game.new_round();

    // set state, trump card
    game.state = State::PlayerDefending;
    game.trump_card = Card::new(Suit::Spades, Rank::Ace);

    // add single card
    game.attacker_cards.push(Card::new(Suit::Hearts, Rank::Two));
    game.defender_cards
        .push(Card::new(Suit::Hearts, Rank::Three));
    assert_eq!(game.eval_attack(), true);
    assert_eq!(game.eval_defense(), true);

    // make attack pair
    game.attacker_cards
        .push(Card::new(Suit::Diamonds, Rank::Two));
    assert_eq!(game.eval_attack(), true);
    assert_eq!(game.eval_defense(), false);

    // try to add wrong suit for defender
    game.defender_cards
        .push(Card::new(Suit::Clubs, Rank::Three));
    assert_eq!(game.eval_defense(), false);

    // replace correct suit for defender
    println!("foo");
    game.defender_cards.pop();
    game.defender_cards
        .push(Card::new(Suit::Diamonds, Rank::Three));
    assert_eq!(game.eval_defense(), true);

    // add a second pair
    game.attacker_cards.push(Card::new(Suit::Spades, Rank::Ten));
    game.attacker_cards.push(Card::new(Suit::Clubs, Rank::Ten));

    game.defender_cards
        .push(Card::new(Suit::Spades, Rank::Jack));
    game.defender_cards.push(Card::new(Suit::Clubs, Rank::Jack));
    assert_eq!(game.eval_defense(), true);

    // should be ok in reverse order
    game.defender_cards.reverse();
    assert_eq!(game.eval_defense(), true);

    // pop last card and try with lesser rank
    game.defender_cards.pop();
    game.defender_cards.push(Card::new(Suit::Clubs, Rank::Five));
    assert_eq!(game.eval_defense(), false);

    // try trump card
    game.defender_cards.pop();
    game.defender_cards
        .push(Card::new(Suit::Spades, Rank::Five));
    assert_eq!(game.eval_defense(), true);

    // clear table
    game.player_action(PlayerAction::Submit, 0);
    assert_eq!(game.attacker_cards.len(), 0);
    assert_eq!(game.defender_cards.len(), 0);

    game.attacker_cards.push(Card::new(Suit::Clubs, Rank::Jack));
    game.attacker_cards
        .push(Card::new(Suit::Spades, Rank::Queen));
    game.defender_cards
        .push(Card::new(Suit::Clubs, Rank::Queen));
    game.defender_cards
        .push(Card::new(Suit::Spades, Rank::Jack));
    assert_eq!(game.eval_defense(), false);
}

#[test]
fn test_turns() {
    let mut game = Moska::new(3);
    game.new_round();
    game.trump_card = Card::new(Suit::Spades, Rank::Ace);

    // test initial state
    assert_eq!(game.state, State::PlayerAttacking);
    assert_eq!(game.table.turn, 0);
    assert_eq!(game.table.player_index, 0);

    // attempt to submit without cards on the table
    game.player_action(PlayerAction::Submit, 0);
    assert_eq!(game.state, State::PlayerAttacking);
    assert_eq!(game.table.player_index, 0);

    // add attacking card and end turn
    game.attacker_cards
        .push(Card::new(Suit::Hearts, Rank::Nine));
    game.player_action(PlayerAction::Submit, 0);
    assert_eq!(game.state, State::PlayerDefending);
    assert_eq!(game.table.turn, 1);
    assert_eq!(game.table.player_index, 1);

    // add defending card and submit
    game.defender_cards.push(Card::new(Suit::Hearts, Rank::Ace));
    game.player_action(PlayerAction::Submit, 0);
    assert_eq!(game.state, State::PlayerAttacking);
    assert_eq!(game.table.player_index, 1);

    // table should be clear
    assert!(game.attacker_cards.is_empty());
    assert!(game.defender_cards.is_empty());

    // add attacking cards and end turn
    game.attacker_cards
        .push(Card::new(Suit::Clubs, Rank::Seven));
    game.attacker_cards
        .push(Card::new(Suit::Diamonds, Rank::Seven));
    game.player_action(PlayerAction::Submit, 0);
    assert_eq!(game.state, State::PlayerDefending);
    assert_eq!(game.table.turn, 2);
    assert_eq!(game.table.player_index, 2);

    // submit without defending cards, taking the attacking cards
    game.player_action(PlayerAction::Submit, 0);
    assert_eq!(game.table.players[2].cards.len(), 8);
    assert_eq!(game.state, State::PlayerAttacking);
    assert_eq!(game.table.turn, 3);
    assert_eq!(game.table.player_index, 0);
}

#[test]
fn test_gameover() {
    let mut game = Moska::new(3);
    game.new_round();

    game.trump_card = Card::new(Suit::Spades, Rank::Ace);

    game.table.players[0].cards = vec![Card::new(Suit::Hearts, Rank::Two)];
    game.table.players[1].cards = vec![Card::new(Suit::Hearts, Rank::Three)];
    game.table.players[2].cards = vec![Card::new(Suit::Hearts, Rank::Four)];

    // pop all cards from deck
    while let Some(_) = game.table.deck.pop() {}

    assert_eq!(game.state, State::PlayerAttacking);
    game.player_action(PlayerAction::AddCard, 0);
    game.player_action(PlayerAction::Submit, 0);

    // player 0 should have no cards left
    assert!(game.table.players[0].cards.is_empty());

    assert_eq!(game.state, State::PlayerDefending);
    game.player_action(PlayerAction::AddCard, 0);
    game.player_action(PlayerAction::Submit, 0);

    // player 1 should have no cards left,
    // meaning player 2 has lost the game
    assert_eq!(game.state, State::GameOver);

    // try again with some cards present on the deck
    let mut game = Moska::new(3);
    game.new_round();

    game.trump_card = Card::new(Suit::Spades, Rank::Ace);

    game.table.players[0].cards = vec![Card::new(Suit::Hearts, Rank::Two)];
    game.table.players[1].cards = vec![Card::new(Suit::Hearts, Rank::Three)];
    game.table.players[2].cards = vec![Card::new(Suit::Hearts, Rank::Four)];

    // pop cards from the deck until 3 left
    while game.table.deck.count() > 3 {
        game.table.deck.pop();
    }

    assert_eq!(game.state, State::PlayerAttacking);
    game.player_action(PlayerAction::AddCard, 0);
    assert_eq!(game.table.players[0].cards.len(), 0);
    assert_eq!(game.table.deck.count(), 3);

    game.player_action(PlayerAction::Submit, 0);

    // player 0 should have all the cards from the deck
    assert_eq!(game.table.deck.count(), 0);
    assert_eq!(game.table.players[0].cards.len(), 3);

    assert_eq!(game.state, State::PlayerDefending);
    game.player_action(PlayerAction::AddCard, 0);
    game.player_action(PlayerAction::Submit, 0);

    assert_eq!(game.state, State::PlayerAttacking);
    game.player_action(PlayerAction::AddCard, 0);
    game.player_action(PlayerAction::Submit, 0);

    // player 0 should have lost the game
    assert_eq!(game.state, State::GameOver);
}

#[test]
fn test_swap_trumpcard() {
    let mut game = Moska::new(2);
    game.new_round();

    game.trump_card = Card::new(Suit::Spades, Rank::Ace);

    game.table.players[0].cards = vec![Card::new(Suit::Spades, Rank::Two)];
    game.table.players[1].cards = vec![Card::new(Suit::Hearts, Rank::Three)];

    assert_eq!(game.player_action(PlayerAction::SwapTrumpCard, 0), true);
    assert_eq!(
        game.table.players[0].cards[0],
        Card::new(Suit::Spades, Rank::Ace)
    );

    let mut game = Moska::new(2);
    game.new_round();

    game.trump_card = Card::new(Suit::Spades, Rank::Ace);

    game.table.players[0].cards = vec![Card::new(Suit::Hearts, Rank::Two)];
    game.table.players[1].cards = vec![Card::new(Suit::Hearts, Rank::Three)];

    assert_eq!(game.player_action(PlayerAction::SwapTrumpCard, 0), false);
    assert_eq!(
        game.table.players[0].cards[0],
        Card::new(Suit::Hearts, Rank::Two)
    );
}
