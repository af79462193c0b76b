use turnbased_game_server::args::Args;
use turnbased_game_server::cards::{
    Card, CardIdx, CardKnowledge, Color, ColorArray, Deck, GameVariant, Hand, Hint,
    KnowledgeState, Played, Turn,
};
use turnbased_game_server::cards::KnowledgeState::{Impossible, Known, Possible};
use turnbased_game_server::game::{Game, GameState, Move};

fn names(n: usize) -> Vec<String> {
    (1..=n).map(|i| format!("Player{i}")).collect()
}

fn next_seat(game: &Game) -> usize {
    match game.game_state() {
        GameState::NextPlayer(p) => p,
        _ => panic!("game should be running"),
    }
}

#[test]
fn deck_sizes_per_variant() {
    assert_eq!(Deck::new(GameVariant::Base).len(), 50);
    assert_eq!(Deck::new(GameVariant::Multi).len(), 60);
    assert_eq!(Deck::new(GameVariant::MultiHard).len(), 55);
    assert!(!Deck::new(GameVariant::Base).is_empty());
}

#[test]
fn deck_card_copies() {
    assert_eq!(Deck::count(GameVariant::Base, Color::Red, 1), 3);
    assert_eq!(Deck::count(GameVariant::Base, Color::Red, 2), 2);
    assert_eq!(Deck::count(GameVariant::Base, Color::Red, 3), 2);
    assert_eq!(Deck::count(GameVariant::Base, Color::Red, 4), 2);
    assert_eq!(Deck::count(GameVariant::Base, Color::Red, 5), 1);
    assert_eq!(Deck::count(GameVariant::Multi, Color::Multi, 1), 3);
    assert_eq!(Deck::count(GameVariant::MultiHard, Color::Multi, 1), 1);
    assert_eq!(Deck::count(GameVariant::MultiHard, Color::Multi, 4), 1);
    assert_eq!(Deck::count(GameVariant::MultiHard, Color::Blue, 1), 3);
}

#[test]
fn shuffled_deck_holds_the_rule_book_multiset() {
    // Whatever order the shuffle picked, the deck must hold exactly the
    // rule-book number of copies of every card.
    let deck = Deck::new(GameVariant::Base);
    let cards = match &deck {
        Deck::Visible(cards) => cards.clone(),
        Deck::Hidden(_) => panic!("a fresh deck is visible"),
    };
    assert_eq!(cards.len(), 50);
    for c in GameVariant::Base.colors() {
        for v in 1..=5usize {
            let expected = Deck::count(GameVariant::Base, c, v);
            let got = cards.iter().filter(|card| card.c == c && card.v == v).count();
            assert_eq!(got, expected, "copies of {:?} {}", c, v);
        }
    }
}

#[test]
fn variant_tables() {
    assert_eq!(GameVariant::Base.num_colors(), 5);
    assert_eq!(GameVariant::Multi.num_colors(), 6);
    assert_eq!(GameVariant::MultiHard.num_colors(), 6);
    assert_eq!(GameVariant::Base.max_score(), 25);
    assert_eq!(GameVariant::Multi.max_score(), 30);
    assert!(!GameVariant::Base.has_multi());
    assert!(GameVariant::Multi.has_multi());
    assert!(GameVariant::MultiHard.has_multi());
    let colors = GameVariant::Base.colors();
    assert_eq!(
        colors,
        vec![Color::Blue, Color::Green, Color::Red, Color::White, Color::Yellow]
    );
    assert_eq!(GameVariant::Multi.colors().len(), 6);
}

#[test]
fn color_array_find_and_count() {
    let a = ColorArray([Possible, Known, Possible, Impossible, Known, Possible]);
    assert_eq!(a.find_eq(Known), Some(Color::Green));
    assert_eq!(a.find_eq(Impossible), Some(Color::White));
    assert_eq!(a.count_eq(Possible), 3);
    assert_eq!(a.count_eq(Known), 2);
    let b = ColorArray([Possible; 6]);
    assert_eq!(b.find_eq(Known), None);
    assert_eq!(b.count_eq(Possible), 6);
}

#[test]
fn fresh_knowledge_rules_out_multi_only_without_it() {
    let base = CardKnowledge::new(GameVariant::Base, Turn::Start);
    for i in 0..5 {
        assert_eq!(base.vs[i], KnowledgeState::Possible);
    }
    for c in GameVariant::Base.colors() {
        assert_eq!(*base.cs.get(c), KnowledgeState::Possible);
    }
    assert_eq!(*base.cs.get(Color::Multi), KnowledgeState::Impossible);

    let multi = CardKnowledge::new(GameVariant::Multi, Turn::Start);
    assert_eq!(*multi.cs.get(Color::Multi), KnowledgeState::Possible);
}

#[test]
fn played_piles_accept_only_the_next_value() {
    let mut played = Played::new(GameVariant::Base);
    assert_eq!(played.0.len(), 5);
    assert_eq!(played.score(), 0);
    let r = played.play(Card { c: Color::Red, v: 1 });
    assert!(matches!(r, Ok(_)));
    assert_eq!(played.score(), 1);
    // Not the next value: handed back as the error.
    let r = played.play(Card { c: Color::Red, v: 3 });
    assert!(matches!(r, Err(c) if c.v == 3));
    assert_eq!(played.score(), 1);
    let r = played.play(Card { c: Color::Red, v: 2 });
    assert!(matches!(r, Ok(_)));
    assert_eq!(played.score(), 2);
}

#[test]
fn game_needs_two_to_five_players() {
    assert!(matches!(
        Game::new(names(1), GameVariant::Base),
        Err("Hanabi needs 2 to 5 players.")
    ));
    assert!(matches!(
        Game::new(names(6), GameVariant::Base),
        Err("Hanabi needs 2 to 5 players.")
    ));
    for n in 2..=5 {
        assert!(Game::new(names(n), GameVariant::Base).is_ok());
    }
}

#[test]
fn fresh_game_counters_and_hands() {
    let game = Game::new(names(3), GameVariant::Base).unwrap();
    assert_eq!(game.hints(), 8);
    assert_eq!(game.lives(), 3);
    assert_eq!(game.score(), 0);
    assert_eq!(game.players().len(), 3);
    assert_eq!(game.hands().len(), 3);
    for h in game.hands() {
        assert_eq!(h.len(), 5);
    }
    // Three players with five cards each leave 35 in the deck.
    assert_eq!(game.deck().len(), 35);
    assert!(!game.has_ended());
    assert!(game.move_log().is_empty());

    let big = Game::new(names(5), GameVariant::Base).unwrap();
    for h in big.hands() {
        assert_eq!(h.len(), 4);
    }
    assert_eq!(big.deck().len(), 30);
}

#[test]
fn shuffled_seats_hold_the_same_names() {
    let game = Game::new(names(4), GameVariant::Base).unwrap();
    let mut seated = game.players().clone();
    seated.sort();
    let mut given = names(4);
    given.sort();
    assert_eq!(seated, given);
    // The starting player is one of the seats.
    let p = next_seat(&game);
    assert!(p < 4);
}

#[test]
fn moves_out_of_turn_are_refused() {
    let mut game = Game::new(names(3), GameVariant::Base).unwrap();
    let p = next_seat(&game);
    let wrong = (p + 1) % 3;
    let r = game.make_move(wrong, Move::Play { card_idx: CardIdx(1) });
    assert!(matches!(r, Err("Not this player's turn.")));
    assert!(game.move_log().is_empty());
}

#[test]
fn bad_card_indices_are_refused() {
    let mut game = Game::new(names(2), GameVariant::Base).unwrap();
    let p = next_seat(&game);
    assert!(matches!(
        game.make_move(p, Move::Play { card_idx: CardIdx(0) }),
        Err("Card index out of range.")
    ));
    assert!(matches!(
        game.make_move(p, Move::Play { card_idx: CardIdx(6) }),
        Err("Card index out of range.")
    ));
}

#[test]
fn discarding_at_full_hints_is_refused() {
    let mut game = Game::new(names(2), GameVariant::Base).unwrap();
    let p = next_seat(&game);
    assert_eq!(game.hints(), 8);
    assert!(matches!(
        game.make_move(p, Move::Discard { card_idx: CardIdx(1) }),
        Err("Already at max hints; discarding not allowed.")
    ));
}

#[test]
fn hint_errors_in_order() {
    let mut game = Game::new(names(3), GameVariant::Base).unwrap();
    let p = next_seat(&game);
    assert!(matches!(
        game.make_move(p, Move::Hint { hinted_player: p, hint: Hint::ValueHint(1) }),
        Err("Hinting yourself is not allowed.")
    ));
    let other = (p + 1) % 3;
    assert!(matches!(
        game.make_move(p, Move::Hint { hinted_player: 7, hint: Hint::ValueHint(1) }),
        Err("Player out of range")
    ));
    assert!(matches!(
        game.make_move(p, Move::Hint { hinted_player: other, hint: Hint::ValueHint(0) }),
        Err("Hinted value is out of range.")
    ));
    assert!(matches!(
        game.make_move(p, Move::Hint { hinted_player: other, hint: Hint::ValueHint(6) }),
        Err("Hinted value is out of range.")
    ));
    assert!(matches!(
        game.make_move(p, Move::Hint {
            hinted_player: other,
            hint: Hint::ColorHint(Color::Multi)
        }),
        Err("Hinting multi is not allowed.")
    ));
    assert!(matches!(
        game.make_move(p, Move::HintOtherPlayer { hint: Hint::ValueHint(1) }),
        Err("Specify the player to hint")
    ));
    // Nothing was spent or logged by any refused hint.
    assert_eq!(game.hints(), 8);
    assert!(game.move_log().is_empty());
}

#[test]
fn a_value_hint_marks_exactly_the_named_cards() {
    let mut game = Game::new(names(2), GameVariant::Base).unwrap();
    let p = next_seat(&game);
    let other = (p + 1) % 2;
    let r = game.make_move(p, Move::Hint { hinted_player: other, hint: Hint::ValueHint(3) });
    assert!(r.is_ok());
    assert_eq!(game.hints(), 7);
    assert_eq!(game.move_log().len(), 1);
    match &game.hands()[other] {
        Hand::Visible(cards) => {
            for cwk in cards {
                if cwk.0.v == 3 {
                    assert_eq!(cwk.1.vs[2], KnowledgeState::Known);
                } else {
                    assert_eq!(cwk.1.vs[2], KnowledgeState::Impossible);
                }
            }
        },
        Hand::Hidden(_) => panic!("server-side hands stay visible"),
    }
    // The turn passed to the hinted player.
    assert_eq!(next_seat(&game), other);
}

#[test]
fn discard_after_a_hint_restores_the_token() {
    let mut game = Game::new(names(2), GameVariant::Base).unwrap();
    let p = next_seat(&game);
    let other = (p + 1) % 2;
    game.make_move(p, Move::Hint { hinted_player: other, hint: Hint::ValueHint(1) }).unwrap();
    assert_eq!(game.hints(), 7);
    game.make_move(other, Move::Discard { card_idx: CardIdx(1) }).unwrap();
    assert_eq!(game.hints(), 8);
    assert_eq!(game.move_log().len(), 2);
}

#[test]
fn playing_a_card_draws_a_replacement() {
    let mut game = Game::new(names(2), GameVariant::Base).unwrap();
    let p = next_seat(&game);
    let deck_before = game.deck().len();
    game.make_move(p, Move::Play { card_idx: CardIdx(1) }).unwrap();
    assert_eq!(game.hands()[p].len(), 5);
    assert_eq!(game.deck().len(), deck_before - 1);
    // Either the pile grew or a life was lost, never both.
    let lost = 3 - game.lives();
    let scored = game.score();
    assert_eq!(lost + scored, 1);
    assert_eq!(game.move_log().len(), 1);
}

#[test]
fn views_hide_the_deck_and_the_viewers_own_hand() {
    let game = Game::new(names(3), GameVariant::Base).unwrap();
    let view = game.to_view(1);
    assert!(matches!(view.deck(), Deck::Hidden(n) if *n == 35));
    assert!(matches!(&view.hands()[1], Hand::Hidden(knows) if knows.len() == 5));
    assert!(matches!(&view.hands()[0], Hand::Visible(_)));
    assert!(matches!(&view.hands()[2], Hand::Visible(_)));
    assert_eq!(view.players(), game.players());
    assert_eq!(view.hints(), game.hints());
}

#[test]
fn view_redaction_is_per_recipient() {
    let game = Game::new(names(2), GameVariant::Base).unwrap();
    let a = game.players()[0].clone();
    let b = game.players()[1].clone();
    let view_a = game.view_for_user(&a);
    let view_b = game.view_for_user(&b);
    // A's own cards are hidden from A but visible to B, and the other way
    // round: redaction follows the recipient, not the state.
    assert!(matches!(&view_a.hands()[0], Hand::Hidden(_)));
    assert!(matches!(&view_a.hands()[1], Hand::Visible(_)));
    assert!(matches!(&view_b.hands()[0], Hand::Visible(_)));
    assert!(matches!(&view_b.hands()[1], Hand::Hidden(_)));
    assert!(matches!(view_a.deck(), Deck::Hidden(_)));
    assert!(matches!(view_b.deck(), Deck::Hidden(_)));
}

#[test]
fn a_stranger_sees_the_game_unredacted() {
    let game = Game::new(names(2), GameVariant::Base).unwrap();
    let view = game.view_for_user(&"nobody".to_string());
    assert!(matches!(view.deck(), Deck::Visible(_)));
    assert_eq!(game.player_id(&"nobody".to_string()), None);
}

#[test]
fn player_id_finds_seats_by_name() {
    let game = Game::new(names(4), GameVariant::Base).unwrap();
    for (i, name) in game.players().iter().enumerate() {
        assert_eq!(game.player_id(name), Some(i));
    }
}

#[test]
fn args_pick_addresses() {
    let local = Args::new(None, true);
    assert_eq!(local.server_address(), "127.0.0.1:38271");
    assert_eq!(local.client_address(), "ws://127.0.0.1:38271");
    let given = Args::new(Some("example.org:1234".to_string()), false);
    assert_eq!(given.server_address(), "example.org:1234");
    let none = Args::new(None, false);
    assert_eq!(none.server_address(), "127.0.0.1:38271");
    assert_eq!(none.client_address(), "ws://hanabi.ragnargrootkoerkamp.nl/websocket/");
}

#[test]
fn deck_take_and_conceal() {
    let mut deck = Deck::new(GameVariant::Base);
    let card = deck.take().expect("a full deck has a top card");
    assert!(card.v >= 1 && card.v <= 5);
    assert_eq!(deck.len(), 49);
    deck.conceal();
    assert!(matches!(deck, Deck::Hidden(49)));
}

#[test]
fn hands_deal_from_the_top_and_hide_on_viewing() {
    let mut deck = Deck::new(GameVariant::Base);
    let mut hand = Hand::new(GameVariant::Base, 5, &mut deck);
    assert_eq!(hand.len(), 5);
    assert_eq!(deck.len(), 45);
    let taken = hand.take(CardIdx(3)).expect("position 3 names a card");
    assert!(taken.0.v >= 1 && taken.0.v <= 5);
    assert_eq!(hand.len(), 4);
    assert!(hand.take(CardIdx(0)).is_none());
    assert!(hand.take(CardIdx(5)).is_none());
    hand.draw(GameVariant::Base, &mut deck);
    assert_eq!(hand.len(), 5);
    assert_eq!(deck.len(), 44);
    hand.to_view();
    assert!(matches!(&hand, Hand::Hidden(knows) if knows.len() == 5));
}
