use pluta_lesnura::{
    affords, mishap, momentum_choice, momentum_player, play, random_choice, random_player, walk_continues,
    Card, Game, GameError, GameOutcome, PathLength, Phase, Play, PlayOutcome, Player, Rank,
    Strategy, Suit, STARTING_MAD_SCIENCE_TOKENS, STARTING_PROGRESS,
};

#[test]
fn test_game() {
    for num_players in 1..10 {
        let players: Vec<_> = std::iter::from_fn(|| Some(momentum_player(random_player(1, 2))))
            .take(num_players)
            .collect();
        let mut game = Game::default();
        for _ in 0..num_players {
            assert_eq!(game.add_player(), Ok(()));
        }
        assert!(play(game, players).is_ok());
    }
}

#[test]
fn matches_end_for_any_draw_chance() {
    for (numerator, denominator) in [(0, 1), (1, 4), (1, 2), (3, 4), (1, 1)] {
        for num_players in 1..10 {
            for _ in 0..5 {
                let players: Vec<_> = (0..num_players)
                    .map(|_| momentum_player(random_player(numerator, denominator)))
                    .collect();
                let mut game = Game::default();
                for _ in 0..num_players {
                    assert_eq!(game.add_player(), Ok(()));
                }
                let outcome = play(game, players);
                assert!(matches!(outcome, Ok(GameOutcome::Win) | Ok(GameOutcome::Loss)));
            }
        }
    }
}

#[test]
fn new_game_starts_with_two_decks_in_the_library() {
    let game = Game::default();
    assert!(game.valid());
    assert_eq!(game.num_players(), 0);
    assert_eq!(game.mad_science_tokens(), STARTING_MAD_SCIENCE_TOKENS);
    assert_eq!(game.mad_science_tokens(), 15);
    assert_eq!(STARTING_PROGRESS, -10);
    for s in 0..4 {
        let suit = Suit::new(s).unwrap();
        assert_eq!(game.progress(suit), -10);
        assert_eq!(game.revealed(suit).num_showing(), 0);
    }
    assert_eq!(game.phase(), Phase::Play);
    assert_eq!(game.turn(), 0);
    assert_eq!(game.discard_top(), None);
    assert!(game.affords_seating());
    assert!(game.affords_deal());
    assert!(game.affords_draw());
}

#[test]
fn players_are_dealt_three_ranked_cards() {
    let mut game = Game::default();
    for n in 1..=5 {
        assert_eq!(game.add_player(), Ok(()));
        assert_eq!(game.num_players(), n);
        assert!(game.valid());
    }
    // Only the hand of the player to move can be seen: it is the first one.
    assert_eq!(game.current_player_hand().len(), 3);
    let jokers = 15 - i32::from(game.mad_science_tokens());
    assert!((0..=20).contains(&jokers));
}

#[test]
fn seating_stops_when_the_ranked_cards_run_out() {
    let mut game = Game::default();
    for _ in 0..34 {
        assert_eq!(game.add_player(), Ok(()));
    }
    // 102 of the 104 ranked cards are in hands: too few are left for a
    // hand of three.
    let tokens = game.mad_science_tokens();
    assert_eq!(game.add_player(), Err(GameError::Exhausted));
    assert_eq!(game.num_players(), 34);
    assert_eq!(game.mad_science_tokens(), tokens);
    assert!(game.valid());
}

struct Scripted(Vec<Play>);

impl Strategy for Scripted {
    fn decide(&mut self, _game: &Game) -> Play {
        self.0.remove(0)
    }
}

struct FirstCard;

impl Strategy for FirstCard {
    fn decide(&mut self, game: &Game) -> Play {
        random_choice(game, true)
    }
}

#[test]
fn a_draw_without_momentum_is_an_illegal_action() {
    let mut game = Game::default();
    assert_eq!(game.add_player(), Ok(()));
    assert_eq!(game.play(Play::Draw).err(), Some(GameError::NoMomentum));
    assert!(game.valid());
    assert_eq!(game.phase(), Phase::Play);
    let players = vec![Player::new(Scripted(vec![Play::Draw]))];
    assert_eq!(play(game, players), Err(GameError::NoMomentum));
}

#[test]
fn a_card_that_is_not_held_is_an_illegal_action() {
    let mut game = Game::default();
    assert_eq!(game.add_player(), Ok(()));
    let joker = Card::from_index(52).unwrap();
    assert_eq!(game.play(Play::Play(joker)).err(), Some(GameError::NotInHand));
    assert_eq!(game.current_player_hand().len(), 3);
    assert!(game.valid());
    let players = vec![Player::new(Scripted(vec![Play::Play(joker)]))];
    assert_eq!(play(game, players), Err(GameError::NotInHand));
}

#[test]
fn a_crowded_match_ends_too() {
    let mut game = Game::default();
    for _ in 0..34 {
        assert_eq!(game.add_player(), Ok(()));
    }
    // Two ranked cards and four jokers are left in the piles, so nearly
    // every draw costs tokens: the match ends by the walk, or the counter
    // or the piles give out first.
    let players: Vec<_> = (0..34).map(|_| Player::new(FirstCard)).collect();
    let outcome = play(game, players);
    assert!(matches!(
        outcome,
        Ok(GameOutcome::Win)
            | Ok(GameOutcome::Loss)
            | Err(GameError::Exhausted)
            | Err(GameError::Overflow)
    ));
}

#[test]
fn an_action_is_refused_only_when_it_could_overflow_a_counter() {
    let mut refused = 0;
    for _ in 0..20 {
        let mut game = Game::default();
        for _ in 0..34 {
            assert_eq!(game.add_player(), Ok(()));
        }
        let mut seat = FirstCard;
        for _ in 0..100_000 {
            let action = seat.decide(&game);
            let before = game.mad_science_tokens();
            let afforded = match action {
                Play::Play(card) => game.affords_play(card),
                Play::Draw => game.affords_draw(),
            };
            let step = game.play(action);
            assert!(game.valid());
            match step {
                Ok(PlayOutcome::Continue) => assert!(afforded),
                Ok(PlayOutcome::End(_)) => {
                    assert!(afforded);
                    break;
                }
                Err(GameError::Exhausted) => break,
                Err(GameError::Overflow) => {
                    assert!(!afforded);
                    // Few jokers stand between the counter and its end.
                    assert!(before < -110);
                    assert_eq!(game.mad_science_tokens(), before);
                    refused += 1;
                    break;
                }
                Err(e) => panic!("refused: {}", e.message()),
            }
        }
    }
    let _ = refused;
}

#[test]
fn the_counter_affords_what_it_can_lose_within_its_type() {
    assert!(affords(15, 0));
    assert!(affords(15, 14));
    // Fifteen tokens gone, the counter has stepped over zero to -1.
    assert!(affords(15, 15 + 127));
    assert!(!affords(15, 15 + 128));
    assert!(affords(1, 1));
    assert!(affords(-1, 127));
    assert!(!affords(-1, 128));
    assert!(affords(-128, 0));
    assert!(!affords(-128, 1));
    assert!(affords(-127, 1));
    assert!(!affords(-127, 2));
    assert!(!affords(0, 1000));
}

#[test]
fn a_card_that_follows_suit_is_played_whatever_the_piles_would_cost() {
    for _ in 0..50 {
        let game = game_with_momentum();
        // The play that earned the momentum was afforded: it could cost one
        // token at most.
        assert_eq!(game.phase(), Phase::Momentum);
        assert!(game.valid());
    }
}

#[test]
fn card_count_is_kept_through_a_whole_match() {
    for num_players in 1..6 {
        let mut game = Game::default();
        let mut seat = momentum_player(random_player(1, 2));
        for _ in 0..num_players {
            assert_eq!(game.add_player(), Ok(()));
            assert!(game.valid());
        }
        // One strategy plays every seat, so that the game stays in sight.
        let first = random_choice(&game, false);
        let mut step = game.play(first);
        let mut turns = 0;
        loop {
            assert!(game.valid());
            assert_ne!(game.mad_science_tokens(), 0);
            assert!(game.turn() < num_players);
            match step {
                Ok(PlayOutcome::Continue) => {}
                Ok(PlayOutcome::End(_)) => break,
                Err(e) => panic!("refused: {}", e.message()),
            }
            let action = seat.act(&game);
            step = game.play(action);
            turns += 1;
            assert!(turns < 100_000);
        }
    }
}

#[test]
fn a_win_means_a_suit_reached_its_length() {
    // Progress starts at -10 and a path is at least 1 long, so a suit needs
    // eleven plays at least: a game that ends sooner is lost.
    let mut wins = 0;
    let mut losses = 0;
    for _ in 0..200 {
        let mut game = Game::default();
        assert_eq!(game.add_player(), Ok(()));
        let mut seat = momentum_player(random_player(1, 2));
        let mut plays = 0;
        let outcome = loop {
            let action = seat.act(&game);
            if matches!(action, Play::Play(_)) {
                plays += 1;
            }
            match game.play(action) {
                Ok(PlayOutcome::Continue) => {}
                Ok(PlayOutcome::End(outcome)) => break outcome,
                Err(e) => panic!("refused: {}", e.message()),
            }
        };
        let best = (0..4)
            .map(|s| game.progress(Suit::new(s).unwrap()))
            .max()
            .unwrap();
        match outcome {
            GameOutcome::Win => {
                assert!(best >= 1);
                assert!(plays >= 11);
                wins += 1;
            }
            GameOutcome::Loss => {
                assert!(best < 13);
                losses += 1;
            }
        }
    }
    assert_eq!(wins + losses, 200);
}

#[test]
fn momentum_is_earned_by_following_suit() {
    let mut earned = 0;
    for _ in 0..300 {
        let mut game = Game::default();
        assert_eq!(game.add_player(), Ok(()));
        assert_eq!(game.add_player(), Ok(()));
        // Play until some card lies on the discard pile and the player to
        // move can follow suit.
        let mut seat = random_player(0, 1);
        let mut over = false;
        for _ in 0..40 {
            if let Some(Play::Play(card)) = momentum_choice(&game) {
                let top = *game.discard_top().unwrap();
                assert_eq!(card.suit(), top.suit());
                assert_eq!(game.phase(), Phase::Play);
                let turn = game.turn();
                assert_eq!(game.play(Play::Play(card)), Ok(PlayOutcome::Continue));
                assert_eq!(game.phase(), Phase::Momentum);
                assert_eq!(game.turn(), turn);
                assert_eq!(game.discard_top(), Some(&card));
                assert!(momentum_choice(&game).is_none());
                earned += 1;
                break;
            }
            let action = seat.act(&game);
            match game.play(action) {
                Ok(PlayOutcome::Continue) => {}
                Ok(PlayOutcome::End(_)) => {
                    over = true;
                    break;
                }
                Err(e) => panic!("refused: {}", e.message()),
            }
        }
        if over {
            continue;
        }
    }
    assert!(earned > 0);
}

#[test]
fn random_choice_draws_only_with_momentum() {
    let mut game = Game::default();
    assert_eq!(game.add_player(), Ok(()));
    assert_eq!(game.phase(), Phase::Play);
    for draw in [false, true] {
        match random_choice(&game, draw) {
            Play::Play(card) => {
                let mut hand = game.current_player_hand().filter_by_suit(card.suit().unwrap());
                assert!(hand.remove(card).is_ok());
            }
            Play::Draw => panic!("a draw at the beginning of a turn"),
        }
    }
}

#[test]
fn mad_science_walk_on_positive_counter_needs_one_tail() {
    assert!(!walk_continues(3, &vec![true, true, true]));
    assert!(walk_continues(3, &vec![true, false, true]));
    assert!(walk_continues(3, &vec![false, false, false]));
    assert!(walk_continues(1, &vec![false]));
    assert!(!walk_continues(1, &vec![true]));
    assert!(!walk_continues(15, &vec![true; 15]));
}

#[test]
fn mad_science_walk_on_negative_counter_needs_all_tails() {
    assert!(walk_continues(-3, &vec![false, false, false]));
    assert!(!walk_continues(-3, &vec![false, true, false]));
    assert!(!walk_continues(-3, &vec![true, true, true]));
    assert!(walk_continues(-1, &vec![false]));
    assert!(!walk_continues(-1, &vec![true]));
}

#[test]
fn low_cards_risk_a_token() {
    let rank = |index: u8| Rank::new(index).unwrap();
    // The ace loses a token on every roll.
    for roll in 1..=6 {
        assert!(mishap(rank(0), roll));
    }
    // The five, of index four, loses one on a five or a six.
    assert!(!mishap(rank(4), 4));
    assert!(mishap(rank(4), 5));
    assert!(mishap(rank(4), 6));
    // From the six on no card does.
    for index in 5..13 {
        for roll in 1..=6 {
            assert!(!mishap(rank(index), roll));
        }
    }
}

#[test]
fn mad_science_counter_skips_zero() {
    // Fifteen tokens and only ever fewer: whenever it is seen it is not
    // zero, and it goes below zero in a long game.
    let mut went_negative = false;
    for _ in 0..50 {
        let mut game = Game::default();
        assert_eq!(game.add_player(), Ok(()));
        let mut seat = momentum_player(random_player(1, 2));
        let mut last = game.mad_science_tokens();
        loop {
            let action = seat.act(&game);
            let step = game.play(action);
            let now = game.mad_science_tokens();
            assert_ne!(now, 0);
            assert!(now <= last);
            last = now;
            if now < 0 {
                went_negative = true;
            }
            match step {
                Ok(PlayOutcome::Continue) => {}
                Ok(PlayOutcome::End(_)) => break,
                Err(e) => panic!("refused: {}", e.message()),
            }
        }
    }
    assert!(went_negative);
}

fn lengths(values: [u8; 4]) -> [PathLength; 4] {
    values.map(|value| PathLength::new(Rank::new(value - 1).unwrap()))
}

#[test]
fn the_score_compares_progress_with_the_path_lengths() {
    for values in [[1, 1, 1, 1], [13, 13, 13, 13], [1, 13, 5, 9], [3, 3, 12, 2]] {
        let mut wins = 0;
        for _ in 0..100 {
            let mut game = Game::new(lengths(values));
            assert_eq!(game.add_player(), Ok(()));
            assert_eq!(game.add_player(), Ok(()));
            let mut seat = momentum_player(random_player(1, 3));
            let outcome = loop {
                let action = seat.act(&game);
                match game.play(action) {
                    Ok(PlayOutcome::Continue) => {}
                    Ok(PlayOutcome::End(outcome)) => break outcome,
                    Err(e) => panic!("refused: {}", e.message()),
                }
            };
            let reached = (0..4u8).any(|s| {
                let progress = i16::from(game.progress(Suit::new(s).unwrap()));
                progress >= i16::from(values[usize::from(s)])
            });
            assert_eq!(outcome == GameOutcome::Win, reached);
            assert_eq!(game.turn(), 0);
            if reached {
                wins += 1;
            }
        }
        if values == [13, 13, 13, 13] {
            // Twenty-three plays of one suit within one game are out of reach
            // for two players in practice.
            assert!(wins < 100);
        }
    }
}

#[test]
fn a_new_game_keeps_the_given_path_lengths_secret_but_hides_nothing_else() {
    let game = Game::new(lengths([2, 4, 6, 8]));
    assert!(game.valid());
    assert_eq!(game.num_players(), 0);
    assert_eq!(game.mad_science_tokens(), 15);
    for s in 0..4 {
        assert_eq!(game.progress(Suit::new(s).unwrap()), -10);
        assert_eq!(game.revealed(Suit::new(s).unwrap()).num_showing(), 0);
    }
}

#[test]
fn a_face_card_forecasts_and_any_other_makes_progress() {
    for _ in 0..50 {
        let values = [2, 4, 6, 8];
        let mut game = Game::new(lengths(values));
        assert_eq!(game.add_player(), Ok(()));
        let mut seat = random_player(0, 1);
        for _ in 0..200 {
            let suits: Vec<Suit> = (0..4).map(|s| Suit::new(s).unwrap()).collect();
            let progress: Vec<i8> = suits.iter().map(|s| game.progress(*s)).collect();
            let showing: Vec<usize> =
                suits.iter().map(|s| game.revealed(*s).num_showing()).collect();
            let tokens = game.mad_science_tokens();
            let action = seat.act(&game);
            let Play::Play(card) = action else {
                // Only an empty hand makes this player draw.
                assert_eq!(game.phase(), Phase::Momentum);
                assert_eq!(game.current_player_hand().len(), 0);
                match game.play(action) {
                    Ok(PlayOutcome::Continue) => continue,
                    Ok(PlayOutcome::End(_)) => break,
                    Err(e) => panic!("refused: {}", e.message()),
                }
            };
            let step = game.play(action);
            assert!(step.is_ok());
            if matches!(step, Ok(PlayOutcome::End(_))) {
                break;
            }
            let rank = card.rank().unwrap();
            let suit = card.suit().unwrap();
            for (i, s) in suits.iter().enumerate() {
                let grew = game.progress(*s) - progress[i];
                let shown = game.revealed(*s).num_showing() - showing[i];
                if *s == suit && rank.is_face() {
                    assert_eq!(grew, 0);
                    assert_eq!(shown, if showing[i] < 11 { 1 } else { 0 });
                    assert!(!game
                        .revealed(*s)
                        .is_showing(Rank::new(values[i] - 1).unwrap()));
                } else if *s == suit {
                    assert_eq!(grew, 1);
                    assert_eq!(shown, 0);
                } else {
                    assert_eq!(grew, 0);
                    assert_eq!(shown, 0);
                }
            }
            if rank.value() >= 6 && game.phase() == Phase::Momentum {
                // No draw has happened and the card was too high to risk a
                // token.
                assert_eq!(game.mad_science_tokens(), tokens);
            }
            assert!(game.mad_science_tokens() <= tokens);
        }
    }
}

fn game_with_momentum() -> Game {
    loop {
        let mut game = Game::default();
        assert_eq!(game.add_player(), Ok(()));
        assert_eq!(game.add_player(), Ok(()));
        let mut seat = random_player(0, 1);
        for _ in 0..40 {
            if let Some(action) = momentum_choice(&game) {
                assert_eq!(game.play(action), Ok(PlayOutcome::Continue));
                assert_eq!(game.phase(), Phase::Momentum);
                return game;
            }
            let action = seat.act(&game);
            match game.play(action) {
                Ok(PlayOutcome::Continue) => {}
                _ => break,
            }
        }
    }
}

#[test]
fn the_odds_decide_on_a_draw_with_momentum() {
    let game = game_with_momentum();
    let mut always = random_player(1, 1);
    let mut never = random_player(0, 1);
    let mut sometimes = random_player(1, 2);
    let mut draws = 0;
    for _ in 0..200 {
        assert!(matches!(always.act(&game), Play::Draw));
        assert!(matches!(never.act(&game), Play::Play(_)));
        if matches!(sometimes.act(&game), Play::Draw) {
            draws += 1;
        }
    }
    assert!(draws > 0);
    assert!(draws < 200);
    assert!(matches!(random_choice(&game, true), Play::Draw));
    assert!(matches!(random_choice(&game, false), Play::Play(_)));
}

#[test]
fn a_draw_with_momentum_ends_the_turn() {
    for _ in 0..20 {
        let mut game = game_with_momentum();
        let turn = game.turn();
        let held = game.current_player_hand().len();
        let step = game.play(Play::Draw);
        assert!(game.valid());
        match step {
            Ok(PlayOutcome::Continue) => {
                assert_eq!(game.phase(), Phase::Play);
                assert_eq!(game.turn(), (turn + 1) % 2);
                assert!(game.current_player_hand().len() > 0);
            }
            Ok(PlayOutcome::End(_)) => assert_eq!(game.turn(), 0),
            Err(e) => panic!("refused: {}", e.message()),
        }
        let _ = held;
    }
}

#[test]
fn a_momentum_seeker_follows_suit_when_it_can() {
    for _ in 0..50 {
        let mut game = Game::default();
        assert_eq!(game.add_player(), Ok(()));
        let mut seeker = momentum_player(random_player(1, 2));
        let mut plain = random_player(1, 2);
        for _ in 0..60 {
            let expected = momentum_choice(&game).is_some();
            let action = seeker.act(&game);
            if expected {
                let Play::Play(card) = action else {
                    panic!("a draw in place of momentum");
                };
                assert_eq!(card.suit(), game.discard_top().unwrap().suit());
                assert_eq!(game.phase(), Phase::Play);
            }
            let action = plain.act(&game);
            match game.play(action) {
                Ok(PlayOutcome::Continue) => {}
                Ok(PlayOutcome::End(_)) => break,
                Err(e) => panic!("refused: {}", e.message()),
            }
        }
    }
}
