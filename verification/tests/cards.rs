use pluta_lesnura::{deck, Card, Rank, Suit, WithOrWithoutJokers};

#[test]
fn test_deck() {
    let d = deck(WithOrWithoutJokers::WithoutJokers);
    let rank_sum: u32 = d
        .iter()
        .map(Card::rank)
        .flatten()
        .map(|r| u32::from(r.value()))
        .sum();
    assert_eq!(rank_sum, 364);
    let _dj = deck(WithOrWithoutJokers::WithJokers);
}

#[test]
fn deck_sizes() {
    assert_eq!(deck(WithOrWithoutJokers::WithoutJokers).len(), 52);
    assert_eq!(deck(WithOrWithoutJokers::WithJokers).len(), 54);
}

#[test]
fn deck_is_in_canonical_order() {
    let d = deck(WithOrWithoutJokers::WithJokers);
    for (i, card) in d.iter().enumerate() {
        assert_eq!(Some(*card), Card::from_index(u8::try_from(i).unwrap()));
    }
}

#[test]
fn deck_holds_two_jokers_at_its_end() {
    let d = deck(WithOrWithoutJokers::WithJokers);
    assert_eq!(d.iter().filter(|c| c.is_joker()).count(), 2);
    assert!(d[52].is_joker());
    assert!(d[53].is_joker());
    assert!(!d[51].is_joker());
    assert!(deck(WithOrWithoutJokers::WithoutJokers).iter().all(|c| !c.is_joker()));
}

#[test]
fn rank_values_run_from_one_to_thirteen() {
    for index in 0..13u8 {
        let rank = Rank::new(index).unwrap();
        assert_eq!(rank.value(), index + 1);
    }
    assert!(Rank::new(13).is_none());
    assert!(Rank::new(255).is_none());
}

#[test]
fn face_ranks_are_the_three_highest() {
    for index in 0..13u8 {
        let rank = Rank::new(index).unwrap();
        assert_eq!(rank.is_face(), index >= 10);
    }
    assert!(!Rank::new(9).unwrap().is_face());
    assert!(Rank::new(10).unwrap().is_face());
}

#[test]
fn random_rank_is_a_rank() {
    for _ in 0..200 {
        let value = Rank::random().value();
        assert!((1..=13).contains(&value));
    }
}

#[test]
fn suits_are_four() {
    assert!(Suit::new(0).is_some());
    assert!(Suit::new(3).is_some());
    assert!(Suit::new(4).is_none());
}

#[test]
fn card_index_splits_into_rank_and_suit() {
    let card = Card::from_index(7).unwrap();
    assert!(!card.is_joker());
    assert_eq!(card.rank(), Rank::new(1));
    assert_eq!(card.suit(), Suit::new(3));
    let card = Card::from_index(51).unwrap();
    assert_eq!(card.rank(), Rank::new(12));
    assert_eq!(card.suit(), Suit::new(3));
    let card = Card::from_index(0).unwrap();
    assert_eq!(card.rank(), Rank::new(0));
    assert_eq!(card.suit(), Suit::new(0));
}

#[test]
fn card_from_rank_and_suit() {
    for r in 0..13u8 {
        for s in 0..4u8 {
            let rank = Rank::new(r).unwrap();
            let suit = Suit::new(s).unwrap();
            let card = Card::new(rank, suit);
            assert_eq!(Some(card), Card::from_index(4 * r + s));
            assert_eq!(card.rank(), Some(rank));
            assert_eq!(card.suit(), Some(suit));
            assert!(!card.is_joker());
        }
    }
}

#[test]
fn jokers_have_neither_rank_nor_suit() {
    for index in 52..54u8 {
        let joker = Card::from_index(index).unwrap();
        assert!(joker.is_joker());
        assert_eq!(joker.rank(), None);
        assert_eq!(joker.suit(), None);
    }
    assert!(Card::from_index(54).is_none());
}
