use pluta_lesnura::{deck, Card, Discard, GameError, Hand, Library, Suit, WithOrWithoutJokers};

fn card(index: u8) -> Card {
    Card::from_index(index).unwrap()
}

#[test]
fn test_library() {
    let mut lib = Library::new(vec![card(7)]);
    let mut dis = Discard::default();
    dis.discard(card(8));
    dis.discard(card(9));
    assert_eq!(lib.draw(&mut dis), Some(card(7)));
    assert_eq!(lib.draw(&mut dis), Some(card(8)));
    assert_eq!(lib.draw(&mut dis), None);
}

#[test]
fn recycling_keeps_the_top_discard_on_top() {
    let mut lib = Library::new(vec![card(7)]);
    let mut dis = Discard::default();
    dis.discard(card(8));
    dis.discard(card(9));
    assert_eq!(lib.draw(&mut dis), Some(card(7)));
    assert_eq!(dis.top(), Some(&card(9)));
    assert_eq!(dis.len(), 2);
    assert_eq!(lib.draw(&mut dis), Some(card(8)));
    assert_eq!(dis.top(), Some(&card(9)));
    assert_eq!(dis.len(), 1);
    assert_eq!(lib.len(), 0);
    assert_eq!(lib.draw(&mut dis), None);
    assert_eq!(dis.top(), Some(&card(9)));
    assert_eq!(dis.len(), 1);
}

#[test]
fn draw_from_two_empty_piles_yields_nothing() {
    let mut lib = Library::new(vec![]);
    let mut dis = Discard::default();
    assert_eq!(lib.draw(&mut dis), None);
    assert_eq!(dis.len(), 0);
    assert_eq!(dis.top(), None);
}

#[test]
fn library_is_drawn_from_its_end() {
    let mut lib = Library::new(vec![card(1), card(2), card(3)]);
    let mut dis = Discard::default();
    assert_eq!(lib.len(), 3);
    assert_eq!(lib.draw(&mut dis), Some(card(3)));
    assert_eq!(lib.draw(&mut dis), Some(card(2)));
    assert_eq!(lib.draw(&mut dis), Some(card(1)));
    assert_eq!(lib.draw(&mut dis), None);
}

fn sorted_indices(cards: &[Card]) -> Vec<u8> {
    let canonical = deck(WithOrWithoutJokers::WithJokers);
    let mut indices: Vec<u8> = cards
        .iter()
        .map(|c| u8::try_from(canonical.iter().position(|d| d == c).unwrap()).unwrap())
        .collect();
    indices.sort_unstable();
    indices
}

#[test]
fn drawing_through_two_decks_yields_each_card_once() {
    let mut cards = deck(WithOrWithoutJokers::WithJokers);
    cards.extend(deck(WithOrWithoutJokers::WithJokers));
    let expected = sorted_indices(&cards);
    let mut lib = Library::new(cards);
    let mut dis = Discard::default();
    let mut drawn = Vec::new();
    for _ in 0..108 {
        let c = lib.draw(&mut dis).unwrap();
        dis.discard(c);
        drawn.push(c);
    }
    assert_eq!(sorted_indices(&drawn), expected);
    assert_eq!(lib.len(), 0);
    assert_eq!(dis.len(), 108);
    // The next draw refills the library from under the top discard, and the
    // pass that follows yields every card but that one, each once.
    let top = *dis.top().unwrap();
    let mut second = Vec::new();
    for _ in 0..107 {
        let c = lib.draw(&mut dis).unwrap();
        second.push(c);
    }
    assert_eq!(lib.len(), 0);
    assert_eq!(dis.len(), 1);
    assert_eq!(dis.top(), Some(&top));
    second.push(top);
    assert_eq!(sorted_indices(&second), expected);
}

#[test]
fn recycling_shuffles_without_losing_cards() {
    for _ in 0..20 {
        let mut lib = Library::new(vec![]);
        let mut dis = Discard::default();
        for i in 0..10 {
            dis.discard(card(i));
        }
        let mut seen = Vec::new();
        while let Some(c) = lib.draw(&mut dis) {
            seen.push(c);
        }
        assert_eq!(sorted_indices(&seen), vec![0, 1, 2, 3, 4, 5, 6, 7, 8]);
        assert_eq!(dis.top(), Some(&card(9)));
    }
}

#[test]
fn recycling_changes_the_order() {
    let mut orders = Vec::new();
    for _ in 0..20 {
        let mut lib = Library::new(vec![]);
        let mut dis = Discard::default();
        for i in 0..10 {
            dis.discard(card(i));
        }
        let mut seen = Vec::new();
        while let Some(c) = lib.draw(&mut dis) {
            seen.push(c);
        }
        if !orders.contains(&seen) {
            orders.push(seen);
        }
    }
    assert!(orders.len() > 1);
}

#[test]
fn test_hand() {
    let mut h = Hand::default();
    assert!(h.remove(card(4)).is_err());
    h.add(card(4));
    assert!(h.remove(card(3)).is_err());
    assert!(h.remove(card(4)).is_ok());
    assert!(h.remove(card(4)).is_err());
}

#[test]
fn second_removal_is_an_illegal_action() {
    let mut h = Hand::default();
    h.add(card(4));
    assert_eq!(h.remove(card(4)), Ok(()));
    assert_eq!(h.remove(card(4)), Err(GameError::NotInHand));
    assert_eq!(h.len(), 0);
}

#[test]
fn hand_removes_one_copy_at_a_time() {
    let mut h = Hand::default();
    h.add(card(4));
    h.add(card(9));
    h.add(card(4));
    assert_eq!(h.len(), 3);
    assert!(h.remove(card(4)).is_ok());
    assert_eq!(h.len(), 2);
    assert!(h.remove(card(4)).is_ok());
    assert_eq!(h.len(), 1);
    assert!(h.remove(card(4)).is_err());
    assert_eq!(h.len(), 1);
    assert!(h.remove(card(9)).is_ok());
    assert_eq!(h.len(), 0);
}

#[test]
fn hand_knows_what_it_holds() {
    let mut h = Hand::default();
    assert!(!h.contains(card(4)));
    h.add(card(4));
    h.add(card(9));
    assert!(h.contains(card(4)));
    assert!(h.contains(card(9)));
    assert!(!h.contains(card(5)));
    assert!(h.remove(card(4)).is_ok());
    assert!(!h.contains(card(4)));
}

#[test]
fn random_pick_comes_from_the_hand() {
    let mut h = Hand::default();
    assert_eq!(h.random(), None);
    h.add(card(4));
    assert_eq!(h.random(), Some(&card(4)));
    h.add(card(20));
    h.add(card(33));
    let mut seen = [false; 3];
    for _ in 0..300 {
        let c = *h.random().unwrap();
        if c == card(4) {
            seen[0] = true;
        } else if c == card(20) {
            seen[1] = true;
        } else {
            assert_eq!(c, card(33));
            seen[2] = true;
        }
    }
    assert_eq!(seen, [true, true, true]);
}

#[test]
fn filter_by_suit_keeps_that_suit_in_order() {
    let mut h = Hand::default();
    for index in [0, 1, 4, 5, 9, 50, 48] {
        h.add(card(index));
    }
    let mut clubs = h.filter_by_suit(Suit::new(0).unwrap());
    assert_eq!(clubs.len(), 3);
    assert!(clubs.remove(card(0)).is_ok());
    assert!(clubs.remove(card(4)).is_ok());
    assert!(clubs.remove(card(48)).is_ok());
    let mut second = h.filter_by_suit(Suit::new(1).unwrap());
    assert_eq!(second.len(), 3);
    assert!(second.remove(card(1)).is_ok());
    assert!(second.remove(card(5)).is_ok());
    assert!(second.remove(card(9)).is_ok());
    assert_eq!(h.filter_by_suit(Suit::new(3).unwrap()).len(), 0);
    assert_eq!(h.len(), 7);
}

#[test]
fn error_messages() {
    assert_eq!(GameError::NotInHand.message(), "That card is not in your hand");
    assert_eq!(GameError::NoMomentum.message(), "You don't have momentum");
    assert_eq!(GameError::Exhausted.message(), "Library ran out of cards");
    assert_eq!(GameError::Overflow.message(), "A counter ran out of room");
}
