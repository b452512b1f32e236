use pluta_lesnura::{PathLength, PathLengthInfo, Rank};

#[test]
fn path_length_info_random_reveal() {
    let length = PathLength::new(Rank::new(7).unwrap());
    let mut pli = PathLengthInfo::default();
    for _ in 0..11 {
        let old_pli = PathLengthInfo::clone(&pli);
        match pli.reveal_random(length) {
            None => panic!("Nothing revealed?"),
            Some(r) => {
                assert!(!old_pli.is_showing(r));
                assert!(pli.is_showing(r));
            }
        }
        assert_eq!(pli.num_showing(), 1 + old_pli.num_showing());
    }
    assert!(pli.reveal_random(length).is_none());
}

#[test]
fn true_length_is_never_revealed() {
    for index in 0..13u8 {
        let rank = Rank::new(index).unwrap();
        let length = PathLength::new(rank);
        let mut pli = PathLengthInfo::default();
        while let Some(r) = pli.reveal_random(length) {
            assert_ne!(r, rank);
            assert!(!pli.is_showing(rank));
        }
        assert_eq!(pli.num_showing(), 11);
        assert_eq!(pli.num_candidates(length), 1);
        assert!(!pli.is_showing(rank));
        let hidden = (0..13u8)
            .filter(|other| !pli.is_showing(Rank::new(*other).unwrap()))
            .count();
        assert_eq!(hidden, 2);
    }
}

#[test]
fn nothing_shows_at_first() {
    let pli = PathLengthInfo::default();
    assert_eq!(pli.num_showing(), 0);
    for index in 0..13u8 {
        assert!(!pli.is_showing(Rank::new(index).unwrap()));
    }
}

#[test]
fn reveal_nth_counts_candidates_in_ascending_order() {
    let length = PathLength::new(Rank::new(2).unwrap());
    let mut pli = PathLengthInfo::default();
    // Candidates are 0, 1, 3, 4, ...: the one with two before it is 3.
    assert_eq!(pli.reveal_nth(length, 2), Rank::new(3));
    // Now 0, 1, 4, 5, ...
    assert_eq!(pli.reveal_nth(length, 2), Rank::new(4));
    assert_eq!(pli.reveal_nth(length, 0), Rank::new(0));
    // Now 1, 5, 6, ..., 12: nine candidates.
    assert_eq!(pli.reveal_nth(length, 9), None);
    assert_eq!(pli.num_showing(), 3);
    assert_eq!(pli.reveal_nth(length, 8), Rank::new(12));
    assert_eq!(pli.num_showing(), 4);
    assert!(!pli.is_showing(Rank::new(2).unwrap()));
}

#[test]
fn random_path_length_is_a_rank() {
    for _ in 0..100 {
        let value = PathLength::random().rank().value();
        assert!((1..=13).contains(&value));
    }
}

#[test]
fn reveals_are_spread_over_the_candidates() {
    let length = PathLength::new(Rank::new(0).unwrap());
    let mut first = [false; 13];
    for _ in 0..600 {
        let mut pli = PathLengthInfo::default();
        let r = pli.reveal_random(length).unwrap();
        first[usize::from(r.value() - 1)] = true;
    }
    assert!(!first[0]);
    assert!(first[1..].iter().all(|seen| *seen));
}

#[test]
fn the_last_decoy_stays_hidden_with_the_true_length() {
    let length = PathLength::new(Rank::new(7).unwrap());
    let mut pli = PathLengthInfo::default();
    // Reveal every rank but those of index 0 and 7: the candidate after the
    // first one, eleven times.
    for shown in 1..=11 {
        assert_eq!(pli.num_candidates(length), 13 - shown);
        assert!(pli.reveal_nth(length, 1).is_some());
        assert_eq!(pli.num_showing(), usize::from(shown));
    }
    assert!(!pli.is_showing(Rank::new(0).unwrap()));
    assert!(!pli.is_showing(Rank::new(7).unwrap()));
    assert_eq!(pli.num_candidates(length), 1);
    assert_eq!(pli.reveal_random(length), None);
    assert_eq!(pli.reveal_nth(length, 0), None);
    assert_eq!(pli.num_showing(), 11);
    assert!(!pli.is_showing(Rank::new(0).unwrap()));
}

#[test]
fn candidates_are_the_hidden_ranks_but_the_true_one() {
    let length = PathLength::new(Rank::new(3).unwrap());
    let mut pli = PathLengthInfo::default();
    assert_eq!(pli.num_candidates(length), 12);
    assert_eq!(pli.reveal_nth(length, 3), Rank::new(4));
    assert_eq!(pli.num_candidates(length), 11);
    // Against another length the rank of index 3 is a candidate too.
    let other = PathLength::new(Rank::new(4).unwrap());
    assert_eq!(pli.num_candidates(other), 12);
}
