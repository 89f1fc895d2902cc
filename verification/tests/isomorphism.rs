use poker_spot::board::{parse_board, BoardState};
use poker_spot::card::card_from_str;
use poker_spot::hands::live_hands;
use poker_spot::isomorphism::{
    board_is_kept, deal_representative, range_is_kept, suits_interchangeable, swap_card,
    swapped_position,
};
use poker_spot::range::parse_range;

fn card(text: &str) -> u8 {
    card_from_str(text).unwrap()
}

#[test]
fn exchanging_suits_keeps_the_rank() {
    assert_eq!(swap_card(card("As"), 3, 2), card("Ah"));
    assert_eq!(swap_card(card("Ah"), 3, 2), card("As"));
    assert_eq!(swap_card(card("Ad"), 3, 2), card("Ad"));
    assert_eq!(swap_card(card("2c"), 0, 1), card("2d"));
    assert_eq!(swap_card(card("2c"), 0, 0), card("2c"));
    assert_eq!(swap_card(255, 3, 0), 255);
    for c in 0..52u8 {
        for a in 0..4 {
            for b in 0..4 {
                let x = swap_card(c, a, b);
                assert_eq!(x / 4, c / 4);
                assert_eq!(swap_card(x, a, b), c);
                assert_eq!(swap_card(c, b, a), x);
            }
        }
    }
}

#[test]
fn suits_off_the_board_are_interchangeable_for_symmetric_ranges() {
    let oop = parse_range("66+,A8s+,A5s-A4s,AJo+,K9s+,KQo,QTs+,JTs,96s+,85s+,75s+,65s,54s").unwrap();
    let ip = parse_range("QQ-22,AQs-A2s,ATo+,K5s+,KJo+,Q8s+,J8s+,T7s+,96s+,86s+,75s+,64s+,53s+").unwrap();
    let board = parse_board("Td9d6hQc", BoardState::Turn).unwrap();
    for a in 0..4 {
        assert!(range_is_kept(&oop, a, a));
        for b in 0..4 {
            assert!(range_is_kept(&oop, a, b));
            assert!(range_is_kept(&ip, a, b));
            assert_eq!(suits_interchangeable(&board, &oop, &ip, a, b), a == b);
            assert_eq!(board_is_kept(&board, a, b), a == b);
        }
    }
    assert!(!suits_interchangeable(&board, &oop, &ip, 4, 4));
    let board = parse_board("Td9d6d", BoardState::Flop).unwrap();
    let free = [0u8, 2, 3];
    for a in 0..4u8 {
        for b in 0..4u8 {
            let expected = a == b || (free.contains(&a) && free.contains(&b));
            assert_eq!(suits_interchangeable(&board, &oop, &ip, a, b), expected);
        }
    }
    assert_eq!(deal_representative(&board, &oop, &ip, card("2c")), card("2c"));
    assert_eq!(deal_representative(&board, &oop, &ip, card("2d")), card("2d"));
    assert_eq!(deal_representative(&board, &oop, &ip, card("2h")), card("2c"));
    assert_eq!(deal_representative(&board, &oop, &ip, card("2s")), card("2c"));
    assert_eq!(deal_representative(&board, &oop, &ip, card("As")), card("Ac"));
    let board = parse_board("TdTc6d", BoardState::Flop).unwrap();
    assert_eq!(deal_representative(&board, &oop, &ip, card("Ts")), card("Th"));
    assert_eq!(deal_representative(&board, &oop, &ip, card("Th")), card("Th"));
    assert_eq!(deal_representative(&board, &oop, &ip, card("6s")), card("6h"));
    assert_eq!(deal_representative(&board, &oop, &ip, card("6c")), card("6c"));
    let distinct: std::collections::BTreeSet<u8> = (0..52u8)
        .filter(|c| !board.contains(c))
        .map(|c| deal_representative(&board, &oop, &ip, c))
        .collect();
    assert_eq!(distinct.len(), 49 - 13);
}

#[test]
fn a_weighted_combination_ties_its_suits() {
    let plain = parse_range("AA,KK").unwrap();
    let tilted = parse_range("AA,KK,50@AsKs").unwrap();
    let board = parse_board("7d8d9d", BoardState::Flop).unwrap();
    assert!(suits_interchangeable(&board, &plain, &plain, 0, 3));
    assert!(range_is_kept(&tilted, 0, 2));
    assert!(!range_is_kept(&tilted, 0, 3));
    assert!(!range_is_kept(&tilted, 3, 2));
    assert!(!suits_interchangeable(&board, &plain, &tilted, 0, 3));
    assert!(!suits_interchangeable(&board, &tilted, &plain, 3, 0));
    assert!(suits_interchangeable(&board, &tilted, &plain, 0, 2));
    assert_eq!(deal_representative(&board, &plain, &tilted, card("2s")), card("2s"));
    assert_eq!(deal_representative(&board, &plain, &tilted, card("2h")), card("2c"));
}

#[test]
fn exchanged_hands_are_found_in_the_same_list() {
    let range = parse_range("AA,AKs,72o").unwrap();
    let board = parse_board("Td9d6d", BoardState::Flop).unwrap();
    let hands = live_hands(&range, &board);
    for at in 0..hands.len() {
        let to = swapped_position(&hands, at, 0, 3).unwrap();
        assert_eq!(hands[to].weight, hands[at].weight);
        assert_eq!(swapped_position(&hands, to, 0, 3), Some(at));
        let same = hands[at].first % 4 != 0
            && hands[at].first % 4 != 3
            && hands[at].second % 4 != 0
            && hands[at].second % 4 != 3;
        assert_eq!(to == at, same || {
            let (a, b) = (hands[at].first, hands[at].second);
            a / 4 == b / 4 && (a % 4 == 0 || a % 4 == 3) && (b % 4 == 0 || b % 4 == 3)
        });
    }
    let some = live_hands(&parse_range("AsKs").unwrap(), &board);
    assert_eq!(swapped_position(&some, 0, 0, 3), None);
    assert_eq!(swapped_position(&some, 0, 1, 2), Some(0));
}

#[test]
fn every_deal_has_a_card_that_stands_for_it() {
    let oop = parse_range("AA,KK,QQ,AKs").unwrap();
    let ip = parse_range("22+,AQs+").unwrap();
    let board = parse_board("Td9d6dQc", BoardState::Turn).unwrap();
    let reps = poker_spot::isomorphism::deal_representatives(&board, &oop, &ip);
    let deals: Vec<u8> = (0..52u8).filter(|c| !board.contains(c)).collect();
    assert_eq!(reps.len(), 48);
    for (k, c) in deals.iter().enumerate() {
        assert_eq!(reps[k], deal_representative(&board, &oop, &ip, *c));
        assert_eq!(reps[k] / 4, c / 4);
        assert!(reps[k] <= *c);
        assert!(deals.contains(&reps[k]));
    }
    assert_eq!(reps[deals.iter().position(|c| *c == card("2s")).unwrap()], card("2h"));
    assert_eq!(reps[deals.iter().position(|c| *c == card("2c")).unwrap()], card("2c"));
    assert_eq!(reps[deals.iter().position(|c| *c == card("2d")).unwrap()], card("2d"));
}
