use poker_spot::card::{card_from_str, NOT_DEALT};
use poker_spot::hands::{enumerate_against, enumerate_hands, live_hands, position_of};
use poker_spot::range::{parse_range, Range, RangeErrorKind, RangeParseError};

fn card(text: &str) -> u8 {
    card_from_str(text).unwrap()
}

fn count(text: &str) -> usize {
    live_hands(&parse_range(text).unwrap(), &[]).len()
}

#[test]
fn card_text_is_rank_then_suit() {
    assert_eq!(card_from_str("2c"), Some(0));
    assert_eq!(card_from_str("2s"), Some(3));
    assert_eq!(card_from_str("Qc"), Some(40));
    assert_eq!(card_from_str("As"), Some(51));
    assert_eq!(card_from_str("Td"), Some(33));
    assert_eq!(card_from_str("td"), None);
    assert_eq!(card_from_str("TD"), None);
    assert_eq!(card_from_str("T"), None);
    assert_eq!(card_from_str("Tdd"), None);
    assert_eq!(card_from_str(""), None);
    assert_eq!(card_from_str("1c"), None);
}

#[test]
fn classes_have_their_usual_sizes() {
    assert_eq!(count("AA"), 6);
    assert_eq!(count("AKs"), 4);
    assert_eq!(count("AKo"), 12);
    assert_eq!(count("AA-22"), 78);
    assert_eq!(count("66+"), 54);
    assert_eq!(count("A8s+"), 24);
    assert_eq!(count("AJo+"), 36);
    assert_eq!(count("T9s+"), 20);
    assert_eq!(count("T9s-65s"), 20);
    assert_eq!(count("A5s-A4s"), 8);
    assert_eq!(count("AKo-AJo"), 36);
    assert_eq!(count("AsKh"), 1);
    assert_eq!(count(""), 0);
}

#[test]
fn seven_deuce_offsuit_is_twelve_equal_hands() {
    let range = parse_range("72o").unwrap();
    let hands = live_hands(&range, &[]);
    assert_eq!(hands.len(), 12);
    for h in hands.iter() {
        assert_eq!(h.weight, 100);
        assert_eq!(h.first / 4, 0);
        assert_eq!(h.second / 4, 5);
        assert_ne!(h.first % 4, h.second % 4);
    }
}

#[test]
fn weight_prefix_sets_the_percentage() {
    let range = parse_range("AA,50@AKs,25@AsKh,0@AcAd").unwrap();
    assert_eq!(range.weight(card("As"), card("Ah")), 100);
    assert_eq!(range.weight(card("Ah"), card("As")), 100);
    assert_eq!(range.weight(card("Ac"), card("Ad")), 0);
    assert_eq!(range.weight(card("As"), card("Ks")), 50);
    assert_eq!(range.weight(card("As"), card("Kh")), 25);
    assert_eq!(range.weight(card("Ad"), card("Kh")), 0);
    assert_eq!(range.weight(card("As"), card("As")), 0);
    assert_eq!(range.weight(card("As"), NOT_DEALT), 0);
}

#[test]
fn later_entries_override_earlier_ones() {
    let range = parse_range("AKs,50@AsKs,30@AKs").unwrap();
    assert_eq!(range.weight(card("As"), card("Ks")), 30);
    let range = parse_range("50@AsKs,AKs,50@KsAs").unwrap();
    assert_eq!(range.weight(card("As"), card("Ks")), 50);
    assert_eq!(range.weight(card("Ah"), card("Kh")), 100);
}

#[test]
fn malformed_entries_are_refused_with_their_position() {
    let bad = |text: &str, token: usize| {
        assert_eq!(
            parse_range(text).err(),
            Some(RangeParseError { kind: RangeErrorKind::MalformedToken, token }),
            "{}",
            text
        );
    };
    bad("AK", 0);
    bad("KAs", 0);
    bad("AAs", 0);
    bad("AA,", 1);
    bad(",AA", 0);
    bad("AA,KK,QJ,TT", 2);
    bad("AA, KK", 1);
    bad("AsAs", 0);
    bad("AKs-AQo", 0);
    bad("AQs-AKs", 0);
    bad("22-AA", 0);
    bad("AKs-QTs", 0);
    bad("@AA", 0);
    bad("5x@AA", 0);
    bad("50@", 0);
    bad("1Xs", 0);
    bad("AKs++", 0);
}

#[test]
fn weights_above_one_hundred_are_out_of_bounds() {
    assert_eq!(
        parse_range("AA,101@KK").err(),
        Some(RangeParseError { kind: RangeErrorKind::WeightOutOfBounds, token: 1 })
    );
    assert_eq!(
        parse_range("99999999999999999999999@KK").err(),
        Some(RangeParseError { kind: RangeErrorKind::WeightOutOfBounds, token: 0 })
    );
    assert!(parse_range("100@KK,0100@QQ,000@JJ").is_ok());
}

#[test]
fn one_combination_with_two_weights_conflicts() {
    assert_eq!(
        parse_range("50@AsKs,AA,60@KsAs").err(),
        Some(RangeParseError { kind: RangeErrorKind::ConflictingWeight, token: 2 })
    );
    assert_eq!(
        parse_range("AsKs,99@AsKs").err(),
        Some(RangeParseError { kind: RangeErrorKind::ConflictingWeight, token: 1 })
    );
}

#[test]
fn empty_range_holds_nothing() {
    let range = Range::new();
    assert_eq!(live_hands(&range, &[]).len(), 0);
    assert_eq!(range.weight(0, 1), 0);
}

#[test]
fn hands_come_out_in_ascending_index_off_the_board() {
    let oop = parse_range("66+,A8s+,A5s-A4s,AJo+,K9s+,KQo,QTs+,JTs,96s+,85s+,75s+,65s,54s").unwrap();
    let ip = parse_range("QQ-22,AQs-A2s,ATo+,K5s+,KJo+,Q8s+,J8s+,T7s+,96s+,86s+,75s+,64s+,53s+").unwrap();
    let board = [card("Td"), card("9d"), card("6h"), card("Qc"), NOT_DEALT];
    let (oop_hands, ip_hands) = enumerate_hands(&oop, &ip, &board);
    assert_eq!(oop_hands.len(), 167);
    for hands in [&oop_hands, &ip_hands] {
        for pair in hands.windows(2) {
            let a = 52 * pair[0].first as usize + pair[0].second as usize;
            let b = 52 * pair[1].first as usize + pair[1].second as usize;
            assert!(a < b);
        }
        for h in hands.iter() {
            assert!(h.first < h.second);
            assert!(!board.contains(&h.first));
            assert!(!board.contains(&h.second));
        }
    }
    let at = position_of(&oop_hands, card("Ks"), card("Js")).unwrap();
    assert_eq!(oop_hands[at].first, card("Js"));
    assert_eq!(oop_hands[at].second, card("Ks"));
    assert_eq!(position_of(&oop_hands, card("Js"), card("Ks")), Some(at));
    assert_eq!(position_of(&oop_hands, card("Td"), card("Ts")), None);
}

#[test]
fn held_cards_are_removed_from_the_other_range() {
    let range = parse_range("AA,KK,AKs,AKo,QQ").unwrap();
    let board = [NOT_DEALT; 5];
    let hands = enumerate_against(&range, &board, card("As"), card("Ks"));
    assert_eq!(hands.len(), 3 + 3 + 2 + 7 + 6);
    for h in hands.iter() {
        assert_ne!(h.first, card("As"));
        assert_ne!(h.second, card("As"));
        assert_ne!(h.first, card("Ks"));
        assert_ne!(h.second, card("Ks"));
    }
}

#[test]
fn position_ranges_parse() {
    let texts = [
        "AA-22,AKo-AJo,AKs-ATs,KQo-KJo,KQs-KTs,QJs,JTs,T9s,98s,87s",
        "AA-22,AKo-ATo,AKs-A2s,KQo-KTo,KQs-K7s,QJo-Q8o,QJs-QTs,JTs-J9s,T9s-T8s,98s-97s,87s-86s,76s",
        "AA-TT,AKo-A8o,AKs-A5s,KQo-K8o,KQs-K6s,QJo-Q7o,QJs-Q6s,JTo-J7o,JTs-J6s,T9o-T7o,T9s-T6s,98s-96s,87s-85s,76s-75s,65s",
        "AA-22,AKo-A2o,AKs-A2s,KQo-K2o,KQs-K2s,QJo-Q2o,QJs-Q2s,JTo-J2o,JTs-J2s,T9o-T2o,T9s-T2s,98s-94s,87s-84s,76s-74s,65s-64s,54s",
        "AA-22,AKo-A2o,AKs-A2s,KQo-K2o,KQs-K2s,QJo-Q2o,QJs-Q2s,JTo-J2o,JTs-J2s,T9o-T2o,T9s-T2s,98s-93s,87s-83s,76s-73s,65s-63s,54s-53s",
        "AA-22,AKo-A2o,AKs-A2s,KQo-K2o,KQs-K2s,QJo-Q2o,QJs-Q2s,JTo-J2o,JTs-J2s,T9o-T2o,T9s-T2s,98s-92s,87s-82s,76s-72s,65s-62s,54s-52s",
    ];
    let sizes = [78 + 36 + 16 + 24 + 12 + 20, 0, 0, 0, 0, 0];
    for (i, text) in texts.iter().enumerate() {
        let range = parse_range(text).unwrap();
        let n = live_hands(&range, &[]).len();
        assert!(n > 0 && n <= 1326);
        if sizes[i] != 0 {
            assert_eq!(n, sizes[i]);
        }
    }
}
