use poker_spot::bet_size::{
    parse_bet_sizes, parse_donk_sizes, BetSize, BetSizeErrorKind, BetSizeParseError,
};
use poker_spot::board::{parse_board, BoardParseError, BoardState};
use poker_spot::card::{card_from_str, NOT_DEALT};

fn card(text: &str) -> u8 {
    card_from_str(text).unwrap()
}

#[test]
fn board_text_is_read_card_by_card() {
    assert_eq!(
        parse_board("Td9d6h", BoardState::Flop),
        Ok([card("Td"), card("9d"), card("6h"), NOT_DEALT, NOT_DEALT])
    );
    assert_eq!(
        parse_board("Td9d6hQc", BoardState::Turn),
        Ok([card("Td"), card("9d"), card("6h"), card("Qc"), NOT_DEALT])
    );
    assert_eq!(
        parse_board("Td9d6hQc2s", BoardState::River),
        Ok([card("Td"), card("9d"), card("6h"), card("Qc"), card("2s")])
    );
    assert_eq!(parse_board("", BoardState::Preflop), Ok([NOT_DEALT; 5]));
}

#[test]
fn board_text_must_match_the_street() {
    assert_eq!(parse_board("Td9d6h", BoardState::Turn), Err(BoardParseError::WrongCardCount));
    assert_eq!(parse_board("Td9d6hQc", BoardState::Flop), Err(BoardParseError::WrongCardCount));
    assert_eq!(parse_board("Td9d6", BoardState::Flop), Err(BoardParseError::WrongCardCount));
    assert_eq!(parse_board("Td", BoardState::Preflop), Err(BoardParseError::WrongCardCount));
    assert_eq!(parse_board("Td 9d 6h", BoardState::Flop), Err(BoardParseError::WrongCardCount));
}

#[test]
fn board_faults_name_the_first_bad_card() {
    assert_eq!(
        parse_board("Td9x6h", BoardState::Flop),
        Err(BoardParseError::InvalidCard { at: 1 })
    );
    assert_eq!(
        parse_board("Td9dTd", BoardState::Flop),
        Err(BoardParseError::DuplicateCard { at: 2 })
    );
    assert_eq!(
        parse_board("TdTdxx", BoardState::Flop),
        Err(BoardParseError::DuplicateCard { at: 1 })
    );
    assert_eq!(
        parse_board("xxTdTd", BoardState::Flop),
        Err(BoardParseError::InvalidCard { at: 0 })
    );
}

#[test]
fn size_lists_are_read_entry_by_entry() {
    let sizes = parse_bet_sizes("60%, e, a", "2.5x").unwrap();
    assert_eq!(sizes.bet, vec![BetSize::PotRelative(6000), BetSize::Geometric, BetSize::AllIn]);
    assert_eq!(sizes.raise, vec![BetSize::PrevBetRelative(250)]);
    let donk = parse_donk_sizes("50%").unwrap();
    assert_eq!(donk.donk, vec![BetSize::PotRelative(5000)]);
    let sizes = parse_bet_sizes("  33.3% ,125%,0.5%", " 3x , 60% ,a,e ").unwrap();
    assert_eq!(
        sizes.bet,
        vec![BetSize::PotRelative(3330), BetSize::PotRelative(12500), BetSize::PotRelative(50)]
    );
    assert_eq!(
        sizes.raise,
        vec![
            BetSize::PrevBetRelative(300),
            BetSize::PotRelative(6000),
            BetSize::AllIn,
            BetSize::Geometric
        ]
    );
    let sizes = parse_bet_sizes("", "   ").unwrap();
    assert!(sizes.bet.is_empty());
    assert!(sizes.raise.is_empty());
    let sizes = parse_bet_sizes("9999.99%", "1.05x").unwrap();
    assert_eq!(sizes.bet, vec![BetSize::PotRelative(999999)]);
    assert_eq!(sizes.raise, vec![BetSize::PrevBetRelative(105)]);
}

#[test]
fn unknown_size_entries_are_refused_with_their_position() {
    let bad = |bet: &str, raise: &str, token: usize| {
        assert_eq!(
            parse_bet_sizes(bet, raise).err(),
            Some(BetSizeParseError { kind: BetSizeErrorKind::UnknownToken, token }),
            "{:?} {:?}",
            bet,
            raise
        );
    };
    bad("60", "", 0);
    bad("60%,", "", 1);
    bad(",60%", "", 0);
    bad("60%,b", "", 1);
    bad("60 %", "", 0);
    bad("6 0%", "", 0);
    bad("12345%", "", 0);
    bad("1.234%", "", 0);
    bad("1.%", "", 0);
    bad(".5%", "", 0);
    bad("%", "", 0);
    bad("A", "", 0);
    bad("60%", "2.5", 0);
    bad("60%", "2x,x", 1);
    bad("-", "", 0);
    bad("--5%", "", 0);
}

#[test]
fn sizes_must_be_positive() {
    for text in ["0%", "0.00%", "-50%", "a,-1.5%", "e, 0%"] {
        let e = parse_bet_sizes(text, "").err().unwrap();
        assert_eq!(e.kind, BetSizeErrorKind::NonPositiveSize, "{}", text);
    }
    assert_eq!(
        parse_bet_sizes("50%", "3x,0x").err(),
        Some(BetSizeParseError { kind: BetSizeErrorKind::NonPositiveSize, token: 1 })
    );
    assert_eq!(
        parse_bet_sizes("50%", "-2x").err(),
        Some(BetSizeParseError { kind: BetSizeErrorKind::NonPositiveSize, token: 0 })
    );
}

#[test]
fn a_multiple_needs_a_bet_to_raise() {
    assert_eq!(
        parse_bet_sizes("50%,2x", "3x").err(),
        Some(BetSizeParseError { kind: BetSizeErrorKind::MultiplierWithoutBet, token: 1 })
    );
    assert_eq!(
        parse_donk_sizes("2x").err(),
        Some(BetSizeParseError { kind: BetSizeErrorKind::MultiplierWithoutBet, token: 0 })
    );
    assert!(parse_bet_sizes("50%", "2x").is_ok());
}

#[test]
fn the_bet_list_is_read_before_the_raise_list() {
    assert_eq!(
        parse_bet_sizes("50%,zz", "0x").err(),
        Some(BetSizeParseError { kind: BetSizeErrorKind::UnknownToken, token: 1 })
    );
}
