use poker_spot::bet_size::{parse_bet_sizes, parse_donk_sizes};
use poker_spot::board::BoardState;
use poker_spot::card::{card_from_str, NOT_DEALT};
use poker_spot::config::{TreeConfig, TreeConfigError};
use poker_spot::game::{build, CardConfig, Game, GameError};
use poker_spot::hands::{position_of, Hand};
use poker_spot::layout::{cell, count_reach, hand_row, lay_out, reachable, AllocationError, Table};
use poker_spot::payoff::{payoff_after_fold, payoff_at_showdown, rake, Outcome};
use poker_spot::range::parse_range;
use poker_spot::range_text::{hand_from_str, hand_to_string, holes_to_strings};
use poker_spot::regret::regret_matching;
use poker_spot::solver::{
    check_solved, step, Command, Event, SolverState, SolverStateError, CHECK_INTERVAL,
};
use poker_spot::spot::{advance, legal_actions, Action, Spot, Stage};
use poker_spot::weights::{facing_weight, hand_masses, hand_masses_at, mass_total};

const OOP: &str = "66+,A8s+,A5s-A4s,AJo+,K9s+,KQo,QTs+,JTs,96s+,85s+,75s+,65s,54s";
const IP: &str = "QQ-22,AQs-A2s,ATo+,K5s+,KJo+,Q8s+,J8s+,T7s+,96s+,86s+,75s+,64s+,53s+";

fn card(text: &str) -> u8 {
    card_from_str(text).unwrap()
}

fn cards() -> CardConfig {
    CardConfig {
        range: [parse_range(OOP).unwrap(), parse_range(IP).unwrap()],
        flop: [card("Td"), card("9d"), card("6h")],
        turn: card("Qc"),
        river: NOT_DEALT,
    }
}

fn config() -> TreeConfig {
    let sizes = parse_bet_sizes("60%, e, a", "2.5x").unwrap();
    TreeConfig {
        initial_state: BoardState::Turn,
        starting_pot: 20,
        effective_stack: 100,
        rake_rate: 0,
        rake_cap: 0,
        flop_bet_sizes: [sizes.clone(), sizes.clone()],
        turn_bet_sizes: [sizes.clone(), sizes.clone()],
        river_bet_sizes: [sizes.clone(), sizes],
        turn_donk_sizes: None,
        river_donk_sizes: Some(parse_donk_sizes("50%").unwrap()),
        add_allin_threshold: 15000,
        force_allin_threshold: 1500,
        merging_threshold: 1000,
    }
}

fn game() -> Game {
    let cards = cards();
    let tree = build(config(), &cards).unwrap();
    Game::with_config(cards, tree).unwrap()
}

fn run(game: &mut Game, max_iterations: u32, converge_at: Option<u32>) -> (u32, u32) {
    let mut command = game.handle(Event::Start { max_iterations }).unwrap();
    let (mut iterations, mut measurements) = (0, 0);
    loop {
        match command {
            Command::Iterate => {
                iterations += 1;
                command = game.handle(Event::IterationDone).unwrap();
            }
            Command::Measure => {
                measurements += 1;
                let within_target = converge_at.map_or(false, |n| iterations >= n);
                command = game.handle(Event::Measured { within_target }).unwrap();
            }
            Command::Stop => return (iterations, measurements),
            Command::Idle => panic!("idle in a run"),
        }
    }
}

#[test]
fn turn_spot_exposes_actions_hands_and_a_mixed_strategy() {
    let mut game = game();
    game.allocate_memory(false, usize::MAX).unwrap();
    run(&mut game, 1000, Some(120));
    game.cache_normalized_weights().unwrap();
    let actions = game.available_actions().clone();
    assert_eq!(
        actions,
        vec![Action::Check, Action::Bet(12), Action::Bet(23), Action::AllIn(100)]
    );
    let hands = game.private_cards(0).clone();
    assert_eq!(hands.len(), 167);
    assert_eq!(game.normalized_weights(0).unwrap().len(), hands.len());
    let texts = holes_to_strings(&hands);
    let ksjs = texts.iter().position(|s| s == "KsJs").unwrap();
    assert_eq!(Some(ksjs), position_of(&hands, card("Ks"), card("Js")));
    let root = game.tree().root();
    let table = game.table(root).unwrap();
    assert_eq!((table.actions, table.hands), (4, 167));
    let mut strategy = vec![0.0f32; table.offset + 4 * 167];
    for a in 0..4 {
        for h in 0..167 {
            strategy[table.offset + a * 167 + h] = [0.4, 0.3, 0.2, 0.1][a] + h as f32 * 1e-6
                - if a == 3 { 3.0 * h as f32 * 1e-6 } else { 0.0 };
        }
    }
    let row = game.hand_values(&strategy, root, ksjs).unwrap().unwrap();
    assert_eq!(row.len(), 4);
    for a in 0..4 {
        assert_eq!(row[a], strategy[table.offset + ksjs + 167 * a]);
    }
    assert!((row.iter().sum::<f32>() - 1.0).abs() < 1e-3);
}

#[test]
fn hand_texts_put_the_higher_card_first() {
    let h = Hand { first: card("Js"), second: card("Ks"), weight: 100 };
    assert_eq!(hand_to_string(&h), "KsJs");
    assert_eq!(hand_from_str("KsJs"), Some((card("Js"), card("Ks"))));
    assert_eq!(hand_from_str("JsKs"), Some((card("Js"), card("Ks"))));
    assert_eq!(hand_from_str("KsKs"), None);
    assert_eq!(hand_from_str("KsJ"), None);
    assert_eq!(hand_from_str("KsJsQs"), None);
    assert_eq!(hand_from_str("KsJx"), None);
    let h = Hand { first: 0, second: 51, weight: 1 };
    assert_eq!(hand_to_string(&h), "As2c");
    let texts = holes_to_strings(game().private_cards(1));
    for (i, t) in texts.iter().enumerate() {
        let h = game().private_cards(1)[i];
        assert_eq!(hand_from_str(t), Some((h.first, h.second)));
    }
}

#[test]
fn canonical_text_reads_back_as_the_same_range() {
    for text in [OOP, IP, "", "AA", "50@AKs,25@AsKh,0@AcAd,7@22+", "100@2c2d,1@AsKs"] {
        let range = parse_range(text).unwrap();
        let canonical = range.to_text();
        let again = parse_range(&canonical).unwrap();
        for c1 in 0..52u8 {
            for c2 in 0..52u8 {
                assert_eq!(range.weight(c1, c2), again.weight(c1, c2));
            }
        }
        assert_eq!(again.to_text(), canonical);
    }
    assert_eq!(parse_range("").unwrap().to_text(), "");
    assert_eq!(parse_range("AcAd,5@AsKs").unwrap().to_text(), "5@AsKs,100@AdAc");
    assert_eq!(parse_range("22").unwrap().to_text().split(',').count(), 6);
    assert!(parse_range("22").unwrap().to_text().starts_with("100@2d2c,100@2h2c,100@2s2c,"));
    assert_eq!(parse_range("43@3c2c").unwrap().to_text(), "43@3c2c");
}

#[test]
fn tables_follow_the_nodes() {
    let game = game();
    let tree = game.tree();
    let (oop, ip) = (game.private_cards(0), game.private_cards(1));
    let (tables, total) = lay_out(tree, oop, ip, usize::MAX).unwrap();
    assert_eq!(tables.len(), tree.len());
    let mut offset = 0;
    for id in 0..tree.len() {
        let node = tree.node(id);
        let t = tables[id];
        assert_eq!(t.offset, offset);
        match node.spot.stage {
            Stage::Open | Stage::Checked | Stage::Facing => {
                let hands = if node.spot.to_act == 0 { oop } else { ip };
                assert_eq!(t.actions, node.actions.len());
                assert_eq!(t.hands, count_reach(hands, &node.spot.board));
                assert_eq!(t.hands, reachable(hands, &node.spot.board).len());
            }
            _ => assert_eq!((t.actions, t.hands), (0, 0)),
        }
        offset += t.actions * t.hands;
    }
    assert_eq!(total, offset);
    let root = tables[tree.root()];
    assert_eq!((root.actions, root.hands), (4, 167));
    assert_eq!(
        lay_out(tree, oop, ip, total - 1),
        Err(AllocationError { budget: total - 1, node: tree.root() })
    );
    assert!(lay_out(tree, oop, ip, total).is_ok());
    let first = (0..tree.len()).find(|&i| tables[i].actions > 0).unwrap();
    assert_eq!(lay_out(tree, oop, ip, 0), Err(AllocationError { budget: 0, node: first }));
}

#[test]
fn river_tables_leave_out_the_hands_the_river_blocks() {
    let game = game();
    let tree = game.tree();
    let oop = game.private_cards(0);
    let check = tree.node(tree.root()).children[0];
    let deal = tree.node(check).children[0];
    let mut board = tree.node(deal).spot.board;
    board[4] = card("Ks");
    let at = reachable(oop, &board);
    assert_eq!(at.len(), count_reach(oop, &board));
    assert!(at.len() < oop.len());
    for &i in at.iter() {
        assert_ne!(oop[i].first, card("Ks"));
        assert_ne!(oop[i].second, card("Ks"));
    }
    let blocked = (0..oop.len()).filter(|i| !at.contains(i)).count();
    assert_eq!(blocked, oop.iter().filter(|h| h.second == card("Ks") || h.first == card("Ks")).count());
}

#[test]
fn cells_lie_action_by_action() {
    let t = Table { offset: 1000, actions: 4, hands: 167 };
    assert_eq!(cell(&t, 0, 0), Some(1000));
    assert_eq!(cell(&t, 0, 166), Some(1166));
    assert_eq!(cell(&t, 1, 0), Some(1167));
    assert_eq!(cell(&t, 3, 20), Some(1000 + 3 * 167 + 20));
    assert_eq!(cell(&t, 4, 0), None);
    assert_eq!(cell(&t, 0, 167), None);
    let cells: Vec<u32> = (0..2000).collect();
    assert_eq!(hand_row(&cells, &t, 20), Some(vec![1020, 1187, 1354, 1521]));
    assert_eq!(hand_row(&cells, &t, 167), None);
    assert_eq!(hand_row(&cells[..1667], &t, 0), None);
    assert_eq!(hand_row(&cells[..1668], &t, 166), Some(vec![1166, 1333, 1500, 1667]));
    let none = Table { offset: 5, actions: 0, hands: 0 };
    assert_eq!(hand_row(&cells, &none, 0), None);
}

#[test]
fn memory_is_allocated_once_and_within_the_budget() {
    let mut game = game();
    assert_eq!(game.solver_state(), SolverState::Uninitialized);
    assert_eq!(game.table(0).err(), Some(SolverStateError::NotAllocated));
    let total = lay_out(game.tree(), game.private_cards(0), game.private_cards(1), usize::MAX)
        .unwrap()
        .1;
    let e = game.allocate_memory(false, total * 8 - 1).unwrap_err();
    match e {
        GameError::Allocation(a) => assert_eq!(a.budget, total - 1),
        _ => panic!("not an allocation error"),
    }
    assert_eq!(game.solver_state(), SolverState::Uninitialized);
    assert!(game.allocate_memory(true, total * 4 - 1).is_err());
    assert_eq!(game.allocate_memory(true, total * 4), Ok(()));
    assert_eq!(game.solver_state(), SolverState::Allocated);
    assert_eq!(
        game.allocate_memory(false, usize::MAX),
        Err(GameError::State(SolverStateError::AlreadyAllocated))
    );
    assert!(game.table(0).is_ok());
}

#[test]
fn a_game_needs_the_board_of_its_tree() {
    let tree = build(config(), &cards()).unwrap();
    let mut other = cards();
    other.turn = card("2c");
    assert_eq!(Game::with_config(other, tree).err(), Some(GameError::BoardMismatch));
    let mut flop = cards();
    flop.turn = NOT_DEALT;
    assert_eq!(build(config(), &flop).err(), Some(TreeConfigError::InvalidBoard));
}

#[test]
fn results_wait_for_the_solve_and_the_weights() {
    let mut game = game();
    assert_eq!(game.normalized_weights(0).err(), Some(SolverStateError::NotAllocated));
    assert_eq!(game.cache_normalized_weights(), Err(SolverStateError::NotAllocated));
    assert_eq!(game.handle(Event::Start { max_iterations: 10 }), Err(SolverStateError::NotAllocated));
    assert_eq!(game.handle(Event::Allocated), Err(SolverStateError::OutOfTurn));
    game.allocate_memory(false, usize::MAX).unwrap();
    assert_eq!(game.handle(Event::Allocated), Err(SolverStateError::OutOfTurn));
    assert_eq!(game.cache_normalized_weights(), Err(SolverStateError::NotSolved));
    assert_eq!(game.hand_values(&[0u8; 4], 0, 0).err(), Some(SolverStateError::NotSolved));
    assert_eq!(game.handle(Event::IterationDone), Err(SolverStateError::OutOfTurn));
    assert_eq!(game.handle(Event::Start { max_iterations: 12 }), Ok(Command::Measure));
    assert_eq!(game.handle(Event::Start { max_iterations: 12 }), Err(SolverStateError::OutOfTurn));
    assert_eq!(game.normalized_weights(1).err(), Some(SolverStateError::NotSolved));
    assert_eq!(game.handle(Event::IterationDone), Err(SolverStateError::OutOfTurn));
    assert_eq!(game.handle(Event::Measured { within_target: false }), Ok(Command::Iterate));
    assert_eq!(game.handle(Event::Measured { within_target: true }), Err(SolverStateError::OutOfTurn));
    for _ in 0..9 {
        assert_eq!(game.handle(Event::IterationDone), Ok(Command::Iterate));
    }
    assert_eq!(game.handle(Event::IterationDone), Ok(Command::Measure));
    assert_eq!(game.handle(Event::Measured { within_target: false }), Ok(Command::Iterate));
    assert_eq!(game.handle(Event::IterationDone), Ok(Command::Iterate));
    assert_eq!(game.handle(Event::IterationDone), Ok(Command::Measure));
    assert_eq!(game.handle(Event::Measured { within_target: true }), Ok(Command::Stop));
    assert_eq!(game.solver_state(), SolverState::Converged { iterations: 12 });
    assert_eq!(game.handle(Event::IterationDone), Err(SolverStateError::OutOfTurn));
    assert_eq!(game.normalized_weights(0).err(), Some(SolverStateError::WeightsNotCached));
    assert_eq!(game.hand_values(&[0u8; 4], 0, 0).err(), Some(SolverStateError::WeightsNotCached));
    assert_eq!(game.cache_normalized_weights(), Ok(()));
    assert!(game.normalized_weights(0).is_ok());
    assert_eq!(game.hand_values(&[0u8; 4], usize::MAX, 0), Ok(None));
}

#[test]
fn a_run_stops_at_the_target_or_at_the_cap() {
    assert_eq!(CHECK_INTERVAL, 10);
    for (cap, target, iterations, measurements, converged) in [
        (1000u32, Some(120u32), 120u32, 13u32, true),
        (1000, Some(115), 120, 13, true),
        (1000, Some(0), 0, 1, true),
        (1000, None, 1000, 101, false),
        (1005, None, 1005, 102, false),
        (7, None, 7, 2, false),
        (7, Some(7), 7, 2, true),
        (10, None, 10, 2, false),
        (1, None, 1, 2, false),
        (0, None, 0, 1, false),
        (0, Some(0), 0, 1, true),
    ] {
        let mut game = game();
        game.allocate_memory(true, usize::MAX).unwrap();
        assert_eq!(run(&mut game, cap, target), (iterations, measurements));
        let expected = if converged {
            SolverState::Converged { iterations }
        } else {
            SolverState::IterationCapReached { iterations }
        };
        assert_eq!(game.solver_state(), expected);
        assert_eq!(check_solved(game.solver_state()), Ok(()));
    }
    assert_eq!(check_solved(SolverState::Uninitialized), Err(SolverStateError::NotAllocated));
    assert_eq!(check_solved(SolverState::Allocated), Err(SolverStateError::NotSolved));
    assert_eq!(
        step(SolverState::Uninitialized, Event::Allocated),
        Ok((SolverState::Allocated, Command::Idle))
    );
    assert_eq!(
        step(SolverState::Allocated, Event::Allocated),
        Err(SolverStateError::AlreadyAllocated)
    );
}

#[test]
fn masses_leave_out_the_hands_that_share_a_card() {
    let h = |a: &str, b: &str, weight: u8| {
        let (x, y) = (card(a), card(b));
        Hand { first: x.min(y), second: x.max(y), weight }
    };
    let mine = vec![h("As", "Ks", 100), h("Qd", "Qh", 50), h("2c", "3c", 0)];
    let theirs = vec![h("As", "Ad", 100), h("Ks", "Qs", 40), h("Qd", "Jd", 30), h("7c", "7d", 25)];
    assert_eq!(facing_weight(&mine[0], &theirs), 55);
    assert_eq!(facing_weight(&mine[1], &theirs), 165);
    assert_eq!(facing_weight(&mine[2], &theirs), 195);
    assert_eq!(hand_masses(&mine, &theirs), vec![5500, 8250, 0]);
    assert_eq!(hand_masses(&theirs, &mine), vec![5000, 2000, 3000, 3750]);
    assert_eq!(hand_masses(&mine, &vec![]), vec![0, 0, 0]);
    let mut game = game();
    game.allocate_memory(false, usize::MAX).unwrap();
    run(&mut game, 1, None);
    game.cache_normalized_weights().unwrap();
    let oop = game.private_cards(0).clone();
    let ip = game.private_cards(1).clone();
    let masses = game.normalized_weights(0).unwrap();
    for (i, hand) in oop.iter().enumerate() {
        let facing: u64 = ip
            .iter()
            .filter(|o| {
                o.first != hand.first
                    && o.first != hand.second
                    && o.second != hand.first
                    && o.second != hand.second
            })
            .map(|o| o.weight as u64)
            .sum();
        assert_eq!(masses[i], hand.weight as u64 * facing);
    }
}

#[test]
fn regret_matching_gives_a_distribution() {
    let mix = regret_matching(&[30, -10, 0, 70]);
    assert_eq!(mix.weights, vec![30, 0, 0, 70]);
    assert_eq!(mix.total, 100);
    let mix = regret_matching(&[-5, 0, -1]);
    assert_eq!(mix.weights, vec![1, 1, 1]);
    assert_eq!(mix.total, 3);
    let mix = regret_matching(&[i64::MAX, i64::MAX, i64::MIN]);
    assert_eq!(mix.weights, vec![i64::MAX as u64, i64::MAX as u64, 0]);
    assert_eq!(mix.total, 2 * i64::MAX as u128);
    let mix = regret_matching(&[]);
    assert!(mix.weights.is_empty());
    assert_eq!(mix.total, 0);
    for regrets in [vec![1i64], vec![0], vec![3, 4, 5], vec![-3, 4, -5, 6, 0]] {
        let mix = regret_matching(&regrets);
        assert_eq!(mix.weights.iter().map(|w| *w as u128).sum::<u128>(), mix.total);
        let p: f64 = mix.weights.iter().map(|w| *w as f64 / mix.total as f64).sum();
        assert!((p - 1.0).abs() < 1e-9);
    }
}

#[test]
fn payoffs_are_in_half_chips() {
    let mut cfg = config();
    let board = cards().board();
    let root = Spot {
        street: BoardState::Turn,
        board,
        stage: Stage::Open,
        to_act: 0,
        wagered: 0,
        bet: 0,
        paid: 0,
        donk: false,
    };
    assert_eq!(
        legal_actions(&cfg, &root),
        vec![Action::Check, Action::Bet(12), Action::Bet(23), Action::AllIn(100)]
    );
    let bet = advance(&cfg, &root, Action::Bet(12));
    let raise = advance(&cfg, &bet, Action::Raise(30));
    let fold = advance(&cfg, &raise, Action::Fold);
    assert_eq!(fold.stage, Stage::Folded);
    assert_eq!(payoff_after_fold(&cfg, &fold, 0), -24);
    assert_eq!(payoff_after_fold(&cfg, &fold, 1), 64);
    let call = advance(&cfg, &raise, Action::Call);
    assert_eq!(call.stage, Stage::Deal);
    let river = advance(&cfg, &call, Action::Chance(card("2c")));
    assert_eq!(river.stage, Stage::Open);
    assert!(river.donk);
    let check = advance(&cfg, &river, Action::Check);
    let show = advance(&cfg, &check, Action::Check);
    assert_eq!(show.stage, Stage::Showdown);
    assert_eq!(show.wagered, 30);
    assert_eq!(payoff_at_showdown(&cfg, &show, Outcome::Win), 100);
    assert_eq!(payoff_at_showdown(&cfg, &show, Outcome::Lose), -60);
    assert_eq!(payoff_at_showdown(&cfg, &show, Outcome::Tie), 20);
    cfg.rake_rate = 500;
    cfg.rake_cap = 3;
    assert_eq!(rake(&cfg, 80), 6);
    assert_eq!(rake(&cfg, 44), 4);
    assert_eq!(rake(&cfg, 5), 0);
    assert_eq!(rake(&cfg, 10), 1);
    assert_eq!(payoff_at_showdown(&cfg, &show, Outcome::Win), 94);
    assert_eq!(payoff_at_showdown(&cfg, &show, Outcome::Lose), -60);
    assert_eq!(payoff_at_showdown(&cfg, &show, Outcome::Tie), 17);
    assert_eq!(payoff_after_fold(&cfg, &fold, 1), 60);
    assert_eq!(payoff_after_fold(&cfg, &fold, 0), -24);
}

#[test]
fn masses_on_a_later_board_drop_the_blocked_hands() {
    let h = |a: &str, b: &str, weight: u8| {
        let (x, y) = (card(a), card(b));
        Hand { first: x.min(y), second: x.max(y), weight }
    };
    let mine = vec![h("As", "Ks", 100), h("Qd", "Qh", 50), h("2c", "3c", 10)];
    let theirs = vec![h("As", "Ad", 100), h("Ks", "Qs", 40), h("Qd", "Jd", 30), h("7c", "7d", 25)];
    let none = [NOT_DEALT; 5];
    assert_eq!(hand_masses_at(&mine, &theirs, &none), hand_masses(&mine, &theirs));
    let board = [card("7c"), card("8h"), card("9h"), card("Qd"), NOT_DEALT];
    assert_eq!(hand_masses_at(&mine, &theirs, &board), vec![0, 0, 1400]);
    assert_eq!(hand_masses_at(&theirs, &mine, &board), vec![1000, 400, 0, 0]);
    assert_eq!(mass_total(&vec![]), 0);
    assert_eq!(mass_total(&vec![5500, 8250, 0]), 13750);
    assert_eq!(mass_total(&vec![u64::MAX, u64::MAX]), 2 * u64::MAX as u128);
    let mut game = game();
    game.allocate_memory(false, usize::MAX).unwrap();
    assert_eq!(game.normalized_weights_at(0, 0).err(), Some(SolverStateError::NotSolved));
    run(&mut game, 1, None);
    assert_eq!(game.normalized_weights_at(0, 0).err(), Some(SolverStateError::WeightsNotCached));
    game.cache_normalized_weights().unwrap();
    let root = game.tree().root();
    assert_eq!(&game.normalized_weights_at(root, 0).unwrap(), game.normalized_weights(0).unwrap());
    assert_eq!(&game.normalized_weights_at(root, 1).unwrap(), game.normalized_weights(1).unwrap());
    let check = game.tree().node(root).children[0];
    let deal = game.tree().node(check).children[0];
    let river = game.tree().node(deal).children[0];
    let dealt = game.tree().node(river).spot.board[4];
    let masses = game.normalized_weights_at(river, 0).unwrap();
    let at_root = game.normalized_weights(0).unwrap();
    for (i, hand) in game.private_cards(0).iter().enumerate() {
        if hand.first == dealt || hand.second == dealt {
            assert_eq!(masses[i], 0);
        } else {
            assert!(masses[i] <= at_root[i]);
        }
    }
}
