use poker_spot::bet_size::{parse_bet_sizes, parse_donk_sizes, BetSize, BetSizeOptions};
use poker_spot::board::{parse_board, BoardState};
use poker_spot::card::NOT_DEALT;
use poker_spot::config::{TreeConfig, TreeConfigError};
use poker_spot::sizing::{geometric_bet, insert_amount, merge_amounts, scale};
use poker_spot::spot::{Action, Stage};
use poker_spot::tree::ActionTree;

fn turn_config() -> TreeConfig {
    let sizes = parse_bet_sizes("60%, e, a", "2.5x").unwrap();
    TreeConfig {
        initial_state: BoardState::Turn,
        starting_pot: 20,
        effective_stack: 100,
        rake_rate: 0,
        rake_cap: 0,
        flop_bet_sizes: [sizes.clone(), sizes.clone()],
        turn_bet_sizes: [sizes.clone(), sizes.clone()],
        river_bet_sizes: [sizes.clone(), sizes],
        turn_donk_sizes: None,
        river_donk_sizes: Some(parse_donk_sizes("50%").unwrap()),
        add_allin_threshold: 15000,
        force_allin_threshold: 1500,
        merging_threshold: 1000,
    }
}

fn turn_tree() -> ActionTree {
    let board = parse_board("Td9d6hQc", BoardState::Turn).unwrap();
    ActionTree::new(turn_config(), board).unwrap()
}

fn child(tree: &ActionTree, id: usize, action: Action) -> usize {
    let node = tree.node(id);
    let k = node.actions.iter().position(|a| *a == action).unwrap();
    node.children[k]
}

#[test]
fn rounding_is_to_the_nearest_chip() {
    assert_eq!(scale(20, 6000, 10000), 12);
    assert_eq!(scale(44, 6000, 10000), 26);
    assert_eq!(scale(45, 5000, 10000), 23);
    assert_eq!(scale(12, 250, 100), 30);
    assert_eq!(scale(75, 250, 100), 188);
    assert_eq!(scale(0, 250, 100), 0);
    assert_eq!(scale(u64::MAX, u32::MAX, 1), u64::MAX as u128 * u32::MAX as u128);
}

#[test]
fn geometric_bet_grows_the_pot_evenly() {
    assert_eq!(geometric_bet(20, 100, 1), 100);
    assert_eq!(geometric_bet(20, 100, 2), 23);
    assert_eq!(geometric_bet(20, 100, 3), 12);
    assert_eq!(geometric_bet(100, 0, 2), 0);
    assert_eq!(geometric_bet(1, 12, 2), 2);
    assert_eq!(geometric_bet(10, 40, 3), 5);
    for (p, r, n) in [(20u64, 100u64, 2u8), (7, 1000, 3), (1, 4294967295, 3), (12884901885, 4294967295, 3)] {
        let g = geometric_bet(p, r, n) as u128;
        let (p, r) = (p as u128, r as u128);
        let grown = |g: u128| (p + 2 * g).pow(n as u32);
        assert!(grown(g) <= p.pow(n as u32 - 1) * (p + 2 * r));
        assert!(g == r || grown(g + 1) > p.pow(n as u32 - 1) * (p + 2 * r));
    }
}

#[test]
fn amounts_stay_ascending_and_distinct() {
    let mut v = Vec::new();
    for x in [30u32, 10, 20, 10, 40, 30, 5] {
        insert_amount(&mut v, x);
    }
    assert_eq!(v, vec![5, 10, 20, 30, 40]);
}

#[test]
fn close_amounts_merge_into_the_larger() {
    assert_eq!(merge_amounts(&vec![], 1000), Vec::<u32>::new());
    assert_eq!(merge_amounts(&vec![50], 1000), vec![50]);
    assert_eq!(merge_amounts(&vec![90, 100], 1000), vec![100]);
    assert_eq!(merge_amounts(&vec![89, 100], 1000), vec![89, 100]);
    assert_eq!(merge_amounts(&vec![80, 85, 90, 95, 100], 1000), vec![85, 100]);
    assert_eq!(merge_amounts(&vec![80, 85, 90, 95, 100], 500), vec![80, 85, 90, 100]);
    assert_eq!(merge_amounts(&vec![12, 23, 100], 1000), vec![12, 23, 100]);
    assert_eq!(merge_amounts(&vec![12, 23, 100], 0), vec![12, 23, 100]);
    assert_eq!(merge_amounts(&vec![12, 23, 100], 10000), vec![100]);
}

#[test]
fn root_offers_check_and_the_three_sizes() {
    let tree = turn_tree();
    let root = tree.root();
    assert_eq!(root, tree.len() - 1);
    assert_eq!(
        tree.available_actions(root),
        &vec![Action::Check, Action::Bet(12), Action::Bet(23), Action::AllIn(100)]
    );
    assert_eq!(tree.available_actions(root).len(), 4);
    let node = tree.node(root);
    assert_eq!(node.spot.stage, Stage::Open);
    assert_eq!(node.spot.to_act, 0);
    assert_eq!(node.children.len(), 4);
}

#[test]
fn raises_follow_the_multiple_until_all_in() {
    let tree = turn_tree();
    let bet = child(&tree, tree.root(), Action::Bet(12));
    assert_eq!(tree.node(bet).spot.to_act, 1);
    assert_eq!(
        tree.available_actions(bet),
        &vec![Action::Fold, Action::Call, Action::Raise(30)]
    );
    let raise = child(&tree, bet, Action::Raise(30));
    assert_eq!(tree.node(raise).spot.to_act, 0);
    assert_eq!(tree.node(raise).spot.paid, 12);
    assert_eq!(
        tree.available_actions(raise),
        &vec![Action::Fold, Action::Call, Action::Raise(75)]
    );
    let reraise = child(&tree, raise, Action::Raise(75));
    assert_eq!(
        tree.available_actions(reraise),
        &vec![Action::Fold, Action::Call, Action::AllIn(100)]
    );
    let allin = child(&tree, reraise, Action::AllIn(100));
    assert_eq!(tree.available_actions(allin), &vec![Action::Fold, Action::Call]);
    let fold = child(&tree, allin, Action::Fold);
    assert_eq!(tree.node(fold).spot.stage, Stage::Folded);
    assert_eq!(tree.node(fold).spot.to_act, 0);
    assert!(tree.node(fold).actions.is_empty());
    let call = child(&tree, allin, Action::Call);
    assert_eq!(tree.node(call).spot.stage, Stage::Deal);
    assert_eq!(tree.node(call).spot.wagered, 100);
    assert_eq!(tree.node(call).actions.len(), 48);
    for &river in tree.node(call).children.iter() {
        assert_eq!(tree.node(river).spot.stage, Stage::Showdown);
        assert_eq!(tree.node(river).spot.street, BoardState::River);
    }
}

#[test]
fn deals_skip_the_board_and_come_in_order() {
    let tree = turn_tree();
    let check = child(&tree, tree.root(), Action::Check);
    assert_eq!(tree.node(check).spot.stage, Stage::Checked);
    let back = child(&tree, check, Action::Check);
    let deal = tree.node(back);
    assert_eq!(deal.spot.stage, Stage::Deal);
    assert_eq!(deal.actions.len(), 48);
    let mut last = None;
    for (k, a) in deal.actions.iter().enumerate() {
        let c = match a {
            Action::Chance(c) => *c,
            _ => panic!("not a deal"),
        };
        assert!(!deal.spot.board.contains(&c));
        assert!(last.map_or(true, |l| l < c));
        last = Some(c);
        let river = tree.node(deal.children[k]);
        assert_eq!(river.spot.board[4], c);
        assert_eq!(river.spot.stage, Stage::Open);
        assert!(!river.spot.donk);
        assert_eq!(
            river.actions,
            vec![Action::Check, Action::Bet(12), Action::AllIn(100)]
        );
    }
}

#[test]
fn a_lead_after_a_call_uses_the_donk_sizes() {
    let tree = turn_tree();
    let check = child(&tree, tree.root(), Action::Check);
    let bet = child(&tree, check, Action::Bet(12));
    assert_eq!(tree.node(bet).spot.to_act, 0);
    let call = child(&tree, bet, Action::Call);
    let deal = tree.node(call);
    assert_eq!(deal.spot.stage, Stage::Deal);
    assert!(deal.spot.donk);
    assert_eq!(deal.spot.wagered, 12);
    let river = tree.node(deal.children[0]);
    assert!(river.spot.donk);
    assert_eq!(river.actions, vec![Action::Check, Action::Bet(22)]);
    let checked = tree.node(child(&tree, deal.children[0], Action::Check));
    assert_eq!(
        checked.actions,
        vec![Action::Check, Action::Bet(26), Action::AllIn(88)]
    );
}

#[test]
fn children_come_before_their_parent() {
    let tree = turn_tree();
    for id in 0..tree.len() {
        let node = tree.node(id);
        assert_eq!(node.actions.len(), node.children.len());
        for &c in node.children.iter() {
            assert!(c < id);
        }
        match node.spot.stage {
            Stage::Showdown | Stage::Folded => assert!(node.actions.is_empty()),
            _ => assert!(!node.actions.is_empty()),
        }
    }
}

#[test]
fn the_same_configuration_gives_the_same_tree() {
    let a = turn_tree();
    let b = turn_tree();
    assert_eq!(a.len(), b.len());
    for id in 0..a.len() {
        assert_eq!(a.node(id).actions, b.node(id).actions);
        assert_eq!(a.node(id).children, b.node(id).children);
    }
}

#[test]
fn river_tree_ends_in_showdowns_and_folds() {
    let mut config = turn_config();
    config.initial_state = BoardState::River;
    let board = parse_board("Td9d6hQc2s", BoardState::River).unwrap();
    let tree = ActionTree::new(config, board).unwrap();
    assert_eq!(
        tree.available_actions(tree.root()),
        &vec![Action::Check, Action::Bet(12), Action::AllIn(100)]
    );
    for id in 0..tree.len() {
        let node = tree.node(id);
        assert_ne!(node.spot.stage, Stage::Deal);
        assert_eq!(node.spot.street, BoardState::River);
    }
}

#[test]
fn faulty_configurations_are_refused_in_order() {
    let board = parse_board("Td9d6hQc", BoardState::Turn).unwrap();
    let refused = |change: &dyn Fn(&mut TreeConfig), e: TreeConfigError| {
        let mut config = turn_config();
        change(&mut config);
        assert_eq!(ActionTree::new(config, board).err(), Some(e));
    };
    refused(&|c| c.initial_state = BoardState::Preflop, TreeConfigError::InitialStateNotPostflop);
    refused(&|c| c.starting_pot = 0, TreeConfigError::EmptyPot);
    refused(&|c| c.effective_stack = 0, TreeConfigError::EmptyStack);
    refused(&|c| c.rake_rate = 10001, TreeConfigError::RakeRateTooHigh);
    refused(&|c| c.merging_threshold = 15000, TreeConfigError::InconsistentThresholds);
    refused(&|c| c.add_allin_threshold = 0, TreeConfigError::InconsistentThresholds);
    refused(
        &|c| c.turn_bet_sizes[1].bet.push(BetSize::PotRelative(0)),
        TreeConfigError::InvalidBetSize,
    );
    refused(
        &|c| c.flop_bet_sizes[0].bet.push(BetSize::PrevBetRelative(200)),
        TreeConfigError::InvalidBetSize,
    );
    refused(
        &|c| {
            c.river_donk_sizes = Some(poker_spot::bet_size::DonkSizeOptions {
                donk: vec![BetSize::PrevBetRelative(200)],
            })
        },
        TreeConfigError::InvalidBetSize,
    );
    refused(&|c| c.initial_state = BoardState::Flop, TreeConfigError::InvalidBoard);
    refused(
        &|c| {
            c.starting_pot = 0;
            c.effective_stack = 0;
        },
        TreeConfigError::EmptyPot,
    );
    let mut twice = board;
    twice[3] = twice[0];
    assert_eq!(ActionTree::new(turn_config(), twice).err(), Some(TreeConfigError::InvalidBoard));
    let mut gap = board;
    gap[4] = 3;
    assert_eq!(ActionTree::new(turn_config(), gap).err(), Some(TreeConfigError::InvalidBoard));
    let mut none = board;
    none[0] = NOT_DEALT;
    assert_eq!(ActionTree::new(turn_config(), none).err(), Some(TreeConfigError::InvalidBoard));
}

#[test]
fn empty_size_lists_leave_check_and_call() {
    let none = BetSizeOptions { bet: vec![], raise: vec![] };
    let mut config = turn_config();
    config.turn_bet_sizes = [none.clone(), none.clone()];
    config.river_bet_sizes = [none.clone(), none];
    config.river_donk_sizes = None;
    let board = parse_board("Td9d6hQc", BoardState::Turn).unwrap();
    let tree = ActionTree::new(config, board).unwrap();
    assert_eq!(tree.available_actions(tree.root()), &vec![Action::Check]);
    assert_eq!(tree.len(), 3 + 48 * 3);
}
