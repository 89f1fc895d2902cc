//! The states of a hand between the first action and the showdown, the
//! actions that are open in each, and the state each action leads to.
//!
//! Player 0 is out of position and acts first on every street; player 1 is
//! in position. An amount is what a player has wagered on the street once
//! the action is taken: `Raise(60)` raises to 60.

use vstd::prelude::*;
use crate::bet_size::BetSize;
use crate::board::{is_board, BoardState};
use crate::card::{is_card, Card};
use crate::config::{Rules, TreeConfig};
use crate::hands::is_blocked;
use crate::sizing::{
    all_within, geometric, geometric_bet, insert_amount, inserted, is_ascending,
    lemma_inserted_ascending, lemma_inserted_within, lemma_merged, merge_amounts, merged, scale,
    scaled,
};

verus! {

/// What a player, or the dealer, does.
#[derive(Clone, Copy, PartialEq, Eq, Debug, Structural)]
pub enum Action {
    Fold,
    Check,
    Call,
    Bet(u32),
    Raise(u32),
    AllIn(u32),
    Chance(Card),
}

/// Where a street stands.
#[derive(Clone, Copy, PartialEq, Eq, Debug, Structural)]
pub enum Stage {
    /// Nobody has acted; player 0 is to act.
    Open,
    /// Player 0 has checked; player 1 is to act.
    Checked,
    /// A bet or a raise is to be answered.
    Facing,
    /// The betting is over and the next card is to be dealt.
    Deal,
    /// The betting is over and the hands are shown.
    Showdown,
    /// The player to act has folded.
    Folded,
}

/// A state of the hand.
#[derive(Clone, Copy, Debug)]
pub struct Spot {
    /// The street.
    pub street: BoardState,
    /// The public cards.
    pub board: [Card; 5],
    /// Where the street stands.
    pub stage: Stage,
    /// The player to act; after a fold, the player who folded.
    pub to_act: u8,
    /// Chips each player has put in on the streets before.
    pub wagered: u32,
    /// The highest wager of this street.
    pub bet: u32,
    /// What the player to act has wagered on this street.
    pub paid: u32,
    /// Whether player 0 called a bet on the street before.
    pub donk: bool,
}

/// What a state is: the state with its board as a sequence of cards.
pub ghost struct State {
    pub street: BoardState,
    pub board: Seq<u8>,
    pub stage: Stage,
    pub to_act: u8,
    pub wagered: u32,
    pub bet: u32,
    pub paid: u32,
    pub donk: bool,
}

impl View for Spot {
    type V = State;

    open spec fn view(&self) -> State {
        State {
            street: self.street,
            board: self.board@,
            stage: self.stage,
            to_act: self.to_act,
            wagered: self.wagered,
            bet: self.bet,
            paid: self.paid,
            donk: self.donk,
        }
    }
}

/// The number of a street, the flop being 0.
pub open spec fn street_index(street: BoardState) -> int {
    match street {
        BoardState::Preflop => -1,
        BoardState::Flop => 0,
        BoardState::Turn => 1,
        BoardState::River => 2,
    }
}

/// The street after `street`.
pub open spec fn next_street(street: BoardState) -> BoardState {
    match street {
        BoardState::Flop => BoardState::Turn,
        _ => BoardState::River,
    }
}

/// `x` brought into `lo..=hi`.
pub open spec fn clamp(x: int, lo: int, hi: int) -> int {
    if x < lo {
        lo
    } else if x > hi {
        hi
    } else {
        x
    }
}

impl State {
    /// The pot once the highest wager is called.
    pub open spec fn pot(self, r: Rules) -> int {
        r.pot + 2 * (self.wagered + self.bet)
    }

    /// The most a player can wager on this street.
    pub open spec fn max(self, r: Rules) -> int {
        r.stack - self.wagered
    }

    /// The least a player can bet or raise to: the highest wager and as much
    /// again as it takes to call it, one chip at least, all in at most.
    pub open spec fn min(self, r: Rules) -> int {
        clamp(2 * self.bet - self.paid, 1, self.max(r))
    }

    /// Whether the player to act can bet or raise.
    pub open spec fn can_wager(self, r: Rules) -> bool {
        match self.stage {
            Stage::Open | Stage::Checked => true,
            Stage::Facing => self.bet < self.max(r),
            _ => false,
        }
    }

    /// Whether the state can come up under the rules.
    pub open spec fn ok(self, r: Rules) -> bool {
        &&& !(self.street is Preflop)
        &&& is_board(self.board, self.street)
        &&& self.to_act <= 1
        &&& self.paid <= self.bet
        &&& self.wagered + self.bet <= r.stack
        &&& match self.stage {
            Stage::Open => self.to_act == 0 && self.bet == 0 && self.wagered < r.stack,
            Stage::Checked => self.to_act == 1 && self.bet == 0 && self.wagered < r.stack,
            Stage::Facing => self.paid < self.bet,
            Stage::Deal => self.to_act == 0 && self.bet == 0 && !(self.street is River),
            Stage::Showdown => self.to_act == 0 && self.bet == 0,
            Stage::Folded => self.paid < self.bet,
        }
    }
}

/// The amount a sizing rule stands for before it is brought into bounds.
pub open spec fn raw_amount(r: Rules, s: State, size: BetSize) -> int {
    match size {
        BetSize::PotRelative(ratio) => s.bet + scaled(s.pot(r), ratio as int, 10000),
        BetSize::PrevBetRelative(ratio) => scaled(s.bet as int, ratio as int, 100),
        BetSize::Geometric => s.bet + geometric(
            s.pot(r),
            s.max(r) - s.bet,
            3 - street_index(s.street),
        ),
        BetSize::AllIn => s.max(r),
    }
}

/// The amount a sizing rule stands for: brought into the bounds of the
/// state, and all in if it leaves no more of the player's stack than the
/// force-all-in threshold.
pub open spec fn sized_amount(r: Rules, s: State, size: BetSize) -> int {
    let a = clamp(raw_amount(r, s, size), s.min(r), s.max(r));
    if (s.max(r) - a) * 10000 <= r.force_allin * (s.max(r) - s.paid) {
        s.max(r)
    } else {
        a
    }
}

/// The amounts of the first `n` rules of `sizes`, ascending, each once.
pub open spec fn amounts_upto(r: Rules, s: State, sizes: Seq<BetSize>, n: int) -> Seq<u32>
    decreases n,
{
    if n <= 0 {
        Seq::<u32>::empty()
    } else {
        inserted(amounts_upto(r, s, sizes, n - 1), sized_amount(r, s, sizes[n - 1]) as u32)
    }
}

/// Whether a wager of `a` is above the add-all-in threshold.
pub open spec fn is_large(r: Rules, s: State, a: int) -> bool {
    (a - s.bet) * 10000 > r.add_allin * s.pot(r)
}

/// The amounts a player can bet or raise to with the rules `sizes`: the
/// amounts of the rules, all in as well if the largest of them is above the
/// add-all-in threshold, and close amounts merged.
pub open spec fn wager_amounts(r: Rules, s: State, sizes: Seq<BetSize>) -> Seq<u32> {
    let base = amounts_upto(r, s, sizes, sizes.len() as int);
    let full = if base.len() > 0 && is_large(r, s, base.last() as int) {
        inserted(base, s.max(r) as u32)
    } else {
        base
    };
    merged(full, r.merging as int)
}

/// The sizing rules of the player to act.
pub open spec fn size_list(r: Rules, s: State) -> Seq<BetSize> {
    let i = street_index(s.street);
    match s.stage {
        Stage::Open => if s.donk && r.donk[i] is Some {
            r.donk[i].unwrap()
        } else {
            r.bet[2 * i]
        },
        Stage::Checked => r.bet[2 * i + 1],
        Stage::Facing => r.raise[2 * i + s.to_act],
        _ => Seq::<BetSize>::empty(),
    }
}

/// The action of wagering `a`.
pub open spec fn wager_action(r: Rules, s: State, a: u32) -> Action {
    if a == s.max(r) {
        Action::AllIn(a)
    } else if s.stage is Facing {
        Action::Raise(a)
    } else {
        Action::Bet(a)
    }
}

/// The actions of wagering the amounts `amounts`.
pub open spec fn wager_actions(r: Rules, s: State, amounts: Seq<u32>) -> Seq<Action> {
    Seq::new(amounts.len(), |i: int| wager_action(r, s, amounts[i]))
}

/// The deals of the cards below `n` that are not on the board, ascending.
pub open spec fn deals_upto(board: Seq<u8>, n: int) -> Seq<Action>
    decreases n,
{
    if n <= 0 {
        Seq::<Action>::empty()
    } else if board.contains((n - 1) as u8) {
        deals_upto(board, n - 1)
    } else {
        deals_upto(board, n - 1).push(Action::Chance((n - 1) as u8))
    }
}

/// The actions open in a state, in the order of the tree: fold, check or
/// call, then the bets or raises in ascending amount; at a deal, the cards
/// that can come in ascending order; none once the hand is over.
pub open spec fn actions_of(r: Rules, s: State) -> Seq<Action> {
    match s.stage {
        Stage::Open | Stage::Checked => seq![Action::Check] + wager_actions(
            r,
            s,
            wager_amounts(r, s, size_list(r, s)),
        ),
        Stage::Facing => if s.can_wager(r) {
            seq![Action::Fold, Action::Call] + wager_actions(
                r,
                s,
                wager_amounts(r, s, size_list(r, s)),
            )
        } else {
            seq![Action::Fold, Action::Call]
        },
        Stage::Deal => deals_upto(s.board, 52),
        _ => Seq::<Action>::empty(),
    }
}

/// The state once the betting of the street is over.
pub open spec fn round_over(s: State) -> State {
    if s.street is River {
        State { stage: Stage::Showdown, ..s }
    } else {
        State { stage: Stage::Deal, ..s }
    }
}

/// The board with the card of the next street dealt.
pub open spec fn dealt_board(s: State, c: Card) -> Seq<u8> {
    s.board.update(s.street.card_count(), c)
}

/// The state an action leads to.
pub open spec fn next_state(r: Rules, s: State, a: Action) -> State {
    match a {
        Action::Fold => State { stage: Stage::Folded, ..s },
        Action::Check => if s.stage is Open {
            State { stage: Stage::Checked, to_act: 1, ..s }
        } else {
            round_over(State { donk: false, to_act: 0, ..s })
        },
        Action::Call => round_over(
            State {
                wagered: (s.wagered + s.bet) as u32,
                bet: 0,
                paid: 0,
                donk: s.to_act == 0,
                to_act: 0,
                ..s
            },
        ),
        Action::Bet(x) | Action::Raise(x) | Action::AllIn(x) => State {
            stage: Stage::Facing,
            to_act: (1 - s.to_act) as u8,
            bet: x,
            paid: s.bet,
            donk: false,
            ..s
        },
        Action::Chance(c) => State {
            street: next_street(s.street),
            board: dealt_board(s, c),
            stage: if s.wagered < r.stack {
                Stage::Open
            } else if next_street(s.street) is River {
                Stage::Showdown
            } else {
                Stage::Deal
            },
            ..s
        },
    }
}

/// How much of the street is left: lower as the stage moves on.
pub open spec fn stage_rank(stage: Stage) -> int {
    match stage {
        Stage::Open => 3,
        Stage::Checked => 2,
        Stage::Facing => 1,
        _ => 0,
    }
}

/// Whether `a` is an action that can be open in `s`.
pub open spec fn action_fits(r: Rules, s: State, a: Action) -> bool {
    match a {
        Action::Fold | Action::Call => s.stage is Facing,
        Action::Check => s.stage is Open || s.stage is Checked,
        Action::Bet(x) => (s.stage is Open || s.stage is Checked) && 0 < x < s.max(r),
        Action::Raise(x) => s.stage is Facing && s.bet < x < s.max(r),
        Action::AllIn(x) => s.can_wager(r) && s.bet < x == s.max(r),
        Action::Chance(c) => s.stage is Deal && is_card(c as int) && !s.board.contains(c),
    }
}

/// The amounts of sizing rules lie between the least and the most a player
/// can wager, in ascending order.
pub proof fn lemma_amounts_upto(r: Rules, s: State, sizes: Seq<BetSize>, n: int)
    requires
        s.ok(r),
        s.can_wager(r),
        0 <= n <= sizes.len(),
    ensures
        is_ascending(amounts_upto(r, s, sizes, n)),
        all_within(amounts_upto(r, s, sizes, n), s.min(r), s.max(r)),
        amounts_upto(r, s, sizes, n).len() <= n,
        s.bet < s.min(r) <= s.max(r),
    decreases n,
{
    if n > 0 {
        lemma_amounts_upto(r, s, sizes, n - 1);
        let before = amounts_upto(r, s, sizes, n - 1);
        let a = sized_amount(r, s, sizes[n - 1]);
        lemma_inserted_ascending(before, a as u32);
        lemma_inserted_within(before, a as u32, s.min(r), s.max(r));
    }
}

/// The amounts a player can wager are above the highest wager and all in at
/// most, in ascending order.
pub proof fn lemma_wager_amounts(r: Rules, s: State, sizes: Seq<BetSize>)
    requires
        s.ok(r),
        s.can_wager(r),
    ensures
        is_ascending(wager_amounts(r, s, sizes)),
        all_within(wager_amounts(r, s, sizes), s.bet + 1, s.max(r)),
        wager_amounts(r, s, sizes).len() <= sizes.len() + 1,
{
    lemma_amounts_upto(r, s, sizes, sizes.len() as int);
    let base = amounts_upto(r, s, sizes, sizes.len() as int);
    let m = s.max(r) as u32;
    lemma_inserted_ascending(base, m);
    lemma_inserted_within(base, m, s.min(r), s.max(r));
    let full = if base.len() > 0 && is_large(r, s, base.last() as int) {
        inserted(base, m)
    } else {
        base
    };
    lemma_merged(full, r.merging as int, s.min(r), s.max(r));
}

/// Every deal is of a card that is not on the board.
pub proof fn lemma_deals_upto(board: Seq<u8>, n: int)
    requires
        0 <= n <= 52,
    ensures
        deals_upto(board, n).len() <= n,
        forall|k: int|
            0 <= k < deals_upto(board, n).len() ==> {
                &&& (#[trigger] deals_upto(board, n)[k]) is Chance
                &&& deals_upto(board, n)[k]->Chance_0 < n
                &&& !board.contains(deals_upto(board, n)[k]->Chance_0)
            },
    decreases n,
{
    if n > 0 {
        lemma_deals_upto(board, n - 1);
    }
}

/// Every action open in a state fits the state.
pub proof fn lemma_actions_fit(r: Rules, s: State, k: int)
    requires
        s.ok(r),
        0 <= k < actions_of(r, s).len(),
    ensures
        action_fits(r, s, actions_of(r, s)[k]),
{
    match s.stage {
        Stage::Open | Stage::Checked => {
            lemma_wager_amounts(r, s, size_list(r, s));
            let amounts = wager_amounts(r, s, size_list(r, s));
            if k > 0 {
                assert(actions_of(r, s)[k] == wager_action(r, s, amounts[k - 1]));
            }
        },
        Stage::Facing => {
            if s.can_wager(r) {
                lemma_wager_amounts(r, s, size_list(r, s));
                let amounts = wager_amounts(r, s, size_list(r, s));
                if k > 1 {
                    assert(actions_of(r, s)[k] == wager_action(r, s, amounts[k - 2]));
                }
                }
        },
        Stage::Deal => {
            lemma_deals_upto(s.board, 52);
        },
        _ => {},
    }
}

/// Whether the state `t` comes later in a hand than the state `s`: on a
/// later street, or on the same street with more chips wagered, or with the
/// same chips at a later stage.
pub open spec fn comes_after(r: Rules, t: State, s: State) -> bool {
    let street_t = street_index(t.street);
    let street_s = street_index(s.street);
    let chips_t = t.wagered + t.bet;
    let chips_s = s.wagered + s.bet;
    ||| street_t > street_s
    ||| (street_t == street_s && chips_t > chips_s)
    ||| (street_t == street_s && chips_t == chips_s && stage_rank(t.stage) < stage_rank(s.stage))
}

/// An action that fits a state leads to a state that can come up and that
/// comes later in the hand.
pub proof fn lemma_next_state(r: Rules, s: State, a: Action)
    requires
        s.ok(r),
        action_fits(r, s, a),
    ensures
        next_state(r, s, a).ok(r),
        comes_after(r, next_state(r, s, a), s),
{
    let t = next_state(r, s, a);
    match a {
        Action::Chance(c) => {
            let n = s.street.card_count();
            let old_board = s.board;
            let new_board = t.board;
            assert forall|i: int, j: int| 0 <= i < j < n + 1 implies #[trigger] new_board[i]
                != #[trigger] new_board[j] by {
                if j == n {
                    assert(old_board[i] == new_board[i]);
                    assert(old_board.contains(old_board[i]));
                } else {
                    assert(old_board[i] != old_board[j]);
                }
            }
            assert forall|i: int| 0 <= i < n + 1 implies is_card(#[trigger] new_board[i] as int) by {
                if i < n {
                    assert(is_card(old_board[i] as int));
                }
            }
            assert forall|i: int| n + 1 <= i < 5 implies #[trigger] new_board[i] == 255 by {
                assert(old_board[i] == 255);
            }
        },
        _ => {},
    }
}

/// The number of a street, the flop being 0.
fn street_number(street: BoardState) -> (i: usize)
    requires
        !(street is Preflop),
    ensures
        i == street_index(street),
{
    match street {
        BoardState::Turn => 1,
        BoardState::River => 2,
        _ => 0,
    }
}

/// The sizing rules of the player to act.
fn sizes_for<'a>(cfg: &'a TreeConfig, s: &Spot) -> (sizes: &'a Vec<BetSize>)
    requires
        s@.ok(cfg@),
        s@.can_wager(cfg@),
    ensures
        sizes@ == size_list(cfg@, s@),
{
    let options = match s.street {
        BoardState::Turn => &cfg.turn_bet_sizes,
        BoardState::River => &cfg.river_bet_sizes,
        _ => &cfg.flop_bet_sizes,
    };
    match s.stage {
        Stage::Open => {
            if s.donk {
                match s.street {
                    BoardState::Turn => {
                        if let Some(d) = &cfg.turn_donk_sizes {
                            return &d.donk;
                        }
                    },
                    BoardState::River => {
                        if let Some(d) = &cfg.river_donk_sizes {
                            return &d.donk;
                        }
                    },
                    _ => {},
                }
            }
            &options[0].bet
        },
        Stage::Checked => &options[1].bet,
        _ => &options[s.to_act as usize].raise,
    }
}

/// The amount a sizing rule stands for.
fn amount_of(cfg: &TreeConfig, s: &Spot, size: BetSize) -> (a: u32)
    requires
        s@.ok(cfg@),
        s@.can_wager(cfg@),
    ensures
        a == sized_amount(cfg@, s@, size),
        s.bet < a <= s@.max(cfg@),
{
    let max: u32 = cfg.effective_stack - s.wagered;
    let pot: u64 = cfg.starting_pot as u64 + 2 * (s.wagered as u64 + s.bet as u64);
    let raw: u128 = match size {
        BetSize::PotRelative(ratio) => s.bet as u128 + scale(pot, ratio, 10000),
        BetSize::PrevBetRelative(ratio) => scale(s.bet as u64, ratio, 100),
        BetSize::Geometric => {
            let streets: u8 = (3 - street_number(s.street)) as u8;
            s.bet as u128 + geometric_bet(pot, (max - s.bet) as u64, streets) as u128
        },
        BetSize::AllIn => max as u128,
    };
    let twice: u64 = 2 * (s.bet as u64) - s.paid as u64;
    let min: u32 = if twice < 1 {
        1
    } else if twice > max as u64 {
        max
    } else {
        twice as u32
    };
    let a: u32 = if raw < min as u128 {
        min
    } else if raw > max as u128 {
        max
    } else {
        raw as u32
    };
    let left: u32 = max - a;
    let stack: u32 = max - s.paid;
    assert(0 <= cfg.force_allin_threshold * stack <= 0xffff_ffff * 0xffff_ffff) by (nonlinear_arith)
        requires
            0 <= cfg.force_allin_threshold <= 0xffff_ffff,
            0 <= stack <= 0xffff_ffff,
    ;
    if (left as u128) * 10000 <= (cfg.force_allin_threshold as u128) * (stack as u128) {
        max
    } else {
        a
    }
}

/// Whether a wager of `a` is above the add-all-in threshold.
fn large(cfg: &TreeConfig, s: &Spot, a: u32) -> (r: bool)
    requires
        s@.ok(cfg@),
        s.bet <= a,
    ensures
        r == is_large(cfg@, s@, a as int),
{
    let pot: u64 = cfg.starting_pot as u64 + 2 * (s.wagered as u64 + s.bet as u64);
    assert(0 <= cfg.add_allin_threshold * pot <= 0xffff_ffff * 0x3_ffff_ffff) by (nonlinear_arith)
        requires
            0 <= cfg.add_allin_threshold <= 0xffff_ffff,
            0 <= pot <= 0x3_ffff_ffff,
    ;
    ((a - s.bet) as u128) * 10000 > (cfg.add_allin_threshold as u128) * (pot as u128)
}

/// The amounts the player to act can bet or raise to.
fn amounts_for(cfg: &TreeConfig, s: &Spot) -> (amounts: Vec<u32>)
    requires
        s@.ok(cfg@),
        s@.can_wager(cfg@),
    ensures
        amounts@ == wager_amounts(cfg@, s@, size_list(cfg@, s@)),
{
    let sizes = sizes_for(cfg, s);
    let mut base: Vec<u32> = Vec::new();
    let mut i: usize = 0;
    while i < sizes.len()
        invariant
            i <= sizes@.len(),
            s@.ok(cfg@),
            s@.can_wager(cfg@),
            base@ == amounts_upto(cfg@, s@, sizes@, i as int),
        decreases sizes@.len() - i,
    {
        let a = amount_of(cfg, s, sizes[i]);
        insert_amount(&mut base, a);
        i += 1;
    }
    proof {
        lemma_amounts_upto(cfg@, s@, sizes@, sizes@.len() as int);
    }
    let n = base.len();
    if n > 0 && large(cfg, s, base[n - 1]) {
        proof {
            lemma_inserted_ascending(base@, s@.max(cfg@) as u32);
        }
        insert_amount(&mut base, cfg.effective_stack - s.wagered);
    }
    merge_amounts(&base, cfg.merging_threshold)
}

/// The deals that can follow a board.
fn deals_for(board: &[Card; 5]) -> (deals: Vec<Action>)
    ensures
        deals@ == deals_upto(board@, 52),
{
    let mut deals: Vec<Action> = Vec::new();
    let mut c: u8 = 0;
    while c < 52
        invariant
            c <= 52,
            deals@ == deals_upto(board@, c as int),
        decreases 52 - c,
    {
        if !is_blocked(board.as_slice(), c) {
            deals.push(Action::Chance(c));
        }
        c += 1;
    }
    deals
}

/// The actions open in a state, in the order of the tree.
pub fn legal_actions(cfg: &TreeConfig, s: &Spot) -> (actions: Vec<Action>)
    requires
        s@.ok(cfg@),
    ensures
        actions@ == actions_of(cfg@, s@),
{
    let mut actions: Vec<Action> = Vec::new();
    match s.stage {
        Stage::Open | Stage::Checked => {
            actions.push(Action::Check);
        },
        Stage::Facing => {
            actions.push(Action::Fold);
            actions.push(Action::Call);
            if s.bet >= cfg.effective_stack - s.wagered {
                assert(actions@ =~= seq![Action::Fold, Action::Call]);
                return actions;
            }
        },
        Stage::Deal => {
            return deals_for(&s.board);
        },
        _ => {
            assert(actions@ =~= Seq::<Action>::empty());
            return actions;
        },
    }
    let ghost head = actions@;
    let amounts = amounts_for(cfg, s);
    let max = cfg.effective_stack - s.wagered;
    let facing = match s.stage {
        Stage::Facing => true,
        _ => false,
    };
    let mut i: usize = 0;
    while i < amounts.len()
        invariant
            i <= amounts@.len(),
            max == s@.max(cfg@),
            facing == (s.stage is Facing),
            actions@ =~= head + wager_actions(cfg@, s@, amounts@.subrange(0, i as int)),
        decreases amounts@.len() - i,
    {
        let a = amounts[i];
        let action = if a == max {
            Action::AllIn(a)
        } else if facing {
            Action::Raise(a)
        } else {
            Action::Bet(a)
        };
        actions.push(action);
        assert(amounts@.subrange(0, i + 1) =~= amounts@.subrange(0, i as int).push(a));
        assert(wager_actions(cfg@, s@, amounts@.subrange(0, i + 1)) =~= wager_actions(
            cfg@,
            s@,
            amounts@.subrange(0, i as int),
        ).push(action));
        i += 1;
    }
    assert(amounts@.subrange(0, amounts@.len() as int) =~= amounts@);
    assert(head =~= seq![Action::Check] || head =~= seq![Action::Fold, Action::Call]);
    actions
}

/// The state an action leads to.
pub fn advance(cfg: &TreeConfig, s: &Spot, a: Action) -> (t: Spot)
    requires
        s@.ok(cfg@),
        action_fits(cfg@, s@, a),
    ensures
        t@ == next_state(cfg@, s@, a),
        t@.ok(cfg@),
        comes_after(cfg@, t@, s@),
{
    let river = match s.street {
        BoardState::River => true,
        _ => false,
    };
    let over = if river {
        Stage::Showdown
    } else {
        Stage::Deal
    };
    let t = match a {
        Action::Fold => Spot { stage: Stage::Folded, ..*s },
        Action::Check => match s.stage {
            Stage::Open => Spot { stage: Stage::Checked, to_act: 1, ..*s },
            _ => Spot { stage: over, donk: false, to_act: 0, ..*s },
        },
        Action::Call => Spot {
            stage: over,
            wagered: s.wagered + s.bet,
            bet: 0,
            paid: 0,
            donk: s.to_act == 0,
            to_act: 0,
            ..*s
        },
        Action::Bet(x) | Action::Raise(x) | Action::AllIn(x) => Spot {
            stage: Stage::Facing,
            to_act: 1 - s.to_act,
            bet: x,
            paid: s.bet,
            donk: false,
            ..*s
        },
        Action::Chance(c) => {
            let mut board = s.board;
            let at = s.street.cards();
            board[at] = c;
            let street = match s.street {
                BoardState::Flop => BoardState::Turn,
                _ => BoardState::River,
            };
            let stage = if s.wagered < cfg.effective_stack {
                Stage::Open
            } else {
                match street {
                    BoardState::River => Stage::Showdown,
                    _ => Stage::Deal,
                }
            };
            Spot { street, board, stage, ..*s }
        },
    };
    proof {
        lemma_next_state(cfg@, s@, a);
    }
    t
}

} // verus!
