//! The configuration of a betting tree.
//!
//! Chips are whole numbers. Fractions (the rake rate and the three
//! thresholds) are given in hundredths of a percent: `1500` is 15%.

use vstd::prelude::*;
use crate::bet_size::{is_size, BetSize, BetSizeOptions, DonkSizeOptions};
use crate::board::BoardState;

verus! {

/// What a betting tree is built from.
#[derive(Clone, Debug)]
pub struct TreeConfig {
    /// The street the tree starts on: flop, turn or river.
    pub initial_state: BoardState,
    /// Chips in the pot before the first action.
    pub starting_pot: u32,
    /// Chips each player has behind before the first action.
    pub effective_stack: u32,
    /// Share of the pot taken as rake.
    pub rake_rate: u32,
    /// Most chips taken as rake.
    pub rake_cap: u32,
    /// Sizes on the flop, of the out-of-position player and of the other.
    pub flop_bet_sizes: [BetSizeOptions; 2],
    /// Sizes on the turn.
    pub turn_bet_sizes: [BetSizeOptions; 2],
    /// Sizes on the river.
    pub river_bet_sizes: [BetSizeOptions; 2],
    /// Sizes of a lead on the turn after calling on the flop.
    pub turn_donk_sizes: Option<DonkSizeOptions>,
    /// Sizes of a lead on the river after calling on the turn.
    pub river_donk_sizes: Option<DonkSizeOptions>,
    /// A size above this share of the pot brings an all-in action with it.
    pub add_allin_threshold: u32,
    /// A size that leaves no more than this share of the stack is all in.
    pub force_allin_threshold: u32,
    /// Sizes closer to each other than this share are merged.
    pub merging_threshold: u32,
}

/// The rules a configuration stands for. The size lists are indexed by
/// `2 * street + player` with the flop as street 0; the lead sizes by street.
pub ghost struct Rules {
    pub initial_state: BoardState,
    pub pot: u32,
    pub stack: u32,
    pub rake_rate: u32,
    pub rake_cap: u32,
    pub bet: Seq<Seq<BetSize>>,
    pub raise: Seq<Seq<BetSize>>,
    pub donk: Seq<Option<Seq<BetSize>>>,
    pub add_allin: u32,
    pub force_allin: u32,
    pub merging: u32,
}

/// The lead sizes that an option stands for.
pub open spec fn donk_view(d: Option<DonkSizeOptions>) -> Option<Seq<BetSize>> {
    match d {
        Some(o) => Some(o.donk@),
        None => None,
    }
}

impl View for TreeConfig {
    type V = Rules;

    open spec fn view(&self) -> Rules {
        Rules {
            initial_state: self.initial_state,
            pot: self.starting_pot,
            stack: self.effective_stack,
            rake_rate: self.rake_rate,
            rake_cap: self.rake_cap,
            bet: seq![
                self.flop_bet_sizes@[0].bet@,
                self.flop_bet_sizes@[1].bet@,
                self.turn_bet_sizes@[0].bet@,
                self.turn_bet_sizes@[1].bet@,
                self.river_bet_sizes@[0].bet@,
                self.river_bet_sizes@[1].bet@,
            ],
            raise: seq![
                self.flop_bet_sizes@[0].raise@,
                self.flop_bet_sizes@[1].raise@,
                self.turn_bet_sizes@[0].raise@,
                self.turn_bet_sizes@[1].raise@,
                self.river_bet_sizes@[0].raise@,
                self.river_bet_sizes@[1].raise@,
            ],
            donk: seq![
                None::<Seq<BetSize>>,
                donk_view(self.turn_donk_sizes),
                donk_view(self.river_donk_sizes),
            ],
            add_allin: self.add_allin_threshold,
            force_allin: self.force_allin_threshold,
            merging: self.merging_threshold,
        }
    }
}

/// Why a configuration was refused.
#[derive(Clone, Copy, PartialEq, Eq, Debug, Structural)]
pub enum TreeConfigError {
    /// The tree does not start on the flop, the turn or the river.
    InitialStateNotPostflop,
    /// The starting pot is empty.
    EmptyPot,
    /// The players have no chips behind.
    EmptyStack,
    /// The rake rate is above 100%.
    RakeRateTooHigh,
    /// The merging threshold is not below the add-all-in threshold.
    InconsistentThresholds,
    /// A size is zero, or a list to bet with holds a multiple of the
    /// previous bet.
    InvalidBetSize,
    /// The board is not a board of the initial street.
    InvalidBoard,
}

/// Whether `sizes` is a list to bet (`raise` false) or to raise with.
pub open spec fn sizes_ok(sizes: Seq<BetSize>, raise: bool) -> bool {
    forall|i: int|
        0 <= i < sizes.len() ==> is_size(#[trigger] sizes[i]) && (raise
            || !(sizes[i] is PrevBetRelative))
}

/// Whether every size list of the rules is in order.
pub open spec fn all_sizes_ok(r: Rules) -> bool {
    &&& r.bet.len() == 6
    &&& r.raise.len() == 6
    &&& r.donk.len() == 3
    &&& forall|i: int| 0 <= i < 6 ==> sizes_ok(#[trigger] r.bet[i], false)
    &&& forall|i: int| 0 <= i < 6 ==> sizes_ok(#[trigger] r.raise[i], true)
    &&& forall|i: int|
        0 <= i < 3 ==> ((#[trigger] r.donk[i]) matches Some(d) ==> sizes_ok(d, false))
}

/// The first fault of the rules, in the order of `TreeConfigError`, or none.
pub open spec fn rules_fault(r: Rules) -> Option<TreeConfigError> {
    if r.initial_state is Preflop {
        Some(TreeConfigError::InitialStateNotPostflop)
    } else if r.pot == 0 {
        Some(TreeConfigError::EmptyPot)
    } else if r.stack == 0 {
        Some(TreeConfigError::EmptyStack)
    } else if r.rake_rate > 10000 {
        Some(TreeConfigError::RakeRateTooHigh)
    } else if r.merging >= r.add_allin {
        Some(TreeConfigError::InconsistentThresholds)
    } else if !all_sizes_ok(r) {
        Some(TreeConfigError::InvalidBetSize)
    } else {
        None
    }
}

/// Whether the rules are in order.
pub open spec fn rules_ok(r: Rules) -> bool {
    rules_fault(r) is None
}

/// Whether `sizes` is a list to bet or to raise with.
fn check_sizes(sizes: &Vec<BetSize>, raise: bool) -> (ok: bool)
    ensures
        ok == sizes_ok(sizes@, raise),
{
    let mut i: usize = 0;
    while i < sizes.len()
        invariant
            i <= sizes@.len(),
            forall|j: int|
                0 <= j < i ==> is_size(#[trigger] sizes@[j]) && (raise
                    || !(sizes@[j] is PrevBetRelative)),
        decreases sizes@.len() - i,
    {
        let ok = match sizes[i] {
            BetSize::PotRelative(v) => 0 < v && v <= 999999,
            BetSize::PrevBetRelative(v) => raise && 0 < v && v <= 999999,
            _ => true,
        };
        if !ok {
            return false;
        }
        i += 1;
    }
    true
}

/// Whether the sizes of both players on one street are in order.
fn check_street(options: &[BetSizeOptions; 2]) -> (ok: bool)
    ensures
        ok == (sizes_ok(options@[0].bet@, false) && sizes_ok(options@[1].bet@, false) && sizes_ok(
            options@[0].raise@,
            true,
        ) && sizes_ok(options@[1].raise@, true)),
{
    check_sizes(&options[0].bet, false) && check_sizes(&options[1].bet, false) && check_sizes(
        &options[0].raise,
        true,
    ) && check_sizes(&options[1].raise, true)
}

/// Whether lead sizes are in order.
fn check_donk(donk: &Option<DonkSizeOptions>) -> (ok: bool)
    ensures
        ok == (donk_view(*donk) matches Some(d) ==> sizes_ok(d, false)),
{
    match donk {
        Some(d) => check_sizes(&d.donk, false),
        None => true,
    }
}

impl TreeConfig {
    /// Checks the configuration. The result is the first fault in the order
    /// of `TreeConfigError`, if there is one.
    pub fn validate(&self) -> (res: Result<(), TreeConfigError>)
        ensures
            match res {
                Ok(_) => rules_ok(self@),
                Err(e) => rules_fault(self@) == Some(e),
            },
    {
        if let BoardState::Preflop = self.initial_state {
            return Err(TreeConfigError::InitialStateNotPostflop);
        }
        if self.starting_pot == 0 {
            return Err(TreeConfigError::EmptyPot);
        }
        if self.effective_stack == 0 {
            return Err(TreeConfigError::EmptyStack);
        }
        if self.rake_rate > 10000 {
            return Err(TreeConfigError::RakeRateTooHigh);
        }
        if self.merging_threshold >= self.add_allin_threshold {
            return Err(TreeConfigError::InconsistentThresholds);
        }
        let ok = check_street(&self.flop_bet_sizes) && check_street(&self.turn_bet_sizes)
            && check_street(&self.river_bet_sizes) && check_donk(&self.turn_donk_sizes)
            && check_donk(&self.river_donk_sizes);
        proof {
            let r = self@;
            if ok {
                assert forall|i: int| 0 <= i < 6 implies sizes_ok(#[trigger] r.bet[i], false) by {}
                assert forall|i: int| 0 <= i < 6 implies sizes_ok(#[trigger] r.raise[i], true) by {}
                assert forall|i: int| 0 <= i < 3 implies ((#[trigger] r.donk[i]) matches Some(d)
                    ==> sizes_ok(d, false)) by {}
            } else {
                if all_sizes_ok(r) {
                    assert(sizes_ok(r.bet[0], false) && sizes_ok(r.bet[1], false) && sizes_ok(
                        r.bet[2],
                        false,
                    ) && sizes_ok(r.bet[3], false) && sizes_ok(r.bet[4], false) && sizes_ok(
                        r.bet[5],
                        false,
                    ));
                    assert(sizes_ok(r.raise[0], true) && sizes_ok(r.raise[1], true) && sizes_ok(
                        r.raise[2],
                        true,
                    ) && sizes_ok(r.raise[3], true) && sizes_ok(r.raise[4], true) && sizes_ok(
                        r.raise[5],
                        true,
                    ));
                    assert(r.donk[1] matches Some(d) ==> sizes_ok(d, false));
                    assert(r.donk[2] matches Some(d) ==> sizes_ok(d, false));
                }
            }
        }
        if !ok {
            return Err(TreeConfigError::InvalidBetSize);
        }
        Ok(())
    }
}

} // verus!
