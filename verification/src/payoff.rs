//! What the players win and lose where a hand ends.
//!
//! Amounts are in half chips, so that a split pot stays whole: a player who
//! wins 15 chips has a payoff of 30. A payoff counts the chips won or lost
//! after the starting pot was made; the starting pot itself belongs to
//! nobody until it is won.

use vstd::prelude::*;
use crate::config::{rules_ok, Rules, TreeConfig};
use crate::spot::{Spot, State};

verus! {

/// The rake on a pot of `pot` chips, in half chips: the share of the pot
/// given by the rate, rounded down to a half chip, the cap at most.
pub open spec fn rake_of(r: Rules, pot: int) -> int {
    let rake = 2 * pot * r.rake_rate / 10000;
    if rake > 2 * r.rake_cap {
        2 * r.rake_cap
    } else {
        rake
    }
}

/// How the hands compare at a showdown.
#[derive(Clone, Copy, PartialEq, Eq, Debug, Structural)]
pub enum Outcome {
    /// The player has the better hand.
    Win,
    /// Both hands are equal.
    Tie,
    /// The player has the worse hand.
    Lose,
}

/// The payoff of `player` after a fold: the player who folded loses what he
/// has put in; the other wins the starting pot and as much as the folder has
/// put in, less the rake on the two.
pub open spec fn fold_payoff(r: Rules, s: State, player: int) -> int {
    let lost = s.wagered + s.paid;
    if player == s.to_act {
        -2 * lost
    } else {
        2 * (r.pot + lost) - rake_of(r, r.pot + 2 * lost)
    }
}

/// The payoff of a player at a showdown: the winner wins the starting pot
/// and what the other has put in, less the rake; the loser loses what he has
/// put in; in a tie each gets half of the pot less the rake for what he has
/// put in.
pub open spec fn showdown_payoff(r: Rules, s: State, outcome: Outcome) -> int {
    let pot = r.pot + 2 * s.wagered;
    match outcome {
        Outcome::Win => 2 * (r.pot + s.wagered) - rake_of(r, pot),
        Outcome::Lose => -2 * s.wagered,
        Outcome::Tie => (2 * pot - rake_of(r, pot)) / 2 - 2 * s.wagered,
    }
}

/// The rake on a pot, in half chips.
pub fn rake(cfg: &TreeConfig, pot: u64) -> (x: u64)
    requires
        pot <= 0x3_ffff_ffff,
    ensures
        x == rake_of(cfg@, pot as int),
        x <= 2 * cfg.rake_cap,
        cfg.rake_rate <= 10000 ==> x <= 2 * pot,
{
    assert(0 <= 2 * pot * cfg.rake_rate <= 2 * 0x3_ffff_ffff * 0xffff_ffff) by (nonlinear_arith)
        requires
            0 <= pot <= 0x3_ffff_ffff,
            0 <= cfg.rake_rate <= 0xffff_ffff,
    ;
    let share: u128 = 2 * (pot as u128) * (cfg.rake_rate as u128) / 10000;
    if cfg.rake_rate <= 10000 {
        assert(2 * pot * cfg.rake_rate <= 2 * pot * 10000) by (nonlinear_arith)
            requires
                0 <= pot,
                0 <= cfg.rake_rate <= 10000,
        ;
    }
    if share > 2 * (cfg.rake_cap as u128) {
        2 * (cfg.rake_cap as u64)
    } else {
        share as u64
    }
}

/// The payoff of `player` at a node where a player has folded.
pub fn payoff_after_fold(cfg: &TreeConfig, s: &Spot, player: u8) -> (x: i64)
    requires
        rules_ok(cfg@),
        s@.ok(cfg@),
        s@.stage is Folded,
    ensures
        x == fold_payoff(cfg@, s@, player as int),
{
    let lost: u64 = s.wagered as u64 + s.paid as u64;
    if player == s.to_act {
        0 - 2 * (lost as i64)
    } else {
        let pot: u64 = cfg.starting_pot as u64 + 2 * lost;
        let taken = rake(cfg, pot);
        (2 * (cfg.starting_pot as u64 + lost)) as i64 - taken as i64
    }
}

/// The payoff of a player at a showdown.
pub fn payoff_at_showdown(cfg: &TreeConfig, s: &Spot, outcome: Outcome) -> (x: i64)
    requires
        rules_ok(cfg@),
        s@.ok(cfg@),
        s@.stage is Showdown,
    ensures
        x == showdown_payoff(cfg@, s@, outcome),
{
    let pot: u64 = cfg.starting_pot as u64 + 2 * (s.wagered as u64);
    let taken = rake(cfg, pot);
    match outcome {
        Outcome::Win => (2 * (cfg.starting_pot as u64 + s.wagered as u64)) as i64 - taken as i64,
        Outcome::Lose => 0 - 2 * (s.wagered as i64),
        Outcome::Tie => ((2 * pot - taken) / 2) as i64 - 2 * (s.wagered as i64),
    }
}

/// Without rake the payoffs of the two players add up to the starting pot
/// after a fold, and at a showdown with a winner or a tie.
pub proof fn lemma_payoffs_add_up(r: Rules, s: State)
    requires
        r.rake_rate == 0,
    ensures
        fold_payoff(r, s, s.to_act as int) + fold_payoff(r, s, 1 - s.to_act) == 2 * r.pot,
        showdown_payoff(r, s, Outcome::Win) + showdown_payoff(r, s, Outcome::Lose) == 2 * r.pot,
        showdown_payoff(r, s, Outcome::Tie) + showdown_payoff(r, s, Outcome::Tie) == 2 * r.pot,
{
}

} // verus!
