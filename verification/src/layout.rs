//! Where the tables of a solver lie: one table for each node at which a
//! player acts, of one cell for each action and each private hand the player
//! can hold on the node's board, all tables one after the other in the order
//! of the nodes.

use vstd::prelude::*;
use crate::card::Card;
use crate::hands::{is_blocked, Hand};
use crate::spot::Stage;
use crate::tree::{ActionTree, NodeModel};

verus! {

/// Whether the hand shares a card with the board.
pub open spec fn is_blocked_by(h: Hand, board: Seq<u8>) -> bool {
    board.contains(h.first) || board.contains(h.second)
}

/// How many of the first `n` hands share no card with the board.
pub open spec fn reach_upto(hands: Seq<Hand>, board: Seq<u8>, n: int) -> int
    decreases n,
{
    if n <= 0 {
        0
    } else if is_blocked_by(hands[n - 1], board) {
        reach_upto(hands, board, n - 1)
    } else {
        reach_upto(hands, board, n - 1) + 1
    }
}

/// How many of the hands share no card with the board.
pub open spec fn reach(hands: Seq<Hand>, board: Seq<u8>) -> int {
    reach_upto(hands, board, hands.len() as int)
}

/// Whether a player acts at the node.
pub open spec fn is_decision(node: NodeModel) -> bool {
    node.state.stage is Open || node.state.stage is Checked || node.state.stage is Facing
}

/// The hands of the player who acts at the node.
pub open spec fn hands_at(node: NodeModel, oop: Seq<Hand>, ip: Seq<Hand>) -> Seq<Hand> {
    if node.state.to_act == 0 {
        oop
    } else {
        ip
    }
}

/// Number of cells of the table of a node: actions times hands that can be
/// held on its board; none where no player acts.
pub open spec fn table_len(node: NodeModel, oop: Seq<Hand>, ip: Seq<Hand>) -> int {
    if is_decision(node) {
        node.actions.len() * reach(hands_at(node, oop, ip), node.state.board)
    } else {
        0
    }
}

/// Number of cells of the tables of the first `n` nodes.
pub open spec fn tables_upto(tree: Seq<NodeModel>, oop: Seq<Hand>, ip: Seq<Hand>, n: int) -> int
    decreases n,
{
    if n <= 0 {
        0
    } else {
        tables_upto(tree, oop, ip, n - 1) + table_len(tree[n - 1], oop, ip)
    }
}

/// The table of a node: where it starts, and its two dimensions.
#[derive(Clone, Copy, PartialEq, Eq, Debug, Structural)]
pub struct Table {
    pub offset: usize,
    pub actions: usize,
    pub hands: usize,
}

/// The tables could not be laid out: at the node `node` they outgrow the
/// budget of `budget` cells.
#[derive(Clone, Copy, PartialEq, Eq, Debug, Structural)]
pub struct AllocationError {
    pub budget: usize,
    pub node: usize,
}

/// Whether `tables` are the tables of the first `n` nodes.
pub open spec fn is_layout(
    tables: Seq<Table>,
    tree: Seq<NodeModel>,
    oop: Seq<Hand>,
    ip: Seq<Hand>,
    n: int,
) -> bool {
    &&& tables.len() == n
    &&& forall|i: int|
        0 <= i < n ==> {
            &&& (#[trigger] tables[i]).offset == tables_upto(tree, oop, ip, i)
            &&& tables[i].actions * tables[i].hands == table_len(tree[i], oop, ip)
            &&& is_decision(tree[i]) ==> tables[i].actions == tree[i].actions.len()
                && tables[i].hands == reach(hands_at(tree[i], oop, ip), tree[i].state.board)
            &&& !is_decision(tree[i]) ==> tables[i].actions == 0 && tables[i].hands == 0
        }
}

/// A table has no cells below zero.
pub proof fn lemma_reach_bounds(hands: Seq<Hand>, board: Seq<u8>, n: int)
    requires
        0 <= n,
    ensures
        0 <= reach_upto(hands, board, n) <= n,
    decreases n,
{
    if n > 0 {
        lemma_reach_bounds(hands, board, n - 1);
    }
}

/// The tables of more nodes have more cells.
pub proof fn lemma_tables_grow(
    tree: Seq<NodeModel>,
    oop: Seq<Hand>,
    ip: Seq<Hand>,
    m: int,
    n: int,
)
    requires
        0 <= m <= n,
    ensures
        0 <= tables_upto(tree, oop, ip, m) <= tables_upto(tree, oop, ip, n),
    decreases n,
{
    if n > 0 {
        let node = tree[n - 1];
        let hands = hands_at(node, oop, ip);
        lemma_reach_bounds(hands, node.state.board, hands.len() as int);
        assert(0 <= node.actions.len() * reach(hands, node.state.board)) by (nonlinear_arith)
            requires
                0 <= node.actions.len(),
                0 <= reach(hands, node.state.board),
        ;
        if m < n {
            lemma_tables_grow(tree, oop, ip, m, n - 1);
        } else {
            lemma_tables_grow(tree, oop, ip, n - 1, n - 1);
        }
    }
}

/// Counts the hands that share no card with the board.
pub fn count_reach(hands: &Vec<Hand>, board: &[Card; 5]) -> (n: usize)
    ensures
        n == reach(hands@, board@),
        n <= hands@.len(),
{
    let mut n: usize = 0;
    let mut i: usize = 0;
    while i < hands.len()
        invariant
            i <= hands@.len(),
            n == reach_upto(hands@, board@, i as int),
            n <= i,
        decreases hands@.len() - i,
    {
        let h = hands[i];
        if !is_blocked(board.as_slice(), h.first) && !is_blocked(board.as_slice(), h.second) {
            n += 1;
        }
        i += 1;
    }
    n
}

/// The positions of the hands that share no card with the board, ascending.
pub fn reachable(hands: &Vec<Hand>, board: &[Card; 5]) -> (at: Vec<usize>)
    ensures
        at@.len() == reach(hands@, board@),
        forall|k: int|
            0 <= k < at@.len() ==> (#[trigger] at@[k]) < hands@.len() && !is_blocked_by(
                hands@[at@[k] as int],
                board@,
            ),
        forall|j: int, k: int| 0 <= j < k < at@.len() ==> #[trigger] at@[j] < #[trigger] at@[k],
        forall|i: int|
            0 <= i < hands@.len() && !is_blocked_by(#[trigger] hands@[i], board@) ==> at@.contains(
                i as usize,
            ),
{
    let mut at: Vec<usize> = Vec::new();
    let mut i: usize = 0;
    while i < hands.len()
        invariant
            i <= hands@.len(),
            at@.len() == reach_upto(hands@, board@, i as int),
            forall|k: int|
                0 <= k < at@.len() ==> (#[trigger] at@[k]) < i && !is_blocked_by(
                    hands@[at@[k] as int],
                    board@,
                ),
            forall|j: int, k: int| 0 <= j < k < at@.len() ==> #[trigger] at@[j] < #[trigger] at@[k],
            forall|j: int|
                0 <= j < i && !is_blocked_by(#[trigger] hands@[j], board@) ==> at@.contains(
                    j as usize,
                ),
        decreases hands@.len() - i,
    {
        let h = hands[i];
        if !is_blocked(board.as_slice(), h.first) && !is_blocked(board.as_slice(), h.second) {
            let ghost before = at@;
            at.push(i);
            proof {
                assert(at@[before.len() as int] == i);
                assert forall|j: int|
                    0 <= j < i + 1 && !is_blocked_by(#[trigger] hands@[j], board@) implies at@.contains(
                    j as usize,
                ) by {
                    if j < i {
                        let k = choose|k: int| 0 <= k < before.len() && before[k] == j as usize;
                        assert(at@[k] == j as usize);
                    }
                }
            }
        }
        i += 1;
    }
    at
}

/// Lays out the tables of a tree for the hands of the two players, within a
/// budget of cells.
///
/// The result holds one table for each node, in the order of the nodes, and
/// the number of cells of all tables together. The layout fails at the first
/// node whose table does not fit into the budget any more.
pub fn lay_out(tree: &ActionTree, oop: &Vec<Hand>, ip: &Vec<Hand>, budget: usize) -> (res: Result<
    (Vec<Table>, usize),
    AllocationError,
>)
    ensures
        match res {
            Ok((tables, total)) => {
                &&& is_layout(tables@, tree@, oop@, ip@, tree@.len() as int)
                &&& total == tables_upto(tree@, oop@, ip@, tree@.len() as int)
                &&& total <= budget
            },
            Err(e) => {
                &&& e.budget == budget
                &&& e.node < tree@.len()
                &&& tables_upto(tree@, oop@, ip@, e.node as int) <= budget
                &&& tables_upto(tree@, oop@, ip@, e.node + 1) > budget
                &&& tables_upto(tree@, oop@, ip@, tree@.len() as int) > budget
            },
        },
{
    let n = tree.len();
    let mut tables: Vec<Table> = Vec::new();
    let mut total: usize = 0;
    let mut i: usize = 0;
    while i < n
        invariant
            i <= n == tree@.len(),
            is_layout(tables@, tree@, oop@, ip@, i as int),
            total == tables_upto(tree@, oop@, ip@, i as int),
            total <= budget,
        decreases n - i,
    {
        let node = tree.node(i);
        let decision = match node.spot.stage {
            Stage::Open | Stage::Checked | Stage::Facing => true,
            _ => false,
        };
        let (actions, hands) = if decision {
            let held = if node.spot.to_act == 0 {
                oop
            } else {
                ip
            };
            (node.actions.len(), count_reach(held, &node.spot.board))
        } else {
            (0, 0)
        };
        assert(0 <= actions * hands <= 0xffff_ffff_ffff_ffff * 0xffff_ffff_ffff_ffff)
            by (nonlinear_arith)
            requires
                0 <= actions <= 0xffff_ffff_ffff_ffff,
                0 <= hands <= 0xffff_ffff_ffff_ffff,
        ;
        let cells: u128 = (actions as u128) * (hands as u128);
        assert(cells == table_len(tree@[i as int], oop@, ip@));
        if total as u128 + cells > budget as u128 {
            proof {
                lemma_tables_grow(tree@, oop@, ip@, i + 1, n as int);
            }
            return Err(AllocationError { budget, node: i });
        }
        let ghost before = tables@;
        tables.push(Table { offset: total, actions, hands });
        proof {
            assert forall|j: int| 0 <= j < i + 1 implies {
                &&& (#[trigger] tables@[j]).offset == tables_upto(tree@, oop@, ip@, j)
                &&& tables@[j].actions * tables@[j].hands == table_len(tree@[j], oop@, ip@)
                &&& is_decision(tree@[j]) ==> tables@[j].actions == tree@[j].actions.len()
                    && tables@[j].hands == reach(hands_at(tree@[j], oop@, ip@), tree@[j].state.board)
                &&& !is_decision(tree@[j]) ==> tables@[j].actions == 0 && tables@[j].hands == 0
            } by {
                if j < i {
                    assert(tables@[j] == before[j]);
                }
            }
        }
        total = total + cells as usize;
        i += 1;
    }
    Ok((tables, total))
}

/// The cell of an action and a hand in a table: the cells of an action lie
/// together, in the order of the hands.
pub open spec fn cell_of(table: Table, action: int, hand: int) -> int {
    table.offset + action * table.hands + hand
}

/// The cell of an action and a hand in a table, or `None` where the table
/// has no such action or hand.
pub fn cell(table: &Table, action: usize, hand: usize) -> (at: Option<usize>)
    requires
        table.offset + table.actions * table.hands <= usize::MAX,
    ensures
        at is Some <==> action < table.actions && hand < table.hands,
        at matches Some(i) ==> i == cell_of(*table, action as int, hand as int) && table.offset
            <= i < table.offset + table.actions * table.hands,
{
    if action < table.actions && hand < table.hands {
        assert(action * table.hands + hand < table.actions * table.hands) by (nonlinear_arith)
            requires
                0 <= action < table.actions,
                0 <= hand < table.hands,
        ;
        assert(0 <= action * table.hands) by (nonlinear_arith)
            requires
                0 <= action,
                0 <= table.hands,
        ;
        Some(table.offset + action * table.hands + hand)
    } else {
        None
    }
}

/// The values of one hand in a table, one for each action, taken from the
/// cells of all tables.
pub fn hand_row<T: Copy>(cells: &[T], table: &Table, hand: usize) -> (row: Option<Vec<T>>)
    ensures
        row is Some <==> hand < table.hands && table.offset + table.actions * table.hands
            <= cells@.len(),
        row matches Some(values) ==> values@.len() == table.actions && forall|k: int|
            0 <= k < table.actions ==> #[trigger] values@[k] == cells@[cell_of(
                *table,
                k,
                hand as int,
            )],
{
    assert(0 <= table.actions * table.hands <= 0xffff_ffff_ffff_ffff * 0xffff_ffff_ffff_ffff)
        by (nonlinear_arith)
        requires
            0 <= table.actions <= 0xffff_ffff_ffff_ffff,
            0 <= table.hands <= 0xffff_ffff_ffff_ffff,
    ;
    let size: u128 = (table.actions as u128) * (table.hands as u128);
    if hand >= table.hands || table.offset as u128 + size > cells.len() as u128 {
        return None;
    }
    let mut values: Vec<T> = Vec::new();
    let mut k: usize = 0;
    while k < table.actions
        invariant
            k <= table.actions,
            hand < table.hands,
            cells@.len() <= usize::MAX,
            table.offset + table.actions * table.hands <= cells@.len(),
            values@.len() == k,
            forall|j: int|
                0 <= j < k ==> #[trigger] values@[j] == cells@[cell_of(*table, j, hand as int)],
        decreases table.actions - k,
    {
        let at = match cell(table, k, hand) {
            Some(at) => at,
            None => {
                return None;
            },
        };
        values.push(cells[at]);
        k += 1;
    }
    Some(values)
}

} // verus!
