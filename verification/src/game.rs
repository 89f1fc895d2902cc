//! A game: a betting tree, the private hands of the two players on its
//! board, the layout of the solver's tables and the course of the solve.
//!
//! The numbers of a solve (regrets, strategies, values) are kept by the
//! solver. The game tells it where each number lies, which step is next and
//! when results may be read.

use vstd::prelude::*;
use crate::card::Card;
use crate::config::{TreeConfig, TreeConfigError};
use crate::hands::{is_enumeration, live_hands, Hand};
use crate::layout::{
    cell_of, hand_row, is_layout, lay_out, tables_upto, AllocationError, Table,
};
use crate::range::Range;
use crate::solver::{
    check_solved, is_over, state_ok, step, step_of, Command, Event, SolverState, SolverStateError,
};
use crate::spot::Action;
use crate::tree::{tree_fault, tree_model, ActionTree, NodeModel};
use crate::weights::{are_masses, are_masses_at, hand_masses, hand_masses_at};

verus! {

/// The cards of a spot: the ranges of the two players and the board.
/// Streets that are not dealt hold `NOT_DEALT`.
pub struct CardConfig {
    pub range: [Range; 2],
    pub flop: [Card; 3],
    pub turn: Card,
    pub river: Card,
}

impl CardConfig {
    /// The board: flop, turn and river in this order.
    pub open spec fn board_spec(&self) -> Seq<u8> {
        seq![self.flop@[0], self.flop@[1], self.flop@[2], self.turn, self.river]
    }

    /// The board: flop, turn and river in this order.
    pub fn board(&self) -> (b: [Card; 5])
        ensures
            b@ == self.board_spec(),
    {
        let b = [self.flop[0], self.flop[1], self.flop[2], self.turn, self.river];
        assert(b@ =~= self.board_spec());
        b
    }
}

/// Builds the betting tree of a configuration on the board of the cards.
///
/// The configuration is checked first, then the board; nothing is built if
/// either is at fault.
pub fn build(tree_config: TreeConfig, card_config: &CardConfig) -> (res: Result<
    ActionTree,
    TreeConfigError,
>)
    ensures
        match res {
            Ok(tree) => {
                &&& tree_fault(tree_config@, card_config.board_spec()) is None
                &&& tree.rules() == tree_config@
                &&& tree.board() == card_config.board_spec()
                &&& tree@ == tree_model(tree_config@, card_config.board_spec())
            },
            Err(e) => tree_fault(tree_config@, card_config.board_spec()) == Some(e),
        },
{
    ActionTree::new(tree_config, card_config.board())
}

/// Why a step of a game was refused.
#[derive(Clone, Copy, PartialEq, Eq, Debug, Structural)]
pub enum GameError {
    /// The board of the cards is not the board of the tree.
    BoardMismatch,
    /// The tables do not fit into the budget.
    Allocation(AllocationError),
    /// The step does not fit the state of the solve.
    State(SolverStateError),
}

/// Number of bytes of a cell in both tables of a node, the strategy and the
/// regrets: two bytes each in compressed storage, four each else.
pub open spec fn cell_bytes(compress: bool) -> int {
    if compress {
        4
    } else {
        8
    }
}

/// A game.
pub struct Game {
    cards: CardConfig,
    tree: ActionTree,
    oop: Vec<Hand>,
    ip: Vec<Hand>,
    tables: Vec<Table>,
    cells: usize,
    compressed: bool,
    state: SolverState,
    masses: Option<(Vec<u64>, Vec<u64>)>,
}

impl Game {
    /// The tree of the game.
    pub closed spec fn tree_view(&self) -> Seq<NodeModel> {
        self.tree@
    }

    /// The board of the game.
    pub closed spec fn board(&self) -> Seq<u8> {
        self.tree.board()
    }

    /// The weights of the range of a player.
    pub closed spec fn weights(&self, player: int) -> Seq<u8> {
        self.cards.range@[player]@
    }

    /// The private hands of a player.
    pub closed spec fn hands(&self, player: int) -> Seq<Hand> {
        if player == 0 {
            self.oop@
        } else {
            self.ip@
        }
    }

    /// The state of the solve.
    pub closed spec fn state(&self) -> SolverState {
        self.state
    }

    /// The tables, one for each node, once they are laid out.
    pub closed spec fn tables(&self) -> Seq<Table> {
        self.tables@
    }

    /// Number of cells of all tables.
    pub closed spec fn cells(&self) -> int {
        self.cells as int
    }

    /// The masses of the hands of a player, once they are cached.
    pub closed spec fn masses(&self, player: int) -> Option<Seq<u64>> {
        match self.masses {
            Some(m) => Some(
                if player == 0 {
                    m.0@
                } else {
                    m.1@
                },
            ),
            None => None,
        }
    }

    /// Whether the game is in order: the hands are the enumerations of the
    /// ranges on the board, the tables are laid out unless the game is new,
    /// and masses are cached only once the solve is over.
    pub closed spec fn wf(&self) -> bool {
        &&& is_enumeration(self.oop@, self.cards.range@[0]@, self.tree.board())
        &&& is_enumeration(self.ip@, self.cards.range@[1]@, self.tree.board())
        &&& self.oop@.len() <= 1326
        &&& self.ip@.len() <= 1326
        &&& self.tree@.len() > 0
        &&& self.tree@ == tree_model(self.tree.rules(), self.tree.board())
        &&& state_ok(self.state)
        &&& (self.state is Uninitialized ==> self.tables@.len() == 0 && self.cells == 0)
        &&& (!(self.state is Uninitialized) ==> is_layout(
            self.tables@,
            self.tree@,
            self.oop@,
            self.ip@,
            self.tree@.len() as int,
        ) && self.cells == tables_upto(self.tree@, self.oop@, self.ip@, self.tree@.len() as int))
        &&& (self.masses matches Some(m) ==> is_over(self.state) && are_masses(
            m.0@,
            self.oop@,
            self.ip@,
        ) && are_masses(m.1@, self.ip@, self.oop@))
    }

    /// Makes a game of a tree and the cards. The board of the cards must be
    /// the board the tree was built on.
    pub fn with_config(card_config: CardConfig, tree: ActionTree) -> (res: Result<Game, GameError>)
        ensures
            match res {
                Ok(game) => {
                    &&& card_config.board_spec() == tree.board()
                    &&& game.wf()
                    &&& game.state() is Uninitialized
                    &&& game.tree_view() == tree@
                    &&& game.board() == tree.board()
                    &&& game.weights(0) == card_config.range@[0]@
                    &&& game.weights(1) == card_config.range@[1]@
                    &&& is_enumeration(game.hands(0), game.weights(0), game.board())
                    &&& is_enumeration(game.hands(1), game.weights(1), game.board())
                    &&& game.masses(0) is None
                },
                Err(e) => e == GameError::BoardMismatch && card_config.board_spec() != tree.board(),
            },
    {
        let board = card_config.board();
        let n = tree.len();
        let root = tree.root();
        let on = tree.node(root).spot.board;
        let mut i: usize = 0;
        while i < 5
            invariant
                i <= 5,
                on@ == tree.board(),
                board@ == card_config.board_spec(),
                forall|j: int| 0 <= j < i ==> board@[j] == on@[j],
            decreases 5 - i,
        {
            if board[i] != on[i] {
                return Err(GameError::BoardMismatch);
            }
            i += 1;
        }
        assert(board@ =~= on@);
        let oop = live_hands(&card_config.range[0], board.as_slice());
        let ip = live_hands(&card_config.range[1], board.as_slice());
        Ok(
            Game {
                cards: card_config,
                tree,
                oop,
                ip,
                tables: Vec::new(),
                cells: 0,
                compressed: false,
                state: SolverState::Uninitialized,
                masses: None,
            },
        )
    }

    /// The tree of the game.
    pub fn tree(&self) -> (tree: &ActionTree)
        ensures
            tree@ == self.tree_view(),
    {
        &self.tree
    }

    /// The private hands of a player in ascending canonical index. The
    /// position of a hand in this list is its index in every table.
    pub fn private_cards(&self, player: usize) -> (hands: &Vec<Hand>)
        requires
            self.wf(),
            player < 2,
        ensures
            hands@ == self.hands(player as int),
            is_enumeration(hands@, self.weights(player as int), self.board()),
    {
        if player == 0 {
            &self.oop
        } else {
            &self.ip
        }
    }

    /// The actions open at the root, in the order of their tables' rows.
    pub fn available_actions(&self) -> (actions: &Vec<Action>)
        requires
            self.wf(),
        ensures
            actions@ == self.tree_view().last().actions,
            self.tree_view().len() > 0,
    {
        let root = self.tree.root();
        self.tree.available_actions(root)
    }

    /// Where the solve stands.
    pub fn solver_state(&self) -> (state: SolverState)
        ensures
            state == self.state(),
    {
        self.state
    }

    /// Lays out the tables within a budget of bytes. `compress` asks for
    /// compressed storage.
    ///
    /// Fails with `AlreadyAllocated` if the tables are laid out, and with an
    /// allocation error if they need more than the budget; the game is then
    /// unchanged.
    pub fn allocate_memory(&mut self, compress: bool, budget: usize) -> (res: Result<
        (),
        GameError,
    >)
        requires
            old(self).wf(),
        ensures
            final(self).wf(),
            final(self).tree_view() == old(self).tree_view(),
            final(self).hands(0) == old(self).hands(0),
            final(self).hands(1) == old(self).hands(1),
            match res {
                Ok(_) => {
                    &&& old(self).state() is Uninitialized
                    &&& final(self).state() is Allocated
                    &&& is_layout(
                        final(self).tables(),
                        final(self).tree_view(),
                        final(self).hands(0),
                        final(self).hands(1),
                        final(self).tree_view().len() as int,
                    )
                    &&& final(self).cells() == tables_upto(
                        final(self).tree_view(),
                        final(self).hands(0),
                        final(self).hands(1),
                        final(self).tree_view().len() as int,
                    )
                    &&& final(self).cells() * cell_bytes(compress) <= budget
                },
                Err(GameError::State(e)) => {
                    &&& !(old(self).state() is Uninitialized)
                    &&& e == SolverStateError::AlreadyAllocated
                    &&& final(self).state() == old(self).state()
                },
                Err(GameError::Allocation(e)) => {
                    &&& old(self).state() is Uninitialized
                    &&& final(self).state() is Uninitialized
                    &&& tables_upto(
                        old(self).tree_view(),
                        old(self).hands(0),
                        old(self).hands(1),
                        old(self).tree_view().len() as int,
                    ) * cell_bytes(compress) > budget
                    &&& e.budget == budget / (cell_bytes(compress) as usize)
                },
                Err(GameError::BoardMismatch) => false,
            },
    {
        match self.state {
            SolverState::Uninitialized => {},
            _ => {
                return Err(GameError::State(SolverStateError::AlreadyAllocated));
            },
        }
        let per: usize = if compress {
            4
        } else {
            8
        };
        let limit = budget / per;
        match lay_out(&self.tree, &self.oop, &self.ip, limit) {
            Ok((tables, cells)) => {
                self.tables = tables;
                self.cells = cells;
                self.compressed = compress;
                self.state = SolverState::Allocated;
                Ok(())
            },
            Err(e) => Err(GameError::Allocation(e)),
        }
    }

    /// The table of a node.
    pub fn table(&self, node: usize) -> (res: Result<Table, SolverStateError>)
        requires
            self.wf(),
            node < self.tree_view().len(),
        ensures
            match res {
                Ok(table) => !(self.state() is Uninitialized) && table == self.tables()[node as int]
                    && self.tables().len() == self.tree_view().len(),
                Err(e) => self.state() is Uninitialized && e == SolverStateError::NotAllocated,
            },
    {
        match self.state {
            SolverState::Uninitialized => Err(SolverStateError::NotAllocated),
            _ => Ok(self.tables[node]),
        }
    }

    /// Takes an event of the solve and answers with the next command. The
    /// tables are laid out with `allocate_memory`, never by an event.
    pub fn handle(&mut self, event: Event) -> (res: Result<Command, SolverStateError>)
        requires
            old(self).wf(),
        ensures
            final(self).wf(),
            final(self).tree_view() == old(self).tree_view(),
            final(self).hands(0) == old(self).hands(0),
            final(self).hands(1) == old(self).hands(1),
            final(self).tables() == old(self).tables(),
            match res {
                Ok(command) => !(event is Allocated) && step_of(old(self).state(), event) == Ok::<
                    (SolverState, Command),
                    SolverStateError,
                >((final(self).state(), command)),
                Err(e) => final(self).state() == old(self).state() && e == (if event is Allocated {
                    SolverStateError::OutOfTurn
                } else {
                    step_of(old(self).state(), event)->Err_0
                }) && (event is Allocated || step_of(old(self).state(), event) is Err),
            },
    {
        if let Event::Allocated = event {
            return Err(SolverStateError::OutOfTurn);
        }
        match step(self.state, event) {
            Ok((next, command)) => {
                self.state = next;
                Ok(command)
            },
            Err(e) => Err(e),
        }
    }

    /// Computes the masses of all hands with card removal, so that results
    /// can be read. The solve must be over.
    pub fn cache_normalized_weights(&mut self) -> (res: Result<(), SolverStateError>)
        requires
            old(self).wf(),
        ensures
            final(self).wf(),
            final(self).tree_view() == old(self).tree_view(),
            final(self).hands(0) == old(self).hands(0),
            final(self).hands(1) == old(self).hands(1),
            final(self).tables() == old(self).tables(),
            final(self).state() == old(self).state(),
            match res {
                Ok(_) => {
                    &&& is_over(old(self).state())
                    &&& final(self).masses(0) matches Some(m) && are_masses(
                        m,
                        final(self).hands(0),
                        final(self).hands(1),
                    )
                    &&& final(self).masses(1) matches Some(m) && are_masses(
                        m,
                        final(self).hands(1),
                        final(self).hands(0),
                    )
                },
                Err(e) => !is_over(old(self).state()) && e == (if old(self).state()
                    is Uninitialized {
                    SolverStateError::NotAllocated
                } else {
                    SolverStateError::NotSolved
                }) && final(self).masses(0) == old(self).masses(0),
            },
    {
        match check_solved(self.state) {
            Err(e) => {
                return Err(e);
            },
            Ok(_) => {},
        }
        let oop = hand_masses(&self.oop, &self.ip);
        let ip = hand_masses(&self.ip, &self.oop);
        self.masses = Some((oop, ip));
        Ok(())
    }

    /// The masses of the hands of a player, in the order of the hands.
    ///
    /// Fails with `NotAllocated` or `NotSolved` while the solve is not over,
    /// and with `WeightsNotCached` until the masses are computed.
    pub fn normalized_weights(&self, player: usize) -> (res: Result<&Vec<u64>, SolverStateError>)
        requires
            self.wf(),
            player < 2,
        ensures
            match res {
                Ok(masses) => is_over(self.state()) && self.masses(player as int) == Some(masses@)
                    && are_masses(
                    masses@,
                    self.hands(player as int),
                    self.hands(1 - player as int),
                ),
                Err(e) => e == (if self.state() is Uninitialized {
                    SolverStateError::NotAllocated
                } else if !is_over(self.state()) {
                    SolverStateError::NotSolved
                } else {
                    SolverStateError::WeightsNotCached
                }) && (is_over(self.state()) ==> self.masses(player as int) is None),
            },
    {
        match check_solved(self.state) {
            Err(e) => {
                return Err(e);
            },
            Ok(_) => {},
        }
        match &self.masses {
            Some(m) => Ok(
                if player == 0 {
                    &m.0
                } else {
                    &m.1
                },
            ),
            None => Err(SolverStateError::WeightsNotCached),
        }
    }

    /// The masses of the hands of a player on the board of a node, in the
    /// order of the hands: a hand that the board blocks has no mass, and a
    /// hand meets only the hands that the board does not block.
    ///
    /// Fails like `normalized_weights` until results can be read.
    pub fn normalized_weights_at(&self, node: usize, player: usize) -> (res: Result<
        Vec<u64>,
        SolverStateError,
    >)
        requires
            self.wf(),
            node < self.tree_view().len(),
            player < 2,
        ensures
            match res {
                Ok(masses) => is_over(self.state()) && self.masses(0) is Some && are_masses_at(
                    masses@,
                    self.hands(player as int),
                    self.hands(1 - player as int),
                    self.tree_view()[node as int].state.board,
                ),
                Err(e) => e == (if self.state() is Uninitialized {
                    SolverStateError::NotAllocated
                } else if !is_over(self.state()) {
                    SolverStateError::NotSolved
                } else {
                    SolverStateError::WeightsNotCached
                }) && (is_over(self.state()) ==> self.masses(0) is None),
            },
    {
        match check_solved(self.state) {
            Err(e) => {
                return Err(e);
            },
            Ok(_) => {},
        }
        if self.masses.is_none() {
            return Err(SolverStateError::WeightsNotCached);
        }
        let board = &self.tree.node(node).spot.board;
        if player == 0 {
            Ok(hand_masses_at(&self.oop, &self.ip, board))
        } else {
            Ok(hand_masses_at(&self.ip, &self.oop, board))
        }
    }

    /// The values of one hand at a node, one for each action, taken from the
    /// cells of all tables: the strategy of the hand, if `cells` holds the
    /// strategy. `None` where the node has no table with that hand or
    /// `cells` is too short.
    ///
    /// Fails like `normalized_weights` until results can be read.
    pub fn hand_values<T: Copy>(&self, cells: &[T], node: usize, hand: usize) -> (res: Result<
        Option<Vec<T>>,
        SolverStateError,
    >)
        requires
            self.wf(),
        ensures
            match res {
                Ok(Some(values)) => {
                    &&& node < self.tables().len()
                    &&& hand < self.tables()[node as int].hands
                    &&& values@.len() == self.tables()[node as int].actions
                    &&& forall|k: int|
                        0 <= k < values@.len() ==> #[trigger] values@[k] == cells@[cell_of(
                            self.tables()[node as int],
                            k,
                            hand as int,
                        )]
                },
                Ok(None) => is_over(self.state()) && self.masses(0) is Some && (node
                    >= self.tables().len() || hand >= self.tables()[node as int].hands
                    || self.tables()[node as int].offset + self.tables()[node as int].actions
                    * self.tables()[node as int].hands > cells@.len()),
                Err(e) => e == (if self.state() is Uninitialized {
                    SolverStateError::NotAllocated
                } else if !is_over(self.state()) {
                    SolverStateError::NotSolved
                } else {
                    SolverStateError::WeightsNotCached
                }) && (is_over(self.state()) ==> self.masses(0) is None),
            },
    {
        match check_solved(self.state) {
            Err(e) => {
                return Err(e);
            },
            Ok(_) => {},
        }
        if self.masses.is_none() {
            return Err(SolverStateError::WeightsNotCached);
        }
        if node >= self.tables.len() {
            return Ok(None);
        }
        Ok(hand_row(cells, &self.tables[node], hand))
    }
}

} // verus!
