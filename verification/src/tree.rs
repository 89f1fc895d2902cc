//! The betting tree: every state a hand can reach under a configuration,
//! held in one list. A node's children come before it and the root comes
//! last, so a node's number is above the numbers of all nodes below it.

use vstd::prelude::*;
use crate::board::{is_board, BoardState};
use crate::card::{is_card, Card};
use crate::config::{rules_fault, rules_ok, Rules, TreeConfig, TreeConfigError};
use crate::spot::{
    actions_of, advance, legal_actions, lemma_actions_fit, lemma_next_state,
    next_state, stage_rank, street_index, Action, Spot, Stage, State,
};

verus! {

/// A node of the tree: a state, the actions open in it, and for each action
/// the number of the node it leads to.
#[derive(Debug)]
pub struct Node {
    pub spot: Spot,
    pub actions: Vec<Action>,
    pub children: Vec<usize>,
}

/// What a node is.
pub ghost struct NodeModel {
    pub state: State,
    pub actions: Seq<Action>,
    pub children: Seq<int>,
}

/// Numbers of nodes as integers.
pub open spec fn ids(children: Seq<usize>) -> Seq<int> {
    Seq::new(children.len(), |i: int| children[i] as int)
}

impl View for Node {
    type V = NodeModel;

    open spec fn view(&self) -> NodeModel {
        NodeModel { state: self.spot@, actions: self.actions@, children: ids(self.children@) }
    }
}

/// What a list of nodes is.
pub open spec fn models(nodes: Seq<Node>) -> Seq<NodeModel> {
    Seq::new(nodes.len(), |i: int| nodes[i]@)
}

/// The nodes of the tree below and at the state `s`, numbered from `base`:
/// the subtrees of the states its actions lead to, one after the other in
/// the order of the actions, then the node of `s` itself.
pub open spec fn subtree(r: Rules, s: State, base: int) -> Seq<NodeModel>
    decreases 2 - street_index(s.street), r.stack - s.wagered - s.bet, stage_rank(s.stage), 1int, 0int,
    when s.ok(r)
{
    let below = forest(r, s, 0, base);
    below.0.push(NodeModel { state: s, actions: actions_of(r, s), children: below.1 })
}

/// The subtrees of the states that the actions of `s` from the `k`-th on
/// lead to, numbered from `base`, and the numbers of their roots.
pub open spec fn forest(r: Rules, s: State, k: int, base: int) -> (Seq<NodeModel>, Seq<int>)
    decreases 2 - street_index(s.street), r.stack - s.wagered - s.bet, stage_rank(s.stage), 0int,
        actions_of(r, s).len() - k,
    when s.ok(r) && 0 <= k
{
    if k >= actions_of(r, s).len() {
        (Seq::<NodeModel>::empty(), Seq::<int>::empty())
    } else {
        proof {
            lemma_actions_fit(r, s, k);
            lemma_next_state(r, s, actions_of(r, s)[k]);
        }
        let first = subtree(r, next_state(r, s, actions_of(r, s)[k]), base);
        let rest = forest(r, s, k + 1, base + first.len());
        (first + rest.0, seq![base + first.len() - 1] + rest.1)
    }
}

/// The state a tree starts in.
pub open spec fn root_state(r: Rules, board: Seq<u8>) -> State {
    State {
        street: r.initial_state,
        board,
        stage: Stage::Open,
        to_act: 0,
        wagered: 0,
        bet: 0,
        paid: 0,
        donk: false,
    }
}

/// The tree of a configuration on a board.
pub open spec fn tree_model(r: Rules, board: Seq<u8>) -> Seq<NodeModel> {
    subtree(r, root_state(r, board), 0)
}

/// The first fault of a configuration and a board, or none.
pub open spec fn tree_fault(r: Rules, board: Seq<u8>) -> Option<TreeConfigError> {
    match rules_fault(r) {
        Some(e) => Some(e),
        None => if is_board(board, r.initial_state) {
            None
        } else {
            Some(TreeConfigError::InvalidBoard)
        },
    }
}

/// Adds the subtree of the state `s` to `nodes` and gives the number of its
/// root.
fn grow(cfg: &TreeConfig, s: &Spot, nodes: &mut Vec<Node>) -> (id: usize)
    requires
        s@.ok(cfg@),
    ensures
        models(final(nodes)@) == models(old(nodes)@) + subtree(
            cfg@,
            s@,
            old(nodes)@.len() as int,
        ),
        id + 1 == final(nodes)@.len(),
    decreases 2 - street_index(s@.street), cfg@.stack - s@.wagered - s@.bet, stage_rank(s@.stage),
{
    let actions = legal_actions(cfg, s);
    let mut children: Vec<usize> = Vec::new();
    let ghost base = nodes@.len() as int;
    let ghost start = models(nodes@);
    let ghost whole = forest(cfg@, s@, 0, base);
    let mut k: usize = 0;
    assert(start + whole.0 =~= models(nodes@) + whole.0);
    assert(whole.1 =~= ids(children@) + whole.1);
    while k < actions.len()
        invariant
            k <= actions@.len(),
            actions@ == actions_of(cfg@, s@),
            s@.ok(cfg@),
            whole == forest(cfg@, s@, 0, base),
            start + whole.0 == models(nodes@) + forest(cfg@, s@, k as int, nodes@.len() as int).0,
            whole.1 == ids(children@) + forest(cfg@, s@, k as int, nodes@.len() as int).1,
        decreases actions@.len() - k,
    {
        proof {
            lemma_actions_fit(cfg@, s@, k as int);
        }
        let t = advance(cfg, s, actions[k]);
        let ghost before = nodes@;
        let ghost kids = children@;
        let ghost here = forest(cfg@, s@, k as int, before.len() as int);
        let child = grow(cfg, &t, nodes);
        children.push(child);
        proof {
            let first = subtree(cfg@, t@, before.len() as int);
            let rest = forest(cfg@, s@, k + 1, (before.len() + first.len()) as int);
            assert(models(nodes@).len() == models(before).len() + first.len());
            assert(here.0 == first + rest.0);
            assert(here.1 == seq![before.len() + first.len() - 1] + rest.1);
            assert(models(before) + (first + rest.0) =~= models(nodes@) + rest.0);
            assert(ids(children@) =~= ids(kids).push(child as int));
            assert(ids(kids) + (seq![before.len() + first.len() - 1] + rest.1) =~= ids(children@)
                + rest.1);
        }
        k += 1;
    }
    let ghost before = nodes@;
    nodes.push(Node { spot: *s, actions, children });
    proof {
        let last = NodeModel { state: s@, actions: actions_of(cfg@, s@), children: whole.1 };
        assert(forest(cfg@, s@, k as int, before.len() as int).0 =~= Seq::<NodeModel>::empty());
        assert(forest(cfg@, s@, k as int, before.len() as int).1 =~= Seq::<int>::empty());
        assert(ids(children@) =~= whole.1);
        assert(models(before) =~= start + whole.0);
        assert(models(nodes@) =~= models(before).push(last));
        assert(models(nodes@) =~= start + whole.0.push(last));
    }
    nodes.len() - 1
}

/// Whether `board` is a board of the state.
fn check_board(board: &[Card; 5], state: BoardState) -> (ok: bool)
    ensures
        ok == is_board(board@, state),
{
    let n = state.cards();
    let mut i: usize = 0;
    while i < 5
        invariant
            i <= 5,
            n == state.card_count(),
            forall|j: int| 0 <= j < i && j < n ==> is_card(#[trigger] board@[j] as int),
            forall|j: int| n <= j < i ==> #[trigger] board@[j] == 255,
            forall|a: int, b: int|
                0 <= a < b < i && b < n ==> #[trigger] board@[a] != #[trigger] board@[b],
        decreases 5 - i,
    {
        let c = board[i];
        if i < n {
            if c >= 52 {
                return false;
            }
            let mut j: usize = 0;
            while j < i
                invariant
                    j <= i < n <= 5,
                    n == state.card_count(),
                    c == board@[i as int],
                    forall|a: int| 0 <= a < j ==> #[trigger] board@[a] != c,
                decreases i - j,
            {
                if board[j] == c {
                    assert(board@[j as int] == board@[i as int]);
                    return false;
                }
                j += 1;
            }
        } else if c != 255 {
            return false;
        }
        i += 1;
    }
    true
}

/// The betting tree of a configuration on a board.
#[derive(Debug)]
pub struct ActionTree {
    config: TreeConfig,
    nodes: Vec<Node>,
}

impl View for ActionTree {
    type V = Seq<NodeModel>;

    /// The nodes of the tree; the root is the last.
    closed spec fn view(&self) -> Seq<NodeModel> {
        models(self.nodes@)
    }
}

impl ActionTree {
    #[verifier::type_invariant]
    spec fn inv(self) -> bool {
        &&& rules_ok(self.config@)
        &&& self.nodes@.len() > 0
        &&& self.nodes@.last().spot@ == root_state(self.config@, self.nodes@.last().spot@.board)
        &&& is_board(self.nodes@.last().spot@.board, self.config@.initial_state)
        &&& models(self.nodes@) == tree_model(self.config@, self.nodes@.last().spot@.board)
    }

    /// The rules the tree was built under.
    pub closed spec fn rules(&self) -> Rules {
        self.config@
    }

    /// The board the tree starts on.
    pub closed spec fn board(&self) -> Seq<u8> {
        self.nodes@.last().spot@.board
    }

    /// Builds the tree of a configuration on a board.
    ///
    /// The configuration is checked first, then the board; nothing is built
    /// if either is at fault. The tree is `tree_model` of the rules and the
    /// board.
    pub fn new(config: TreeConfig, board: [Card; 5]) -> (res: Result<ActionTree, TreeConfigError>)
        ensures
            match res {
                Ok(tree) => {
                    &&& tree_fault(config@, board@) is None
                    &&& tree.rules() == config@
                    &&& tree.board() == board@
                    &&& tree@ == tree_model(config@, board@)
                    &&& tree@.len() > 0
                },
                Err(e) => tree_fault(config@, board@) == Some(e),
            },
    {
        match config.validate() {
            Err(e) => {
                return Err(e);
            },
            Ok(_) => {},
        }
        if !check_board(&board, config.initial_state) {
            return Err(TreeConfigError::InvalidBoard);
        }
        let root = Spot {
            street: config.initial_state,
            board,
            stage: Stage::Open,
            to_act: 0,
            wagered: 0,
            bet: 0,
            paid: 0,
            donk: false,
        };
        let mut nodes: Vec<Node> = Vec::new();
        assert(root@ == root_state(config@, board@));
        let id = grow(&config, &root, &mut nodes);
        proof {
            let m = subtree(config@, root@, 0);
            assert(models(nodes@) =~= m);
            assert(m.last().state == root@);
            assert(models(nodes@)[id as int] == nodes@[id as int]@);
        }
        Ok(ActionTree { config, nodes })
    }

    /// The configuration the tree was built from.
    pub fn config(&self) -> (cfg: &TreeConfig)
        ensures
            cfg@ == self.rules(),
            rules_ok(cfg@),
    {
        proof {
            use_type_invariant(self);
        }
        &self.config
    }

    /// Number of nodes.
    pub fn len(&self) -> (n: usize)
        ensures
            n == self@.len(),
            n > 0,
            self@ == tree_model(self.rules(), self.board()),
    {
        proof {
            use_type_invariant(self);
        }
        self.nodes.len()
    }

    /// The number of the root, which is the last node.
    pub fn root(&self) -> (id: usize)
        ensures
            id == self@.len() - 1,
            self@[id as int].state == root_state(self.rules(), self.board()),
    {
        proof {
            use_type_invariant(self);
        }
        self.nodes.len() - 1
    }

    /// The node with the number `id`.
    pub fn node(&self, id: usize) -> (node: &Node)
        requires
            id < self@.len(),
        ensures
            node@ == self@[id as int],
    {
        &self.nodes[id]
    }

    /// The actions open at the node `id`, in the order of its children.
    pub fn available_actions(&self, id: usize) -> (actions: &Vec<Action>)
        requires
            id < self@.len(),
        ensures
            actions@ == self@[id as int].actions,
    {
        &self.nodes[id].actions
    }
}

/// The tree is a function of the rules and the board: two configurations that
/// stand for the same rules give, on the same board, trees with the same
/// number of nodes and the same actions at every node.
pub proof fn lemma_tree_is_determined(r1: Rules, b1: Seq<u8>, r2: Rules, b2: Seq<u8>)
    requires
        r1 == r2,
        b1 == b2,
    ensures
        tree_model(r1, b1) == tree_model(r2, b2),
        tree_model(r1, b1).len() == tree_model(r2, b2).len(),
        forall|i: int|
            0 <= i < tree_model(r1, b1).len() ==> tree_model(r1, b1)[i].actions == tree_model(
                r2,
                b2,
            )[i].actions,
{
}

/// Whether the node `i` of the list `m`, which is numbered from `base`,
/// follows the rules: its state can come up, its actions are the actions
/// open in its state, and each action leads to a node before it that holds
/// the state the action leads to.
pub open spec fn node_follows_rules(r: Rules, m: Seq<NodeModel>, base: int, i: int) -> bool {
    &&& m[i].state.ok(r)
    &&& m[i].actions == actions_of(r, m[i].state)
    &&& m[i].children.len() == m[i].actions.len()
    &&& forall|k: int|
        0 <= k < m[i].children.len() ==> base <= #[trigger] m[i].children[k] < base + i && m[m[i].children[k]
            - base].state == next_state(r, m[i].state, m[i].actions[k])
}

/// Whether every node of the list follows the rules.
pub open spec fn follows_rules(r: Rules, m: Seq<NodeModel>, base: int) -> bool {
    forall|i: int| 0 <= i < m.len() ==> node_follows_rules(r, m, base, i)
}

/// Every node of a subtree follows the rules, and the last node is the node
/// of the state the subtree starts in.
pub proof fn lemma_subtree_follows_rules(r: Rules, s: State, base: int)
    requires
        s.ok(r),
    ensures
        follows_rules(r, subtree(r, s, base), base),
        subtree(r, s, base).len() >= 1,
        subtree(r, s, base).last().state == s,
    decreases 2 - street_index(s.street), r.stack - s.wagered - s.bet, stage_rank(s.stage), 1int, 0int,
{
    lemma_forest_follows_rules(r, s, 0, base);
    let below = forest(r, s, 0, base);
    let root = NodeModel { state: s, actions: actions_of(r, s), children: below.1 };
    let m = below.0.push(root);
    assert(subtree(r, s, base) == m);
    assert forall|i: int| 0 <= i < m.len() implies node_follows_rules(r, m, base, i) by {
        if i < below.0.len() {
            assert(node_follows_rules(r, below.0, base, i));
            assert(m[i] == below.0[i]);
            assert forall|k: int| 0 <= k < m[i].children.len() implies base
                <= #[trigger] m[i].children[k] < base + i && m[m[i].children[k] - base].state
                == next_state(r, m[i].state, m[i].actions[k]) by {
                let c = below.0[i].children[k];
                assert(m[c - base] == below.0[c - base]);
            }
        } else {
            assert(m[i] == root);
            assert forall|k: int| 0 <= k < root.children.len() implies base
                <= #[trigger] root.children[k] < base + i && m[root.children[k] - base].state
                == next_state(r, root.state, root.actions[k]) by {
                let c = below.1[k];
                assert(m[c - base] == below.0[c - base]);
            }
        }
    }
}

/// Every node of the subtrees below a state follows the rules, and the
/// roots of the subtrees hold the states that the actions lead to.
pub proof fn lemma_forest_follows_rules(r: Rules, s: State, k: int, base: int)
    requires
        s.ok(r),
        0 <= k <= actions_of(r, s).len(),
    ensures
        follows_rules(r, forest(r, s, k, base).0, base),
        forest(r, s, k, base).1.len() == actions_of(r, s).len() - k,
        forall|j: int|
            0 <= j < forest(r, s, k, base).1.len() ==> base <= #[trigger] forest(
                r,
                s,
                k,
                base,
            ).1[j] < base + forest(r, s, k, base).0.len() && forest(r, s, k, base).0[forest(
                r,
                s,
                k,
                base,
            ).1[j] - base].state == next_state(r, s, actions_of(r, s)[k + j]),
    decreases 2 - street_index(s.street), r.stack - s.wagered - s.bet, stage_rank(s.stage), 0int,
        actions_of(r, s).len() - k,
{
    if k < actions_of(r, s).len() {
        lemma_actions_fit(r, s, k);
        let t = next_state(r, s, actions_of(r, s)[k]);
        lemma_next_state(r, s, actions_of(r, s)[k]);
        lemma_subtree_follows_rules(r, t, base);
        let first = subtree(r, t, base);
        let mid = base + first.len();
        lemma_forest_follows_rules(r, s, k + 1, mid);
        let rest = forest(r, s, k + 1, mid);
        let all = first + rest.0;
        let roots = seq![mid - 1] + rest.1;
        assert(forest(r, s, k, base) == (all, roots));
        assert forall|i: int| 0 <= i < all.len() implies node_follows_rules(r, all, base, i) by {
            if i < first.len() {
                assert(node_follows_rules(r, first, base, i));
                assert(all[i] == first[i]);
                assert forall|q: int| 0 <= q < all[i].children.len() implies base
                    <= #[trigger] all[i].children[q] < base + i && all[all[i].children[q]
                    - base].state == next_state(r, all[i].state, all[i].actions[q]) by {
                    let c = first[i].children[q];
                    assert(all[c - base] == first[c - base]);
                }
            } else {
                let i2 = i - first.len();
                assert(node_follows_rules(r, rest.0, mid, i2));
                assert(all[i] == rest.0[i2]);
                assert forall|q: int| 0 <= q < all[i].children.len() implies base
                    <= #[trigger] all[i].children[q] < base + i && all[all[i].children[q]
                    - base].state == next_state(r, all[i].state, all[i].actions[q]) by {
                    let c = rest.0[i2].children[q];
                    assert(all[c - base] == rest.0[c - mid]);
                }
            }
        }
        assert forall|j: int| 0 <= j < roots.len() implies base <= #[trigger] roots[j] < base
            + all.len() && all[roots[j] - base].state == next_state(
            r,
            s,
            actions_of(r, s)[k + j],
        ) by {
            if j == 0 {
                assert(all[mid - 1 - base] == first[first.len() - 1]);
            } else {
                let c = rest.1[j - 1];
                assert(roots[j] == c);
                assert(all[c - base] == rest.0[c - mid]);
            }
        }
    }
}

/// Every node of a tree follows the rules, and the last node is the root.
pub proof fn lemma_tree_follows_rules(r: Rules, board: Seq<u8>)
    requires
        tree_fault(r, board) is None,
    ensures
        follows_rules(r, tree_model(r, board), 0),
        tree_model(r, board).len() >= 1,
        tree_model(r, board).last().state == root_state(r, board),
{
    lemma_subtree_follows_rules(r, root_state(r, board), 0);
}

} // verus!
