//! The public cards of a hand, and their text form.

use vstd::prelude::*;
use vstd::string::StringSliceAdditionalSpecFns;
use crate::card::{card_at, card_of_bytes, is_card, Card};
use crate::hands::is_blocked;

verus! {

/// How far the board has been dealt.
#[derive(Clone, Copy, PartialEq, Eq, Debug, Structural)]
pub enum BoardState {
    Preflop,
    Flop,
    Turn,
    River,
}

impl BoardState {
    /// Number of public cards at this state.
    pub open spec fn card_count(self) -> int {
        match self {
            BoardState::Preflop => 0,
            BoardState::Flop => 3,
            BoardState::Turn => 4,
            BoardState::River => 5,
        }
    }

    /// Number of public cards at this state.
    pub fn cards(&self) -> (n: usize)
        ensures
            n == self.card_count(),
    {
        match self {
            BoardState::Preflop => 0,
            BoardState::Flop => 3,
            BoardState::Turn => 4,
            BoardState::River => 5,
        }
    }
}

/// Why a board text was refused. `at` is the position of the offending card
/// in the text, counted from zero.
#[derive(Clone, Copy, PartialEq, Eq, Debug, Structural)]
pub enum BoardParseError {
    /// The text does not hold exactly the cards of the state.
    WrongCardCount,
    /// The two characters are not a rank followed by a suit.
    InvalidCard { at: usize },
    /// The card stands earlier in the text.
    DuplicateCard { at: usize },
}

/// Whether `board` is a board at `state`: distinct cards in the slots that
/// are dealt, `NOT_DEALT` in the others.
pub open spec fn is_board(board: Seq<u8>, state: BoardState) -> bool {
    &&& board.len() == 5
    &&& forall|i: int| 0 <= i < state.card_count() ==> is_card(#[trigger] board[i] as int)
    &&& forall|i: int| state.card_count() <= i < 5 ==> #[trigger] board[i] == 255
    &&& forall|i: int, j: int|
        0 <= i < j < state.card_count() ==> #[trigger] board[i] != #[trigger] board[j]
}

/// The first `n` cards of a board text, or the first fault among them.
pub open spec fn board_prefix(text: Seq<u8>, n: int) -> Result<Seq<u8>, BoardParseError>
    decreases n,
{
    if n <= 0 {
        Ok(Seq::<u8>::empty())
    } else {
        match board_prefix(text, n - 1) {
            Err(e) => Err(e),
            Ok(cards) => match card_of_bytes(text.subrange(2 * (n - 1), 2 * n)) {
                None => Err(BoardParseError::InvalidCard { at: (n - 1) as usize }),
                Some(c) => if cards.contains(c) {
                    Err(BoardParseError::DuplicateCard { at: (n - 1) as usize })
                } else {
                    Ok(cards.push(c))
                },
            },
        }
    }
}

/// The cards `cards` followed by `NOT_DEALT` up to five slots.
pub open spec fn padded(cards: Seq<u8>) -> Seq<u8> {
    Seq::new(5, |i: int| if i < cards.len() { cards[i] } else { 255u8 })
}

/// The board that a text stands for at `state`: the text must be the cards of
/// the state, two characters each, without separators and without repeats.
pub open spec fn parse_board_spec(text: Seq<u8>, state: BoardState) -> Result<
    Seq<u8>,
    BoardParseError,
> {
    if text.len() != 2 * state.card_count() {
        Err(BoardParseError::WrongCardCount)
    } else {
        match board_prefix(text, state.card_count()) {
            Err(e) => Err(e),
            Ok(cards) => Ok(padded(cards)),
        }
    }
}

/// The cards that were read are distinct cards, as many as were asked for.
pub proof fn lemma_board_prefix(text: Seq<u8>, n: int)
    requires
        0 <= n,
        board_prefix(text, n) is Ok,
    ensures
        board_prefix(text, n).unwrap().len() == n,
        forall|i: int| 0 <= i < n ==> is_card(#[trigger] board_prefix(text, n).unwrap()[i] as int),
        forall|i: int, j: int|
            0 <= i < j < n ==> #[trigger] board_prefix(text, n).unwrap()[i]
                != #[trigger] board_prefix(text, n).unwrap()[j],
    decreases n,
{
    if n > 0 {
        lemma_board_prefix(text, n - 1);
        let before = board_prefix(text, n - 1).unwrap();
        let c = card_of_bytes(text.subrange(2 * (n - 1), 2 * n)).unwrap();
        let all = board_prefix(text, n).unwrap();
        assert(all == before.push(c));
        assert forall|i: int, j: int| 0 <= i < j < n implies #[trigger] all[i] != #[trigger] all[j] by {
            if j == n - 1 {
                assert(before[i] == all[i]);
                assert(before.contains(before[i]));
            } else {
                assert(before[i] == all[i] && before[j] == all[j]);
            }
        }
    }
}

/// Every board text that is accepted stands for a board of the state.
pub proof fn lemma_parse_board_gives_board(text: Seq<u8>, state: BoardState)
    requires
        parse_board_spec(text, state) is Ok,
    ensures
        is_board(parse_board_spec(text, state).unwrap(), state),
{
    lemma_board_prefix(text, state.card_count());
}

/// Reads a board text such as `"Td9d6h"` at the given state.
///
/// The result is the board with `NOT_DEALT` in the slots that are not dealt,
/// or the first fault: a wrong length, else the first card from the left that
/// is malformed or repeats an earlier one.
pub fn parse_board(text: &str, state: BoardState) -> (res: Result<[Card; 5], BoardParseError>)
    ensures
        match res {
            Ok(board) => parse_board_spec(text.spec_bytes(), state) == Ok::<
                Seq<u8>,
                BoardParseError,
            >(board@) && is_board(board@, state),
            Err(e) => parse_board_spec(text.spec_bytes(), state) == Err::<
                Seq<u8>,
                BoardParseError,
            >(e),
        },
{
    let bytes = text.as_bytes();
    let count = state.cards();
    if bytes.len() != 2 * count {
        return Err(BoardParseError::WrongCardCount);
    }
    let mut board: [Card; 5] = [255u8, 255u8, 255u8, 255u8, 255u8];
    let mut seen: Vec<Card> = Vec::new();
    let mut i: usize = 0;
    while i < count
        invariant
            i <= count <= 5,
            count == state.card_count(),
            bytes@.len() == 2 * count,
            bytes@ == text.spec_bytes(),
            board_prefix(bytes@, i as int) == Ok::<Seq<u8>, BoardParseError>(seen@),
            seen@.len() == i,
            board@ =~= padded(seen@),
        decreases count - i,
    {
        let c = match card_at(bytes, 2 * i) {
            Some(c) => c,
            None => {
                assert(board_prefix(bytes@, i + 1) is Err);
                proof {
                    lemma_board_prefix_error(bytes@, i + 1, count as int);
                }
                return Err(BoardParseError::InvalidCard { at: i });
            },
        };
        if is_blocked(seen.as_slice(), c) {
            assert(board_prefix(bytes@, i + 1) is Err);
            proof {
                lemma_board_prefix_error(bytes@, i + 1, count as int);
            }
            return Err(BoardParseError::DuplicateCard { at: i });
        }
        seen.push(c);
        board[i] = c;
        i += 1;
    }
    proof {
        lemma_parse_board_gives_board(bytes@, state);
    }
    Ok(board)
}

/// A fault among the first cards is the fault of the whole text.
proof fn lemma_board_prefix_error(text: Seq<u8>, n: int, m: int)
    requires
        0 <= n <= m,
        board_prefix(text, n) is Err,
    ensures
        board_prefix(text, m) == board_prefix(text, n),
    decreases m - n,
{
    if n < m {
        lemma_board_prefix_error(text, n, m - 1);
    }
}

} // verus!
