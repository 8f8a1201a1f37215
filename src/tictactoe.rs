use crate::random::{coin, random_index};
use vstd::prelude::*;

verus! {

/// What a cell of the board holds.
#[derive(Debug, Clone, Copy, PartialEq, Eq, Structural)]
pub enum Mark {
    X,
    O,
    Empty,
}

/// The two sides: the external player (the one being evaluated) and the
/// internal one, which plays random legal moves.
#[derive(Debug, Clone, Copy, PartialEq, Eq, Structural)]
pub enum Player {
    External,
    Internal,
}

/// Number of cells of the board.
pub const CELLS: usize = 9;

/// The cells of line `l` of the board (rows, columns, diagonals).
pub open spec fn line_cell(l: int, k: int) -> int {
    if l < 3 {
        3 * l + k
    } else if l < 6 {
        (l - 3) + 3 * k
    } else if l == 6 {
        4 * k
    } else {
        2 + 2 * k
    }
}

/// `m` fills one of the eight lines of `field`.
pub open spec fn wins(field: Seq<Mark>, m: Mark) -> bool {
    m != Mark::Empty && exists|l: int|
        0 <= l < 8 && #[trigger] field[line_cell(l, 0)] == m && field[line_cell(l, 1)] == m && field[
            line_cell(l, 2)
        ] == m
}

/// No cell of `field` is empty.
pub open spec fn full(field: Seq<Mark>) -> bool {
    forall|c: int| 0 <= c < field.len() ==> #[trigger] field[c] != Mark::Empty
}

/// The mark that a player places, given who moved first.
pub open spec fn mark_of(first: Player, p: Player) -> Mark {
    if first == p {
        Mark::X
    } else {
        Mark::O
    }
}

/// The board with every cell empty.
pub open spec fn empty_board() -> Seq<Mark> {
    Seq::new(CELLS as nat, |c: int| Mark::Empty)
}

/// A game of tic-tac-toe against a random opponent.
#[derive(Debug, Clone)]
pub struct TicTacToe {
    pub field: Vec<Mark>,
    pub first_player: Player,
    pub turn: Player,
}

impl TicTacToe {
    pub open spec fn wf(&self) -> bool {
        self.field@.len() == CELLS
    }

    pub open spec fn over(&self) -> bool {
        full(self.field@) || wins(self.field@, Mark::X) || wins(self.field@, Mark::O)
    }

    /// A new game with a randomly chosen first player; when the internal
    /// player begins, it has already made its move.
    pub fn new() -> (r: Self)
        ensures
            r.wf(),
            r.turn == Player::External,
            r.first_player == Player::External ==> r.field@ == empty_board(),
            r.first_player == Player::Internal ==> exists|c: int|
                0 <= c < CELLS && r.field@ == #[trigger] empty_board().update(c, Mark::X),
    {
        let first_player = if coin() {
            Player::External
        } else {
            Player::Internal
        };
        let mut field: Vec<Mark> = Vec::new();
        let mut c: usize = 0;
        while c < CELLS
            invariant
                c <= CELLS,
                field@ == Seq::new(c as nat, |c: int| Mark::Empty),
            decreases CELLS - c,
        {
            field.push(Mark::Empty);
            c += 1;
            assert(field@ =~= Seq::new(c as nat, |c: int| Mark::Empty));
        }
        let mut game = TicTacToe { field, first_player, turn: first_player };
        if first_player == Player::Internal {
            proof {
                assert(!game.over()) by {
                    assert(game.field@[0] == Mark::Empty);
                    assert(!wins(game.field@, Mark::X));
                    assert(!wins(game.field@, Mark::O));
                }
            }
            let ghost before = game.field@;
            game.step_internal();
            proof {
                assert(before == empty_board());
                let c = choose|c: int|
                    0 <= c < CELLS && before[c] == Mark::Empty && game.field@ == before.update(
                        c,
                        mark_of(game.first_player, Player::Internal),
                    );
                assert(game.field@ == empty_board().update(c, Mark::X));
            }
        }
        game
    }

    /// The internal player marks a random empty cell, unless the game is
    /// over or it is not its turn.
    fn step_internal(&mut self)
        requires
            old(self).wf(),
        ensures
            final(self).wf(),
            final(self).first_player == old(self).first_player,
            old(self).over() || old(self).turn == Player::External ==> *final(self) == *old(self),
            !old(self).over() && old(self).turn == Player::Internal ==> final(self).turn == Player::External
                && exists|c: int|
                0 <= c < CELLS && old(self).field@[c] == Mark::Empty && final(self).field@ == old(self).field@.update(
                    c,
                    mark_of(old(self).first_player, Player::Internal),
                ),
    {
        if self.game_over() || self.is_external_turn() {
            return;
        }
        let mut empty: Vec<usize> = Vec::new();
        let mut c: usize = 0;
        while c < CELLS
            invariant
                c <= CELLS,
                self.field@.len() == CELLS,
                forall|a: int| 0 <= a < empty@.len() ==> #[trigger] empty@[a] < CELLS && self.field@[empty@[a] as int] == Mark::Empty,
                empty@.len() == 0 ==> forall|k: int| 0 <= k < c ==> #[trigger] self.field@[k] != Mark::Empty,
            decreases CELLS - c,
        {
            if self.field[c] == Mark::Empty {
                empty.push(c);
            }
            c += 1;
        }
        let pick = random_index(empty.len());
        let cell = empty[pick];
        assert(empty@[pick as int] < CELLS);
        let mark = self.internal_mark();
        self.field.set(cell, mark);
        self.turn = Player::External;
    }

    pub fn is_external_first(&self) -> (r: bool)
        ensures
            r == (self.first_player == Player::External),
    {
        self.first_player == Player::External
    }

    pub fn is_external_turn(&self) -> (r: bool)
        ensures
            r == (self.turn == Player::External),
    {
        self.turn == Player::External
    }

    /// The mark of the external player: `X` when it moved first.
    pub fn external_mark(&self) -> (r: Mark)
        ensures
            r == mark_of(self.first_player, Player::External),
    {
        match self.first_player {
            Player::External => Mark::X,
            Player::Internal => Mark::O,
        }
    }

    /// The mark of the internal player: `X` when it moved first.
    pub fn internal_mark(&self) -> (r: Mark)
        ensures
            r == mark_of(self.first_player, Player::Internal),
    {
        match self.first_player {
            Player::Internal => Mark::X,
            Player::External => Mark::O,
        }
    }

    /// The board is full or one of the marks fills a line.
    pub fn game_over(&self) -> (r: bool)
        requires
            self.wf(),
        ensures
            r == self.over(),
    {
        let mut fields_full = true;
        let mut c: usize = 0;
        while c < CELLS
            invariant
                c <= CELLS,
                self.field@.len() == CELLS,
                fields_full == (forall|k: int| 0 <= k < c ==> #[trigger] self.field@[k] != Mark::Empty),
            decreases CELLS - c,
        {
            if self.field[c] == Mark::Empty {
                fields_full = false;
            }
            c += 1;
        }
        fields_full || self.did_mark_win(Mark::X) || self.did_mark_win(Mark::O)
    }

    pub fn did_external_win(&self) -> (r: bool)
        requires
            self.wf(),
        ensures
            r == wins(self.field@, mark_of(self.first_player, Player::External)),
    {
        self.did_mark_win(self.external_mark())
    }

    pub fn did_internal_win(&self) -> (r: bool)
        requires
            self.wf(),
        ensures
            r == wins(self.field@, mark_of(self.first_player, Player::Internal)),
    {
        self.did_mark_win(self.internal_mark())
    }

    /// The game is over and neither player won.
    pub fn is_draw(&self) -> (r: bool)
        requires
            self.wf(),
        ensures
            r == (self.over() && !wins(self.field@, Mark::X) && !wins(self.field@, Mark::O)),
    {
        let external = self.did_external_win();
        let internal = self.did_internal_win();
        assert(mark_of(self.first_player, Player::External) == Mark::X || mark_of(self.first_player, Player::External) == Mark::O);
        self.game_over() && !external && !internal
    }

    /// `check_mark` fills one of the eight lines.
    pub fn did_mark_win(&self, check_mark: Mark) -> (r: bool)
        requires
            self.wf(),
        ensures
            r == wins(self.field@, check_mark),
    {
        if check_mark == Mark::Empty {
            return false;
        }
        let mut l: usize = 0;
        while l < 8
            invariant
                l <= 8,
                self.field@.len() == CELLS,
                check_mark != Mark::Empty,
                forall|k: int|
                    0 <= k < l ==> !(#[trigger] self.field@[line_cell(k, 0)] == check_mark && self.field@[line_cell(k, 1)]
                        == check_mark && self.field@[line_cell(k, 2)] == check_mark),
            decreases 8 - l,
        {
            let a: usize = if l < 3 {
                3 * l
            } else if l < 6 {
                l - 3
            } else if l == 6 {
                0
            } else {
                2
            };
            let step: usize = if l < 3 {
                1
            } else if l < 6 {
                3
            } else if l == 6 {
                4
            } else {
                2
            };
            assert(line_cell(l as int, 0) == a && line_cell(l as int, 1) == a + step && line_cell(l as int, 2) == a + 2 * step);
            if self.field[a] == check_mark && self.field[a + step] == check_mark && self.field[a + 2 * step] == check_mark {
                return true;
            }
            l += 1;
        }
        false
    }

    /// The board.
    pub fn state(&self) -> (r: &[Mark])
        ensures
            r@ == self.field@,
    {
        self.field.as_slice()
    }

    /// The external player marks cell `input`, and the internal player
    /// answers. Refused, with nothing changed, when the game is over, it is
    /// not the external player's turn, or the cell is taken.
    pub fn step(&mut self, input: usize) -> (r: Result<(), ()>)
        requires
            old(self).wf(),
            input < CELLS,
        ensures
            final(self).wf(),
            r is Err <==> (old(self).over() || old(self).turn != Player::External || old(self).field@[input as int]
                != Mark::Empty),
            r is Err ==> *final(self) == *old(self),
            r is Ok ==> final(self).field@[input as int] == mark_of(old(self).first_player, Player::External),
            final(self).first_player == old(self).first_player,
    {
        if self.game_over() || !self.is_external_turn() {
            return Err(());
        }
        if self.field[input] != Mark::Empty {
            return Err(());
        }
        let mark = self.external_mark();
        self.field.set(input, mark);
        self.turn = Player::Internal;
        let ghost placed = self.field@;
        self.step_internal();
        proof {
            if placed != self.field@ {
                let c = choose|c: int|
                    0 <= c < CELLS && placed[c] == Mark::Empty && self.field@ == placed.update(
                        c,
                        mark_of(self.first_player, Player::Internal),
                    );
                assert(c != input);
            }
        }
        Ok(())
    }

    pub fn done(&self) -> (r: bool)
        requires
            self.wf(),
        ensures
            r == self.over(),
    {
        self.game_over()
    }

    /// Starts a new game in place.
    pub fn reset(&mut self)
        ensures
            final(self).wf(),
            final(self).turn == Player::External,
            final(self).first_player == Player::External ==> final(self).field@ == empty_board(),
            final(self).first_player == Player::Internal ==> exists|c: int|
                0 <= c < CELLS && final(self).field@ == #[trigger] empty_board().update(c, Mark::X),
    {
        *self = TicTacToe::new();
    }
}

} // verus!
