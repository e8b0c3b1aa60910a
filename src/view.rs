use vstd::prelude::*;
use vstd::arithmetic::div_mod::{
    lemma_div_pos_is_pos, lemma_fundamental_div_mod, lemma_fundamental_div_mod_converse,
    lemma_mod_pos_bound,
};
use crate::game::{
    dropped, free_row, lemma_drop_then_find_row, winning_run, won_on, Board, Options, Token,
};

verus! {

/// What a player can ask of the board view.
#[derive(Clone, Copy, PartialEq, Eq, Debug, Structural)]
pub enum Command {
    /// Move the focus one column left.
    Left,
    /// Move the focus one column right.
    Right,
    /// Drop the current token into the focused column.
    Commit,
}

/// `overlay` holds the grid `g` row by row, bottom row first.
pub open spec fn mirrors(overlay: Seq<Token>, g: Seq<Seq<Token>>, cols: nat, rows: nat) -> bool {
    &&& overlay.len() == cols * rows
    &&& forall|i: int|
        0 <= i < overlay.len() ==> #[trigger] overlay[i] == g[i % (cols as int)][i / (cols as int)]
}

/// Index `i` of a row-by-row layout of `w` columns and `h` rows stands for
/// column `i % w` and row `i / w`.
proof fn lemma_cell_of(i: int, w: int, h: int)
    requires
        0 < w,
        0 <= i < w * h,
    ensures
        0 <= i % w < w,
        0 <= i / w < h,
        i == (i / w) * w + i % w,
{
    lemma_fundamental_div_mod(i, w);
    lemma_mod_pos_bound(i, w);
    lemma_div_pos_is_pos(i, w);
    let q = i / w;
    let m = i % w;
    assert(q < h) by (nonlinear_arith)
        requires
            i == w * q + m,
            0 <= m,
            i < w * h,
            0 < w,
    ;
    assert(i == q * w + m) by (nonlinear_arith)
        requires
            i == w * q + m,
    ;
}

/// The state of a game on screen: the board, a copy of its cells laid out
/// row by row, the column the player points at, and the winner and the cells
/// of the winning run once there is one.
pub struct BoardView {
    board: Board,
    overlay: Vec<Token>,
    focus: usize,
    winner: Token,
    winner_plays: Vec<(usize, usize)>,
}

impl BoardView {
    pub closed spec fn game(&self) -> Board {
        self.board
    }

    pub closed spec fn cells(&self) -> Seq<Token> {
        self.overlay@
    }

    pub closed spec fn focused(&self) -> nat {
        self.focus as nat
    }

    pub closed spec fn winner_of(&self) -> Token {
        self.winner
    }

    pub closed spec fn highlighted(&self) -> Seq<(usize, usize)> {
        self.winner_plays@
    }

    pub open spec fn wf(&self) -> bool {
        &&& self.game().wf()
        &&& self.focused() < self.game().width()
        &&& mirrors(self.cells(), self.game().grid(), self.game().width(), self.game().height())
    }

    /// A fresh game with the rules chosen in `options`.
    pub fn new(options: Options) -> (r: BoardView)
        ensures
            r.wf(),
            r.game().rules() == options.rules,
            r.game().moves().len() == 0,
            r.game().turn() == Token::Red,
            r.focused() == 0,
            r.winner_of() == Token::Invalid,
            r.highlighted().len() == 0,
    {
        let board = Board::new(options.rules);
        proof {
            board.lemma_shape();
        }
        let n = board.cols() * board.rows();
        let mut overlay: Vec<Token> = Vec::new();
        let mut i: usize = 0;
        while i < n
            invariant
                i <= n,
                overlay@ == Seq::new(i as nat, |k: int| Token::Invalid),
            decreases n - i,
        {
            overlay.push(Token::Invalid);
            i = i + 1;
            assert(overlay@ =~= Seq::new(i as nat, |k: int| Token::Invalid));
        }
        let r = BoardView {
            board: board,
            overlay: overlay,
            focus: 0,
            winner: Token::Invalid,
            winner_plays: Vec::new(),
        };
        let ghost w = board.width() as int;
        let ghost h = board.height() as int;
        assert forall|k: int| 0 <= k < r.overlay@.len() implies #[trigger] r.overlay@[k]
            == board.grid()[k % w][k / w] by {
            lemma_cell_of(k, w, h);
        }
        r
    }

    /// Where the cell of column `col` and row `row` stands in the row-by-row layout.
    pub fn cell_id(&self, col: usize, row: usize) -> (r: usize)
        requires
            row * self.game().width() + col <= usize::MAX,
        ensures
            r == row * self.game().width() + col,
    {
        row * self.board.cols() + col
    }

    pub fn board(&self) -> (r: &Board)
        ensures
            *r == self.game(),
    {
        &self.board
    }

    pub fn overlay(&self) -> (r: &Vec<Token>)
        ensures
            r@ == self.cells(),
    {
        &self.overlay
    }

    pub fn focus(&self) -> (r: usize)
        ensures
            r == self.focused(),
    {
        self.focus
    }

    pub fn winner(&self) -> (r: Token)
        ensures
            r == self.winner_of(),
    {
        self.winner
    }

    /// The cells of the winning run, empty while nobody has won.
    pub fn winner_plays(&self) -> (r: &Vec<(usize, usize)>)
        ensures
            r@ == self.highlighted(),
    {
        &self.winner_plays
    }

    /// Acts on a command and reports whether it was taken. Once the game is
    /// won nothing is taken. The focus stops at the edges. A commit drops the
    /// current token into the focused column; when that move wins, its player
    /// becomes the winner; then the turn passes. A commit into a full column is
    /// not taken and changes nothing.
    pub fn on_command(&mut self, cmd: Command) -> (r: bool)
        requires
            old(self).wf(),
        ensures
            final(self).wf(),
            old(self).winner_of().spec_valid() ==> !r && *final(self) == *old(self),
            !old(self).winner_of().spec_valid() && cmd == Command::Left ==> {
                &&& r
                &&& final(self).focused() == (if old(self).focused() > 0 {
                    old(self).focused() - 1
                } else {
                    0
                })
                &&& final(self).game() == old(self).game()
                &&& final(self).winner_of() == old(self).winner_of()
                &&& final(self).highlighted() == old(self).highlighted()
            },
            !old(self).winner_of().spec_valid() && cmd == Command::Right ==> {
                &&& r
                &&& final(self).focused() == (if old(self).focused() + 1 < old(self).game().width() {
                    old(self).focused() + 1
                } else {
                    old(self).focused()
                })
                &&& final(self).game() == old(self).game()
                &&& final(self).winner_of() == old(self).winner_of()
                &&& final(self).highlighted() == old(self).highlighted()
            },
            !old(self).winner_of().spec_valid() && cmd == Command::Commit && free_row(
                old(self).game().grid()[old(self).focused() as int],
            ) >= old(self).game().height() ==> !r && *final(self) == *old(self),
            !old(self).winner_of().spec_valid() && cmd == Command::Commit && free_row(
                old(self).game().grid()[old(self).focused() as int],
            ) < old(self).game().height() ==> {
                &&& r
                &&& final(self).game().grid() == dropped(
                    old(self).game().grid(),
                    old(self).focused() as int,
                    old(self).game().turn(),
                )
                &&& final(self).game().moves() == old(self).game().moves().push(
                    old(self).focused() as usize,
                )
                &&& final(self).game().turn() == old(self).game().turn().other()
                &&& final(self).winner_of() == (if won_on(
                    final(self).game().grid(),
                    final(self).game().moves(),
                ) {
                    old(self).game().turn()
                } else {
                    Token::Invalid
                })
                &&& won_on(final(self).game().grid(), final(self).game().moves()) ==> winning_run(
                    final(self).game().grid(),
                    final(self).game().moves(),
                    final(self).highlighted(),
                )
                &&& !won_on(final(self).game().grid(), final(self).game().moves())
                    ==> final(self).highlighted() == old(self).highlighted()
                &&& final(self).focused() == old(self).focused()
            },
    {
        if self.winner.is_valid() {
            return false;
        }
        match cmd {
            Command::Left => {
                if self.focus > 0 {
                    self.focus = self.focus - 1;
                }
                true
            },
            Command::Right => {
                proof {
                    self.board.lemma_shape();
                }
                if self.focus + 1 < self.board.cols() {
                    self.focus = self.focus + 1;
                }
                true
            },
            Command::Commit => self.commit(),
        }
    }

    fn commit(&mut self) -> (r: bool)
        requires
            old(self).wf(),
            !old(self).winner_of().spec_valid(),
        ensures
            final(self).wf(),
            free_row(old(self).game().grid()[old(self).focused() as int]) >= old(self).game().height()
                ==> !r && *final(self) == *old(self),
            free_row(old(self).game().grid()[old(self).focused() as int]) < old(self).game().height()
                ==> {
                &&& r
                &&& final(self).game().grid() == dropped(
                    old(self).game().grid(),
                    old(self).focused() as int,
                    old(self).game().turn(),
                )
                &&& final(self).game().moves() == old(self).game().moves().push(
                    old(self).focused() as usize,
                )
                &&& final(self).game().turn() == old(self).game().turn().other()
                &&& final(self).winner_of() == (if won_on(
                    final(self).game().grid(),
                    final(self).game().moves(),
                ) {
                    old(self).game().turn()
                } else {
                    Token::Invalid
                })
                &&& won_on(final(self).game().grid(), final(self).game().moves()) ==> winning_run(
                    final(self).game().grid(),
                    final(self).game().moves(),
                    final(self).highlighted(),
                )
                &&& !won_on(final(self).game().grid(), final(self).game().moves())
                    ==> final(self).highlighted() == old(self).highlighted()
                &&& final(self).focused() == old(self).focused()
            },
    {
        let ghost before = self.board;
        proof {
            before.lemma_shape();
        }
        let col = self.focus;
        match self.board.drop(col) {
            Err(_) => {
                return false;
            },
            Ok(()) => {},
        }
        proof {
            lemma_drop_then_find_row(&before, col);
            self.board.lemma_shape();
        }
        let ghost f = free_row(before.grid()[col as int]) as int;
        let token = self.board.current_token();
        match self.board.winning_cells() {
            Some(cells) => {
                self.winner = token;
                self.winner_plays = cells;
            },
            None => {},
        }
        match self.board.find_row_for_col(col) {
            Some(row) => {
                let ghost w = self.board.width() as int;
                assert(row == f);
                assert(row * w + col < w * self.board.height()) by (nonlinear_arith)
                    requires
                        row < self.board.height(),
                        col < w,
                ;
                let id = self.cell_id(col, row);
                self.overlay.set(id, token);
                let ghost g = self.board.grid();
                proof {
                    lemma_fundamental_div_mod_converse(id as int, w, row as int, col as int);
                    let h = self.board.height() as int;
                    assert forall|i: int| 0 <= i < self.overlay@.len() implies #[trigger] self.overlay@[i]
                        == g[i % w][i / w] by {
                        lemma_cell_of(i, w, h);
                        if i != id {
                            assert(self.overlay@[i] == old(self).overlay@[i]);
                            if i % w == col && i / w == f {
                                assert(i == id);
                            }
                        }
                    }
                }
            },
            None => {},
        }
        self.board.switch_token();
        true
    }
}

} // verus!
