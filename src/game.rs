use vstd::prelude::*;

verus! {

/// The rules variant a board is built for; it fixes the board's size.
#[derive(Clone, Copy, PartialEq, Eq, Debug, Structural)]
pub enum RulesVariation {
    Classic,
}

impl RulesVariation {
    pub open spec fn spec_cols(self) -> nat {
        match self {
            RulesVariation::Classic => 7,
        }
    }

    pub open spec fn spec_rows(self) -> nat {
        match self {
            RulesVariation::Classic => 6,
        }
    }
}

/// The choices made before a game starts.
#[derive(Clone, Copy, PartialEq, Eq, Debug, Structural)]
pub struct Options {
    pub rules: RulesVariation,
}

/// What a cell holds: nothing yet, or one of the two players' tokens.
#[derive(Clone, Copy, PartialEq, Eq, Debug, Structural)]
pub enum Token {
    Invalid,
    Red,
    Yellow,
}

impl Token {
    /// A token that a player can place (not an empty cell).
    pub open spec fn spec_valid(self) -> bool {
        self != Token::Invalid
    }

    /// The other player's token; an empty cell has no other side.
    pub open spec fn other(self) -> Token {
        match self {
            Token::Red => Token::Yellow,
            Token::Yellow => Token::Red,
            Token::Invalid => Token::Invalid,
        }
    }

    /// What a cycle started at this token yields next.
    pub open spec fn successor(self) -> Option<Token> {
        match self {
            Token::Red => Some(Token::Yellow),
            Token::Yellow => Some(Token::Red),
            Token::Invalid => None,
        }
    }

    pub fn is_valid(&self) -> (r: bool)
        ensures
            r == self.spec_valid(),
    {
        match *self {
            Token::Invalid => false,
            _ => true,
        }
    }

    /// Starts the two-player cycle at this token.
    pub fn iter(&mut self) -> (r: TokenIter)
        ensures
            *final(self) == *old(self),
            r.upcoming() == Some(*old(self)),
    {
        TokenIter { next: Some(*self) }
    }
}

/// Walks the cycle Red, Yellow, Red, ... from a starting token.
pub struct TokenIter {
    next: Option<Token>,
}

impl TokenIter {
    /// The token the cycle stands on.
    pub closed spec fn upcoming(&self) -> Option<Token> {
        self.next
    }

    /// Moves one step along the cycle and returns the token reached; a cycle
    /// started on an empty cell ends at once.
    pub fn next(&mut self) -> (r: Option<Token>)
        ensures
            r == (match old(self).upcoming() {
                Some(t) => t.successor(),
                None => None,
            }),
            final(self).upcoming() == r,
    {
        if let Some(next) = self.next {
            self.next = match next {
                Token::Red => Some(Token::Yellow),
                Token::Yellow => Some(Token::Red),
                _ => None,
            };
        } else {
            self.next = None;
        }
        self.next
    }
}

impl From<&char> for Token {
    fn from(c: &char) -> (r: Token) {
        match *c {
            'R' => Token::Red,
            'Y' => Token::Yellow,
            _ => Token::Invalid,
        }
    }
}

impl vstd::std_specs::convert::FromSpecImpl<&char> for Token {
    open spec fn obeys_from_spec() -> bool {
        true
    }

    open spec fn from_spec(c: &char) -> Token {
        if *c == 'R' {
            Token::Red
        } else if *c == 'Y' {
            Token::Yellow
        } else {
            Token::Invalid
        }
    }
}

/// The first row of a column that holds no token, or its height when full.
pub open spec fn free_row(s: Seq<Token>) -> nat
    decreases s.len(),
{
    if s.len() == 0 {
        0
    } else if !s[0].spec_valid() {
        0
    } else {
        1 + free_row(s.drop_first())
    }
}

/// No empty cell lies below a token: gravity keeps a column packed.
pub open spec fn settled(s: Seq<Token>) -> bool {
    forall|i: int, j: int|
        0 <= i <= j < s.len() && (#[trigger] s[j]).spec_valid() ==> (#[trigger] s[i]).spec_valid()
}

/// The topmost row of a packed column that holds a token.
pub open spec fn top_row(s: Seq<Token>) -> Option<nat> {
    if free_row(s) == 0 {
        None
    } else {
        Some((free_row(s) - 1) as nat)
    }
}

/// The number of tokens in a column.
pub open spec fn count_valid(s: Seq<Token>) -> nat
    decreases s.len(),
{
    if s.len() == 0 {
        0
    } else {
        (if s[0].spec_valid() { 1nat } else { 0nat }) + count_valid(s.drop_first())
    }
}

/// The number of tokens on a grid.
pub open spec fn total_valid(g: Seq<Seq<Token>>) -> nat
    decreases g.len(),
{
    if g.len() == 0 {
        0
    } else {
        count_valid(g[0]) + total_valid(g.drop_first())
    }
}

/// A grid of the given size with every cell empty.
pub open spec fn empty_grid(cols: nat, rows: nat) -> Seq<Seq<Token>> {
    Seq::new(cols, |c: int| Seq::new(rows, |r: int| Token::Invalid))
}

/// The grid after token `t` falls into column `c`.
pub open spec fn dropped(g: Seq<Seq<Token>>, c: int, t: Token) -> Seq<Seq<Token>> {
    g.update(c, g[c].update(free_row(g[c]) as int, t))
}

pub proof fn lemma_free_row(s: Seq<Token>)
    ensures
        free_row(s) <= s.len(),
        forall|i: int| 0 <= i < free_row(s) ==> (#[trigger] s[i]).spec_valid(),
        free_row(s) < s.len() ==> !s[free_row(s) as int].spec_valid(),
    decreases s.len(),
{
    if s.len() > 0 && s[0].spec_valid() {
        let t = s.drop_first();
        lemma_free_row(t);
        assert forall|i: int| 0 <= i < free_row(s) implies (#[trigger] s[i]).spec_valid() by {
            if i > 0 {
                assert(s[i] == t[i - 1]);
            }
        }
    }
}

/// In a packed column every cell from the free row up is empty.
pub proof fn lemma_settled_above(s: Seq<Token>)
    requires
        settled(s),
    ensures
        forall|i: int| free_row(s) <= i < s.len() ==> !(#[trigger] s[i]).spec_valid(),
{
    lemma_free_row(s);
    assert forall|i: int| free_row(s) <= i < s.len() implies !(#[trigger] s[i]).spec_valid() by {
        if s[i].spec_valid() {
            let f = free_row(s) as int;
            assert(s[f].spec_valid());
        }
    }
}

/// The free row is the first empty cell above a run of tokens.
pub proof fn lemma_free_row_at(s: Seq<Token>, row: int)
    requires
        0 <= row <= s.len(),
        forall|i: int| 0 <= i < row ==> (#[trigger] s[i]).spec_valid(),
        row < s.len() ==> !s[row].spec_valid(),
    ensures
        free_row(s) == row,
{
    lemma_free_row(s);
    if free_row(s) < row {
        assert(s[free_row(s) as int].spec_valid());
    }
    if free_row(s) > row {
        assert(s[row].spec_valid());
    }
}

pub proof fn lemma_count_update(s: Seq<Token>, i: int, x: Token)
    requires
        0 <= i < s.len(),
    ensures
        count_valid(s.update(i, x)) + (if s[i].spec_valid() { 1nat } else { 0nat })
            == count_valid(s) + (if x.spec_valid() { 1nat } else { 0nat }),
    decreases s.len(),
{
    let u = s.update(i, x);
    if i > 0 {
        assert(u.drop_first() =~= s.drop_first().update(i - 1, x));
        lemma_count_update(s.drop_first(), i - 1, x);
    } else {
        assert(u.drop_first() =~= s.drop_first());
    }
}

pub proof fn lemma_total_update(g: Seq<Seq<Token>>, c: int, col: Seq<Token>)
    requires
        0 <= c < g.len(),
    ensures
        total_valid(g.update(c, col)) + count_valid(g[c]) == total_valid(g) + count_valid(col),
    decreases g.len(),
{
    let u = g.update(c, col);
    if c > 0 {
        assert(u.drop_first() =~= g.drop_first().update(c - 1, col));
        lemma_total_update(g.drop_first(), c - 1, col);
    } else {
        assert(u.drop_first() =~= g.drop_first());
    }
}

/// A packed column stays packed when a token falls into it.
pub proof fn lemma_drop_settled(s: Seq<Token>, t: Token)
    requires
        settled(s),
        free_row(s) < s.len(),
        t.spec_valid(),
    ensures
        settled(s.update(free_row(s) as int, t)),
{
    lemma_free_row(s);
    lemma_settled_above(s);
}

/// The four lines a win can lie on.
#[derive(Clone, Copy, PartialEq, Eq, Debug, Structural)]
pub enum Direction {
    /// Along a row.
    Horizontal,
    /// Along a column.
    Vertical,
    /// Rightwards and down, as `\`.
    Falling,
    /// Rightwards and up, as `/`.
    Rising,
}

/// The column `k` steps from column `c` along direction `d`.
pub open spec fn step_c(d: Direction, c: int, k: int) -> int {
    match d {
        Direction::Vertical => c,
        _ => c + k,
    }
}

/// The row `k` steps from row `r` along direction `d`.
pub open spec fn step_r(d: Direction, r: int, k: int) -> int {
    match d {
        Direction::Horizontal => r,
        Direction::Vertical => r + k,
        Direction::Falling => r - k,
        Direction::Rising => r + k,
    }
}

pub open spec fn in_grid(g: Seq<Seq<Token>>, c: int, r: int) -> bool {
    0 <= c < g.len() && 0 <= r < g[c].len()
}

/// Four cells from `(c, r)` along `d` lie on the grid and all hold `t`.
pub open spec fn four_in_line(g: Seq<Seq<Token>>, c: int, r: int, d: Direction, t: Token) -> bool {
    forall|k: int|
        0 <= k < 4 ==> in_grid(g, #[trigger] step_c(d, c, k), step_r(d, r, k)) && g[step_c(
            d,
            c,
            k,
        )][step_r(d, r, k)] == t
}

/// The line through `(c, r)` along `d` holds four `t` in a row somewhere.
pub open spec fn line_wins(g: Seq<Seq<Token>>, c: int, r: int, d: Direction, t: Token) -> bool {
    exists|j: int| #[trigger] four_in_line(g, step_c(d, c, j), step_r(d, r, j), d, t)
}

/// One of the four lines through `(c, r)` holds four of that cell's token in a row.
pub open spec fn wins_at(g: Seq<Seq<Token>>, c: int, r: int) -> bool {
    let t = g[c][r];
    line_wins(g, c, r, Direction::Horizontal, t) || line_wins(g, c, r, Direction::Vertical, t)
        || line_wins(g, c, r, Direction::Falling, t) || line_wins(g, c, r, Direction::Rising, t)
}

/// `cells` are four cells in a row, on a line through the cell that the last
/// of the moves `m` filled, that all hold that cell's token.
pub open spec fn winning_run(g: Seq<Seq<Token>>, m: Seq<usize>, cells: Seq<(usize, usize)>) -> bool {
    let col = m.last() as int;
    let row = top_row(g[col])->0 as int;
    exists|d: Direction, j: int|
        {
            &&& four_in_line(g, #[trigger] step_c(d, col, j), step_r(d, row, j), d, g[col][row])
            &&& run_cells(cells, step_c(d, col, j), step_r(d, row, j), d)
        }
}

/// `cells` are the four cells from `(c0, r0)` along `d`.
pub open spec fn run_cells(cells: Seq<(usize, usize)>, c0: int, r0: int, d: Direction) -> bool {
    &&& cells.len() == 4
    &&& forall|k: int|
        0 <= k < 4 ==> (#[trigger] cells[k]).0 == step_c(d, c0, k) && cells[k].1 == step_r(d, r0, k)
}

/// Four `t` stand in a row in `v` from some index on.
pub open spec fn has_run_of_four(v: Seq<Token>, t: Token) -> bool {
    exists|i: int| 0 <= i && i + 4 <= v.len() && #[trigger] run_at(v, i, t)
}

pub open spec fn run_at(v: Seq<Token>, i: int, t: Token) -> bool {
    forall|k: int| i <= k < i + 4 ==> #[trigger] v[k] == t
}

pub open spec fn min(a: int, b: int) -> int {
    if a <= b {
        a
    } else {
        b
    }
}

/// How many steps the line through `(c, r)` along `d` reaches back from it
/// on a grid of `cols` by `rows`.
pub open spec fn reach_back(d: Direction, c: int, r: int, cols: int, rows: int) -> int {
    match d {
        Direction::Horizontal => c,
        Direction::Vertical => r,
        Direction::Falling => min(c, rows - 1 - r),
        Direction::Rising => min(c, r),
    }
}

/// How many steps the same line reaches forward.
pub open spec fn reach_forward(d: Direction, c: int, r: int, cols: int, rows: int) -> int {
    match d {
        Direction::Horizontal => cols - 1 - c,
        Direction::Vertical => rows - 1 - r,
        Direction::Falling => min(cols - 1 - c, r),
        Direction::Rising => min(cols - 1 - c, rows - 1 - r),
    }
}

/// A cell `j` steps along the line lies on the grid exactly when `j` is
/// within the line's reach.
pub proof fn lemma_line_reach(d: Direction, c: int, r: int, cols: int, rows: int, j: int)
    requires
        0 <= c < cols,
        0 <= r < rows,
    ensures
        (0 <= step_c(d, c, j) < cols && 0 <= step_r(d, r, j) < rows) <==> (-reach_back(
            d,
            c,
            r,
            cols,
            rows,
        ) <= j <= reach_forward(d, c, r, cols, rows)),
{
}

/// The index where four `t` first stand in a row in `v`, if they do.
fn find_four(v: &Vec<Token>, t: Token) -> (r: Option<usize>)
    ensures
        r is Some <==> has_run_of_four(v@, t),
        r matches Some(i) ==> i + 4 <= v@.len() && run_at(v@, i as int, t),
{
    let mut counter: usize = 0;
    let mut i: usize = 0;
    while i < v.len()
        invariant
            i <= v@.len(),
            counter <= i,
            counter < 4,
            forall|k: int| i - counter <= k < i ==> #[trigger] v@[k] == t,
            counter < i ==> v@[i - counter - 1] != t,
            forall|s: int| 0 <= s && s + 4 <= i ==> !#[trigger] run_at(v@, s, t),
        decreases v@.len() - i,
    {
        if v[i] == t {
            counter = counter + 1;
            if counter == 4 {
                assert(run_at(v@, i - 3, t));
                return Some(i - 3);
            }
        } else {
            counter = 0;
        }
        i = i + 1;
        assert forall|s: int| 0 <= s && s + 4 <= i implies !#[trigger] run_at(v@, s, t) by {
            if s + 4 == i && run_at(v@, s, t) {
                assert(v@[i - 1] == t);
                assert(v@[i - 2] == t);
                assert(v@[i - 3] == t);
                assert(v@[i - 4] == t);
            }
        }
    }
    None
}

/// How far the line through `(c, r)` along `d` reaches back and forward on a
/// grid of `cols` by `rows`.
fn reach(c: usize, r: usize, d: Direction, cols: usize, rows: usize) -> (p: (usize, usize))
    requires
        c < cols,
        r < rows,
    ensures
        p.0 == reach_back(d, c as int, r as int, cols as int, rows as int),
        p.1 == reach_forward(d, c as int, r as int, cols as int, rows as int),
{
    let up = rows - 1 - r;
    let right = cols - 1 - c;
    match d {
        Direction::Horizontal => (c, right),
        Direction::Vertical => (r, up),
        Direction::Falling => (if c <= up { c } else { up }, if right <= r { right } else { r }),
        Direction::Rising => (if c <= r { c } else { r }, if right <= up { right } else { up }),
    }
}

/// The cell at place `i` of the line through `(c, r)` along `d`, counted from
/// the line's first cell `back` steps behind `(c, r)`.
fn line_cell(c: usize, r: usize, d: Direction, cols: usize, rows: usize, back: usize, i: usize) -> (p: (usize, usize))
    requires
        c < cols,
        r < rows,
        back == reach_back(d, c as int, r as int, cols as int, rows as int),
        i <= back + reach_forward(d, c as int, r as int, cols as int, rows as int),
    ensures
        p.0 == step_c(d, c as int, i - back),
        p.1 == step_r(d, r as int, i - back),
        p.0 < cols,
        p.1 < rows,
{
    proof {
        lemma_line_reach(d, c as int, r as int, cols as int, rows as int, i - back);
    }
    match d {
        Direction::Horizontal => (c - back + i, r),
        Direction::Vertical => (c, r - back + i),
        Direction::Falling => (c - back + i, r + back - i),
        Direction::Rising => (c - back + i, r - back + i),
    }
}

/// A column holds at least as many tokens as any run of cells in it that all
/// hold one.
proof fn lemma_count_at_least(s: Seq<Token>, i: int, n: int)
    requires
        0 <= i,
        0 <= n,
        i + n <= s.len(),
        forall|k: int| i <= k < i + n ==> (#[trigger] s[k]).spec_valid(),
    ensures
        count_valid(s) >= n,
    decreases s.len(),
{
    if s.len() > 0 {
        let t = s.drop_first();
        if i > 0 {
            assert forall|k: int| i - 1 <= k < i - 1 + n implies (#[trigger] t[k]).spec_valid() by {
                assert(t[k] == s[k + 1]);
            }
            lemma_count_at_least(t, i - 1, n);
        } else if n > 0 {
            assert(s[0].spec_valid());
            assert forall|k: int| 0 <= k < n - 1 implies (#[trigger] t[k]).spec_valid() by {
                assert(t[k] == s[k + 1]);
            }
            lemma_count_at_least(t, 0, n - 1);
        }
    }
}

/// A grid holds at least as many tokens as any of its columns, and at least
/// one for each column of a run of columns that are not empty.
proof fn lemma_total_at_least(g: Seq<Seq<Token>>, c: int, n: int)
    requires
        0 <= c,
        0 <= n,
        c + n <= g.len(),
        forall|k: int| c <= k < c + n ==> count_valid(#[trigger] g[k]) >= 1,
    ensures
        total_valid(g) >= n,
        c < g.len() ==> total_valid(g) >= count_valid(g[c]),
    decreases g.len(),
{
    if g.len() > 0 {
        let t = g.drop_first();
        if c > 0 {
            assert forall|k: int| c - 1 <= k < c - 1 + n implies count_valid(#[trigger] t[k]) >= 1 by {
                assert(t[k] == g[k + 1]);
            }
            lemma_total_at_least(t, c - 1, n);
            if c < g.len() {
                assert(t[c - 1] == g[c]);
            }
        } else {
            if n > 0 {
                assert forall|k: int| 0 <= k < n - 1 implies count_valid(#[trigger] t[k]) >= 1 by {
                    assert(t[k] == g[k + 1]);
                }
                lemma_total_at_least(t, 0, n - 1);
            }
        }
    }
}

/// The token of the move with index `i` when turns alternate from Red.
pub open spec fn mover(i: int) -> Token {
    if i % 2 == 0 {
        Token::Red
    } else {
        Token::Yellow
    }
}

/// The grid of a Classic game whose moves are `m`, players alternating from
/// Red, or `None` when a move names no column or a full one.
pub open spec fn replay(m: Seq<usize>) -> Option<Seq<Seq<Token>>>
    decreases m.len(),
{
    if m.len() == 0 {
        Some(empty_grid(RulesVariation::Classic.spec_cols(), RulesVariation::Classic.spec_rows()))
    } else {
        match replay(m.drop_last()) {
            Some(g) => {
                let c = m.last() as int;
                if c < RulesVariation::Classic.spec_cols() && free_row(g[c])
                    < RulesVariation::Classic.spec_rows() {
                    Some(dropped(g, c, mover(m.len() - 1)))
                } else {
                    None
                }
            },
            None => None,
        }
    }
}

pub open spec fn is_digit(c: char) -> bool {
    '0' <= c && c <= '9'
}

pub open spec fn digit_value(c: char) -> usize {
    (c as u32 - 48) as usize
}

pub open spec fn digit_char(d: usize) -> char {
    ((d + 48) as u8) as char
}

/// The moves a saved game lists, one decimal digit per move.
pub open spec fn moves_of(s: Seq<char>) -> Seq<usize> {
    s.map_values(|c: char| digit_value(c))
}

/// The text a game is saved as: the column of each move as a digit.
pub open spec fn encode(m: Seq<usize>) -> Seq<char> {
    m.map_values(|d: usize| digit_char(d))
}

/// What loading the text `s` gives: text shorter than three characters or
/// holding a character other than a decimal digit is badly formed; moves that
/// cannot be replayed make an invalid board.
pub open spec fn load(s: Seq<char>) -> Result<Seq<Seq<Token>>, BoardError> {
    if s.len() < 3 || exists|i: int| 0 <= i < s.len() && !is_digit(#[trigger] s[i]) {
        Err(BoardError::BadFormat)
    } else {
        match replay(moves_of(s)) {
            Some(g) => Ok(g),
            None => Err(BoardError::InvalidBoard),
        }
    }
}

/// Once a replay has failed, no further moves make it succeed.
proof fn lemma_replay_stuck(m: Seq<usize>, k: int)
    requires
        0 <= k <= m.len(),
        replay(m.take(k)) is None,
    ensures
        replay(m) is None,
    decreases m.len() - k,
{
    if k < m.len() {
        assert(m.take(k + 1).drop_last() =~= m.take(k));
        lemma_replay_stuck(m, k + 1);
    } else {
        assert(m.take(k) =~= m);
    }
}

/// Relies on String::push: appends one character at the end.
#[verifier::external_body]
fn push_char(s: &mut String, c: char)
    ensures
        final(s)@ == old(s)@.push(c),
{
    s.push(c);
}

/// The last of the moves `m` completed four in a row on grid `g` through the
/// cell it filled.
pub open spec fn won_on(g: Seq<Seq<Token>>, m: Seq<usize>) -> bool {
    &&& m.len() > 0
    &&& match top_row(g[m.last() as int]) {
        Some(row) => wins_at(g, m.last() as int, row as int),
        None => false,
    }
}

/// Errors of loading a saved game.
#[derive(Clone, Copy, PartialEq, Eq, Debug, Structural)]
pub enum BoardError {
    BadFormat,
    InvalidBoard,
}

/// Errors of a move.
#[derive(Clone, Copy, PartialEq, Eq, Debug, Structural)]
pub enum GamePlayError {
    InvalidColumn,
    ColumnFull,
}

/// A board under gravity: `board[c][r]` is the cell of column `c` and row `r`,
/// row 0 at the bottom; `history` lists the column of every move so far.
pub struct Board {
    rules: RulesVariation,
    board: Vec<Vec<Token>>,
    history: Vec<usize>,
    pub cols: usize,
    pub rows: usize,
    pub current_token: Token,
}

impl Board {
    /// The cells, column by column.
    pub closed spec fn grid(&self) -> Seq<Seq<Token>> {
        self.board@.map_values(|v: Vec<Token>| v@)
    }

    /// The columns played so far, oldest first.
    pub closed spec fn moves(&self) -> Seq<usize> {
        self.history@
    }

    pub closed spec fn rules(&self) -> RulesVariation {
        self.rules
    }

    /// The number of columns.
    pub closed spec fn width(&self) -> nat {
        self.cols as nat
    }

    /// The number of rows.
    pub closed spec fn height(&self) -> nat {
        self.rows as nat
    }

    /// The token the next move places.
    pub closed spec fn turn(&self) -> Token {
        self.current_token
    }

    /// A well-formed board: its size is the one its rules give, every column
    /// is packed from the bottom, every move names a column, no more tokens
    /// lie on the grid than moves were made, and the turn is a player's.
    pub closed spec fn wf(&self) -> bool {
        &&& self.cols == self.rules().spec_cols()
        &&& self.rows == self.rules().spec_rows()
        &&& self.grid().len() == self.cols
        &&& forall|c: int|
            0 <= c < self.cols ==> (#[trigger] self.grid()[c]).len() == self.rows && settled(
                self.grid()[c],
            )
        &&& forall|i: int| 0 <= i < self.moves().len() ==> (#[trigger] self.moves()[i]) < self.cols
        &&& total_valid(self.grid()) <= self.moves().len()
        &&& self.current_token.spec_valid()
    }

    /// What a well-formed board guarantees of its shape.
    pub proof fn lemma_shape(&self)
        requires
            self.wf(),
        ensures
            self.width() == self.rules().spec_cols(),
            self.height() == self.rules().spec_rows(),
            self.grid().len() == self.width(),
            forall|c: int|
                0 <= c < self.width() ==> (#[trigger] self.grid()[c]).len() == self.height()
                    && settled(self.grid()[c]),
            forall|i: int| 0 <= i < self.moves().len() ==> (#[trigger] self.moves()[i]) < self.width(),
            self.turn().spec_valid(),
    {
    }

    pub fn cols(&self) -> (r: usize)
        ensures
            r == self.width(),
    {
        self.cols
    }

    pub fn rows(&self) -> (r: usize)
        ensures
            r == self.height(),
    {
        self.rows
    }

    pub fn current_token(&self) -> (r: Token)
        ensures
            r == self.turn(),
    {
        self.current_token
    }

    /// The token in column `col` and row `row`, or `None` off the board.
    pub fn token_at(&self, col: usize, row: usize) -> (r: Option<Token>)
        requires
            self.wf(),
        ensures
            col < self.width() && row < self.height() ==> r == Some(
                self.grid()[col as int][row as int],
            ),
            !(col < self.width() && row < self.height()) ==> r is None,
    {
        if col < self.cols && row < self.rows {
            assert(self.grid()[col as int] == self.board@[col as int]@);
            Some(self.board[col][row])
        } else {
            None
        }
    }

    /// An empty board of the size the rules give, Red to move.
    pub fn new(rules: RulesVariation) -> (r: Board)
        ensures
            r.wf(),
            r.rules() == rules,
            r.width() == rules.spec_cols(),
            r.height() == rules.spec_rows(),
            r.grid() == empty_grid(r.width(), r.height()),
            r.moves() == Seq::<usize>::empty(),
            r.turn() == Token::Red,
    {
        let cols: usize;
        let rows: usize;
        match rules {
            RulesVariation::Classic => {
                cols = 7;
                rows = 6;
            },
        }
        let mut board: Vec<Vec<Token>> = Vec::new();
        let mut c: usize = 0;
        while c < cols
            invariant
                c <= cols,
                board@.len() == c,
                forall|i: int| 0 <= i < c ==> (#[trigger] board@[i])@ == Seq::new(rows as nat, |r: int| Token::Invalid),
            decreases cols - c,
        {
            let mut column: Vec<Token> = Vec::new();
            let mut r: usize = 0;
            while r < rows
                invariant
                    r <= rows,
                    column@ == Seq::new(r as nat, |k: int| Token::Invalid),
                decreases rows - r,
            {
                column.push(Token::Invalid);
                r = r + 1;
                assert(column@ =~= Seq::new(r as nat, |k: int| Token::Invalid));
            }
            board.push(column);
            c = c + 1;
        }
        let b = Board {
            rules: rules,
            board: board,
            history: Vec::new(),
            cols: cols,
            rows: rows,
            current_token: Token::Red,
        };
        assert(b.grid() =~~= empty_grid(cols as nat, rows as nat));
        proof {
            lemma_empty_total(b.grid());
        }
        b
    }

    /// The row of the topmost token in column `col`, or `None` when the column
    /// is empty or does not exist.
    pub fn find_row_for_col(&self, col: usize) -> (r: Option<usize>)
        requires
            self.wf(),
        ensures
            col >= self.width() ==> r is None,
            col < self.width() ==> r == (match top_row(self.grid()[col as int]) {
                Some(k) => Some(k as usize),
                None => None,
            }),
    {
        if col >= self.cols {
            return None;
        }
        let ghost s = self.grid()[col as int];
        proof {
            lemma_free_row(s);
            lemma_settled_above(s);
        }
        let mut row: usize = self.rows;
        while row > 0
            invariant
                row <= self.rows,
                self.wf(),
                col < self.cols,
                s == self.grid()[col as int],
                forall|i: int| row <= i < self.rows ==> !(#[trigger] s[i]).spec_valid(),
            decreases row,
        {
            row = row - 1;
            if self.board[col][row].is_valid() {
                assert(free_row(s) == row + 1) by {
                    lemma_free_row_at(s, row + 1);
                };
                return Some(row);
            }
        }
        assert(free_row(s) == 0) by {
            lemma_free_row_at(s, 0);
        };
        None
    }

    /// Drops the current token into column `col`: it lands on the lowest
    /// empty cell, and the column is added to the history. The turn does not
    /// change. A failed move leaves the board as it was.
    pub fn drop(&mut self, col: usize) -> (r: Result<(), GamePlayError>)
        requires
            old(self).wf(),
        ensures
            final(self).wf(),
            col >= old(self).width() ==> r == Err::<(), GamePlayError>(GamePlayError::InvalidColumn)
                && *final(self) == *old(self),
            col < old(self).width() && free_row(old(self).grid()[col as int]) >= old(self).height()
                ==> r == Err::<(), GamePlayError>(GamePlayError::ColumnFull) && *final(self) == *old(self),
            col < old(self).width() && free_row(old(self).grid()[col as int]) < old(self).height()
                ==> {
                &&& r is Ok
                &&& final(self).grid() == dropped(old(self).grid(), col as int, old(self).turn())
                &&& final(self).moves() == old(self).moves().push(col)
                &&& final(self).turn() == old(self).turn()
                &&& final(self).rules() == old(self).rules()
                &&& final(self).width() == old(self).width()
                &&& final(self).height() == old(self).height()
            },
    {
        if col >= self.cols {
            return Err(GamePlayError::InvalidColumn);
        }
        let ghost g = self.grid();
        let ghost s = g[col as int];
        let mut row: usize = 0;
        while row < self.rows
            invariant
                row <= self.rows,
                self.wf(),
                *self == *old(self),
                col < self.cols,
                g == self.grid(),
                s == g[col as int],
                forall|i: int| 0 <= i < row ==> (#[trigger] s[i]).spec_valid(),
            decreases self.rows - row,
        {
            if !self.board[col][row].is_valid() {
                proof {
                    lemma_free_row_at(s, row as int);
                    lemma_drop_settled(s, self.current_token);
                    lemma_count_update(s, row as int, self.current_token);
                    lemma_total_update(g, col as int, s.update(row as int, self.current_token));
                }
                let t = self.current_token;
                let mut column = self.board[col].clone();
                column.set(row, t);
                self.board.set(col, column);
                self.history.push(col);
                assert(self.grid() =~= dropped(g, col as int, t));
                return Ok(());
            }
            row = row + 1;
        }
        proof {
            lemma_free_row_at(s, row as int);
        }
        Err(GamePlayError::ColumnFull)
    }

    /// Loads a saved game: each character is the column of one move, and the
    /// moves are replayed on a Classic board with the players alternating from
    /// Red. The loaded board has the next player to move.
    pub fn from_string(board: &str) -> (r: Result<Board, BoardError>)
        ensures
            match r {
                Ok(b) => {
                    &&& load(board@) == Ok::<Seq<Seq<Token>>, BoardError>(b.grid())
                    &&& b.wf()
                    &&& b.rules() == RulesVariation::Classic
                    &&& b.moves() == moves_of(board@)
                    &&& b.turn() == mover(b.moves().len() as int)
                },
                Err(e) => load(board@) == Err::<Seq<Seq<Token>>, BoardError>(e),
            },
    {
        let n = board.unicode_len();
        if n < 3 {
            return Err(BoardError::BadFormat);
        }
        let mut i: usize = 0;
        while i < n
            invariant
                i <= n,
                n == board@.len(),
                forall|k: int| 0 <= k < i ==> is_digit(#[trigger] board@[k]),
            decreases n - i,
        {
            let c = board.get_char(i);
            if !('0' <= c && c <= '9') {
                return Err(BoardError::BadFormat);
            }
            i = i + 1;
        }
        let ghost m = moves_of(board@);
        let mut b = Board::new(RulesVariation::Classic);
        assert(m.take(0) =~= Seq::<usize>::empty());
        i = 0;
        while i < n
            invariant
                i <= n,
                3 <= n,
                n == board@.len(),
                forall|k: int| 0 <= k < n ==> is_digit(#[trigger] board@[k]),
                m == moves_of(board@),
                b.wf(),
                b.rules() == RulesVariation::Classic,
                b.width() == 7,
                b.height() == 6,
                b.moves() == m.take(i as int),
                replay(m.take(i as int)) == Some(b.grid()),
                b.turn() == mover(i as int),
            decreases n - i,
        {
            let c = board.get_char(i);
            let col = (c as u32 - 48) as usize;
            assert(col == m[i as int]);
            assert(m.take(i + 1).drop_last() =~= m.take(i as int));
            assert(m.take(i + 1).last() == col);
            if col >= b.cols {
                proof {
                    lemma_replay_stuck(m, i + 1);
                }
                return Err(BoardError::InvalidBoard);
            }
            match b.drop(col) {
                Err(_) => {
                    proof {
                        assert(replay(m.take(i + 1)) is None);
                        lemma_replay_stuck(m, i + 1);
                    }
                    return Err(BoardError::InvalidBoard);
                },
                Ok(()) => {},
            }
            b.switch_token();
            assert(b.moves() =~= m.take(i + 1));
            i = i + 1;
        }
        assert(m.take(n as int) =~= m);
        Ok(b)
    }

    /// The saved form of the game: the column of each move as a digit, oldest
    /// first.
    pub fn serialize(&self) -> (r: String)
        requires
            self.wf(),
        ensures
            r@ == encode(self.moves()),
    {
        let mut s = String::new();
        let mut i: usize = 0;
        while i < self.history.len()
            invariant
                self.wf(),
                i <= self.history@.len(),
                s@ == encode(self.moves().take(i as int)),
            decreases self.history@.len() - i,
        {
            let d = self.history[i];
            assert(d < 7);
            push_char(&mut s, (48u8 + d as u8) as char);
            assert(encode(self.moves().take(i + 1)) =~= encode(self.moves().take(i as int)).push(
                digit_char(d),
            ));
            i = i + 1;
        }
        assert(self.moves().take(i as int) =~= self.moves());
        s
    }

    /// The last move completed four in a row through the cell it filled.
    pub open spec fn won(&self) -> bool {
        won_on(self.grid(), self.moves())
    }

    /// The cells of the line through `(c, r)` along `d`, from one edge of the
    /// grid to the other.
    fn line_cells(&self, c: usize, r: usize, d: Direction) -> (v: Vec<Token>)
        requires
            self.wf(),
            c < self.cols,
            r < self.rows,
        ensures
            v@.len() == reach_back(d, c as int, r as int, self.cols as int, self.rows as int)
                + reach_forward(d, c as int, r as int, self.cols as int, self.rows as int) + 1,
            forall|i: int|
                0 <= i < v@.len() ==> {
                    let j = i - reach_back(d, c as int, r as int, self.cols as int, self.rows as int);
                    &&& in_grid(self.grid(), step_c(d, c as int, j), step_r(d, r as int, j))
                    &&& #[trigger] v@[i] == self.grid()[step_c(d, c as int, j)][step_r(
                        d,
                        r as int,
                        j,
                    )]
                },
    {
        let (back, forward) = reach(c, r, d, self.cols, self.rows);
        let n = back + forward + 1;
        let mut v: Vec<Token> = Vec::new();
        let mut i: usize = 0;
        while i < n
            invariant
                self.wf(),
                c < self.cols,
                r < self.rows,
                back == reach_back(d, c as int, r as int, self.cols as int, self.rows as int),
                forward == reach_forward(d, c as int, r as int, self.cols as int, self.rows as int),
                n == back + forward + 1,
                i <= n,
                v@.len() == i,
                forall|k: int|
                    0 <= k < i ==> {
                        let j = k - back;
                        &&& in_grid(self.grid(), step_c(d, c as int, j), step_r(d, r as int, j))
                        &&& #[trigger] v@[k] == self.grid()[step_c(d, c as int, j)][step_r(
                            d,
                            r as int,
                            j,
                        )]
                    },
            decreases n - i,
        {
            let (cc, rr) = line_cell(c, r, d, self.cols, self.rows, back, i);
            assert(self.grid()[cc as int] == self.board@[cc as int]@);
            v.push(self.board[cc][rr]);
            i = i + 1;
        }
        v
    }

    /// The first cell of four `t` in a row on the line through `(c, r)` along
    /// `d`, if there are such.
    #[verifier::rlimit(40)]
    fn line_run(&self, c: usize, r: usize, d: Direction, t: Token) -> (p: Option<(usize, usize)>)
        requires
            self.wf(),
            c < self.cols,
            r < self.rows,
        ensures
            p is Some <==> line_wins(self.grid(), c as int, r as int, d, t),
            p matches Some(q) ==> {
                &&& four_in_line(self.grid(), q.0 as int, q.1 as int, d, t)
                &&& exists|j: int| q.0 == step_c(d, c as int, j) && q.1 == step_r(d, r as int, j)
            },
    {
        let v = self.line_cells(c, r, d);
        let found = find_four(&v, t);
        let ghost g = self.grid();
        let ghost back = reach_back(d, c as int, r as int, self.cols as int, self.rows as int);
        proof {
            if line_wins(g, c as int, r as int, d, t) {
                let j = choose|j: int| #[trigger]
                    four_in_line(g, step_c(d, c as int, j), step_r(d, r as int, j), d, t);
                let c0 = step_c(d, c as int, j);
                let r0 = step_r(d, r as int, j);
                assert(in_grid(g, step_c(d, c0, 0), step_r(d, r0, 0)));
                assert(in_grid(g, step_c(d, c0, 3), step_r(d, r0, 3)));
                assert(g[step_c(d, c0, 0)].len() == self.rows);
                assert(g[step_c(d, c0, 3)].len() == self.rows);
                lemma_line_reach(d, c as int, r as int, self.cols as int, self.rows as int, j);
                lemma_line_reach(d, c as int, r as int, self.cols as int, self.rows as int, j + 3);
                let i = j + back;
                assert forall|k: int| i <= k < i + 4 implies #[trigger] v@[k] == t by {
                    assert(step_c(d, c0, k - i) == step_c(d, c as int, k - back));
                    assert(step_r(d, r0, k - i) == step_r(d, r as int, k - back));
                }
                assert(run_at(v@, i, t));
            }
        }
        match found {
            None => None,
            Some(i) => {
                let (back_x, _) = reach(c, r, d, self.cols, self.rows);
                let q = line_cell(c, r, d, self.cols, self.rows, back_x, i);
                proof {
                    let j = i - back;
                    assert forall|k: int| 0 <= k < 4 implies in_grid(
                        g,
                        #[trigger] step_c(d, step_c(d, c as int, j), k),
                        step_r(d, step_r(d, r as int, j), k),
                    ) && g[step_c(d, step_c(d, c as int, j), k)][step_r(
                        d,
                        step_r(d, r as int, j),
                        k,
                    )] == t by {
                        assert(v@[i + k] == t);
                    }
                    assert(four_in_line(g, step_c(d, c as int, j), step_r(d, r as int, j), d, t));
                }
                Some(q)
            },
        }
    }

    /// The four cells of the run that makes the last move a win, if it is one.
    pub fn winning_cells(&self) -> (r: Option<Vec<(usize, usize)>>)
        requires
            self.wf(),
        ensures
            r is Some <==> self.won(),
            r matches Some(v) ==> winning_run(self.grid(), self.moves(), v@),
    {
        if self.history.len() == 0 {
            return None;
        }
        let col = self.history[self.history.len() - 1];
        proof {
            lemma_free_row(self.grid()[col as int]);
        }
        let row = match self.find_row_for_col(col) {
            None => {
                return None;
            },
            Some(row) => row,
        };
        let t = self.board[col][row];
        assert(self.grid()[col as int] == self.board@[col as int]@);
        let mut found: Option<((usize, usize), Direction)> = None;
        let dirs = [Direction::Horizontal, Direction::Vertical, Direction::Falling, Direction::Rising];
        let ghost mut offset: int = 0;
        let mut i: usize = 0;
        while i < 4
            invariant
                self.wf(),
                col < self.cols,
                row < self.rows,
                t == self.grid()[col as int][row as int],
                dirs@ == seq![Direction::Horizontal, Direction::Vertical, Direction::Falling, Direction::Rising],
                i <= 4,
                found is None ==> forall|k: int| 0 <= k < i ==> !line_wins(self.grid(), col as int, row as int, #[trigger] dirs@[k], t),
                found matches Some(f) ==> four_in_line(self.grid(), f.0.0 as int, f.0.1 as int, f.1, t),
                found matches Some(f) ==> f.0.0 == step_c(f.1, col as int, offset) && f.0.1 == step_r(
                    f.1,
                    row as int,
                    offset,
                ),
            decreases 4 - i,
        {
            if found.is_none() {
                let d = dirs[i];
                match self.line_run(col, row, d, t) {
                    Some(q) => {
                        proof {
                            offset = choose|j: int| q.0 == step_c(d, col as int, j) && q.1 == step_r(d, row as int, j);
                        }
                        found = Some((q, d));
                    },
                    None => {},
                }
            }
            i = i + 1;
        }
        match found {
            None => {
                assert(!self.won()) by {
                    assert(dirs@[0] == Direction::Horizontal);
                    assert(dirs@[1] == Direction::Vertical);
                    assert(dirs@[2] == Direction::Falling);
                    assert(dirs@[3] == Direction::Rising);
                };
                None
            },
            Some(((c0, r0), d)) => {
                let mut cells: Vec<(usize, usize)> = Vec::new();
                let ghost g = self.grid();
                let mut k: usize = 0;
                while k < 4
                    invariant
                        self.wf(),
                        four_in_line(g, c0 as int, r0 as int, d, t),
                        g == self.grid(),
                        k <= 4,
                        cells@.len() == k,
                        forall|m: int| 0 <= m < k ==> (#[trigger] cells@[m]).0 == step_c(d, c0 as int, m) && cells@[m].1 == step_r(d, r0 as int, m),
                    decreases 4 - k,
                {
                    assert(in_grid(g, step_c(d, c0 as int, k as int), step_r(d, r0 as int, k as int)));
                    let cell = match d {
                        Direction::Horizontal => (c0 + k, r0),
                        Direction::Vertical => (c0, r0 + k),
                        Direction::Falling => (c0 + k, r0 - k),
                        Direction::Rising => (c0 + k, r0 + k),
                    };
                    cells.push(cell);
                    k = k + 1;
                }
                proof {
                    let j = offset;
                    assert(run_cells(cells@, step_c(d, col as int, j), step_r(d, row as int, j), d));
                    assert(line_wins(g, col as int, row as int, d, t)) by {
                        assert(four_in_line(g, step_c(d, col as int, j), step_r(d, row as int, j), d, t));
                    };
                }
                Some(cells)
            },
        }
    }

    /// Reports whether the last move completed four in a row: along the row,
    /// the column or either diagonal through the cell it filled.
    pub fn check_win(&self) -> (r: bool)
        requires
            self.wf(),
        ensures
            r == self.won(),
            self.moves().len() < 4 ==> !r,
    {
        proof {
            if self.moves().len() < 4 {
                lemma_no_win_before_four_moves(self);
            }
        }
        if self.history.len() == 0 {
            return false;
        }
        let col = self.history[self.history.len() - 1];
        proof {
            lemma_free_row(self.grid()[col as int]);
        }
        match self.find_row_for_col(col) {
            None => false,
            Some(row) => {
                let t = self.board[col][row];
                assert(self.grid()[col as int] == self.board@[col as int]@);
                self.line_run(col, row, Direction::Horizontal, t).is_some() || self.line_run(
                    col,
                    row,
                    Direction::Vertical,
                    t,
                ).is_some() || self.line_run(col, row, Direction::Falling, t).is_some()
                    || self.line_run(col, row, Direction::Rising, t).is_some()
            },
        }
    }

    /// Passes the turn to the other player.
    pub fn switch_token(&mut self)
        requires
            old(self).wf(),
        ensures
            final(self).wf(),
            final(self).turn() == old(self).turn().other(),
            final(self).grid() == old(self).grid(),
            final(self).moves() == old(self).moves(),
            final(self).rules() == old(self).rules(),
            final(self).width() == old(self).width(),
            final(self).height() == old(self).height(),
    {
        match self.current_token.iter().next() {
            Some(t) => {
                self.current_token = t;
            },
            None => {},
        }
    }
}

/// No game is won before four moves have been made.
pub proof fn lemma_no_win_before_four_moves(b: &Board)
    requires
        b.wf(),
        b.moves().len() < 4,
    ensures
        !b.won(),
{
    if b.won() {
        let g = b.grid();
        let c = b.moves().last() as int;
        let row = top_row(g[c])->0 as int;
        let t = g[c][row];
        lemma_free_row(g[c]);
        assert(t.spec_valid());
        let d = if line_wins(g, c, row, Direction::Horizontal, t) {
            Direction::Horizontal
        } else if line_wins(g, c, row, Direction::Vertical, t) {
            Direction::Vertical
        } else if line_wins(g, c, row, Direction::Falling, t) {
            Direction::Falling
        } else {
            Direction::Rising
        };
        let j = choose|j: int| #[trigger] four_in_line(g, step_c(d, c, j), step_r(d, row, j), d, t);
        let c0 = step_c(d, c, j);
        let r0 = step_r(d, row, j);
        assert(in_grid(g, step_c(d, c0, 0), step_r(d, r0, 0)));
        assert(in_grid(g, step_c(d, c0, 3), step_r(d, r0, 3)));
        if d == Direction::Vertical {
            assert forall|k: int| r0 <= k < r0 + 4 implies (#[trigger] g[c0][k]).spec_valid() by {
                assert(step_r(d, r0, k - r0) == k);
                assert(step_c(d, c0, k - r0) == c0);
            }
            lemma_count_at_least(g[c0], r0, 4);
            lemma_total_at_least(g, c0, 0);
        } else {
            assert forall|k: int| c0 <= k < c0 + 4 implies count_valid(#[trigger] g[k]) >= 1 by {
                let rk = step_r(d, r0, k - c0);
                assert(step_c(d, c0, k - c0) == k);
                assert(g[k][rk].spec_valid());
                lemma_count_at_least(g[k], rk, 1);
            }
            lemma_total_at_least(g, c0, 4);
        }
    }
}

/// Saving a game and loading it back gives the same grid and history, for
/// any game of at least three moves played from an empty Classic board with
/// the players alternating.
pub proof fn lemma_round_trip(b: &Board)
    requires
        b.wf(),
        b.moves().len() >= 3,
        replay(b.moves()) == Some(b.grid()),
    ensures
        load(encode(b.moves())) == Ok::<Seq<Seq<Token>>, BoardError>(b.grid()),
        moves_of(encode(b.moves())) == b.moves(),
{
    let m = b.moves();
    let s = encode(m);
    assert forall|i: int| 0 <= i < s.len() implies is_digit(#[trigger] s[i]) && digit_value(s[i])
        == m[i] by {
        assert(m[i] < 7);
    }
    assert(moves_of(s) =~= m);
}

/// Play that alternates the players from Red keeps a board equal to the replay
/// of its history: a move that succeeds on such a board, made by the player
/// whose turn it is, gives the replay of the longer history.
pub proof fn lemma_alternating_play_replays(b: &Board, col: usize)
    requires
        b.wf(),
        replay(b.moves()) == Some(b.grid()),
        b.turn() == mover(b.moves().len() as int),
        col < b.width(),
        free_row(b.grid()[col as int]) < b.height(),
    ensures
        replay(b.moves().push(col)) == Some(dropped(b.grid(), col as int, b.turn())),
{
    assert(b.moves().push(col).drop_last() =~= b.moves());
}

/// After a token falls into a column with room, the column's topmost token
/// stands in the row that was the lowest empty one.
pub proof fn lemma_drop_then_find_row(b: &Board, col: usize)
    requires
        b.wf(),
        col < b.width(),
        free_row(b.grid()[col as int]) < b.height(),
    ensures
        top_row(dropped(b.grid(), col as int, b.turn())[col as int]) == Some(
            free_row(b.grid()[col as int]),
        ),
{
    let s = b.grid()[col as int];
    let f = free_row(s) as int;
    let u = s.update(f, b.turn());
    lemma_free_row(s);
    lemma_settled_above(s);
    assert(dropped(b.grid(), col as int, b.turn())[col as int] == u);
    lemma_free_row_at(u, f + 1);
}

/// Switching the turn twice gives the turn back to the same player.
pub proof fn lemma_switch_twice(t: Token)
    requires
        t.spec_valid(),
    ensures
        t.other().other() == t,
{
}

proof fn lemma_empty_total(g: Seq<Seq<Token>>)
    requires
        forall|c: int| 0 <= c < g.len() ==> (#[trigger] g[c]) =~= Seq::new(g[c].len(), |r: int| Token::Invalid),
    ensures
        total_valid(g) == 0,
    decreases g.len(),
{
    if g.len() > 0 {
        lemma_empty_count(g[0]);
        let t = g.drop_first();
        assert forall|c: int| 0 <= c < t.len() implies (#[trigger] t[c]) =~= Seq::new(t[c].len(), |r: int| Token::Invalid) by {
            assert(t[c] == g[c + 1]);
        }
        lemma_empty_total(t);
    }
}

proof fn lemma_empty_count(s: Seq<Token>)
    requires
        forall|r: int| 0 <= r < s.len() ==> !(#[trigger] s[r]).spec_valid(),
    ensures
        count_valid(s) == 0,
    decreases s.len(),
{
    if s.len() > 0 {
        let t = s.drop_first();
        assert forall|r: int| 0 <= r < t.len() implies !(#[trigger] t[r]).spec_valid() by {
            assert(t[r] == s[r + 1]);
        }
        lemma_empty_count(t);
    }
}

} // verus!
