use vstd::prelude::*;

verus! {

/// The two sides of the game.
#[derive(Clone, Copy, Debug, PartialEq, Eq, Structural)]
pub enum Player {
    X,
    O,
}

/// The outcome of a sub-board or of the whole game.
#[derive(Clone, Copy, Debug, PartialEq, Eq, Structural)]
pub enum GameState {
    Won(Player),
    Draw,
    InProgress,
}

impl Default for Player {
    fn default() -> (r: Self)
        ensures
            r == Player::X,
    {
        Player::X
    }
}

impl Player {
    pub open spec fn other_spec(self) -> Player {
        match self {
            Player::X => Player::O,
            Player::O => Player::X,
        }
    }

    pub fn other(&self) -> (r: Self)
        ensures
            r == self.other_spec(),
    {
        match self {
            Player::O => Player::X,
            Player::X => Player::O,
        }
    }
}

/// The mask of all 81 cells.
pub const ALL_CELLS: u128 = 0x1ffffffffffffffffffff;

/// The mask of the nine cells of one sub-board (or of the nine sub-boards).
pub const NINE: u16 = 0x1ff;

/// The eight three-in-a-row patterns of a 3x3 grid: three rows, three columns, two diagonals.
pub open spec fn win_mask(k: int) -> u16 {
    if k == 0 {
        0x1c0u16
    } else if k == 1 {
        0x038u16
    } else if k == 2 {
        0x007u16
    } else if k == 3 {
        0x124u16
    } else if k == 4 {
        0x092u16
    } else if k == 5 {
        0x049u16
    } else if k == 6 {
        0x111u16
    } else {
        0x054u16
    }
}

/// A 9-bit pattern holds a three-in-a-row when it covers one of the eight masks.
pub open spec fn has_line(p: u16) -> bool {
    exists|k: int| 0 <= k < 8 && p & #[trigger] win_mask(k) == win_mask(k)
}

fn mask_at(k: usize) -> (r: u16)
    requires
        k < 8,
    ensures
        r == win_mask(k as int),
{
    match k {
        0 => 0x1c0,
        1 => 0x038,
        2 => 0x007,
        3 => 0x124,
        4 => 0x092,
        5 => 0x049,
        6 => 0x111,
        _ => 0x054,
    }
}

/// Tests a 9-bit pattern against all eight line masks.
pub fn contains_line(p: u16) -> (r: bool)
    ensures
        r == has_line(p),
{
    let mut found = false;
    let mut k: usize = 0;
    while k < 8
        invariant
            k <= 8,
            found == exists|j: int| 0 <= j < k && p & #[trigger] win_mask(j) == win_mask(j),
        decreases 8 - k,
    {
        let m = mask_at(k);
        if p & m == m {
            found = true;
        }
        k += 1;
    }
    found
}

/// The outcome read from the 9-bit patterns of X and O on one 3x3 grid
/// (a line of X first, then a line of O, then a full grid).
pub open spec fn grid_status(xb: u16, ob: u16) -> GameState {
    if has_line(xb) {
        GameState::Won(Player::X)
    } else if has_line(ob) {
        GameState::Won(Player::O)
    } else if xb | ob == NINE {
        GameState::Draw
    } else {
        GameState::InProgress
    }
}

/// The outcome of the whole game, read from the sub-board flags: a sub-board flagged
/// for both sides is drawn and counts for neither.
pub open spec fn global_status(gx: u16, go: u16) -> GameState {
    let drawn = gx & go;
    if has_line(gx & !drawn) {
        GameState::Won(Player::X)
    } else if has_line(go & !drawn) {
        GameState::Won(Player::O)
    } else if gx | go == NINE {
        GameState::Draw
    } else {
        GameState::InProgress
    }
}


/// Whether cell `i` (0..81, sub-board `i / 9`, cell `i % 9`) is set in an 81-bit occupancy.
pub open spec fn bit(v: u128, i: u128) -> bool {
    (v >> i) & 1u128 == 1u128
}

/// Whether sub-board `g` is flagged in a 9-bit set of sub-boards.
pub open spec fn flag(v: u16, g: u16) -> bool {
    (v >> g) & 1u16 == 1u16
}

/// The 9-bit pattern of sub-board `g` within an 81-bit occupancy.
pub open spec fn sub_pattern(v: u128, g: u16) -> u16 {
    ((v >> (9 * g) as u128) & 0x1ffu128) as u16
}

/// The flat cell index of an encoded move `(sub << 4) | cell`.
pub open spec fn cell_of(m: u8) -> u128 {
    (9 * (m >> 4) + (m & 15u8)) as u128
}

/// An encoded move whose sub-board and cell both lie in 0..9.
pub open spec fn move_in_range(m: u8) -> bool {
    m >> 4u8 < 9 && m & 15u8 < 9
}

/// Full game state: the cells of each side, the sub-boards decided for each side
/// (both flags on a drawn sub-board), the side to move and the previous move.
#[derive(Clone, Copy, Debug, PartialEq, Eq, Structural)]
pub struct Board {
    pub x: u128,
    pub o: u128,
    pub gx: u16,
    pub go: u16,
    pub next_player: Player,
    pub last_move: Option<u8>,
}

impl Board {
    pub open spec fn initial() -> Board {
        Board { x: 0, o: 0, gx: 0, go: 0, next_player: Player::X, last_move: None }
    }

    /// The outcome of sub-board `g`, read from its cells.
    pub open spec fn status_of(self, g: u16) -> GameState {
        grid_status(sub_pattern(self.x, g), sub_pattern(self.o, g))
    }

    /// Sub-board `g` is flagged as decided (won by either side, or drawn).
    pub open spec fn decided(self, g: u16) -> bool {
        flag(self.gx | self.go, g)
    }

    pub open spec fn occupied(self, i: u128) -> bool {
        bit(self.x | self.o, i)
    }

    /// The flags of each sub-board agree with what its cells show.
    pub open spec fn flags_agree(self, g: u16) -> bool {
        &&& flag(self.gx, g) == (self.status_of(g) == GameState::Won(Player::X)
            || self.status_of(g) == GameState::Draw)
        &&& flag(self.go, g) == (self.status_of(g) == GameState::Won(Player::O)
            || self.status_of(g) == GameState::Draw)
    }

    /// The invariant of every board reachable from the initial one.
    pub open spec fn wf(self) -> bool {
        &&& self.x & self.o == 0
        &&& self.x >> 81u128 == 0
        &&& self.o >> 81u128 == 0
        &&& self.gx >> 9u16 == 0
        &&& self.go >> 9u16 == 0
        &&& forall|g: u16| g < 9 ==> #[trigger] self.flags_agree(g)
        &&& match self.last_move {
            Some(m) => move_in_range(m),
            None => self.x == 0 && self.o == 0 && self.gx == 0 && self.go == 0,
        }
    }

    /// Cell `i` may be played: it is one of the 81 cells, it is empty, and the move rule
    /// allows it (anywhere on the first move; else in the sub-board named by the previous
    /// move's cell, or in any undecided sub-board when that one is decided).
    pub open spec fn legal_cell(self, i: u128) -> bool {
        &&& i < 81
        &&& match self.last_move {
            None => true,
            Some(m) => {
                let t = (m & 15u8) as u16;
                &&& !self.occupied(i)
                &&& if self.status_of(t) != GameState::InProgress {
                    !self.decided((i / 9) as u16)
                } else {
                    i / 9 == t as u128
                }
            },
        }
    }

    /// An encoded move that may be played.
    pub open spec fn legal(self, m: u8) -> bool {
        move_in_range(m) && self.legal_cell(cell_of(m))
    }

    /// A move that `unchecked_play` can apply: an empty cell of an undecided sub-board.
    pub open spec fn placeable(self, m: u8) -> bool {
        &&& move_in_range(m)
        &&& !self.occupied(cell_of(m))
        &&& !self.decided((m >> 4) as u16)
    }

    /// The board after the side to move takes the cell of `m`.
    pub open spec fn play_spec(self, m: u8) -> Board {
        let g = (m >> 4) as u16;
        let cell = 1u128 << cell_of(m);
        let x = if self.next_player == Player::X { self.x | cell } else { self.x };
        let o = if self.next_player == Player::O { self.o | cell } else { self.o };
        let st = grid_status(sub_pattern(x, g), sub_pattern(o, g));
        let gx = if st == GameState::Won(Player::X) || st == GameState::Draw {
            self.gx | (1u16 << g)
        } else {
            self.gx
        };
        let go = if st == GameState::Won(Player::O) || st == GameState::Draw {
            self.go | (1u16 << g)
        } else {
            self.go
        };
        Board { x, o, gx, go, next_player: self.next_player.other_spec(), last_move: Some(m) }
    }
}


impl Default for Board {
    fn default() -> (r: Self)
        ensures
            r == Board::initial(),
            r.wf(),
    {
        proof {
            lemma_initial_wf();
        }
        Board { x: 0, o: 0, gx: 0, go: 0, next_player: Player::X, last_move: None }
    }
}

impl Board {
    pub open spec fn move_from_gl_spec(global: u8, local: u8) -> u8 {
        (global << 4u8) | local
    }

    /// Packs a move as `(sub << 4) | cell`.
    pub fn move_from_gl(global: u8, local: u8) -> (r: u8)
        ensures
            r == Self::move_from_gl_spec(global, local),
            global < 16 && local < 16 ==> r >> 4u8 == global && r & 15u8 == local,
    {
        proof {
            assert(global < 16 && local < 16 ==> ((global << 4u8) | local) >> 4u8 == global
                && ((global << 4u8) | local) & 15u8 == local) by (bit_vector);
        }
        (global << 4) | local
    }

    /// Packs a flat cell index `9 * sub + cell` as a move.
    pub fn move_from_index(index: u8) -> (r: u8)
        ensures
            index < 81 ==> move_in_range(r) && cell_of(r) == index as u128 && r >> 4u8 == index
                / 9,
    {
        let global = index / 9;
        let local = index % 9;
        Self::move_from_gl(global, local)
    }

    /// The outcome of sub-board `global`, read from its cells.
    fn check_board_state(&self, global: u8) -> (r: GameState)
        requires
            global < 9,
        ensures
            r == self.status_of(global as u16),
    {
        let xbits = ((self.x >> (9 * global as u128)) & 0x1ff) as u16;
        let obits = ((self.o >> (9 * global as u128)) & 0x1ff) as u16;
        if contains_line(xbits) {
            GameState::Won(Player::X)
        } else if contains_line(obits) {
            GameState::Won(Player::O)
        } else if xbits | obits == NINE {
            GameState::Draw
        } else {
            GameState::InProgress
        }
    }

    /// The outcome of the game: a line of sub-boards won by one side (drawn ones count for
    /// neither), else a draw once every sub-board is decided.
    pub fn check_game_state(&self) -> (r: GameState)
        ensures
            r == global_status(self.gx, self.go),
    {
        let drawn_boards = self.gx & self.go;
        if contains_line(self.gx & !drawn_boards) {
            GameState::Won(Player::X)
        } else if contains_line(self.go & !drawn_boards) {
            GameState::Won(Player::O)
        } else if self.gx | self.go == NINE {
            GameState::Draw
        } else {
            GameState::InProgress
        }
    }

    pub fn game_over(&self) -> (r: bool)
        ensures
            r == (global_status(self.gx, self.go) != GameState::InProgress),
    {
        match self.check_game_state() {
            GameState::Won(_) | GameState::Draw => true,
            GameState::InProgress => false,
        }
    }

    /// Re-reads sub-board `global` from its cells and flags it for the side that won it,
    /// or for both sides when it is full without a line.
    fn update_board_state(&mut self, global: u8) -> (r: GameState)
        requires
            global < 9,
        ensures
            r == old(self).status_of(global as u16),
            final(self).x == old(self).x,
            final(self).o == old(self).o,
            final(self).next_player == old(self).next_player,
            final(self).last_move == old(self).last_move,
            final(self).gx == if r == GameState::Won(Player::X) || r == GameState::Draw {
                old(self).gx | (1u16 << global as u16)
            } else {
                old(self).gx
            },
            final(self).go == if r == GameState::Won(Player::O) || r == GameState::Draw {
                old(self).go | (1u16 << global as u16)
            } else {
                old(self).go
            },
    {
        let state = self.check_board_state(global);
        match state {
            GameState::Won(Player::X) => {
                self.gx = self.gx | (1u16 << global as u16);
            },
            GameState::Won(Player::O) => {
                self.go = self.go | (1u16 << global as u16);
            },
            GameState::Draw => {
                self.gx = self.gx | (1u16 << global as u16);
                self.go = self.go | (1u16 << global as u16);
            },
            GameState::InProgress => {},
        }
        state
    }
}


proof fn lemma_place_cell(x: u128, o: u128, i: u128)
    by (bit_vector)
    requires
        x & o == 0,
        !bit(x | o, i),
        i < 81,
        x >> 81u128 == 0,
        o >> 81u128 == 0,
    ensures
        (x | (1u128 << i)) & o == 0,
        x & (o | (1u128 << i)) == 0,
        (x | (1u128 << i)) >> 81u128 == 0,
        (o | (1u128 << i)) >> 81u128 == 0,
{
}

proof fn lemma_sub_pattern_other(x: u128, g: u16, c: u16, h: u16)
    by (bit_vector)
    requires
        g < 9,
        c < 9,
        h < 9,
        h != g,
    ensures
        sub_pattern(x | (1u128 << (9 * g + c) as u128), h) == sub_pattern(x, h),
{
}

proof fn lemma_flag_set(v: u16, g: u16, h: u16)
    by (bit_vector)
    requires
        g < 9,
        h < 9,
        v >> 9u16 == 0,
    ensures
        h != g ==> flag(v | (1u16 << g), h) == flag(v, h),
        flag(v | (1u16 << g), g),
        (v | (1u16 << g)) >> 9u16 == 0,
{
}

proof fn lemma_flag_or(a: u16, b: u16, g: u16)
    by (bit_vector)
    requires
        g < 9,
    ensures
        flag(a | b, g) == (flag(a, g) || flag(b, g)),
{
}

proof fn lemma_cell_shift(g: u8, c: u8)
    by (bit_vector)
    requires
        g < 9,
        c < 9,
    ensures
        (1u128 << (9 * g) as u128) << c as u128 == 1u128 << (9 * g + c) as u128,
{
}

impl Board {
    /// Plays `m` for the side to move and returns the new board. It does not check that
    /// the move obeys the targeting rule or the turn: callers choose it from `get_moves`.
    pub fn unchecked_play(&self, m: u8) -> (r: Self)
        requires
            self.wf(),
            self.placeable(m),
        ensures
            r == self.play_spec(m),
            r.wf(),
    {
        let mut board = *self;
        let local = m & 0b1111;
        let global = (m >> 4) & 0b1111;
        proof {
            assert(m >> 4u8 < 9 ==> (m >> 4u8) & 15u8 == m >> 4u8) by (bit_vector);
            lemma_cell_shift(global, local);
        }
        let cell = (1u128 << (9 * global as u128)) << (local as u128);
        match self.next_player {
            Player::X => board.x = self.x | cell,
            Player::O => board.o = self.o | cell,
        }
        board.update_board_state(global);
        board.last_move = Some(m);
        board.next_player = self.next_player.other();
        proof {
            let g = global as u16;
            let i = cell_of(m);
            lemma_place_cell(self.x, self.o, i);
            lemma_flag_or(self.gx, self.go, g);
            assert forall|h: u16| h < 9 implies #[trigger] board.flags_agree(h) by {
                lemma_flag_set(self.gx, g, h);
                lemma_flag_set(self.go, g, h);
                if h != g {
                    lemma_sub_pattern_other(self.x, g, local as u16, h);
                    lemma_sub_pattern_other(self.o, g, local as u16, h);
                    assert(self.flags_agree(h));
                }
            }
            lemma_flag_set(self.gx, g, 0);
            lemma_flag_set(self.go, g, 0);
        }
        board
    }
}


proof fn lemma_block(i: u128, g: u128)
    by (bit_vector)
    requires
        i < 128,
        g < 9,
    ensures
        bit(0x1ffu128 << (9 * g) as u128, i) == (9 * g <= i && i < 9 * g + 9),
        bit(ALL_CELLS, i) == (i < 81),
        !bit(0u128, i),
{
}

proof fn lemma_bit_ops(a: u128, b: u128, i: u128)
    by (bit_vector)
    requires
        i < 128,
    ensures
        bit(a | b, i) == (bit(a, i) || bit(b, i)),
        bit(a & b, i) == (bit(a, i) && bit(b, i)),
        bit(!a, i) == !bit(a, i),
{
}

proof fn lemma_within_board(a: u128, b: u128)
    by (bit_vector)
    ensures
        (a & ALL_CELLS) >> 81u128 == 0,
        (a & ALL_CELLS & b) >> 81u128 == 0,
        ALL_CELLS >> 81u128 == 0,
{
}

proof fn lemma_div9(i: u128, g: u128)
    requires
        g < 9,
    ensures
        (9 * g <= i && i < 9 * g + 9) == (i / 9 == g),
{
    assert((9 * g <= i && i < 9 * g + 9) == (i / 9 == g)) by (nonlinear_arith);
}

impl Board {
    /// The cells of every decided sub-board.
    pub fn global_board_mask(&self) -> (r: u128)
        ensures
            forall|i: u128| i < 81 ==> #[trigger] bit(r, i) == self.decided((i / 9) as u16),
            forall|i: u128| 81 <= i < 128 ==> !#[trigger] bit(r, i),
    {
        let decided = self.gx | self.go;
        let mut mask: u128 = 0;
        let mut g: u8 = 0;
        proof {
            assert forall|i: u128| i < 128 implies #[trigger] bit(mask, i) == (i < 9 * g
                && self.decided((i / 9) as u16)) by {
                lemma_block(i, 0);
            }
        }
        while g < 9
            invariant
                g <= 9,
                decided == self.gx | self.go,
                forall|i: u128|
                    i < 128 ==> #[trigger] bit(mask, i) == (i < 9 * g && self.decided(
                        (i / 9) as u16,
                    )),
            decreases 9 - g,
        {
            let old_mask = mask;
            if decided & (1u16 << g as u16) != 0 {
                mask = mask | (0x1ff << (9 * g as u128));
            }
            proof {
                let gu = g as u16;
                assert(decided & (1u16 << gu) != 0 <==> flag(decided, gu)) by (bit_vector)
                    requires
                        gu < 9,
                ;
                assert forall|i: u128| i < 128 implies #[trigger] bit(mask, i) == (i < 9 * (g
                    + 1) && self.decided((i / 9) as u16)) by {
                    lemma_bit_ops(old_mask, 0x1ffu128 << (9 * g) as u128, i);
                    lemma_block(i, g as u128);
                    lemma_div9(i, g as u128);
                    if i < 9 * g {
                        assert(i / 9 < g) by (nonlinear_arith)
                            requires
                                i < 9 * g,
                        ;
                    }
                }
            }
            g = g + 1;
        }
        mask
    }

    /// The legal cells, as an 81-bit set.
    pub fn get_moves(&self) -> (r: u128)
        requires
            self.wf(),
        ensures
            forall|i: u128| i < 128 ==> #[trigger] bit(r, i) == self.legal_cell(i),
            r >> 81u128 == 0,
    {
        let r = match self.last_move {
            None => ALL_CELLS,
            Some(m) => {
                let local = m & 0b1111;
                match self.check_board_state(local) {
                    GameState::Won(_) | GameState::Draw => {
                        let gm = self.global_board_mask();
                        let r = !(self.x | self.o | gm) & ALL_CELLS;
                        proof {
                            assert forall|i: u128| i < 128 implies #[trigger] bit(r, i)
                                == self.legal_cell(i) by {
                                let xo = self.x | self.o;
                                lemma_block(i, 0);
                                lemma_bit_ops(self.x, self.o, i);
                                lemma_bit_ops(xo, gm, i);
                                lemma_bit_ops(!(xo | gm), ALL_CELLS, i);
                                lemma_bit_ops(xo | gm, 0, i);
                            }
                            lemma_within_board(!(self.x | self.o | gm), 0);
                        }
                        r
                    },
                    GameState::InProgress => {
                        let r = !(self.x | self.o) & ALL_CELLS & (0x1ff << (9 * local as u128));
                        proof {
                            assert forall|i: u128| i < 128 implies #[trigger] bit(r, i)
                                == self.legal_cell(i) by {
                                let xo = self.x | self.o;
                                lemma_block(i, local as u128);
                                lemma_div9(i, local as u128);
                                lemma_bit_ops(self.x, self.o, i);
                                lemma_bit_ops(!xo, ALL_CELLS, i);
                                lemma_bit_ops(xo, 0, i);
                                lemma_bit_ops(!xo & ALL_CELLS, 0x1ffu128 << (9 * local) as u128, i);
                            }
                            lemma_within_board(!(self.x | self.o), 0x1ffu128 << (9 * local) as u128);
                        }
                        r
                    },
                }
            },
        };
        proof {
            if self.last_move is None {
                assert forall|i: u128| i < 128 implies #[trigger] bit(r, i) == self.legal_cell(i) by {
                    lemma_block(i, 0);
                }
            }
            lemma_within_board(0, 0);
        }
        r
    }
}


/// The number of set bits of `n` below position `k`.
pub open spec fn ones_below(n: u128, k: nat) -> nat
    decreases k,
{
    if k == 0 {
        0
    } else {
        ones_below(n, (k - 1) as nat) + if bit(n, (k - 1) as u128) {
            1nat
        } else {
            0nat
        }
    }
}

/// The number of occupied cells.
pub open spec fn filled(b: Board) -> nat {
    ones_below(b.x | b.o, 81)
}

pub proof fn lemma_ones_below_bound(n: u128, k: nat)
    ensures
        ones_below(n, k) <= k,
    decreases k,
{
    if k > 0 {
        lemma_ones_below_bound(n, (k - 1) as nat);
    }
}

proof fn lemma_single_bit(n: u128, i: u128, j: u128)
    by (bit_vector)
    requires
        i < 128,
        j < 128,
    ensures
        bit(n | (1u128 << i), j) == (bit(n, j) || j == i),
        (n & (1u128 << j) != 0) == bit(n, j),
{
}

pub proof fn lemma_ones_insert(n: u128, i: u128, k: nat)
    requires
        i < 128,
        k <= 128,
        !bit(n, i),
    ensures
        ones_below(n | (1u128 << i), k) == ones_below(n, k) + if (i as nat) < k {
            1nat
        } else {
            0nat
        },
    decreases k,
{
    if k > 0 {
        lemma_ones_insert(n, i, (k - 1) as nat);
        lemma_single_bit(n, i, (k - 1) as u128);
    }
}

/// A set bit below `k` makes the count below `k` positive.
pub proof fn lemma_ones_positive(n: u128, i: u128, k: nat)
    requires
        bit(n, i),
        (i as nat) < k,
    ensures
        ones_below(n, k) > 0,
    decreases k,
{
    if (i as nat) < (k - 1) as nat {
        lemma_ones_positive(n, i, (k - 1) as nat);
    }
}

/// Counts the set bits of `n` among the 81 cells.
pub fn count_cells(n: u128) -> (r: u32)
    ensures
        r == ones_below(n, 81),
{
    let mut count: u32 = 0;
    let mut i: u8 = 0;
    while i < 81
        invariant
            i <= 81,
            count == ones_below(n, i as nat),
            count <= i,
        decreases 81 - i,
    {
        proof {
            lemma_single_bit(n, 0, i as u128);
        }
        if n & (1u128 << i as u128) != 0 {
            count = count + 1;
        }
        i = i + 1;
    }
    count
}

/// The position of the set bit of `n` that has exactly `k` set bits below it, among the
/// 81 cells; `None` when `n` has no more than `k` set cells.
pub fn find_kth_high_bit_index(n: u128, k: u32) -> (r: Option<u8>)
    ensures
        match r {
            Some(i) => i < 81 && bit(n, i as u128) && ones_below(n, i as nat) == k,
            None => ones_below(n, 81) <= k,
        },
{
    let mut count: u32 = 0;
    let mut i: u8 = 0;
    while i < 81
        invariant
            i <= 81,
            count == ones_below(n, i as nat),
            count <= k,
        decreases 81 - i,
    {
        proof {
            lemma_single_bit(n, 0, i as u128);
        }
        if n & (1u128 << i as u128) != 0 {
            if count == k {
                return Some(i);
            }
            count = count + 1;
        }
        i = i + 1;
    }
    None
}

proof fn lemma_all_flags(a: u16)
    by (bit_vector)
    requires
        a >> 9u16 == 0,
        flag(a, 0),
        flag(a, 1),
        flag(a, 2),
        flag(a, 3),
        flag(a, 4),
        flag(a, 5),
        flag(a, 6),
        flag(a, 7),
        flag(a, 8),
    ensures
        a == NINE,
{
}

proof fn lemma_nine_bits(a: u16, b: u16)
    by (bit_vector)
    requires
        a >> 9u16 == 0,
        b >> 9u16 == 0,
    ensures
        (a | b) >> 9u16 == 0,
        sub_pattern(0, 0) == 0,
{
}

/// A 9-bit set other than the full one misses some position.
proof fn lemma_missing_flag(a: u16) -> (g: u16)
    requires
        a >> 9u16 == 0,
        a != NINE,
    ensures
        g < 9,
        !flag(a, g),
{
    if !flag(a, 0) {
        0
    } else if !flag(a, 1) {
        1
    } else if !flag(a, 2) {
        2
    } else if !flag(a, 3) {
        3
    } else if !flag(a, 4) {
        4
    } else if !flag(a, 5) {
        5
    } else if !flag(a, 6) {
        6
    } else if !flag(a, 7) {
        7
    } else {
        if flag(a, 8) {
            lemma_all_flags(a);
        }
        8
    }
}

proof fn lemma_pattern_cell(x: u128, o: u128, g: u16, c: u16)
    by (bit_vector)
    requires
        g < 9,
        c < 9,
    ensures
        bit(x | o, (9 * g + c) as u128) == flag(sub_pattern(x, g) | sub_pattern(o, g), c),
        (sub_pattern(x, g) | sub_pattern(o, g)) >> 9u16 == 0,
{
}

impl Board {
    /// A sub-board whose cells show no result has an empty cell.
    proof fn lemma_open_cell(self, g: u16) -> (i: u128)
        requires
            g < 9,
            self.status_of(g) == GameState::InProgress,
        ensures
            i < 81,
            i / 9 == g as u128,
            !self.occupied(i),
    {
        lemma_pattern_cell(self.x, self.o, g, 0);
        let c = lemma_missing_flag(sub_pattern(self.x, g) | sub_pattern(self.o, g));
        lemma_pattern_cell(self.x, self.o, g, c);
        lemma_div9((9 * g + c) as u128, g as u128);
        (9 * g + c) as u128
    }

    /// On a well-formed board every legal move can be applied by `unchecked_play`.
    pub proof fn lemma_legal_placeable(self, m: u8)
        requires
            self.wf(),
            self.legal(m),
        ensures
            self.placeable(m),
    {
        let g = (m >> 4u8) as u16;
        lemma_div9(cell_of(m), g as u128);
        lemma_flag_or(self.gx, self.go, g);
        match self.last_move {
            None => {
                assert(flag(0u16, g)==false) by (bit_vector);
                lemma_block(cell_of(m), 0);
                lemma_bit_ops(0, 0, cell_of(m));
            },
            Some(lm) => {
                assert(self.flags_agree(g));
            },
        }
    }

    /// On a well-formed board whose game is not over, some cell is legal.
    pub proof fn lemma_moves_exist(self) -> (i: u128)
        requires
            self.wf(),
            global_status(self.gx, self.go) == GameState::InProgress,
        ensures
            i < 81,
            self.legal_cell(i),
    {
        lemma_nine_bits(self.gx, self.go);
        let g = lemma_missing_flag(self.gx | self.go);
        lemma_flag_or(self.gx, self.go, g);
        assert(self.flags_agree(g));
        let i = self.lemma_open_cell(g);
        match self.last_move {
            None => i,
            Some(m) => {
                let t = (m & 15u8) as u16;
                if self.status_of(t) != GameState::InProgress {
                    i
                } else {
                    self.lemma_open_cell(t)
                }
            },
        }
    }
}


proof fn lemma_empty_patterns(g: u16)
    by (bit_vector)
    requires
        g < 9,
    ensures
        sub_pattern(0, g) == 0,
        !flag(0, g),
        0u16 | 0u16 != NINE,
        0u128 & 0u128 == 0,
        0u128 >> 81u128 == 0,
        0u16 >> 9u16 == 0,
{
}

/// The initial position satisfies the board invariant.
pub proof fn lemma_initial_wf()
    ensures
        Board::initial().wf(),
{
    let b = Board::initial();
    assert forall|k: int| 0 <= k < 8 implies 0u16 & #[trigger] win_mask(k) != win_mask(k) by {
        let m = win_mask(k);
        assert(m != 0);
        assert(0u16 & m == 0) by (bit_vector);
    }
    assert(!has_line(0));
    assert forall|g: u16| g < 9 implies #[trigger] b.flags_agree(g) by {
        lemma_empty_patterns(g);
    }
    lemma_empty_patterns(0);
}


impl Board {
    /// Playing a legal move on a well-formed board keeps the two sides' cells disjoint
    /// (and the whole invariant), so no reachable board has a cell owned by both.
    pub proof fn lemma_play_keeps_disjoint(self, m: u8)
        requires
            self.wf(),
            self.legal(m),
        ensures
            self.play_spec(m).wf(),
            self.play_spec(m).x & self.play_spec(m).o == 0,
    {
        self.lemma_legal_placeable(m);
        let g = (m >> 4u8) as u16;
        let c = (m & 15u8) as u16;
        let b = self.play_spec(m);
        let i = cell_of(m);
        lemma_place_cell(self.x, self.o, i);
        lemma_flag_or(self.gx, self.go, g);
        lemma_flag_set(self.gx, g, 0);
        lemma_flag_set(self.go, g, 0);
        assert forall|h: u16| h < 9 implies #[trigger] b.flags_agree(h) by {
            lemma_flag_set(self.gx, g, h);
            lemma_flag_set(self.go, g, h);
            if h != g {
                lemma_sub_pattern_other(self.x, g, c, h);
                lemma_sub_pattern_other(self.o, g, c, h);
                assert(self.flags_agree(h));
            }
        }
    }

    /// After a move into cell `t` of some sub-board, the legal cells are the empty cells of
    /// sub-board `t` while it is undecided, and otherwise the empty cells of every
    /// undecided sub-board.
    pub proof fn lemma_moves_after_play(self, m: u8, i: u128)
        requires
            self.wf(),
            self.legal(m),
        ensures
            ({
                let b = self.play_spec(m);
                let t = (m & 15u8) as u16;
                b.legal_cell(i) == if b.status_of(t) == GameState::InProgress {
                    i < 81 && i / 9 == t as u128 && !b.occupied(i)
                } else {
                    i < 81 && !b.decided((i / 9) as u16) && !b.occupied(i)
                }
            }),
    {
    }

    /// A full sub-board with no line for either side is flagged for both sides, and none of
    /// its cells is legal any more.
    pub proof fn lemma_drawn_sub_board(self, g: u16, i: u128)
        requires
            self.wf(),
            g < 9,
            self.status_of(g) == GameState::Draw,
            i < 81,
            i / 9 == g as u128,
        ensures
            flag(self.gx, g),
            flag(self.go, g),
            !self.legal_cell(i),
    {
        assert(self.flags_agree(g));
        let c = (i % 9) as u16;
        lemma_pattern_cell(self.x, self.o, g, c);
        let full = sub_pattern(self.x, g) | sub_pattern(self.o, g);
        assert(full == NINE);
        assert(flag(NINE, c)) by (bit_vector)
            requires
                c < 9,
        ;
        assert(i == (9 * g + c) as u128);
        if self.last_move is None {
            lemma_empty_patterns(g);
            assert(sub_pattern(0u128, g) | sub_pattern(0u128, g) == 0) by (bit_vector)
                requires
                    g < 9,
            ;
        }
    }
}


impl Board {
    /// The side that owns cell `i`, if any (X first, should both claim it).
    pub fn cell_owner(&self, i: u8) -> (r: Option<Player>)
        requires
            i < 81,
        ensures
            r == if bit(self.x, i as u128) {
                Some(Player::X)
            } else if bit(self.o, i as u128) {
                Some(Player::O)
            } else {
                None
            },
    {
        proof {
            lemma_single_bit(self.x, 0, i as u128);
            lemma_single_bit(self.o, 0, i as u128);
        }
        if self.x & (1u128 << i as u128) != 0 {
            Some(Player::X)
        } else if self.o & (1u128 << i as u128) != 0 {
            Some(Player::O)
        } else {
            None
        }
    }
}


/// Two in-range moves on the same cell are the same move.
pub proof fn lemma_cell_of_injective(a: u8, b: u8)
    requires
        move_in_range(a),
        move_in_range(b),
        cell_of(a) == cell_of(b),
    ensures
        a == b,
{
    let ga = a >> 4u8;
    let gb = b >> 4u8;
    let ca = a & 15u8;
    let cb = b & 15u8;
    assert(9 * ga + ca == 9 * gb + cb);
    lemma_div9((9 * ga + ca) as u128, ga as u128);
    lemma_div9((9 * gb + cb) as u128, gb as u128);
    assert(ga == gb);
    assert(ca == cb);
    assert(a == b) by (bit_vector)
        requires
            a >> 4u8 == b >> 4u8,
            a & 15u8 == b & 15u8,
    ;
}

} // verus!
