//! A checkers position held as two bitboards per player, and the moves that
//! can be made from it.
use crate::bit_grid::{
    all_cells, ascending, bit, bits_of, cell_index, cell_of, lemma_ascending, shifted,
    BitGrid,
};
use vstd::prelude::*;

pub use Player::{Player1, Player2};

verus! {

/// Number of rows of the board.
pub const BOARD_HEIGHT: u32 = 8;

/// The dark cells, the only ones a piece may stand on.
pub const BOARD_MASK: u64 = 0x55AA55AA55AA55AA;

/// One of the two sides.
#[derive(Clone, Copy, PartialEq, Eq, Debug, Structural)]
pub enum Player {
    Player1,
    Player2,
}

/// A cell given by column and row.
#[derive(Clone, Copy, PartialEq, Eq, Debug, Structural)]
pub struct Position(pub u32, pub u32);

/// A piece going from one cell to another.
#[derive(Clone, Copy, PartialEq, Eq, Debug, Structural)]
pub struct Move {
    pub from: Position,
    pub to: Position,
}

/// A piece on the board.
#[derive(Clone, Copy, PartialEq, Eq, Debug, Structural)]
pub struct Piece {
    pub position: Position,
    pub player: Player,
    pub king: bool,
}

/// The other side.
pub open spec fn opponent(p: Player) -> Player {
    match p {
        Player::Player1 => Player::Player2,
        Player::Player2 => Player::Player1,
    }
}

/// Whether the cell at index `i` is dark.
pub open spec fn is_dark(i: nat) -> bool {
    i < 64 && (i % 8) % 2 != (i / 8) % 2
}

/// The dark cells.
pub open spec fn dark_cells() -> Set<nat> {
    Set::new(|i: nat| is_dark(i))
}

/// Whether column `x`, row `y` lies on the board.
pub open spec fn on_board(x: int, y: int) -> bool {
    0 <= x < 8 && 0 <= y < 8
}

/// The index of the cell at `pos`.
pub open spec fn position_index(pos: Position) -> nat {
    cell_index(pos.0 as int, pos.1 as int) as nat
}

/// The position of the cell at index `i`.
pub open spec fn position_of(i: nat) -> Position {
    Position(cell_of(i).0, cell_of(i).1)
}

/// The move from the cell at index `i` by `dx` columns and `dy` rows.
pub open spec fn move_from(i: nat, dx: int, dy: int) -> Move {
    Move {
        from: position_of(i),
        to: Position((i % 8 + dx) as u32, (i / 8 + dy) as u32),
    }
}

/// One move by (`dx`, `dy`) from each of `origins`, in ascending order of origin.
pub open spec fn moves_along(origins: Set<nat>, dx: int, dy: int) -> Seq<Move> {
    ascending(origins).map_values(|i: nat| move_from(i, dx, dy))
}

/// Whether a piece of `p` that arrives on row `y` is crowned there.
pub open spec fn crowns(p: Player, y: u32) -> bool {
    match p {
        Player::Player1 => y == BOARD_HEIGHT - 1,
        Player::Player2 => y == 0,
    }
}

/// The cells of the pieces of `p` in `pieces`; of its kings only, where
/// `kings_only`.
pub open spec fn placed(pieces: Seq<Piece>, p: Player, kings_only: bool) -> Set<nat> {
    Set::new(
        |i: nat|
            exists|k: int|
                0 <= k < pieces.len() && #[trigger] pieces[k].player == p && (pieces[k].king
                    || !kings_only) && position_index(pieces[k].position) == i,
    )
}

/// Every piece stands on a dark cell of the board, and no two pieces share a
/// cell.
pub open spec fn valid_placement(pieces: Seq<Piece>) -> bool {
    &&& forall|k: int|
        0 <= k < pieces.len() ==> (#[trigger] pieces[k]).position.0 < 8 && pieces[k].position.1 < 8
            && is_dark(position_index(pieces[k].position))
    &&& forall|a: int, b: int|
        0 <= a < b < pieces.len() ==> (#[trigger] pieces[a]).position != (#[trigger] pieces[b]).position
}

impl Move {
    /// The move from `from` by `offset.0` columns and `offset.1` rows.
    pub fn new(from: Position, offset: (i32, i32)) -> (r: Move)
        requires
            from.0 <= i32::MAX,
            from.1 <= i32::MAX,
            0 <= from.0 + offset.0 <= i32::MAX,
            0 <= from.1 + offset.1 <= i32::MAX,
        ensures
            r == (Move {
                from,
                to: Position((from.0 + offset.0) as u32, (from.1 + offset.1) as u32),
            }),
    {
        Move {
            from: Position(from.0, from.1),
            to: Position(
                ((from.0 as i32) + offset.0) as u32,
                ((from.1 as i32) + offset.1) as u32,
            ),
        }
    }
}

/// The pieces of one side: every one of them, and the kings among them.
#[derive(Clone, Copy)]
struct PlayerBoard {
    all: BitGrid,
    kings: BitGrid,
}

/// A checkers board.
#[derive(Clone, Copy)]
pub struct Board {
    player1: PlayerBoard,
    player2: PlayerBoard,
}

impl Board {
    /// The cells that hold a piece of `p`.
    pub closed spec fn occupied(&self, p: Player) -> Set<nat> {
        match p {
            Player::Player1 => self.player1.all@,
            Player::Player2 => self.player2.all@,
        }
    }

    /// The cells that hold a king of `p`.
    pub closed spec fn kings(&self, p: Player) -> Set<nat> {
        match p {
            Player::Player1 => self.player1.kings@,
            Player::Player2 => self.player2.kings@,
        }
    }

    /// Kings are pieces, no cell holds pieces of both sides, and pieces stand
    /// on dark cells only.
    pub open spec fn wf(&self) -> bool {
        &&& self.kings(Player::Player1).subset_of(self.occupied(Player::Player1))
        &&& self.kings(Player::Player2).subset_of(self.occupied(Player::Player2))
        &&& self.occupied(Player::Player1).disjoint(self.occupied(Player::Player2))
        &&& self.occupied(Player::Player1).subset_of(dark_cells())
        &&& self.occupied(Player::Player2).subset_of(dark_cells())
    }

    /// The dark cells that hold no piece.
    pub open spec fn empty_cells(&self) -> Set<nat> {
        dark_cells().difference(self.occupied(Player::Player1)).difference(
            self.occupied(Player::Player2),
        )
    }

    /// The pieces of `p` that may move towards higher rows (`dy > 0`) or
    /// towards lower rows (`dy < 0`): a man moves only towards the opponent,
    /// a king both ways.
    pub open spec fn movers(&self, p: Player, dy: int) -> Set<nat> {
        if (dy > 0) == (p == Player::Player1) {
            self.occupied(p)
        } else {
            self.kings(p)
        }
    }

    /// The pieces of `p` that can step by (`dx`, `dy`) onto an empty cell.
    pub open spec fn step_origins(&self, p: Player, dx: int, dy: int) -> Set<nat> {
        Set::new(
            |i: nat|
                self.movers(p, dy).contains(i) && on_board(i % 8 + dx, i / 8 + dy)
                    && self.empty_cells().contains(cell_index(i % 8 + dx, i / 8 + dy) as nat),
        )
    }

    /// The pieces of `p` that can jump by (`2 * dx`, `2 * dy`) over a piece of
    /// the opponent onto an empty cell.
    pub open spec fn jump_origins(&self, p: Player, dx: int, dy: int) -> Set<nat> {
        Set::new(
            |i: nat|
                self.movers(p, dy).contains(i) && on_board(i % 8 + 2 * dx, i / 8 + 2 * dy)
                    && self.occupied(opponent(p)).contains(cell_index(i % 8 + dx, i / 8 + dy) as nat)
                    && self.empty_cells().contains(
                    cell_index(i % 8 + 2 * dx, i / 8 + 2 * dy) as nat,
                ),
        )
    }

    /// The steps of `p`: down-left, down-right, up-left, then up-right, each
    /// direction in ascending order of origin.
    pub open spec fn normal_moves_spec(&self, p: Player) -> Seq<Move> {
        moves_along(self.step_origins(p, -1, 1), -1, 1) + moves_along(
            self.step_origins(p, 1, 1),
            1,
            1,
        ) + moves_along(self.step_origins(p, -1, -1), -1, -1) + moves_along(
            self.step_origins(p, 1, -1),
            1,
            -1,
        )
    }

    /// The jumps of `p`, in the order of the steps.
    pub open spec fn jump_moves_spec(&self, p: Player) -> Seq<Move> {
        moves_along(self.jump_origins(p, -1, 1), -2, 2) + moves_along(
            self.jump_origins(p, 1, 1),
            2,
            2,
        ) + moves_along(self.jump_origins(p, -1, -1), -2, -2) + moves_along(
            self.jump_origins(p, 1, -1),
            2,
            -2,
        )
    }

    /// The cells of the pieces and kings of both sides are those of `pieces`.
    pub open spec fn holds_pieces(&self, pieces: Seq<Piece>) -> bool {
        &&& self.occupied(Player::Player1) == placed(pieces, Player::Player1, false)
        &&& self.occupied(Player::Player2) == placed(pieces, Player::Player2, false)
        &&& self.kings(Player::Player1) == placed(pieces, Player::Player1, true)
        &&& self.kings(Player::Player2) == placed(pieces, Player::Player2, true)
    }

    /// `r` is this board after `player` made `mv`: the piece leaves `mv.from`
    /// and arrives on `mv.to`; it is a king there if it was one or if it
    /// arrives on the farthest row; the opponent's pieces stay.
    pub open spec fn moved_to(&self, r: Board, player: Player, mv: Move) -> bool {
        let from = position_index(mv.from);
        let to = position_index(mv.to);
        &&& r.occupied(player) == self.occupied(player).remove(from).insert(to)
        &&& r.kings(player) == if self.kings(player).contains(from) || crowns(player, mv.to.1) {
            self.kings(player).remove(from).insert(to)
        } else {
            self.kings(player)
        }
        &&& r.occupied(opponent(player)) == self.occupied(opponent(player))
        &&& r.kings(opponent(player)) == self.kings(opponent(player))
    }

    /// The pieces of `p`, in ascending order of cell.
    pub open spec fn pieces_of(&self, p: Player) -> Seq<Piece> {
        ascending(self.occupied(p)).map_values(
            |i: nat| Piece { position: position_of(i), player: p, king: self.kings(p).contains(i) },
        )
    }

    /// Every piece: those of the first side, then those of the second.
    pub open spec fn pieces_spec(&self) -> Seq<Piece> {
        self.pieces_of(Player::Player1) + self.pieces_of(Player::Player2)
    }

    /// The piece at `pos`, a king of the first side before a man of it, and
    /// either before a piece of the second side.
    pub open spec fn piece_at_spec(&self, pos: Position) -> Option<Piece> {
        let i = position_index(pos);
        if self.kings(Player::Player1).contains(i) {
            Some(Piece { position: pos, player: Player::Player1, king: true })
        } else if self.occupied(Player::Player1).contains(i) {
            Some(Piece { position: pos, player: Player::Player1, king: false })
        } else if self.kings(Player::Player2).contains(i) {
            Some(Piece { position: pos, player: Player::Player2, king: true })
        } else if self.occupied(Player::Player2).contains(i) {
            Some(Piece { position: pos, player: Player::Player2, king: false })
        } else {
            None
        }
    }

    /// The side that has won: the other one as soon as a side has no piece left.
    pub open spec fn winner_spec(&self) -> Option<Player> {
        if self.occupied(Player::Player1) == Set::<nat>::empty() {
            Some(Player::Player2)
        } else if self.occupied(Player::Player2) == Set::<nat>::empty() {
            Some(Player::Player1)
        } else {
            None
        }
    }

    /// The starting position: the first side on the dark cells of rows 0 to 2,
    /// the second on those of rows 5 to 7, no kings.
    pub fn new() -> (r: Board)
        ensures
            r.wf(),
            r.occupied(Player::Player1) == Set::new(|i: nat| is_dark(i) && i < 24),
            r.occupied(Player::Player2) == Set::new(|i: nat| is_dark(i) && i >= 40),
            r.kings(Player::Player1) == Set::<nat>::empty(),
            r.kings(Player::Player2) == Set::<nat>::empty(),
    {
        let r = Board {
            player1: PlayerBoard {
                all: BitGrid::new_from_mask(BOARD_MASK << 40 >> 40),
                kings: BitGrid::new(),
            },
            player2: PlayerBoard {
                all: BitGrid::new_from_mask(BOARD_MASK >> 40 << 40),
                kings: BitGrid::new(),
            },
        };
        proof {
            assert forall|i: nat| #[trigger] r.occupied(Player::Player1).contains(i) == (is_dark(i) && i < 24) by {
                if i < 64 {
                    lemma_board_mask(i as u64);
                }
            }
            assert forall|i: nat| #[trigger] r.occupied(Player::Player2).contains(i) == (is_dark(i) && i >= 40) by {
                if i < 64 {
                    lemma_board_mask(i as u64);
                }
            }
            assert(r.occupied(Player::Player1) =~= Set::new(|i: nat| is_dark(i) && i < 24));
            assert(r.occupied(Player::Player2) =~= Set::new(|i: nat| is_dark(i) && i >= 40));
        }
        r
    }

    /// A board that holds exactly `pieces`.
    pub fn new_with_pieces(pieces: Vec<Piece>) -> (r: Board)
        requires
            valid_placement(pieces@),
        ensures
            r.wf(),
            r.holds_pieces(pieces@),
    {
        let mut board = Board {
            player1: PlayerBoard { all: BitGrid::new(), kings: BitGrid::new() },
            player2: PlayerBoard { all: BitGrid::new(), kings: BitGrid::new() },
        };
        proof {
            assert(placed(pieces@.take(0), Player::Player1, false) =~= Set::<nat>::empty());
            assert(placed(pieces@.take(0), Player::Player2, false) =~= Set::<nat>::empty());
            assert(placed(pieces@.take(0), Player::Player1, true) =~= Set::<nat>::empty());
            assert(placed(pieces@.take(0), Player::Player2, true) =~= Set::<nat>::empty());
        }
        let mut k: usize = 0;
        while k < pieces.len()
            invariant
                valid_placement(pieces@),
                k <= pieces@.len(),
                board.holds_pieces(pieces@.take(k as int)),
            decreases pieces@.len() - k,
        {
            let piece = pieces[k];
            let Position(x, y) = piece.position;
            let ghost before = board;
            let player_board = board.player_board_mut(piece.player);
            player_board.all = player_board.all.set_at_cell(x, y, true);
            if piece.king {
                player_board.kings = player_board.kings.set_at_cell(x, y, true);
            }
            proof {
                lemma_placed_push(pieces@, k as int, Player::Player1, false);
                lemma_placed_push(pieces@, k as int, Player::Player2, false);
                lemma_placed_push(pieces@, k as int, Player::Player1, true);
                lemma_placed_push(pieces@, k as int, Player::Player2, true);
            }
            k = k + 1;
        }
        assert(pieces@.take(k as int) =~= pieces@);
        proof {
            lemma_placement_wf(board, pieces@);
        }
        board
    }

    /// This board with `mv` made by a piece of `player`: the piece leaves
    /// `mv.from` and arrives on `mv.to`, a king stays a king, and a man that
    /// arrives on the farthest row is crowned. Nothing checks that the move is
    /// legal.
    pub fn move_piece(self, player: Player, mv: Move) -> (r: Board)
        requires
            mv.from.0 < 8,
            mv.from.1 < 8,
            mv.to.0 < 8,
            mv.to.1 < 8,
        ensures
            self.moved_to(r, player, mv),
    {
        let Move { from, to } = mv;
        let mut board = self;
        let player_board = board.player_board_mut(player);
        player_board.all = player_board.all.set_at_cell(from.0, from.1, false).set_at_cell(
            to.0,
            to.1,
            true,
        );
        if player_board.kings.get_at_cell(from.0, from.1) || (player == Player::Player1 && to.1
            == BOARD_HEIGHT - 1) || (player == Player::Player2 && to.1 == 0) {
            player_board.kings = player_board.kings.set_at_cell(from.0, from.1, false).set_at_cell(
                to.0,
                to.1,
                true,
            );
        }
        board
    }

    /// Every piece, those of the first side before those of the second, each
    /// side in ascending order of cell.
    pub fn pieces_iter(self) -> (r: Vec<Piece>)
        ensures
            r@ == self.pieces_spec(),
    {
        let mut r: Vec<Piece> = Vec::new();
        self.push_pieces(&mut r, Player::Player1);
        self.push_pieces(&mut r, Player::Player2);
        assert(r@ =~= self.pieces_spec());
        r
    }

    /// Appends the pieces of `player`, in ascending order of cell.
    fn push_pieces(&self, out: &mut Vec<Piece>, player: Player)
        ensures
            final(out)@ == old(out)@ + self.pieces_of(player),
    {
        let player_board = self.player_board(player);
        let kings = player_board.kings;
        let cells = player_board.all.iter_set_cells();
        let ghost start = out@;
        let ghost all = self.pieces_of(player);
        let mut k: usize = 0;
        while k < cells.len()
            invariant
                kings@ == self.kings(player),
                all == self.pieces_of(player),
                k <= cells@.len(),
                cells@ == ascending(self.occupied(player)).map_values(|i: nat| cell_of(i)),
                out@ == start + all.take(k as int),
            decreases cells@.len() - k,
        {
            let (x, y) = cells[k];
            proof {
                lemma_ascending(self.occupied(player));
                let i = ascending(self.occupied(player))[k as int];
                assert(cells@[k as int] == cell_of(i));
                assert(i == cell_index(x as int, y as int));
            }
            let king = kings.get_at_cell(x, y);
            out.push(Piece { position: Position(x, y), player, king });
            k = k + 1;
            assert(all.take(k as int) =~= all.take(k - 1 as int).push(all[k - 1 as int]));
            assert(out@ =~= start + all.take(k as int));
        }
        assert(all.take(k as int) =~= all);
    }

    /// Whether the board is well formed: kings are pieces, no cell holds
    /// pieces of both sides, and pieces stand on dark cells only.
    pub fn is_valid(&self) -> (r: bool)
        ensures
            r == self.wf(),
    {
        let dark = BitGrid::new_from_mask(BOARD_MASK);
        let r = self.player1.kings.intersect(self.player1.all.negate()).none()
            && self.player2.kings.intersect(self.player2.all.negate()).none()
            && self.player1.all.intersect(self.player2.all).none()
            && self.player1.all.intersect(dark.negate()).none()
            && self.player2.all.intersect(dark.negate()).none();
        proof {
            lemma_dark_cells();
            let k1 = self.kings(Player::Player1);
            let k2 = self.kings(Player::Player2);
            let a1 = self.occupied(Player::Player1);
            let a2 = self.occupied(Player::Player2);
            let outside = all_cells().difference(dark_cells());
            assert((k1.intersect(all_cells().difference(a1)) == Set::<nat>::empty()) == k1.subset_of(a1)) by {
                if k1.subset_of(a1) {
                    assert(k1.intersect(all_cells().difference(a1)) =~= Set::<nat>::empty());
                } else {
                    let i = choose|i: nat| k1.contains(i) && !a1.contains(i);
                    assert(k1.intersect(all_cells().difference(a1)).contains(i));
                }
            }
            assert((k2.intersect(all_cells().difference(a2)) == Set::<nat>::empty()) == k2.subset_of(a2)) by {
                if k2.subset_of(a2) {
                    assert(k2.intersect(all_cells().difference(a2)) =~= Set::<nat>::empty());
                } else {
                    let i = choose|i: nat| k2.contains(i) && !a2.contains(i);
                    assert(k2.intersect(all_cells().difference(a2)).contains(i));
                }
            }
            assert((a1.intersect(a2) == Set::<nat>::empty()) == a1.disjoint(a2)) by {
                if a1.disjoint(a2) {
                    assert(a1.intersect(a2) =~= Set::<nat>::empty());
                } else {
                    let i = choose|i: nat| a1.contains(i) && a2.contains(i);
                    assert(a1.intersect(a2).contains(i));
                }
            }
            assert((a1.intersect(outside) == Set::<nat>::empty()) == a1.subset_of(dark_cells())) by {
                if a1.subset_of(dark_cells()) {
                    assert(a1.intersect(outside) =~= Set::<nat>::empty());
                } else {
                    let i = choose|i: nat| a1.contains(i) && !dark_cells().contains(i);
                    assert(a1.intersect(outside).contains(i));
                }
            }
            assert((a2.intersect(outside) == Set::<nat>::empty()) == a2.subset_of(dark_cells())) by {
                if a2.subset_of(dark_cells()) {
                    assert(a2.intersect(outside) =~= Set::<nat>::empty());
                } else {
                    let i = choose|i: nat| a2.contains(i) && !dark_cells().contains(i);
                    assert(a2.intersect(outside).contains(i));
                }
            }
        }
        r
    }

    /// The dark cells that hold no piece.
    fn empty_squares(&self) -> (r: BitGrid)
        ensures
            r@ == self.empty_cells(),
    {
        let r = self.player1.all.union(self.player2.all).negate().intersect(
            BitGrid::new_from_mask(BOARD_MASK),
        );
        proof {
            lemma_dark_cells();
            assert(r@ =~= self.empty_cells());
        }
        r
    }

    /// The pieces of `player` that may move towards higher rows.
    fn downward_moving(&self, player: Player) -> (r: BitGrid)
        ensures
            r@ == self.movers(player, 1),
    {
        match player {
            Player::Player1 => self.player1.all,
            Player::Player2 => self.player2.kings,
        }
    }

    /// The pieces of `player` that may move towards lower rows.
    fn upward_moving(&self, player: Player) -> (r: BitGrid)
        ensures
            r@ == self.movers(player, -1),
    {
        match player {
            Player::Player1 => self.player1.kings,
            Player::Player2 => self.player2.all,
        }
    }

    /// The pieces of `player`.
    fn player_board(&self, player: Player) -> (r: &PlayerBoard)
        ensures
            r.all@ == self.occupied(player),
            r.kings@ == self.kings(player),
    {
        match player {
            Player::Player1 => &self.player1,
            Player::Player2 => &self.player2,
        }
    }

    /// The pieces of the opponent of `player`.
    fn opponents(&self, player: Player) -> (r: BitGrid)
        ensures
            r@ == self.occupied(opponent(player)),
    {
        match player {
            Player::Player1 => self.player2.all,
            Player::Player2 => self.player1.all,
        }
    }

    /// The steps that `player` can make. A rules layer allows them only
    /// where no jump is available.
    pub fn normal_moves(&self, player: Player) -> (r: Vec<Move>)
        requires
            self.wf(),
        ensures
            r@ == self.normal_moves_spec(player),
    {
        let downward_moving = self.downward_moving(player);
        let upward_moving = self.upward_moving(player);
        let empty = self.empty_squares();
        let mut moves: Vec<Move> = Vec::new();
        proof {
            lemma_step_origins(*self, player, -1, 1);
            lemma_step_origins(*self, player, 1, 1);
            lemma_step_origins(*self, player, -1, -1);
            lemma_step_origins(*self, player, 1, -1);
        }
        push_moves(&mut moves, empty.shift(-1, 1).intersect(downward_moving), -1, 1);
        push_moves(&mut moves, empty.shift(-1, -1).intersect(downward_moving), 1, 1);
        push_moves(&mut moves, empty.shift(1, 1).intersect(upward_moving), -1, -1);
        push_moves(&mut moves, empty.shift(1, -1).intersect(upward_moving), 1, -1);
        assert(moves@ =~= self.normal_moves_spec(player));
        moves
    }

    /// The single jumps that `player` can make. The jumped piece stays on the
    /// board, and chains of jumps are left to the caller.
    pub fn jump_moves(&self, player: Player) -> (r: Vec<Move>)
        requires
            self.wf(),
        ensures
            r@ == self.jump_moves_spec(player),
    {
        let downward_moving = self.downward_moving(player);
        let upward_moving = self.upward_moving(player);
        let opponents = self.opponents(player);
        let empty = self.empty_squares();
        let mut moves: Vec<Move> = Vec::new();
        proof {
            lemma_jump_origins(*self, player, -1, 1);
            lemma_jump_origins(*self, player, 1, 1);
            lemma_jump_origins(*self, player, -1, -1);
            lemma_jump_origins(*self, player, 1, -1);
        }
        push_moves(
            &mut moves,
            empty.shift(-2, 2).intersect(opponents.shift(-1, 1)).intersect(downward_moving),
            -2,
            2,
        );
        push_moves(
            &mut moves,
            empty.shift(-2, -2).intersect(opponents.shift(-1, -1)).intersect(downward_moving),
            2,
            2,
        );
        push_moves(
            &mut moves,
            empty.shift(2, 2).intersect(opponents.shift(1, 1)).intersect(upward_moving),
            -2,
            -2,
        );
        push_moves(
            &mut moves,
            empty.shift(2, -2).intersect(opponents.shift(1, -1)).intersect(upward_moving),
            2,
            -2,
        );
        assert(moves@ =~= self.jump_moves_spec(player));
        moves
    }

    /// The pieces of `player`, to be changed in place.
    fn player_board_mut(&mut self, player: Player) -> (r: &mut PlayerBoard)
        ensures
            player == Player::Player1 ==> *r == old(self).player1
                && final(self).player1 == *final(r) && final(self).player2 == old(self).player2,
            player == Player::Player2 ==> *r == old(self).player2
                && final(self).player2 == *final(r) && final(self).player1 == old(self).player1,
    {
        match player {
            Player::Player1 => &mut self.player1,
            Player::Player2 => &mut self.player2,
        }
    }

    /// The side that has won, if the game is over.
    pub fn winner(&self) -> (r: Option<Player>)
        ensures
            r == self.winner_spec(),
    {
        if self.player1.all.none() {
            Some(Player::Player2)
        } else if self.player2.all.none() {
            Some(Player::Player1)
        } else {
            None
        }
    }

    /// The piece at `position`, if any.
    pub fn piece_at(&self, position: Position) -> (r: Option<Piece>)
        requires
            position.0 < 8,
            position.1 < 8,
        ensures
            r == self.piece_at_spec(position),
    {
        let Position(x, y) = position;
        if self.player1.kings.get_at_cell(x, y) {
            Some(Piece { position, player: Player::Player1, king: true })
        } else if self.player1.all.get_at_cell(x, y) {
            Some(Piece { position, player: Player::Player1, king: false })
        } else if self.player2.kings.get_at_cell(x, y) {
            Some(Piece { position, player: Player::Player2, king: true })
        } else if self.player2.all.get_at_cell(x, y) {
            Some(Piece { position, player: Player::Player2, king: false })
        } else {
            None
        }
    }
}

/// Appends one move by (`dx`, `dy`) from each cell of `origins`, in
/// ascending order of origin.
fn push_moves(moves: &mut Vec<Move>, origins: BitGrid, dx: i32, dy: i32)
    requires
        -2 <= dx <= 2,
        -2 <= dy <= 2,
        forall|i: nat| #[trigger] origins@.contains(i) ==> on_board(i % 8 + dx, i / 8 + dy),
    ensures
        final(moves)@ == old(moves)@ + moves_along(origins@, dx as int, dy as int),
{
    let cells = origins.iter_set_cells();
    let ghost start = moves@;
    let ghost all = moves_along(origins@, dx as int, dy as int);
    let mut k: usize = 0;
    while k < cells.len()
        invariant
            -2 <= dx <= 2,
            -2 <= dy <= 2,
            forall|i: nat| #[trigger] origins@.contains(i) ==> on_board(i % 8 + dx, i / 8 + dy),
            all == moves_along(origins@, dx as int, dy as int),
            k <= cells@.len(),
            cells@ == ascending(origins@).map_values(|i: nat| cell_of(i)),
            moves@ == start + all.take(k as int),
        decreases cells@.len() - k,
    {
        let (x, y) = cells[k];
        proof {
            lemma_ascending(origins@);
            let i = ascending(origins@)[k as int];
            assert(origins@.contains(i));
            assert(cells@[k as int] == cell_of(i));
            assert(all[k as int] == move_from(i, dx as int, dy as int));
        }
        moves.push(Move::new(Position(x, y), (dx, dy)));
        k = k + 1;
        assert(all.take(k as int) =~= all.take(k - 1 as int).push(all[k - 1 as int]));
        assert(moves@ =~= start + all.take(k as int));
    }
    assert(all.take(k as int) =~= all);
}

/// A man or king of `player` that is moved onto the farthest row, onto a
/// cell the opponent does not hold, is then a king there.
pub proof fn lemma_crowning(b: Board, r: Board, player: Player, mv: Move)
    requires
        b.wf(),
        b.moved_to(r, player, mv),
        mv.to.0 < 8,
        mv.to.1 < 8,
        crowns(player, mv.to.1),
        !b.occupied(opponent(player)).contains(position_index(mv.to)),
    ensures
        r.piece_at_spec(mv.to) == Some(Piece { position: mv.to, player, king: true }),
{
}

/// A board that holds pieces of the first side only, at least one, has been
/// won by the first side; the starting position has no winner.
pub proof fn lemma_winner(b: Board, pieces: Seq<Piece>, start: Board)
    requires
        b.holds_pieces(pieces),
        pieces.len() > 0,
        forall|k: int| 0 <= k < pieces.len() ==> (#[trigger] pieces[k]).player == Player::Player1,
        start.occupied(Player::Player1) == Set::new(|i: nat| is_dark(i) && i < 24),
        start.occupied(Player::Player2) == Set::new(|i: nat| is_dark(i) && i >= 40),
    ensures
        b.winner_spec() == Some(Player::Player1),
        start.winner_spec() == None::<Player>,
{
    assert(b.occupied(Player::Player1).contains(position_index(pieces[0].position)));
    assert(b.occupied(Player::Player2) =~= Set::<nat>::empty());
    assert(start.occupied(Player::Player1).contains(1));
    assert(start.occupied(Player::Player2).contains(62));
}

/// Listing the pieces of a board that holds a valid placement gives back
/// that placement, up to order.
pub proof fn lemma_pieces_round_trip(b: Board, pieces: Seq<Piece>)
    requires
        valid_placement(pieces),
        b.holds_pieces(pieces),
    ensures
        b.pieces_spec().to_set() == pieces.to_set(),
{
    let listed = b.pieces_spec();
    lemma_ascending(b.occupied(Player::Player1));
    lemma_ascending(b.occupied(Player::Player2));
    assert forall|q: Piece| #[trigger] listed.contains(q) implies pieces.contains(q) by {
        let m = choose|m: int| 0 <= m < listed.len() && listed[m] == q;
        let p = q.player;
        let own = b.pieces_of(p);
        let n = if p == Player::Player1 {
            m
        } else {
            m - b.pieces_of(Player::Player1).len()
        };
        assert(own[n] == q);
        let i = ascending(b.occupied(p))[n];
        assert(b.occupied(p).contains(i));
        let k = choose|k: int|
            0 <= k < pieces.len() && #[trigger] pieces[k].player == p && (pieces[k].king
                || !false) && position_index(pieces[k].position) == i;
        lemma_position_index(pieces[k].position, pieces[k].position);
        assert(q.position == pieces[k].position);
        lemma_placed_king(b, pieces, k);
        assert(q == pieces[k]);
    }
    assert forall|q: Piece| #[trigger] pieces.contains(q) implies listed.contains(q) by {
        let k = choose|k: int| 0 <= k < pieces.len() && pieces[k] == q;
        let p = q.player;
        let i = position_index(q.position);
        assert(b.occupied(p).contains(i));
        assert(ascending(b.occupied(p)).contains(i));
        let n = choose|n: int|
            0 <= n < ascending(b.occupied(p)).len() && ascending(b.occupied(p))[n] == i;
        lemma_position_index(q.position, q.position);
        lemma_placed_king(b, pieces, k);
        assert(b.pieces_of(p)[n] == q);
        if p == Player::Player1 {
            assert(listed[n] == q);
        } else {
            assert(listed[b.pieces_of(Player::Player1).len() + n] == q);
        }
    }
    assert(listed.to_set() =~= pieces.to_set());
}

/// Making any step or jump that the board offers to `player` leaves the
/// board well formed, and such a move lies on the board.
pub proof fn lemma_generated_moves_keep_wf(b: Board, r: Board, player: Player, mv: Move)
    requires
        b.wf(),
        b.normal_moves_spec(player).contains(mv) || b.jump_moves_spec(player).contains(mv),
        b.moved_to(r, player, mv),
    ensures
        r.wf(),
        mv.from.0 < 8,
        mv.from.1 < 8,
        mv.to.0 < 8,
        mv.to.1 < 8,
{
    let dirs = seq![(-1int, 1int), (1int, 1int), (-1int, -1int), (1int, -1int)];
    let found: (int, bool) = if b.normal_moves_spec(player).contains(mv) {
        lemma_concat_member(
            moves_along(b.step_origins(player, -1, 1), -1, 1) + moves_along(
                b.step_origins(player, 1, 1),
                1,
                1,
            ) + moves_along(b.step_origins(player, -1, -1), -1, -1),
            moves_along(b.step_origins(player, 1, -1), 1, -1),
            mv,
        );
        if moves_along(b.step_origins(player, 1, -1), 1, -1).contains(mv) {
            (3, false)
        } else {
            lemma_concat_member(
                moves_along(b.step_origins(player, -1, 1), -1, 1) + moves_along(
                    b.step_origins(player, 1, 1),
                    1,
                    1,
                ),
                moves_along(b.step_origins(player, -1, -1), -1, -1),
                mv,
            );
            if moves_along(b.step_origins(player, -1, -1), -1, -1).contains(mv) {
                (2, false)
            } else {
                lemma_concat_member(
                    moves_along(b.step_origins(player, -1, 1), -1, 1),
                    moves_along(b.step_origins(player, 1, 1), 1, 1),
                    mv,
                );
                if moves_along(b.step_origins(player, 1, 1), 1, 1).contains(mv) {
                    (1, false)
                } else {
                    (0, false)
                }
            }
        }
    } else {
        lemma_concat_member(
            moves_along(b.jump_origins(player, -1, 1), -2, 2) + moves_along(
                b.jump_origins(player, 1, 1),
                2,
                2,
            ) + moves_along(b.jump_origins(player, -1, -1), -2, -2),
            moves_along(b.jump_origins(player, 1, -1), 2, -2),
            mv,
        );
        if moves_along(b.jump_origins(player, 1, -1), 2, -2).contains(mv) {
            (3, true)
        } else {
            lemma_concat_member(
                moves_along(b.jump_origins(player, -1, 1), -2, 2) + moves_along(
                    b.jump_origins(player, 1, 1),
                    2,
                    2,
                ),
                moves_along(b.jump_origins(player, -1, -1), -2, -2),
                mv,
            );
            if moves_along(b.jump_origins(player, -1, -1), -2, -2).contains(mv) {
                (2, true)
            } else {
                lemma_concat_member(
                    moves_along(b.jump_origins(player, -1, 1), -2, 2),
                    moves_along(b.jump_origins(player, 1, 1), 2, 2),
                    mv,
                );
                if moves_along(b.jump_origins(player, 1, 1), 2, 2).contains(mv) {
                    (1, true)
                } else {
                    (0, true)
                }
            }
        }
    };
    let (dx, dy) = dirs[found.0];
    if found.1 {
        assert(moves_along(b.jump_origins(player, dx, dy), 2 * dx, 2 * dy).contains(mv));
        let i = lemma_moves_along_member(b.jump_origins(player, dx, dy), 2 * dx, 2 * dy, mv);
        lemma_move_keeps_wf(b, r, player, i, 2 * dx, 2 * dy);
    } else {
        assert(moves_along(b.step_origins(player, dx, dy), dx, dy).contains(mv));
        let i = lemma_moves_along_member(b.step_origins(player, dx, dy), dx, dy, mv);
        lemma_move_keeps_wf(b, r, player, i, dx, dy);
    }
}

proof fn lemma_placed_push(pieces: Seq<Piece>, k: int, p: Player, kings_only: bool)
    requires
        0 <= k < pieces.len(),
    ensures
        placed(pieces.take(k + 1), p, kings_only) == if pieces[k].player == p && (pieces[k].king
            || !kings_only) {
            placed(pieces.take(k), p, kings_only).insert(position_index(pieces[k].position))
        } else {
            placed(pieces.take(k), p, kings_only)
        },
{
    let longer = pieces.take(k + 1);
    let shorter = pieces.take(k);
    let rhs = if pieces[k].player == p && (pieces[k].king || !kings_only) {
        placed(shorter, p, kings_only).insert(position_index(pieces[k].position))
    } else {
        placed(shorter, p, kings_only)
    };
    assert forall|i: nat| #[trigger] placed(longer, p, kings_only).contains(i) == rhs.contains(i) by {
        if placed(longer, p, kings_only).contains(i) {
            let j = choose|j: int|
                0 <= j < longer.len() && #[trigger] longer[j].player == p && (longer[j].king
                    || !kings_only) && position_index(longer[j].position) == i;
            if j < k {
                assert(shorter[j] == longer[j]);
            }
        }
        if placed(shorter, p, kings_only).contains(i) {
            let j = choose|j: int|
                0 <= j < shorter.len() && #[trigger] shorter[j].player == p && (shorter[j].king
                    || !kings_only) && position_index(shorter[j].position) == i;
            assert(shorter[j] == longer[j]);
        }
        if rhs.contains(i) && !placed(shorter, p, kings_only).contains(i) {
            assert(longer[k] == pieces[k]);
        }
    }
    assert(placed(longer, p, kings_only) =~= rhs);
}

/// Distinct positions on the board have distinct indices.
proof fn lemma_position_index(a: Position, b: Position)
    requires
        a.0 < 8,
        a.1 < 8,
        b.0 < 8,
        b.1 < 8,
    ensures
        (position_index(a) == position_index(b)) == (a == b),
        position_of(position_index(a)) == a,
{
    let i = position_index(a);
    assert(i % 8 == a.0 && i / 8 == a.1) by {
        assert(i == a.0 + 8 * a.1);
    }
}

proof fn lemma_board_mask(i: u64)
    requires
        i < 64,
    ensures
        bit(BOARD_MASK, i) == ((i % 8) % 2 != (i / 8) % 2),
        bit((BOARD_MASK << 40u64) >> 40u64, i) == (i < 24 && bit(BOARD_MASK, i)),
        bit((BOARD_MASK >> 40u64) << 40u64, i) == (i >= 40 && bit(BOARD_MASK, i)),
{
    assert(i < 64 ==> (bit(0x55AA55AA55AA55AAu64, i) == ((i % 8) % 2 != (i / 8) % 2)))
        by (bit_vector);
    assert(i < 64 ==> (bit((0x55AA55AA55AA55AAu64 << 40u64) >> 40u64, i) == (i < 24 && bit(
        0x55AA55AA55AA55AAu64,
        i,
    )))) by (bit_vector);
    assert(i < 64 ==> (bit((0x55AA55AA55AA55AAu64 >> 40u64) << 40u64, i) == (i >= 40 && bit(
        0x55AA55AA55AA55AAu64,
        i,
    )))) by (bit_vector);
}

/// The dark cells are the set bits of the board mask.
proof fn lemma_dark_cells()
    ensures
        bits_of(BOARD_MASK) == dark_cells(),
{
    assert forall|i: nat| #[trigger] bits_of(BOARD_MASK).contains(i) == dark_cells().contains(i) by {
        if i < 64 {
            lemma_board_mask(i as u64);
        }
    }
    assert(bits_of(BOARD_MASK) =~= dark_cells());
}

/// Moving from a dark cell by (`dx`, `dy`) with `|dx| == |dy|`, as one step
/// of `dx + 8 * dy` along the packed indices: where the column stays on the
/// board this is the move in the plane, and where it leaves the board the
/// index that is reached, if any, is a light cell.
proof fn lemma_neighbour(i: nat, dx: int, dy: int)
    requires
        is_dark(i),
        dx == 1 || dx == -1 || dx == 2 || dx == -2,
        dy == dx || dy == -dx,
    ensures
        i + dx + 8 * dy == cell_index(i % 8 + dx, i / 8 + dy),
        0 <= i + dx + 8 * dy < 64 && !(0 <= i % 8 + dx < 8) ==> !is_dark(
            (i + dx + 8 * dy) as nat,
        ),
        0 <= i % 8 + dx < 8 ==> on_board(i % 8 + dx, i / 8 + dy) == (0 <= i + dx + 8 * dy < 64),
{
    let c = i % 8;
    let r = i / 8;
    assert(i == c + 8 * r);
    let j = i + dx + 8 * dy;
    if 0 <= j < 64 {
        if c + dx < 0 {
            assert(j == (c + dx + 8) + 8 * (r + dy - 1));
            assert((j as nat) % 8 == c + dx + 8);
            assert((j as nat) / 8 == r + dy - 1);
        } else if c + dx >= 8 {
            assert(j == (c + dx - 8) + 8 * (r + dy + 1));
            assert((j as nat) % 8 == c + dx - 8);
            assert((j as nat) / 8 == r + dy + 1);
        }
    }
}

/// A board that holds a valid placement is well formed.
proof fn lemma_placement_wf(b: Board, pieces: Seq<Piece>)
    requires
        valid_placement(pieces),
        b.holds_pieces(pieces),
    ensures
        b.wf(),
{
    assert forall|i: nat| #[trigger] b.occupied(Player::Player1).contains(i) implies !b.occupied(
        Player::Player2,
    ).contains(i) && is_dark(i) by {
        let k = choose|k: int|
            0 <= k < pieces.len() && #[trigger] pieces[k].player == Player::Player1 && (
            pieces[k].king || !false) && position_index(pieces[k].position) == i;
        if b.occupied(Player::Player2).contains(i) {
            let j = choose|j: int|
                0 <= j < pieces.len() && #[trigger] pieces[j].player == Player::Player2 && (
                pieces[j].king || !false) && position_index(pieces[j].position) == i;
            lemma_position_index(pieces[k].position, pieces[j].position);
            assert(k != j);
            if k < j {
                assert(pieces[k].position != pieces[j].position);
            } else {
                assert(pieces[j].position != pieces[k].position);
            }
        }
    }
    assert forall|i: nat| #[trigger] b.occupied(Player::Player2).contains(i) implies is_dark(i) by {
        let k = choose|k: int|
            0 <= k < pieces.len() && #[trigger] pieces[k].player == Player::Player2 && (
            pieces[k].king || !false) && position_index(pieces[k].position) == i;
    }
    assert forall|i: nat| #[trigger] b.kings(Player::Player1).contains(i) implies b.occupied(
        Player::Player1,
    ).contains(i) by {
        let k = choose|k: int|
            0 <= k < pieces.len() && #[trigger] pieces[k].player == Player::Player1 && (
            pieces[k].king || !true) && position_index(pieces[k].position) == i;
    }
    assert forall|i: nat| #[trigger] b.kings(Player::Player2).contains(i) implies b.occupied(
        Player::Player2,
    ).contains(i) by {
        let k = choose|k: int|
            0 <= k < pieces.len() && #[trigger] pieces[k].player == Player::Player2 && (
            pieces[k].king || !true) && position_index(pieces[k].position) == i;
    }
}

/// The cell of a piece of a valid placement holds a king exactly where that
/// piece is one.
proof fn lemma_placed_king(b: Board, pieces: Seq<Piece>, k: int)
    requires
        valid_placement(pieces),
        b.holds_pieces(pieces),
        0 <= k < pieces.len(),
    ensures
        b.kings(pieces[k].player).contains(position_index(pieces[k].position)) == pieces[k].king,
{
    let p = pieces[k].player;
    let i = position_index(pieces[k].position);
    if pieces[k].king {
        assert(placed(pieces, p, true).contains(i));
    } else if b.kings(p).contains(i) {
        let j = choose|j: int|
            0 <= j < pieces.len() && #[trigger] pieces[j].player == p && (pieces[j].king
                || !true) && position_index(pieces[j].position) == i;
        lemma_position_index(pieces[k].position, pieces[j].position);
        if j < k {
            assert(pieces[j].position != pieces[k].position);
        } else if k < j {
            assert(pieces[k].position != pieces[j].position);
        }
    }
}

proof fn lemma_concat_member(a: Seq<Move>, b: Seq<Move>, x: Move)
    requires
        (a + b).contains(x),
    ensures
        a.contains(x) || b.contains(x),
{
    let k = choose|k: int| 0 <= k < (a + b).len() && (a + b)[k] == x;
    if k < a.len() {
        assert(a[k] == x);
    } else {
        assert(b[k - a.len()] == x);
    }
}

proof fn lemma_moves_along_member(origins: Set<nat>, dx: int, dy: int, mv: Move) -> (i: nat)
    requires
        moves_along(origins, dx, dy).contains(mv),
    ensures
        origins.contains(i),
        mv == move_from(i, dx, dy),
{
    let all = moves_along(origins, dx, dy);
    let n = choose|n: int| 0 <= n < all.len() && all[n] == mv;
    lemma_ascending(origins);
    ascending(origins)[n]
}

/// A piece of `player` at index `i` that may move by `dy` rows, moved by
/// (`dx`, `dy`) onto an empty cell of the board, leaves the board well formed.
proof fn lemma_move_keeps_wf(b: Board, r: Board, player: Player, i: nat, dx: int, dy: int)
    requires
        b.wf(),
        b.movers(player, dy).contains(i),
        on_board(i % 8 + dx, i / 8 + dy),
        b.empty_cells().contains(cell_index(i % 8 + dx, i / 8 + dy) as nat),
        b.moved_to(r, player, move_from(i, dx, dy)),
    ensures
        r.wf(),
        move_from(i, dx, dy).from.0 < 8,
        move_from(i, dx, dy).from.1 < 8,
        move_from(i, dx, dy).to.0 < 8,
        move_from(i, dx, dy).to.1 < 8,
{
    let mv = move_from(i, dx, dy);
    assert(b.occupied(player).contains(i));
    assert(i < 64);
    assert(position_index(mv.from) == i) by {
        assert(i == i % 8 + 8 * (i / 8));
    }
    assert(position_index(mv.to) == cell_index(i % 8 + dx, i / 8 + dy));
    assert(r.occupied(Player::Player1).disjoint(r.occupied(Player::Player2)));
}

/// Under well-formedness the packed shift finds exactly the pieces that can
/// step by (`dx`, `dy`).
proof fn lemma_step_origins(b: Board, p: Player, dx: int, dy: int)
    requires
        b.wf(),
        dx == 1 || dx == -1,
        dy == 1 || dy == -1,
    ensures
        shifted(b.empty_cells(), -(8 * dy + dx)).intersect(b.movers(p, dy)) == b.step_origins(
            p,
            dx,
            dy,
        ),
{
    let lhs = shifted(b.empty_cells(), -(8 * dy + dx)).intersect(b.movers(p, dy));
    assert forall|i: nat| #[trigger] lhs.contains(i) == b.step_origins(p, dx, dy).contains(i) by {
        if b.movers(p, dy).contains(i) {
            assert(b.occupied(p).contains(i));
            lemma_neighbour(i, dx, dy);
        }
    }
    assert(lhs =~= b.step_origins(p, dx, dy));
}

/// Under well-formedness the packed shifts find exactly the pieces that can
/// jump by (`2 * dx`, `2 * dy`).
proof fn lemma_jump_origins(b: Board, p: Player, dx: int, dy: int)
    requires
        b.wf(),
        dx == 1 || dx == -1,
        dy == 1 || dy == -1,
    ensures
        shifted(b.empty_cells(), -(16 * dy + 2 * dx)).intersect(
            shifted(b.occupied(opponent(p)), -(8 * dy + dx)),
        ).intersect(b.movers(p, dy)) == b.jump_origins(p, dx, dy),
{
    let lhs = shifted(b.empty_cells(), -(16 * dy + 2 * dx)).intersect(
        shifted(b.occupied(opponent(p)), -(8 * dy + dx)),
    ).intersect(b.movers(p, dy));
    assert forall|i: nat| #[trigger] lhs.contains(i) == b.jump_origins(p, dx, dy).contains(i) by {
        if b.movers(p, dy).contains(i) {
            assert(b.occupied(p).contains(i));
            lemma_neighbour(i, dx, dy);
            lemma_neighbour(i, 2 * dx, 2 * dy);
        }
    }
    assert(lhs =~= b.jump_origins(p, dx, dy));
}

} // verus!
