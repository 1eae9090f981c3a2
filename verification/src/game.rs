//! The game engine: two players, a board, and the turn state machine.

use vstd::prelude::*;

verus! {

use crate::board::{Board, Disk};
use crate::model::{
    MAX_BOARD_SIZE,
    MIN_BOARD_SIZE,
    any_legal_move,
    board_after,
    grid_count,
    legal_move,
};

/// An opaque player identifier, supplied by the host environment.
pub type PlayerId = u128;

/// Every caller-visible failure of the engine.
#[derive(Clone, Copy, Debug, PartialEq, Eq, Structural)]
pub enum ReversiError {
    /// A move was attempted by a player who is not the active player.
    InvalidPlayer,
    /// The target cell is out of bounds, occupied, or flips no disk.
    CannotPlaceDisk,
    /// A move was attempted after the terminal state was reached.
    GameIsOver,
    /// The winner was queried before the terminal state.
    GameIsNotOver,
}

/// The winner stored at the transition into the terminal state: the player
/// with strictly more disks, or `None` on a tie.
pub open spec fn winner_of(g: crate::model::Grid, players: Seq<PlayerId>) -> Option<PlayerId> {
    if grid_count(g, Disk::Black) > grid_count(g, Disk::White) {
        Some(players[0])
    } else if grid_count(g, Disk::Black) < grid_count(g, Disk::White) {
        Some(players[1])
    } else {
        None
    }
}

/// The full game state: board, player bindings and turn state. Player 0
/// plays Black and moves first; player 1 plays White.
pub struct Reversi {
    pub board_size: u8,
    pub players: [PlayerId; 2],
    pub active_player_index: u8,
    pub board: Board,
    pub is_game_over: bool,
    pub winner: Option<PlayerId>,
}

impl Reversi {
    /// The invariant every reachable game state satisfies.
    pub open spec fn wf(&self) -> bool {
        &&& MIN_BOARD_SIZE <= self.board_size <= MAX_BOARD_SIZE
        &&& self.board_size % 2 == 0
        &&& self.board.wf()
        &&& self.board.spec_size() == self.board_size
        &&& self.active_player_index < 2
        &&& self.players@[0] != self.players@[1]
        &&& (!self.is_game_over ==> self.winner is None)
        &&& (self.is_game_over ==> {
            &&& self.winner == winner_of(self.board@, self.players@)
            &&& !any_legal_move(self.board@, self.board_size as int, Disk::Black)
            &&& !any_legal_move(self.board@, self.board_size as int, Disk::White)
        })
    }

    /// The identifier of the player whose move is currently accepted.
    pub open spec fn spec_active_player(&self) -> PlayerId {
        self.players@[self.active_player_index as int]
    }

    /// The color bound to `player`: Black for player 0, White otherwise.
    pub open spec fn spec_own_disk(&self, player: PlayerId) -> Disk {
        if self.players@[0] == player {
            Disk::Black
        } else {
            Disk::White
        }
    }

    /// A fresh game on a board of the given size, in the canonical starting
    /// configuration, with player 0 (who plays Black) to move.
    pub fn new(board_size: u8, player_1: PlayerId, player_2: PlayerId) -> (r: Self)
        requires
            MIN_BOARD_SIZE <= board_size <= MAX_BOARD_SIZE,
            board_size % 2 == 0,
            player_1 != player_2,
        ensures
            r.wf(),
            r.board_size == board_size,
            r.players@ == seq![player_1, player_2],
            r.active_player_index == 0,
            !r.is_game_over,
            r.winner is None,
            forall|x: int, y: int|
                crate::model::in_bounds(board_size as int, x, y)
                    ==> #[trigger] crate::model::cell_at(r.board@, x, y)
                    == crate::model::start_cell(board_size as int, x, y),
    {
        let r = Self {
            players: [player_1, player_2],
            board_size,
            active_player_index: 0,
            board: Board::new(board_size),
            is_game_over: false,
            winner: None,
        };
        proof {
            assert(r.players@ =~= seq![player_1, player_2]);
        }
        r
    }

    /// Whether the terminal state has been reached.
    pub fn is_game_over(&self) -> (r: bool)
        ensures
            r == self.is_game_over,
    {
        self.is_game_over
    }

    /// The two player identifiers, in binding order.
    pub fn get_players(&self) -> (r: [PlayerId; 2])
        ensures
            r == self.players,
    {
        self.players
    }

    /// The identifier of the active player.
    pub fn get_active_player(&self) -> (r: PlayerId)
        requires
            self.wf(),
        ensures
            r == self.spec_active_player(),
    {
        self.players[self.active_player_index as usize]
    }

    /// Whether `player` is the active player.
    pub fn is_active(&self, player: PlayerId) -> (r: bool)
        requires
            self.wf(),
        ensures
            r == (player == self.spec_active_player()),
    {
        self.players[self.active_player_index as usize] == player
    }

    /// The color bound to `player`: Black for player 0, White otherwise.
    pub fn get_own_disk(&self, player: PlayerId) -> (r: Disk)
        ensures
            r == self.spec_own_disk(player),
    {
        if self.players[0] == player {
            return Disk::Black;
        }
        Disk::White
    }

    /// A read-only snapshot of the board.
    pub fn get_board(&self) -> (r: Board)
        ensures
            r@ == self.board@,
    {
        self.board.clone()
    }

    /// Move legality for `disk` at (x, y) on the current board.
    pub fn is_valid_place(&self, disk: Disk, x: u8, y: u8) -> (r: bool)
        requires
            self.wf(),
        ensures
            r == legal_move(self.board@, self.board_size as int, disk, x as int, y as int),
    {
        self.board.is_valid_place(disk, x, y)
    }

    /// Whether `disk` has at least one legal move on the current board.
    pub fn can_place_disk(&self, disk: Disk) -> (r: bool)
        requires
            self.wf(),
        ensures
            r == any_legal_move(self.board@, self.board_size as int, disk),
    {
        self.board.can_place_disk(disk)
    }

    /// The number of Black disks and the number of White disks on the board.
    pub fn count_disks(&self) -> (r: (u8, u8))
        requires
            self.wf(),
        ensures
            r.0 as int == grid_count(self.board@, Disk::Black),
            r.1 as int == grid_count(self.board@, Disk::White),
    {
        self.board.count_disks()
    }

    /// Hands the turn to the other player.
    fn switch_active_player(&mut self)
        requires
            old(self).active_player_index < 2,
        ensures
            final(self).active_player_index == 1 - old(self).active_player_index,
            final(self).board_size == old(self).board_size,
            final(self).players == old(self).players,
            final(self).board == old(self).board,
            final(self).is_game_over == old(self).is_game_over,
            final(self).winner == old(self).winner,
    {
        if self.active_player_index == 0 {
            self.active_player_index = 1;
            return ;
        }
        self.active_player_index = 0;
    }

    /// The turn controller: applies the move (x, y) requested by `player`.
    ///
    /// Rejected with `GameIsOver` after the terminal state, `InvalidPlayer`
    /// for a requester who is not active, and `CannotPlaceDisk` for an
    /// illegal cell; every rejection leaves the state unchanged. On success
    /// the turn passes to the opponent if the opponent has a legal move,
    /// stays with the mover if only the mover has one, and otherwise the
    /// game ends and the winner is fixed by disk count.
    pub fn make_move(&mut self, player: PlayerId, x: u8, y: u8) -> (r: Result<(), ReversiError>)
        requires
            old(self).wf(),
        ensures
            final(self).wf(),
            final(self).board_size == old(self).board_size,
            final(self).players == old(self).players,
            old(self).is_game_over ==> r == Err::<(), ReversiError>(ReversiError::GameIsOver)
                && *final(self) == *old(self),
            !old(self).is_game_over && player != old(self).spec_active_player() ==> r
                == Err::<(), ReversiError>(ReversiError::InvalidPlayer) && *final(self) == *old(
                self,
            ),
            !old(self).is_game_over && player == old(self).spec_active_player() && !legal_move(
                old(self).board@,
                old(self).board_size as int,
                old(self).spec_own_disk(player),
                x as int,
                y as int,
            ) ==> r == Err::<(), ReversiError>(ReversiError::CannotPlaceDisk) && *final(self)
                == *old(self),
            !old(self).is_game_over && player == old(self).spec_active_player() && legal_move(
                old(self).board@,
                old(self).board_size as int,
                old(self).spec_own_disk(player),
                x as int,
                y as int,
            ) ==> ({
                let d = old(self).spec_own_disk(player);
                let n = old(self).board_size as int;
                let g2 = board_after(old(self).board@, n, d, x as int, y as int);
                &&& r == Ok::<(), ReversiError>(())
                &&& final(self).board@ == g2
                &&& (if any_legal_move(g2, n, d.opposite()) {
                    &&& final(self).active_player_index == 1 - old(self).active_player_index
                    &&& !final(self).is_game_over
                    &&& final(self).winner is None
                } else if any_legal_move(g2, n, d) {
                    &&& final(self).active_player_index == old(self).active_player_index
                    &&& !final(self).is_game_over
                    &&& final(self).winner is None
                } else {
                    &&& final(self).active_player_index == old(self).active_player_index
                    &&& final(self).is_game_over
                    &&& final(self).winner == winner_of(g2, old(self).players@)
                })
            }),
    {
        if self.is_game_over {
            return Err(ReversiError::GameIsOver);
        }
        if !self.is_active(player) {
            return Err(ReversiError::InvalidPlayer);
        }
        let disk = self.get_own_disk(player);
        let ghost g0 = self.board@;
        let ghost n = self.board_size as int;
        match self.board.place_disk(disk, x, y) {
            Err(_) => {
                return Err(ReversiError::CannotPlaceDisk);
            },
            Ok(_) => {},
        }

        // The opponent moves next if it has a legal reply.
        if self.board.can_place_disk(disk.opposite()) {
            self.switch_active_player();
            return Ok(());
        }
        // Otherwise the turn is skipped and the mover goes again, if able.
        if self.board.can_place_disk(disk) {
            return Ok(());
        }
        // Neither side can move: the game is over and the score decides.
        self.is_game_over = true;
        let counts = self.board.count_disks();
        if counts.0 > counts.1 {
            self.winner = Some(self.players[0]);
        } else if counts.0 < counts.1 {
            self.winner = Some(self.players[1]);
        }
        proof {
            assert(disk == Disk::Black || disk == Disk::White);
            assert(disk.opposite() == Disk::White || disk.opposite() == Disk::Black);
        }
        Ok(())
    }

    /// The stored winner, or `GameIsNotOver` while the game is in progress.
    pub fn get_winner(&self) -> (r: Result<Option<PlayerId>, ReversiError>)
        ensures
            !self.is_game_over ==> r == Err::<Option<PlayerId>, ReversiError>(
                ReversiError::GameIsNotOver,
            ),
            self.is_game_over ==> r == Ok::<Option<PlayerId>, ReversiError>(self.winner),
    {
        if !self.is_game_over() {
            return Err(ReversiError::GameIsNotOver);
        }
        Ok(self.winner)
    }
}

} // verus!


