//! Tic-tac-toe: two players take turns marking the cells of a three-by-three board, and the
//! first to hold a whole row, column or diagonal wins.
use vstd::prelude::*;
use crate::traits::Action;


verus! {

/// A tic-tac-toe player.
#[derive(PartialEq, Eq, Structural, Clone, Copy, Debug)]
pub enum Player {
    /// The player who moves first.
    One,
    /// The player who moves second.
    Two,
}

/// The code of a player: `1` for the first, `2` for the second.
pub open spec fn player_code(p: Player) -> i32 {
    match p {
        Player::One => 1,
        Player::Two => 2,
    }
}

/// The code of the error for bytes that do not decode.
pub const BAD_ENCODING: i32 = 0;
/// The code of the error for a move that is not two bytes long.
pub const WRONG_LENGTH: i32 = 1;
/// The code of the error for a number that names no player.
pub const NOT_PLAYER: i32 = 2;
/// The code of the error for a move out of turn.
pub const WRONG_TURN: i32 = 3;
/// The code of the error for a row past the board.
pub const BAD_ROW: i32 = 4;
/// The code of the error for a column past the board.
pub const BAD_COLUMN: i32 = 5;
/// The code of the error for a move on a marked cell.
pub const ALREADY_PLAYED: i32 = 6;

impl Player {
    /// Gets the player's code.
    pub fn code(self) -> (c: i32)
        ensures
            c == player_code(self),
    {
        match self {
            Player::One => 1,
            Player::Two => 2,
        }
    }

    /// Gets the player with the given code.
    pub fn try_from(value: i32) -> (r: Result<Player, i32>)
        ensures
            value == 1 ==> r == Ok::<Player, i32>(Player::One),
            value == 2 ==> r == Ok::<Player, i32>(Player::Two),
            value != 1 && value != 2 ==> r == Err::<Player, i32>(NOT_PLAYER),
    {
        if value == 1 {
            Ok(Player::One)
        } else if value == 2 {
            Ok(Player::Two)
        } else {
            Err(NOT_PLAYER)
        }
    }
}

/// A game in progress: how many moves were made, and who marked each cell, row by row.
#[derive(Clone, Copy)]
pub struct State {
    nonce: i32,
    board: [Option<Player>; 9],
}

/// The mark that three cells share, if they all hold the same one.
pub open spec fn line(board: Seq<Option<Player>>, i: int, j: int, k: int) -> Option<Player> {
    if board[i] is Some && board[i] == board[j] && board[j] == board[k] {
        board[i]
    } else {
        None
    }
}

/// The player who holds a whole row, column or diagonal, looked for row by row, then column by
/// column, then along the two diagonals.
pub open spec fn winner_of(board: Seq<Option<Player>>) -> Option<Player> {
    if line(board, 0, 1, 2) is Some {
        line(board, 0, 1, 2)
    } else if line(board, 3, 4, 5) is Some {
        line(board, 3, 4, 5)
    } else if line(board, 6, 7, 8) is Some {
        line(board, 6, 7, 8)
    } else if line(board, 0, 3, 6) is Some {
        line(board, 0, 3, 6)
    } else if line(board, 1, 4, 7) is Some {
        line(board, 1, 4, 7)
    } else if line(board, 2, 5, 8) is Some {
        line(board, 2, 5, 8)
    } else if line(board, 0, 4, 8) is Some {
        line(board, 0, 4, 8)
    } else {
        line(board, 2, 4, 6)
    }
}

/// Whose turn it is: nobody once somebody has won or all nine moves are made, else the first
/// player after an even number of moves and the second after an odd one.
pub open spec fn next_player_of(nonce: int, board: Seq<Option<Player>>) -> Option<Player> {
    if winner_of(board) is Some {
        None
    } else if nonce == 0 || nonce == 2 || nonce == 4 || nonce == 6 || nonce == 8 {
        Some(Player::One)
    } else if nonce == 1 || nonce == 3 || nonce == 5 || nonce == 7 {
        Some(Player::Two)
    } else {
        None
    }
}

/// The number of marked cells among the first `n`.
pub open spec fn marked(board: Seq<Option<Player>>, n: int) -> int
    decreases n,
{
    if n <= 0 {
        0
    } else {
        marked(board, n - 1) + if board[n - 1] is Some { 1int } else { 0int }
    }
}

/// Marking an empty cell adds one marked cell.
proof fn lemma_marked_update(board: Seq<Option<Player>>, i: int, p: Player, n: int)
    requires
        0 <= i < board.len(),
        board[i] is None,
        0 <= n <= board.len(),
    ensures
        marked(board.update(i, Some(p)), n) == marked(board, n) + if i < n { 1int } else { 0int },
    decreases n,
{
    if n > 0 {
        lemma_marked_update(board, i, p, n - 1);
    }
}

/// The number of marked cells lies between none and all of them.
proof fn lemma_marked_bounds(board: Seq<Option<Player>>, n: int)
    requires
        0 <= n,
    ensures
        0 <= marked(board, n) <= n,
    decreases n,
{
    if n > 0 {
        lemma_marked_bounds(board, n - 1);
    }
}

impl State {
    /// The number of moves made.
    pub closed spec fn spec_nonce(self) -> int {
        self.nonce as int
    }

    /// Who marked each cell, row by row.
    pub closed spec fn spec_board(self) -> Seq<Option<Player>> {
        self.board@
    }

    /// A game that play can reach: the move count is the number of marked cells.
    pub closed spec fn reachable(self) -> bool {
        self.nonce == marked(self.board@, 9)
    }

    /// The game after `player` marks the cell that `action` names (row, then column), or the
    /// code of the error.
    pub closed spec fn spec_next(self, player: Player, action: Seq<u8>) -> Result<State, i32> {
        if action.len() != 2 {
            Err(WRONG_LENGTH)
        } else if Some(player) != next_player_of(self.nonce as int, self.board@) {
            Err(WRONG_TURN)
        } else if action[0] >= 3 {
            Err(BAD_ROW)
        } else if action[1] >= 3 {
            Err(BAD_COLUMN)
        } else if self.board@[3 * action[0] + action[1]] is Some {
            Err(ALREADY_PLAYED)
        } else {
            Ok(
                State {
                    nonce: (self.nonce + 1) as i32,
                    board: vstd::array::spec_array_update(
                        self.board,
                        3 * action[0] + action[1],
                        Some(player),
                    ),
                },
            )
        }
    }

    /// A game with an empty board.
    pub closed spec fn spec_new() -> State {
        State { nonce: 0, board: [None, None, None, None, None, None, None, None, None] }
    }

    /// Constructs a game with an empty board.
    pub fn new() -> (s: Self)
        ensures
            s == State::spec_new(),
            s.spec_nonce() == 0,
            s.spec_board() == Seq::new(9, |i: int| None::<Player>),
            s.reachable(),
    {
        let s = State { nonce: 0, board: [None, None, None, None, None, None, None, None, None] };
        proof {
            assert(s.board@ =~= Seq::new(9, |i: int| None::<Player>));
            reveal_with_fuel(marked, 10);
        }
        s
    }

    /// Gets the player who holds a whole row, column or diagonal, if any.
    pub fn winner(&self) -> (r: Option<Player>)
        ensures
            r == winner_of(self.spec_board()),
    {
        let b = &self.board;
        if same_mark(b[0], b[1], b[2]) {
            b[0]
        } else if same_mark(b[3], b[4], b[5]) {
            b[3]
        } else if same_mark(b[6], b[7], b[8]) {
            b[6]
        } else if same_mark(b[0], b[3], b[6]) {
            b[0]
        } else if same_mark(b[1], b[4], b[7]) {
            b[1]
        } else if same_mark(b[2], b[5], b[8]) {
            b[2]
        } else if same_mark(b[0], b[4], b[8]) {
            b[0]
        } else if same_mark(b[2], b[4], b[6]) {
            b[2]
        } else {
            None
        }
    }

    /// Gets the player whose turn it is, if the game is not over.
    pub fn next_player(&self) -> (r: Option<Player>)
        ensures
            r == next_player_of(self.spec_nonce(), self.spec_board()),
    {
        if self.winner().is_some() {
            return None;
        }
        let n = self.nonce;
        if n == 0 || n == 2 || n == 4 || n == 6 || n == 8 {
            Some(Player::One)
        } else if n == 1 || n == 3 || n == 5 || n == 7 {
            Some(Player::Two)
        } else {
            None
        }
    }

    /// Gets the game after `player` marks the cell that `action` names: its row, then its
    /// column.
    pub fn next(&self, player: Player, action: &[u8], random: &[u8]) -> (r: Result<State, i32>)
        ensures
            r == self.spec_next(player, action@),
            self.reachable() ==> (r matches Ok(s) ==> s.reachable()),
            action@.len() != 2 ==> r == Err::<State, i32>(WRONG_LENGTH),
            action@.len() == 2 && Some(player) != next_player_of(self.spec_nonce(), self.spec_board())
                ==> r == Err::<State, i32>(WRONG_TURN),
            action@.len() == 2 && Some(player) == next_player_of(self.spec_nonce(), self.spec_board()) ==> {
                let row = action@[0] as int;
                let column = action@[1] as int;
                if row >= 3 {
                    r == Err::<State, i32>(BAD_ROW)
                } else if column >= 3 {
                    r == Err::<State, i32>(BAD_COLUMN)
                } else if self.spec_board()[3 * row + column] is Some {
                    r == Err::<State, i32>(ALREADY_PLAYED)
                } else {
                    r matches Ok(s) && s.spec_nonce() == self.spec_nonce() + 1
                        && s.spec_board() == self.spec_board().update(3 * row + column, Some(player))
                }
            },
    {
        if action.len() != 2 {
            return Err(WRONG_LENGTH);
        }
        if !same_player(Some(player), self.next_player()) {
            return Err(WRONG_TURN);
        }
        let row = action[0];
        let column = action[1];
        if row >= 3 {
            return Err(BAD_ROW);
        }
        if column >= 3 {
            return Err(BAD_COLUMN);
        }
        let cell: usize = 3 * (row as usize) + (column as usize);
        if self.board[cell].is_some() {
            return Err(ALREADY_PLAYED);
        }
        let mut next = *self;
        next.nonce = self.nonce + 1;
        next.board[cell] = Some(player);
        proof {
            assert(next.board =~= vstd::array::spec_array_update(
                self.board,
                cell as int,
                Some(player),
            ));
            lemma_marked_update(self.board@, cell as int, player, 9);
        }
        Ok(next)
    }
}

/// Whether three cells hold the same mark.
fn same_mark(a: Option<Player>, b: Option<Player>, c: Option<Player>) -> (r: bool)
    ensures
        r == (a is Some && a == b && b == c),
{
    match (a, b, c) {
        (Some(x), Some(y), Some(z)) => x == y && y == z,
        _ => false,
    }
}

/// Whether two optional players are the same.
fn same_player(a: Option<Player>, b: Option<Player>) -> (r: bool)
    ensures
        r == (a == b),
{
    match (a, b) {
        (Some(x), Some(y)) => x == y,
        (None, None) => true,
        _ => false,
    }
}

/// The text of an error code.
pub open spec fn error_text(error: i32) -> Seq<char> {
    if error == 0 {
        "ErrorCode::BadEncoding"@
    } else if error == 1 {
        "ErrorCode::WrongLength"@
    } else if error == 2 {
        "ErrorCode::NotPlayer"@
    } else if error == 3 {
        "ErrorCode::WrongTurn"@
    } else if error == 4 {
        "ErrorCode::BadRow"@
    } else if error == 5 {
        "ErrorCode::BadColumn"@
    } else if error == 6 {
        "ErrorCode::AlreadyPlayed"@
    } else {
        "not an ErrorCode"@
    }
}

/// Names an error code.
pub fn error_string(error: i32) -> (r: &'static str)
    ensures
        r@ == error_text(error),
{
    if error == 0 {
        "ErrorCode::BadEncoding"
    } else if error == 1 {
        "ErrorCode::WrongLength"
    } else if error == 2 {
        "ErrorCode::NotPlayer"
    } else if error == 3 {
        "ErrorCode::WrongTurn"
    } else if error == 4 {
        "ErrorCode::BadRow"
    } else if error == 5 {
        "ErrorCode::BadColumn"
    } else if error == 6 {
        "ErrorCode::AlreadyPlayed"
    } else {
        "not an ErrorCode"
    }
}


/// A move: the row and the column of the cell to mark.
#[derive(Clone, Copy, Debug)]
pub struct Move(pub u8, pub u8);

impl Action for Move {
    open spec fn spec_serialize(&self) -> Seq<u8> {
        seq![self.0, self.1]
    }

    open spec fn spec_deserialize(data: Seq<u8>) -> Option<Self> {
        if data.len() == 2 {
            Some(Move(data[0], data[1]))
        } else {
            None
        }
    }

    fn deserialize(data: &[u8]) -> (r: Result<Self, String>) {
        if data.len() != 2 {
            return Err("data.len() != 2".to_owned());
        }
        Ok(Move(data[0], data[1]))
    }

    fn serialize(&self) -> (r: Vec<u8>) {
        let r = vec![self.0, self.1];
        assert(r@ =~= seq![self.0, self.1]);
        r
    }

    proof fn lemma_clone(a: Self, b: Self) {
    }

    proof fn lemma_roundtrip(action: Self) {
    }
}

/// The player that a seat of a proof (`0` or `1`) plays as.
pub open spec fn seat(player: Option<u8>) -> Option<Player> {
    match player {
        Some(p) => if p == 0 {
            Some(Player::One)
        } else if p == 1 {
            Some(Player::Two)
        } else {
            None
        },
        None => None,
    }
}

/// The byte that stands for a cell: `0` when empty, else the code of the player who marked it.
pub open spec fn cell_byte(cell: Option<Player>) -> u8 {
    match cell {
        None => 0,
        Some(Player::One) => 1,
        Some(Player::Two) => 2,
    }
}

/// The cell that a byte stands for.
pub open spec fn byte_cell(byte: u8) -> Option<Player> {
    if byte == 1 {
        Some(Player::One)
    } else if byte == 2 {
        Some(Player::Two)
    } else {
        None
    }
}

/// The board whose cells, row by row, are `cells`.
pub open spec fn board_of(cells: Seq<Option<Player>>) -> [Option<Player>; 9] {
    choose|b: [Option<Player>; 9]| b@ == cells
}

/// A board is the board of its cells.
proof fn lemma_board_of(b: [Option<Player>; 9])
    ensures
        board_of(b@) == b,
{
    let c = board_of(b@);
    assert(c@ == b@);
    assert(c =~= b);
}

impl crate::traits::State for State {
    type ID = [u8; 16];
    type Nonce = u8;
    type Action = Move;

    open spec fn spec_version() -> Seq<u8> {
        seq![84u8, 84u8, 84u8]
    }

    closed spec fn spec_deserialize(data: Seq<u8>) -> Option<Self> {
        if data.len() != 9 || exists|i: int| 0 <= i < 9 && #[trigger] data[i] > 2 {
            None
        } else {
            let cells = data.map_values(|b: u8| byte_cell(b));
            Some(State { nonce: marked(cells, 9) as i32, board: board_of(cells) })
        }
    }

    open spec fn spec_serialize(&self) -> Option<Seq<u8>> {
        if self.reachable() {
            Some(self.spec_board().map_values(|c: Option<Player>| cell_byte(c)))
        } else {
            None
        }
    }

    open spec fn spec_apply(&self, player: Option<u8>, action: Move) -> Option<Self> {
        match seat(player) {
            None => None,
            Some(p) => match self.spec_next(p, seq![action.0, action.1]) {
                Ok(next) => Some(next),
                Err(_) => None,
            },
        }
    }

    fn version() -> (v: &'static [u8]) {
        let text = "TTT";
        let v = text.as_bytes();
        proof {
            reveal_strlit("TTT");
            assert(vstd::string::is_ascii(text));
            vstd::string::is_ascii_spec_bytes(text);
            assert(v@ =~= seq![84u8, 84u8, 84u8]);
        }
        v
    }

    fn deserialize(data: &[u8]) -> (r: Result<Self, String>) {
        if data.len() != 9 {
            return Err("data.len() != 3 * 3".to_owned());
        }
        let ghost cells = data@.map_values(|b: u8| byte_cell(b));
        let mut board: [Option<Player>; 9] = [None, None, None, None, None, None, None, None, None];
        let mut nonce: i32 = 0;
        let mut i: usize = 0;
        while i < 9
            invariant
                i <= 9,
                data@.len() == 9,
                cells == data@.map_values(|b: u8| byte_cell(b)),
                forall|j: int| 0 <= j < i ==> data@[j] <= 2,
                forall|j: int| 0 <= j < i ==> board@[j] == cells[j],
                nonce == marked(cells, i as int),
                0 <= nonce <= i,
            decreases 9 - i,
        {
            let byte = data[i];
            if byte > 2 {
                return Err("byte > 2".to_owned());
            }
            if byte == 1 {
                board[i] = Some(Player::One);
                nonce = nonce + 1;
            } else if byte == 2 {
                board[i] = Some(Player::Two);
                nonce = nonce + 1;
            } else {
                board[i] = None;
            }
            i = i + 1;
        }
        proof {
            assert(board@ =~= cells);
            lemma_board_of(board);
        }
        Ok(State { nonce, board })
    }

    fn serialize(&self) -> (r: Option<Vec<u8>>) {
        let mut count: i32 = 0;
        let mut data: Vec<u8> = Vec::new();
        let mut i: usize = 0;
        while i < 9
            invariant
                i <= 9,
                count == marked(self.board@, i as int),
                0 <= count <= i,
                data@ =~= self.board@.take(i as int).map_values(|c: Option<Player>| cell_byte(c)),
            decreases 9 - i,
        {
            match self.board[i] {
                None => data.push(0),
                Some(Player::One) => {
                    data.push(1);
                    count = count + 1;
                },
                Some(Player::Two) => {
                    data.push(2);
                    count = count + 1;
                },
            }
            i = i + 1;
        }
        if count != self.nonce {
            return None;
        }
        assert(self.board@.take(9) =~= self.board@);
        Some(data)
    }

    fn apply(&mut self, player: Option<u8>, action: &Move) -> (r: Result<(), String>) {
        let p = match player {
            Some(0) => Player::One,
            Some(1) => Player::Two,
            _ => return Err("player is not seated".to_owned()),
        };
        let bytes = vec![action.0, action.1];
        let none: Vec<u8> = Vec::new();
        assert(bytes@ =~= seq![action.0, action.1]);
        match self.next(p, bytes.as_slice(), none.as_slice()) {
            Ok(next) => {
                *self = next;
                Ok(())
            },
            Err(code) => Err(error_string(code).to_owned()),
        }
    }

    proof fn lemma_clone(a: Self, b: Self) {
    }

    proof fn lemma_roundtrip(state: Self) {
        let bytes = state.board@.map_values(|c: Option<Player>| cell_byte(c));
        let cells = bytes.map_values(|b: u8| byte_cell(b));
        assert(!(exists|i: int| 0 <= i < 9 && #[trigger] bytes[i] > 2));
        assert(cells =~= state.board@);
        lemma_board_of(state.board);
    }
}

/// Tic-tac-toe as a store's domain-specific state: a seated player may move when it is that
/// player's turn and the move marks an empty cell of the board.
impl crate::store::Game for State {
    type Action = Move;

    open spec fn spec_verify(&self, player: Option<u8>, action: Move) -> bool {
        match seat(player) {
            None => false,
            Some(p) => self.spec_next(p, seq![action.0, action.1]) is Ok,
        }
    }

    fn verify(&self, player: Option<u8>, action: &Move) -> (r: Result<(), String>) {
        let p = match player {
            Some(0) => Player::One,
            Some(1) => Player::Two,
            _ => return Err("player is not seated".to_owned()),
        };
        let bytes = vec![action.0, action.1];
        let none: Vec<u8> = Vec::new();
        assert(bytes@ =~= seq![action.0, action.1]);
        match self.next(p, bytes.as_slice(), none.as_slice()) {
            Ok(_) => Ok(()),
            Err(code) => Err(error_string(code).to_owned()),
        }
    }
}

} // verus!
