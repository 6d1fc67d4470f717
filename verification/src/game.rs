use vstd::prelude::*;

verus! {

/// A pair (x, y) of board coordinates; x is the column, y the row.
pub type BoardCoordinate = (usize, usize);

/// The kinds of recoverable failures the engine reports.
#[derive(Clone, Copy, PartialEq, Eq, Structural, Debug)]
pub enum GameError {
    /// Malformed move text, or a coordinate above 2.
    InvalidInput,
    /// Malformed position string.
    InvalidFormat,
    /// A move aimed at a cell that already holds a symbol.
    OccupiedCell,
}

/// The outcome of a finished game, or the tag for viewing a decoded position.
#[derive(Clone, Copy, PartialEq, Eq, Structural, Debug)]
pub enum GameResult {
    Win(PlayerSymbol),
    Draw,
    /// Display-only tag for inspecting a decoded position; the terminal-state
    /// check never produces it.
    ViewingPosition,
}

/// One of the two players' marks.
#[derive(Clone, Copy, PartialEq, Eq, Structural, Debug)]
pub enum PlayerSymbol {
    Nought,
    Cross,
}

impl PlayerSymbol {
    /// The opposing symbol.
    pub open spec fn other(self) -> PlayerSymbol {
        match self {
            PlayerSymbol::Nought => PlayerSymbol::Cross,
            PlayerSymbol::Cross => PlayerSymbol::Nought,
        }
    }

    pub fn switch(&self) -> (r: Self)
        ensures
            r == self.other(),
    {
        match self {
            Self::Nought => Self::Cross,
            Self::Cross => Self::Nought,
        }
    }

    /// The symbol's letter as text.
    pub fn to_string(&self) -> (r: String)
        ensures
            r@ == seq![symbol_char(*self)],
    {
        match self {
            PlayerSymbol::Nought => {
                proof {
                    reveal_strlit("O");
                    assert("O"@ =~= seq![symbol_char(*self)]);
                }
                String::from_str("O")
            },
            PlayerSymbol::Cross => {
                proof {
                    reveal_strlit("X");
                    assert("X"@ =~= seq![symbol_char(*self)]);
                }
                String::from_str("X")
            },
        }
    }
}

impl GameResult {
    /// The display text of the result.
    pub fn to_string(&self) -> (r: String)
        ensures
            r@ == result_text(*self),
    {
        match self {
            GameResult::Win(symbol) => {
                let mut t = String::from_str("Player ");
                let letter = symbol.to_string();
                t.append(letter.as_str());
                t.append(" wins");
                proof {
                    assert(t@ =~= result_text(*self));
                }
                t
            },
            GameResult::Draw => String::from_str("Draw"),
            GameResult::ViewingPosition => String::from_str("Viewing Position"),
        }
    }
}

/// The winner of the three cells at flat indices i, j and k, if they all
/// hold the same symbol.
pub open spec fn tri_winner(b: Seq<Option<PlayerSymbol>>, i: int, j: int, k: int) -> Option<
    PlayerSymbol,
> {
    if b[i] is Some && b[i] == b[j] && b[j] == b[k] {
        b[i]
    } else {
        None
    }
}

/// The eight lines in the scan order of the terminal-state check: column i
/// and row i alternating for i in 0..3, then the main diagonal, then the
/// anti-diagonal. Cell (x, y) sits at flat index `y * 3 + x`.
pub open spec fn line_winner(b: Seq<Option<PlayerSymbol>>, k: int) -> Option<PlayerSymbol> {
    if k == 0 {
        tri_winner(b, 0, 3, 6)
    } else if k == 1 {
        tri_winner(b, 0, 1, 2)
    } else if k == 2 {
        tri_winner(b, 1, 4, 7)
    } else if k == 3 {
        tri_winner(b, 3, 4, 5)
    } else if k == 4 {
        tri_winner(b, 2, 5, 8)
    } else if k == 5 {
        tri_winner(b, 6, 7, 8)
    } else if k == 6 {
        tri_winner(b, 0, 4, 8)
    } else {
        tri_winner(b, 2, 4, 6)
    }
}

/// The first winning line at or after line index k, in scan order.
pub open spec fn winner_from(b: Seq<Option<PlayerSymbol>>, k: int) -> Option<PlayerSymbol>
    decreases 8 - k,
{
    if k >= 8 {
        None
    } else if line_winner(b, k) is Some {
        line_winner(b, k)
    } else {
        winner_from(b, k + 1)
    }
}

/// The winning symbol of the first winning line, if any line is uniform.
pub open spec fn board_winner(b: Seq<Option<PlayerSymbol>>) -> Option<PlayerSymbol> {
    winner_from(b, 0)
}

pub open spec fn board_full(b: Seq<Option<PlayerSymbol>>) -> bool {
    forall|i: int| 0 <= i < 9 ==> b[i] is Some
}

pub open spec fn no_line_winner(b: Seq<Option<PlayerSymbol>>) -> bool {
    forall|k: int| 0 <= k < 8 ==> line_winner(b, k) is None
}

/// What the terminal-state check returns on board b: the first winning
/// line's symbol, a draw on a full board, and nothing otherwise.
pub open spec fn terminal_spec(b: Seq<Option<PlayerSymbol>>) -> Option<GameResult> {
    match board_winner(b) {
        Some(s) => Some(GameResult::Win(s)),
        None => if board_full(b) {
            Some(GameResult::Draw)
        } else {
            None
        },
    }
}

/// There is no winning line at or after index k exactly when every such
/// line fails to be uniform.
proof fn lemma_winner_from_none(b: Seq<Option<PlayerSymbol>>, k: int)
    requires
        0 <= k <= 8,
    ensures
        winner_from(b, k) is None <==> (forall|j: int| k <= j < 8 ==> line_winner(b, j) is None),
    decreases 8 - k,
{
    if k < 8 {
        lemma_winner_from_none(b, k + 1);
    }
}

/// The coordinate of flat board index k.
pub open spec fn coord_of(k: int) -> BoardCoordinate {
    (((k % 3) as usize), ((k / 3) as usize))
}

/// The empty coordinates among the first n cells, in row-major order.
pub open spec fn avail_upto(b: Seq<Option<PlayerSymbol>>, n: int) -> Seq<BoardCoordinate>
    decreases n,
{
    if n <= 0 {
        Seq::empty()
    } else if b[n - 1] is None {
        avail_upto(b, n - 1).push(coord_of(n - 1))
    } else {
        avail_upto(b, n - 1)
    }
}

/// The ordered sequence of all empty coordinates of board b.
pub open spec fn available(b: Seq<Option<PlayerSymbol>>) -> Seq<BoardCoordinate> {
    avail_upto(b, 9)
}

/// Every entry of `avail_upto` is an in-range coordinate of an empty cell,
/// and there are at most n of them.
pub proof fn lemma_avail_upto_props(b: Seq<Option<PlayerSymbol>>, n: int)
    requires
        0 <= n <= 9,
    ensures
        avail_upto(b, n).len() <= n,
        forall|t: int|
            0 <= t < avail_upto(b, n).len() ==> {
                let m = #[trigger] avail_upto(b, n)[t];
                m.0 < 3 && m.1 < 3 && b[(m.1 as int) * 3 + m.0 as int] is None
            },
    decreases n,
{
    if n > 0 {
        lemma_avail_upto_props(b, n - 1);
        if b[n - 1] is None {
            assert(((n - 1) / 3) * 3 + (n - 1) % 3 == n - 1) by (nonlinear_arith)
                requires
                    0 <= n - 1 < 9,
            ;
        }
    }
}

/// A board with an empty cell below n has at least one available move.
proof fn lemma_avail_upto_nonempty(b: Seq<Option<PlayerSymbol>>, n: int, k: int)
    requires
        0 <= k < n <= 9,
        b[k] is None,
    ensures
        avail_upto(b, n).len() > 0,
    decreases n,
{
    if k < n - 1 {
        lemma_avail_upto_nonempty(b, n - 1, k);
    }
}

/// Filling the empty cell k leaves the moves below n unchanged when n <= k,
/// and strictly shrinks them when n > k.
proof fn lemma_avail_upto_update(b: Seq<Option<PlayerSymbol>>, k: int, s: PlayerSymbol, n: int)
    requires
        b.len() == 9,
        0 <= k < 9,
        0 <= n <= 9,
        b[k] is None,
    ensures
        n <= k ==> avail_upto(b.update(k, Some(s)), n) == avail_upto(b, n),
        n > k ==> avail_upto(b.update(k, Some(s)), n).len() < avail_upto(b, n).len(),
    decreases n,
{
    if n > 0 {
        lemma_avail_upto_update(b, k, s, n - 1);
    }
}

/// Filling an empty cell strictly shrinks the available moves.
pub proof fn lemma_available_update(b: Seq<Option<PlayerSymbol>>, k: int, s: PlayerSymbol)
    requires
        b.len() == 9,
        0 <= k < 9,
        b[k] is None,
    ensures
        available(b.update(k, Some(s))).len() < available(b).len(),
{
    lemma_avail_upto_update(b, k, s, 9);
}

/// A board that is not full has at least one available move.
pub proof fn lemma_available_nonempty(b: Seq<Option<PlayerSymbol>>)
    requires
        !board_full(b),
    ensures
        available(b).len() > 0,
{
    let k = choose|k: int| 0 <= k < 9 && !(b[k] is Some);
    lemma_avail_upto_nonempty(b, 9, k);
}

/// The moves below n on a board whose first n cells are all empty are
/// exactly the first n coordinates in row-major order.
proof fn lemma_avail_upto_all_empty(b: Seq<Option<PlayerSymbol>>, n: int)
    requires
        0 <= n <= 9,
        forall|i: int| 0 <= i < n ==> b[i] is None,
    ensures
        avail_upto(b, n).len() == n,
        forall|k: int| 0 <= k < n ==> #[trigger] avail_upto(b, n)[k] == coord_of(k),
    decreases n,
{
    if n > 0 {
        lemma_avail_upto_all_empty(b, n - 1);
    }
}

/// On an empty board there are exactly 9 available moves, listed in
/// row-major order.
pub proof fn lemma_empty_board_available_moves(g: Game)
    requires
        forall|i: int| 0 <= i < 9 ==> g.board()[i] is None,
    ensures
        available(g.board()).len() == 9,
        forall|k: int| 0 <= k < 9 ==> #[trigger] available(g.board())[k] == coord_of(k),
{
    lemma_avail_upto_all_empty(g.board(), 9);
}

/// The character encoding one cell in a position string: 'N' for empty,
/// 'X' for Cross, 'O' for Nought.
pub open spec fn cell_char(c: Option<PlayerSymbol>) -> char {
    match c {
        None => 'N',
        Some(PlayerSymbol::Cross) => 'X',
        Some(PlayerSymbol::Nought) => 'O',
    }
}

pub open spec fn is_cell_char(ch: char) -> bool {
    ch == 'N' || ch == 'X' || ch == 'O'
}

/// The cell a position character denotes.
pub open spec fn char_cell(ch: char) -> Option<PlayerSymbol> {
    if ch == 'X' {
        Some(PlayerSymbol::Cross)
    } else if ch == 'O' {
        Some(PlayerSymbol::Nought)
    } else {
        None
    }
}

pub open spec fn is_digit_char(ch: char) -> bool {
    48 <= ch as u32 <= 57
}

/// The value of a decimal digit character.
pub open spec fn digit_val(ch: char) -> int {
    ch as u32 - 48
}

/// The digit character of d, for d in 0..=9.
pub open spec fn digit_char(d: int) -> char {
    if d == 0 {
        '0'
    } else if d == 1 {
        '1'
    } else if d == 2 {
        '2'
    } else if d == 3 {
        '3'
    } else if d == 4 {
        '4'
    } else if d == 5 {
        '5'
    } else if d == 6 {
        '6'
    } else if d == 7 {
        '7'
    } else if d == 8 {
        '8'
    } else {
        '9'
    }
}

/// The encoded position string of a board and a last move: nine cell
/// characters row-major, then '/', then the last-move digits, x before y.
pub open spec fn position_id_spec(b: Seq<Option<PlayerSymbol>>, last: BoardCoordinate) -> Seq<
    char,
> {
    Seq::new(9, |i: int| cell_char(b[i])) + seq!['/'] + seq![
        digit_char(last.0 as int),
        digit_char(last.1 as int),
    ]
}

/// A well-formed position string: nine cell characters, a '/', two digits.
pub open spec fn valid_position(s: Seq<char>) -> bool {
    &&& s.len() == 12
    &&& forall|i: int| 0 <= i < 9 ==> is_cell_char(#[trigger] s[i])
    &&& s[9] == '/'
    &&& is_digit_char(s[10])
    &&& is_digit_char(s[11])
}

/// The board a valid position string denotes.
pub open spec fn decoded_board(s: Seq<char>) -> Seq<Option<PlayerSymbol>> {
    Seq::new(9, |i: int| char_cell(s[i]))
}

/// The last move a valid position string denotes.
pub open spec fn decoded_last(s: Seq<char>) -> BoardCoordinate {
    ((digit_val(s[10]) as usize), (digit_val(s[11]) as usize))
}

/// Encoding a position and decoding the result reproduces the same board
/// contents and the same last move: every string `get_position_id` produces
/// is well formed and denotes the state it was produced from.
pub proof fn lemma_position_round_trip(g: Game)
    requires
        g.last_move().0 <= 9,
        g.last_move().1 <= 9,
    ensures
        valid_position(position_id_spec(g.board(), g.last_move())),
        decoded_board(position_id_spec(g.board(), g.last_move())) == g.board(),
        decoded_last(position_id_spec(g.board(), g.last_move())) == g.last_move(),
{
    lemma_board_len(g);
    let b = g.board();
    let s = position_id_spec(b, g.last_move());
    assert forall|i: int| 0 <= i < 9 implies is_cell_char(#[trigger] s[i]) by {
        assert(s[i] == cell_char(b[i]));
    }
    assert forall|i: int| 0 <= i < 9 implies #[trigger] decoded_board(s)[i] == b[i] by {
        assert(s[i] == cell_char(b[i]));
        assert(char_cell(cell_char(b[i])) == b[i]);
    }
    assert(decoded_board(s) =~= b);
    assert(s[10] == digit_char(g.last_move().0 as int));
    assert(s[11] == digit_char(g.last_move().1 as int));
}

/// Every game's board sequence has exactly 9 cells.
pub proof fn lemma_board_len(g: Game)
    ensures
        g.board().len() == 9,
{
}

/// The Unicode whitespace characters, the set `str::trim` removes.
pub open spec fn is_space_char(c: char) -> bool {
    let u = c as u32;
    (9 <= u <= 13) || u == 32 || u == 133 || u == 160 || u == 5760 || (8192 <= u <= 8202) || u
        == 8232 || u == 8233 || u == 8239 || u == 8287 || u == 12288
}

/// The comma-separated pieces of s, in order; n commas give n + 1 pieces,
/// empty pieces included.
pub open spec fn split_commas(s: Seq<char>) -> Seq<Seq<char>>
    decreases s.len(),
{
    if s.len() == 0 {
        seq![Seq::<char>::empty()]
    } else if s[0] == ',' {
        seq![Seq::<char>::empty()] + split_commas(s.skip(1))
    } else {
        let rest = split_commas(s.skip(1));
        seq![seq![s[0]] + rest[0]] + rest.skip(1)
    }
}

/// A split always yields at least one piece.
proof fn lemma_split_commas_nonempty(s: Seq<char>)
    ensures
        split_commas(s).len() >= 1,
    decreases s.len(),
{
    if s.len() > 0 {
        lemma_split_commas_nonempty(s.skip(1));
    }
}

/// s without its leading whitespace.
pub open spec fn trim_start(s: Seq<char>) -> Seq<char>
    decreases s.len(),
{
    if s.len() > 0 && is_space_char(s[0]) {
        trim_start(s.skip(1))
    } else {
        s
    }
}

/// s without its trailing whitespace.
pub open spec fn trim_end(s: Seq<char>) -> Seq<char>
    decreases s.len(),
{
    if s.len() > 0 && is_space_char(s.last()) {
        trim_end(s.drop_last())
    } else {
        s
    }
}

/// s without leading and trailing whitespace, as `str::trim` leaves it.
pub open spec fn trim(s: Seq<char>) -> Seq<char> {
    trim_end(trim_start(s))
}

/// The number the digit characters of s denote, most significant first.
pub open spec fn digits_val(s: Seq<char>) -> int
    decreases s.len(),
{
    if s.len() == 0 {
        0
    } else {
        digits_val(s.drop_last()) * 10 + digit_val(s.last())
    }
}

pub open spec fn all_digit_chars(s: Seq<char>) -> bool {
    forall|i: int| 0 <= i < s.len() ==> is_digit_char(#[trigger] s[i])
}

/// The body of an unsigned integer token: an optional leading '+' dropped.
pub open spec fn token_body(s: Seq<char>) -> Seq<char> {
    if s.len() > 0 && s[0] == '+' {
        s.skip(1)
    } else {
        s
    }
}

/// The value `str::parse::<usize>` accepts for a token: an optional '+',
/// then at least one digit, with the value fitting a usize.
pub open spec fn token_value(s: Seq<char>) -> Option<int> {
    let b = token_body(s);
    if b.len() > 0 && all_digit_chars(b) && digits_val(b) <= usize::MAX {
        Some(digits_val(b))
    } else {
        None
    }
}

/// Whether a line of move text is accepted: at least two comma-separated
/// tokens, every token a trimmed unsigned integer, and the first two at
/// most 2.
pub open spec fn input_accepted(s: Seq<char>) -> bool {
    let toks = split_commas(s);
    &&& toks.len() >= 2
    &&& forall|j: int| 0 <= j < toks.len() ==> token_value(trim(#[trigger] toks[j])) is Some
    &&& token_value(trim(toks[0]))->0 <= 2
    &&& token_value(trim(toks[1]))->0 <= 2
}

/// The value of every digit prefix is at most the value of the whole.
proof fn lemma_digits_val_nonneg(s: Seq<char>)
    requires
        all_digit_chars(s),
    ensures
        digits_val(s) >= 0,
    decreases s.len(),
{
    if s.len() > 0 {
        assert(all_digit_chars(s.drop_last()));
        lemma_digits_val_nonneg(s.drop_last());
    }
}

proof fn lemma_digits_val_monotone(s: Seq<char>, j: int)
    requires
        all_digit_chars(s),
        0 <= j <= s.len(),
    ensures
        digits_val(s.take(j)) <= digits_val(s),
    decreases s.len() - j,
{
    if j == s.len() {
        assert(s.take(j) =~= s);
    } else {
        lemma_digits_val_monotone(s, j + 1);
        assert(s.take(j + 1).drop_last() =~= s.take(j));
        assert(all_digit_chars(s.take(j)));
        lemma_digits_val_nonneg(s.take(j));
    }
}

/// Whether c is Unicode whitespace.
fn is_space(c: char) -> (r: bool)
    ensures
        r == is_space_char(c),
{
    let u = c as u32;
    (9 <= u && u <= 13) || u == 32 || u == 133 || u == 160 || u == 5760 || (8192 <= u && u
        <= 8202) || u == 8232 || u == 8233 || u == 8239 || u == 8287 || u == 12288
}

/// A copy of t without leading and trailing whitespace.
fn trim_token(t: &Vec<char>) -> (r: Vec<char>)
    ensures
        r@ == trim(t@),
{
    let n = t.len();
    let mut lo: usize = 0;
    assert(t@.skip(0) =~= t@);
    while lo < n && is_space(t[lo])
        invariant
            lo <= n,
            n == t@.len(),
            trim_start(t@) == trim_start(t@.skip(lo as int)),
        decreases n - lo,
    {
        proof {
            assert(t@.skip(lo as int).skip(1) =~= t@.skip(lo as int + 1));
        }
        lo += 1;
    }
    assert(trim_start(t@) == t@.skip(lo as int));
    let ghost s = t@.skip(lo as int);

    let mut hi: usize = n - lo;
    assert(s.take(hi as int) =~= s);
    while hi > 0 && is_space(t[lo + hi - 1])
        invariant
            lo + hi <= n,
            n == t@.len(),
            s == t@.skip(lo as int),
            trim_end(s) == trim_end(s.take(hi as int)),
        decreases hi,
    {
        proof {
            assert(s.take(hi as int).last() == t@[lo + hi - 1]);
            assert(s.take(hi as int).drop_last() =~= s.take(hi as int - 1));
        }
        hi -= 1;
    }
    assert(trim_end(s) == s.take(hi as int));

    let mut r: Vec<char> = Vec::new();
    let mut k: usize = 0;
    while k < hi
        invariant
            k <= hi,
            lo + hi <= n,
            n == t@.len(),
            s == t@.skip(lo as int),
            r@ == s.take(hi as int).take(k as int),
        decreases hi - k,
    {
        r.push(t[lo + k]);
        proof {
            assert(s.take(hi as int).take(k as int).push(t@[lo + k]) =~= s.take(hi as int).take(
                k as int + 1,
            ));
        }
        k += 1;
    }
    assert(r@ =~= trim(t@));
    r
}

/// The usize a token denotes, if `str::parse::<usize>` would accept it.
fn parse_coord(t: &Vec<char>) -> (r: Option<usize>)
    ensures
        r is Some <==> token_value(t@) is Some,
        r matches Some(v) ==> token_value(t@) == Some(v as int),
{
    let ghost b = token_body(t@);
    let start: usize = if t.len() > 0 && t[0] == '+' {
        1
    } else {
        0
    };
    assert(b =~= t@.skip(start as int));
    if t.len() == start {
        return None;
    }

    let mut val: usize = 0;
    let mut k: usize = start;
    assert(b.take(0) =~= Seq::<char>::empty());
    while k < t.len()
        invariant
            start <= k <= t@.len(),
            b == token_body(t@),
            b == t@.skip(start as int),
            b.len() == t@.len() - start,
            all_digit_chars(b.take(k - start)),
            val as int == digits_val(b.take(k - start)),
        decreases t@.len() - k,
    {
        let d = match digit_of(t[k]) {
            Some(d) => d,
            None => {
                assert(!is_digit_char(b[k - start]));
                return None;
            },
        };
        proof {
            assert(b.take(k - start + 1).drop_last() =~= b.take(k - start));
            assert(b.take(k - start + 1).last() == b[k - start]);
            assert(all_digit_chars(b.take(k - start + 1)));
        }
        let next = match val.checked_mul(10) {
            Some(v) => v,
            None => {
                proof {
                    lemma_digits_val_nonneg(b.take(k - start));
                    if all_digit_chars(b) {
                        lemma_digits_val_monotone(b, k - start + 1);
                    }
                }
                return None;
            },
        };
        val = match next.checked_add(d as usize) {
            Some(v) => v,
            None => {
                proof {
                    lemma_digits_val_nonneg(b.take(k - start));
                    if all_digit_chars(b) {
                        lemma_digits_val_monotone(b, k - start + 1);
                    }
                }
                return None;
            },
        };
        k += 1;
    }
    assert(b.take(k - start) =~= b);
    Some(val)
}

/// Parses free-form move text: splits on commas, trims whitespace, reads
/// two integers. Rejects the line with `InvalidInput` when fewer than two
/// tokens appear, any token is not an unsigned integer, or either of the
/// first two values exceeds 2.
pub fn parse_output(input: String) -> (r: Result<BoardCoordinate, GameError>)
    ensures
        r is Ok <==> input_accepted(input@),
        r matches Ok(c) ==> token_value(trim(split_commas(input@)[0])) == Some(c.0 as int) && c.0
            <= 2 && token_value(trim(split_commas(input@)[1])) == Some(c.1 as int) && c.1 <= 2,
        r is Err ==> r == Err::<BoardCoordinate, GameError>(GameError::InvalidInput),
{
    let s = input.as_str();
    let n = s.unicode_len();
    let mut chars: Vec<char> = Vec::new();
    let mut i: usize = 0;
    assert(chars@ =~= s@.take(0));
    while i < n
        invariant
            i <= n,
            n == s@.len(),
            s@ == input@,
            chars@ == s@.take(i as int),
        decreases n - i,
    {
        chars.push(s.get_char(i));
        proof {
            assert(s@.take(i as int).push(s@[i as int]) =~= s@.take(i as int + 1));
        }
        i += 1;
    }
    assert(chars@ =~= input@);

    let ghost pieces = split_commas(input@);
    let mut tokens: Vec<Vec<char>> = Vec::new();
    let mut cur: Vec<char> = Vec::new();
    let mut j: usize = 0;
    while j < chars.len()
        invariant
            j <= chars@.len(),
            chars@ == input@,
            pieces == split_commas(input@),
            pieces =~~= tokens@.map_values(|t: Vec<char>| t@) + seq![
                cur@ + split_commas(chars@.skip(j as int))[0],
            ] + split_commas(chars@.skip(j as int)).skip(1),
        decreases chars@.len() - j,
    {
        let ghost before = split_commas(chars@.skip(j as int));
        proof {
            lemma_split_commas_nonempty(chars@.skip(j as int + 1));
            assert(chars@.skip(j as int)[0] == chars@[j as int]);
            assert(chars@.skip(j as int).skip(1) =~= chars@.skip(j as int + 1));
        }
        let ch = chars[j];
        if ch == ',' {
            tokens.push(cur);
            cur = Vec::new();
            proof {
                let after = split_commas(chars@.skip(j as int + 1));
                assert(before =~~= seq![Seq::<char>::empty()] + after);
                assert((seq![Seq::<char>::empty()] + after).skip(1) =~~= after);
            }
        } else {
            cur.push(ch);
            proof {
                let after = split_commas(chars@.skip(j as int + 1));
                assert(before =~~= seq![seq![chars@[j as int]] + after[0]] + after.skip(1));
                assert((seq![seq![chars@[j as int]] + after[0]] + after.skip(1)).skip(1) =~~= after
                    .skip(1));
            }
        }
        j += 1;
    }
    proof {
        assert(chars@.skip(j as int) =~= Seq::<char>::empty());
        assert(split_commas(Seq::<char>::empty()) =~~= seq![Seq::<char>::empty()]);
    }
    tokens.push(cur);
    assert(pieces =~~= tokens@.map_values(|t: Vec<char>| t@));

    let mut all_ok = true;
    let mut v0: usize = 0;
    let mut v1: usize = 0;
    let mut m: usize = 0;
    while m < tokens.len()
        invariant
            m <= tokens@.len(),
            pieces == split_commas(input@),
            pieces =~~= tokens@.map_values(|t: Vec<char>| t@),
            all_ok == (forall|q: int|
                0 <= q < m ==> token_value(trim(#[trigger] pieces[q])) is Some),
            m >= 1 && token_value(trim(pieces[0])) is Some ==> token_value(trim(pieces[0]))
                == Some(v0 as int),
            m >= 2 && token_value(trim(pieces[1])) is Some ==> token_value(trim(pieces[1]))
                == Some(v1 as int),
        decreases tokens@.len() - m,
    {
        assert(pieces[m as int] == tokens@[m as int]@);
        let tr = trim_token(&tokens[m]);
        match parse_coord(&tr) {
            Some(v) => {
                if m == 0 {
                    v0 = v;
                }
                if m == 1 {
                    v1 = v;
                }
            },
            None => {
                all_ok = false;
            },
        }
        m += 1;
    }

    if !all_ok || tokens.len() < 2 {
        return Err(GameError::InvalidInput);
    }
    if v0 > 2 || v1 > 2 {
        return Err(GameError::InvalidInput);
    }
    Ok((v0, v1))
}

/// The character a cell shows on the rendered grid: the symbol's letter,
/// or a space for an empty cell.
pub open spec fn display_char(c: Option<PlayerSymbol>) -> char {
    match c {
        None => ' ',
        Some(PlayerSymbol::Cross) => 'X',
        Some(PlayerSymbol::Nought) => 'O',
    }
}

/// The letter of a symbol: 'X' for Cross, 'O' for Nought.
pub open spec fn symbol_char(s: PlayerSymbol) -> char {
    match s {
        PlayerSymbol::Cross => 'X',
        PlayerSymbol::Nought => 'O',
    }
}

/// The display text of a game result.
pub open spec fn result_text(r: GameResult) -> Seq<char> {
    match r {
        GameResult::Win(s) => "Player "@ + seq![symbol_char(s)] + " wins"@,
        GameResult::Draw => "Draw"@,
        GameResult::ViewingPosition => "Viewing Position"@,
    }
}

/// One rendered grid row: the three cell characters joined by bars.
pub open spec fn row_text(b: Seq<Option<PlayerSymbol>>, y: int) -> Seq<char> {
    seq![display_char(b[3 * y])] + " \u{2502} "@ + seq![display_char(b[3 * y + 1])]
        + " \u{2502} "@ + seq![display_char(b[3 * y + 2])]
}

/// The rendered board shown while a game runs: the grid beside the position
/// string, the turn counter, whose move it is, and the move prompt.
pub open spec fn board_text(g: Game) -> Seq<char> {
    "\n    "@ + row_text(g.board(), 0) + "       Tic Tac Toe    Position ID: "@
        + position_id_spec(g.board(), g.last_move())
        + "\n    \u{2500}\u{2500}\u{253c}\u{2500}\u{2500}\u{2500}\u{253c}\u{2500}\u{2500}\n    "@
        + row_text(g.board(), 1)
        + "       Turn 0\n    \u{2500}\u{2500}\u{253c}\u{2500}\u{2500}\u{2500}\u{253c}\u{2500}\u{2500}       Current player: "@
        + seq![symbol_char(g.turn())] + "\n    "@ + row_text(g.board(), 2) + "       Move (x, y): "@
}

/// The rendered board shown when a game has ended or a position is viewed:
/// the grid beside the position string and the result's text.
pub open spec fn game_over_text(g: Game, result: GameResult) -> Seq<char> {
    "\n"@ + row_text(g.board(), 0) + "       Tic Tac Toe    Position ID: "@
        + position_id_spec(g.board(), g.last_move())
        + "\n\u{2500}\u{2500}\u{253c}\u{2500}\u{2500}\u{2500}\u{253c}\u{2500}\u{2500}\n"@
        + row_text(g.board(), 1)
        + "       Game OVER\n\u{2500}\u{2500}\u{253c}\u{2500}\u{2500}\u{2500}\u{253c}\u{2500}\u{2500}       "@
        + result_text(result) + "\n"@ + row_text(g.board(), 2)
}

/// The grid character of one cell.
fn display_code(c: Option<PlayerSymbol>) -> (s: &'static str)
    ensures
        s@ == seq![display_char(c)],
{
    match c {
        None => {
            proof {
                reveal_strlit(" ");
                assert(" "@ =~= seq![display_char(c)]);
            }
            " "
        },
        Some(PlayerSymbol::Cross) => {
            proof {
                reveal_strlit("X");
                assert("X"@ =~= seq![display_char(c)]);
            }
            "X"
        },
        Some(PlayerSymbol::Nought) => {
            proof {
                reveal_strlit("O");
                assert("O"@ =~= seq![display_char(c)]);
            }
            "O"
        },
    }
}

/// The position character of one cell.
fn cell_code(c: Option<PlayerSymbol>) -> (s: &'static str)
    ensures
        s@ == seq![cell_char(c)],
{
    match c {
        None => {
            proof {
                reveal_strlit("N");
                assert("N"@ =~= seq![cell_char(c)]);
            }
            "N"
        },
        Some(PlayerSymbol::Cross) => {
            proof {
                reveal_strlit("X");
                assert("X"@ =~= seq![cell_char(c)]);
            }
            "X"
        },
        Some(PlayerSymbol::Nought) => {
            proof {
                reveal_strlit("O");
                assert("O"@ =~= seq![cell_char(c)]);
            }
            "O"
        },
    }
}

/// The one-character string of a decimal digit.
fn digit_code(d: usize) -> (s: &'static str)
    requires
        d <= 9,
    ensures
        s@ == seq![digit_char(d as int)],
{
    proof {
        reveal_strlit("0");
        reveal_strlit("1");
        reveal_strlit("2");
        reveal_strlit("3");
        reveal_strlit("4");
        reveal_strlit("5");
        reveal_strlit("6");
        reveal_strlit("7");
        reveal_strlit("8");
        reveal_strlit("9");
    }
    if d == 0 {
        proof {
            assert("0"@ =~= seq![digit_char(d as int)]);
        }
        "0"
    } else if d == 1 {
        proof {
            assert("1"@ =~= seq![digit_char(d as int)]);
        }
        "1"
    } else if d == 2 {
        proof {
            assert("2"@ =~= seq![digit_char(d as int)]);
        }
        "2"
    } else if d == 3 {
        proof {
            assert("3"@ =~= seq![digit_char(d as int)]);
        }
        "3"
    } else if d == 4 {
        proof {
            assert("4"@ =~= seq![digit_char(d as int)]);
        }
        "4"
    } else if d == 5 {
        proof {
            assert("5"@ =~= seq![digit_char(d as int)]);
        }
        "5"
    } else if d == 6 {
        proof {
            assert("6"@ =~= seq![digit_char(d as int)]);
        }
        "6"
    } else if d == 7 {
        proof {
            assert("7"@ =~= seq![digit_char(d as int)]);
        }
        "7"
    } else if d == 8 {
        proof {
            assert("8"@ =~= seq![digit_char(d as int)]);
        }
        "8"
    } else {
        proof {
            assert("9"@ =~= seq![digit_char(d as int)]);
        }
        "9"
    }
}

/// The value of a decimal digit character, if it is one.
fn digit_of(c: char) -> (r: Option<u8>)
    ensures
        r is Some <==> is_digit_char(c),
        r matches Some(d) ==> d as int == digit_val(c) && d <= 9,
{
    let u = c as u32;
    if 48 <= u && u <= 57 {
        Some((u - 48) as u8)
    } else {
        None
    }
}

/// Complete game state: the 3x3 grid, whose turn it is, and the most
/// recently placed coordinate.
///
/// The grid is stored row-major: cell (x, y) sits at index `y * 3 + x`.
#[derive(Clone, Copy, Debug)]
pub struct Game {
    current_player: PlayerSymbol,
    board_layout: [Option<PlayerSymbol>; 9],
    last_played: BoardCoordinate,
}

impl Game {
    /// Both last-move coordinates stay single decimal digits, so the encoded
    /// position string always carries exactly one character per coordinate.
    #[verifier::type_invariant]
    spec fn wf(self) -> bool {
        self.last_played.0 <= 9 && self.last_played.1 <= 9
    }

    /// The board contents as a row-major sequence of 9 cells.
    pub closed spec fn board(self) -> Seq<Option<PlayerSymbol>> {
        self.board_layout@
    }

    /// Whose turn it is.
    pub closed spec fn turn(self) -> PlayerSymbol {
        self.current_player
    }

    /// The most recently placed coordinate.
    pub closed spec fn last_move(self) -> BoardCoordinate {
        self.last_played
    }

    pub fn new() -> (g: Self)
        ensures
            g.board() =~= Seq::new(9, |i: int| None::<PlayerSymbol>),
            g.turn() == PlayerSymbol::Cross,
            g.last_move() == (0usize, 0usize),
    {
        Self {
            current_player: PlayerSymbol::Cross,
            board_layout: [None, None, None, None, None, None, None, None, None],
            last_played: (0, 0),
        }
    }

    pub fn get_current_player(&self) -> (r: PlayerSymbol)
        ensures
            r == self.turn(),
    {
        self.current_player
    }

    /// Reads the cell at (x, y).
    pub fn get_cell(&self, x: usize, y: usize) -> (r: Option<PlayerSymbol>)
        requires
            x < 3,
            y < 3,
        ensures
            r == self.board()[y * 3 + x],
    {
        self.board_layout[y * 3 + x]
    }

    /// Overwrites the cell at (x, y) without touching the turn or the last
    /// move, as the speculative moves of the search do.
    pub fn set_cell(&mut self, x: usize, y: usize, value: Option<PlayerSymbol>)
        requires
            x < 3,
            y < 3,
        ensures
            final(self).board() == old(self).board().update(y * 3 + x, value),
            final(self).turn() == old(self).turn(),
            final(self).last_move() == old(self).last_move(),
    {
        proof {
            use_type_invariant(&*self);
        }
        self.board_layout[y * 3 + x] = value;
    }

    /// Places the current player's symbol at (x, y), switches the turn and
    /// records the move. A move aimed at an occupied cell changes nothing
    /// and reports `OccupiedCell`.
    pub fn add_symbol(&mut self, x: usize, y: usize) -> (r: Result<(), GameError>)
        requires
            x < 3,
            y < 3,
        ensures
            old(self).board()[y * 3 + x] is None ==> r is Ok
                && final(self).board() == old(self).board().update(y * 3 + x, Some(old(self).turn()))
                && final(self).turn() == old(self).turn().other()
                && final(self).last_move() == (x, y),
            old(self).board()[y * 3 + x] is Some ==> r == Err::<(), GameError>(
                GameError::OccupiedCell,
            ) && *final(self) == *old(self),
    {
        proof {
            use_type_invariant(&*self);
        }
        if self.board_layout[y * 3 + x].is_some() {
            return Err(GameError::OccupiedCell);
        }

        self.board_layout[y * 3 + x] = Some(self.current_player);
        self.current_player = self.current_player.switch();
        self.last_played = (x, y);
        Ok(())
    }

    /// The terminal-state check: the first winning line in scan order, a
    /// draw on a full board without one, and nothing on a live board. It
    /// never returns `ViewingPosition`.
    pub fn game_over(&self) -> (r: Option<GameResult>)
        ensures
            r == terminal_spec(self.board()),
            r == Some(GameResult::Draw) <==> board_full(self.board()) && no_line_winner(
                self.board(),
            ),
            r != Some(GameResult::ViewingPosition),
    {
        let ghost b = self.board();
        let mut i: usize = 0;
        while i < 3
            invariant
                i <= 3,
                board_winner(b) == winner_from(b, 2 * i as int),
                b == self.board(),
            decreases 3 - i,
        {
            let (c0, c1, c2) = (
                self.board_layout[i],
                self.board_layout[3 + i],
                self.board_layout[6 + i],
            );
            if let (Some(a0), Some(a1), Some(a2)) = (c0, c1, c2) {
                if a0 == a1 && a1 == a2 {
                    assert(line_winner(b, 2 * i as int) == Some(a0));
                    assert(winner_from(b, 2 * i as int) == Some(a0));
                    proof {
                        lemma_winner_from_none(b, 0);
                    }
                    return Some(GameResult::Win(a0));
                }
            }
            assert(line_winner(b, 2 * i as int) is None);

            let (r0, r1, r2) = (
                self.board_layout[3 * i],
                self.board_layout[3 * i + 1],
                self.board_layout[3 * i + 2],
            );
            if let (Some(a0), Some(a1), Some(a2)) = (r0, r1, r2) {
                if a0 == a1 && a1 == a2 {
                    assert(line_winner(b, 2 * i as int + 1) == Some(a0));
                    assert(winner_from(b, 2 * i as int) == winner_from(b, 2 * i as int + 1));
                    assert(winner_from(b, 2 * i as int + 1) == Some(a0));
                    proof {
                        lemma_winner_from_none(b, 0);
                    }
                    return Some(GameResult::Win(a0));
                }
            }
            assert(line_winner(b, 2 * i as int + 1) is None);
            assert(winner_from(b, 2 * i as int) == winner_from(b, 2 * i as int + 1));
            assert(winner_from(b, 2 * i as int + 1) == winner_from(b, 2 * i as int + 2));
            i += 1;
        }

        if let (Some(a0), Some(a1), Some(a2)) = (
            self.board_layout[0],
            self.board_layout[4],
            self.board_layout[8],
        ) {
            if a0 == a1 && a1 == a2 {
                assert(line_winner(b, 6) == Some(a0));
                assert(winner_from(b, 6) == Some(a0));
                proof {
                    lemma_winner_from_none(b, 0);
                }
                return Some(GameResult::Win(a0));
            }
        }
        assert(line_winner(b, 6) is None);
        assert(winner_from(b, 6) == winner_from(b, 7));

        if let (Some(a0), Some(a1), Some(a2)) = (
            self.board_layout[2],
            self.board_layout[4],
            self.board_layout[6],
        ) {
            if a0 == a1 && a1 == a2 {
                assert(line_winner(b, 7) == Some(a0));
                assert(winner_from(b, 7) == Some(a0));
                proof {
                    lemma_winner_from_none(b, 0);
                }
                return Some(GameResult::Win(a0));
            }
        }
        assert(line_winner(b, 7) is None);
        assert(winner_from(b, 7) == winner_from(b, 8));
        assert(winner_from(b, 8) is None);
        assert(board_winner(b) is None);
        proof {
            lemma_winner_from_none(b, 0);
        }

        let mut full = true;
        let mut j: usize = 0;
        while j < 9
            invariant
                j <= 9,
                full == (forall|t: int| 0 <= t < j ==> b[t] is Some),
                b == self.board(),
            decreases 9 - j,
        {
            if self.board_layout[j].is_none() {
                full = false;
            }
            j += 1;
        }

        if full {
            Some(GameResult::Draw)
        } else {
            None
        }
    }

    /// The ordered sequence of all empty coordinates, enumerated row by row.
    pub fn get_available_moves(&self) -> (moves: Vec<BoardCoordinate>)
        ensures
            moves@ == available(self.board()),
    {
        let ghost b = self.board();
        let mut moves: Vec<BoardCoordinate> = Vec::new();
        let mut y: usize = 0;
        while y < 3
            invariant
                y <= 3,
                moves@ == avail_upto(b, 3 * y as int),
                b == self.board(),
            decreases 3 - y,
        {
            let mut x: usize = 0;
            while x < 3
                invariant
                    x <= 3,
                    y < 3,
                    moves@ == avail_upto(b, 3 * y as int + x as int),
                    b == self.board(),
                decreases 3 - x,
            {
                if self.board_layout[y * 3 + x].is_none() {
                    moves.push((x, y));
                    assert(coord_of(3 * y as int + x as int) == (x, y)) by (nonlinear_arith)
                        requires
                            x < 3,
                            y < 3,
                    ;
                }
                x += 1;
            }
            y += 1;
        }
        moves
    }

    /// The encoded position string: nine cell characters in row-major order,
    /// then '/', then the last-move digits, x before y.
    pub fn get_position_id(&self) -> (r: String)
        ensures
            r@ == position_id_spec(self.board(), self.last_move()),
    {
        proof {
            use_type_invariant(&*self);
        }
        let ghost b = self.board();
        let mut id = String::new();
        assert(id@ =~= Seq::new(0, |i: int| cell_char(b[i])));
        let mut k: usize = 0;
        while k < 9
            invariant
                k <= 9,
                b == self.board(),
                self.wf(),
                id@ == Seq::new(k as nat, |i: int| cell_char(b[i])),
            decreases 9 - k,
        {
            let piece = cell_code(self.board_layout[k]);
            id.append(piece);
            assert(id@ =~= Seq::new((k + 1) as nat, |i: int| cell_char(b[i])));
            k += 1;
        }
        id.append("/");
        id.append(digit_code(self.last_played.0));
        id.append(digit_code(self.last_played.1));
        proof {
            reveal_strlit("/");
            assert(id@ =~= position_id_spec(b, self.last_move()));
        }
        id
    }

    /// Decodes a position string, fully replacing the board contents and the
    /// last move. The turn is deliberately left untouched: decoded positions
    /// serve viewing, not continued play. A malformed string reports
    /// `InvalidFormat` and changes nothing.
    pub fn set_position_id(&mut self, position_id: String) -> (r: Result<(), GameError>)
        ensures
            r is Ok <==> valid_position(position_id@),
            r is Ok ==> final(self).board() == decoded_board(position_id@)
                && final(self).last_move() == decoded_last(position_id@)
                && final(self).turn() == old(self).turn(),
            r is Err ==> r == Err::<(), GameError>(GameError::InvalidFormat) && *final(self)
                == *old(self),
    {
        proof {
            use_type_invariant(&*self);
        }
        let s = position_id.as_str();
        if s.unicode_len() != 12 {
            return Err(GameError::InvalidFormat);
        }
        if s.get_char(9) != '/' {
            return Err(GameError::InvalidFormat);
        }
        let d0 = match digit_of(s.get_char(10)) {
            Some(d) => d,
            None => {
                return Err(GameError::InvalidFormat);
            },
        };
        let d1 = match digit_of(s.get_char(11)) {
            Some(d) => d,
            None => {
                return Err(GameError::InvalidFormat);
            },
        };

        let mut cells: [Option<PlayerSymbol>; 9] = [
            None,
            None,
            None,
            None,
            None,
            None,
            None,
            None,
            None,
        ];
        let mut k: usize = 0;
        while k < 9
            invariant
                k <= 9,
                s@ == position_id@,
                s@.len() == 12,
                *self == *old(self),
                forall|i: int|
                    0 <= i < k ==> is_cell_char(#[trigger] s@[i]) && cells@[i] == char_cell(s@[i]),
            decreases 9 - k,
        {
            let ch = s.get_char(k);
            if ch == 'N' {
                cells[k] = None;
            } else if ch == 'X' {
                cells[k] = Some(PlayerSymbol::Cross);
            } else if ch == 'O' {
                cells[k] = Some(PlayerSymbol::Nought);
            } else {
                return Err(GameError::InvalidFormat);
            }
            k += 1;
        }

        self.board_layout = cells;
        self.last_played = (d0 as usize, d1 as usize);
        assert(self.board() =~= decoded_board(position_id@));
        Ok(())
    }

    /// One rendered row of the grid.
    fn row_string(&self, y: usize) -> (r: String)
        requires
            y < 3,
        ensures
            r@ == row_text(self.board(), y as int),
    {
        let mut r = String::new();
        r.append(display_code(self.board_layout[y * 3]));
        r.append(" \u{2502} ");
        r.append(display_code(self.board_layout[y * 3 + 1]));
        r.append(" \u{2502} ");
        r.append(display_code(self.board_layout[y * 3 + 2]));
        proof {
            assert(r@ =~= row_text(self.board(), y as int));
        }
        r
    }

    /// The rendered board shown while the game runs: the grid, the encoded
    /// position, the turn counter, whose move it is, and the move prompt.
    pub fn get_board_formatted(&self) -> (r: String)
        ensures
            r@ == board_text(*self),
    {
        let id = self.get_position_id();
        let row0 = self.row_string(0);
        let row1 = self.row_string(1);
        let row2 = self.row_string(2);
        let player = self.get_current_player().to_string();
        let mut out = String::new();
        out.append("\n    ");
        out.append(row0.as_str());
        out.append("       Tic Tac Toe    Position ID: ");
        out.append(id.as_str());
        out.append("\n    \u{2500}\u{2500}\u{253c}\u{2500}\u{2500}\u{2500}\u{253c}\u{2500}\u{2500}\n    ");
        out.append(row1.as_str());
        out.append("       Turn 0\n    \u{2500}\u{2500}\u{253c}\u{2500}\u{2500}\u{2500}\u{253c}\u{2500}\u{2500}       Current player: ");
        out.append(player.as_str());
        out.append("\n    ");
        out.append(row2.as_str());
        out.append("       Move (x, y): ");
        proof {
            assert(out@ =~= board_text(*self));
        }
        out
    }

    /// The rendered board shown when the game has ended or a position is
    /// being viewed, with the given result's text.
    pub fn get_game_over_formatted(&self, result: GameResult) -> (r: String)
        ensures
            r@ == game_over_text(*self, result),
    {
        let id = self.get_position_id();
        let row0 = self.row_string(0);
        let row1 = self.row_string(1);
        let row2 = self.row_string(2);
        let rtext = result.to_string();
        let mut out = String::new();
        out.append("\n");
        out.append(row0.as_str());
        out.append("       Tic Tac Toe    Position ID: ");
        out.append(id.as_str());
        out.append("\n\u{2500}\u{2500}\u{253c}\u{2500}\u{2500}\u{2500}\u{253c}\u{2500}\u{2500}\n");
        out.append(row1.as_str());
        out.append("       Game OVER\n\u{2500}\u{2500}\u{253c}\u{2500}\u{2500}\u{2500}\u{253c}\u{2500}\u{2500}       ");
        out.append(rtext.as_str());
        out.append("\n");
        out.append(row2.as_str());
        proof {
            assert(out@ =~= game_over_text(*self, result));
        }
        out
    }
}

} // verus!
