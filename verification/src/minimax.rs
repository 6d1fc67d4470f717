use vstd::prelude::*;

use crate::game::available;
use crate::game::lemma_avail_upto_props;
use crate::game::lemma_available_nonempty;
use crate::game::lemma_available_update;
use crate::game::lemma_board_len;
use crate::game::terminal_spec;
use crate::game::BoardCoordinate;
use crate::game::Game;
use crate::game::GameResult;
use crate::game::PlayerSymbol;

verus! {

/// The score of a finished game from the automated player's side: a win for
/// Nought counts +1, a win for Cross -1, anything else 0.
pub open spec fn result_score(r: GameResult) -> int {
    match r {
        GameResult::Win(s) => if s == PlayerSymbol::Nought {
            1int
        } else {
            -1int
        },
        _ => 0int,
    }
}

/// The symbol the side currently searching places: the maximizing side plays
/// Nought, the minimizing side Cross.
pub open spec fn mover(maximizing: bool) -> PlayerSymbol {
    if maximizing {
        PlayerSymbol::Nought
    } else {
        PlayerSymbol::Cross
    }
}

/// The sentinel a search level starts from before it has scored any move.
pub open spec fn start_score(maximizing: bool) -> int {
    if maximizing {
        i32::MIN as int
    } else {
        i32::MAX as int
    }
}

/// Whether a newly scored move strictly beats the best score seen so far;
/// an equal score never displaces an earlier move.
pub open spec fn improves(maximizing: bool, score: int, best: int) -> bool {
    if maximizing {
        score > best
    } else {
        score < best
    }
}

/// The game-theoretic value of board b with the given side to place, and the
/// first move attaining it: a terminal board scores by `result_score` with no
/// move; any other board takes the best over its available moves.
pub open spec fn search_value(b: Seq<Option<PlayerSymbol>>, maximizing: bool) -> (
    int,
    Option<BoardCoordinate>,
)
    decreases available(b).len(), 10int,
{
    match terminal_spec(b) {
        Some(r) => (result_score(r), None),
        None => {
            proof {
                lemma_avail_upto_props(b, 9);
            }
            search_best(b, maximizing, available(b).len() as int)
        },
    }
}

/// The best score among the first n available moves of b, with the first
/// move attaining it; the sentinel and no move when none has been scored.
pub open spec fn search_best(b: Seq<Option<PlayerSymbol>>, maximizing: bool, n: int) -> (
    int,
    Option<BoardCoordinate>,
)
    decreases available(b).len(), n,
{
    if n <= 0 {
        (start_score(maximizing), None)
    } else {
        let prev = search_best(b, maximizing, n - 1);
        let mv = available(b)[n - 1];
        if b.len() == 9 && mv.0 < 3 && mv.1 < 3 && b[(mv.1 as int) * 3 + mv.0 as int] is None {
            proof {
                lemma_available_update(b, (mv.1 as int) * 3 + mv.0 as int, mover(maximizing));
            }
            let child = search_value(
                b.update((mv.1 as int) * 3 + mv.0 as int, Some(mover(maximizing))),
                !maximizing,
            );
            if improves(maximizing, child.0, prev.0) {
                (child.0, Some(mv))
            } else {
                prev
            }
        } else {
            prev
        }
    }
}

/// On a terminal board the search value is the fixed score with no move; on
/// a live board it lies between -1 and 1 and always carries a move.
pub proof fn lemma_search_value_bounds(b: Seq<Option<PlayerSymbol>>, maximizing: bool)
    requires
        b.len() == 9,
    ensures
        terminal_spec(b) matches Some(r) ==> search_value(b, maximizing) == (
            result_score(r),
            None::<BoardCoordinate>,
        ),
        terminal_spec(b) is None ==> -1 <= search_value(b, maximizing).0 <= 1 && search_value(
            b,
            maximizing,
        ).1 is Some,
    decreases available(b).len(), 10int,
{
    if terminal_spec(b) is None {
        lemma_avail_upto_props(b, 9);
        lemma_available_nonempty(b);
        lemma_search_best_bounds(b, maximizing, available(b).len() as int);
    }
}

/// The fold over the first n available moves starts at the sentinel and,
/// once a move has been scored, stays between -1 and 1 with a move attached.
proof fn lemma_search_best_bounds(b: Seq<Option<PlayerSymbol>>, maximizing: bool, n: int)
    requires
        b.len() == 9,
        0 <= n <= available(b).len(),
    ensures
        n == 0 ==> search_best(b, maximizing, n) == (
            start_score(maximizing),
            None::<BoardCoordinate>,
        ),
        n > 0 ==> -1 <= search_best(b, maximizing, n).0 <= 1 && search_best(b, maximizing, n).1
            is Some,
    decreases available(b).len(), n,
{
    if n > 0 {
        lemma_search_best_bounds(b, maximizing, n - 1);
        lemma_avail_upto_props(b, 9);
        let mv = available(b)[n - 1];
        let idx = (mv.1 as int) * 3 + mv.0 as int;
        lemma_available_update(b, idx, mover(maximizing));
        lemma_search_value_bounds(b.update(idx, Some(mover(maximizing))), !maximizing);
    }
}

/// Exhaustive minimax over every continuation of the current board. The
/// maximizing side plays Nought and prefers high scores; the minimizing side
/// plays Cross and prefers low ones; the first move reaching the best score
/// wins ties. The board is used as scratch space for speculative moves, but
/// every one of them is retracted: the state comes back unchanged.
pub fn minimax(game: &mut Game, is_maximizing: bool) -> (r: (i32, Option<BoardCoordinate>))
    ensures
        final(game).board() == old(game).board(),
        final(game).turn() == old(game).turn(),
        final(game).last_move() == old(game).last_move(),
        r.0 as int == search_value(old(game).board(), is_maximizing).0,
        r.1 == search_value(old(game).board(), is_maximizing).1,
        r.1 is Some <==> terminal_spec(old(game).board()) is None,
    decreases available(old(game).board()).len(),
{
    proof {
        lemma_board_len(*game);
        lemma_search_value_bounds(game.board(), is_maximizing);
    }
    let ghost b0 = game.board();

    if let Some(result) = game.game_over() {
        let score: i32 = match result {
            GameResult::Win(winner) => if winner == PlayerSymbol::Nought {
                1
            } else {
                -1
            },
            GameResult::Draw => 0,
            GameResult::ViewingPosition => 0,
        };
        return (score, None);
    }

    let moves = game.get_available_moves();
    let mut best_score: i32 = if is_maximizing {
        i32::MIN
    } else {
        i32::MAX
    };
    let mut best_move: Option<BoardCoordinate> = None;

    let mut j: usize = 0;
    while j < moves.len()
        invariant
            b0 == old(game).board(),
            b0.len() == 9,
            moves@ == available(b0),
            game.board() == b0,
            game.turn() == old(game).turn(),
            game.last_move() == old(game).last_move(),
            terminal_spec(b0) is None,
            j <= moves@.len(),
            best_score as int == search_best(b0, is_maximizing, j as int).0,
            best_move == search_best(b0, is_maximizing, j as int).1,
        decreases moves@.len() - j,
    {
        let (x, y) = moves[j];
        proof {
            lemma_avail_upto_props(b0, 9);
        }
        let sym = if is_maximizing {
            PlayerSymbol::Nought
        } else {
            PlayerSymbol::Cross
        };
        game.set_cell(x, y, Some(sym));
        proof {
            lemma_available_update(b0, y * 3 + x, sym);
        }
        let (score, _) = minimax(game, !is_maximizing);
        game.set_cell(x, y, None);
        assert(game.board() =~= b0);

        if is_maximizing {
            if score > best_score {
                best_score = score;
                best_move = Some((x, y));
            }
        } else {
            if score < best_score {
                best_score = score;
                best_move = Some((x, y));
            }
        }
        j += 1;
    }

    (best_score, best_move)
}

} // verus!
