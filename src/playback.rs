use vstd::prelude::*;

use crate::error::Error;
use crate::game::{replay, wins, GameState, StateModel};

verus! {

/// `moves` lead from `s` to a sorted state.
pub open spec fn solves(s: StateModel, moves: Seq<(usize, usize)>) -> bool {
    replay(s, moves) is Ok && wins(replay(s, moves)->Ok_0)
}

/// The states that replaying `moves` from `s` passes through: `s` first, then
/// the state after each move.
pub open spec fn playback_states(s: StateModel, moves: Seq<(usize, usize)>) -> Seq<StateModel> {
    Seq::new((moves.len() + 1) as nat, |i: int| replay(s, moves.take(i))->Ok_0)
}

/// Once a replay fails, a longer replay fails with the same error.
proof fn lemma_replay_error_persists(s: StateModel, moves: Seq<(usize, usize)>, i: int, e: Error)
    requires
        0 <= i <= moves.len(),
        replay(s, moves.take(i)) == Err::<StateModel, Error>(e),
    ensures
        replay(s, moves) == Err::<StateModel, Error>(e),
    decreases moves.len() - i,
{
    if i < moves.len() {
        assert(moves.take(i + 1).drop_last() =~= moves.take(i));
        lemma_replay_error_persists(s, moves, i + 1, e);
    } else {
        assert(moves.take(i) =~= moves);
    }
}

/// Replaying a solution passes through legal states only and ends sorted.
pub proof fn lemma_solution_replay_wins(s: StateModel, moves: Seq<(usize, usize)>)
    requires
        solves(s, moves),
    ensures
        forall|i: int| 0 <= i <= moves.len() ==> #[trigger] replay(s, moves.take(i)) is Ok,
        wins(playback_states(s, moves).last()),
{
    assert(moves.take(moves.len() as int) =~= moves);
    assert forall|i: int| 0 <= i <= moves.len() implies #[trigger] replay(s, moves.take(i)) is Ok by {
        if replay(s, moves.take(i)) is Err {
            lemma_replay_error_persists(s, moves, i, replay(s, moves.take(i))->Err_0);
        }
    }
}

/// Replays `moves` on a copy of `game_state`, one in-place move at a time, and
/// returns every state passed through: the given state first, then the state after
/// each move. The first refused move ends the replay with its error.
pub fn playback(moves: &Vec<(usize, usize)>, game_state: &GameState) -> (r: Result<Vec<GameState>, Error>)
    ensures
        r is Ok <==> replay(game_state@, moves@) is Ok,
        r is Ok ==> r->Ok_0@.map_values(|g: GameState| g@) == playback_states(game_state@, moves@),
        r is Err ==> replay(game_state@, moves@) == Err::<StateModel, Error>(r->Err_0),
{
    let mut state = game_state.duplicate();
    let mut states: Vec<GameState> = Vec::new();
    states.push(state.duplicate());
    assert(moves@.take(0) =~= Seq::<(usize, usize)>::empty());
    for i in 0..moves.len()
        invariant
            replay(game_state@, moves@.take(i as int)) == Ok::<StateModel, Error>(state@),
            states@.len() == i + 1,
            forall|k: int|
                0 <= k <= i ==> #[trigger] states@[k]@ == replay(game_state@, moves@.take(k))->Ok_0,
    {
        let (from, to) = moves[i];
        assert(moves@.take(i + 1).drop_last() =~= moves@.take(i as int));
        match state.make_move_in_place(from, to) {
            Err(e) => {
                proof {
                    lemma_replay_error_persists(game_state@, moves@, i + 1, e);
                }
                return Err(e);
            },
            Ok(()) => {},
        }
        states.push(state.duplicate());
    }
    assert(moves@.take(moves@.len() as int) =~= moves@);
    assert(states@.map_values(|g: GameState| g@) =~= playback_states(game_state@, moves@));
    Ok(states)
}

} // verus!
