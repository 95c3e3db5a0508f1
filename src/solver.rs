use vstd::prelude::*;

use crate::error::Error;
use crate::game::{apply_move, legal_moves, replay, valid_move, wins, GameState, StateModel};
use crate::playback::{lemma_solution_replay_wins, playback_states, solves};

verus! {

/// The most states the search expands before it gives up.
pub const EXPANSION_BUDGET: usize = 5000;

/// A frontier entry of the search model: the moves taken and the state reached.
pub type Node = (Seq<(usize, usize)>, StateModel);

/// A ranking of states: the state and the number of moves taken to reach it.
pub type Rank = spec_fn(StateModel, nat) -> u64;

/// Where the search stands: the frontier, the states expanded so far (in order),
/// how many expansions were made, and the moves of a sorted state once one is
/// popped.
pub struct SearchModel {
    pub frontier: Seq<Node>,
    pub visited: Seq<StateModel>,
    pub expanded: nat,
    pub found: Option<Seq<(usize, usize)>>,
}

/// `a` comes before `b`: a lower rank, or an equal rank and fewer moves.
pub open spec fn precedes(a: Node, b: Node, rank: Rank) -> bool {
    rank(a.1, a.0.len()) < rank(b.1, b.0.len()) || (rank(a.1, a.0.len()) == rank(b.1, b.0.len())
        && a.0.len() < b.0.len())
}

/// Entry `i` is the first one that no entry comes before.
pub open spec fn is_first_lowest(f: Seq<Node>, rank: Rank, i: int) -> bool {
    &&& 0 <= i < f.len()
    &&& forall|j: int| 0 <= j < f.len() ==> !precedes(#[trigger] f[j], f[i], rank)
    &&& forall|j: int| 0 <= j < i ==> precedes(f[i], #[trigger] f[j], rank)
}

/// The entry that the search expands next.
pub open spec fn first_lowest(f: Seq<Node>, rank: Rank) -> int {
    choose|i: int| is_first_lowest(f, rank, i)
}

/// The frontier after the moves `ms` of state `s` (reached by `path`) are tried
/// in order: each legal one whose result was not expanded yet is queued.
pub open spec fn expand(
    f: Seq<Node>,
    visited: Seq<StateModel>,
    s: StateModel,
    path: Seq<(usize, usize)>,
    ms: Seq<(usize, usize)>,
) -> Seq<Node>
    decreases ms.len(),
{
    if ms.len() == 0 {
        f
    } else {
        let f1 = expand(f, visited, s, path, ms.drop_last());
        let m = ms.last();
        match apply_move(s, m.0, m.1) {
            Ok(t) => if visited.contains(t) {
                f1
            } else {
                f1.push((path.push(m), t))
            },
            Err(_) => f1,
        }
    }
}

/// One round of the search: pop the first lowest entry and record it as
/// expanded; stop on a sorted state, else queue its successors. A search that has
/// found a solution, has an empty frontier, or has spent its budget stays put.
pub open spec fn search_step(st: SearchModel, rank: Rank) -> SearchModel {
    if st.found is Some || st.frontier.len() == 0 || st.expanded > EXPANSION_BUDGET as nat {
        st
    } else {
        let i = first_lowest(st.frontier, rank);
        let path = st.frontier[i].0;
        let s = st.frontier[i].1;
        let rest = st.frontier.remove(i);
        let visited = st.visited.push(s);
        if wins(s) {
            SearchModel { frontier: rest, visited, expanded: st.expanded, found: Some(path) }
        } else {
            SearchModel {
                frontier: expand(rest, visited, s, path, legal_moves(s)),
                visited,
                expanded: st.expanded + 1,
                found: None,
            }
        }
    }
}

pub open spec fn search_start(g: StateModel) -> SearchModel {
    SearchModel {
        frontier: seq![(Seq::<(usize, usize)>::empty(), g)],
        visited: Seq::empty(),
        expanded: 0,
        found: None,
    }
}

/// The search after `n` rounds from `g`.
pub open spec fn search_run(g: StateModel, rank: Rank, n: nat) -> SearchModel
    decreases n,
{
    if n == 0 {
        search_start(g)
    } else {
        search_step(search_run(g, rank, (n - 1) as nat), rank)
    }
}

/// The moves that the search returns: those of the sorted state it found, or
/// none. Every round but the last expands a state, so the budget bounds the
/// number of rounds.
pub open spec fn search_result(g: StateModel, rank: Rank) -> Seq<(usize, usize)> {
    match search_run(g, rank, EXPANSION_BUDGET as nat + 2).found {
        Some(moves) => moves,
        None => Seq::empty(),
    }
}

/// The closure `score` computes `rank`: whatever it returns for a state and a
/// number of moves is what `rank` gives for them.
pub open spec fn ranks_by<F: Fn(&GameState, usize) -> u64>(score: &F, rank: Rank) -> bool {
    forall|s: &GameState, n: usize, k: u64| #[trigger] score.ensures((s, n), k) ==> k == rank(s@, n as nat)
}

/// The search is a function of the puzzle and the ranking: two runs on the same
/// puzzle, with rankings that give every state the same rank, return the same
/// moves.
pub proof fn lemma_search_deterministic(g: StateModel, rank1: Rank, rank2: Rank)
    requires
        forall|s: StateModel, n: nat| #[trigger] rank1(s, n) == rank2(s, n),
    ensures
        search_result(g, rank1) == search_result(g, rank2),
{
    assert(rank1 =~= rank2);
}

/// A non-empty frontier has a first lowest entry.
proof fn lemma_first_lowest_exists(f: Seq<Node>, rank: Rank)
    requires
        f.len() > 0,
    ensures
        is_first_lowest(f, rank, first_lowest(f, rank)),
    decreases f.len(),
{
    if f.len() == 1 {
        assert(is_first_lowest(f, rank, 0));
    } else {
        let p = f.drop_last();
        lemma_first_lowest_exists(p, rank);
        let i = first_lowest(p, rank);
        let last = f.len() - 1;
        if precedes(f[last], f[i], rank) {
            assert forall|j: int| 0 <= j < last implies precedes(f[last], #[trigger] f[j], rank) by {
                assert(f[j] == p[j]);
                assert(!precedes(p[j], p[i], rank));
            }
            assert(is_first_lowest(f, rank, last));
        } else {
            assert forall|j: int| 0 <= j < f.len() implies !precedes(#[trigger] f[j], f[i], rank) by {
                if j < last {
                    assert(f[j] == p[j]);
                }
            }
            assert forall|j: int| 0 <= j < i implies precedes(f[i], #[trigger] f[j], rank) by {
                assert(f[j] == p[j]);
            }
            assert(is_first_lowest(f, rank, i));
        }
    }
}

/// Every entry of the frontier is reached from `g` by its moves, and a found
/// sequence sorts `g`.
pub open spec fn search_sound(g: StateModel, st: SearchModel) -> bool {
    &&& forall|i: int| 0 <= i < st.frontier.len() ==> replay(g, (#[trigger] st.frontier[i]).0) == Ok::<StateModel, Error>(st.frontier[i].1)
    &&& st.found is Some ==> solves(g, st.found->Some_0)
}

proof fn lemma_expand_sound(
    g: StateModel,
    f: Seq<Node>,
    visited: Seq<StateModel>,
    s: StateModel,
    path: Seq<(usize, usize)>,
    ms: Seq<(usize, usize)>,
)
    requires
        replay(g, path) == Ok::<StateModel, Error>(s),
        forall|i: int| 0 <= i < f.len() ==> replay(g, (#[trigger] f[i]).0) == Ok::<StateModel, Error>(f[i].1),
    ensures
        ({
            let e = expand(f, visited, s, path, ms);
            forall|i: int| 0 <= i < e.len() ==> replay(g, (#[trigger] e[i]).0) == Ok::<StateModel, Error>(e[i].1)
        }),
    decreases ms.len(),
{
    if ms.len() > 0 {
        lemma_expand_sound(g, f, visited, s, path, ms.drop_last());
        let m = ms.last();
        assert(path.push(m).drop_last() =~= path);
    }
}

proof fn lemma_run_sound(g: StateModel, rank: Rank, n: nat)
    ensures
        search_sound(g, search_run(g, rank, n)),
    decreases n,
{
    if n == 0 {
        assert(replay(g, Seq::<(usize, usize)>::empty()) == Ok::<StateModel, Error>(g));
    } else {
        let st = search_run(g, rank, (n - 1) as nat);
        lemma_run_sound(g, rank, (n - 1) as nat);
        if !(st.found is Some || st.frontier.len() == 0 || st.expanded > EXPANSION_BUDGET as nat) {
            lemma_first_lowest_exists(st.frontier, rank);
            let i = first_lowest(st.frontier, rank);
            let rest = st.frontier.remove(i);
            assert forall|k: int| 0 <= k < rest.len() implies replay(g, (#[trigger] rest[k]).0) == Ok::<StateModel, Error>(rest[k].1) by {
                if k < i {
                    assert(rest[k] == st.frontier[k]);
                } else {
                    assert(rest[k] == st.frontier[k + 1]);
                }
            }
            assert(replay(g, st.frontier[i].0) == Ok::<StateModel, Error>(st.frontier[i].1));
            if !wins(st.frontier[i].1) {
                lemma_expand_sound(g, rest, st.visited.push(st.frontier[i].1), st.frontier[i].1, st.frontier[i].0,
                    legal_moves(st.frontier[i].1));
            }
        }
    }
}

/// What the search returns, when it found something or the puzzle was sorted
/// already, replays from the puzzle through legal moves to a sorted state.
pub proof fn lemma_search_result_replays(g: StateModel, rank: Rank)
    requires
        search_result(g, rank).len() > 0 || wins(g),
    ensures
        replay(g, search_result(g, rank)) is Ok,
        wins(playback_states(g, search_result(g, rank)).last()),
{
    lemma_run_sound(g, rank, EXPANSION_BUDGET as nat + 2);
    let r = search_result(g, rank);
    if r.len() == 0 {
        assert(replay(g, r) == Ok::<StateModel, Error>(g));
    }
    assert(solves(g, r));
    lemma_solution_replay_wins(g, r);
}

/// A round that changes nothing is the last one.
proof fn lemma_run_settled(g: StateModel, rank: Rank, a: nat, b: nat)
    requires
        a <= b,
        search_step(search_run(g, rank, a), rank) == search_run(g, rank, a),
    ensures
        search_run(g, rank, b) == search_run(g, rank, a),
    decreases b - a,
{
    if b > a {
        lemma_run_settled(g, rank, a, (b - 1) as nat);
    }
}

/// The state reached from `g` after the first `k` of `moves`.
pub open spec fn state_after(g: StateModel, moves: Seq<(usize, usize)>, k: int) -> StateModel {
    replay(g, moves.take(k))->Ok_0
}

/// `moves` is a path of the search from `g`: every prefix replays, each move is
/// a legal move of the state it is made in, no state before the last is sorted,
/// and no state is passed through twice.
pub open spec fn sound_path(g: StateModel, moves: Seq<(usize, usize)>) -> bool {
    &&& forall|k: int| 0 <= k <= moves.len() ==> #[trigger] replay(g, moves.take(k)) is Ok
    &&& forall|k: int| 0 <= k < moves.len() ==> valid_move(state_after(g, moves, k), #[trigger] moves[k])
    &&& forall|k: int| 0 <= k < moves.len() ==> !wins(#[trigger] state_after(g, moves, k))
    &&& forall|a: int, b: int|
        0 <= a < b <= moves.len() ==> #[trigger] state_after(g, moves, a) != #[trigger] state_after(g, moves, b)
}

/// What holds of each queued entry: its moves reach its state along a sound
/// path whose earlier states were all expanded, and are at most `bound` long.
#[verifier::opaque]
spec fn entry_ok(
    g: StateModel,
    moves: Seq<(usize, usize)>,
    s: StateModel,
    visited: Seq<StateModel>,
    bound: nat,
) -> bool {
    &&& replay(g, moves) == Ok::<StateModel, Error>(s)
    &&& sound_path(g, moves)
    &&& forall|k: int| 0 <= k < moves.len() ==> visited.contains(#[trigger] state_after(g, moves, k))
    &&& moves.len() <= bound
}

proof fn lemma_entry_grow(
    g: StateModel,
    moves: Seq<(usize, usize)>,
    s: StateModel,
    visited: Seq<StateModel>,
    x: StateModel,
    b1: nat,
    b2: nat,
)
    requires
        entry_ok(g, moves, s, visited, b1),
        b1 <= b2,
    ensures
        entry_ok(g, moves, s, visited.push(x), b2),
{
    reveal(entry_ok);
    assert forall|k: int| 0 <= k < moves.len() implies visited.push(x).contains(#[trigger] state_after(g, moves, k)) by {
        let i = choose|i: int| 0 <= i < visited.len() && visited[i] == state_after(g, moves, k);
        assert(visited.push(x)[i] == state_after(g, moves, k));
    }
}

/// The first `k <= moves.len()` moves of `moves.push(m)` are those of `moves`.
proof fn lemma_push_prefix(g: StateModel, moves: Seq<(usize, usize)>, m: (usize, usize))
    ensures
        forall|k: int| 0 <= k <= moves.len() ==> #[trigger] moves.push(m).take(k) == moves.take(k),
        forall|k: int| 0 <= k <= moves.len() ==> #[trigger] state_after(g, moves.push(m), k) == state_after(g, moves, k),
        moves.push(m).take(moves.len() as int + 1) == moves.push(m),
        moves.push(m).drop_last() == moves,
        moves.take(moves.len() as int) == moves,
{
    assert forall|k: int| 0 <= k <= moves.len() implies #[trigger] moves.push(m).take(k) == moves.take(k) by {
        assert(moves.push(m).take(k) =~= moves.take(k));
    }
    assert forall|k: int| 0 <= k <= moves.len() implies #[trigger] state_after(g, moves.push(m), k) == state_after(g, moves, k) by {
        assert(moves.push(m).take(k) == moves.take(k));
    }
    assert(moves.push(m).take(moves.len() as int + 1) =~= moves.push(m));
    assert(moves.push(m).drop_last() =~= moves);
    assert(moves.take(moves.len() as int) =~= moves);
}

proof fn lemma_entry_facts(g: StateModel, moves: Seq<(usize, usize)>, s: StateModel, visited: Seq<StateModel>, b: nat)
    requires
        entry_ok(g, moves, s, visited, b),
    ensures
        replay(g, moves) == Ok::<StateModel, Error>(s),
        sound_path(g, moves),
        moves.len() <= b,
{
    reveal(entry_ok);
}

/// Extending an entry by a legal move out of an expanded, unsorted state, into a
/// state not expanded yet, gives an entry one move longer.
proof fn lemma_extend_path(
    g: StateModel,
    moves: Seq<(usize, usize)>,
    s: StateModel,
    visited: Seq<StateModel>,
    b: nat,
    m: (usize, usize),
    t: StateModel,
)
    requires
        entry_ok(g, moves, s, visited, b),
        visited.contains(s),
        !wins(s),
        valid_move(s, m),
        apply_move(s, m.0, m.1) == Ok::<StateModel, Error>(t),
        !visited.contains(t),
    ensures
        entry_ok(g, moves.push(m), t, visited, b + 1),
{
    reveal(entry_ok);
    let p = moves.push(m);
    let n = moves.len() as int;
    lemma_push_prefix(g, moves, m);
    assert(state_after(g, p, n) == s);
    assert(state_after(g, p, n + 1) == t);
    assert forall|k: int| 0 <= k <= p.len() implies #[trigger] replay(g, p.take(k)) is Ok by {
        if k <= n {
            assert(p.take(k) == moves.take(k));
            assert(replay(g, moves.take(k)) is Ok);
        }
    }
    assert forall|k: int| 0 <= k < p.len() implies valid_move(state_after(g, p, k), #[trigger] p[k]) by {
        if k < n {
            assert(p[k] == moves[k]);
            assert(state_after(g, p, k) == state_after(g, moves, k));
            assert(valid_move(state_after(g, moves, k), moves[k]));
        }
    }
    assert forall|k: int| 0 <= k < p.len() implies !wins(#[trigger] state_after(g, p, k)) by {
        if k < n {
            assert(state_after(g, p, k) == state_after(g, moves, k));
            assert(!wins(state_after(g, moves, k)));
        }
    }
    assert forall|a: int, c: int| 0 <= a < c <= p.len() implies #[trigger] state_after(g, p, a) != #[trigger] state_after(
        g,
        p,
        c,
    ) by {
        assert(state_after(g, p, a) == state_after(g, moves, a));
        if c <= n {
            assert(state_after(g, p, c) == state_after(g, moves, c));
        } else if a < n {
            assert(visited.contains(state_after(g, moves, a)));
        }
    }
    assert forall|k: int| 0 <= k < p.len() implies visited.contains(#[trigger] state_after(g, p, k)) by {
        if k < n {
            assert(state_after(g, p, k) == state_after(g, moves, k));
        }
    }
}

/// A frontier entry: a state, the moves that reached it, and its rank.
struct QueueElement {
    moves: Vec<(usize, usize)>,
    game_state: GameState,
    key: u64,
}

spec fn node_of(e: QueueElement) -> Node {
    (e.moves@, e.game_state@)
}

spec fn nodes(f: Seq<QueueElement>) -> Seq<Node> {
    f.map_values(|e: QueueElement| node_of(e))
}

spec fn states(v: Seq<GameState>) -> Seq<StateModel> {
    v.map_values(|g: GameState| g@)
}

/// Every entry's key is what `rank` gives its state.
spec fn keys_follow(f: Seq<QueueElement>, rank: Rank) -> bool {
    forall|i: int| 0 <= i < f.len() ==> (#[trigger] f[i]).key == rank(f[i].game_state@, f[i].moves@.len())
}

/// Entry `a` comes before entry `b`: a lower key, or an equal key and fewer moves.
spec fn ranks_before(a: QueueElement, b: QueueElement) -> bool {
    a.key < b.key || (a.key == b.key && a.moves@.len() < b.moves@.len())
}

/// The index of the first entry that no other entry ranks before.
fn lowest(frontier: &Vec<QueueElement>) -> (i: usize)
    requires
        frontier@.len() > 0,
    ensures
        i < frontier@.len(),
        forall|j: int| 0 <= j < frontier@.len() ==> !ranks_before(#[trigger] frontier@[j], frontier@[i as int]),
        forall|j: int| 0 <= j < i ==> ranks_before(frontier@[i as int], #[trigger] frontier@[j]),
{
    let mut best: usize = 0;
    let n = frontier.len();
    for j in 1..n
        invariant
            n == frontier@.len(),
            best < j,
            forall|k: int| 0 <= k < j ==> !ranks_before(#[trigger] frontier@[k], frontier@[best as int]),
            forall|k: int| 0 <= k < best ==> ranks_before(frontier@[best as int], #[trigger] frontier@[k]),
    {
        let a = &frontier[j];
        let b = &frontier[best];
        if a.key < b.key || (a.key == b.key && a.moves.len() < b.moves.len()) {
            best = j;
        }
    }
    best
}

/// Where the keys follow `rank`, the entry that `lowest` picks is the one that
/// the search model expands.
proof fn lemma_lowest_is_first(f: Seq<QueueElement>, rank: Rank, i: int)
    requires
        keys_follow(f, rank),
        0 <= i < f.len(),
        forall|j: int| 0 <= j < f.len() ==> !ranks_before(#[trigger] f[j], f[i]),
        forall|j: int| 0 <= j < i ==> ranks_before(f[i], #[trigger] f[j]),
    ensures
        first_lowest(nodes(f), rank) == i,
{
    let n = nodes(f);
    assert forall|j: int| 0 <= j < n.len() implies !precedes(#[trigger] n[j], n[i], rank) by {
        assert(!ranks_before(f[j], f[i]));
        assert(f[j].key == rank(f[j].game_state@, f[j].moves@.len()));
    }
    assert forall|j: int| 0 <= j < i implies precedes(n[i], #[trigger] n[j], rank) by {
        assert(ranks_before(f[i], f[j]));
        assert(f[j].key == rank(f[j].game_state@, f[j].moves@.len()));
    }
    assert(is_first_lowest(n, rank, i));
    let c = first_lowest(n, rank);
    assert(is_first_lowest(n, rank, c));
    if c < i {
        assert(precedes(n[i], n[c], rank));
    } else if c > i {
        assert(precedes(n[c], n[i], rank));
    }
}

/// Whether a state with the same tubes is in `visited`.
fn seen(visited: &Vec<GameState>, s: &GameState) -> (r: bool)
    ensures
        r == states(visited@).contains(s@),
{
    for i in 0..visited.len()
        invariant
            forall|k: int| 0 <= k < i ==> #[trigger] visited@[k]@ != s@,
    {
        if visited[i].same_as(s) {
            assert(states(visited@)[i as int] == s@);
            return true;
        }
    }
    proof {
        if states(visited@).contains(s@) {
            let k = choose|k: int| 0 <= k < visited@.len() && states(visited@)[k] == s@;
            assert(visited@[k]@ == s@);
        }
    }
    false
}

/// `moves` with `m` appended.
fn extended(moves: &Vec<(usize, usize)>, m: (usize, usize)) -> (r: Vec<(usize, usize)>)
    ensures
        r@ == moves@.push(m),
{
    let mut r: Vec<(usize, usize)> = Vec::new();
    for i in 0..moves.len()
        invariant
            r@ == moves@.subrange(0, i as int),
    {
        r.push(moves[i]);
        assert(r@ =~= moves@.subrange(0, i + 1));
    }
    assert(moves@.subrange(0, moves@.len() as int) =~= moves@);
    r.push(m);
    r
}

/// Best-first search for a sequence of moves that sorts `game_state`.
///
/// `score` ranks a state reached after the given number of moves; the entry
/// with the lowest rank is expanded next, the one with fewer moves among equal
/// ranks, the earliest queued among full ties. A state already expanded is not
/// queued again, and the search stops after `EXPANSION_BUDGET` expansions.
///
/// The result is `search_result` for every ranking that `score` computes.
/// Whatever `score` returns, a non-empty result is a sound path from
/// `game_state` to a sorted state and holds at most `EXPANSION_BUDGET` moves;
/// an empty one means that the state is sorted already or that no solution was
/// found.
pub fn solver<F: Fn(&GameState, usize) -> u64>(game_state: &GameState, score: &F) -> (r: Vec<(usize, usize)>)
    requires
        forall|s: &GameState, n: usize| #[trigger] score.requires((s, n)),
    ensures
        forall|rank: Rank| ranks_by(score, rank) ==> r@ == search_result(game_state@, rank),
        r@.len() <= EXPANSION_BUDGET,
        r@.len() > 0 ==> sound_path(game_state@, r@) && replay(game_state@, r@) is Ok && wins(
            replay(game_state@, r@)->Ok_0,
        ),
        wins(game_state@) ==> r@.len() == 0,
{
    let mut visited: Vec<GameState> = Vec::new();
    let mut frontier: Vec<QueueElement> = Vec::new();
    let start = game_state.duplicate();
    let key = score(&start, 0);
    frontier.push(QueueElement { moves: Vec::new(), game_state: start, key });
    let mut expanded: usize = 0;
    proof {
        let e = Seq::<(usize, usize)>::empty();
        assert(e.take(0) =~= e);
        reveal(entry_ok);
        assert(entry_ok(game_state@, frontier@[0].moves@, frontier@[0].game_state@, states(visited@), 0));
        assert forall|rank: Rank| ranks_by(score, rank) implies search_run(game_state@, rank, 0) == (SearchModel {
            frontier: nodes(frontier@), visited: states(visited@), expanded: 0, found: None }) by {
            assert(nodes(frontier@) =~= search_start(game_state@).frontier);
            assert(states(visited@) =~= Seq::<StateModel>::empty());
        }
    }
    while frontier.len() > 0 && expanded <= EXPANSION_BUDGET
        invariant
            expanded <= EXPANSION_BUDGET + 1,
            forall|s: &GameState, n: usize| #[trigger] score.requires((s, n)),
            forall|i: int|
                0 <= i < frontier@.len() ==> entry_ok(game_state@, (#[trigger] frontier@[i]).moves@,
                    frontier@[i].game_state@, states(visited@), expanded as nat),
            expanded == 0 ==> frontier@.len() == 1 && frontier@[0].moves@.len() == 0,
            expanded > 0 ==> !wins(game_state@),
            forall|rank: Rank| ranks_by(score, rank) ==> keys_follow(frontier@, rank),
            forall|rank: Rank| #[trigger] ranks_by(score, rank) ==> search_run(game_state@, rank, expanded as nat) == (SearchModel {
                frontier: nodes(frontier@), visited: states(visited@), expanded: expanded as nat, found: None }),
        decreases EXPANSION_BUDGET + 1 - expanded,
    {
        let ghost before = SearchModel {
            frontier: nodes(frontier@), visited: states(visited@), expanded: expanded as nat, found: None };
        let i = lowest(&frontier);
        proof {
            assert forall|rank: Rank| ranks_by(score, rank) implies first_lowest(before.frontier, rank) == i by {
                lemma_lowest_is_first(frontier@, rank, i as int);
            }
        }
        let ghost old_frontier = frontier@;
        let element = frontier.remove(i);
        let QueueElement { moves, game_state: state, key: _ } = element;
        assert(entry_ok(game_state@, moves@, state@, states(visited@), expanded as nat));
        proof {
            lemma_entry_facts(game_state@, moves@, state@, states(visited@), expanded as nat);
        }
        assert(nodes(frontier@) =~= before.frontier.remove(i as int));
        let ghost v0 = states(visited@);
        assert forall|k: int| 0 <= k < frontier@.len() implies entry_ok(game_state@, (#[trigger] frontier@[k]).moves@,
            frontier@[k].game_state@, v0, expanded as nat) by {
            if k < i {
                assert(frontier@[k] == old_frontier[k]);
            } else {
                assert(frontier@[k] == old_frontier[k + 1]);
            }
        }
        assert(forall|rank: Rank| ranks_by(score, rank) ==> keys_follow(frontier@, rank)) by {
            assert forall|rank: Rank| ranks_by(score, rank) implies keys_follow(frontier@, rank) by {
                assert forall|k: int| 0 <= k < frontier@.len() implies (#[trigger] frontier@[k]).key == rank(
                    frontier@[k].game_state@, frontier@[k].moves@.len()) by {
                    if k < i {
                        assert(frontier@[k] == old_frontier[k]);
                    } else {
                        assert(frontier@[k] == old_frontier[k + 1]);
                    }
                }
            }
        }
        visited.push(state.duplicate());
        assert(states(visited@) =~= before.visited.push(state@));
        proof {
            lemma_entry_grow(game_state@, moves@, state@, v0, state@, expanded as nat, expanded as nat);
            assert(states(visited@)[v0.len() as int] == state@);
            assert forall|k: int| 0 <= k < frontier@.len() implies entry_ok(game_state@, (#[trigger] frontier@[k]).moves@,
                frontier@[k].game_state@, states(visited@), expanded as nat + 1) by {
                lemma_entry_grow(game_state@, frontier@[k].moves@, frontier@[k].game_state@, v0, state@,
                    expanded as nat, expanded as nat + 1);
            }
        }
        if state.check_win() {
            proof {
                assert forall|rank: Rank| ranks_by(score, rank) implies moves@ == search_result(game_state@, rank) by {
                    let done = search_run(game_state@, rank, (expanded + 1) as nat);
                    assert(done.found == Some(moves@));
                    lemma_run_settled(game_state@, rank, (expanded + 1) as nat, EXPANSION_BUDGET as nat + 2);
                }
            }
            return moves;
        }
        let all_moves = state.available_moves();
        let ghost rest = nodes(frontier@);
        let ghost seen_states = states(visited@);
        assert(all_moves@.take(0) =~= Seq::<(usize, usize)>::empty());
        for j in 0..all_moves.len()
            invariant
                forall|s: &GameState, n: usize| #[trigger] score.requires((s, n)),
                entry_ok(game_state@, moves@, state@, states(visited@), expanded as nat),
                states(visited@).contains(state@),
                !wins(state@),
                all_moves@ == legal_moves(state@),
                forall|i: int|
                    0 <= i < frontier@.len() ==> entry_ok(game_state@, (#[trigger] frontier@[i]).moves@,
                        frontier@[i].game_state@, states(visited@), expanded as nat + 1),
                forall|rank: Rank| ranks_by(score, rank) ==> keys_follow(frontier@, rank),
                seen_states == states(visited@),
                nodes(frontier@) == expand(rest, seen_states, state@, moves@, all_moves@.take(j as int)),
        {
            let m = all_moves[j];
            let ghost f0 = frontier@;
            assert(all_moves@.take(j + 1).drop_last() =~= all_moves@.take(j as int));
            assert(all_moves@.take(j + 1).last() == m);
            match state.make_move(m.0, m.1) {
                Ok(next) => {
                    if !seen(&visited, &next) {
                        let path = extended(&moves, m);
                        assert(path@.drop_last() =~= moves@);
                        proof {
                            assert(all_moves@.contains(m)) by {
                                assert(all_moves@[j as int] == m);
                            }
                            lemma_extend_path(game_state@, moves@, state@, states(visited@), expanded as nat, m, next@);
                        }
                        let key = score(&next, path.len());
                        frontier.push(QueueElement { moves: path, game_state: next, key });
                        assert forall|k: int| 0 <= k < frontier@.len() implies entry_ok(game_state@,
                            (#[trigger] frontier@[k]).moves@, frontier@[k].game_state@, states(visited@),
                            expanded as nat + 1) by {
                            if k < f0.len() {
                                assert(frontier@[k] == f0[k]);
                            }
                        }
                        assert(nodes(frontier@) =~= nodes(f0).push((moves@.push(m), next@)));
                        assert forall|rank: Rank| ranks_by(score, rank) implies keys_follow(frontier@, rank) by {
                            assert forall|k: int| 0 <= k < frontier@.len() implies (#[trigger] frontier@[k]).key
                                == rank(frontier@[k].game_state@, frontier@[k].moves@.len()) by {
                                if k < f0.len() {
                                    assert(frontier@[k] == f0[k]);
                                }
                            }
                        }
                    }
                },
                Err(_) => {},
            }
        }
        assert(all_moves@.take(all_moves@.len() as int) =~= all_moves@);
        expanded += 1;
    }
    proof {
        assert forall|rank: Rank| ranks_by(score, rank) implies Seq::<(usize, usize)>::empty() == search_result(game_state@, rank) by {
            lemma_run_settled(game_state@, rank, expanded as nat, EXPANSION_BUDGET as nat + 2);
        }
    }
    Vec::new()
}

} // verus!
