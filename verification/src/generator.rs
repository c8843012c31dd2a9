//! The action generator: the actions that the rules offer to a player.

use vstd::prelude::*;
use crate::action::{canonically_sorted, sort_canonical, Action};
use crate::board::Board;
use crate::forest::{lemma_count_bound, of_kind, slot_wf, Player, Tree};
use crate::rules::{
    base_cost, can_complete, can_grow, can_seed, linked, offered, plantable, proposed, reach,
    within_reach, COMPLETE_COST, SEED_TREE_LIMIT, WAIT_BELOW,
};
use crate::state::GameState;

verus! {

/// Whether `list` holds exactly the actions that satisfy `pred`, each once.
pub open spec fn lists(list: Seq<Action>, pred: spec_fn(Action) -> bool) -> bool {
    &&& list.no_duplicates()
    &&& forall|a: Action| #[trigger] list.contains(a) <==> pred(a)
}

/// Whether `list` holds exactly the actions offered to `player` in state
/// `m` under the seeding threshold `threshold`, each once.
pub open spec fn is_offer(
    board: &Board,
    m: crate::state::Model,
    player: Player,
    threshold: int,
    list: Seq<Action>,
) -> bool {
    lists(list, |a: Action| offered(board, m, player, threshold, a))
}

proof fn lemma_push_new(s: Seq<Action>, x: Action)
    requires
        s.no_duplicates(),
        !s.contains(x),
    ensures
        s.push(x).no_duplicates(),
        forall|a: Action| #[trigger] s.push(x).contains(a) <==> (s.contains(a) || a == x),
{
    let t = s.push(x);
    assert forall|a: Action| #[trigger] t.contains(a) <==> (s.contains(a) || a == x) by {
        if s.contains(a) {
            let i = choose|i: int| 0 <= i < s.len() && s[i] == a;
            assert(t[i] == a);
        }
        if a == x {
            assert(t[s.len() as int] == x);
        }
    }
}

proof fn lemma_concat_disjoint(s: Seq<Action>, t: Seq<Action>)
    requires
        s.no_duplicates(),
        t.no_duplicates(),
        forall|a: Action| !(s.contains(a) && t.contains(a)),
    ensures
        (s + t).no_duplicates(),
        forall|a: Action| #[trigger] (s + t).contains(a) <==> (s.contains(a) || t.contains(a)),
{
    let u = s + t;
    assert forall|a: Action| #[trigger] u.contains(a) <==> (s.contains(a) || t.contains(a)) by {
        if s.contains(a) {
            let i = choose|i: int| 0 <= i < s.len() && s[i] == a;
            assert(u[i] == a);
        }
        if t.contains(a) {
            let i = choose|i: int| 0 <= i < t.len() && t[i] == a;
            assert(u[s.len() + i] == a);
        }
        if u.contains(a) {
            let i = choose|i: int| 0 <= i < u.len() && u[i] == a;
            if i < s.len() {
                assert(s[i] == a);
            } else {
                assert(t[i - s.len()] == a);
            }
        }
    }
    assert forall|i: int, j: int| 0 <= i < u.len() && 0 <= j < u.len() && i != j implies u[i]
        != u[j] by {
        if i < s.len() && j >= s.len() {
            assert(s.contains(s[i]));
            assert(t.contains(t[j - s.len()]));
        }
        if j < s.len() && i >= s.len() {
            assert(s.contains(s[j]));
            assert(t.contains(t[i - s.len()]));
        }
    }
}

/// The grow actions open to `player`: one for each tree that the player
/// owns, that is awake and smaller than size 3, and whose growth the player
/// can pay.
pub fn grow_actions(state: &GameState, board: &Board, player: Player) -> (out: Vec<Action>)
    requires
        state.valid(board),
    ensures
        lists(out@, |a: Action| a matches Action::Grow(c) && can_grow(state@, player, c as int)),
{
    let side = state.side(player);
    let n = state.forest.len();
    let mut out: Vec<Action> = Vec::new();
    let mut i: usize = 0;
    while i < n
        invariant
            state.valid(board),
            side == state.side_of(player),
            n == state.forest@.len(),
            i <= n,
            out@.no_duplicates(),
            forall|a: Action| #[trigger]
                out@.contains(a) <==> (a matches Action::Grow(c) && c < i && can_grow(
                    state@,
                    player,
                    c as int,
                )),
        decreases n - i,
    {
        let ghost before = out@;
        match state.forest.get(i as i32) {
            Some(t) => {
                assert(slot_wf(state.forest@[i as int], i as int));
                if t.belongs_to(player) && !t.is_dormant && t.size < 3 {
                    proof {
                        lemma_count_bound(state.forest@, of_kind(player, t.size + 1));
                    }
                    if base_cost(t.size) + side.counts[(t.size + 1) as usize] <= side.sun {
                        proof {
                            lemma_push_new(out@, Action::Grow(i as i32));
                        }
                        out.push(Action::Grow(i as i32));
                    }
                }
            },
            None => {},
        }
        i += 1;
    }
    out
}

/// The complete actions open to `player`: one for each tree of size 3 that
/// the player owns and that is awake, if the player has 4 sun points.
pub fn complete_actions(state: &GameState, board: &Board, player: Player) -> (out: Vec<Action>)
    requires
        state.valid(board),
    ensures
        lists(
            out@,
            |a: Action| a matches Action::Complete(c) && can_complete(state@, player, c as int),
        ),
{
    let side = state.side(player);
    let mut out: Vec<Action> = Vec::new();
    if side.sun < COMPLETE_COST {
        return out;
    }
    let n = state.forest.len();
    let mut i: usize = 0;
    while i < n
        invariant
            state.valid(board),
            side == state.side_of(player),
            side.sun >= COMPLETE_COST,
            n == state.forest@.len(),
            i <= n,
            out@.no_duplicates(),
            forall|a: Action| #[trigger]
                out@.contains(a) <==> (a matches Action::Complete(c) && c < i && can_complete(
                    state@,
                    player,
                    c as int,
                )),
        decreases n - i,
    {
        match state.forest.get(i as i32) {
            Some(t) => {
                if t.belongs_to(player) && !t.is_dormant && t.size == 3 {
                    proof {
                        lemma_push_new(out@, Action::Complete(i as i32));
                    }
                    out.push(Action::Complete(i as i32));
                }
            },
            None => {},
        }
        i += 1;
    }
    out
}

/// Whether some marked cell has `c` as a neighbour, among the pairs of a
/// cell and a direction that come before (`x`, `d`).
pub open spec fn fed_before(board: &Board, marks: Seq<bool>, c: int, x: int, d: int) -> bool {
    exists|y: int, e: int|
        #![trigger marks[y], board.neighbor_of(y, e)]
        0 <= y < marks.len() && 0 <= e < 6 && marks[y] && board.neighbor_of(y, e) == c && (y < x
            || (y == x && e < d))
}

/// Whether some marked cell has `c` as a neighbour.
pub open spec fn fed(board: &Board, marks: Seq<bool>, c: int) -> bool {
    fed_before(board, marks, c, marks.len() as int, 0)
}

fn blank_marks(n: usize) -> (marks: Vec<bool>)
    ensures
        marks.len() == n,
        forall|c: int| 0 <= c < n ==> !#[trigger] marks[c],
{
    let mut marks: Vec<bool> = Vec::new();
    let mut i: usize = 0;
    while i < n
        invariant
            i <= n,
            marks.len() == i,
            forall|c: int| 0 <= c < i ==> !#[trigger] marks[c],
        decreases n - i,
    {
        marks.push(false);
        i += 1;
    }
    marks
}

/// Marks the neighbours of the marked cells.
fn expand(board: &Board, frontier: &Vec<bool>) -> (next: Vec<bool>)
    requires
        board.wf(),
        frontier.len() == board@.len(),
    ensures
        next.len() == frontier.len(),
        forall|c: int| 0 <= c < next.len() ==> #[trigger] next[c] == fed(board, frontier@, c),
{
    let n = frontier.len();
    let mut next = blank_marks(n);
    let mut x: usize = 0;
    while x < n
        invariant
            board.wf(),
            n == board@.len(),
            n == frontier.len(),
            next.len() == n,
            x <= n,
            forall|c: int|
                0 <= c < n ==> #[trigger] next[c] == fed_before(board, frontier@, c, x as int, 0),
        decreases n - x,
    {
        if frontier[x] {
            let mut d: usize = 0;
            while d < 6
                invariant
                    board.wf(),
                    n == board@.len(),
                    n == frontier.len(),
                    next.len() == n,
                    x < n,
                    d <= 6,
                    frontier[x as int],
                    forall|c: int|
                        0 <= c < n ==> #[trigger] next[c] == fed_before(
                            board,
                            frontier@,
                            c,
                            x as int,
                            d as int,
                        ),
                decreases 6 - d,
            {
                let ghost before = next@;
                match board.neighbor(x as i32, d) {
                    Some(nb) => {
                        next[nb as usize] = true;
                    },
                    None => {},
                }
                proof {
                    let hit = board.neighbor_of(x as int, d as int);
                    assert forall|c: int| 0 <= c < n implies #[trigger] next[c] == fed_before(
                        board,
                        frontier@,
                        c,
                        x as int,
                        d + 1,
                    ) by {
                        if c == hit {
                            assert(frontier@[x as int] && board.neighbor_of(x as int, d as int)
                                == c);
                        } else {
                            assert(next[c] == before[c]);
                        }
                    }
                }
                d += 1;
            }
        }
        proof {
            assert forall|c: int| 0 <= c < n implies #[trigger] next[c] == fed_before(
                board,
                frontier@,
                c,
                x + 1,
                0,
            ) by {
                if frontier[x as int] {
                    assert(fed_before(board, frontier@, c, x as int, 6) == fed_before(
                        board,
                        frontier@,
                        c,
                        x + 1,
                        0,
                    ));
                }
            }
        }
        x += 1;
    }
    next
}

/// The neighbours of the cells reached after `k` hops are the cells reached
/// after `k + 1` hops.
proof fn lemma_fed_is_reach(board: &Board, marks: Seq<bool>, origin: int, k: nat, c: int)
    requires
        board.wf(),
        marks.len() == board@.len(),
        board.has_cell(origin),
        board.has_cell(c),
        forall|x: int| 0 <= x < marks.len() ==> #[trigger] marks[x] == reach(board, origin, x, k),
    ensures
        fed(board, marks, c) == reach(board, origin, c, k + 1),
{
    let next = (k + 1) as nat;
    if fed(board, marks, c) {
        let (y, e) = choose|y: int, e: int|
            #![trigger marks[y], board.neighbor_of(y, e)]
            0 <= y < marks.len() && 0 <= e < 6 && marks[y] && board.neighbor_of(y, e) == c;
        assert(reach(board, origin, y, (next - 1) as nat) && linked(board, y, e, c));
    }
    if reach(board, origin, c, next) {
        let (mid, d) = choose|mid: int, d: int|
            reach(board, origin, mid, (next - 1) as nat) && #[trigger] linked(board, mid, d, c);
        assert(board.has_cell(mid));
        assert(marks[mid] && board.neighbor_of(mid, d) == c);
    }
}

/// The seed actions that the tree `tree` can take: one for each cell within
/// as many hops as the tree's size on which a seed can be planted.
fn seeds_from(state: &GameState, board: &Board, tree: &Tree) -> (out: Vec<Action>)
    requires
        board.wf(),
        state.valid(board),
        state@.tree_at(tree.cell_index as int) == Some(*tree),
    ensures
        lists(
            out@,
            |a: Action|
                a matches Action::Seed(t, o) && o == tree.cell_index && plantable(
                    board,
                    state@,
                    t as int,
                ) && within_reach(board, o as int, t as int, tree.size as int),
        ),
{
    let n = state.forest.len();
    let origin = tree.cell_index;
    assert(slot_wf(state.forest@[origin as int], origin as int));
    let mut out: Vec<Action> = Vec::new();
    let mut frontier = blank_marks(n);
    frontier[origin as usize] = true;
    let mut seen = blank_marks(n);
    let mut k: i32 = 0;
    while k < tree.size
        invariant
            board.wf(),
            state.valid(board),
            n == board@.len(),
            0 <= origin < n,
            origin == tree.cell_index,
            0 <= k,
            tree.size <= 3,
            k <= tree.size || tree.size < 0,
            frontier.len() == n,
            seen.len() == n,
            forall|c: int|
                0 <= c < n ==> #[trigger] frontier[c] == reach(board, origin as int, c, k as nat),
            forall|c: int|
                0 <= c < n ==> #[trigger] seen[c] == (plantable(board, state@, c) && within_reach(
                    board,
                    origin as int,
                    c,
                    k as int,
                )),
            out@.no_duplicates(),
            forall|a: Action| #[trigger]
                out@.contains(a) <==> (a matches Action::Seed(t, o) && o == origin && 0 <= t < n
                    && seen[t as int]),
        decreases tree.size - k,
    {
        let next = expand(board, &frontier);
        proof {
            assert forall|c: int| 0 <= c < n implies #[trigger] next[c] == reach(
                board,
                origin as int,
                c,
                (k + 1) as nat,
            ) by {
                lemma_fed_is_reach(board, frontier@, origin as int, k as nat, c);
            }
        }
        let ghost seen_before = seen@;
        let mut c: usize = 0;
        while c < n
            invariant
                board.wf(),
                state.valid(board),
                n == board@.len(),
                0 <= origin < n,
                0 <= k < 3,
                c <= n,
                next.len() == n,
                seen.len() == n,
                seen_before.len() == n,
                forall|x: int|
                    0 <= x < n ==> #[trigger] next[x] == reach(
                        board,
                        origin as int,
                        x,
                        (k + 1) as nat,
                    ),
                forall|x: int|
                    0 <= x < n ==> #[trigger] seen_before[x] == (plantable(board, state@, x)
                        && within_reach(board, origin as int, x, k as int)),
                forall|x: int|
                    0 <= x < c ==> #[trigger] seen[x] == (plantable(board, state@, x)
                        && within_reach(board, origin as int, x, k + 1)),
                forall|x: int| c <= x < n ==> #[trigger] seen[x] == seen_before[x],
                out@.no_duplicates(),
                forall|a: Action| #[trigger]
                    out@.contains(a) <==> (a matches Action::Seed(t, o) && o == origin && 0 <= t
                        < n && seen[t as int]),
            decreases n - c,
        {
            proof {
                lemma_within_reach_step(board, origin as int, c as int, k as int);
            }
            if next[c] && !seen[c] && board.richness(c as i32) > 0 && !state.forest.contains(
                c as i32,
            ) {
                let ghost marks_before = seen@;
                proof {
                    lemma_push_new(out@, Action::Seed(c as i32, origin));
                }
                seen[c] = true;
                out.push(Action::Seed(c as i32, origin));
                proof {
                    assert forall|a: Action| #[trigger]
                        out@.contains(a) <==> (a matches Action::Seed(t, o) && o == origin && 0
                            <= t < n && seen[t as int]) by {
                        if let Action::Seed(t, o) = a {
                            if 0 <= t < n && t != c {
                                assert(seen[t as int] == marks_before[t as int]);
                            }
                        }
                    }
                }
            }
            c += 1;
        }
        frontier = next;
        k += 1;
    }
    proof {
        assert forall|a: Action| #[trigger]
            out@.contains(a) <==> (a matches Action::Seed(t, o) && o == tree.cell_index
                && plantable(board, state@, t as int) && within_reach(
                board,
                o as int,
                t as int,
                tree.size as int,
            )) by {
            if let Action::Seed(t, o) = a {
                if tree.size < 0 {
                } else {
                    assert(k == tree.size);
                }
            }
        }
    }
    out
}

/// A walk of at most `k + 1` hops is a walk of at most `k` hops or one of
/// exactly `k + 1` hops.
proof fn lemma_within_reach_step(board: &Board, from: int, to: int, k: int)
    requires
        0 <= k,
    ensures
        within_reach(board, from, to, k + 1) == (within_reach(board, from, to, k) || reach(
            board,
            from,
            to,
            (k + 1) as nat,
        )),
{
    if within_reach(board, from, to, k + 1) {
        let j = choose|j: int| 1 <= j <= k + 1 && #[trigger] reach(board, from, to, j as nat);
        if j <= k {
            assert(within_reach(board, from, to, k));
        }
    }
    if within_reach(board, from, to, k) {
        let j = choose|j: int| 1 <= j <= k && #[trigger] reach(board, from, to, j as nat);
        assert(1 <= j <= k + 1 && reach(board, from, to, j as nat));
    }
    if reach(board, from, to, (k + 1) as nat) {
        assert(1 <= k + 1 <= k + 1 && reach(board, from, to, (k + 1) as nat));
    }
}

/// The seed actions open to `player`, if the player can pay for a seed:
/// for each tree that the player owns, that is awake and of size 1 or more,
/// one action for each cell within as many hops as the tree's size that
/// has some richness and no tree.
pub fn seed_actions(state: &GameState, board: &Board, player: Player) -> (out: Vec<Action>)
    requires
        board.wf(),
        state.valid(board),
    ensures
        lists(
            out@,
            |a: Action|
                a matches Action::Seed(t, o) && can_seed(board, state@, player, t as int, o as int),
        ),
{
    let side = state.side(player);
    let mut out: Vec<Action> = Vec::new();
    if side.sun < side.counts[0] {
        return out;
    }
    let n = state.forest.len();
    let mut i: usize = 0;
    while i < n
        invariant
            board.wf(),
            state.valid(board),
            side == state.side_of(player),
            side.sun >= side.counts[0],
            n == state.forest@.len(),
            i <= n,
            out@.no_duplicates(),
            forall|a: Action| #[trigger]
                out@.contains(a) <==> (a matches Action::Seed(t, o) && o < i && can_seed(
                    board,
                    state@,
                    player,
                    t as int,
                    o as int,
                )),
        decreases n - i,
    {
        match state.forest.get(i as i32) {
            Some(t) => {
                assert(slot_wf(state.forest@[i as int], i as int));
                if t.belongs_to(player) && !t.is_dormant && t.size > 0 {
                    let mut found = seeds_from(state, board, &t);
                    proof {
                        lemma_concat_disjoint(out@, found@);
                    }
                    out.append(&mut found);
                }
            },
            None => {},
        }
        i += 1;
    }
    out
}

/// The actions offered to `player`. A player with fewer than 4 sun points
/// can only wait. Otherwise the grow and complete actions are offered, and
/// the seed actions too while the player has fewer than 8 trees and the day
/// is below `threshold`; where that leaves nothing, the player can only
/// wait.
pub fn legal_actions(state: &GameState, board: &Board, player: Player, threshold: i32) -> (out: Vec<
    Action,
>)
    requires
        board.wf(),
        state.valid(board),
    ensures
        is_offer(board, state@, player, threshold as int, out@),
        out.len() > 0,
{
    let side = state.side(player);
    let mut out: Vec<Action> = Vec::new();
    if side.sun < WAIT_BELOW {
        out.push(Action::Wait);
        assert(out@[0] == Action::Wait);
        return out;
    }
    let mut grows = grow_actions(state, board, player);
    let mut completes = complete_actions(state, board, player);
    proof {
        lemma_concat_disjoint(out@, grows@);
        lemma_concat_disjoint(grows@, completes@);
    }
    out.append(&mut grows);
    out.append(&mut completes);
    if side.total_trees() < SEED_TREE_LIMIT as i64 && state.day < threshold {
        let mut seeds = seed_actions(state, board, player);
        proof {
            lemma_concat_disjoint(out@, seeds@);
        }
        out.append(&mut seeds);
    }
    if out.len() == 0 {
        proof {
            assert forall|a: Action| !#[trigger] proposed(
                board,
                state@,
                player,
                threshold as int,
                a,
            ) by {
                if proposed(board, state@, player, threshold as int, a) {
                    assert(out@.contains(a));
                    let i = choose|i: int| 0 <= i < out@.len() && out@[i] == a;
                }
            }
        }
        out.push(Action::Wait);
        assert(out@[0] == Action::Wait);
    } else {
        proof {
            assert(out@.contains(out@[0]));
            assert(proposed(board, state@, player, threshold as int, out@[0]));
        }
    }
    out
}

/// The actions offered to `player`, in canonical order.
pub fn canonical_actions(state: &GameState, board: &Board, player: Player, threshold: i32) -> (out:
    Vec<Action>)
    requires
        board.wf(),
        state.valid(board),
    ensures
        is_offer(board, state@, player, threshold as int, out@),
        canonically_sorted(out@),
        out.len() > 0,
{
    let unsorted = legal_actions(state, board, player, threshold);
    let sorted = sort_canonical(unsorted);
    proof {
        broadcast use vstd::seq_lib::group_to_multiset_ensures;

        unsorted@.lemma_multiset_has_no_duplicates();
        sorted@.lemma_multiset_has_no_duplicates_conv();
        assert forall|a: Action| #[trigger] sorted@.contains(a) <==> unsorted@.contains(a) by {
            assert(sorted@.to_multiset().count(a) == unsorted@.to_multiset().count(a));
        }
    }
    sorted
}

} // verus!
