//! Laws of the game that follow from the rules: what the generator never
//! offers, when a tree earns sun, when the day advances, what a seed costs.

use vstd::prelude::*;
use crate::action::{canonically_sorted, lemma_lex_lt_total, lex_lt, Action};
use crate::board::Board;
use crate::forest::{census, Player, Tree};
use crate::protocol::law_text_round_trip;
use crate::rules::{action_cost, can_act, grow_cost, legal_move, offered};
use crate::simulator::{applied, charged, played};
use crate::state::Model;
use crate::sun::{blocks, hop, shaded, tree_income, tree_on};

verus! {

/// The generator never offers to grow a tree that is dormant, that has
/// size 3, that the player does not own, or whose growth costs more than
/// the player's sun balance.
pub proof fn law_offered_grow(board: &Board, m: Model, player: Player, threshold: int, cell: i32)
    requires
        offered(board, m, player, threshold, Action::Grow(cell)),
    ensures
        m.tree_at(cell as int) matches Some(t) && !t.is_dormant && t.size < 3 && t.owned_by(player)
            && grow_cost(m, player, t.size as int) <= m.side(player).sun,
        action_cost(m, player, Action::Grow(cell)) <= m.side(player).sun,
{
}

/// The generator offers to complete only trees of size 3 that are awake,
/// and only to a player with 4 sun points.
pub proof fn law_offered_complete(
    board: &Board,
    m: Model,
    player: Player,
    threshold: int,
    cell: i32,
)
    requires
        offered(board, m, player, threshold, Action::Complete(cell)),
    ensures
        m.tree_at(cell as int) matches Some(t) && can_act(t, player) && t.size == 3,
        m.side(player).sun >= 4,
{
}

/// A seed costs as many sun points as the player has trees of size 0, and
/// the generator offers one only for a target cell that has some richness
/// and no tree, at a price that the player can pay.
pub proof fn law_offered_seed(
    board: &Board,
    m: Model,
    player: Player,
    threshold: int,
    target: i32,
    origin: i32,
)
    ensures
        action_cost(m, player, Action::Seed(target, origin)) == census(m.forest, player, 0),
        offered(board, m, player, threshold, Action::Seed(target, origin)) ==> {
            &&& board.has_cell(target as int)
            &&& board.richness_of(target as int) > 0
            &&& m.tree_at(target as int) is None
            &&& census(m.forest, player, 0) <= m.side(player).sun
            &&& m.day < threshold
        },
{
}

/// A tree of size 3 earns nothing when the next cell in the direction of
/// the sun holds a tree of size 3 or more.
pub proof fn law_shaded_by_neighbor(board: &Board, forest: Seq<Option<Tree>>, cell: int, d: int)
    requires
        tree_on(forest, board.neighbor_of(cell, d)) matches Some(t) && t.size >= 3,
    ensures
        tree_income(board, forest, cell, 3, d) == 0,
{
    let i = 0int;
    assert(hop(board, cell, d, (i + 1) as nat) == board.neighbor_of(hop(board, cell, d, 0), d));
    assert(blocks(forest, hop(board, cell, d, (i + 1) as nat), i, 3));
}

/// A tree that no tree shades earns exactly its size; a shaded tree earns
/// nothing.
pub proof fn law_income_of_tree(
    board: &Board,
    forest: Seq<Option<Tree>>,
    cell: int,
    size: int,
    d: int,
)
    ensures
        !shaded(board, forest, cell, size, d) ==> tree_income(board, forest, cell, size, d)
            == size,
        shaded(board, forest, cell, size, d) ==> tree_income(board, forest, cell, size, d) == 0,
{
}

/// A tree earns its size where none of the three cells behind it holds a
/// tree.
pub proof fn law_open_sky(board: &Board, forest: Seq<Option<Tree>>, cell: int, size: int, d: int)
    requires
        forall|k: int| 1 <= k <= 3 ==> tree_on(forest, #[trigger] hop(board, cell, d, k as nat)) is None,
    ensures
        tree_income(board, forest, cell, size, d) == size,
{
    assert forall|i: int| 0 <= i < 3 implies !#[trigger] blocks(
        forest,
        hop(board, cell, d, (i + 1) as nat),
        i,
        size,
    ) by {
        assert(tree_on(forest, hop(board, cell, d, (i + 1) as nat)) is None);
    }
}

/// The day advances by exactly one on the turn on which a wait leaves both
/// players waiting, and on no other turn. On that turn every tree wakes up;
/// on any other turn no dormant tree wakes up.
pub proof fn law_day_advance(board: &Board, m: Model, player: Player, action: Action)
    requires
        m.valid(board),
        legal_move(board, m, player, action),
    ensures
        ({
            let after = played(board, m, player, action);
            let advances = action == Action::Wait && m.side(player.opposite()).waiting;
            &&& advances <==> action == Action::Wait && after.all_waiting()
            &&& advances ==> after.day == m.day + 1
            &&& !advances ==> after.day == m.day
            &&& after.forest.len() == m.forest.len()
            &&& advances ==> forall|c: int|
                0 <= c < after.forest.len() ==> (#[trigger] after.forest[c] matches Some(t)
                    ==> !t.is_dormant)
            &&& !advances ==> forall|c: int|
                0 <= c < after.forest.len() ==> (m.forest[c] matches Some(t) && t.is_dormant
                    && #[trigger] after.forest[c] is Some ==> after.forest[c]->0.is_dormant)
        }),
{
}

/// The rules keep a state valid: after a legal action the forest is well
/// formed, no sun balance is negative, a tree that grew is exactly one size
/// larger, and the nutrients have not increased.
pub proof fn law_play_keeps_valid(board: &Board, m: Model, player: Player, action: Action)
    requires
        m.valid(board),
        m.day < crate::state::GAME_DAYS,
        legal_move(board, m, player, action),
    ensures
        played(board, m, player, action).valid(board),
        played(board, m, player, action).nutrients <= m.nutrients,
        action matches Action::Grow(cell) ==> played(board, m, player, action).tree_at(
            cell as int,
        )->0.size == m.tree_at(cell as int)->0.size + 1,
{
    let paid = charged(board, m, player, action);
    let after = applied(paid, player, action);
    crate::forest::lemma_count_bound(m.forest, crate::forest::of_kind(player, 0));
    assert forall|i: int| 0 <= i < after.forest.len() implies crate::forest::slot_wf(
        #[trigger] after.forest[i],
        i,
    ) by {
        assert(crate::forest::slot_wf(m.forest[i], i));
        match action {
            Action::Grow(cell) => {
                assert(crate::forest::slot_wf(m.forest[cell as int], cell as int));
            },
            Action::Seed(target, origin) => {
                assert(crate::forest::slot_wf(m.forest[origin as int], origin as int));
            },
            _ => {},
        }
    }
}

/// Different actions have different canonical texts.
pub proof fn law_text_is_injective(a: Action, b: Action)
    requires
        a.text() == b.text(),
    ensures
        a == b,
{
    law_text_round_trip(a);
    law_text_round_trip(b);
}

/// Of two different actions, the one that does not come after the other in
/// canonical order comes strictly before it.
pub proof fn lemma_order_is_strict(a: Action, b: Action)
    requires
        a != b,
        !lex_lt(b.text(), a.text()),
    ensures
        lex_lt(a.text(), b.text()),
{
    lemma_lex_lt_total(a.text(), b.text());
    if a.text() == b.text() {
        law_text_is_injective(a, b);
    }
}

/// The canonical order leaves no choice: two lists in canonical order that
/// hold the same actions, each once, are the same list.
pub proof fn law_canonical_order_is_unique(a: Seq<Action>, b: Seq<Action>)
    requires
        a.no_duplicates(),
        b.no_duplicates(),
        canonically_sorted(a),
        canonically_sorted(b),
        forall|x: Action| a.contains(x) <==> b.contains(x),
    ensures
        a == b,
    decreases a.len(),
{
    if a.len() == 0 {
        if b.len() > 0 {
            assert(b.contains(b[0]));
        }
        assert(a =~= b);
    } else {
        assert(a.contains(a[0]));
        let k = choose|k: int| 0 <= k < b.len() && b[k] == a[0];
        if k > 0 {
            assert(b.contains(b[0]));
            let j = choose|j: int| 0 <= j < a.len() && a[j] == b[0];
            assert(j > 0);
            lemma_order_is_strict(a[0], a[j]);
            assert(!lex_lt(b[k].text(), b[0].text()));
        }
        let rest_a = a.drop_first();
        let rest_b = b.drop_first();
        assert forall|x: Action| rest_a.contains(x) <==> rest_b.contains(x) by {
            if rest_a.contains(x) {
                let i = choose|i: int| 0 <= i < rest_a.len() && rest_a[i] == x;
                assert(a[i + 1] == x);
                assert(a.contains(x));
                let m = choose|m: int| 0 <= m < b.len() && b[m] == x;
                assert(m > 0);
                assert(rest_b[m - 1] == x);
            }
            if rest_b.contains(x) {
                let i = choose|i: int| 0 <= i < rest_b.len() && rest_b[i] == x;
                assert(b[i + 1] == x);
                assert(b.contains(x));
                let m = choose|m: int| 0 <= m < a.len() && a[m] == x;
                assert(m > 0);
                assert(rest_a[m - 1] == x);
            }
        }
        assert forall|i: int, j: int| 0 <= i < j < rest_a.len() implies !lex_lt(
            (#[trigger] rest_a[j]).text(),
            (#[trigger] rest_a[i]).text(),
        ) by {
            assert(rest_a[j] == a[j + 1] && rest_a[i] == a[i + 1]);
        }
        assert forall|i: int, j: int| 0 <= i < j < rest_b.len() implies !lex_lt(
            (#[trigger] rest_b[j]).text(),
            (#[trigger] rest_b[i]).text(),
        ) by {
            assert(rest_b[j] == b[j + 1] && rest_b[i] == b[i + 1]);
        }
        law_canonical_order_is_unique(rest_a, rest_b);
        assert(a =~= seq![a[0]] + rest_a);
        assert(b =~= seq![b[0]] + rest_b);
    }
}

} // verus!
