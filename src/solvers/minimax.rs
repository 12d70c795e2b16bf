use crate::game::{GameState, Player, OUTCOME_SCALE};
use vstd::prelude::*;

verus! {

// ---------------------------------------------------------------------------
// Model: what each search computes
// ---------------------------------------------------------------------------

/// The largest of `vals`, or the least `i32` when there is none.
pub open spec fn max_of(vals: Seq<int>) -> int
    decreases vals.len(),
{
    if vals.len() == 0 {
        i32::MIN as int
    } else {
        let rest = max_of(vals.drop_last());
        if vals.last() > rest {
            vals.last()
        } else {
            rest
        }
    }
}

/// The smallest of `vals`, or the greatest `i32` when there is none.
pub open spec fn min_of(vals: Seq<int>) -> int
    decreases vals.len(),
{
    if vals.len() == 0 {
        i32::MAX as int
    } else {
        let rest = min_of(vals.drop_last());
        if vals.last() < rest {
            vals.last()
        } else {
            rest
        }
    }
}

/// What the side to move can secure among `vals`: Player1 takes the largest,
/// Player2 the smallest.
pub open spec fn side_best(p: Player, vals: Seq<int>) -> int {
    if p == Player::Player1 {
        max_of(vals)
    } else {
        min_of(vals)
    }
}

/// The game-theoretic value of `s` under perfect play by both sides:
/// its result when the game is over, else the best that the side to move can
/// secure among the states its legal moves lead to.
pub open spec fn game_value<G: GameState>(s: G) -> int
    decreases s.plies_left(), 1nat,
    when s.wf()
{
    match s.outcome() {
        Some(v) => v,
        None => side_best(s.to_move(), child_values(s, s.moves())),
    }
}

/// The game values of the states that the moves `ms` lead to from `s`, for
/// legal moves `ms`.
pub open spec fn child_values<G: GameState>(s: G, ms: Seq<G::Move>) -> Seq<int>
    decreases s.plies_left(), 0nat,
    when s.wf() && forall|k: int| 0 <= k < ms.len() ==> s.moves().contains(#[trigger] ms[k])
    via child_values_decreases::<G>
{
    Seq::new(
        ms.len(),
        |i: int|
            if 0 <= i < ms.len() {
                game_value(s.after(ms[i]))
            } else {
                0
            },
    )
}

/// Each legal move leaves fewer plies, so the recursion of `game_value` ends.
#[via_fn]
proof fn child_values_decreases<G: GameState>(s: G, ms: Seq<G::Move>) {
    assert forall|i: int| 0 <= i < ms.len() implies s.after(ms[i]).plies_left() < s.plies_left() by {
        s.lemma_move_step(ms[i]);
    }
}

/// What `child_values` gives each of a list of legal moves.
proof fn lemma_child_values<G: GameState>(s: G, ms: Seq<G::Move>)
    requires
        s.wf(),
        forall|m: G::Move| ms.contains(m) ==> s.moves().contains(m),
    ensures
        child_values(s, ms).len() == ms.len(),
        forall|k: int|
            0 <= k < ms.len() ==> #[trigger] child_values(s, ms)[k] == game_value(s.after(ms[k])),
{
    assert forall|k: int| 0 <= k < ms.len() implies s.moves().contains(#[trigger] ms[k]) by {
        assert(ms.contains(ms[k]));
    }
    assert forall|k: int| 0 <= k < ms.len() implies #[trigger] child_values(s, ms)[k]
        == game_value(s.after(ms[k])) by {
        s.lemma_move_step(ms[k]);
    }
}

/// The value backed up from the legal moves of `s`; equal to `game_value(s)`
/// while the game goes on.
pub open spec fn backed_up_value<G: GameState>(s: G) -> int {
    side_best(s.to_move(), child_values(s, s.moves()))
}

/// The value of `s` searched `depth` plies deep: a finished game counts its
/// result times [`OUTCOME_SCALE`], the search horizon counts the static
/// estimate, and every other state the best of its moves for the side to move.
pub open spec fn depth_value<G: GameState>(s: G, depth: nat) -> int
    decreases depth, 1nat,
{
    match s.outcome() {
        Some(v) => v * OUTCOME_SCALE,
        None => if depth == 0 {
            s.heuristic()
        } else {
            side_best(s.to_move(), child_depth_values(s, s.moves(), (depth - 1) as nat))
        },
    }
}

/// The depth-limited values of the states that the moves `ms` lead to.
pub open spec fn child_depth_values<G: GameState>(s: G, ms: Seq<G::Move>, depth: nat) -> Seq<
    int,
>
    decreases depth + 1, 0nat,
{
    ms.map_values(|m: G::Move| depth_value(s.after(m), depth))
}

/// The value backed up from the legal moves of `s`, each searched `depth`
/// plies deep.
pub open spec fn backed_up_depth_value<G: GameState>(s: G, depth: nat) -> int {
    side_best(s.to_move(), child_depth_values(s, s.moves(), depth))
}

/// `v` is a sound answer of an alpha-beta search with window `(alpha, beta)`
/// for a position whose true value is `exact`: strictly inside the window it
/// is `exact`; at or below `alpha` it is an upper bound of `exact`; at or
/// above `beta` a lower bound.
pub open spec fn within_window(v: int, alpha: int, beta: int, exact: int) -> bool {
    alpha < beta ==> {
        &&& (alpha < v < beta ==> v == exact)
        &&& (v <= alpha ==> exact <= v)
        &&& (v >= beta ==> exact >= v)
    }
}

/// The value a search for `p` starts from: the least `i32` for Player1, the
/// greatest for Player2.
pub open spec fn worst_for(p: Player) -> int {
    if p == Player::Player1 {
        i32::MIN as int
    } else {
        i32::MAX as int
    }
}

/// The answer of the alpha-beta search with window `(alpha, beta)` on `s`:
/// the result of a finished game, else the search over its moves.
pub open spec fn ab_value<G: GameState>(s: G, alpha: int, beta: int) -> int
    decreases s.plies_left(), 1nat, 0nat,
    when s.wf()
{
    match s.outcome() {
        Some(v) => v,
        None => ab_fold(s, alpha, beta, 0, worst_for(s.to_move())),
    }
}

/// The alpha-beta search over the moves of `s` in search order, from the
/// `i`-th on, with running value `value` and current window `(alpha, beta)`:
/// each move's state is searched with the current window, the side to move
/// keeps its best value and narrows the window with it, and the search stops
/// once the window is empty.
pub open spec fn ab_fold<G: GameState>(s: G, alpha: int, beta: int, i: int, value: int) -> int
    decreases s.plies_left(), 0nat, (search_order(s, s.moves()).len() - i) as nat,
    when s.wf()
    via ab_fold_decreases::<G>
{
    let order = search_order(s, s.moves());
    if i < 0 || i >= order.len() {
        value
    } else {
        let cv = ab_value(s.after(order[i]), alpha, beta);
        if s.to_move() == Player::Player1 {
            let v = if cv > value {
                cv
            } else {
                value
            };
            let a = if v > alpha {
                v
            } else {
                alpha
            };
            if a >= beta {
                v
            } else {
                ab_fold(s, a, beta, i + 1, v)
            }
        } else {
            let v = if cv < value {
                cv
            } else {
                value
            };
            let b = if v < beta {
                v
            } else {
                beta
            };
            if alpha >= b {
                v
            } else {
                ab_fold(s, alpha, b, i + 1, v)
            }
        }
    }
}

/// The moves searched are legal, so each leaves fewer plies.
#[via_fn]
proof fn ab_fold_decreases<G: GameState>(s: G, alpha: int, beta: int, i: int, value: int) {
    let order = search_order(s, s.moves());
    if 0 <= i < order.len() {
        lemma_search_order_contents(s, s.moves());
        assert(order.contains(order[i]));
        s.lemma_move_step(order[i]);
    }
}

/// The alpha-beta search with window `(alpha, beta)` over the moves of `s`,
/// what the best-move search reports as its value.
pub open spec fn ab_backed_up<G: GameState>(s: G, alpha: int, beta: int) -> int {
    ab_fold(s, alpha, beta, 0, worst_for(s.to_move()))
}

/// The answer of the depth-limited alpha-beta search with window
/// `(alpha, beta)` on `s`: the scaled result of a finished game, the static
/// estimate at the horizon, else the search over its moves.
pub open spec fn ab_depth_value<G: GameState>(s: G, depth: nat, alpha: int, beta: int) -> int
    decreases depth, 1nat, 0nat,
{
    match s.outcome() {
        Some(v) => v * OUTCOME_SCALE,
        None => if depth == 0 {
            s.heuristic()
        } else {
            ab_depth_fold(s, (depth - 1) as nat, alpha, beta, 0, worst_for(s.to_move()))
        },
    }
}

/// As [`ab_fold`], with the moves' states searched `depth` plies deep.
pub open spec fn ab_depth_fold<G: GameState>(
    s: G,
    depth: nat,
    alpha: int,
    beta: int,
    i: int,
    value: int,
) -> int
    decreases depth + 1, 0nat, (search_order(s, s.moves()).len() - i) as nat,
{
    let order = search_order(s, s.moves());
    if i < 0 || i >= order.len() {
        value
    } else {
        let cv = ab_depth_value(s.after(order[i]), depth, alpha, beta);
        if s.to_move() == Player::Player1 {
            let v = if cv > value {
                cv
            } else {
                value
            };
            let a = if v > alpha {
                v
            } else {
                alpha
            };
            if a >= beta {
                v
            } else {
                ab_depth_fold(s, depth, a, beta, i + 1, v)
            }
        } else {
            let v = if cv < value {
                cv
            } else {
                value
            };
            let b = if v < beta {
                v
            } else {
                beta
            };
            if alpha >= b {
                v
            } else {
                ab_depth_fold(s, depth, alpha, b, i + 1, v)
            }
        }
    }
}

/// The depth-limited alpha-beta search over the moves of `s`, each searched
/// `depth` plies deep.
pub open spec fn ab_depth_backed_up<G: GameState>(s: G, depth: nat, alpha: int, beta: int) -> int {
    ab_depth_fold(s, depth, alpha, beta, 0, worst_for(s.to_move()))
}

/// `m` is the first move of `order` whose value in `vals` is `v`.
pub open spec fn first_with_value<M>(order: Seq<M>, vals: Seq<int>, m: M, v: int) -> bool {
    exists|k: int|
        0 <= k < order.len() && #[trigger] order[k] == m && vals[k] == v && forall|j: int|
            0 <= j < k ==> vals[j] != v
}

/// `m` is a move of `order` and, where `v` falls strictly inside the window
/// `(alpha, beta)`, the first move of `order` whose value in `vals` is `v`.
pub open spec fn chosen_in_window<M>(
    order: Seq<M>,
    vals: Seq<int>,
    m: M,
    v: int,
    alpha: int,
    beta: int,
) -> bool {
    exists|k: int|
        0 <= k < order.len() && #[trigger] order[k] == m && (alpha < v < beta ==> vals[k] == v && forall|
            j: int,
        |
            0 <= j < k ==> vals[j] != v)
}

/// Number of leading entries of `keys` that are at least `k`; where `keys`
/// never increases, the place that keeps it so with `k` put after its equals.
pub open spec fn insert_pos(keys: Seq<int>, k: int) -> nat
    decreases keys.len(),
{
    if keys.len() == 0 {
        0
    } else if keys[0] < k {
        0
    } else {
        1 + insert_pos(keys.drop_first(), k)
    }
}

/// The keys of `ms` in `s`.
pub open spec fn keys_of<G: GameState>(s: G, ms: Seq<G::Move>) -> Seq<int> {
    ms.map_values(|m: G::Move| s.ordering_key(m))
}

/// The order in which the alpha-beta searches visit `ms`: sorted by
/// descending `ordering_key`, moves of equal key in the order `ms` lists them.
pub open spec fn search_order<G: GameState>(s: G, ms: Seq<G::Move>) -> Seq<G::Move>
    decreases ms.len(),
{
    if ms.len() == 0 {
        ms
    } else {
        let prev = search_order(s, ms.drop_last());
        prev.insert(insert_pos(keys_of(s, prev), s.ordering_key(ms.last())) as int, ms.last())
    }
}

// ---------------------------------------------------------------------------
// Lemmas on the model
// ---------------------------------------------------------------------------

/// `max_of` is an upper bound of `vals` that is one of them, or the floor.
proof fn lemma_max_of(vals: Seq<int>)
    ensures
        max_of(vals) >= i32::MIN,
        forall|k: int| 0 <= k < vals.len() ==> vals[k] <= max_of(vals),
        max_of(vals) == i32::MIN || exists|k: int| 0 <= k < vals.len() && vals[k] == max_of(vals),
    decreases vals.len(),
{
    if vals.len() > 0 {
        let rest = vals.drop_last();
        lemma_max_of(rest);
        assert forall|k: int| 0 <= k < vals.len() implies vals[k] <= max_of(vals) by {
            if k < vals.len() - 1 {
                assert(vals[k] == rest[k]);
            }
        }
        if max_of(vals) != i32::MIN && max_of(vals) != vals.last() {
            let k = choose|k: int| 0 <= k < rest.len() && rest[k] == max_of(rest);
            assert(vals[k] == max_of(vals));
        }
    }
}

/// `min_of` is a lower bound of `vals` that is one of them, or the ceiling.
proof fn lemma_min_of(vals: Seq<int>)
    ensures
        min_of(vals) <= i32::MAX,
        forall|k: int| 0 <= k < vals.len() ==> vals[k] >= min_of(vals),
        min_of(vals) == i32::MAX || exists|k: int| 0 <= k < vals.len() && vals[k] == min_of(vals),
    decreases vals.len(),
{
    if vals.len() > 0 {
        let rest = vals.drop_last();
        lemma_min_of(rest);
        assert forall|k: int| 0 <= k < vals.len() implies vals[k] >= min_of(vals) by {
            if k < vals.len() - 1 {
                assert(vals[k] == rest[k]);
            }
        }
        if min_of(vals) != i32::MAX && min_of(vals) != vals.last() {
            let k = choose|k: int| 0 <= k < rest.len() && rest[k] == min_of(rest);
            assert(vals[k] == min_of(vals));
        }
    }
}

/// The best of a sequence depends only on which values occur in it.
proof fn lemma_side_best_same_values(p: Player, a: Seq<int>, b: Seq<int>)
    requires
        forall|x: int| a.contains(x) <==> b.contains(x),
    ensures
        side_best(p, a) == side_best(p, b),
{
    lemma_max_of(a);
    lemma_max_of(b);
    lemma_min_of(a);
    lemma_min_of(b);
    if max_of(a) != i32::MIN {
        let k = choose|k: int| 0 <= k < a.len() && a[k] == max_of(a);
        assert(a.contains(a[k]));
        let j = choose|j: int| 0 <= j < b.len() && b[j] == a[k];
    }
    if max_of(b) != i32::MIN {
        let k = choose|k: int| 0 <= k < b.len() && b[k] == max_of(b);
        assert(b.contains(b[k]));
        let j = choose|j: int| 0 <= j < a.len() && a[j] == b[k];
    }
    if min_of(a) != i32::MAX {
        let k = choose|k: int| 0 <= k < a.len() && a[k] == min_of(a);
        assert(a.contains(a[k]));
        let j = choose|j: int| 0 <= j < b.len() && b[j] == a[k];
    }
    if min_of(b) != i32::MAX {
        let k = choose|k: int| 0 <= k < b.len() && b[k] == min_of(b);
        assert(b.contains(b[k]));
        let j = choose|j: int| 0 <= j < a.len() && a[j] == b[k];
    }
}

/// The best of a non-empty sequence lies within any bounds of its values.
proof fn lemma_side_best_bounds(p: Player, vals: Seq<int>, lo: int, hi: int)
    requires
        vals.len() > 0,
        i32::MIN < lo <= hi < i32::MAX,
        forall|k: int| 0 <= k < vals.len() ==> lo <= #[trigger] vals[k] <= hi,
    ensures
        lo <= side_best(p, vals) <= hi,
{
    lemma_max_of(vals);
    lemma_min_of(vals);
    assert(lo <= vals[0] <= hi);
}

/// Seeing more values never makes the side to move worse off.
proof fn lemma_side_best_prefix(vals: Seq<int>, i: int)
    requires
        0 <= i <= vals.len(),
    ensures
        max_of(vals.take(i)) <= max_of(vals),
        min_of(vals.take(i)) >= min_of(vals),
{
    let pre = vals.take(i);
    lemma_max_of(vals);
    lemma_min_of(vals);
    lemma_max_of(pre);
    lemma_min_of(pre);
    if max_of(pre) != i32::MIN {
        let k = choose|k: int| 0 <= k < pre.len() && pre[k] == max_of(pre);
        assert(vals[k] == pre[k]);
    }
    if min_of(pre) != i32::MAX {
        let k = choose|k: int| 0 <= k < pre.len() && pre[k] == min_of(pre);
        assert(vals[k] == pre[k]);
    }
}

/// The best of the first `i + 1` values, from the best of the first `i`.
proof fn lemma_side_best_step(vals: Seq<int>, i: int)
    requires
        0 <= i < vals.len(),
    ensures
        max_of(vals.take(i + 1)) == if vals[i] > max_of(vals.take(i)) {
            vals[i]
        } else {
            max_of(vals.take(i))
        },
        min_of(vals.take(i + 1)) == if vals[i] < min_of(vals.take(i)) {
            vals[i]
        } else {
            min_of(vals.take(i))
        },
{
    assert(vals.take(i + 1).drop_last() =~= vals.take(i));
}

/// The search order holds the same moves as the list it orders.
pub proof fn lemma_search_order_contents<G: GameState>(s: G, ms: Seq<G::Move>)
    ensures
        search_order(s, ms).len() == ms.len(),
        forall|m: G::Move| search_order(s, ms).contains(m) <==> ms.contains(m),
    decreases ms.len(),
{
    if ms.len() > 0 {
        let prev = search_order(s, ms.drop_last());
        lemma_search_order_contents(s, ms.drop_last());
        let pos = insert_pos(keys_of(s, prev), s.ordering_key(ms.last()));
        lemma_insert_pos(keys_of(s, prev), s.ordering_key(ms.last()));
        let r = search_order(s, ms);
        assert(r == prev.insert(pos as int, ms.last()));
        assert forall|m: G::Move| r.contains(m) <==> ms.contains(m) by {
            if r.contains(m) {
                let k = choose|k: int| 0 <= k < r.len() && r[k] == m;
                if k < pos {
                    assert(prev[k] == m);
                    assert(prev.contains(m));
                    assert(ms.drop_last().contains(m));
                    let j = choose|j: int| 0 <= j < ms.drop_last().len() && ms.drop_last()[j] == m;
                    assert(ms[j] == m);
                } else if k == pos {
                    assert(ms[ms.len() - 1] == m);
                } else {
                    assert(prev[k - 1] == m);
                    assert(prev.contains(m));
                    assert(ms.drop_last().contains(m));
                    let j = choose|j: int| 0 <= j < ms.drop_last().len() && ms.drop_last()[j] == m;
                    assert(ms[j] == m);
                }
            }
            if ms.contains(m) {
                let j = choose|j: int| 0 <= j < ms.len() && ms[j] == m;
                if j == ms.len() - 1 {
                    assert(r[pos as int] == m);
                } else {
                    assert(ms.drop_last()[j] == m);
                    assert(ms.drop_last().contains(m));
                    let k = choose|k: int| 0 <= k < prev.len() && prev[k] == m;
                    if k < pos {
                        assert(r[k] == m);
                    } else {
                        assert(r[k + 1] == m);
                    }
                }
            }
        }
    }
}

/// The entries before `insert_pos` are at least `k`; the one at it, if
/// any, is below `k`.
proof fn lemma_insert_pos(keys: Seq<int>, k: int)
    ensures
        insert_pos(keys, k) <= keys.len(),
        forall|j: int| 0 <= j < insert_pos(keys, k) ==> keys[j] >= k,
        insert_pos(keys, k) < keys.len() ==> keys[insert_pos(keys, k) as int] < k,
    decreases keys.len(),
{
    if keys.len() > 0 && keys[0] >= k {
        let rest = keys.drop_first();
        lemma_insert_pos(rest, k);
        assert forall|j: int| 0 <= j < insert_pos(keys, k) implies keys[j] >= k by {
            if j > 0 {
                assert(keys[j] == rest[j - 1]);
            }
        }
    }
}

/// The search order lists the moves by descending key.
pub proof fn search_order_is_sorted<G: GameState>(s: G, ms: Seq<G::Move>)
    ensures
        forall|a: int, b: int|
            0 <= a < b < search_order(s, ms).len() ==> s.ordering_key(search_order(s, ms)[a])
                >= s.ordering_key(search_order(s, ms)[b]),
    decreases ms.len(),
{
    if ms.len() > 0 {
        let prev = search_order(s, ms.drop_last());
        search_order_is_sorted(s, ms.drop_last());
        let k = s.ordering_key(ms.last());
        let ks = keys_of(s, prev);
        lemma_insert_pos(ks, k);
        let pos = insert_pos(ks, k) as int;
        let r = search_order(s, ms);
        assert(r == prev.insert(pos, ms.last()));
        assert forall|a: int, b: int| 0 <= a < b < r.len() implies s.ordering_key(r[a])
            >= s.ordering_key(r[b]) by {
            if b < pos {
                assert(r[a] == prev[a] && r[b] == prev[b]);
            } else if b == pos {
                assert(r[a] == prev[a]);
                assert(ks[a] >= k);
            } else if a > pos {
                assert(r[a] == prev[a - 1] && r[b] == prev[b - 1]);
            } else if a == pos {
                assert(r[b] == prev[b - 1]);
                assert(ks[pos] < k);
                if b - 1 > pos {
                    assert(s.ordering_key(prev[pos]) >= s.ordering_key(prev[b - 1]));
                }
            } else {
                assert(r[a] == prev[a] && r[b] == prev[b - 1]);
            }
        }
    }
}

/// Two lists of the same moves, valued move by move, have the same best.
proof fn lemma_same_moves_same_best<M>(
    p: Player,
    order: Seq<M>,
    ms: Seq<M>,
    f: spec_fn(M) -> int,
    a: Seq<int>,
    b: Seq<int>,
)
    requires
        forall|m: M| order.contains(m) <==> ms.contains(m),
        a.len() == order.len(),
        b.len() == ms.len(),
        forall|k: int| 0 <= k < a.len() ==> #[trigger] a[k] == f(order[k]),
        forall|k: int| 0 <= k < b.len() ==> #[trigger] b[k] == f(ms[k]),
    ensures
        side_best(p, a) == side_best(p, b),
{
    assert forall|x: int| a.contains(x) <==> b.contains(x) by {
        if a.contains(x) {
            let k = choose|k: int| 0 <= k < a.len() && a[k] == x;
            assert(order.contains(order[k]));
            assert(ms.contains(order[k]));
            let j = choose|j: int| 0 <= j < ms.len() && ms[j] == order[k];
            assert(b[j] == x);
        }
        if b.contains(x) {
            let j = choose|j: int| 0 <= j < b.len() && b[j] == x;
            assert(ms.contains(ms[j]));
            assert(order.contains(ms[j]));
            let k = choose|k: int| 0 <= k < order.len() && order[k] == ms[j];
            assert(a[k] == x);
        }
    }
    lemma_side_best_same_values(p, a, b);
}

/// One child of a Player1 node: with the running value a sound answer for
/// the best exact value seen, and the child's answer sound for its window,
/// the new running value is sound for the new best.
proof fn lemma_window_step_max(alpha: int, beta: int, value: int, a: int, best: int, cv: int, c: int)
    requires
        alpha < beta,
        a == if value > alpha {
            value
        } else {
            alpha
        },
        a < beta,
        within_window(value, alpha, beta, best),
        within_window(cv, a, beta, c),
    ensures
        within_window(
            if cv > value {
                cv
            } else {
                value
            },
            alpha,
            beta,
            if c > best {
                c
            } else {
                best
            },
        ),
{
}

/// One child of a Player2 node: with the running value a sound answer for
/// the best exact value seen, and the child's answer sound for its window,
/// the new running value is sound for the new best.
proof fn lemma_window_step_min(alpha: int, beta: int, value: int, b: int, best: int, cv: int, c: int)
    requires
        alpha < beta,
        b == if value < beta {
            value
        } else {
            beta
        },
        alpha < b,
        within_window(value, alpha, beta, best),
        within_window(cv, alpha, b, c),
    ensures
        within_window(
            if cv < value {
                cv
            } else {
                value
            },
            alpha,
            beta,
            if c < best {
                c
            } else {
                best
            },
        ),
{
}

/// Game values are -1, 0 or +1.
pub proof fn lemma_game_value_bounds<G: GameState>(s: G)
    requires
        s.wf(),
    ensures
        -1 <= game_value(s) <= 1,
    decreases s.plies_left(), 1nat,
{
    s.lemma_terminal_iff_outcome();
    s.lemma_value_ranges();
    if s.outcome() is None {
        s.lemma_live_has_moves();
        lemma_backed_up_bounds(s);
    }
}

/// The value backed up from a non-empty list of moves is -1, 0 or +1.
proof fn lemma_backed_up_bounds<G: GameState>(s: G)
    requires
        s.wf(),
        s.moves().len() > 0,
    ensures
        -1 <= backed_up_value(s) <= 1,
    decreases s.plies_left(), 0nat,
{
    let vals = child_values(s, s.moves());
    assert forall|k: int| 0 <= k < vals.len() implies -1 <= #[trigger] vals[k] <= 1 by {
        s.lemma_move_step(s.moves()[k]);
        lemma_game_value_bounds(s.after(s.moves()[k]));
    }
    lemma_side_best_bounds(s.to_move(), vals, -1, 1);
}

/// Depth-limited values stay within the scaled results.
pub proof fn lemma_depth_value_bounds<G: GameState>(s: G, depth: nat)
    requires
        s.wf(),
    ensures
        -OUTCOME_SCALE <= depth_value(s, depth) <= OUTCOME_SCALE,
    decreases depth, 1nat,
{
    s.lemma_terminal_iff_outcome();
    s.lemma_value_ranges();
    if s.outcome() is None && depth > 0 {
        s.lemma_live_has_moves();
        lemma_backed_up_depth_bounds(s, (depth - 1) as nat);
    }
}

/// The depth-limited value backed up from a non-empty list of moves stays
/// within the scaled results.
proof fn lemma_backed_up_depth_bounds<G: GameState>(s: G, depth: nat)
    requires
        s.wf(),
        s.moves().len() > 0,
    ensures
        -OUTCOME_SCALE <= backed_up_depth_value(s, depth) <= OUTCOME_SCALE,
    decreases depth + 1, 0nat,
{
    let vals = child_depth_values(s, s.moves(), depth);
    assert forall|k: int| 0 <= k < vals.len() implies -OUTCOME_SCALE <= #[trigger] vals[k]
        <= OUTCOME_SCALE by {
        s.lemma_move_step(s.moves()[k]);
        lemma_depth_value_bounds(s.after(s.moves()[k]), depth);
    }
    lemma_side_best_bounds(s.to_move(), vals, -OUTCOME_SCALE as int, OUTCOME_SCALE as int);
}

/// Scaling every value by a positive factor scales the best of them.
proof fn lemma_side_best_scaled(p: Player, a: Seq<int>, b: Seq<int>)
    requires
        a.len() == b.len(),
        a.len() > 0,
        forall|k: int| 0 <= k < a.len() ==> -1 <= #[trigger] a[k] <= 1,
        forall|k: int| 0 <= k < a.len() ==> #[trigger] b[k] == a[k] * OUTCOME_SCALE,
    ensures
        side_best(p, b) == side_best(p, a) * OUTCOME_SCALE,
{
    lemma_max_of(a);
    lemma_max_of(b);
    lemma_min_of(a);
    lemma_min_of(b);
    assert(-1 <= a[0] <= 1);
    assert(b[0] == a[0] * OUTCOME_SCALE);
    let ka = choose|k: int| 0 <= k < a.len() && a[k] == max_of(a);
    let kb = choose|k: int| 0 <= k < b.len() && b[k] == max_of(b);
    let ja = choose|k: int| 0 <= k < a.len() && a[k] == min_of(a);
    let jb = choose|k: int| 0 <= k < b.len() && b[k] == min_of(b);
    assert(a[kb] <= a[ka]);
    assert(b[ka] <= b[kb]);
    assert(a[jb] >= a[ja]);
    assert(b[ja] >= b[jb]);
}

/// A depth-limited search at least as deep as the plies left is exact, in
/// units of [`OUTCOME_SCALE`].
pub proof fn full_depth_search_is_exact<G: GameState>(s: G, depth: nat)
    requires
        s.wf(),
        depth >= s.plies_left(),
    ensures
        depth_value(s, depth) == game_value(s) * OUTCOME_SCALE,
    decreases s.plies_left(),
{
    s.lemma_terminal_iff_outcome();
    if s.outcome() is None {
        s.lemma_live_has_moves();
        s.lemma_move_step(s.moves()[0]);
        let a = child_values(s, s.moves());
        let b = child_depth_values(s, s.moves(), (depth - 1) as nat);
        assert forall|k: int| 0 <= k < a.len() implies -1 <= #[trigger] a[k] <= 1 && b[k] == a[k]
            * OUTCOME_SCALE by {
            let c = s.after(s.moves()[k]);
            s.lemma_move_step(s.moves()[k]);
            lemma_game_value_bounds(c);
            full_depth_search_is_exact(c, (depth - 1) as nat);
        }
        lemma_side_best_scaled(s.to_move(), a, b);
    }
}

/// While the game goes on, the value reported with a best move is the game
/// value.
pub proof fn best_move_value_is_game_value<G: GameState>(s: G)
    requires
        s.wf(),
        !s.terminal(),
    ensures
        backed_up_value(s) == game_value(s),
{
    s.lemma_terminal_iff_outcome();
}

/// With Player1 to move and a move that wins at once, a search one ply deep
/// values the position as a scaled win, and any move it may choose for that
/// value wins at once.
pub proof fn depth_one_finds_immediate_win<G: GameState>(s: G, win: G::Move, chosen: G::Move)
    requires
        s.wf(),
        s.to_move() == Player::Player1,
        s.moves().contains(win),
        s.after(win).outcome() == Some(1int),
    ensures
        backed_up_depth_value(s, 0) == OUTCOME_SCALE,
        first_with_value(
            search_order(s, s.moves()),
            child_depth_values(s, search_order(s, s.moves()), 0),
            chosen,
            OUTCOME_SCALE as int,
        ) ==> s.after(chosen).outcome() == Some(1int),
{
    let vals = child_depth_values(s, s.moves(), 0);
    lemma_max_of(vals);
    assert forall|k: int| 0 <= k < vals.len() implies #[trigger] vals[k] <= OUTCOME_SCALE by {
        let c = s.after(s.moves()[k]);
        s.lemma_move_step(s.moves()[k]);
        c.lemma_value_ranges();
    }
    let kw = choose|k: int| 0 <= k < s.moves().len() && s.moves()[k] == win;
    assert(vals[kw] == OUTCOME_SCALE);
    if max_of(vals) != i32::MIN {
        let k = choose|k: int| 0 <= k < vals.len() && vals[k] == max_of(vals);
    }
    let order = search_order(s, s.moves());
    if first_with_value(order, child_depth_values(s, order, 0), chosen, OUTCOME_SCALE as int) {
        lemma_search_order_contents(s, s.moves());
        let k = choose|k: int|
            0 <= k < order.len() && #[trigger] order[k] == chosen && child_depth_values(
                s,
                order,
                0,
            )[k] == OUTCOME_SCALE && forall|j: int|
                0 <= j < k ==> child_depth_values(s, order, 0)[j] != OUTCOME_SCALE;
        assert(order.contains(chosen));
        let c = s.after(chosen);
        s.lemma_move_step(chosen);
        c.lemma_value_ranges();
        c.lemma_terminal_iff_outcome();
    }
}

// ---------------------------------------------------------------------------
// Searches
// ---------------------------------------------------------------------------

/// The legal moves of `state` in search order.
fn ordered_moves<G: GameState>(state: &G) -> (r: Vec<G::Move>)
    requires
        state.wf(),
    ensures
        r@ == search_order(*state, state.moves()),
{
    let moves = state.legal_moves();
    let mut sorted: Vec<G::Move> = Vec::new();
    let mut keys: Vec<i32> = Vec::new();
    let mut i: usize = 0;
    while i < moves.len()
        invariant
            state.wf(),
            i <= moves.len(),
            moves@ == state.moves(),
            sorted@ == search_order(*state, moves@.take(i as int)),
            keys@.len() == sorted@.len(),
            forall|j: int|
                0 <= j < keys@.len() ==> keys@[j] as int == keys_of(*state, sorted@)[j],
        decreases moves.len() - i,
    {
        let m = moves[i];
        proof {
            assert(state.moves().contains(moves@[i as int]));
            state.lemma_legal_in_range(m);
        }
        let k = state.move_ordering_key(&m);
        let ghost ks = keys_of(*state, sorted@);
        let mut j: usize = 0;
        assert(ks.skip(0) =~= ks);
        while j < sorted.len() && keys[j] >= k
            invariant
                j <= sorted.len(),
                keys@.len() == sorted@.len(),
                ks == keys_of(*state, sorted@),
                forall|t: int| 0 <= t < keys@.len() ==> keys@[t] as int == ks[t],
                insert_pos(ks, k as int) == j + insert_pos(ks.skip(j as int), k as int),
            decreases sorted.len() - j,
        {
            assert(ks.skip(j as int).drop_first() =~= ks.skip(j as int + 1));
            j += 1;
        }
        assert(insert_pos(ks, k as int) == j);
        proof {
            lemma_insert_pos(ks, k as int);
            assert(moves@.take(i as int + 1).drop_last() =~= moves@.take(i as int));
            assert(moves@.take(i as int + 1).last() == m);
        }
        let ghost old_sorted = sorted@;
        let ghost old_keys = keys@;
        sorted.insert(j, m);
        keys.insert(j, k);
        assert forall|t: int| 0 <= t < keys@.len() implies keys@[t] as int == keys_of(
            *state,
            sorted@,
        )[t] by {
            if t < j {
                assert(sorted@[t] == old_sorted[t] && keys@[t] == old_keys[t]);
            } else if t > j {
                assert(sorted@[t] == old_sorted[t - 1] && keys@[t] == old_keys[t - 1]);
            }
        }
        i += 1;
    }
    assert(moves@.take(moves.len() as int) =~= moves@);
    sorted
}

/// The game value of `state` by exhaustive minimax search to finished games.
pub fn minimax_value<G: GameState>(state: &G) -> (r: i32)
    requires
        state.wf(),
    ensures
        r == game_value(*state),
    decreases state.plies_left(),
{
    proof {
        state.lemma_terminal_iff_outcome();
    }
    if state.is_terminal() {
        return state.terminal_value().unwrap();
    }
    let moves = state.legal_moves();
    let maximizing = state.current_player() == Player::Player1;
    let ghost vals = child_values(*state, moves@);
    let mut value: i32 = if maximizing {
        i32::MIN
    } else {
        i32::MAX
    };
    let mut i: usize = 0;
    while i < moves.len()
        invariant
            state.wf(),
            i <= moves.len(),
            moves@ == state.moves(),
            vals == child_values(*state, moves@),
            maximizing == (state.to_move() == Player::Player1),
            value == side_best(state.to_move(), vals.take(i as int)),
        decreases moves.len() - i,
    {
        let mv = moves[i];
        proof {
            assert(state.moves().contains(moves@[i as int]));
            state.lemma_move_step(mv);
            lemma_side_best_step(vals, i as int);
        }
        let v = minimax_value(&state.apply_move(&mv));
        if maximizing {
            if v > value {
                value = v;
            }
        } else if v < value {
            value = v;
        }
        i += 1;
    }
    assert(vals.take(moves.len() as int) =~= vals);
    value
}

/// A best move of `state` for the side to move, with the value it secures;
/// `None` when there is no legal move.  Among equally good moves the first in
/// `legal_moves` order is chosen.
pub fn minimax_best_move<G: GameState>(state: &G) -> (r: Option<(G::Move, i32)>)
    requires
        state.wf(),
    ensures
        r is None <==> state.moves().len() == 0,
        r matches Some((m, v)) ==> v == backed_up_value(*state) && first_with_value(
            state.moves(),
            child_values(*state, state.moves()),
            m,
            v as int,
        ),
{
    let moves = state.legal_moves();
    if moves.len() == 0 {
        return None;
    }
    let maximizing = state.current_player() == Player::Player1;
    let ghost vals = child_values(*state, moves@);
    let mut best_value: i32 = if maximizing {
        i32::MIN
    } else {
        i32::MAX
    };
    let mut best_move: Option<G::Move> = None;
    let ghost mut best_k: int = 0;
    let mut i: usize = 0;
    while i < moves.len()
        invariant
            state.wf(),
            i <= moves.len(),
            moves@ == state.moves(),
            vals == child_values(*state, moves@),
            maximizing == (state.to_move() == Player::Player1),
            best_value == side_best(state.to_move(), vals.take(i as int)),
            i > 0 ==> best_move is Some,
            best_move matches Some(m) ==> 0 <= best_k < i && moves@[best_k] == m && vals[best_k]
                == best_value && forall|j: int| 0 <= j < best_k ==> vals[j] != best_value,
        decreases moves.len() - i,
    {
        let mv = moves[i];
        proof {
            assert(state.moves().contains(moves@[i as int]));
            state.lemma_move_step(mv);
            lemma_game_value_bounds(state.after(mv));
            lemma_side_best_step(vals, i as int);
            lemma_max_of(vals.take(i as int));
            lemma_min_of(vals.take(i as int));
        }
        let child_value = minimax_value(&state.apply_move(&mv));
        let is_better = if maximizing {
            child_value > best_value
        } else {
            child_value < best_value
        };
        if is_better {
            proof {
                assert forall|j: int| 0 <= j < i implies vals[j] != child_value by {
                    assert(vals.take(i as int)[j] == vals[j]);
                }
                best_k = i as int;
            }
            best_value = child_value;
            best_move = Some(mv);
        }
        i += 1;
    }
    assert(vals.take(moves.len() as int) =~= vals);
    match best_move {
        Some(m) => Some((m, best_value)),
        None => None,
    }
}

/// The game value of `state` by alpha-beta search, moves visited in search
/// order.  `alpha` is what Player1 can already secure, `beta` what Player2
/// can; a node stops as soon as `alpha >= beta`.  The answer is exact inside
/// the window and a bound outside it.
pub fn minimax_value_ab<G: GameState>(state: &G, alpha: i32, beta: i32) -> (r: i32)
    requires
        state.wf(),
    ensures
        -1 <= r <= 1,
        within_window(r as int, alpha as int, beta as int, game_value(*state)),
        r == ab_value(*state, alpha as int, beta as int),
    decreases state.plies_left(),
{
    proof {
        state.lemma_terminal_iff_outcome();
        state.lemma_value_ranges();
    }
    if state.is_terminal() {
        return state.terminal_value().unwrap();
    }
    proof {
        state.lemma_live_has_moves();
        lemma_search_order_contents(*state, state.moves());
    }
    let maximizing = state.current_player() == Player::Player1;
    let mut value: i32 = if maximizing {
        i32::MIN
    } else {
        i32::MAX
    };
    let moves = ordered_moves(state);
    let ghost p = state.to_move();
    let ghost vals = child_values(*state, moves@);
    let mut a = alpha;
    let mut b = beta;
    let mut i: usize = 0;
    while i < moves.len() && (i == 0 || a < b)
        invariant
            state.wf(),
            state.outcome() is None,
            i <= moves.len(),
            moves.len() > 0,
            forall|m: G::Move| moves@.contains(m) <==> state.moves().contains(m),
            vals == child_values(*state, moves@),
            moves@ == search_order(*state, state.moves()),
            (i == 0 || a < b) ==> ab_value(*state, alpha as int, beta as int) == ab_fold(
                *state,
                a as int,
                b as int,
                i as int,
                value as int,
            ),
            !(i == 0 || a < b) ==> ab_value(*state, alpha as int, beta as int) == value,
            p == state.to_move(),
            maximizing == (p == Player::Player1),
            maximizing ==> a == (if value > alpha {
                value
            } else {
                alpha
            }) && b == beta,
            !maximizing ==> a == alpha && b == (if value < beta {
                value
            } else {
                beta
            }),
            i > 0 ==> -1 <= value <= 1,
            i == 0 ==> value == side_best(p, vals.take(0)),
            within_window(
                value as int,
                alpha as int,
                beta as int,
                side_best(p, vals.take(i as int)),
            ),
        decreases moves.len() - i,
    {
        let mv = moves[i];
        proof {
            assert(moves@.contains(moves@[i as int]));
            state.lemma_move_step(mv);
            lemma_side_best_step(vals, i as int);
        }
        let cv = minimax_value_ab(&state.apply_move(&mv), a, b);
        proof {
            if alpha < beta {
                if maximizing {
                    lemma_window_step_max(
                        alpha as int,
                        beta as int,
                        value as int,
                        a as int,
                        side_best(p, vals.take(i as int)),
                        cv as int,
                        vals[i as int],
                    );
                } else {
                    lemma_window_step_min(
                        alpha as int,
                        beta as int,
                        value as int,
                        b as int,
                        side_best(p, vals.take(i as int)),
                        cv as int,
                        vals[i as int],
                    );
                }
            }
        }
        if maximizing {
            if cv > value {
                value = cv;
            }
            if value > a {
                a = value;
            }
        } else {
            if cv < value {
                value = cv;
            }
            if value < b {
                b = value;
            }
        }
        i += 1;
    }
    proof {
        lemma_child_values(*state, moves@);
        lemma_child_values(*state, state.moves());
        lemma_same_moves_same_best(
            p,
            moves@,
            state.moves(),
            |m: G::Move| game_value(state.after(m)),
            vals,
            child_values(*state, state.moves()),
        );
        if alpha < beta {
            lemma_side_best_prefix(vals, i as int);
            if i == moves.len() {
                assert(vals.take(i as int) =~= vals);
            }
        }
    }
    value
}

/// The game value of `state` by alpha-beta search over the whole `i32` window.
pub fn minimax_value_ab_root<G: GameState>(state: &G) -> (r: i32)
    requires
        state.wf(),
    ensures
        r == game_value(*state),
{
    let r = minimax_value_ab(state, i32::MIN, i32::MAX);
    proof {
        alpha_beta_agrees_with_minimax(*state, r as int);
    }
    r
}

/// An alpha-beta answer for the whole `i32` window is the exact game value,
/// the one that plain minimax finds.
pub proof fn alpha_beta_agrees_with_minimax<G: GameState>(s: G, v: int)
    requires
        s.wf(),
        i32::MIN <= v <= i32::MAX,
        within_window(v, i32::MIN as int, i32::MAX as int, game_value(s)),
    ensures
        v == game_value(s),
{
    lemma_game_value_bounds(s);
}

/// A best move of `state` by alpha-beta search with window `(alpha, beta)`,
/// moves visited in search order, with its value; `None` when there is no
/// legal move.
fn minimax_best_move_ab_inner<G: GameState>(state: &G, alpha: i32, beta: i32) -> (r: Option<
    (G::Move, i32),
>)
    requires
        state.wf(),
    ensures
        r is None <==> state.moves().len() == 0,
        r matches Some((m, v)) ==> {
            &&& -1 <= v <= 1
            &&& within_window(v as int, alpha as int, beta as int, backed_up_value(*state))
            &&& v == ab_backed_up(*state, alpha as int, beta as int)
            &&& state.outcome() is None ==> v == ab_value(*state, alpha as int, beta as int)
            &&& chosen_in_window(
                search_order(*state, state.moves()),
                child_values(*state, search_order(*state, state.moves())),
                m,
                v as int,
                alpha as int,
                beta as int,
            )
        },
{
    let moves = ordered_moves(state);
    proof {
        lemma_search_order_contents(*state, state.moves());
    }
    if moves.len() == 0 {
        return None;
    }
    let maximizing = state.current_player() == Player::Player1;
    let ghost p = state.to_move();
    let ghost vals = child_values(*state, moves@);
    proof {
        lemma_child_values(*state, moves@);
    }
    let mut best_value: i32 = if maximizing {
        i32::MIN
    } else {
        i32::MAX
    };
    let mut best_move: Option<G::Move> = None;
    let ghost mut best_k: int = 0;
    let mut a = alpha;
    let mut b = beta;
    let mut i: usize = 0;
    while i < moves.len() && (i == 0 || a < b)
        invariant
            state.wf(),
            i <= moves.len(),
            moves.len() > 0,
            forall|m: G::Move| moves@.contains(m) <==> state.moves().contains(m),
            vals == child_values(*state, moves@),
            moves@ == search_order(*state, state.moves()),
            (i == 0 || a < b) ==> ab_backed_up(*state, alpha as int, beta as int) == ab_fold(
                *state,
                a as int,
                b as int,
                i as int,
                best_value as int,
            ),
            !(i == 0 || a < b) ==> ab_backed_up(*state, alpha as int, beta as int) == best_value,
            forall|k: int|
                0 <= k < moves.len() ==> #[trigger] vals[k] == game_value(
                    state.after(moves@[k]),
                ),
            vals.len() == moves.len(),
            p == state.to_move(),
            maximizing == (p == Player::Player1),
            maximizing ==> a == (if best_value > alpha {
                best_value
            } else {
                alpha
            }) && b == beta,
            !maximizing ==> a == alpha && b == (if best_value < beta {
                best_value
            } else {
                beta
            }),
            i == 0 ==> best_value == side_best(p, vals.take(0)) && best_move is None,
            i > 0 ==> -1 <= best_value <= 1 && best_move is Some,
            within_window(
                best_value as int,
                alpha as int,
                beta as int,
                side_best(p, vals.take(i as int)),
            ),
            alpha < beta && maximizing ==> forall|j: int|
                0 <= j < i ==> #[trigger] vals[j] <= a || vals[j] >= beta,
            alpha < beta && !maximizing ==> forall|j: int|
                0 <= j < i ==> #[trigger] vals[j] >= b || vals[j] <= alpha,
            best_move matches Some(m) ==> 0 <= best_k < i && moves@[best_k] == m && (alpha
                < best_value < beta ==> vals[best_k] == best_value && forall|j: int|
                0 <= j < best_k ==> vals[j] != best_value),
        decreases moves.len() - i,
    {
        let mv = moves[i];
        proof {
            assert(moves@.contains(moves@[i as int]));
            state.lemma_move_step(mv);
            lemma_side_best_step(vals, i as int);
        }
        let child_value = minimax_value_ab(&state.apply_move(&mv), a, b);
        proof {
            if alpha < beta {
                if maximizing {
                    lemma_window_step_max(
                        alpha as int,
                        beta as int,
                        best_value as int,
                        a as int,
                        side_best(p, vals.take(i as int)),
                        child_value as int,
                        vals[i as int],
                    );
                } else {
                    lemma_window_step_min(
                        alpha as int,
                        beta as int,
                        best_value as int,
                        b as int,
                        side_best(p, vals.take(i as int)),
                        child_value as int,
                        vals[i as int],
                    );
                }
            }
        }
        let is_better = if maximizing {
            child_value > best_value
        } else {
            child_value < best_value
        };
        if is_better {
            proof {
                best_k = i as int;
            }
            best_value = child_value;
            best_move = Some(mv);
        }
        if maximizing {
            if best_value > a {
                a = best_value;
            }
        } else {
            if best_value < b {
                b = best_value;
            }
        }
        i += 1;
    }
    proof {
        lemma_child_values(*state, state.moves());
        lemma_same_moves_same_best(
            p,
            moves@,
            state.moves(),
            |m: G::Move| game_value(state.after(m)),
            vals,
            child_values(*state, state.moves()),
        );
        if alpha < beta {
            lemma_side_best_prefix(vals, i as int);
            if i == moves.len() {
                assert(vals.take(i as int) =~= vals);
            }
        }
        if best_move is Some {
            assert(chosen_in_window(
                moves@,
                vals,
                moves@[best_k],
                best_value as int,
                alpha as int,
                beta as int,
            ));
        }
    }
    match best_move {
        Some(m) => Some((m, best_value)),
        None => None,
    }
}

/// A best move of `state` by alpha-beta search over the whole `i32` window,
/// with its value; `None` when there is no legal move.  Among equally good
/// moves the first in search order is chosen.
pub fn minimax_best_move_ab<G: GameState>(state: &G) -> (r: Option<(G::Move, i32)>)
    requires
        state.wf(),
    ensures
        r is None <==> state.moves().len() == 0,
        r matches Some((m, v)) ==> v == backed_up_value(*state) && first_with_value(
            search_order(*state, state.moves()),
            child_values(*state, search_order(*state, state.moves())),
            m,
            v as int,
        ),
{
    let r = minimax_best_move_ab_inner(state, i32::MIN, i32::MAX);
    proof {
        if state.moves().len() > 0 {
            lemma_backed_up_bounds(*state);
        }
    }
    r
}

/// The value of `state` searched `depth` plies deep by alpha-beta search,
/// moves visited in search order: a finished game scores its result times
/// [`OUTCOME_SCALE`], the horizon scores `heuristic_value`.  The answer is
/// exact inside the window `(alpha, beta)` and a bound outside it.
pub fn minimax_value_ab_depth<G: GameState>(state: &G, depth: u32, alpha: i32, beta: i32) -> (r:
    i32)
    requires
        state.wf(),
    ensures
        -OUTCOME_SCALE <= r <= OUTCOME_SCALE,
        within_window(r as int, alpha as int, beta as int, depth_value(*state, depth as nat)),
        state.outcome() matches Some(t) ==> r == t * OUTCOME_SCALE,
        state.outcome() is None && depth == 0 ==> r == state.heuristic(),
        r == ab_depth_value(*state, depth as nat, alpha as int, beta as int),
    decreases depth,
{
    proof {
        state.lemma_terminal_iff_outcome();
        state.lemma_value_ranges();
    }
    if let Some(v) = state.terminal_value() {
        return v * OUTCOME_SCALE;
    }
    if depth == 0 {
        return state.heuristic_value();
    }
    proof {
        state.lemma_live_has_moves();
        lemma_search_order_contents(*state, state.moves());
    }
    let maximizing = state.current_player() == Player::Player1;
    let mut value: i32 = if maximizing {
        i32::MIN
    } else {
        i32::MAX
    };
    let moves = ordered_moves(state);
    let ghost p = state.to_move();
    let ghost vals = child_depth_values(*state, moves@, (depth - 1) as nat);
    let mut a = alpha;
    let mut b = beta;
    let mut i: usize = 0;
    while i < moves.len() && (i == 0 || a < b)
        invariant
            state.wf(),
            state.outcome() is None,
            i <= moves.len(),
            moves.len() > 0,
            forall|m: G::Move| moves@.contains(m) <==> state.moves().contains(m),
            vals == child_depth_values(*state, moves@, (depth - 1) as nat),
            moves@ == search_order(*state, state.moves()),
            (i == 0 || a < b) ==> ab_depth_value(*state, depth as nat, alpha as int, beta as int)
                == ab_depth_fold(
                *state,
                (depth - 1) as nat,
                a as int,
                b as int,
                i as int,
                value as int,
            ),
            !(i == 0 || a < b) ==> ab_depth_value(*state, depth as nat, alpha as int, beta as int)
                == value,
            depth >= 1,
            p == state.to_move(),
            maximizing == (p == Player::Player1),
            maximizing ==> a == (if value > alpha {
                value
            } else {
                alpha
            }) && b == beta,
            !maximizing ==> a == alpha && b == (if value < beta {
                value
            } else {
                beta
            }),
            i > 0 ==> -OUTCOME_SCALE <= value <= OUTCOME_SCALE,
            i == 0 ==> value == side_best(p, vals.take(0)),
            within_window(
                value as int,
                alpha as int,
                beta as int,
                side_best(p, vals.take(i as int)),
            ),
        decreases moves.len() - i,
    {
        let mv = moves[i];
        proof {
            assert(moves@.contains(moves@[i as int]));
            state.lemma_move_step(mv);
            lemma_side_best_step(vals, i as int);
        }
        let cv = minimax_value_ab_depth(&state.apply_move(&mv), depth - 1, a, b);
        proof {
            if alpha < beta {
                if maximizing {
                    lemma_window_step_max(
                        alpha as int,
                        beta as int,
                        value as int,
                        a as int,
                        side_best(p, vals.take(i as int)),
                        cv as int,
                        vals[i as int],
                    );
                } else {
                    lemma_window_step_min(
                        alpha as int,
                        beta as int,
                        value as int,
                        b as int,
                        side_best(p, vals.take(i as int)),
                        cv as int,
                        vals[i as int],
                    );
                }
            }
        }
        if maximizing {
            if cv > value {
                value = cv;
            }
            if value > a {
                a = value;
            }
        } else {
            if cv < value {
                value = cv;
            }
            if value < b {
                b = value;
            }
        }
        i += 1;
    }
    proof {
        lemma_same_moves_same_best(
            p,
            moves@,
            state.moves(),
            |m: G::Move| depth_value(state.after(m), (depth - 1) as nat),
            vals,
            child_depth_values(*state, state.moves(), (depth - 1) as nat),
        );
        if alpha < beta {
            lemma_side_best_prefix(vals, i as int);
            if i == moves.len() {
                assert(vals.take(i as int) =~= vals);
            }
        }
    }
    value
}

/// A best move of `state` by alpha-beta search `depth` plies deep with window
/// `(alpha, beta)`, moves visited in search order, with its value; `None`
/// when there is no legal move.
pub fn minimax_best_move_ab_depth_inner<G: GameState>(
    state: &G,
    depth: u32,
    alpha: i32,
    beta: i32,
) -> (r: Option<(G::Move, i32)>)
    requires
        state.wf(),
        depth >= 1,
    ensures
        r is None <==> state.moves().len() == 0,
        r matches Some((m, v)) ==> {
            &&& -OUTCOME_SCALE <= v <= OUTCOME_SCALE
            &&& within_window(
                v as int,
                alpha as int,
                beta as int,
                backed_up_depth_value(*state, (depth - 1) as nat),
            )
            &&& v == ab_depth_backed_up(*state, (depth - 1) as nat, alpha as int, beta as int)
            &&& state.outcome() is None ==> v == ab_depth_value(
                *state,
                depth as nat,
                alpha as int,
                beta as int,
            )
            &&& chosen_in_window(
                search_order(*state, state.moves()),
                child_depth_values(*state, search_order(*state, state.moves()), (depth - 1) as nat),
                m,
                v as int,
                alpha as int,
                beta as int,
            )
        },
{
    let moves = ordered_moves(state);
    proof {
        lemma_search_order_contents(*state, state.moves());
    }
    if moves.len() == 0 {
        return None;
    }
    let maximizing = state.current_player() == Player::Player1;
    let ghost p = state.to_move();
    let ghost vals = child_depth_values(*state, moves@, (depth - 1) as nat);
    let mut best_value: i32 = if maximizing {
        i32::MIN
    } else {
        i32::MAX
    };
    let mut best_move: Option<G::Move> = None;
    let ghost mut best_k: int = 0;
    let mut a = alpha;
    let mut b = beta;
    let mut i: usize = 0;
    while i < moves.len() && (i == 0 || a < b)
        invariant
            state.wf(),
            i <= moves.len(),
            moves.len() > 0,
            forall|m: G::Move| moves@.contains(m) <==> state.moves().contains(m),
            vals == child_depth_values(*state, moves@, (depth - 1) as nat),
            moves@ == search_order(*state, state.moves()),
            (i == 0 || a < b) ==> ab_depth_backed_up(
                *state,
                (depth - 1) as nat,
                alpha as int,
                beta as int,
            ) == ab_depth_fold(
                *state,
                (depth - 1) as nat,
                a as int,
                b as int,
                i as int,
                best_value as int,
            ),
            !(i == 0 || a < b) ==> ab_depth_backed_up(
                *state,
                (depth - 1) as nat,
                alpha as int,
                beta as int,
            ) == best_value,
            depth >= 1,
            vals.len() == moves.len(),
            p == state.to_move(),
            maximizing == (p == Player::Player1),
            maximizing ==> a == (if best_value > alpha {
                best_value
            } else {
                alpha
            }) && b == beta,
            !maximizing ==> a == alpha && b == (if best_value < beta {
                best_value
            } else {
                beta
            }),
            i == 0 ==> best_value == side_best(p, vals.take(0)) && best_move is None,
            i > 0 ==> -OUTCOME_SCALE <= best_value <= OUTCOME_SCALE && best_move is Some,
            within_window(
                best_value as int,
                alpha as int,
                beta as int,
                side_best(p, vals.take(i as int)),
            ),
            alpha < beta && maximizing ==> forall|j: int|
                0 <= j < i ==> #[trigger] vals[j] <= a || vals[j] >= beta,
            alpha < beta && !maximizing ==> forall|j: int|
                0 <= j < i ==> #[trigger] vals[j] >= b || vals[j] <= alpha,
            best_move matches Some(m) ==> 0 <= best_k < i && moves@[best_k] == m && (alpha
                < best_value < beta ==> vals[best_k] == best_value && forall|j: int|
                0 <= j < best_k ==> vals[j] != best_value),
        decreases moves.len() - i,
    {
        let mv = moves[i];
        proof {
            assert(moves@.contains(moves@[i as int]));
            state.lemma_move_step(mv);
            lemma_side_best_step(vals, i as int);
        }
        let child_value = minimax_value_ab_depth(&state.apply_move(&mv), depth - 1, a, b);
        proof {
            if alpha < beta {
                if maximizing {
                    lemma_window_step_max(
                        alpha as int,
                        beta as int,
                        best_value as int,
                        a as int,
                        side_best(p, vals.take(i as int)),
                        child_value as int,
                        vals[i as int],
                    );
                } else {
                    lemma_window_step_min(
                        alpha as int,
                        beta as int,
                        best_value as int,
                        b as int,
                        side_best(p, vals.take(i as int)),
                        child_value as int,
                        vals[i as int],
                    );
                }
            }
        }
        let is_better = if maximizing {
            child_value > best_value
        } else {
            child_value < best_value
        };
        if is_better {
            proof {
                best_k = i as int;
            }
            best_value = child_value;
            best_move = Some(mv);
        }
        if maximizing {
            if best_value > a {
                a = best_value;
            }
        } else {
            if best_value < b {
                b = best_value;
            }
        }
        i += 1;
    }
    proof {
        lemma_same_moves_same_best(
            p,
            moves@,
            state.moves(),
            |m: G::Move| depth_value(state.after(m), (depth - 1) as nat),
            vals,
            child_depth_values(*state, state.moves(), (depth - 1) as nat),
        );
        if alpha < beta {
            lemma_side_best_prefix(vals, i as int);
            if i == moves.len() {
                assert(vals.take(i as int) =~= vals);
            }
        }
        if best_move is Some {
            assert(chosen_in_window(
                moves@,
                vals,
                moves@[best_k],
                best_value as int,
                alpha as int,
                beta as int,
            ));
        }
    }
    match best_move {
        Some(m) => Some((m, best_value)),
        None => None,
    }
}

/// The value of `state` searched `depth` plies deep by alpha-beta search over
/// the whole `i32` window.
pub fn minimax_value_ab_depth_root<G: GameState>(state: &G, depth: u32) -> (r: i32)
    requires
        state.wf(),
    ensures
        r == depth_value(*state, depth as nat),
{
    let r = minimax_value_ab_depth(state, depth, i32::MIN, i32::MAX);
    proof {
        lemma_depth_value_bounds(*state, depth as nat);
    }
    r
}

/// A best move of `state` by alpha-beta search `depth` plies deep over the
/// whole `i32` window, with its value; `None` when there is no legal move.
/// Among equally good moves the first in search order is chosen.
pub fn minimax_best_move_ab_depth<G: GameState>(state: &G, depth: u32) -> (r: Option<
    (G::Move, i32),
>)
    requires
        state.wf(),
        depth >= 1,
    ensures
        r is None <==> state.moves().len() == 0,
        r matches Some((m, v)) ==> v == backed_up_depth_value(*state, (depth - 1) as nat)
            && first_with_value(
            search_order(*state, state.moves()),
            child_depth_values(*state, search_order(*state, state.moves()), (depth - 1) as nat),
            m,
            v as int,
        ),
{
    let r = minimax_best_move_ab_depth_inner(state, depth, i32::MIN, i32::MAX);
    proof {
        if state.moves().len() > 0 {
            lemma_backed_up_depth_bounds(*state, (depth - 1) as nat);
        }
    }
    r
}

} // verus!
