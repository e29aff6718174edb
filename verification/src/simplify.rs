//! Compression of a path into waypoints: its first cell, the cells at which
//! it turns, and its last cell.

use vstd::prelude::*;
use crate::coords::{sub_coords, GridCoord};
use crate::path::adjacent;

verus! {

/// The vector from the cell at `i` to the next one.
pub open spec fn step(p: Seq<GridCoord>, i: int) -> (int, int) {
    (p[i + 1].0 - p[i].0, p[i + 1].1 - p[i].1)
}

/// The path arrives at the cell at `i` by one vector and leaves it by
/// another.
pub open spec fn is_turn(p: Seq<GridCoord>, i: int) -> bool {
    0 < i < p.len() - 1 && step(p, i - 1) != step(p, i)
}

/// The first cell of `p` and, in order, the cells at which it turns, as far
/// as they stand before place `n`.
pub open spec fn waypoints_before(p: Seq<GridCoord>, n: int) -> Seq<GridCoord>
    decreases n,
{
    if n <= 1 {
        seq![p[0]]
    } else if is_turn(p, n - 1) {
        waypoints_before(p, n - 1).push(p[n - 1])
    } else {
        waypoints_before(p, n - 1)
    }
}

/// A path of up to three cells as it is; of a longer one the first cell, the
/// turns and the last cell.
pub open spec fn simplified(p: Seq<GridCoord>) -> Seq<GridCoord> {
    if p.len() <= 3 {
        p
    } else {
        waypoints_before(p, p.len() - 1).push(p.last())
    }
}

proof fn lemma_waypoints_first(p: Seq<GridCoord>, n: int)
    ensures
        waypoints_before(p, n).len() >= 1,
        waypoints_before(p, n).first() == p[0],
    decreases n,
{
    if n > 1 {
        lemma_waypoints_first(p, n - 1);
    }
}

/// The waypoints of `path`: straight runs, diagonal ones too, collapse into
/// their two ends, and every turn stays.
pub fn simplify_path(path: Vec<GridCoord>) -> (waypoints: Vec<GridCoord>)
    ensures
        waypoints@ == simplified(path@),
        path@.len() >= 1 ==> waypoints@.first() == path@.first() && waypoints@.last()
            == path@.last(),
{
    if path.len() <= 3 {
        return path;
    }
    let mut waypoints: Vec<GridCoord> = Vec::new();
    waypoints.push(path[0]);
    let mut prev_dir = sub_coords(path[1], path[0]);
    let mut i: usize = 1;
    while i < path.len() - 1
        invariant
            path@.len() > 3,
            1 <= i <= path@.len() - 1,
            waypoints@ == waypoints_before(path@, i as int),
            prev_dir.0 == step(path@, i - 1).0,
            prev_dir.1 == step(path@, i - 1).1,
        decreases path@.len() - i,
    {
        let cur_dir = sub_coords(path[i + 1], path[i]);
        if cur_dir.0 != prev_dir.0 || cur_dir.1 != prev_dir.1 {
            waypoints.push(path[i]);
            prev_dir = cur_dir;
        }
        i = i + 1;
    }
    waypoints.push(path[path.len() - 1]);
    proof {
        lemma_waypoints_first(path@, path@.len() - 1);
    }
    waypoints
}

/// Every cell of `p` is one of the eight around the cell before it.
pub open spec fn unit_steps(p: Seq<GridCoord>) -> bool {
    forall|i: int| 0 <= i < p.len() - 1 ==> adjacent(#[trigger] p[i], p[i + 1])
}

/// The places in `p` of the cells of `waypoints_before(p, n)`.
spec fn places_before(p: Seq<GridCoord>, n: int) -> Seq<int>
    decreases n,
{
    if n <= 1 {
        seq![0int]
    } else if is_turn(p, n - 1) {
        places_before(p, n - 1).push(n - 1)
    } else {
        places_before(p, n - 1)
    }
}

proof fn lemma_places(p: Seq<GridCoord>, n: int)
    requires
        1 <= n,
    ensures
        places_before(p, n).len() == waypoints_before(p, n).len(),
        places_before(p, n).len() >= 1,
        places_before(p, n)[0] == 0,
        forall|j: int|
            0 <= j < places_before(p, n).len() ==> 0 <= (#[trigger] places_before(p, n)[j]) < n
                && waypoints_before(p, n)[j] == p[places_before(p, n)[j]],
        forall|j: int|
            0 < j < places_before(p, n).len() ==> is_turn(p, #[trigger] places_before(p, n)[j]),
        forall|j: int|
            0 <= j < places_before(p, n).len() - 1 ==> (#[trigger] places_before(p, n)[j])
                < places_before(p, n)[j + 1],
        forall|j: int, i: int|
            0 <= j < places_before(p, n).len() - 1 && (#[trigger] places_before(p, n)[j]) < i
                < places_before(p, n)[j + 1] ==> !#[trigger] is_turn(p, i),
        forall|i: int| places_before(p, n).last() < i < n ==> !#[trigger] is_turn(p, i),
    decreases n,
{
    if n > 1 {
        lemma_places(p, n - 1);
        let s0 = places_before(p, n - 1);
        let s = places_before(p, n);
        if is_turn(p, n - 1) {
            assert forall|j: int, i: int|
                0 <= j < s.len() - 1 && (#[trigger] s[j]) < i < s[j + 1] implies !#[trigger] is_turn(
                p,
                i,
            ) by {
                if j < s0.len() - 1 {
                    assert(s[j] == s0[j] && s[j + 1] == s0[j + 1]);
                } else {
                    assert(s[j] == s0.last());
                }
            }
        }
    }
}

/// Between two places with no turn strictly between them the path keeps
/// one vector.
proof fn lemma_run(p: Seq<GridCoord>, a: int, b: int)
    requires
        0 <= a < b <= p.len() - 1,
        forall|i: int| a < i < b ==> !#[trigger] is_turn(p, i),
    ensures
        step(p, b - 1) == step(p, a),
        p[b].0 - p[a].0 == (b - a) * step(p, a).0,
        p[b].1 - p[a].1 == (b - a) * step(p, a).1,
    decreases b - a,
{
    let d = step(p, a);
    if b > a + 1 {
        lemma_run(p, a, b - 1);
        assert(!is_turn(p, b - 1));
        assert((b - a) * d.0 == (b - 1 - a) * d.0 + d.0) by (nonlinear_arith);
        assert((b - a) * d.1 == (b - 1 - a) * d.1 + d.1) by (nonlinear_arith);
    } else {
        assert((b - a) * d.0 == d.0 && (b - a) * d.1 == d.1) by (nonlinear_arith)
            requires
                b - a == 1,
        ;
    }
}

proof fn lemma_scaled_unit(k: int, a: int, m: int, b: int)
    requires
        k >= 1,
        m >= 1,
        -1 <= a <= 1,
        -1 <= b <= 1,
        k * a == m * b,
    ensures
        a == b,
{
    assert(a == b) by (nonlinear_arith)
        requires
            k >= 1,
            m >= 1,
            -1 <= a <= 1,
            -1 <= b <= 1,
            k * a == m * b,
    ;
}

proof fn lemma_all_turns(q: Seq<GridCoord>, k: int)
    requires
        forall|j: int| 0 < j < q.len() - 1 ==> #[trigger] is_turn(q, j),
        1 <= k <= q.len() - 1,
    ensures
        waypoints_before(q, k) == q.take(k),
    decreases k,
{
    if k > 1 {
        lemma_all_turns(q, k - 1);
        assert(is_turn(q, k - 1));
        assert(q.take(k - 1).push(q[k - 1]) =~= q.take(k));
    } else {
        assert(seq![q[0]] =~= q.take(1));
    }
}

proof fn lemma_waypoints_count(q: Seq<GridCoord>, k: int, j: int)
    requires
        1 <= k,
        0 < j < k,
        !is_turn(q, j),
    ensures
        waypoints_before(q, k).len() < k,
    decreases k,
{
    lemma_waypoints_len(q, k - 1);
    if j < k - 1 {
        lemma_waypoints_count(q, k - 1, j);
    }
}

proof fn lemma_waypoints_len(q: Seq<GridCoord>, k: int)
    ensures
        waypoints_before(q, k).len() <= if k >= 1 {
            k
        } else {
            1
        },
    decreases k,
{
    if k > 1 {
        lemma_waypoints_len(q, k - 1);
    }
}

/// The waypoints of `p`, where there are more than three, turn at each of
/// them but the first and the last.
pub open spec fn keeps_turns(p: Seq<GridCoord>) -> bool {
    let q = simplified(p);
    q.len() > 3 ==> forall|j: int| 0 < j < q.len() - 1 ==> #[trigger] is_turn(q, j)
}

/// Where every cell is one of the eight around the cell before it, the
/// waypoints turn at each of them but the first and the last.
pub proof fn lemma_unit_steps_keep_turns(p: Seq<GridCoord>)
    requires
        unit_steps(p),
    ensures
        keeps_turns(p),
{
    let n = p.len() as int;
    let q = simplified(p);
    if n > 3 && q.len() > 3 {
        lemma_places(p, n - 1);
        let s = places_before(p, n - 1).push(n - 1);
        let inner = places_before(p, n - 1);
        assert(q.len() == s.len());
        assert forall|j: int| 0 <= j < q.len() implies q[j] == p[s[j]] && 0 <= s[j] < n by {
            if j < inner.len() {
                assert(s[j] == inner[j]);
            }
        }
        assert forall|j: int| 0 < j < q.len() - 1 implies #[trigger] is_turn(q, j) by {
            let a = s[j - 1];
            let b = s[j];
            let c = s[j + 1];
            assert(a == inner[j - 1] && b == inner[j]);
            assert(is_turn(p, inner[j]));
            assert(a < b);
            assert forall|i: int| a < i < b implies !#[trigger] is_turn(p, i) by {
                assert(inner[j - 1] < i < inner[j - 1 + 1]);
            }
            lemma_run(p, a, b);
            assert(b < c && forall|i: int| b < i < c ==> !#[trigger] is_turn(p, i)) by {
                if j + 1 < inner.len() {
                    assert(c == inner[j + 1]);
                    assert forall|i: int| b < i < c implies !#[trigger] is_turn(p, i) by {
                        assert(inner[j] < i < inner[j + 1]);
                    }
                } else {
                    assert(c == n - 1);
                    assert(b == inner.last());
                }
            }
            lemma_run(p, b, c);
            let d = step(p, b - 1);
            let e = step(p, b);
            assert(d != e);
            assert(adjacent(p[b - 1], p[b - 1 + 1]));
            assert(adjacent(p[b], p[b + 1]));
            assert(q[j - 1] == p[a] && q[j] == p[b] && q[j + 1] == p[c]);
            if step(q, j - 1) == step(q, j) {
                lemma_scaled_unit(b - a, d.0, c - b, e.0);
                lemma_scaled_unit(b - a, d.1, c - b, e.1);
            }
        }
    }
}

/// Simplifying twice gives what simplifying once gives exactly where the
/// waypoints keep their turns.
pub proof fn lemma_simplify_idempotent_exactly(p: Seq<GridCoord>)
    ensures
        simplified(simplified(p)) == simplified(p) <==> keeps_turns(p),
{
    let q = simplified(p);
    if q.len() > 3 {
        if keeps_turns(p) {
            lemma_all_turns(q, q.len() - 1);
            assert(q.take(q.len() - 1).push(q.last()) =~= q);
        } else {
            let j = choose|j: int| 0 < j < q.len() - 1 && !#[trigger] is_turn(q, j);
            lemma_waypoints_count(q, q.len() - 1, j);
            assert(simplified(q).len() < q.len());
        }
    }
}

/// Simplifying twice gives what simplifying once gives, for a sequence in
/// which every cell is one of the eight around the cell before it.
pub proof fn lemma_simplify_idempotent(p: Seq<GridCoord>)
    requires
        unit_steps(p),
    ensures
        simplified(simplified(p)) == simplified(p),
{
    lemma_unit_steps_keep_turns(p);
    lemma_simplify_idempotent_exactly(p);
}

/// The waypoints of a sequence begin and end where it does.
pub proof fn lemma_simplify_keeps_ends(p: Seq<GridCoord>)
    requires
        p.len() >= 1,
    ensures
        simplified(p).len() >= 1,
        simplified(p).first() == p.first(),
        simplified(p).last() == p.last(),
{
    lemma_waypoints_first(p, p.len() - 1);
}

} // verus!
