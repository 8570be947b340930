//! The pen-plotter side of the renderer: strokes on paper coordinates,
//! joined into longer pen paths so that the pen is lifted less often.
use vstd::prelude::*;
use std::collections::HashMap;
use vstd::pervasive::VecAdditionalExecFns;

verus! {

broadcast use vstd::std_specs::hash::group_hash_axioms;

/// A number that tells paper points apart: distinct points have distinct keys.
pub open spec fn point_key(p: (i32, i32)) -> i64 {
    (p.0 as int * 4294967296 + p.1 as int + 2147483648) as i64
}

/// The key of a paper point.
fn key_of(p: (i32, i32)) -> (k: i64)
    ensures
        k == point_key(p),
{
    (p.0 as i64) * 4294967296i64 + ((p.1 as i64) + 2147483648i64)
}

/// Two points with the same key are the same point.
pub proof fn lemma_point_key_injective(p: (i32, i32), q: (i32, i32))
    ensures
        point_key(p) == point_key(q) <==> p == q,
{
    let a = p.0 as int * 4294967296 + p.1 as int + 2147483648;
    let b = q.0 as int * 4294967296 + q.1 as int + 2147483648;
    assert(i64::MIN <= a <= i64::MAX);
    assert(i64::MIN <= b <= i64::MAX);
    if a == b {
        if p.0 < q.0 {
            assert(a < b);
        } else if p.0 > q.0 {
            assert(a > b);
        }
    }
}

/// The state of one pass of path joining over the paths: the joined paths
/// built so far and three maps keyed by `point_key`: `starts` from the first
/// point of each waiting path to its index, `ends` from its last point to its
/// index, and `inverts` from either end point to the other one.
#[verifier::ext_equal]
pub struct JoinState {
    pub joined: Seq<Seq<(i32, i32)>>,
    pub starts: Map<i64, usize>,
    pub ends: Map<i64, usize>,
    pub inverts: Map<i64, (i32, i32)>,
    pub updated: bool,
    /// How many joins took a path out of `starts`.
    pub removed: nat,
}

/// The state before the first path.
pub open spec fn join_init() -> JoinState {
    JoinState {
        joined: Seq::empty(),
        starts: Map::empty(),
        ends: Map::empty(),
        inverts: Map::empty(),
        updated: false,
        removed: 0,
    }
}

/// One step: path `i` is joined to the waiting path whose start or end it
/// touches (checked in the order: its first point against starts, its last
/// point against starts, its first point against ends, its last point against
/// ends), or else it waits.
pub open spec fn join_step(paths: Seq<Seq<(i32, i32)>>, st: JoinState, i: int) -> JoinState {
    let path = paths[i];
    let kf = point_key(path[0]);
    let kl = point_key(path.last());
    if st.starts.contains_key(kf) {
        let j = st.starts[kf] as int;
        JoinState {
            joined: st.joined.push(path.reverse() + paths[j].skip(1)),
            starts: st.starts.remove(kf),
            ends: st.ends.remove(point_key(st.inverts[kf])),
            inverts: st.inverts,
            updated: true,
            removed: st.removed + 1,
        }
    } else if st.starts.contains_key(kl) {
        let j = st.starts[kl] as int;
        JoinState {
            joined: st.joined.push(path + paths[j].skip(1)),
            starts: st.starts.remove(kl),
            ends: st.ends.remove(point_key(st.inverts[kl])),
            inverts: st.inverts,
            updated: true,
            removed: st.removed + 1,
        }
    } else if st.ends.contains_key(kf) {
        let j = st.ends[kf] as int;
        JoinState {
            joined: st.joined.push(paths[j] + path.skip(1)),
            starts: st.starts.remove(kf),
            ends: st.ends.remove(point_key(st.inverts[kf])),
            inverts: st.inverts,
            updated: true,
            removed: st.removed,
        }
    } else if st.ends.contains_key(kl) {
        let j = st.ends[kl] as int;
        JoinState {
            joined: st.joined.push(paths[j] + path.reverse().skip(1)),
            starts: st.starts.remove(kl),
            ends: st.ends.remove(point_key(st.inverts[kl])),
            inverts: st.inverts,
            updated: true,
            removed: st.removed,
        }
    } else {
        JoinState {
            joined: st.joined,
            starts: st.starts.insert(kf, i as usize),
            ends: st.ends.insert(kl, i as usize),
            inverts: st.inverts.insert(kf, path.last()).insert(kl, path[0]),
            updated: st.updated,
            removed: st.removed,
        }
    }
}

/// The state after the first `k` paths.
pub open spec fn join_scan(paths: Seq<Seq<(i32, i32)>>, k: nat) -> JoinState
    decreases k,
{
    if k == 0 {
        join_init()
    } else {
        join_step(paths, join_scan(paths, (k - 1) as nat), k - 1)
    }
}

/// The paths among the first `k` that are still waiting in `starts`, in
/// index order.
pub open spec fn waiting(paths: Seq<Seq<(i32, i32)>>, starts: Map<i64, usize>, k: nat) -> Seq<
    Seq<(i32, i32)>,
>
    decreases k,
{
    if k == 0 {
        Seq::empty()
    } else if starts.contains_value((k - 1) as usize) {
        waiting(paths, starts, (k - 1) as nat).push(paths[k - 1])
    } else {
        waiting(paths, starts, (k - 1) as nat)
    }
}

/// One pass of path joining: whether any path was joined, and the paths
/// afterwards (the joined paths, then the paths still waiting).
pub open spec fn simplify_paths(paths: Seq<Seq<(i32, i32)>>) -> (bool, Seq<Seq<(i32, i32)>>) {
    let st = join_scan(paths, paths.len());
    if st.updated {
        (true, st.joined + waiting(paths, st.starts, paths.len()))
    } else {
        (false, paths)
    }
}

/// Every path has at least one point.
pub open spec fn all_nonempty(paths: Seq<Seq<(i32, i32)>>) -> bool {
    forall|i: int| 0 <= i < paths.len() ==> #[trigger] paths[i].len() > 0
}

/// What holds of the state after `k` steps: the maps point at earlier paths
/// by the right end points, `starts` names each waiting path once, and every
/// key of `starts` and `ends` has an entry in `inverts`.
pub open spec fn scan_ok(paths: Seq<Seq<(i32, i32)>>, st: JoinState, k: nat) -> bool {
    &&& forall|key: i64| #[trigger]
        st.starts.contains_key(key) ==> st.starts[key] < k && key == point_key(
            paths[st.starts[key] as int][0],
        ) && st.inverts.contains_key(key)
    &&& forall|key: i64| #[trigger]
        st.ends.contains_key(key) ==> st.ends[key] < k && key == point_key(
            paths[st.ends[key] as int].last(),
        ) && st.inverts.contains_key(key)
    &&& forall|k1: i64, k2: i64|
        st.starts.contains_key(k1) && st.starts.contains_key(k2) && #[trigger] st.starts[k1]
            == #[trigger] st.starts[k2] ==> k1 == k2
    &&& all_nonempty(st.joined)
}

/// Every state of the scan satisfies `scan_ok`.
pub proof fn lemma_scan_ok(paths: Seq<Seq<(i32, i32)>>, k: nat)
    requires
        all_nonempty(paths),
        k <= paths.len(),
        paths.len() <= usize::MAX,
    ensures
        scan_ok(paths, join_scan(paths, k), k),
    decreases k,
{
    if k > 0 {
        lemma_scan_ok(paths, (k - 1) as nat);
        let st = join_scan(paths, (k - 1) as nat);
        let i = k - 1;
        let path = paths[i];
        assert(path.len() > 0);
        let st2 = join_scan(paths, k);
        assert(st2 == join_step(paths, st, i));
        let kf = point_key(path[0]);
        let kl = point_key(path.last());
        let merging = st.starts.contains_key(kf) || st.starts.contains_key(kl)
            || st.ends.contains_key(kf) || st.ends.contains_key(kl);
        if merging {
            assert forall|key: i64| #[trigger] st2.starts.contains_key(key) implies st.starts.contains_key(key)
                && st2.starts[key] == st.starts[key] by {}
            assert forall|key: i64| #[trigger] st2.ends.contains_key(key) implies st.ends.contains_key(key)
                && st2.ends[key] == st.ends[key] by {}
            assert(st2.inverts == st.inverts);
        } else {
            assert(st2.starts == st.starts.insert(kf, i as usize));
            assert(st2.ends == st.ends.insert(kl, i as usize));
            assert(st2.inverts == st.inverts.insert(kf, path.last()).insert(kl, path[0]));
        }
        assert forall|key: i64| #[trigger] st2.starts.contains_key(key) implies st2.starts[key] < k
            && key == point_key(paths[st2.starts[key] as int][0]) && st2.inverts.contains_key(
            key,
        ) by {
            if st.starts.contains_key(key) && (merging || key != kf) {
                assert(st.inverts.contains_key(key));
            }
        }
        assert forall|key: i64| #[trigger] st2.ends.contains_key(key) implies st2.ends[key] < k
            && key == point_key(paths[st2.ends[key] as int].last()) && st2.inverts.contains_key(
            key,
        ) by {
            if st.ends.contains_key(key) && (merging || key != kl) {
                assert(st.inverts.contains_key(key));
            }
        }
        assert forall|k1: i64, k2: i64|
            st2.starts.contains_key(k1) && st2.starts.contains_key(k2) && #[trigger] st2.starts[k1]
                == #[trigger] st2.starts[k2] implies k1 == k2 by {
            if st.starts.contains_key(k1) && st.starts.contains_key(k2) {
                assert(st.starts[k1] == st.starts[k2]);
            }
        }
        let j_joined = st2.joined;
        assert forall|x: int| 0 <= x < j_joined.len() implies #[trigger] j_joined[x].len() > 0 by {
            if x < st.joined.len() {
                assert(j_joined[x] == st.joined[x]);
            }
        }
    }
}

/// `waiting` only looks at which indices below `k` are values of the map.
proof fn lemma_waiting_agree(
    paths: Seq<Seq<(i32, i32)>>,
    m1: Map<i64, usize>,
    m2: Map<i64, usize>,
    k: nat,
)
    requires
        k <= usize::MAX + 1,
        forall|j: usize| j < k ==> #[trigger] m1.contains_value(j) == m2.contains_value(j),
    ensures
        waiting(paths, m1, k) == waiting(paths, m2, k),
    decreases k,
{
    if k > 0 {
        lemma_waiting_agree(paths, m1, m2, (k - 1) as nat);
    }
}

/// Taking one index below `k` out of the values shortens `waiting` by one.
proof fn lemma_waiting_drop(
    paths: Seq<Seq<(i32, i32)>>,
    m1: Map<i64, usize>,
    m2: Map<i64, usize>,
    k: nat,
    j0: usize,
)
    requires
        k <= usize::MAX + 1,
        j0 < k,
        m1.contains_value(j0),
        !m2.contains_value(j0),
        forall|j: usize| j < k && j != j0 ==> #[trigger] m1.contains_value(j) == m2.contains_value(j),
    ensures
        waiting(paths, m2, k).len() + 1 == waiting(paths, m1, k).len(),
    decreases k,
{
    if k - 1 == j0 {
        lemma_waiting_agree(paths, m1, m2, (k - 1) as nat);
    } else {
        lemma_waiting_drop(paths, m1, m2, (k - 1) as nat, j0);
    }
}

/// A waiting path is found in `waiting`.
proof fn lemma_waiting_has(paths: Seq<Seq<(i32, i32)>>, m: Map<i64, usize>, k: nat, j: int)
    requires
        k <= usize::MAX + 1,
        0 <= j < k,
        m.contains_value(j as usize),
    ensures
        exists|q: int| 0 <= q < waiting(paths, m, k).len() && waiting(paths, m, k)[q] == paths[j],
    decreases k,
{
    let w = waiting(paths, m, k);
    if j == k - 1 {
        assert(w[w.len() - 1] == paths[j]);
    } else {
        lemma_waiting_has(paths, m, (k - 1) as nat, j);
        let prev = waiting(paths, m, (k - 1) as nat);
        let q = choose|q: int| 0 <= q < prev.len() && prev[q] == paths[j];
        assert(w[q] == prev[q]);
    }
}

/// After `k` steps, every step so far either made one joined path or left one
/// waiting path, and each removal from `starts` cost one waiting path:
/// joined + waiting + removed = k.
proof fn lemma_scan_counts(paths: Seq<Seq<(i32, i32)>>, k: nat)
    requires
        all_nonempty(paths),
        k <= paths.len(),
        paths.len() <= usize::MAX,
    ensures
        join_scan(paths, k).joined.len() + waiting(paths, join_scan(paths, k).starts, k).len()
            + join_scan(paths, k).removed == k,
    decreases k,
{
    if k > 0 {
        let i = k - 1;
        lemma_scan_counts(paths, i as nat);
        lemma_scan_ok(paths, i as nat);
        let st = join_scan(paths, i as nat);
        let st2 = join_scan(paths, k);
        let path = paths[i];
        let kf = point_key(path[0]);
        let kl = point_key(path.last());
        assert(!st.starts.contains_value(i as usize));
        // below i, the values of the new starts are the old ones, minus at most one
        if st.starts.contains_key(kf) || st.starts.contains_key(kl) {
            let key = if st.starts.contains_key(kf) { kf } else { kl };
            let j0 = st.starts[key];
            assert(st2.starts == st.starts.remove(key));
            assert forall|j: usize| j < k && j != j0 implies #[trigger] st.starts.contains_value(j)
                == st2.starts.contains_value(j) by {
                if st.starts.contains_value(j) {
                    let key2 = choose|key2: i64|
                        st.starts.contains_key(key2) && st.starts[key2] == j;
                    assert(st2.starts.contains_key(key2));
                }
                if st2.starts.contains_value(j) {
                    let key2 = choose|key2: i64|
                        st2.starts.contains_key(key2) && st2.starts[key2] == j;
                    assert(st.starts.contains_key(key2));
                }
            }
            assert(!st2.starts.contains_value(j0)) by {
                if st2.starts.contains_value(j0) {
                    let key2 = choose|key2: i64|
                        st2.starts.contains_key(key2) && st2.starts[key2] == j0;
                    assert(st.starts.contains_key(key2));
                }
            }
            lemma_waiting_drop(paths, st.starts, st2.starts, k, j0);
            lemma_waiting_agree(paths, st.starts, st.starts, i as nat);
        } else if st.ends.contains_key(kf) || st.ends.contains_key(kl) {
            assert(st2.starts =~= st.starts);
        } else {
            assert(st2.starts == st.starts.insert(kf, i as usize));
            assert forall|j: usize| j < i implies #[trigger] st.starts.contains_value(j)
                == st2.starts.contains_value(j) by {
                if st.starts.contains_value(j) {
                    let key2 = choose|key2: i64|
                        st.starts.contains_key(key2) && st.starts[key2] == j;
                    assert(st2.starts.contains_key(key2));
                }
                if st2.starts.contains_value(j) {
                    let key2 = choose|key2: i64|
                        st2.starts.contains_key(key2) && st2.starts[key2] == j;
                    if key2 != kf {
                        assert(st.starts.contains_key(key2));
                    }
                }
            }
            assert(st2.starts.contains_key(kf));
            lemma_waiting_agree(paths, st.starts, st2.starts, i as nat);
        }
    }
}

/// The `len` points of `path` from position `s` on.
pub open spec fn run_at(path: Seq<(i32, i32)>, s: int, len: int) -> Seq<(i32, i32)> {
    path.subrange(s, s + len)
}

/// `piece` is drawn by one of `outs`: it appears, as it is or reversed, as a
/// run of consecutive points of one output path.
pub open spec fn drawn_in(outs: Seq<Seq<(i32, i32)>>, piece: Seq<(i32, i32)>) -> bool {
    exists|o: int, s: int|
        0 <= o < outs.len() && 0 <= s && s + piece.len() <= outs[o].len() && (#[trigger] run_at(
            outs[o],
            s,
            piece.len() as int,
        ) == piece || run_at(outs[o], s, piece.len() as int) == piece.reverse())
}

/// A joined path `a + b.skip(1)` (with `a` ending where `b` starts) draws `a`
/// from its first point and `b` from the shared point.
proof fn lemma_join_runs(a: Seq<(i32, i32)>, b: Seq<(i32, i32)>)
    requires
        a.len() > 0,
        b.len() > 0,
        a.last() == b[0],
    ensures
        run_at(a + b.skip(1), 0, a.len() as int) == a,
        run_at(a + b.skip(1), a.len() - 1, b.len() as int) == b,
{
    assert(run_at(a + b.skip(1), 0, a.len() as int) =~= a);
    assert(run_at(a + b.skip(1), a.len() - 1, b.len() as int) =~= b);
}

/// Drawing does not stop when more paths are added after.
proof fn lemma_drawn_in_prefix(
    outs: Seq<Seq<(i32, i32)>>,
    more: Seq<Seq<(i32, i32)>>,
    piece: Seq<(i32, i32)>,
)
    requires
        drawn_in(outs, piece),
    ensures
        drawn_in(outs + more, piece),
{
    let (o, s) = choose|o: int, s: int|
        0 <= o < outs.len() && 0 <= s && s + piece.len() <= outs[o].len() && (#[trigger] run_at(
            outs[o],
            s,
            piece.len() as int,
        ) == piece || run_at(outs[o], s, piece.len() as int) == piece.reverse());
    assert((outs + more)[o] == outs[o]);
    assert(run_at((outs + more)[o], s, piece.len() as int) == run_at(
        outs[o],
        s,
        piece.len() as int,
    ));
}

/// A path that is itself an output is drawn.
proof fn lemma_drawn_in_itself(outs: Seq<Seq<(i32, i32)>>, o: int)
    requires
        0 <= o < outs.len(),
    ensures
        drawn_in(outs, outs[o]),
{
    assert(run_at(outs[o], 0, outs[o].len() as int) =~= outs[o]);
}

/// Reversing twice gives the path back.
proof fn lemma_reverse_reverse(s: Seq<(i32, i32)>)
    ensures
        s.reverse().reverse() == s,
{
    assert(s.reverse().reverse() =~= s);
}

/// After `k` steps, each of the first `k` paths is drawn by a joined path or
/// is still waiting in `starts`.
proof fn lemma_scan_covers(paths: Seq<Seq<(i32, i32)>>, k: nat)
    requires
        all_nonempty(paths),
        k <= paths.len(),
        paths.len() <= usize::MAX,
    ensures
        forall|j: usize|
            j < k ==> drawn_in(join_scan(paths, k).joined, #[trigger] paths[j as int])
                || join_scan(paths, k).starts.contains_value(j),
    decreases k,
{
    if k > 0 {
        let i = (k - 1) as int;
        lemma_scan_covers(paths, i as nat);
        lemma_scan_ok(paths, i as nat);
        let st = join_scan(paths, i as nat);
        let st2 = join_scan(paths, k);
        let path = paths[i];
        assert(path.len() > 0);
        let kf = point_key(path[0]);
        let kl = point_key(path.last());
        lemma_reverse_index(path, 0);
        lemma_reverse_index(path, path.len() - 1);
        let merging = st.starts.contains_key(kf) || st.starts.contains_key(kl)
            || st.ends.contains_key(kf) || st.ends.contains_key(kl);
        if merging {
            let m = st2.joined.last();
            let o = st2.joined.len() - 1;
            assert(st2.joined == st.joined.push(m));
            // the new joined path draws path i and the path it was joined to
            let j0: usize = if st.starts.contains_key(kf) {
                st.starts[kf]
            } else if st.starts.contains_key(kl) {
                st.starts[kl]
            } else if st.ends.contains_key(kf) {
                st.ends[kf]
            } else {
                st.ends[kl]
            };
            let other = paths[j0 as int];
            assert(other.len() > 0);
            if st.starts.contains_key(kf) {
                lemma_point_key_injective(other[0], path[0]);
                lemma_join_runs(path.reverse(), other);
                lemma_reverse_reverse(path);
                assert(run_at(st2.joined[o], 0, path.len() as int) == path.reverse());
                assert(run_at(st2.joined[o], path.len() - 1, other.len() as int) == other);
            } else if st.starts.contains_key(kl) {
                lemma_point_key_injective(other[0], path.last());
                lemma_join_runs(path, other);
                assert(run_at(st2.joined[o], 0, path.len() as int) == path);
                assert(run_at(st2.joined[o], path.len() - 1, other.len() as int) == other);
            } else if st.ends.contains_key(kf) {
                lemma_point_key_injective(other.last(), path[0]);
                lemma_join_runs(other, path);
                assert(run_at(st2.joined[o], 0, other.len() as int) == other);
                assert(run_at(st2.joined[o], other.len() - 1, path.len() as int) == path);
            } else {
                lemma_point_key_injective(other.last(), path.last());
                lemma_join_runs(other, path.reverse());
                assert(run_at(st2.joined[o], 0, other.len() as int) == other);
                assert(run_at(st2.joined[o], other.len() - 1, path.len() as int) == path.reverse());
            }
            assert(drawn_in(st2.joined, path));
            assert(drawn_in(st2.joined, other));
            assert forall|j: usize| j < k implies drawn_in(st2.joined, #[trigger] paths[j as int])
                || st2.starts.contains_value(j) by {
                if j < i {
                    if drawn_in(st.joined, paths[j as int]) {
                        lemma_drawn_in_prefix(st.joined, seq![m], paths[j as int]);
                        assert(st.joined + seq![m] =~= st2.joined);
                    } else if j != j0 {
                        let key2 = choose|key2: i64|
                            st.starts.contains_key(key2) && st.starts[key2] == j;
                        assert(st2.starts.contains_key(key2));
                    }
                }
            }
        } else {
            assert(st2.joined == st.joined);
            assert(st2.starts == st.starts.insert(kf, i as usize));
            assert forall|j: usize| j < k implies drawn_in(st2.joined, #[trigger] paths[j as int])
                || st2.starts.contains_value(j) by {
                if j < i {
                    if !drawn_in(st.joined, paths[j as int]) {
                        let key2 = choose|key2: i64|
                            st.starts.contains_key(key2) && st.starts[key2] == j;
                        assert(st2.starts.contains_key(key2));
                    }
                } else {
                    assert(st2.starts.contains_key(kf));
                }
            }
        }
    }
}

/// Joining never loses a stroke: after one pass of `simplify`, every path
/// that was there before is drawn, as it is or reversed, as a run of
/// consecutive points of some path.
pub proof fn law_simplify_keeps_strokes(paths: Seq<Seq<(i32, i32)>>)
    requires
        all_nonempty(paths),
        paths.len() <= usize::MAX,
    ensures
        forall|j: int| 0 <= j < paths.len() ==> drawn_in(simplify_paths(paths).1, #[trigger] paths[j]),
{
    let n = paths.len();
    let st = join_scan(paths, n);
    lemma_scan_covers(paths, n);
    assert forall|j: int| 0 <= j < n implies drawn_in(simplify_paths(paths).1, #[trigger] paths[j]) by {
        let ju = j as usize;
        assert(paths[ju as int] == paths[j]);
        if st.updated {
            let w = waiting(paths, st.starts, n);
            if drawn_in(st.joined, paths[j]) {
                lemma_drawn_in_prefix(st.joined, w, paths[j]);
            } else {
                lemma_waiting_has(paths, st.starts, n, j);
                let q = choose|q: int| 0 <= q < w.len() && w[q] == paths[j];
                assert((st.joined + w)[st.joined.len() + q] == paths[j]);
                lemma_drawn_in_itself(st.joined + w, st.joined.len() + q);
            }
        } else {
            lemma_drawn_in_itself(paths, j);
        }
    }
}

/// One pass never makes more paths: each removal from `starts` saves one.
pub proof fn law_simplify_count(paths: Seq<Seq<(i32, i32)>>)
    requires
        all_nonempty(paths),
        paths.len() <= usize::MAX,
    ensures
        simplify_paths(paths).1.len() + join_scan(paths, paths.len()).removed == paths.len(),
        simplify_paths(paths).1.len() <= paths.len(),
        all_nonempty(simplify_paths(paths).1),
{
    lemma_scan_counts(paths, paths.len());
    lemma_scan_ok(paths, paths.len());
    let st = join_scan(paths, paths.len());
    if !st.updated {
        assert(st.removed == 0) by {
            lemma_no_update_no_removal(paths, paths.len());
        }
    } else {
        lemma_waiting_nonempty(paths, st.starts, paths.len());
        let res = simplify_paths(paths).1;
        let w = waiting(paths, st.starts, paths.len());
        assert forall|x: int| 0 <= x < res.len() implies #[trigger] res[x].len() > 0 by {
            if x < st.joined.len() {
                assert(res[x] == st.joined[x]);
            } else {
                assert(res[x] == w[x - st.joined.len()]);
            }
        }
    }
}

/// A pass that joins nothing removes nothing.
proof fn lemma_no_update_no_removal(paths: Seq<Seq<(i32, i32)>>, k: nat)
    requires
        k <= paths.len(),
    ensures
        !join_scan(paths, k).updated ==> join_scan(paths, k).removed == 0 && join_scan(
            paths,
            k,
        ).joined.len() == 0,
    decreases k,
{
    if k > 0 {
        lemma_no_update_no_removal(paths, (k - 1) as nat);
    }
}

/// Two paths, the first one and a later one, start at the same point.
pub open spec fn shares_first_start(paths: Seq<Seq<(i32, i32)>>) -> bool {
    exists|b: int| 0 < b < paths.len() && #[trigger] paths[b][0] == paths[0][0]
}

/// `removed` and `updated` only grow during a pass.
proof fn lemma_scan_monotone(paths: Seq<Seq<(i32, i32)>>, k1: nat, k2: nat)
    requires
        k1 <= k2 <= paths.len(),
    ensures
        join_scan(paths, k1).removed <= join_scan(paths, k2).removed,
        join_scan(paths, k1).updated ==> join_scan(paths, k2).updated,
    decreases k2 - k1,
{
    if k1 < k2 {
        lemma_scan_monotone(paths, k1, (k2 - 1) as nat);
    }
}

/// From the first step on, the start of path 0 stays in `starts` until
/// something is removed from `starts`.
proof fn lemma_scan_keeps_first(paths: Seq<Seq<(i32, i32)>>, k: nat)
    requires
        all_nonempty(paths),
        1 <= k <= paths.len(),
        paths.len() <= usize::MAX,
    ensures
        join_scan(paths, k).removed >= 1 || join_scan(paths, k).starts.contains_key(
            point_key(paths[0][0]),
        ),
    decreases k,
{
    if k > 1 {
        lemma_scan_keeps_first(paths, (k - 1) as nat);
    } else {
        assert(paths[0].len() > 0);
        assert(join_scan(paths, 0) == join_init());
    }
}

/// When a later path starts where the first path starts, a pass joins it to
/// the first path (or removes something from `starts` before): the pass
/// joins, and removes at least once.
proof fn lemma_shared_start_removes(paths: Seq<Seq<(i32, i32)>>)
    requires
        all_nonempty(paths),
        paths.len() <= usize::MAX,
        shares_first_start(paths),
    ensures
        join_scan(paths, paths.len()).removed >= 1,
        join_scan(paths, paths.len()).updated,
{
    let b = choose|b: int| 0 < b < paths.len() && #[trigger] paths[b][0] == paths[0][0];
    lemma_scan_keeps_first(paths, b as nat);
    let st = join_scan(paths, b as nat);
    let st2 = join_scan(paths, (b + 1) as nat);
    assert(paths[b].len() > 0);
    if st.removed == 0 {
        assert(st.starts.contains_key(point_key(paths[b][0])));
        assert(st2.updated);
    } else {
        lemma_scan_monotone(paths, b as nat, (b + 1) as nat);
        assert(st2.removed >= 1);
        lemma_scan_updated_when_removed(paths, (b + 1) as nat);
    }
    lemma_scan_monotone(paths, (b + 1) as nat, paths.len());
}

/// Something was removed only in a pass that joined.
proof fn lemma_scan_updated_when_removed(paths: Seq<Seq<(i32, i32)>>, k: nat)
    requires
        k <= paths.len(),
    ensures
        join_scan(paths, k).removed >= 1 ==> join_scan(paths, k).updated,
        join_scan(paths, k).updated ==> join_scan(paths, k).joined.len() > 0,
    decreases k,
{
    if k > 0 {
        lemma_scan_updated_when_removed(paths, (k - 1) as nat);
    }
}

/// In a pass with no removal from `starts`, every path named in `ends` still
/// waits, and the first joined path starts where a waiting path starts.
proof fn lemma_scan_quiet(paths: Seq<Seq<(i32, i32)>>, k: nat)
    requires
        all_nonempty(paths),
        k <= paths.len(),
        paths.len() <= usize::MAX,
    ensures
        join_scan(paths, k).removed == 0 ==> (forall|key: i64| #[trigger]
            join_scan(paths, k).ends.contains_key(key) ==> join_scan(
                paths,
                k,
            ).starts.contains_value(join_scan(paths, k).ends[key])),
        join_scan(paths, k).removed == 0 && join_scan(paths, k).joined.len() > 0 ==> exists|
            j: usize,
        |
            j < k && join_scan(paths, k).starts.contains_value(j) && #[trigger] paths[j as int][0]
                == join_scan(paths, k).joined[0][0],
    decreases k,
{
    if k > 0 {
        let i = (k - 1) as int;
        lemma_scan_quiet(paths, i as nat);
        lemma_scan_ok(paths, i as nat);
        let st = join_scan(paths, i as nat);
        let st2 = join_scan(paths, k);
        let path = paths[i];
        assert(path.len() > 0);
        let kf = point_key(path[0]);
        let kl = point_key(path.last());
        if st2.removed == 0 {
            assert(st.removed == 0);
            assert(!st.starts.contains_key(kf) && !st.starts.contains_key(kl));
            if st.ends.contains_key(kf) || st.ends.contains_key(kl) {
                let j0 = if st.ends.contains_key(kf) {
                    st.ends[kf]
                } else {
                    st.ends[kl]
                };
                assert(st2.starts =~= st.starts);
                assert(paths[j0 as int].len() > 0);
                if st.joined.len() == 0 {
                    assert(st2.joined[0][0] == paths[j0 as int][0]);
                } else {
                    let j = choose|j: usize|
                        j < i && st.starts.contains_value(j) && #[trigger] paths[j as int][0]
                            == st.joined[0][0];
                    assert(st2.joined[0] == st.joined[0]);
                    assert(paths[j as int][0] == st2.joined[0][0]);
                }
            } else {
                assert(st2.starts == st.starts.insert(kf, i as usize));
                assert(st2.ends == st.ends.insert(kl, i as usize));
                assert(st2.starts.contains_key(kf));
                assert forall|key: i64| #[trigger] st2.ends.contains_key(key) implies st2.starts.contains_value(
                    st2.ends[key],
                ) by {
                    if key != kl {
                        let v = st.ends[key];
                        let key2 = choose|key2: i64|
                            st.starts.contains_key(key2) && st.starts[key2] == v;
                        assert(st2.starts.contains_key(key2));
                    }
                }
                if st.joined.len() > 0 {
                    let j = choose|j: usize|
                        j < i && st.starts.contains_value(j) && #[trigger] paths[j as int][0]
                            == st.joined[0][0];
                    let key2 = choose|key2: i64| st.starts.contains_key(key2) && st.starts[key2] == j;
                    assert(st2.starts.contains_key(key2));
                    assert(st2.starts.contains_value(j));
                }
            }
        }
    }
}

/// A pass that joins but removes nothing leaves a result in which a later
/// path starts where the first one does, so the next pass must remove.
proof fn lemma_quiet_pass_shares(paths: Seq<Seq<(i32, i32)>>)
    requires
        all_nonempty(paths),
        paths.len() <= usize::MAX,
        join_scan(paths, paths.len()).updated,
        join_scan(paths, paths.len()).removed == 0,
    ensures
        shares_first_start(simplify_paths(paths).1),
{
    let n = paths.len();
    let st = join_scan(paths, n);
    lemma_scan_updated_when_removed(paths, n);
    lemma_scan_quiet(paths, n);
    let j = choose|j: usize|
        j < n && st.starts.contains_value(j) && #[trigger] paths[j as int][0] == st.joined[0][0];
    lemma_waiting_has(paths, st.starts, n, j as int);
    let w = waiting(paths, st.starts, n);
    let q = choose|q: int| 0 <= q < w.len() && w[q] == paths[j as int];
    let res = st.joined + w;
    assert(res[st.joined.len() + q] == paths[j as int]);
    assert(res[0] == st.joined[0]);
    assert(res == simplify_paths(paths).1);
    assert(res[st.joined.len() + q][0] == res[0][0]);
}

/// Repeating `simplify` until it joins nothing ends: a pass that removes
/// nothing sets up a removal in the next pass, and every removal makes one
/// path fewer. `measure` (twice the number of paths, plus one unless the
/// first path shares its start with a later one) drops at every joining pass.
pub proof fn law_simplify_terminates(paths: Seq<Seq<(i32, i32)>>, quiet: bool)
    requires
        all_nonempty(paths),
        paths.len() <= usize::MAX,
        simplify_paths(paths).0,
        quiet ==> shares_first_start(paths),
    ensures
        ({
            let next = simplify_paths(paths).1;
            let next_quiet = join_scan(paths, paths.len()).removed == 0;
            &&& all_nonempty(next)
            &&& next_quiet ==> shares_first_start(next)
            &&& 2 * next.len() + (if next_quiet { 0int } else { 1int }) < 2 * paths.len() + (if quiet {
                0int
            } else {
                1int
            })
        }),
{
    law_simplify_count(paths);
    let st = join_scan(paths, paths.len());
    if quiet {
        lemma_shared_start_removes(paths);
    }
    if st.removed == 0 {
        lemma_quiet_pass_shares(paths);
    }
}

/// The paths after repeating `simplify` until a pass joins nothing.
/// (`quiet` says whether the pass that produced `paths` removed nothing from
/// `starts`; a repetition starts with `false`.)
pub open spec fn optimized(paths: Seq<Seq<(i32, i32)>>, quiet: bool) -> Seq<Seq<(i32, i32)>>
    decreases 2 * paths.len() + (if quiet {
        0int
    } else {
        1int
    }),
    when all_nonempty(paths) && paths.len() <= usize::MAX && (quiet ==> shares_first_start(paths))
    via optimized_decreases
{
    if simplify_paths(paths).0 {
        optimized(simplify_paths(paths).1, join_scan(paths, paths.len()).removed == 0)
    } else {
        paths
    }
}

#[via_fn]
proof fn optimized_decreases(paths: Seq<Seq<(i32, i32)>>, quiet: bool) {
    if simplify_paths(paths).0 {
        law_simplify_terminates(paths, quiet);
    }
}

/// A pass that joined something produced at least one joined path.
proof fn lemma_scan_updated_joins(paths: Seq<Seq<(i32, i32)>>, k: nat)
    requires
        k <= paths.len(),
    ensures
        join_scan(paths, k).updated ==> join_scan(paths, k).joined.len() > 0,
    decreases k,
{
    if k > 0 {
        lemma_scan_updated_joins(paths, (k - 1) as nat);
    }
}

/// Joining never leaves a pen with nothing to draw: some paths in, some
/// paths out.
pub proof fn law_optimized_keeps_some(paths: Seq<Seq<(i32, i32)>>, quiet: bool)
    requires
        all_nonempty(paths),
        paths.len() <= usize::MAX,
        quiet ==> shares_first_start(paths),
        paths.len() > 0,
    ensures
        optimized(paths, quiet).len() > 0,
    decreases 2 * paths.len() + (if quiet {
        0int
    } else {
        1int
    }),
{
    if simplify_paths(paths).0 {
        law_simplify_terminates(paths, quiet);
        lemma_scan_updated_joins(paths, paths.len());
        let next = simplify_paths(paths).1;
        law_optimized_keeps_some(next, join_scan(paths, paths.len()).removed == 0);
    }
}

/// Every path is a stroke: it has at least two points.
pub open spec fn all_strokes(paths: Seq<Seq<(i32, i32)>>) -> bool {
    forall|i: int| 0 <= i < paths.len() ==> #[trigger] paths[i].len() >= 2
}

/// Joining strokes gives strokes.
proof fn lemma_scan_strokes(paths: Seq<Seq<(i32, i32)>>, k: nat)
    requires
        all_strokes(paths),
        k <= paths.len(),
        paths.len() <= usize::MAX,
    ensures
        all_strokes(join_scan(paths, k).joined),
    decreases k,
{
    if k > 0 {
        lemma_scan_strokes(paths, (k - 1) as nat);
        assert forall|i: int| 0 <= i < paths.len() implies #[trigger] paths[i].len() > 0 by {
            assert(paths[i].len() >= 2);
        }
        lemma_scan_ok(paths, (k - 1) as nat);
        let st = join_scan(paths, (k - 1) as nat);
        let st2 = join_scan(paths, k);
        assert(paths[k - 1].len() >= 2);
        lemma_reverse_index(paths[k - 1], 0);
        let path = paths[k - 1];
        let kf = point_key(path[0]);
        let kl = point_key(path.last());
        if st.starts.contains_key(kf) {
            assert(paths[st.starts[kf] as int].len() >= 2);
        } else if st.starts.contains_key(kl) {
            assert(paths[st.starts[kl] as int].len() >= 2);
        } else if st.ends.contains_key(kf) {
            assert(paths[st.ends[kf] as int].len() >= 2);
        } else if st.ends.contains_key(kl) {
            assert(paths[st.ends[kl] as int].len() >= 2);
        }
        assert forall|x: int| 0 <= x < st2.joined.len() implies #[trigger] st2.joined[x].len() >= 2 by {
            if x < st.joined.len() {
                assert(st2.joined[x] == st.joined[x]);
            }
        }
    }
}

/// The waiting paths are paths of the input.
proof fn lemma_waiting_strokes(paths: Seq<Seq<(i32, i32)>>, starts: Map<i64, usize>, k: nat)
    requires
        all_strokes(paths),
        k <= paths.len(),
    ensures
        all_strokes(waiting(paths, starts, k)),
    decreases k,
{
    if k > 0 {
        lemma_waiting_strokes(paths, starts, (k - 1) as nat);
        let w = waiting(paths, starts, k);
        let prev = waiting(paths, starts, (k - 1) as nat);
        assert forall|x: int| 0 <= x < w.len() implies #[trigger] w[x].len() >= 2 by {
            if x < prev.len() {
                assert(w[x] == prev[x]);
            }
        }
    }
}

/// One pass of joining keeps every path a stroke.
pub proof fn law_simplify_keeps_strokes_whole(paths: Seq<Seq<(i32, i32)>>)
    requires
        all_strokes(paths),
        paths.len() <= usize::MAX,
    ensures
        all_strokes(simplify_paths(paths).1),
{
    let st = join_scan(paths, paths.len());
    if st.updated {
        lemma_scan_strokes(paths, paths.len());
        lemma_waiting_strokes(paths, st.starts, paths.len());
        let res = simplify_paths(paths).1;
        let w = waiting(paths, st.starts, paths.len());
        assert forall|x: int| 0 <= x < res.len() implies #[trigger] res[x].len() >= 2 by {
            if x < st.joined.len() {
                assert(res[x] == st.joined[x]);
            } else {
                assert(res[x] == w[x - st.joined.len()]);
            }
        }
    }
}

/// Append `src` from position `from` on.
fn extend_forward(dst: &mut Vec<(i32, i32)>, src: &Vec<(i32, i32)>, from: usize)
    requires
        from <= src@.len(),
    ensures
        final(dst)@ == old(dst)@ + src@.skip(from as int),
{
    let ghost start = dst@;
    let mut k = from;
    while k < src.len()
        invariant
            from <= k <= src@.len(),
            dst@ == start + src@.subrange(from as int, k as int),
        decreases src@.len() - k,
    {
        dst.push(src[k]);
        assert(src@.subrange(from as int, k + 1) =~= src@.subrange(from as int, k as int).push(
            src@[k as int],
        ));
        k = k + 1;
    }
    assert(src@.subrange(from as int, k as int) =~= src@.skip(from as int));
}

/// Append `src` reversed, from position `from` of the reversed path on.
fn extend_backward(dst: &mut Vec<(i32, i32)>, src: &Vec<(i32, i32)>, from: usize)
    requires
        from <= src@.len(),
    ensures
        final(dst)@ == old(dst)@ + src@.reverse().skip(from as int),
{
    let ghost start = dst@;
    let ghost rev = src@.reverse();
    let n = src.len();
    let mut k = from;
    while k < n
        invariant
            n == src@.len(),
            rev == src@.reverse(),
            rev.len() == n,
            from <= k <= n,
            dst@ == start + rev.subrange(from as int, k as int),
        decreases n - k,
    {
        dst.push(src[n - 1 - k]);
        proof {
            lemma_reverse_index(src@, k as int);
        }
        assert(rev.subrange(from as int, k + 1) =~= rev.subrange(from as int, k as int).push(
            rev[k as int],
        ));
        k = k + 1;
    }
    assert(rev.subrange(from as int, k as int) =~= rev.skip(from as int));
}

/// An element of a reversed sequence.
proof fn lemma_reverse_index(s: Seq<(i32, i32)>, k: int)
    requires
        0 <= k < s.len(),
    ensures
        s.reverse()[k] == s[s.len() - 1 - k],
        s.reverse().len() == s.len(),
{
}

/// The pen paths of one pen, on paper coordinates.
pub struct Optimizer {
    paths: Vec<Vec<(i32, i32)>>,
}

impl Optimizer {
    /// The paths, in order.
    pub closed spec fn path_seqs(&self) -> Seq<Seq<(i32, i32)>> {
        self.paths@.map_values(|p: Vec<(i32, i32)>| p@)
    }

    /// There are never more paths than a `usize` counts.
    pub proof fn lemma_count_fits(&self)
        ensures
            self.path_seqs().len() <= usize::MAX,
    {
        assert(self.path_seqs().len() == self.paths.len());
    }

    /// No paths yet.
    pub fn new() -> (o: Self)
        ensures
            o.path_seqs() == Seq::<Seq<(i32, i32)>>::empty(),
    {
        let o = Optimizer { paths: Vec::new() };
        assert(o.path_seqs() =~= Seq::<Seq<(i32, i32)>>::empty());
        o
    }

    /// Add a straight stroke from `a` to `b`.
    pub fn add_line(&mut self, a: (i32, i32), b: (i32, i32))
        ensures
            final(self).path_seqs() == old(self).path_seqs().push(seq![a, b]),
    {
        let mut p: Vec<(i32, i32)> = Vec::new();
        p.push(a);
        p.push(b);
        assert(p@ =~= seq![a, b]);
        let ghost before = self.path_seqs();
        self.paths.push(p);
        assert(self.path_seqs() =~= before.push(seq![a, b]));
    }

    /// Take out the path at `i`.
    pub fn remove_path(&mut self, i: usize) -> (p: Vec<(i32, i32)>)
        requires
            i < old(self).path_seqs().len(),
        ensures
            p@ == old(self).path_seqs()[i as int],
            final(self).path_seqs() == old(self).path_seqs().remove(i as int),
    {
        let ghost before = self.path_seqs();
        let p = self.paths.remove(i);
        assert(self.path_seqs() =~= before.remove(i as int));
        p
    }

    /// The number of paths.
    pub fn len(&self) -> (n: usize)
        ensures
            n == self.path_seqs().len(),
    {
        self.paths.len()
    }

    /// The path at `i`.
    pub fn path(&self, i: usize) -> (p: &Vec<(i32, i32)>)
        requires
            i < self.path_seqs().len(),
        ensures
            p@ == self.path_seqs()[i as int],
    {
        &self.paths[i]
    }

    /// Join paths until a pass joins nothing more.
    pub fn optimize(&mut self)
        requires
            all_nonempty(old(self).path_seqs()),
        ensures
            final(self).path_seqs() == optimized(old(self).path_seqs(), false),
            all_nonempty(final(self).path_seqs()),
            !simplify_paths(final(self).path_seqs()).0,
            all_strokes(old(self).path_seqs()) ==> all_strokes(final(self).path_seqs()),
    {
        let ghost mut quiet = false;
        let ghost start = self.path_seqs();
        loop
            invariant
                all_nonempty(self.path_seqs()),
                quiet ==> shares_first_start(self.path_seqs()),
                optimized(self.path_seqs(), quiet) == optimized(start, false),
                all_strokes(start) ==> all_strokes(self.path_seqs()),
            ensures
                all_strokes(start) ==> all_strokes(self.path_seqs()),
                all_nonempty(self.path_seqs()),
                !simplify_paths(self.path_seqs()).0,
                self.path_seqs() == optimized(start, false),
            decreases 2 * self.path_seqs().len() + (if quiet {
                0int
            } else {
                1int
            }),
        {
            let ghost before = self.path_seqs();
            proof {
                self.lemma_count_fits();
            }
            let changed = self.simplify();
            if !changed {
                break;
            }
            proof {
                if all_strokes(before) {
                    law_simplify_keeps_strokes_whole(before);
                }
                law_simplify_terminates(before, quiet);
                quiet = join_scan(before, before.len()).removed == 0;
            }
        }
    }

    /// One pass of path joining (see `simplify_paths`); returns whether any
    /// path was joined. When none was, the paths are left as they are.
    pub fn simplify(&mut self) -> (updated: bool)
        requires
            all_nonempty(old(self).path_seqs()),
        ensures
            (updated, final(self).path_seqs()) == simplify_paths(old(self).path_seqs()),
            all_nonempty(final(self).path_seqs()),
    {
        let ghost paths = self.path_seqs();
        let n = self.paths.len();
        let mut updated = false;
        let mut new_paths: Vec<Vec<(i32, i32)>> = Vec::new();
        let mut starts: HashMap<i64, usize> = HashMap::new();
        let mut ends: HashMap<i64, usize> = HashMap::new();
        let mut inverts: HashMap<i64, (i32, i32)> = HashMap::new();
        let mut pending: Vec<bool> = Vec::new();
        let mut i: usize = 0;
        assert(new_paths@.map_values(|p: Vec<(i32, i32)>| p@) =~= join_init().joined);
        while i < n
            invariant
                n == paths.len(),
                paths == self.path_seqs(),
                all_nonempty(paths),
                0 <= i <= n,
                pending@.len() == i,
                new_paths@.map_values(|p: Vec<(i32, i32)>| p@) == join_scan(paths, i as nat).joined,
                starts@ == join_scan(paths, i as nat).starts,
                ends@ == join_scan(paths, i as nat).ends,
                inverts@ == join_scan(paths, i as nat).inverts,
                updated == join_scan(paths, i as nat).updated,
                forall|j: int|
                    0 <= j < i ==> #[trigger] pending@[j] == join_scan(
                        paths,
                        i as nat,
                    ).starts.contains_value(j as usize),
            decreases n - i,
        {
            proof {
                lemma_scan_ok(paths, i as nat);
            }
            let ghost st = join_scan(paths, i as nat);
            let ghost st2 = join_step(paths, st, i as int);
            assert(join_scan(paths, (i + 1) as nat) == st2);
            assert(self.paths@[i as int]@ == paths[i as int]);
            assert(paths[i as int].len() > 0);
            let path = &self.paths[i];
            let first = path[0];
            let last = path[path.len() - 1];
            let kf = key_of(first);
            let kl = key_of(last);
            let ghost old_joined = new_paths@.map_values(|p: Vec<(i32, i32)>| p@);
            let mut merged: Vec<(i32, i32)> = Vec::new();
            let mut found = true;
            let mut removed: Option<usize> = None;
            let hit_fs = starts.get(&kf);
            match hit_fs {
                Some(j) => {
                    let j = *j;
                    assert(self.paths@[j as int]@ == paths[j as int]);
                    extend_backward(&mut merged, path, 0);
                    extend_forward(&mut merged, &self.paths[j], 1);
                    assert(path@.reverse().skip(0) =~= path@.reverse());
                    starts.remove(&kf);
                    let inv = match inverts.get(&kf) {
                        Some(p) => *p,
                        None => {
                            assert(false);
                            first
                        },
                    };
                    ends.remove(&key_of(inv));
                    removed = Some(j);
                },
                None => {
                    let hit_ls = starts.get(&kl);
                    match hit_ls {
                        Some(j) => {
                            let j = *j;
                            assert(self.paths@[j as int]@ == paths[j as int]);
                            extend_forward(&mut merged, path, 0);
                            extend_forward(&mut merged, &self.paths[j], 1);
                            assert(path@.skip(0) =~= path@);
                            starts.remove(&kl);
                            let inv = match inverts.get(&kl) {
                                Some(p) => *p,
                                None => {
                                    assert(false);
                                    last
                                },
                            };
                            ends.remove(&key_of(inv));
                            removed = Some(j);
                        },
                        None => {
                            let hit_fe = ends.get(&kf);
                            match hit_fe {
                                Some(j) => {
                                    let j = *j;
                                    assert(self.paths@[j as int]@ == paths[j as int]);
                                    extend_forward(&mut merged, &self.paths[j], 0);
                                    extend_forward(&mut merged, path, 1);
                                    assert(paths[j as int].skip(0) =~= paths[j as int]);
                                    starts.remove(&kf);
                                    let inv = match inverts.get(&kf) {
                                        Some(p) => *p,
                                        None => {
                                            assert(false);
                                            first
                                        },
                                    };
                                    ends.remove(&key_of(inv));
                                },
                                None => {
                                    let hit_le = ends.get(&kl);
                                    match hit_le {
                                        Some(j) => {
                                            let j = *j;
                                            assert(self.paths@[j as int]@ == paths[j as int]);
                                            extend_forward(&mut merged, &self.paths[j], 0);
                                            extend_backward(&mut merged, path, 1);
                                            assert(paths[j as int].skip(0) =~= paths[j as int]);
                                            starts.remove(&kl);
                                            let inv = match inverts.get(&kl) {
                                                Some(p) => *p,
                                                None => {
                                                    assert(false);
                                                    last
                                                },
                                            };
                                            ends.remove(&key_of(inv));
                                        },
                                        None => {
                                            found = false;
                                            starts.insert(kf, i);
                                            ends.insert(kl, i);
                                            inverts.insert(kf, last);
                                            inverts.insert(kl, first);
                                        },
                                    }
                                },
                            }
                        },
                    }
                },
            }
            if found {
                updated = true;
                new_paths.push(merged);
                assert(new_paths@.map_values(|p: Vec<(i32, i32)>| p@) =~= st2.joined);
            }
            match removed {
                Some(j) => {
                    pending.set(j, false);
                },
                None => {},
            }
            pending.push(!found);
            proof {
                assert forall|x: int| 0 <= x < i + 1 implies #[trigger] pending@[x]
                    == st2.starts.contains_value(x as usize) by {
                    if x < i {
                        if st2.starts.contains_value(x as usize) {
                            let key = choose|key: i64|
                                st2.starts.contains_key(key) && st2.starts[key] == x as usize;
                            assert(st.starts.contains_key(key));
                        }
                        if st.starts.contains_value(x as usize) {
                            let key = choose|key: i64|
                                st.starts.contains_key(key) && st.starts[key] == x as usize;
                            if !found || removed != Some(x as usize) {
                                assert(st2.starts.contains_key(key));
                            }
                        }
                    } else {
                        if !found {
                            assert(st2.starts.contains_key(kf));
                        } else {
                            if st2.starts.contains_value(x as usize) {
                                let key = choose|key: i64|
                                    st2.starts.contains_key(key) && st2.starts[key] == x as usize;
                                assert(st.starts.contains_key(key));
                            }
                        }
                    }
                }
            }
            i = i + 1;
        }
        proof {
            lemma_scan_ok(paths, n as nat);
        }
        if updated {
            let ghost st = join_scan(paths, n as nat);
            let mut k: usize = 0;
            let ghost joined = st.joined;
            while k < n
                invariant
                    n == paths.len(),
                    paths.len() == self.paths@.len(),
                    0 <= k <= n,
                    pending@.len() == n,
                    st == join_scan(paths, n as nat),
                    forall|j: int| 0 <= j < n ==> #[trigger] pending@[j] == st.starts.contains_value(
                        j as usize,
                    ),
                    forall|j: int| k <= j < n ==> #[trigger] self.paths@[j]@ == paths[j],
                    new_paths@.map_values(|p: Vec<(i32, i32)>| p@) == joined + waiting(
                        paths,
                        st.starts,
                        k as nat,
                    ),
                decreases n - k,
            {
                if pending[k] {
                    let mut p: Vec<(i32, i32)> = Vec::new();
                    self.paths.set_and_swap(k, &mut p);
                    let ghost before = new_paths@.map_values(|p: Vec<(i32, i32)>| p@);
                    new_paths.push(p);
                    assert(new_paths@.map_values(|p: Vec<(i32, i32)>| p@) =~= before.push(
                        paths[k as int],
                    ));
                }
                k = k + 1;
            }
            self.paths = new_paths;
            proof {
                let res = self.path_seqs();
                assert(res =~= joined + waiting(paths, st.starts, n as nat));
                lemma_waiting_nonempty(paths, st.starts, n as nat);
                assert forall|x: int| 0 <= x < res.len() implies #[trigger] res[x].len() > 0 by {
                    if x < joined.len() {
                        assert(res[x] == joined[x]);
                    } else {
                        assert(res[x] == waiting(paths, st.starts, n as nat)[x - joined.len()]);
                    }
                }
            }
        }
        updated
    }
}

/// The waiting paths are paths of the input.
proof fn lemma_waiting_nonempty(paths: Seq<Seq<(i32, i32)>>, starts: Map<i64, usize>, k: nat)
    requires
        all_nonempty(paths),
        k <= paths.len(),
    ensures
        all_nonempty(waiting(paths, starts, k)),
    decreases k,
{
    if k > 0 {
        lemma_waiting_nonempty(paths, starts, (k - 1) as nat);
        let w = waiting(paths, starts, k);
        let prev = waiting(paths, starts, (k - 1) as nat);
        assert forall|x: int| 0 <= x < w.len() implies #[trigger] w[x].len() > 0 by {
            if x < prev.len() {
                assert(w[x] == prev[x]);
            }
        }
    }
}

} // verus!

verus! {

/// How a drawing element is styled.
#[derive(Clone, Copy, Debug, PartialEq, Eq, Structural)]
pub enum ColorType {
    Primary,
    Contour,
    Outline,
    Lhs,
    Rhs,
    Difference,
    Selected,
    Cut,
    Dark,
    Pink,
    Blue,
    Black,
    Shaded(u8),
}

impl ColorType {
    /// The plotter pen for this style: outlines use pen 6, contours pen 7,
    /// and every other style is not plotted (pen 0).
    pub fn pen(&self) -> (pen: usize)
        ensures
            pen == match *self {
                ColorType::Outline => 6usize,
                ColorType::Contour => 7usize,
                _ => 0usize,
            },
    {
        match self {
            ColorType::Outline => 6,
            ColorType::Contour => 7,
            _ => 0,
        }
    }
}

/// One HPGL instruction.
#[derive(Clone, Copy, Debug, PartialEq, Eq, Structural)]
pub enum HpglCommand {
    /// `IN;`
    Initialize,
    /// `SP<pen>;`
    SelectPen(usize),
    /// `PU <x>,<y>;`
    PenUp(i32, i32),
    /// `PD <x>,<y>;`
    PenDown(i32, i32),
    /// `PA <x>,<y>;`
    PlotAbsolute(i32, i32),
}

/// The square of the distance between two paper points.
pub open spec fn sq_dist(a: (i32, i32), b: (i32, i32)) -> int {
    (a.0 - b.0) * (a.0 - b.0) + (a.1 - b.1) * (a.1 - b.1)
}

/// How far a path's nearer end is from `end` (squared).
pub open spec fn end_dist(p: Seq<(i32, i32)>, end: (i32, i32)) -> int {
    let d1 = sq_dist(p[0], end);
    let d2 = sq_dist(p.last(), end);
    if d2 < d1 {
        d2
    } else {
        d1
    }
}

/// Among the first `k` paths, the first one whose nearer end is closest to
/// `end`.
pub open spec fn nearest(paths: Seq<Seq<(i32, i32)>>, end: (i32, i32), k: nat) -> int
    decreases k,
{
    if k <= 1 {
        0
    } else {
        let b = nearest(paths, end, (k - 1) as nat);
        if end_dist(paths[k - 1], end) < end_dist(paths[b], end) {
            k - 1
        } else {
            b
        }
    }
}

/// The order in which a pen draws its paths: `cur` first, then each time the
/// remaining path whose nearer end is closest to where the pen stopped.
pub open spec fn draw_order(cur: Seq<(i32, i32)>, rest: Seq<Seq<(i32, i32)>>) -> Seq<
    Seq<(i32, i32)>,
>
    decreases rest.len(),
{
    if rest.len() == 0 {
        seq![cur]
    } else {
        let i = nearest(rest, cur.last(), rest.len());
        if 0 <= i < rest.len() {
            seq![cur] + draw_order(rest[i], rest.remove(i))
        } else {
            seq![cur]
        }
    }
}

/// Drawing one path: pen up to its first point, pen down to its second, then
/// on through the rest.
pub open spec fn stroke_commands(p: Seq<(i32, i32)>) -> Seq<HpglCommand> {
    seq![HpglCommand::PenUp(p[0].0, p[0].1), HpglCommand::PenDown(p[1].0, p[1].1)] + p.skip(
        2,
    ).map_values(|q: (i32, i32)| HpglCommand::PlotAbsolute(q.0, q.1))
}

/// Drawing paths one after the other.
pub open spec fn strokes_commands(ps: Seq<Seq<(i32, i32)>>) -> Seq<HpglCommand>
    decreases ps.len(),
{
    if ps.len() == 0 {
        Seq::empty()
    } else {
        strokes_commands(ps.drop_last()) + stroke_commands(ps.last())
    }
}

/// Everything one pen draws.
pub open spec fn pen_commands(pen: usize, paths: Seq<Seq<(i32, i32)>>) -> Seq<HpglCommand> {
    seq![HpglCommand::SelectPen(pen)] + strokes_commands(draw_order(paths[0], paths.skip(1)))
}

/// The whole plot: initialise, then each pen in turn.
pub open spec fn plot_commands(pens: Seq<(usize, Seq<Seq<(i32, i32)>>)>) -> Seq<HpglCommand>
    decreases pens.len(),
{
    if pens.len() == 0 {
        seq![HpglCommand::Initialize]
    } else {
        plot_commands(pens.drop_last()) + pen_commands(pens.last().0, pens.last().1)
    }
}

/// Drawing a path inks every one of its points, in order: the pen goes up
/// to the first point, down to the second, and then plots each later point
/// in turn, so it ends at the path's last point and every segment of the
/// path is drawn.
pub proof fn law_stroke_inks_every_point(p: Seq<(i32, i32)>)
    requires
        p.len() >= 2,
    ensures
        stroke_commands(p).len() == p.len(),
        stroke_commands(p)[0] == HpglCommand::PenUp(p[0].0, p[0].1),
        stroke_commands(p)[1] == HpglCommand::PenDown(p[1].0, p[1].1),
        forall|k: int|
            2 <= k < p.len() ==> #[trigger] stroke_commands(p)[k] == HpglCommand::PlotAbsolute(
                p[k].0,
                p[k].1,
            ),
        stroke_commands(p).last() == (if p.len() == 2 {
            HpglCommand::PenDown(p.last().0, p.last().1)
        } else {
            HpglCommand::PlotAbsolute(p.last().0, p.last().1)
        }),
{
    let head = seq![HpglCommand::PenUp(p[0].0, p[0].1), HpglCommand::PenDown(p[1].0, p[1].1)];
    let rest = p.skip(2).map_values(|q: (i32, i32)| HpglCommand::PlotAbsolute(q.0, q.1));
    assert forall|k: int| 2 <= k < p.len() implies #[trigger] stroke_commands(p)[k]
        == HpglCommand::PlotAbsolute(p[k].0, p[k].1) by {
        assert((head + rest)[k] == rest[k - 2]);
        assert(p.skip(2)[k - 2] == p[k]);
    }
    if p.len() > 2 {
        assert(stroke_commands(p)[p.len() - 1] == HpglCommand::PlotAbsolute(
            p[p.len() - 1].0,
            p[p.len() - 1].1,
        ));
    }
}

/// A plot of one pen with one path: initialise, select the pen, then draw
/// the path through every one of its points.
pub proof fn law_single_path_plot(pen: usize, p: Seq<(i32, i32)>)
    requires
        p.len() >= 2,
    ensures
        plot_commands(seq![(pen, seq![p])]).len() == p.len() + 2,
        plot_commands(seq![(pen, seq![p])])[0] == HpglCommand::Initialize,
        plot_commands(seq![(pen, seq![p])])[1] == HpglCommand::SelectPen(pen),
        plot_commands(seq![(pen, seq![p])])[2] == HpglCommand::PenUp(p[0].0, p[0].1),
        plot_commands(seq![(pen, seq![p])])[3] == HpglCommand::PenDown(p[1].0, p[1].1),
        forall|k: int|
            2 <= k < p.len() ==> #[trigger] plot_commands(seq![(pen, seq![p])])[k + 2]
                == HpglCommand::PlotAbsolute(p[k].0, p[k].1),
{
    law_stroke_inks_every_point(p);
    let pens = seq![(pen, seq![p])];
    assert(pens.drop_last() =~= Seq::<(usize, Seq<Seq<(i32, i32)>>)>::empty());
    let paths = seq![p];
    assert(paths.skip(1) =~= Seq::<Seq<(i32, i32)>>::empty());
    assert(draw_order(paths[0], paths.skip(1)) == seq![p]);
    let one = seq![p];
    assert(one.drop_last() =~= Seq::<Seq<(i32, i32)>>::empty());
    assert(strokes_commands(one.drop_last()) == Seq::<HpglCommand>::empty());
    assert(one.last() == p);
    assert(strokes_commands(one) == strokes_commands(one.drop_last()) + stroke_commands(one.last()));
    assert(strokes_commands(one) =~= stroke_commands(p));
    assert(plot_commands(pens.drop_last()) == seq![HpglCommand::Initialize]);
    assert(pens.last() == (pen, seq![p]));
    assert(pen_commands(pen, paths) =~= seq![HpglCommand::SelectPen(pen)] + stroke_commands(p));
    let all = seq![HpglCommand::Initialize] + (seq![HpglCommand::SelectPen(pen)] + stroke_commands(p));
    assert(plot_commands(pens) =~= all);
    assert forall|k: int| 2 <= k < p.len() implies #[trigger] plot_commands(pens)[k + 2]
        == HpglCommand::PlotAbsolute(p[k].0, p[k].1) by {
        assert(all[k + 2] == stroke_commands(p)[k]);
    }
}

/// The nearest path exists among the first `k`.
proof fn lemma_nearest_in_range(paths: Seq<Seq<(i32, i32)>>, end: (i32, i32), k: nat)
    requires
        1 <= k,
    ensures
        0 <= nearest(paths, end, k) < k,
    decreases k,
{
    if k > 1 {
        lemma_nearest_in_range(paths, end, (k - 1) as nat);
    }
}

/// The nearest path is no farther than any other, and strictly nearer than
/// every path before it.
pub proof fn law_nearest_is_closest(paths: Seq<Seq<(i32, i32)>>, end: (i32, i32), k: nat)
    requires
        1 <= k,
    ensures
        0 <= nearest(paths, end, k) < k,
        forall|x: int|
            0 <= x < k ==> end_dist(paths[nearest(paths, end, k)], end) <= end_dist(
                #[trigger] paths[x],
                end,
            ),
        forall|x: int|
            0 <= x < nearest(paths, end, k) ==> end_dist(paths[nearest(paths, end, k)], end)
                < end_dist(#[trigger] paths[x], end),
    decreases k,
{
    if k > 1 {
        law_nearest_is_closest(paths, end, (k - 1) as nat);
    }
}

/// Every path of a pen is drawn exactly once.
pub proof fn law_every_path_drawn_once(cur: Seq<(i32, i32)>, rest: Seq<Seq<(i32, i32)>>)
    ensures
        draw_order(cur, rest).to_multiset() == seq![cur].add(rest).to_multiset(),
    decreases rest.len(),
{
    broadcast use vstd::seq_lib::group_to_multiset_ensures;

    if rest.len() == 0 {
        assert(seq![cur].add(rest) =~= seq![cur]);
    } else {
        let i = nearest(rest, cur.last(), rest.len());
        lemma_nearest_in_range(rest, cur.last(), rest.len());
        law_every_path_drawn_once(rest[i], rest.remove(i));
        let tail = draw_order(rest[i], rest.remove(i));
        assert(seq![rest[i]].add(rest.remove(i)).to_multiset() =~= rest.to_multiset()) by {
            assert(seq![rest[i]].add(rest.remove(i)) =~= rest.remove(i).insert(0, rest[i]));
            lemma_multiset_insert_front(rest.remove(i), rest[i]);
        }
        lemma_multiset_insert_front(tail, cur);
        lemma_multiset_insert_front(rest, cur);
        assert(seq![cur] + tail =~= tail.insert(0, cur));
        assert(seq![cur].add(rest) =~= rest.insert(0, cur));
    }
}

/// Putting an element in front adds it to the multiset.
proof fn lemma_multiset_insert_front(s: Seq<Seq<(i32, i32)>>, x: Seq<(i32, i32)>)
    ensures
        s.insert(0, x).to_multiset() == s.to_multiset().insert(x),
{
    broadcast use vstd::seq_lib::group_to_multiset_ensures;

    let t = s.insert(0, x);
    assert(t.remove(0) =~= s);
    assert(t.remove(0).to_multiset() =~= t.to_multiset().remove(t[0]));
    assert(t.to_multiset().count(x) > 0);
}

/// The squared distance between two paper points, computed exactly.
fn sq_dist_exec(a: (i32, i32), b: (i32, i32)) -> (d: u128)
    ensures
        d == sq_dist(a, b),
{
    let dx: i64 = (a.0 as i64) - (b.0 as i64);
    let dy: i64 = (a.1 as i64) - (b.1 as i64);
    let ax: u64 = if dx < 0 {
        (0i64 - dx) as u64
    } else {
        dx as u64
    };
    let ay: u64 = if dy < 0 {
        (0i64 - dy) as u64
    } else {
        dy as u64
    };
    assert(ax * ax == dx * dx) by (nonlinear_arith)
        requires
            ax == dx || ax == -dx,
    ;
    assert(ay * ay == dy * dy) by (nonlinear_arith)
        requires
            ay == dy || ay == -dy,
    ;
    assert(ax * ax <= 0xffff_ffff_ffff_ffff_ffff_ffff) by (nonlinear_arith)
        requires
            ax <= 0xffff_ffff,
    ;
    assert(ay * ay <= 0xffff_ffff_ffff_ffff_ffff_ffff) by (nonlinear_arith)
        requires
            ay <= 0xffff_ffff,
    ;
    let sx: u128 = (ax as u128) * (ax as u128);
    let sy: u128 = (ay as u128) * (ay as u128);
    sx + sy
}

/// Append the commands that draw one path.
fn emit_stroke(out: &mut Vec<HpglCommand>, p: &Vec<(i32, i32)>)
    requires
        p@.len() >= 2,
    ensures
        final(out)@ == old(out)@ + stroke_commands(p@),
{
    let ghost start = out@;
    out.push(HpglCommand::PenUp(p[0].0, p[0].1));
    out.push(HpglCommand::PenDown(p[1].0, p[1].1));
    let ghost rest = p@.skip(2).map_values(|q: (i32, i32)| HpglCommand::PlotAbsolute(q.0, q.1));
    let mut k: usize = 2;
    while k < p.len()
        invariant
            2 <= k <= p@.len(),
            rest == p@.skip(2).map_values(|q: (i32, i32)| HpglCommand::PlotAbsolute(q.0, q.1)),
            out@ == start + seq![
                HpglCommand::PenUp(p@[0].0, p@[0].1),
                HpglCommand::PenDown(p@[1].0, p@[1].1),
            ] + rest.take(k - 2),
        decreases p@.len() - k,
    {
        out.push(HpglCommand::PlotAbsolute(p[k].0, p[k].1));
        assert(rest.take(k - 1) =~= rest.take(k - 2).push(rest[k - 2]));
        k = k + 1;
    }
    assert(rest.take(k - 2) =~= rest);
}

/// The index of the first path whose nearer end is closest to `end`.
fn nearest_exec(opt: &Optimizer, end: (i32, i32)) -> (i: usize)
    requires
        opt.path_seqs().len() >= 1,
        all_nonempty(opt.path_seqs()),
    ensures
        i == nearest(opt.path_seqs(), end, opt.path_seqs().len()),
{
    let ghost ps = opt.path_seqs();
    let n = opt.len();
    let p0 = opt.path(0);
    assert(p0@.len() > 0);
    let d1 = sq_dist_exec(p0[0], end);
    let d2 = sq_dist_exec(p0[p0.len() - 1], end);
    let mut best: usize = 0;
    let mut best_d: u128 = if d2 < d1 {
        d2
    } else {
        d1
    };
    let mut k: usize = 1;
    while k < n
        invariant
            n == ps.len(),
            ps == opt.path_seqs(),
            all_nonempty(ps),
            1 <= k <= n,
            best == nearest(ps, end, k as nat),
            best < k,
            best_d == end_dist(ps[best as int], end),
        decreases n - k,
    {
        let p = opt.path(k);
        assert(p@.len() > 0);
        let e1 = sq_dist_exec(p[0], end);
        let e2 = sq_dist_exec(p[p.len() - 1], end);
        let d = if e2 < e1 {
            e2
        } else {
            e1
        };
        if d < best_d {
            best = k;
            best_d = d;
        }
        k = k + 1;
    }
    best
}

/// A plot under way: for each pen, in the order pens were first used, the
/// paths it draws.
pub struct HpglPlot {
    pen_ids: Vec<usize>,
    optimizers: Vec<Optimizer>,
}

/// What is in a plot: each pen with its paths.
pub open spec fn pens_ok(pens: Seq<(usize, Seq<Seq<(i32, i32)>>)>) -> bool {
    &&& forall|a: int, b: int|
        0 <= a < pens.len() && 0 <= b < pens.len() && a != b ==> #[trigger] pens[a].0 != #[trigger] pens[b].0
    &&& forall|a: int| 0 <= a < pens.len() ==> all_strokes(#[trigger] pens[a].1)
}

/// Every pen has something to draw.
pub open spec fn pens_ready(pens: Seq<(usize, Seq<Seq<(i32, i32)>>)>) -> bool {
    &&& pens_ok(pens)
    &&& forall|a: int| 0 <= a < pens.len() ==> #[trigger] pens[a].1.len() >= 1
}

/// The plot after a stroke from `a` to `b` with `pen` (pen 0 draws nothing).
pub open spec fn with_stroke(
    pens: Seq<(usize, Seq<Seq<(i32, i32)>>)>,
    pen: usize,
    a: (i32, i32),
    b: (i32, i32),
) -> Seq<(usize, Seq<Seq<(i32, i32)>>)> {
    if pen == 0 {
        pens
    } else if exists|x: int| 0 <= x < pens.len() && #[trigger] pens[x].0 == pen {
        let x = choose|x: int| 0 <= x < pens.len() && #[trigger] pens[x].0 == pen;
        pens.update(x, (pen, pens[x].1.push(seq![a, b])))
    } else {
        pens.push((pen, seq![seq![a, b]]))
    }
}

impl HpglPlot {
    /// Each pen with its paths.
    pub closed spec fn pens(&self) -> Seq<(usize, Seq<Seq<(i32, i32)>>)> {
        Seq::new(
            self.pen_ids@.len(),
            |x: int| (self.pen_ids@[x], self.optimizers@[x].path_seqs()),
        )
    }

    /// The two lists stay side by side.
    pub closed spec fn wf(&self) -> bool {
        self.pen_ids@.len() == self.optimizers@.len()
    }

    /// An empty plot.
    pub fn new() -> (p: Self)
        ensures
            p.wf(),
            p.pens() == Seq::<(usize, Seq<Seq<(i32, i32)>>)>::empty(),
            pens_ok(p.pens()),
    {
        let p = HpglPlot { pen_ids: Vec::new(), optimizers: Vec::new() };
        assert(p.pens() =~= Seq::<(usize, Seq<Seq<(i32, i32)>>)>::empty());
        p
    }

    /// Add a stroke from `a` to `b` for `pen`; pen 0 draws nothing.
    pub fn draw_segment(&mut self, pen: usize, a: (i32, i32), b: (i32, i32))
        requires
            old(self).wf(),
            pens_ok(old(self).pens()),
        ensures
            final(self).wf(),
            final(self).pens() == with_stroke(old(self).pens(), pen, a, b),
            pens_ok(final(self).pens()),
            pens_ready(old(self).pens()) ==> pens_ready(final(self).pens()),
    {
        if pen == 0 {
            return;
        }
        let ghost pens = self.pens();
        let mut x: usize = 0;
        let n = self.pen_ids.len();
        while x < n
            invariant
                n == self.pen_ids@.len(),
                self.wf(),
                self.pens() == pens,
                pens == old(self).pens(),
                pens_ok(pens),
                pen != 0,
                0 <= x <= n,
                forall|y: int| 0 <= y < x ==> #[trigger] pens[y].0 != pen,
            decreases n - x,
        {
            if self.pen_ids[x] == pen {
                assert(pens[x as int].0 == pen);
                let mut opt = Optimizer::new();
                self.optimizers.set_and_swap(x, &mut opt);
                opt.add_line(a, b);
                self.optimizers.set_and_swap(x, &mut opt);
                proof {
                    assert(exists|w: int| 0 <= w < pens.len() && #[trigger] pens[w].0 == pen);
                    let w = choose|w: int| 0 <= w < pens.len() && #[trigger] pens[w].0 == pen;
                    assert(w == x) by {
                        if w != x {
                            assert(pens[w].0 != pens[x as int].0);
                        }
                    }
                    assert(self.pens() =~= pens.update(
                        x as int,
                        (pen, pens[x as int].1.push(seq![a, b])),
                    ));
                    let np = self.pens();
                    assert forall|y: int| 0 <= y < np.len() implies all_strokes(#[trigger] np[y].1) by {
                        if y == x {
                            let q = np[y].1;
                            assert forall|z: int| 0 <= z < q.len() implies #[trigger] q[z].len() >= 2 by {
                                if z < pens[y].1.len() {
                                    assert(q[z] == pens[y].1[z]);
                                }
                            }
                        }
                    }
                }
                return;
            }
            x = x + 1;
        }
        let mut opt = Optimizer::new();
        opt.add_line(a, b);
        self.pen_ids.push(pen);
        self.optimizers.push(opt);
        proof {
            assert(!exists|w: int| 0 <= w < pens.len() && #[trigger] pens[w].0 == pen);
            assert(self.pens() =~= pens.push((pen, seq![seq![a, b]])));
            let np = self.pens();
            assert forall|y: int| 0 <= y < np.len() implies all_strokes(#[trigger] np[y].1) by {
                if y < pens.len() {
                    assert(np[y] == pens[y]);
                }
            }
        }
    }

    /// Join the paths of every pen (see `Optimizer::optimize`).
    pub fn optimize(&mut self)
        requires
            old(self).wf(),
            pens_ok(old(self).pens()),
        ensures
            final(self).wf(),
            pens_ok(final(self).pens()),
            final(self).pens().len() == old(self).pens().len(),
            forall|x: int|
                0 <= x < old(self).pens().len() ==> #[trigger] final(self).pens()[x] == (
                    old(self).pens()[x].0,
                    optimized(old(self).pens()[x].1, false),
                ),
            pens_ready(old(self).pens()) ==> pens_ready(final(self).pens()),
    {
        let ghost pens = self.pens();
        let n = self.optimizers.len();
        let mut x: usize = 0;
        while x < n
            invariant
                n == self.optimizers@.len(),
                self.wf(),
                pens.len() == n,
                pens_ok(pens),
                0 <= x <= n,
                forall|y: int| 0 <= y < x ==> #[trigger] self.pens()[y] == (
                    pens[y].0,
                    optimized(pens[y].1, false),
                ) && all_strokes(self.pens()[y].1),
                forall|y: int|
                    0 <= y < x ==> (pens[y].1.len() > 0 ==> #[trigger] self.pens()[y].1.len() > 0),
                forall|y: int| x <= y < n ==> #[trigger] self.pens()[y] == pens[y],
            decreases n - x,
        {
            let ghost before = self.pens();
            assert(before[x as int] == pens[x as int]);
            let mut opt = Optimizer::new();
            self.optimizers.set_and_swap(x, &mut opt);
            assert(opt.path_seqs() == pens[x as int].1);
            assert(all_strokes(pens[x as int].1));
            assert forall|z: int| 0 <= z < opt.path_seqs().len() implies #[trigger] opt.path_seqs()[z].len()
                > 0 by {
                assert(opt.path_seqs()[z].len() >= 2);
            }
            proof {
                opt.lemma_count_fits();
                if pens[x as int].1.len() > 0 {
                    law_optimized_keeps_some(pens[x as int].1, false);
                }
            }
            opt.optimize();
            self.optimizers.set_and_swap(x, &mut opt);
            assert forall|y: int| 0 <= y < x + 1 implies #[trigger] self.pens()[y] == (
                pens[y].0,
                optimized(pens[y].1, false),
            ) && all_strokes(self.pens()[y].1) by {
                if y < x {
                    assert(self.pens()[y] == before[y]);
                }
            }
            assert forall|y: int| 0 <= y < x + 1 && pens[y].1.len() > 0 implies #[trigger] self.pens()[
                y].1.len() > 0 by {
                if y < x {
                    assert(self.pens()[y] == before[y]);
                }
            }
            assert forall|y: int| x + 1 <= y < n implies #[trigger] self.pens()[y] == pens[y] by {
                assert(self.pens()[y] == before[y]);
            }
            x = x + 1;
        }
        proof {
            let np = self.pens();
            assert forall|a: int, b: int|
                0 <= a < np.len() && 0 <= b < np.len() && a != b implies #[trigger] np[a].0
                != #[trigger] np[b].0 by {
                assert(np[a].0 == pens[a].0);
                assert(np[b].0 == pens[b].0);
            }
            assert forall|a: int| 0 <= a < np.len() implies all_strokes(#[trigger] np[a].1) by {}
        }
    }

    /// Turn the plot into HPGL instructions (see `plot_commands`); each pen's
    /// paths are used up, the pens stay.
    pub fn commands(&mut self) -> (out: Vec<HpglCommand>)
        requires
            old(self).wf(),
            pens_ready(old(self).pens()),
        ensures
            out@ == plot_commands(old(self).pens()),
            final(self).wf(),
            final(self).pens().len() == old(self).pens().len(),
            forall|x: int|
                0 <= x < old(self).pens().len() ==> #[trigger] final(self).pens()[x] == (
                    old(self).pens()[x].0,
                    Seq::<Seq<(i32, i32)>>::empty(),
                ),
    {
        let ghost pens = self.pens();
        let mut out: Vec<HpglCommand> = Vec::new();
        out.push(HpglCommand::Initialize);
        let n = self.optimizers.len();
        let mut x: usize = 0;
        assert(pens.take(0) =~= Seq::<(usize, Seq<Seq<(i32, i32)>>)>::empty());
        while x < n
            invariant
                n == self.optimizers@.len(),
                self.wf(),
                pens.len() == n,
                pens_ready(pens),
                0 <= x <= n,
                out@ == plot_commands(pens.take(x as int)),
                forall|y: int| 0 <= y < x ==> #[trigger] self.pens()[y] == (
                    pens[y].0,
                    Seq::<Seq<(i32, i32)>>::empty(),
                ),
                forall|y: int| x <= y < n ==> #[trigger] self.pens()[y] == pens[y],
            decreases n - x,
        {
            let ghost before = self.pens();
            assert(before[x as int] == pens[x as int]);
            let pen = self.pen_ids[x];
            assert(pens[x as int].0 == pen);
            let mut opt = Optimizer::new();
            self.optimizers.set_and_swap(x, &mut opt);
            assert(opt.path_seqs() == pens[x as int].1);
            proof {
                assert(pens[x as int].1.len() >= 1);
                assert(all_strokes(pens[x as int].1));
            }
            let ghost start = out@;
            out.push(HpglCommand::SelectPen(pen));
            let ghost all = pens[x as int].1;
            let mut path = opt.remove_path(0);
            let ghost mut done: Seq<Seq<(i32, i32)>> = Seq::empty();
            assert(opt.path_seqs() =~= all.skip(1));
            loop
                invariant_except_break
                    out@ == start + seq![HpglCommand::SelectPen(pen)] + strokes_commands(done),
                invariant
                    all_strokes(all),
                    path@.len() >= 2,
                    all_strokes(opt.path_seqs()),
                    done + draw_order(path@, opt.path_seqs()) == draw_order(all[0], all.skip(1)),
                ensures
                    out@ == start + seq![HpglCommand::SelectPen(pen)] + strokes_commands(
                        draw_order(all[0], all.skip(1)),
                    ),
                    opt.path_seqs().len() == 0,
                decreases opt.path_seqs().len(),
            {
                emit_stroke(&mut out, &path);
                proof {
                    assert(done.push(path@).drop_last() =~= done);
                }
                if opt.len() == 0 {
                    proof {
                        assert(draw_order(path@, opt.path_seqs()) =~= seq![path@]);
                        assert(done + seq![path@] =~= done.push(path@));
                    }
                    break;
                }
                let end = path[path.len() - 1];
                assert forall|z: int| 0 <= z < opt.path_seqs().len() implies #[trigger] opt.path_seqs()[z].len()
                    > 0 by {
                    assert(opt.path_seqs()[z].len() >= 2);
                }
                let i = nearest_exec(&opt, end);
                proof {
                    lemma_nearest_in_range(opt.path_seqs(), end, opt.path_seqs().len());
                    let rest = opt.path_seqs();
                    assert(draw_order(path@, rest) == seq![path@] + draw_order(rest[i as int], rest.remove(i as int)));
                    assert(done + draw_order(path@, rest) =~= done.push(path@) + draw_order(rest[i as int], rest.remove(i as int)));
                    done = done.push(path@);
                    assert(rest[i as int].len() >= 2);
                    let r2 = rest.remove(i as int);
                    assert forall|z: int| 0 <= z < r2.len() implies #[trigger] r2[z].len() >= 2 by {
                        if z < i {
                            assert(r2[z] == rest[z]);
                        } else {
                            assert(r2[z] == rest[z + 1]);
                        }
                    }
                }
                path = opt.remove_path(i);
            }
            self.optimizers.set_and_swap(x, &mut opt);
            proof {
                assert(pens.take(x + 1).drop_last() =~= pens.take(x as int));
                assert(pens.take(x + 1).last() == pens[x as int]);
                assert(all.skip(1) == pens[x as int].1.skip(1));
                assert(out@ =~= plot_commands(pens.take(x + 1)));
                assert(opt.path_seqs() =~= Seq::<Seq<(i32, i32)>>::empty());
            }
            assert forall|y: int| 0 <= y < x + 1 implies #[trigger] self.pens()[y] == (
                pens[y].0,
                Seq::<Seq<(i32, i32)>>::empty(),
            ) by {
                if y < x {
                    assert(self.pens()[y] == before[y]);
                }
            }
            assert forall|y: int| x + 1 <= y < n implies #[trigger] self.pens()[y] == pens[y] by {
                assert(self.pens()[y] == before[y]);
            }
            x = x + 1;
        }
        assert(pens.take(n as int) =~= pens);
        out
    }
}

} // verus!
