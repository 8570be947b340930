//! The outline of a model after back-face culling: every line where a face
//! that is kept meets a face that is culled. The corners of the faces are
//! given by number (equal points, equal numbers), so the search is a matter
//! of comparing numbers.
use vstd::prelude::*;

verus! {

/// Whether the lines `a`–`b` and `c`–`d` are the same line, in either
/// direction.
pub open spec fn same_line(a: usize, b: usize, c: usize, d: usize) -> bool {
    (a == c && b == d) || (a == d && b == c)
}

/// Whether the line `a`–`b` is one of the lines of triangle `t`.
pub open spec fn has_line(t: (usize, usize, usize), a: usize, b: usize) -> bool {
    same_line(a, b, t.0, t.1) || same_line(a, b, t.1, t.2) || same_line(a, b, t.2, t.0)
}

/// How many of the three lines of `t` (`t.0`–`t.1`, `t.1`–`t.2`,
/// `t.2`–`t.0`) are lines of `u`.
pub open spec fn shared_line_count(t: (usize, usize, usize), u: (usize, usize, usize)) -> nat {
    (if has_line(u, t.0, t.1) {
        1nat
    } else {
        0nat
    }) + (if has_line(u, t.1, t.2) {
        1nat
    } else {
        0nat
    }) + (if has_line(u, t.2, t.0) {
        1nat
    } else {
        0nat
    })
}

/// The first line of `t` that is also a line of `u`, as `t` runs it.
pub open spec fn first_shared_line(t: (usize, usize, usize), u: (usize, usize, usize)) -> (usize, usize) {
    if has_line(u, t.0, t.1) {
        (t.0, t.1)
    } else if has_line(u, t.1, t.2) {
        (t.1, t.2)
    } else {
        (t.2, t.0)
    }
}

/// Faces `i` and `j` lie on different sides of the cull and share more than
/// one line, which a proper mesh never does.
pub open spec fn bad_pair(tris: Seq<(usize, usize, usize)>, culled: Seq<bool>, i: int, j: int) -> bool {
    culled[i] != culled[j] && shared_line_count(tris[i], tris[j]) >= 2
}

/// The outline edge between faces `i` and `j`, if there is one: the faces
/// lie on different sides of the cull and share a line.
pub open spec fn pair_edge(tris: Seq<(usize, usize, usize)>, culled: Seq<bool>, i: int, j: int) -> Seq<
    (usize, usize, (usize, usize)),
> {
    if culled[i] != culled[j] && shared_line_count(tris[i], tris[j]) == 1 {
        seq![(i as usize, j as usize, first_shared_line(tris[i], tris[j]))]
    } else {
        Seq::empty()
    }
}

/// The edges between face `i` and the faces `i + 1` up to `m - 1`.
pub open spec fn row_edges(tris: Seq<(usize, usize, usize)>, culled: Seq<bool>, i: int, m: int) -> Seq<
    (usize, usize, (usize, usize)),
>
    decreases m - i,
{
    if m <= i + 1 {
        Seq::empty()
    } else {
        row_edges(tris, culled, i, m - 1) + pair_edge(tris, culled, i, m - 1)
    }
}

/// The edges of all pairs whose first face comes before `r`, pair by pair
/// in order.
pub open spec fn outline_edges(tris: Seq<(usize, usize, usize)>, culled: Seq<bool>, r: int) -> Seq<
    (usize, usize, (usize, usize)),
>
    decreases r,
{
    if r <= 0 {
        Seq::empty()
    } else {
        outline_edges(tris, culled, r - 1) + row_edges(tris, culled, r - 1, tris.len() as int)
    }
}

/// An outline edge joins a kept face to a culled one, along a line of both.
pub open spec fn joins_kept_and_culled(
    tris: Seq<(usize, usize, usize)>,
    culled: Seq<bool>,
    e: (usize, usize, (usize, usize)),
) -> bool {
    &&& e.0 < e.1 < tris.len()
    &&& culled[e.0 as int] != culled[e.1 as int]
    &&& has_line(tris[e.0 as int], e.2.0, e.2.1)
    &&& has_line(tris[e.1 as int], e.2.0, e.2.1)
}

proof fn lemma_row_edges_join(tris: Seq<(usize, usize, usize)>, culled: Seq<bool>, i: int, m: int)
    requires
        0 <= i,
        m <= tris.len(),
        tris.len() <= usize::MAX,
    ensures
        forall|k: int|
            0 <= k < row_edges(tris, culled, i, m).len() ==> joins_kept_and_culled(
                tris,
                culled,
                #[trigger] row_edges(tris, culled, i, m)[k],
            ),
    decreases m - i,
{
    if m > i + 1 {
        lemma_row_edges_join(tris, culled, i, m - 1);
        let a = row_edges(tris, culled, i, m - 1);
        let b = pair_edge(tris, culled, i, m - 1);
        assert forall|k: int| 0 <= k < (a + b).len() implies joins_kept_and_culled(
            tris,
            culled,
            #[trigger] (a + b)[k],
        ) by {
            if k < a.len() {
                assert((a + b)[k] == a[k]);
            } else {
                assert((a + b)[k] == b[k - a.len()]);
            }
        }
    }
}

/// Every outline edge joins a kept face to a culled face, along a line of
/// both, and names the earlier face first.
pub proof fn law_outline_joins_kept_and_culled(tris: Seq<(usize, usize, usize)>, culled: Seq<bool>, r: int)
    requires
        r <= tris.len(),
        tris.len() <= usize::MAX,
    ensures
        forall|k: int|
            0 <= k < outline_edges(tris, culled, r).len() ==> joins_kept_and_culled(
                tris,
                culled,
                #[trigger] outline_edges(tris, culled, r)[k],
            ),
    decreases r,
{
    if r > 0 {
        law_outline_joins_kept_and_culled(tris, culled, r - 1);
        lemma_row_edges_join(tris, culled, r - 1, tris.len() as int);
        let a = outline_edges(tris, culled, r - 1);
        let b = row_edges(tris, culled, r - 1, tris.len() as int);
        assert forall|k: int| 0 <= k < (a + b).len() implies joins_kept_and_culled(
            tris,
            culled,
            #[trigger] (a + b)[k],
        ) by {
            if k < a.len() {
                assert((a + b)[k] == a[k]);
            } else {
                assert((a + b)[k] == b[k - a.len()]);
            }
        }
    }
}

proof fn lemma_row_edges_complete(tris: Seq<(usize, usize, usize)>, culled: Seq<bool>, i: int, m: int)
    requires
        0 <= i,
        m <= tris.len(),
        tris.len() <= usize::MAX,
    ensures
        forall|j: int|
            i < j < m && culled[i] != culled[j] && shared_line_count(tris[i], tris[j]) == 1
                ==> #[trigger] row_edges(tris, culled, i, m).contains(
                (i as usize, j as usize, first_shared_line(tris[i], tris[j])),
            ),
    decreases m - i,
{
    if m > i + 1 {
        lemma_row_edges_complete(tris, culled, i, m - 1);
        let a = row_edges(tris, culled, i, m - 1);
        let b = pair_edge(tris, culled, i, m - 1);
        assert forall|j: int|
            i < j < m && culled[i] != culled[j] && shared_line_count(tris[i], tris[j]) == 1 implies #[trigger] (a
            + b).contains((i as usize, j as usize, first_shared_line(tris[i], tris[j]))) by {
            let e = (i as usize, j as usize, first_shared_line(tris[i], tris[j]));
            if j < m - 1 {
                assert(row_edges(tris, culled, i, m - 1).contains(e));
                let w = choose|w: int| 0 <= w < a.len() && a[w] == e;
                assert((a + b)[w] == e);
            } else {
                assert((a + b)[a.len() as int] == e);
            }
        }
    }
}

/// Some edge of `edges` joins faces `i` and `j`, along a line of both.
pub open spec fn joins(
    tris: Seq<(usize, usize, usize)>,
    edges: Seq<(usize, usize, (usize, usize))>,
    i: int,
    j: int,
) -> bool {
    exists|x: int|
        0 <= x < edges.len() && edges[x].0 == i && edges[x].1 == j && has_line(
            tris[i],
            edges[x].2.0,
            edges[x].2.1,
        ) && has_line(tris[j], edges[x].2.0, edges[x].2.1)
}

/// The outline is complete: every pair of faces `i < j` that lie on
/// different sides of the cull (whichever of the two is the culled one) and
/// share exactly one line has its edge in the outline, along that line.
pub proof fn law_outline_complete(tris: Seq<(usize, usize, usize)>, culled: Seq<bool>, r: int)
    requires
        r <= tris.len(),
        tris.len() <= usize::MAX,
    ensures
        forall|i: int, j: int|
            0 <= i < r && i < j < tris.len() && culled[i] != culled[j] && shared_line_count(
                tris[i],
                tris[j],
            ) == 1 ==> #[trigger] joins(tris, outline_edges(tris, culled, r), i, j),
    decreases r,
{
    if r > 0 {
        law_outline_complete(tris, culled, r - 1);
        lemma_row_edges_complete(tris, culled, r - 1, tris.len() as int);
        let a = outline_edges(tris, culled, r - 1);
        let b = row_edges(tris, culled, r - 1, tris.len() as int);
        let o = outline_edges(tris, culled, r);
        assert(o == a + b);
        assert forall|i: int, j: int|
            0 <= i < r && i < j < tris.len() && culled[i] != culled[j] && shared_line_count(
                tris[i],
                tris[j],
            ) == 1 implies #[trigger] joins(tris, o, i, j) by {
            if i < r - 1 {
                assert(joins(tris, a, i, j));
                let x = choose|x: int|
                    0 <= x < a.len() && a[x].0 == i && a[x].1 == j && has_line(
                        tris[i],
                        a[x].2.0,
                        a[x].2.1,
                    ) && has_line(tris[j], a[x].2.0, a[x].2.1);
                assert(o[x] == a[x]);
            } else {
                let e = (i as usize, j as usize, first_shared_line(tris[i], tris[j]));
                assert(b.contains(e));
                let w = choose|w: int| 0 <= w < b.len() && b[w] == e;
                assert(o[a.len() + w] == e);
            }
        }
    }
}

/// Whether the line `a`–`b` is a line of `u`.
fn line_of(u: (usize, usize, usize), a: usize, b: usize) -> (r: bool)
    ensures
        r == has_line(u, a, b),
{
    (a == u.0 && b == u.1) || (a == u.1 && b == u.0) || (a == u.1 && b == u.2) || (a == u.2 && b
        == u.1) || (a == u.2 && b == u.0) || (a == u.0 && b == u.2)
}

/// The outline of a culled mesh: for every pair of faces `i < j`, in order,
/// that lie on different sides of the cull (`culled`) and share a line, the
/// pair with that line (as face `i` runs it). Faces on different sides that
/// share more than one line are refused: `Err` names such a pair.
pub fn outline(tris: &Vec<(usize, usize, usize)>, culled: &Vec<bool>) -> (res: Result<
    Vec<(usize, usize, (usize, usize))>,
    (usize, usize),
>)
    requires
        culled@.len() == tris@.len(),
    ensures
        match res {
            Ok(edges) => {
                &&& forall|i: int, j: int|
                    0 <= i < j < tris@.len() ==> !#[trigger] bad_pair(tris@, culled@, i, j)
                &&& edges@ == outline_edges(tris@, culled@, tris@.len() as int)
            },
            Err((i, j)) => i < j < tris@.len() && bad_pair(tris@, culled@, i as int, j as int),
        },
{
    let n = tris.len();
    let mut edges: Vec<(usize, usize, (usize, usize))> = Vec::new();
    let mut i: usize = 0;
    while i < n
        invariant
            n == tris@.len(),
            culled@.len() == n,
            i <= n,
            edges@ == outline_edges(tris@, culled@, i as int),
            forall|a: int, b: int| 0 <= a < i && a < b < n ==> !#[trigger] bad_pair(tris@, culled@, a, b),
        decreases n - i,
    {
        let mut j: usize = i + 1;
        let ghost start = edges@;
        while j < n
            invariant
                n == tris@.len(),
                culled@.len() == n,
                i < n,
                i + 1 <= j <= n,
                start == outline_edges(tris@, culled@, i as int),
                edges@ == start + row_edges(tris@, culled@, i as int, j as int),
                forall|a: int, b: int| 0 <= a < i && a < b < n ==> !#[trigger] bad_pair(tris@, culled@, a, b),
                forall|b: int| i < b < j ==> !#[trigger] bad_pair(tris@, culled@, i as int, b),
            decreases n - j,
        {
            if culled[i] != culled[j] {
                let t = tris[i];
                let u = tris[j];
                let l0 = line_of(u, t.0, t.1);
                let l1 = line_of(u, t.1, t.2);
                let l2 = line_of(u, t.2, t.0);
                let k: usize = (if l0 { 1 } else { 0 }) + (if l1 { 1 } else { 0 }) + (if l2 {
                    1
                } else {
                    0
                });
                if k >= 2 {
                    return Err((i, j));
                }
                if k == 1 {
                    let line = if l0 {
                        (t.0, t.1)
                    } else if l1 {
                        (t.1, t.2)
                    } else {
                        (t.2, t.0)
                    };
                    edges.push((i, j, line));
                }
            }
            assert(edges@ =~= start + row_edges(tris@, culled@, i as int, j + 1));
            j = j + 1;
        }
        assert(edges@ =~= outline_edges(tris@, culled@, i + 1));
        i = i + 1;
    }
    Ok(edges)
}

/// The lines of the triangles, three per triangle (`t.0`–`t.1`, `t.1`–`t.2`,
/// `t.2`–`t.0`), triangle by triangle.
pub open spec fn triangle_lines(tris: Seq<(usize, usize, usize)>) -> Seq<(usize, usize)>
    decreases tris.len(),
{
    if tris.len() == 0 {
        Seq::empty()
    } else {
        let t = tris.last();
        triangle_lines(tris.drop_last()) + seq![(t.0, t.1), (t.1, t.2), (t.2, t.0)]
    }
}

/// How many lines of `ls` are the line `a`–`b`, in either direction.
pub open spec fn occurrences(ls: Seq<(usize, usize)>, a: usize, b: usize) -> nat
    decreases ls.len(),
{
    if ls.len() == 0 {
        0
    } else {
        occurrences(ls.drop_last(), a, b) + if same_line(ls.last().0, ls.last().1, a, b) {
            1nat
        } else {
            0nat
        }
    }
}

/// The lines among the first `k` of `ls` that occur only once in all of
/// `ls`, in order.
pub open spec fn lone_upto(ls: Seq<(usize, usize)>, k: int) -> Seq<(usize, usize)>
    decreases k,
{
    if k <= 0 {
        Seq::empty()
    } else {
        lone_upto(ls, k - 1) + if occurrences(ls, ls[k - 1].0, ls[k - 1].1) == 1 {
            seq![ls[k - 1]]
        } else {
            Seq::empty()
        }
    }
}

/// Every border line is a line of exactly one triangle, and every line of
/// exactly one triangle is on the border.
pub proof fn law_lone_lines_occur_once(ls: Seq<(usize, usize)>, k: int)
    requires
        0 <= k <= ls.len(),
    ensures
        forall|x: int|
            0 <= x < lone_upto(ls, k).len() ==> occurrences(
                ls,
                (#[trigger] lone_upto(ls, k)[x]).0,
                lone_upto(ls, k)[x].1,
            ) == 1,
        forall|y: int|
            0 <= y < k && occurrences(ls, (#[trigger] ls[y]).0, ls[y].1) == 1 ==> lone_upto(
                ls,
                k,
            ).contains(ls[y]),
    decreases k,
{
    if k > 0 {
        law_lone_lines_occur_once(ls, k - 1);
        let a = lone_upto(ls, k - 1);
        let b: Seq<(usize, usize)> = if occurrences(ls, ls[k - 1].0, ls[k - 1].1) == 1 {
            seq![ls[k - 1]]
        } else {
            Seq::empty()
        };
        assert(lone_upto(ls, k) == a + b);
        assert forall|x: int| 0 <= x < (a + b).len() implies occurrences(
            ls,
            (#[trigger] (a + b)[x]).0,
            (a + b)[x].1,
        ) == 1 by {
            if x < a.len() {
                assert((a + b)[x] == a[x]);
            } else {
                assert((a + b)[x] == b[x - a.len()]);
            }
        }
        assert forall|y: int| 0 <= y < k && occurrences(ls, (#[trigger] ls[y]).0, ls[y].1) == 1 implies (a
            + b).contains(ls[y]) by {
            if y < k - 1 {
                assert(a.contains(ls[y]));
                let w = choose|w: int| 0 <= w < a.len() && a[w] == ls[y];
                assert((a + b)[w] == ls[y]);
            } else {
                assert((a + b)[a.len() as int] == ls[y]);
            }
        }
    }
}

/// The border of a set of triangles: the lines that belong to one triangle
/// only, in the order the triangles give them.
pub fn lone_lines(tris: &Vec<(usize, usize, usize)>) -> (lines: Vec<(usize, usize)>)
    ensures
        lines@ == lone_upto(triangle_lines(tris@), triangle_lines(tris@).len() as int),
{
    let mut ls: Vec<(usize, usize)> = Vec::new();
    let mut i: usize = 0;
    while i < tris.len()
        invariant
            i <= tris@.len(),
            ls@ == triangle_lines(tris@.take(i as int)),
        decreases tris@.len() - i,
    {
        let t = tris[i];
        ls.push((t.0, t.1));
        ls.push((t.1, t.2));
        ls.push((t.2, t.0));
        assert(tris@.take(i + 1).drop_last() =~= tris@.take(i as int));
        assert(ls@ =~= triangle_lines(tris@.take(i + 1)));
        i = i + 1;
    }
    assert(tris@.take(i as int) =~= tris@);
    let ghost all = ls@;
    let mut lines: Vec<(usize, usize)> = Vec::new();
    let mut k: usize = 0;
    while k < ls.len()
        invariant
            ls@ == all,
            k <= all.len(),
            lines@ == lone_upto(all, k as int),
        decreases all.len() - k,
    {
        let (a, b) = ls[k];
        let mut count: usize = 0;
        let mut j: usize = 0;
        while j < ls.len()
            invariant
                ls@ == all,
                j <= all.len(),
                count <= j,
                count == occurrences(all.take(j as int), a, b),
            decreases all.len() - j,
        {
            assert(all.take(j + 1).drop_last() =~= all.take(j as int));
            let (c, d) = ls[j];
            if (c == a && d == b) || (c == b && d == a) {
                count = count + 1;
            }
            j = j + 1;
        }
        assert(all.take(j as int) =~= all);
        if count == 1 {
            lines.push((a, b));
        }
        k = k + 1;
    }
    lines
}

} // verus!
