//! The case analysis of triangle subtraction: which way one triangle cuts
//! another, decided from counts of the intersections and of the corners that
//! lie inside the other triangle.
use vstd::prelude::*;

verus! {

/// The situation found when one triangle is cut by another.
#[derive(Clone, Copy, Debug, PartialEq, Eq, Structural)]
pub enum SubtractionCase {
    /// All three corners are shared: nothing is left.
    Identical,
    /// The cutter lies wholly inside: a hole would be bored (nothing is drawn).
    Hole,
    /// The triangle lies under the cutter: nothing is left.
    Covered,
    /// The edges do not cross and no corner is inside: the triangle stays whole.
    Untouched,
    /// Six crossings with no corner inside either way (nothing is drawn).
    StarOfDavid,
    /// Three crossings and one shared corner.
    ThreeCuts,
    /// Two crossings, four projected crossings and two cutter corners inside.
    NotchedCorner,
    /// Four crossings and no corner inside either way.
    FourCuts,
    /// Four crossings, no projected one, one corner of the triangle inside.
    FourCutsOneInside,
    /// Two crossings on edges that share no line, one shared corner.
    TwoCutsApart,
    /// Two crossings on edges that share a line, one shared corner.
    TwoCutsAdjacent,
    /// Two crossings and one corner of the triangle inside.
    TwoCutsOneInside,
    /// Two crossings and two corners of the triangle inside.
    TwoCutsTwoInside,
    /// One crossing, one cutter corner inside, one shared corner: the
    /// triangle stays whole.
    TouchingInside,
    /// Two crossings, two projected, one cutter corner inside, none shared.
    TwoCutsCornerInside,
    /// One crossing, one corner of the triangle inside, one shared corner.
    OneCutOneInside,
    /// None of the known situations (nothing is drawn).
    Unmatched,
}

/// The case for the given counts, taking the first rule that applies:
/// `crossings` of the edges, `projected` crossings of an edge with the
/// extension of a cutter edge, `inside` corners of the triangle within (or
/// on) the cutter, `cutter_inside` corners of the cutter within the triangle,
/// `shared` corners the two have in common, and whether the first two
/// crossings lie on lines that have no line in common.
pub open spec fn subtraction_case(
    crossings: usize,
    projected: usize,
    inside: usize,
    cutter_inside: usize,
    shared: usize,
    first_cuts_apart: bool,
) -> SubtractionCase {
    if shared == 3 {
        SubtractionCase::Identical
    } else if inside == 0 && cutter_inside == 3 {
        SubtractionCase::Hole
    } else if (crossings == 0 && projected == 0 && inside == 2 && cutter_inside == 0 && shared == 1) || (
    inside == 3 && cutter_inside == 0) {
        SubtractionCase::Covered
    } else if crossings == 0 && inside == 0 {
        SubtractionCase::Untouched
    } else if crossings == 6 && projected == 0 && inside == 0 && cutter_inside == 0 {
        SubtractionCase::StarOfDavid
    } else if crossings == 3 && inside == 0 && cutter_inside == 0 && shared == 1 {
        SubtractionCase::ThreeCuts
    } else if crossings == 2 && projected == 4 && inside == 0 && cutter_inside == 2 && shared == 0 {
        SubtractionCase::NotchedCorner
    } else if crossings == 4 && inside == 0 && cutter_inside == 0 {
        SubtractionCase::FourCuts
    } else if crossings == 4 && projected == 0 && inside == 1 && cutter_inside == 0 {
        SubtractionCase::FourCutsOneInside
    } else if crossings == 2 && inside == 0 && cutter_inside == 0 && shared == 1 {
        if first_cuts_apart {
            SubtractionCase::TwoCutsApart
        } else {
            SubtractionCase::TwoCutsAdjacent
        }
    } else if crossings == 2 && inside == 1 && cutter_inside == 0 {
        SubtractionCase::TwoCutsOneInside
    } else if crossings == 2 && inside == 2 && cutter_inside == 0 {
        SubtractionCase::TwoCutsTwoInside
    } else if crossings == 1 && inside == 0 && cutter_inside == 1 && shared == 1 {
        SubtractionCase::TouchingInside
    } else if crossings == 2 && projected == 2 && inside == 0 && cutter_inside == 1 && shared == 0 {
        SubtractionCase::TwoCutsCornerInside
    } else if crossings == 1 && inside == 1 && cutter_inside == 0 && shared == 1 {
        SubtractionCase::OneCutOneInside
    } else {
        SubtractionCase::Unmatched
    }
}

/// Whether the triangle comes out of the subtraction whole, as it went in.
pub open spec fn keeps_whole(c: SubtractionCase) -> bool {
    c == SubtractionCase::Untouched || c == SubtractionCase::TouchingInside
}

/// Whether nothing of the triangle is drawn.
pub open spec fn leaves_nothing(c: SubtractionCase) -> bool {
    c == SubtractionCase::Identical || c == SubtractionCase::Hole || c == SubtractionCase::Covered
        || c == SubtractionCase::StarOfDavid || c == SubtractionCase::Unmatched
}

/// Decide the case of a subtraction (see `subtraction_case`).
pub fn classify(
    crossings: usize,
    projected: usize,
    inside: usize,
    cutter_inside: usize,
    shared: usize,
    first_cuts_apart: bool,
) -> (c: SubtractionCase)
    ensures
        c == subtraction_case(crossings, projected, inside, cutter_inside, shared, first_cuts_apart),
{
    match (crossings, projected, inside, cutter_inside, shared) {
        (_, _, _, _, 3) => SubtractionCase::Identical,
        (_, _, 0, 3, _) => SubtractionCase::Hole,
        (0, 0, 2, 0, 1) | (_, _, 3, 0, _) => SubtractionCase::Covered,
        (0, _, 0, _, _) => SubtractionCase::Untouched,
        (6, 0, 0, 0, _) => SubtractionCase::StarOfDavid,
        (3, _, 0, 0, 1) => SubtractionCase::ThreeCuts,
        (2, 4, 0, 2, 0) => SubtractionCase::NotchedCorner,
        (4, _, 0, 0, _) => SubtractionCase::FourCuts,
        (4, 0, 1, 0, _) => SubtractionCase::FourCutsOneInside,
        (2, _, 0, 0, 1) if first_cuts_apart => SubtractionCase::TwoCutsApart,
        (2, _, 0, 0, 1) => SubtractionCase::TwoCutsAdjacent,
        (2, _, 1, 0, _) => SubtractionCase::TwoCutsOneInside,
        (2, _, 2, 0, _) => SubtractionCase::TwoCutsTwoInside,
        (1, _, 0, 1, 1) => SubtractionCase::TouchingInside,
        (2, 2, 0, 1, 0) => SubtractionCase::TwoCutsCornerInside,
        (1, _, 1, 0, 1) => SubtractionCase::OneCutOneInside,
        _ => SubtractionCase::Unmatched,
    }
}

/// The six corners of a subtraction are numbered 0 to 2 for the triangle
/// and 3 to 5 for the cutter; equal corners are told apart from different
/// ones by `same`, where `same[k]` is the number of the corner that stands for
/// every corner equal to corner `k` (the first of them). A set of corners is
/// a row of six flags, one for each such number.
///
/// The corners met a second time, going through the six in order.
pub open spec fn shared_corners(same: Seq<usize>) -> Seq<bool> {
    Seq::new(
        6,
        |x: int| exists|j: int, k: int| 0 <= j < k < 6 && same[j] == x && same[k] == x,
    )
}

/// The corners among the three starting at `first` whose flag in `marks`
/// is set.
pub open spec fn marked_corners(same: Seq<usize>, first: int, marks: Seq<bool>) -> Seq<bool> {
    Seq::new(6, |x: int| exists|k: int| 0 <= k < 3 && marks[k] && same[first + k] == x)
}

/// How many flags are set.
pub open spec fn count_set(s: Seq<bool>) -> nat
    decreases s.len(),
{
    if s.len() == 0 {
        0
    } else {
        count_set(s.drop_last()) + if s.last() {
            1nat
        } else {
            0nat
        }
    }
}

/// The edge from corner `a` to corner `b` of the triangle, crossed
/// `crossings` times: an inside end whose other end is neither inside nor
/// shared, on an edge that nothing crosses, only touches the cutter, and
/// counts as shared instead (first for `b`, then for `a`).
pub open spec fn settle_edge(
    inside: Seq<bool>,
    shared: Seq<bool>,
    a: usize,
    b: usize,
    crossings: usize,
) -> (Seq<bool>, Seq<bool>) {
    let (inside1, shared1) = if inside[b as int] && !inside[a as int] && !shared[a as int]
        && crossings == 0 {
        (inside.update(b as int, false), shared.update(b as int, true))
    } else {
        (inside, shared)
    };
    if inside1[a as int] && !inside1[b as int] && !shared1[b as int] && crossings == 0 {
        (inside1.update(a as int, false), shared1.update(a as int, true))
    } else {
        (inside1, shared1)
    }
}

/// The corners of the triangle inside the cutter and the shared corners,
/// once the corners that only touch the cutter have been moved to the
/// shared ones (which is done only when fewer than three corners are inside
/// or shared and at least one is inside). `crossings[e]` counts the
/// crossings on edge `e` (corner 0 to 1, 1 to 2, 2 to 0).
pub open spec fn settled_corners(same: Seq<usize>, inside: Seq<bool>, crossings: Seq<usize>) -> (
    Seq<bool>,
    Seq<bool>,
) {
    let inc = marked_corners(same, 0, inside);
    let sh = shared_corners(same);
    if count_set(sh) + count_set(inc) < 3 && count_set(inc) > 0 {
        let s0 = settle_edge(inc, sh, same[0], same[1], crossings[0]);
        let s1 = settle_edge(s0.0, s0.1, same[1], same[2], crossings[1]);
        settle_edge(s1.0, s1.1, same[2], same[0], crossings[2])
    } else {
        (inc, sh)
    }
}

/// The corner sets of a subtraction and their sizes.
pub struct CornerTally {
    /// Corners of the triangle inside the cutter.
    pub inside: Vec<bool>,
    /// Corners of the cutter inside the triangle.
    pub cutter_inside: Vec<bool>,
    /// Corners the two have in common.
    pub shared: Vec<bool>,
    pub inside_count: usize,
    pub cutter_inside_count: usize,
    pub shared_count: usize,
}

/// Six unset flags.
fn no_corners() -> (v: Vec<bool>)
    ensures
        v@ == Seq::new(6, |x: int| false),
{
    let mut v: Vec<bool> = Vec::new();
    let mut i: usize = 0;
    while i < 6
        invariant
            i <= 6,
            v@ == Seq::new(i as nat, |x: int| false),
        decreases 6 - i,
    {
        v.push(false);
        i = i + 1;
    }
    v
}

/// How many flags of `v` are set.
fn count_flags(v: &Vec<bool>) -> (n: usize)
    ensures
        n == count_set(v@),
        n <= v@.len(),
{
    let mut n: usize = 0;
    let mut i: usize = 0;
    while i < v.len()
        invariant
            i <= v@.len(),
            n <= i,
            n == count_set(v@.take(i as int)),
        decreases v@.len() - i,
    {
        assert(v@.take(i + 1).drop_last() =~= v@.take(i as int));
        if v[i] {
            n = n + 1;
        }
        i = i + 1;
    }
    assert(v@.take(i as int) =~= v@);
    n
}

/// The corners of the three starting at `first` whose flag is set.
fn mark_corners(same: &Vec<usize>, first: usize, marks: &Vec<bool>) -> (v: Vec<bool>)
    requires
        same@.len() == 6,
        forall|k: int| 0 <= k < 6 ==> #[trigger] same@[k] < 6,
        first == 0 || first == 3,
        marks@.len() == 3,
    ensures
        v@ == marked_corners(same@, first as int, marks@),
{
    let mut v = no_corners();
    let mut k: usize = 0;
    while k < 3
        invariant
            k <= 3,
            same@.len() == 6,
            forall|j: int| 0 <= j < 6 ==> #[trigger] same@[j] < 6,
            first == 0 || first == 3,
            marks@.len() == 3,
            v@.len() == 6,
            forall|x: int|
                0 <= x < 6 ==> (#[trigger] v@[x] <==> exists|j: int|
                    0 <= j < k && marks@[j] && same@[first + j] == x),
        decreases 3 - k,
    {
        let ghost before = v@;
        if marks[k] {
            let x = same[first + k];
            v.set(x, true);
        }
        assert forall|x: int| 0 <= x < 6 implies (#[trigger] v@[x] <==> exists|j: int|
            0 <= j < k + 1 && marks@[j] && same@[first + j] == x) by {
            if v@[x] && !before[x] {
                assert(marks@[k as int] && same@[first + k] == x);
            }
            if exists|j: int| 0 <= j < k + 1 && marks@[j] && same@[first + j] == x {
                let j = choose|j: int| 0 <= j < k + 1 && marks@[j] && same@[first + j] == x;
                if j < k {
                    assert(before[x]);
                }
            }
        }
        k = k + 1;
    }
    assert(v@ =~= marked_corners(same@, first as int, marks@));
    v
}

/// The corners met a second time.
fn share_corners(same: &Vec<usize>) -> (v: Vec<bool>)
    requires
        same@.len() == 6,
        forall|k: int| 0 <= k < 6 ==> #[trigger] same@[k] < 6,
    ensures
        v@ == shared_corners(same@),
{
    let mut seen = no_corners();
    let mut shared = no_corners();
    let mut k: usize = 0;
    while k < 6
        invariant
            k <= 6,
            same@.len() == 6,
            forall|j: int| 0 <= j < 6 ==> #[trigger] same@[j] < 6,
            seen@.len() == 6,
            shared@.len() == 6,
            forall|x: int|
                0 <= x < 6 ==> (#[trigger] seen@[x] <==> exists|j: int| 0 <= j < k && same@[j] == x),
            forall|x: int|
                0 <= x < 6 ==> (#[trigger] shared@[x] <==> exists|i: int, j: int|
                    0 <= i < j < k && same@[i] == x && same@[j] == x),
        decreases 6 - k,
    {
        let ghost seen0 = seen@;
        let ghost shared0 = shared@;
        let x = same[k];
        if seen[x] {
            shared.set(x, true);
        } else {
            seen.set(x, true);
        }
        assert forall|y: int| 0 <= y < 6 implies (#[trigger] seen@[y] <==> exists|j: int|
            0 <= j < k + 1 && same@[j] == y) by {
            if exists|j: int| 0 <= j < k + 1 && same@[j] == y {
                let j = choose|j: int| 0 <= j < k + 1 && same@[j] == y;
                if j < k {
                    assert(seen0[y]);
                }
            }
            if seen@[y] && !seen0[y] {
                assert(same@[k as int] == y);
            }
        }
        assert forall|y: int| 0 <= y < 6 implies (#[trigger] shared@[y] <==> exists|i: int, j: int|
            0 <= i < j < k + 1 && same@[i] == y && same@[j] == y) by {
            if exists|i: int, j: int| 0 <= i < j < k + 1 && same@[i] == y && same@[j] == y {
                let (i, j) = choose|i: int, j: int|
                    0 <= i < j < k + 1 && same@[i] == y && same@[j] == y;
                if j < k {
                    assert(shared0[y]);
                } else {
                    assert(seen0[y]);
                }
            }
            if shared@[y] && !shared0[y] {
                assert(seen0[y]);
                let i = choose|i: int| 0 <= i < k && same@[i] == y;
                assert(0 <= i < k as int && same@[i] == y && same@[k as int] == y);
            }
        }
        k = k + 1;
    }
    assert(shared@ =~= shared_corners(same@));
    shared
}

/// Apply `settle_edge` to the flags in place.
fn settle(inside: &mut Vec<bool>, shared: &mut Vec<bool>, a: usize, b: usize, crossings: usize)
    requires
        old(inside)@.len() == 6,
        old(shared)@.len() == 6,
        a < 6,
        b < 6,
    ensures
        (final(inside)@, final(shared)@) == settle_edge(old(inside)@, old(shared)@, a, b, crossings),
{
    if inside[b] && !inside[a] && !shared[a] && crossings == 0 {
        inside.set(b, false);
        shared.set(b, true);
    }
    if inside[a] && !inside[b] && !shared[b] && crossings == 0 {
        inside.set(a, false);
        shared.set(a, true);
    }
}

/// Sort the corners of a subtraction (see `settled_corners`): `same` tells
/// equal corners apart, `inside[k]` whether corner `k` of the triangle lies
/// within the cutter (or on a crossing), `cutter_inside[k]` whether corner
/// `k` of the cutter lies within the triangle, and `crossings[e]` how often
/// edge `e` of the triangle is crossed.
pub fn tally_corners(
    same: &Vec<usize>,
    inside: &Vec<bool>,
    cutter_inside: &Vec<bool>,
    crossings: &Vec<usize>,
) -> (t: CornerTally)
    requires
        same@.len() == 6,
        forall|k: int| 0 <= k < 6 ==> #[trigger] same@[k] < 6,
        inside@.len() == 3,
        cutter_inside@.len() == 3,
        crossings@.len() == 3,
    ensures
        (t.inside@, t.shared@) == settled_corners(same@, inside@, crossings@),
        t.cutter_inside@ == marked_corners(same@, 3, cutter_inside@),
        t.inside_count == count_set(t.inside@),
        t.cutter_inside_count == count_set(t.cutter_inside@),
        t.shared_count == count_set(t.shared@),
{
    let mut inc = mark_corners(same, 0, inside);
    let cut = mark_corners(same, 3, cutter_inside);
    let mut sh = share_corners(same);
    let n_inc = count_flags(&inc);
    let n_sh = count_flags(&sh);
    if n_sh + n_inc < 3 && n_inc > 0 {
        settle(&mut inc, &mut sh, same[0], same[1], crossings[0]);
        settle(&mut inc, &mut sh, same[1], same[2], crossings[1]);
        settle(&mut inc, &mut sh, same[2], same[0], crossings[2]);
    }
    let inside_count = count_flags(&inc);
    let cutter_inside_count = count_flags(&cut);
    let shared_count = count_flags(&sh);
    CornerTally {
        inside: inc,
        cutter_inside: cut,
        shared: sh,
        inside_count,
        cutter_inside_count,
        shared_count,
    }
}

/// One settled edge only moves corners from the inside ones to the shared
/// ones.
proof fn lemma_settle_edge_moves(inside: Seq<bool>, shared: Seq<bool>, a: usize, b: usize, crossings: usize)
    requires
        inside.len() == 6,
        shared.len() == 6,
        a < 6,
        b < 6,
    ensures
        settle_edge(inside, shared, a, b, crossings).0.len() == 6,
        settle_edge(inside, shared, a, b, crossings).1.len() == 6,
        forall|x: int|
            0 <= x < 6 ==> (#[trigger] settle_edge(inside, shared, a, b, crossings).0[x] ==> inside[x]),
        forall|x: int|
            0 <= x < 6 ==> (shared[x] ==> #[trigger] settle_edge(inside, shared, a, b, crossings).1[x]),
        forall|x: int|
            0 <= x < 6 ==> (inside[x] && !#[trigger] settle_edge(inside, shared, a, b, crossings).0[x]
                ==> settle_edge(inside, shared, a, b, crossings).1[x]),
{
}

/// Settling only moves corners of the triangle from the inside ones to the
/// shared ones: no corner becomes inside, no shared corner stops being
/// shared, and a corner that stops being inside becomes shared. Without
/// anything inside, nothing changes.
pub proof fn law_settling_moves_to_shared(same: Seq<usize>, inside: Seq<bool>, crossings: Seq<usize>)
    requires
        same.len() == 6,
        forall|k: int| 0 <= k < 6 ==> #[trigger] same[k] < 6,
        inside.len() == 3,
        crossings.len() == 3,
    ensures
        ({
            let inc = marked_corners(same, 0, inside);
            let sh = shared_corners(same);
            let (inc2, sh2) = settled_corners(same, inside, crossings);
            &&& forall|x: int| 0 <= x < 6 ==> (#[trigger] inc2[x] ==> inc[x])
            &&& forall|x: int| 0 <= x < 6 ==> (sh[x] ==> #[trigger] sh2[x])
            &&& forall|x: int| 0 <= x < 6 ==> (inc[x] && !#[trigger] inc2[x] ==> sh2[x])
            &&& (forall|k: int| 0 <= k < 3 ==> !#[trigger] inside[k]) ==> inc2 == inc && sh2 == sh
        }),
{
    let inc = marked_corners(same, 0, inside);
    let sh = shared_corners(same);
    if count_set(sh) + count_set(inc) < 3 && count_set(inc) > 0 {
        let s0 = settle_edge(inc, sh, same[0], same[1], crossings[0]);
        lemma_settle_edge_moves(inc, sh, same[0], same[1], crossings[0]);
        let s1 = settle_edge(s0.0, s0.1, same[1], same[2], crossings[1]);
        lemma_settle_edge_moves(s0.0, s0.1, same[1], same[2], crossings[1]);
        let s2 = settle_edge(s1.0, s1.1, same[2], same[0], crossings[2]);
        lemma_settle_edge_moves(s1.0, s1.1, same[2], same[0], crossings[2]);
        assert forall|x: int| 0 <= x < 6 && inc[x] && !#[trigger] s2.0[x] implies s2.1[x] by {
            if s0.0[x] {
                if s1.0[x] {
                } else {
                    assert(s1.1[x]);
                }
            } else {
                assert(s0.1[x]);
                assert(s1.1[x]);
            }
        }
        if forall|k: int| 0 <= k < 3 ==> !#[trigger] inside[k] {
            assert(count_set(inc) == 0) by {
                assert(inc =~= Seq::new(6, |x: int| false));
                lemma_count_none(inc);
            }
        }
    } else {
    }
}

/// No flag set, none counted.
proof fn lemma_count_none(s: Seq<bool>)
    requires
        forall|i: int| 0 <= i < s.len() ==> !#[trigger] s[i],
    ensures
        count_set(s) == 0,
    decreases s.len(),
{
    if s.len() > 0 {
        lemma_count_none(s.drop_last());
    }
}

/// Cut a convex polygon into the fan of triangles around its first corner:
/// triangle `i` joins corner 0 to corners `i + 1` and `i + 2`.
pub fn fan<P: Copy>(corners: &Vec<P>) -> (tris: Vec<(P, P, P)>)
    requires
        corners@.len() >= 2,
    ensures
        tris@.len() == corners@.len() - 2,
        forall|i: int|
            0 <= i < tris@.len() ==> #[trigger] tris@[i] == (corners@[0], corners@[i + 1], corners@[i
                + 2]),
{
    let mut tris: Vec<(P, P, P)> = Vec::new();
    let n = corners.len() - 2;
    let mut i: usize = 0;
    while i < n
        invariant
            n + 2 == corners.len(),
            0 <= i <= n,
            tris@.len() == i,
            forall|k: int|
                0 <= k < i ==> #[trigger] tris@[k] == (corners@[0], corners@[k + 1], corners@[k + 2]),
        decreases n - i,
    {
        tris.push((corners[0], corners[i + 1], corners[i + 2]));
        i = i + 1;
    }
    tris
}

/// Sharing all three corners always means nothing is left, whatever the
/// other counts say; with no crossing and no corner of the triangle inside,
/// the triangle is kept whole unless the cutter lies inside it.
pub proof fn law_subtraction_extremes(
    crossings: usize,
    projected: usize,
    inside: usize,
    cutter_inside: usize,
    first_cuts_apart: bool,
)
    ensures
        subtraction_case(crossings, projected, inside, cutter_inside, 3, first_cuts_apart)
            == SubtractionCase::Identical,
        cutter_inside != 3 ==> keeps_whole(
            subtraction_case(0, projected, 0, cutter_inside, 0, first_cuts_apart),
        ),
        cutter_inside != 3 ==> keeps_whole(
            subtraction_case(0, projected, 0, cutter_inside, 1, first_cuts_apart),
        ),
{
}

/// The rows of the case table, each for every value of the counts it does
/// not look at (in particular, for every number of projected crossings
/// unless a row names one), given that no earlier row applies: sharing
/// three corners leaves nothing; a cutter lying inside bores a hole; a
/// triangle under the cutter is covered; no crossing and no corner inside
/// keeps it whole; and the cut shapes by their crossings and corners.
pub proof fn law_case_rows(
    crossings: usize,
    projected: usize,
    inside: usize,
    cutter_inside: usize,
    shared: usize,
    first_cuts_apart: bool,
)
    ensures
        ({
            let c = subtraction_case(
                crossings,
                projected,
                inside,
                cutter_inside,
                shared,
                first_cuts_apart,
            );
            &&& shared == 3 ==> c == SubtractionCase::Identical
            &&& shared != 3 && inside == 0 && cutter_inside == 3 ==> c == SubtractionCase::Hole
            &&& shared != 3 && inside == 3 && cutter_inside == 0 ==> c == SubtractionCase::Covered
            &&& shared != 3 && crossings == 0 && inside == 0 && cutter_inside != 3 ==> c
                == SubtractionCase::Untouched
            &&& shared != 3 && crossings == 6 && projected == 0 && inside == 0 && cutter_inside == 0
                ==> c == SubtractionCase::StarOfDavid
            &&& shared == 1 && crossings == 3 && inside == 0 && cutter_inside == 0 ==> c
                == SubtractionCase::ThreeCuts
            &&& shared == 0 && crossings == 2 && projected == 4 && inside == 0 && cutter_inside == 2
                ==> c == SubtractionCase::NotchedCorner
            &&& shared != 3 && crossings == 4 && inside == 0 && cutter_inside == 0 ==> c
                == SubtractionCase::FourCuts
            &&& shared != 3 && crossings == 4 && projected == 0 && inside == 1 && cutter_inside == 0
                ==> c == SubtractionCase::FourCutsOneInside
            &&& shared == 1 && crossings == 2 && inside == 0 && cutter_inside == 0 ==> c == (
            if first_cuts_apart {
                SubtractionCase::TwoCutsApart
            } else {
                SubtractionCase::TwoCutsAdjacent
            })
            &&& shared != 3 && crossings == 2 && inside == 1 && cutter_inside == 0 ==> c
                == SubtractionCase::TwoCutsOneInside
            &&& shared != 3 && crossings == 2 && inside == 2 && cutter_inside == 0 ==> c
                == SubtractionCase::TwoCutsTwoInside
            &&& shared == 1 && crossings == 1 && inside == 0 && cutter_inside == 1 ==> c
                == SubtractionCase::TouchingInside
            &&& shared == 0 && crossings == 2 && projected == 2 && inside == 0 && cutter_inside == 1
                ==> c == SubtractionCase::TwoCutsCornerInside
            &&& shared == 1 && crossings == 1 && inside == 1 && cutter_inside == 0 ==> c
                == SubtractionCase::OneCutOneInside
        }),
{
}

/// Where the table does not look at the number of projected crossings, that
/// number changes nothing: two crossings with one corner of the triangle and
/// none of the cutter inside give the same case whatever it is.
pub proof fn law_projected_ignored_with_one_inside(
    crossings: usize,
    p1: usize,
    p2: usize,
    inside: usize,
    shared: usize,
    first_cuts_apart: bool,
)
    requires
        crossings == 2,
        inside == 1 || inside == 2,
    ensures
        subtraction_case(crossings, p1, inside, 0, shared, first_cuts_apart) == subtraction_case(
            crossings,
            p2,
            inside,
            0,
            shared,
            first_cuts_apart,
        ),
{
}

/// Whatever the counts, the case is exactly one of: kept whole, nothing
/// left, or cut into pieces.
pub proof fn law_subtraction_cases_disjoint(c: SubtractionCase)
    ensures
        !(keeps_whole(c) && leaves_nothing(c)),
{
}

} // verus!
