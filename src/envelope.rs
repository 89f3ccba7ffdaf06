//! The tight axis-aligned envelope of a geometry.
use vstd::prelude::*;
use crate::model::{
    Bounds, Parcel, ParcelModel, Point, at_most_one_selected, box_contains, geometry_view, has_vertex,
    is_envelope, is_vertex, parcel_wf, parcels_wf, records_view,
};

verus! {

/// The points `(k, l)` that come before ring `i`, position `j`.
pub open spec fn seen(g: Seq<Seq<Point>>, i: int, j: int, k: int, l: int) -> bool {
    is_vertex(g, k, l) && (k < i || (k == i && l < j))
}

/// `b` is the envelope of the points seen before `(i, j)`.
pub open spec fn envelope_upto(g: Seq<Seq<Point>>, i: int, j: int, b: Bounds) -> bool {
    &&& forall|k: int, l: int| seen(g, i, j, k, l) ==> box_contains(b, #[trigger] g[k][l])
    &&& exists|k: int, l: int| seen(g, i, j, k, l) && g[k][l].x == b.min_x
    &&& exists|k: int, l: int| seen(g, i, j, k, l) && g[k][l].y == b.min_y
    &&& exists|k: int, l: int| seen(g, i, j, k, l) && g[k][l].x == b.max_x
    &&& exists|k: int, l: int| seen(g, i, j, k, l) && g[k][l].y == b.max_y
}

/// The smallest box that holds `b` and `p`.
pub open spec fn grow(b: Bounds, p: Point) -> Bounds {
    Bounds {
        min_x: if p.x < b.min_x { p.x } else { b.min_x },
        min_y: if p.y < b.min_y { p.y } else { b.min_y },
        max_x: if p.x > b.max_x { p.x } else { b.max_x },
        max_y: if p.y > b.max_y { p.y } else { b.max_y },
    }
}

/// An envelope over the points seen before one place is one over the points
/// seen before another, when the same points come before both.
proof fn lemma_same_seen(g: Seq<Seq<Point>>, i: int, j: int, i2: int, j2: int, b: Bounds)
    requires
        envelope_upto(g, i, j, b),
        forall|k: int, l: int| #[trigger] seen(g, i2, j2, k, l) <==> seen(g, i, j, k, l),
    ensures
        envelope_upto(g, i2, j2, b),
{
    let (k1, l1) = choose|k: int, l: int| seen(g, i, j, k, l) && g[k][l].x == b.min_x;
    let (k2, l2) = choose|k: int, l: int| seen(g, i, j, k, l) && g[k][l].y == b.min_y;
    let (k3, l3) = choose|k: int, l: int| seen(g, i, j, k, l) && g[k][l].x == b.max_x;
    let (k4, l4) = choose|k: int, l: int| seen(g, i, j, k, l) && g[k][l].y == b.max_y;
    assert(seen(g, i2, j2, k1, l1));
    assert(seen(g, i2, j2, k2, l2));
    assert(seen(g, i2, j2, k3, l3));
    assert(seen(g, i2, j2, k4, l4));
    assert forall|k: int, l: int| seen(g, i2, j2, k, l) implies box_contains(
        b,
        #[trigger] g[k][l],
    ) by {
        assert(seen(g, i, j, k, l));
    }
}

proof fn lemma_seen_step(g: Seq<Seq<Point>>, i: int, j: int, b: Option<Bounds>)
    requires
        0 <= i < g.len(),
        0 <= j < g[i].len(),
        b is None ==> forall|k: int, l: int| !seen(g, i, j, k, l),
        b is Some ==> envelope_upto(g, i, j, b->0),
    ensures
        ({
            let p = g[i][j];
            let nb = match b {
                Some(b0) => grow(b0, p),
                None => Bounds { min_x: p.x, min_y: p.y, max_x: p.x, max_y: p.y },
            };
            envelope_upto(g, i, j + 1, nb)
        }),
{
    let p = g[i][j];
    assert(seen(g, i, j + 1, i, j));
    assert forall|k: int, l: int| seen(g, i, j + 1, k, l) implies (seen(g, i, j, k, l) || (k == i
        && l == j)) by {}
    match b {
        Some(b0) => {
            let nb = grow(b0, p);
            assert forall|k: int, l: int| seen(g, i, j + 1, k, l) implies box_contains(
                nb,
                #[trigger] g[k][l],
            ) by {
                if seen(g, i, j, k, l) {
                    assert(box_contains(b0, g[k][l]));
                }
            }
            let (k1, l1) = choose|k: int, l: int| seen(g, i, j, k, l) && g[k][l].x == b0.min_x;
            let (k2, l2) = choose|k: int, l: int| seen(g, i, j, k, l) && g[k][l].y == b0.min_y;
            let (k3, l3) = choose|k: int, l: int| seen(g, i, j, k, l) && g[k][l].x == b0.max_x;
            let (k4, l4) = choose|k: int, l: int| seen(g, i, j, k, l) && g[k][l].y == b0.max_y;
            assert(seen(g, i, j + 1, k1, l1));
            assert(seen(g, i, j + 1, k2, l2));
            assert(seen(g, i, j + 1, k3, l3));
            assert(seen(g, i, j + 1, k4, l4));
            if p.x < b0.min_x {
                assert(seen(g, i, j + 1, i, j) && g[i][j].x == nb.min_x);
            } else {
                assert(seen(g, i, j + 1, k1, l1) && g[k1][l1].x == nb.min_x);
            }
            if p.y < b0.min_y {
                assert(seen(g, i, j + 1, i, j) && g[i][j].y == nb.min_y);
            } else {
                assert(seen(g, i, j + 1, k2, l2) && g[k2][l2].y == nb.min_y);
            }
            if p.x > b0.max_x {
                assert(seen(g, i, j + 1, i, j) && g[i][j].x == nb.max_x);
            } else {
                assert(seen(g, i, j + 1, k3, l3) && g[k3][l3].x == nb.max_x);
            }
            if p.y > b0.max_y {
                assert(seen(g, i, j + 1, i, j) && g[i][j].y == nb.max_y);
            } else {
                assert(seen(g, i, j + 1, k4, l4) && g[k4][l4].y == nb.max_y);
            }
        },
        None => {
            let nb = Bounds { min_x: p.x, min_y: p.y, max_x: p.x, max_y: p.y };
            assert forall|k: int, l: int| seen(g, i, j + 1, k, l) implies box_contains(
                nb,
                #[trigger] g[k][l],
            ) by {
                assert(!seen(g, i, j, k, l));
                assert(k == i && l == j);
            }
            assert(seen(g, i, j + 1, i, j) && g[i][j].x == nb.min_x);
        },
    }
}

/// Relates the envelope spec over all points to the one over points seen
/// before the end of the last ring.
proof fn lemma_seen_all(g: Seq<Seq<Point>>, b: Bounds)
    requires
        envelope_upto(g, g.len() as int, 0, b),
    ensures
        is_envelope(g, b),
{
    let n = g.len() as int;
    assert forall|k: int, l: int| is_vertex(g, k, l) implies seen(g, n, 0, k, l) by {}
    let (k1, l1) = choose|k: int, l: int| seen(g, n, 0, k, l) && g[k][l].x == b.min_x;
    let (k2, l2) = choose|k: int, l: int| seen(g, n, 0, k, l) && g[k][l].y == b.min_y;
    let (k3, l3) = choose|k: int, l: int| seen(g, n, 0, k, l) && g[k][l].x == b.max_x;
    let (k4, l4) = choose|k: int, l: int| seen(g, n, 0, k, l) && g[k][l].y == b.max_y;
    assert(is_vertex(g, k1, l1) && is_vertex(g, k2, l2) && is_vertex(g, k3, l3) && is_vertex(
        g,
        k4,
        l4,
    ));
}

/// The envelope of a geometry: `None` exactly when it holds no point.
pub fn envelope_of(geometry: &Vec<Vec<Point>>) -> (r: Option<Bounds>)
    ensures
        r is None <==> !has_vertex(geometry_view(geometry@)),
        r matches Some(b) ==> is_envelope(geometry_view(geometry@), b),
{
    let ghost g = geometry_view(geometry@);
    let mut acc: Option<Bounds> = None;
    let mut i: usize = 0;
    while i < geometry.len()
        invariant
            i <= geometry@.len(),
            g == geometry_view(geometry@),
            g.len() == geometry@.len(),
            acc is None ==> forall|k: int, l: int| !seen(g, i as int, 0, k, l),
            acc matches Some(b) ==> envelope_upto(g, i as int, 0, b),
        decreases geometry@.len() - i,
    {
        let ring = &geometry[i];
        assert(g[i as int] == ring@);
        let mut j: usize = 0;
        while j < ring.len()
            invariant
                i < geometry@.len(),
                j <= ring@.len(),
                g == geometry_view(geometry@),
                g.len() == geometry@.len(),
                g[i as int] == ring@,
                acc is None ==> forall|k: int, l: int| !seen(g, i as int, j as int, k, l),
                acc matches Some(b) ==> envelope_upto(g, i as int, j as int, b),
            decreases ring@.len() - j,
        {
            let p = ring[j];
            proof {
                lemma_seen_step(g, i as int, j as int, acc);
            }
            acc = match acc {
                Some(b) => Some(
                    Bounds {
                        min_x: if p.x < b.min_x { p.x } else { b.min_x },
                        min_y: if p.y < b.min_y { p.y } else { b.min_y },
                        max_x: if p.x > b.max_x { p.x } else { b.max_x },
                        max_y: if p.y > b.max_y { p.y } else { b.max_y },
                    },
                ),
                None => Some(Bounds { min_x: p.x, min_y: p.y, max_x: p.x, max_y: p.y }),
            };
            j = j + 1;
        }
        proof {
            assert forall|k: int, l: int| #[trigger]
                seen(g, i as int + 1, 0, k, l) <==> seen(g, i as int, j as int, k, l) by {}
            if acc is Some {
                lemma_same_seen(g, i as int, j as int, i as int + 1, 0, acc->0);
            }
        }
        i = i + 1;
    }
    proof {
        if acc is Some {
            lemma_seen_all(g, acc->0);
        } else {
            if has_vertex(g) {
                let (k, l) = choose|k: int, l: int| is_vertex(g, k, l);
                assert(seen(g, i as int, 0, k, l));
            }
        }
    }
    acc
}


/// A geometry has one envelope at most.
pub proof fn lemma_envelope_unique(g: Seq<Seq<Point>>, b1: Bounds, b2: Bounds)
    requires
        is_envelope(g, b1),
        is_envelope(g, b2),
    ensures
        b1 == b2,
{
    let (k1, l1) = choose|k: int, l: int| is_vertex(g, k, l) && g[k][l].x == b1.min_x;
    let (k2, l2) = choose|k: int, l: int| is_vertex(g, k, l) && g[k][l].x == b2.min_x;
    let (k3, l3) = choose|k: int, l: int| is_vertex(g, k, l) && g[k][l].y == b1.min_y;
    let (k4, l4) = choose|k: int, l: int| is_vertex(g, k, l) && g[k][l].y == b2.min_y;
    let (k5, l5) = choose|k: int, l: int| is_vertex(g, k, l) && g[k][l].x == b1.max_x;
    let (k6, l6) = choose|k: int, l: int| is_vertex(g, k, l) && g[k][l].x == b2.max_x;
    let (k7, l7) = choose|k: int, l: int| is_vertex(g, k, l) && g[k][l].y == b1.max_y;
    let (k8, l8) = choose|k: int, l: int| is_vertex(g, k, l) && g[k][l].y == b2.max_y;
    assert(box_contains(b1, g[k2][l2]) && box_contains(b2, g[k1][l1]));
    assert(box_contains(b1, g[k4][l4]) && box_contains(b2, g[k3][l3]));
    assert(box_contains(b1, g[k6][l6]) && box_contains(b2, g[k5][l5]));
    assert(box_contains(b1, g[k8][l8]) && box_contains(b2, g[k7][l7]));
}

/// Whether the records meet the container's invariant: each one's bounds
/// are its envelope, and at most one is selected.
pub fn is_consistent(records: &Vec<Parcel>) -> (r: bool)
    ensures
        r == parcels_wf(records_view(records@)),
{
    let ghost rs = records_view(records@);
    let mut selected: Option<usize> = None;
    let mut i: usize = 0;
    while i < records.len()
        invariant
            i <= records@.len(),
            rs == records_view(records@),
            forall|k: int| 0 <= k < i ==> parcel_wf(#[trigger] rs[k]),
            match selected {
                Some(s) => s < i && rs[s as int].selected && forall|k: int|
                    0 <= k < i && k != s ==> !(#[trigger] rs[k]).selected,
                None => forall|k: int| 0 <= k < i ==> !(#[trigger] rs[k]).selected,
            },
        decreases records@.len() - i,
    {
        let p = &records[i];
        assert(rs[i as int] == p@);
        match envelope_of(&p.geometry) {
            Some(b) => {
                if b != p.bounds {
                    proof {
                        if parcel_wf(rs[i as int]) {
                            lemma_envelope_unique(rs[i as int].geometry, b, p.bounds);
                        }
                    }
                    return false;
                }
            },
            None => {
                proof {
                    if parcel_wf(rs[i as int]) {
                        let g = rs[i as int].geometry;
                        let b = p.bounds;
                        let (k, l) = choose|k: int, l: int| is_vertex(g, k, l) && g[k][l].x == b.min_x;
                        assert(has_vertex(g));
                    }
                }
                return false;
            },
        }
        if p.selected {
            match selected {
                Some(s) => {
                    proof {
                        assert(rs[s as int].selected && rs[i as int].selected);
                    }
                    return false;
                },
                None => {
                    selected = Some(i);
                },
            }
        }
        i = i + 1;
    }
    true
}

} // verus!
