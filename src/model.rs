//! Parcels, their owners and geometry, with the mathematical view of each.
use vstd::prelude::*;

verus! {

/// A position in map coordinates, as integer multiples of a fixed unit.
#[derive(Clone, Copy, Debug, PartialEq, Eq, Structural)]
pub struct Point {
    pub x: i64,
    pub y: i64,
}

/// An axis-aligned box, edges included.
#[derive(Clone, Copy, Debug, PartialEq, Eq, Structural)]
pub struct Bounds {
    pub min_x: i64,
    pub min_y: i64,
    pub max_x: i64,
    pub max_y: i64,
}

/// The legal owner entry of a parcel: an opaque identifier and an optional
/// display name, both as UTF-8 bytes.
#[derive(Debug)]
pub struct Owner {
    pub id: Vec<u8>,
    pub name: Option<Vec<u8>>,
}

/// One land unit: its owner, its rings of points (exterior and interior
/// rings alike), the envelope of those points, and two interactive flags.
#[derive(Debug)]
pub struct Parcel {
    pub owner: Owner,
    pub geometry: Vec<Vec<Point>>,
    pub bounds: Bounds,
    pub selected: bool,
    pub hidden: bool,
}

/// The records of one ingest or load, in source order.
#[derive(Debug)]
pub struct Parcels {
    pub records: Vec<Parcel>,
}

/// What a parcel is, mathematically.
pub struct ParcelModel {
    pub id: Seq<u8>,
    pub name: Option<Seq<u8>>,
    pub geometry: Seq<Seq<Point>>,
    pub bounds: Bounds,
    pub selected: bool,
    pub hidden: bool,
}

pub open spec fn name_view(n: Option<Vec<u8>>) -> Option<Seq<u8>> {
    match n {
        Some(v) => Some(v@),
        None => None,
    }
}

pub open spec fn geometry_view(g: Seq<Vec<Point>>) -> Seq<Seq<Point>> {
    g.map_values(|r: Vec<Point>| r@)
}

impl View for Parcel {
    type V = ParcelModel;

    open spec fn view(&self) -> ParcelModel {
        ParcelModel {
            id: self.owner.id@,
            name: name_view(self.owner.name),
            geometry: geometry_view(self.geometry@),
            bounds: self.bounds,
            selected: self.selected,
            hidden: self.hidden,
        }
    }
}

pub open spec fn records_view(rs: Seq<Parcel>) -> Seq<ParcelModel> {
    rs.map_values(|p: Parcel| p@)
}

impl View for Parcels {
    type V = Seq<ParcelModel>;

    open spec fn view(&self) -> Seq<ParcelModel> {
        records_view(self.records@)
    }
}

/// A box holds a point when the point lies on or inside its edges.
pub open spec fn box_contains(b: Bounds, p: Point) -> bool {
    b.min_x <= p.x <= b.max_x && b.min_y <= p.y <= b.max_y
}

/// `(k, l)` names a point of the geometry: ring `k`, position `l`.
pub open spec fn is_vertex(g: Seq<Seq<Point>>, k: int, l: int) -> bool {
    0 <= k < g.len() && 0 <= l < g[k].len()
}

/// The geometry holds at least one point.
pub open spec fn has_vertex(g: Seq<Seq<Point>>) -> bool {
    exists|k: int, l: int| is_vertex(g, k, l)
}

/// `b` is the tight axis-aligned envelope of the geometry: it holds every
/// point, and each of its four edges passes through one.
pub open spec fn is_envelope(g: Seq<Seq<Point>>, b: Bounds) -> bool {
    &&& forall|k: int, l: int| is_vertex(g, k, l) ==> box_contains(b, #[trigger] g[k][l])
    &&& exists|k: int, l: int| is_vertex(g, k, l) && g[k][l].x == b.min_x
    &&& exists|k: int, l: int| is_vertex(g, k, l) && g[k][l].y == b.min_y
    &&& exists|k: int, l: int| is_vertex(g, k, l) && g[k][l].x == b.max_x
    &&& exists|k: int, l: int| is_vertex(g, k, l) && g[k][l].y == b.max_y
}

/// A parcel whose cached bounds are the envelope of its geometry.
pub open spec fn parcel_wf(p: ParcelModel) -> bool {
    is_envelope(p.geometry, p.bounds)
}

/// No two records are selected at once.
pub open spec fn at_most_one_selected(rs: Seq<ParcelModel>) -> bool {
    forall|i: int, j: int|
        0 <= i < rs.len() && 0 <= j < rs.len() && #[trigger] rs[i].selected
            && #[trigger] rs[j].selected ==> i == j
}

/// The container's invariant: every record's bounds are its envelope and
/// at most one record is selected.
pub open spec fn parcels_wf(rs: Seq<ParcelModel>) -> bool {
    &&& forall|i: int| 0 <= i < rs.len() ==> parcel_wf(#[trigger] rs[i])
    &&& at_most_one_selected(rs)
}

impl Parcels {
    pub open spec fn wf(&self) -> bool {
        parcels_wf(self@)
    }

    /// The number of records.
    pub fn len(&self) -> (r: usize)
        ensures
            r == self@.len(),
    {
        self.records.len()
    }
}

} // verus!
