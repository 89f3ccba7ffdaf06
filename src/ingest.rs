//! Building a container from decoded source records, and replacing every
//! geometry with its reprojection, all or nothing.
//!
//! Reading the vector file and the coordinate transform itself are done by
//! outside services; this module takes what they returned.
use vstd::prelude::*;
use crate::envelope::{envelope_of, lemma_envelope_unique};
use crate::model::{
    Bounds, Owner, Parcel, ParcelModel, Parcels, Point, geometry_view, has_vertex, is_envelope,
    name_view, parcels_wf,
};

verus! {

/// One record as the vector-file decoder hands it over: the owner fields of
/// its attribute row and its rings of points.
pub struct SourceRecord {
    pub id: Vec<u8>,
    pub name: Option<Vec<u8>>,
    pub geometry: Vec<Vec<Point>>,
}

pub struct SourceModel {
    pub id: Seq<u8>,
    pub name: Option<Seq<u8>>,
    pub geometry: Seq<Seq<Point>>,
}

impl View for SourceRecord {
    type V = SourceModel;

    open spec fn view(&self) -> SourceModel {
        SourceModel {
            id: self.id@,
            name: name_view(self.name),
            geometry: geometry_view(self.geometry@),
        }
    }
}

/// Why an ingest step produced no container.
#[derive(Clone, Copy, Debug, PartialEq, Eq, Structural)]
pub enum IngestError {
    /// The record at this index has no point, so it has no bounds.
    EmptyGeometry(usize),
    /// The coordinate transform failed on the record at this index.
    TransformFailed(usize),
}

/// The parcel built from a source record whose envelope is `b`: flags off.
pub open spec fn parcel_from(r: SourceModel, b: Bounds) -> ParcelModel {
    ParcelModel {
        id: r.id,
        name: r.name,
        geometry: r.geometry,
        bounds: b,
        selected: false,
        hidden: false,
    }
}

/// `p` is the parcel built from `r`.
pub open spec fn built_from(p: ParcelModel, r: SourceModel) -> bool {
    is_envelope(r.geometry, p.bounds) && p == parcel_from(r, p.bounds)
}

/// `q` is `p` with its geometry replaced by `g`, and its bounds with the
/// envelope of `g`.
pub open spec fn moved_to(q: ParcelModel, p: ParcelModel, g: Seq<Seq<Point>>) -> bool {
    &&& is_envelope(g, q.bounds)
    &&& q == ParcelModel { geometry: g, bounds: q.bounds, ..p }
}

/// The container of `records`, in their order, each with its bounds
/// computed and both flags off. Fails on the first record with no point.
pub fn from_records(records: Vec<SourceRecord>) -> (r: Result<Parcels, IngestError>)
    ensures
        r is Ok <==> forall|i: int|
            0 <= i < records@.len() ==> has_vertex(#[trigger] records@[i]@.geometry),
        r matches Err(e) ==> e matches IngestError::EmptyGeometry(i) && i < records@.len()
            && !has_vertex(records@[i as int]@.geometry) && forall|j: int|
            0 <= j < i ==> has_vertex(#[trigger] records@[j]@.geometry),
        r matches Ok(p) ==> parcels_wf(p@) && p@.len() == records@.len(),
        forall|i: int|
            #![trigger records@[i]]
            r is Ok && 0 <= i < records@.len() ==> built_from(r->Ok_0@[i], records@[i]@),
{
    let ghost src = records@;
    let mut pending = records;
    let mut out: Vec<Parcel> = Vec::new();
    let mut i: usize = 0;
    while i < pending.len()
        invariant
            src == records@,
            i <= pending@.len(),
            pending@.len() == src.len(),
            forall|j: int| i <= j < src.len() ==> #[trigger] pending@[j] == src[j],
            out@.len() == i,
            forall|j: int| 0 <= j < i ==> has_vertex(#[trigger] src[j]@.geometry),
            forall|j: int| 0 <= j < i ==> built_from(#[trigger] out@[j]@, src[j]@),
        decreases src.len() - i,
    {
        let mut rec = SourceRecord { id: Vec::new(), name: None, geometry: Vec::new() };
        pending.set_and_swap(i, &mut rec);
        assert(rec == src[i as int]);
        match envelope_of(&rec.geometry) {
            None => {
                assert(rec@.geometry == src[i as int]@.geometry);
                assert(!has_vertex(src[i as int]@.geometry));
                return Err(IngestError::EmptyGeometry(i));
            },
            Some(b) => {
                out.push(
                    Parcel {
                        owner: Owner { id: rec.id, name: rec.name },
                        geometry: rec.geometry,
                        bounds: b,
                        selected: false,
                        hidden: false,
                    },
                );
            },
        }
        i = i + 1;
    }
    let p = Parcels { records: out };
    assert forall|j: int| 0 <= j < src.len() implies built_from(#[trigger] p@[j], src[j]@) by {
        assert(p@[j] == out@[j]@);
    }
    Ok(p)
}

/// Replaces every parcel's geometry with the transform's result for it,
/// `None` where the transform failed, and recomputes the bounds. Fails on the
/// first failed transform or empty result, and then yields no container.
pub fn reproject(parcels: Parcels, geometries: Vec<Option<Vec<Vec<Point>>>>) -> (r: Result<
    Parcels,
    IngestError,
>)
    requires
        parcels.wf(),
        geometries@.len() == parcels@.len(),
    ensures
        r is Ok <==> forall|i: int|
            0 <= i < geometries@.len() ==> (#[trigger] geometries@[i] matches Some(g) && has_vertex(
                geometry_view(g@),
            )),
        r matches Err(e) ==> ({
            let i = match e {
                IngestError::EmptyGeometry(i) => i,
                IngestError::TransformFailed(i) => i,
            };
            &&& i < geometries@.len()
            &&& forall|j: int|
                0 <= j < i ==> (#[trigger] geometries@[j] matches Some(g) && has_vertex(
                    geometry_view(g@),
                ))
            &&& e is TransformFailed <==> geometries@[i as int] is None
        }),
        r matches Ok(p) ==> parcels_wf(p@) && p@.len() == parcels@.len(),
        forall|i: int|
            #![trigger parcels@[i]]
            r is Ok && 0 <= i < parcels@.len() ==> moved_to(
                r->Ok_0@[i],
                parcels@[i],
                geometry_view(geometries@[i]->0@),
            ),
{
    let ghost before = parcels@;
    let ghost gs = geometries@;
    let mut work = parcels;
    let mut pending = geometries;
    let n = pending.len();
    let mut i: usize = 0;
    while i < n
        invariant
            before == parcels@,
            gs == geometries@,
            n == gs.len(),
            i <= n,
            work@.len() == n,
            work.records@.len() == n,
            pending@.len() == n,
            forall|j: int| i <= j < n ==> #[trigger] pending@[j] == gs[j],
            forall|j: int| i <= j < n ==> #[trigger] work@[j] == before[j],
            forall|j: int|
                0 <= j < i ==> (#[trigger] gs[j] matches Some(g) && has_vertex(geometry_view(g@))),
            forall|j: int|
                0 <= j < i ==> moved_to(#[trigger] work@[j], before[j], geometry_view(gs[j]->0@)),
        decreases n - i,
    {
        let mut slot: Option<Vec<Vec<Point>>> = None;
        pending.set_and_swap(i, &mut slot);
        assert(slot == gs[i as int]);
        let g = match slot {
            None => {
                assert(gs[i as int] is None);
                assert(!(gs[i as int] matches Some(g) && has_vertex(geometry_view(g@))));
                return Err(IngestError::TransformFailed(i));
            },
            Some(g) => g,
        };
        let b = match envelope_of(&g) {
            None => {
                assert(!(gs[i as int] matches Some(h) && has_vertex(geometry_view(h@))));
                return Err(IngestError::EmptyGeometry(i));
            },
            Some(b) => b,
        };
        let ghost views = work@;
        let ghost recs = work.records@;
        work.records[i].geometry = g;
        work.records[i].bounds = b;
        proof {
            assert forall|j: int| 0 <= j < n && j != i implies #[trigger] work@[j] == views[j] by {
                assert(work.records@[j] == recs[j]);
            }
            assert(views[i as int] == before[i as int]);
            assert(moved_to(work@[i as int], before[i as int], geometry_view(gs[i as int]->0@)));
        }
        i = i + 1;
    }
    proof {
        let rs = work@;
        assert forall|a: int, c: int|
            0 <= a < rs.len() && 0 <= c < rs.len() && #[trigger] rs[a].selected
                && #[trigger] rs[c].selected implies a == c by {
            assert(before[a].selected && before[c].selected);
        }
    }
    Ok(work)
}

/// Building from equal source records twice gives equal containers.
pub proof fn lemma_from_records_deterministic(
    a: Vec<SourceRecord>,
    b: Vec<SourceRecord>,
    ra: Result<Parcels, IngestError>,
    rb: Result<Parcels, IngestError>,
)
    requires
        a@.len() == b@.len(),
        forall|i: int| 0 <= i < a@.len() ==> #[trigger] a@[i]@ == b@[i]@,
        call_ensures(from_records, (a,), ra),
        call_ensures(from_records, (b,), rb),
    ensures
        ra is Ok <==> rb is Ok,
        ra matches Ok(p) ==> rb matches Ok(q) && p@ == q@,
        ra matches Err(e) ==> rb == Err::<Parcels, IngestError>(e),
{
    if ra is Ok {
        assert forall|i: int| 0 <= i < b@.len() implies has_vertex(#[trigger] b@[i]@.geometry) by {
            assert(has_vertex(a@[i]@.geometry));
        }
        let p = ra->Ok_0;
        let q = rb->Ok_0;
        assert forall|i: int| 0 <= i < p@.len() implies #[trigger] p@[i] == q@[i] by {
            assert(built_from(p@[i], a@[i]@));
            assert(built_from(q@[i], b@[i]@));
            lemma_envelope_unique(a@[i]@.geometry, p@[i].bounds, q@[i].bounds);
        }
        assert(p@ =~= q@);
    } else {
        let ea = ra->Err_0;
        let eb = rb->Err_0;
        let ia = ea->EmptyGeometry_0;
        let ib = eb->EmptyGeometry_0;
        if ia < ib {
            assert(has_vertex(b@[ia as int]@.geometry));
            assert(a@[ia as int]@ == b@[ia as int]@);
        } else if ib < ia {
            assert(has_vertex(a@[ib as int]@.geometry));
            assert(a@[ib as int]@ == b@[ib as int]@);
        }
    }
}

} // verus!
