use sextant::cli::{Action, Cli, UsageError};
use sextant::codec::{decode, encode, DecodeError};
use sextant::envelope::{envelope_of, is_consistent};
use sextant::ingest::{from_records, reproject, IngestError, SourceRecord};
use sextant::model::{Bounds, Owner, Parcel, Parcels, Point};
use sextant::selection::Viewer;
use sextant::style::{Color, ParcelSymbol, STROKE_OFFSET, STROKE_WIDTH};

fn pt(x: i64, y: i64) -> Point {
    Point { x, y }
}

fn square(x0: i64, y0: i64, side: i64) -> Vec<Vec<Point>> {
    vec![vec![
        pt(x0, y0),
        pt(x0 + side, y0),
        pt(x0 + side, y0 + side),
        pt(x0, y0 + side),
        pt(x0, y0),
    ]]
}

fn parcel(id: &str, name: Option<&str>, geometry: Vec<Vec<Point>>) -> Parcel {
    let bounds = envelope_of(&geometry).unwrap();
    Parcel {
        owner: Owner { id: id.as_bytes().to_vec(), name: name.map(|n| n.as_bytes().to_vec()) },
        geometry,
        bounds,
        selected: false,
        hidden: false,
    }
}

fn three() -> Parcels {
    Parcels {
        records: vec![
            parcel("A1", Some("SMITH JOHN"), square(0, 0, 10)),
            parcel("B2", None, square(5, 5, 10)),
            parcel("C3", Some("CITY OF GRANTS PASS"), square(100, -50, 3)),
        ],
    }
}

fn same(a: &Parcel, b: &Parcel) -> bool {
    a.owner.id == b.owner.id
        && a.owner.name == b.owner.name
        && a.geometry == b.geometry
        && a.bounds == b.bounds
        && a.selected == b.selected
        && a.hidden == b.hidden
}

fn same_all(a: &Parcels, b: &Parcels) -> bool {
    a.records.len() == b.records.len()
        && a.records.iter().zip(b.records.iter()).all(|(x, y)| same(x, y))
}

fn selected_flags(v: &Viewer) -> Vec<bool> {
    v.parcels().records.iter().map(|p| p.selected).collect()
}

fn hidden_flags(v: &Viewer) -> Vec<bool> {
    v.parcels().records.iter().map(|p| p.hidden).collect()
}

#[test]
fn envelope_of_rings_is_tight() {
    let g = vec![vec![pt(3, -2), pt(7, 4)], vec![pt(-1, 9)]];
    assert_eq!(envelope_of(&g), Some(Bounds { min_x: -1, min_y: -2, max_x: 7, max_y: 9 }));
}

#[test]
fn envelope_of_nothing_is_none() {
    assert_eq!(envelope_of(&vec![]), None);
    assert_eq!(envelope_of(&vec![vec![], vec![]]), None);
}

#[test]
fn hover_selects_lowest_candidate_only() {
    let mut v = Viewer::new(three());
    assert!(v.on_hover(&vec![2, 1]));
    assert_eq!(selected_flags(&v), vec![false, true, false]);
    assert_eq!(v.selected(), Some(1));
    assert!(!v.on_hover(&vec![1, 2]));
    assert!(v.on_hover(&vec![2, 0, 1]));
    assert_eq!(selected_flags(&v), vec![true, false, false]);
    assert!(v.on_hover(&vec![2]));
    assert_eq!(selected_flags(&v), vec![false, false, true]);
}

#[test]
fn hover_sequence_keeps_one_selected() {
    let mut v = Viewer::new(three());
    let events: Vec<Vec<usize>> = vec![vec![0], vec![2, 1], vec![], vec![1], vec![1, 2], vec![0, 1, 2]];
    for e in events.iter() {
        v.on_hover(e);
        assert!(selected_flags(&v).iter().filter(|s| **s).count() <= 1);
    }
}

#[test]
fn hover_twice_is_idempotent() {
    let mut v = Viewer::new(three());
    assert!(v.on_hover(&vec![2, 0]));
    let after_first = selected_flags(&v);
    assert!(!v.on_hover(&vec![2, 0]));
    assert_eq!(selected_flags(&v), after_first);
}

#[test]
fn hover_over_nothing_deselects() {
    let mut v = Viewer::new(three());
    v.on_hover(&vec![0]);
    assert!(v.on_hover(&vec![]));
    assert_eq!(selected_flags(&v), vec![false, false, false]);
    assert_eq!(v.selected(), None);
    assert!(!v.on_hover(&vec![]));
}

#[test]
fn click_toggles_every_candidate() {
    let mut v = Viewer::new(three());
    assert!(v.on_click(&vec![0, 2]));
    assert_eq!(hidden_flags(&v), vec![true, false, true]);
    assert!(v.on_click(&vec![0, 2]));
    assert_eq!(hidden_flags(&v), vec![false, false, false]);
}

#[test]
fn click_on_nothing_is_noop() {
    let mut v = Viewer::new(three());
    v.on_hover(&vec![1]);
    assert!(!v.on_click(&vec![]));
    assert_eq!(hidden_flags(&v), vec![false, false, false]);
    assert_eq!(selected_flags(&v), vec![false, true, false]);
}

#[test]
fn click_counts_repeated_candidate_once() {
    let mut v = Viewer::new(three());
    v.on_click(&vec![1, 1]);
    assert_eq!(hidden_flags(&v), vec![false, true, false]);
}

#[test]
fn viewer_starts_on_selected_record() {
    let mut p = three();
    p.records[2].selected = true;
    let v = Viewer::new(p);
    assert_eq!(v.selected(), Some(2));
}

#[test]
fn flagged_owner_style() {
    let sym = ParcelSymbol::new();
    let mut p = parcel("C3", Some("CITY OF GRANTS PASS"), square(0, 0, 1));
    let s = sym.polygon(&p);
    assert_eq!(s.fill, Color { r: 255, g: 0, b: 0, a: 50 });
    assert_eq!(s.stroke, Color { r: 0, g: 0, b: 0, a: 255 });
    p.selected = true;
    let s = sym.polygon(&p);
    assert_eq!(s.fill, Color { r: 255, g: 0, b: 0, a: 150 });
    assert_eq!(s.stroke, Color { r: 0, g: 0, b: 255, a: 255 });
    assert_eq!(s.stroke_width, STROKE_WIDTH);
    assert_eq!(s.stroke_offset, STROKE_OFFSET);
}

#[test]
fn other_owner_style_is_transparent() {
    let sym = ParcelSymbol::new();
    let p = parcel("X", Some("City of Grants Pass"), square(0, 0, 1));
    assert_eq!(sym.polygon(&p).fill, Color { r: 0, g: 0, b: 0, a: 0 });
    let q = parcel("Y", None, square(0, 0, 1));
    let s = sym.polygon(&q);
    assert_eq!(s.fill, Color { r: 0, g: 0, b: 0, a: 0 });
    assert_eq!(s.stroke, Color { r: 0, g: 0, b: 0, a: 255 });
    let custom = ParcelSymbol::with_owner(b"SMITH JOHN".to_vec());
    let r = parcel("Z", Some("SMITH JOHN"), square(0, 0, 1));
    assert_eq!(custom.polygon(&r).fill, Color { r: 255, g: 0, b: 0, a: 50 });
}

#[test]
fn round_trip_keeps_everything() {
    let mut p = three();
    p.records[1].selected = true;
    p.records[0].hidden = true;
    p.records[2].hidden = true;
    let bytes = encode(&p);
    let q = decode(&bytes).unwrap();
    assert!(same_all(&p, &q));
}

#[test]
fn round_trip_empty_container() {
    let p = Parcels { records: vec![] };
    let bytes = encode(&p);
    assert_eq!(bytes, vec![0u8; 8]);
    assert_eq!(decode(&bytes).unwrap().records.len(), 0);
}

#[test]
fn encoding_layout_is_exact() {
    let p = Parcels {
        records: vec![Parcel {
            owner: Owner { id: vec![7], name: None },
            geometry: vec![vec![pt(-1, 2)]],
            bounds: Bounds { min_x: -1, min_y: 2, max_x: -1, max_y: 2 },
            selected: true,
            hidden: false,
        }],
    };
    let mut want: Vec<u8> = vec![];
    want.extend_from_slice(&1u64.to_le_bytes());
    want.extend_from_slice(&1u64.to_le_bytes());
    want.push(7);
    want.push(0);
    want.extend_from_slice(&1u64.to_le_bytes());
    want.extend_from_slice(&1u64.to_le_bytes());
    want.extend_from_slice(&(-1i64).to_le_bytes());
    want.extend_from_slice(&2i64.to_le_bytes());
    for v in [-1i64, 2, -1, 2] {
        want.extend_from_slice(&v.to_le_bytes());
    }
    want.push(1);
    want.push(0);
    assert_eq!(encode(&p), want);
}

#[test]
fn truncated_bytes_are_malformed() {
    let bytes = encode(&three());
    for cut in [0usize, 7, 8, 20, bytes.len() - 1] {
        assert_eq!(decode(&bytes[..cut].to_vec()).err(), Some(DecodeError::Malformed));
    }
}

#[test]
fn trailing_bytes_are_malformed() {
    let mut bytes = encode(&three());
    bytes.push(0);
    assert_eq!(decode(&bytes).err(), Some(DecodeError::Malformed));
}

#[test]
fn bad_flag_is_malformed() {
    let mut bytes = encode(&three());
    let last = bytes.len() - 1;
    bytes[last] = 2;
    assert_eq!(decode(&bytes).err(), Some(DecodeError::Malformed));
}

#[test]
fn two_selected_are_inconsistent() {
    let mut p = three();
    p.records[0].selected = true;
    p.records[1].selected = true;
    assert!(!is_consistent(&p.records));
    assert_eq!(decode(&encode(&p)).err(), Some(DecodeError::Inconsistent));
}

#[test]
fn stale_bounds_are_inconsistent() {
    let mut p = three();
    p.records[1].bounds.max_x += 1;
    assert_eq!(decode(&encode(&p)).err(), Some(DecodeError::Inconsistent));
}

fn sources() -> Vec<SourceRecord> {
    vec![
        SourceRecord { id: b"A1".to_vec(), name: Some(b"SMITH JOHN".to_vec()), geometry: square(0, 0, 10) },
        SourceRecord { id: b"B2".to_vec(), name: None, geometry: vec![vec![pt(4, 9)], vec![pt(-3, 1)]] },
    ]
}

#[test]
fn from_records_builds_bounds_and_clears_flags() {
    let p = from_records(sources()).unwrap();
    assert_eq!(p.records.len(), 2);
    assert_eq!(p.records[0].bounds, Bounds { min_x: 0, min_y: 0, max_x: 10, max_y: 10 });
    assert_eq!(p.records[1].bounds, Bounds { min_x: -3, min_y: 1, max_x: 4, max_y: 9 });
    assert_eq!(p.records[1].owner.name, None);
    assert!(p.records.iter().all(|r| !r.selected && !r.hidden));
}

#[test]
fn from_records_rejects_empty_geometry() {
    let mut s = sources();
    s.push(SourceRecord { id: b"C".to_vec(), name: None, geometry: vec![vec![]] });
    assert_eq!(from_records(s).err(), Some(IngestError::EmptyGeometry(2)));
}

#[test]
fn ingest_is_deterministic() {
    let a = from_records(sources()).unwrap();
    let b = from_records(sources()).unwrap();
    assert!(same_all(&a, &b));
}

#[test]
fn reproject_replaces_geometry_and_bounds() {
    let p = from_records(sources()).unwrap();
    let moved = vec![Some(square(1000, 2000, 5)), Some(vec![vec![pt(-7, -8)]])];
    let q = reproject(p, moved).unwrap();
    assert_eq!(q.records[0].geometry, square(1000, 2000, 5));
    assert_eq!(q.records[0].bounds, Bounds { min_x: 1000, min_y: 2000, max_x: 1005, max_y: 2005 });
    assert_eq!(q.records[1].bounds, Bounds { min_x: -7, min_y: -8, max_x: -7, max_y: -8 });
    assert_eq!(q.records[0].owner.id, b"A1".to_vec());
}

#[test]
fn reproject_failure_yields_no_container() {
    let p = from_records(sources()).unwrap();
    let r = reproject(p, vec![Some(square(0, 0, 1)), None]);
    assert_eq!(r.err(), Some(IngestError::TransformFailed(1)));
    let p = from_records(sources()).unwrap();
    let r = reproject(p, vec![None, None]);
    assert_eq!(r.err(), Some(IngestError::TransformFailed(0)));
    let p = from_records(sources()).unwrap();
    let r = reproject(p, vec![Some(vec![]), Some(square(0, 0, 1))]);
    assert_eq!(r.err(), Some(IngestError::EmptyGeometry(0)));
}

fn cli(command: &str, input: Option<&str>, output: Option<&str>) -> Cli {
    Cli {
        command: command.to_string(),
        input: input.map(|s| s.to_string()),
        output: output.map(|s| s.to_string()),
    }
}

#[test]
fn cli_actions() {
    assert!(matches!(cli("read", Some("a.shp"), None).action(), Ok(Action::Read { input }) if input == "a.shp"));
    assert_eq!(cli("read", None, None).action().err(), Some(UsageError::MissingInput));
    assert!(matches!(cli("load", None, None).action(), Ok(Action::Load)));
    assert!(matches!(cli("transform", Some("a"), Some("b")).action(), Ok(Action::Transform { input, output }) if input == "a" && output == "b"));
    assert_eq!(cli("transform", None, None).action().err(), Some(UsageError::MissingInput));
    assert_eq!(cli("transform", Some("a"), None).action().err(), Some(UsageError::MissingOutput));
    assert_eq!(cli("save", None, None).action().err(), Some(UsageError::MissingOutput));
    assert_eq!(cli("save", None, Some("b")).action().err(), Some(UsageError::MissingInput));
    assert!(matches!(cli("save", Some("a"), Some("b")).action(), Ok(Action::Save { .. })));
    assert!(matches!(cli("viewer", Some("p.data"), None).action(), Ok(Action::View { input }) if input == "p.data"));
    assert_eq!(cli("viewer", None, None).action().err(), Some(UsageError::MissingInput));
    assert!(matches!(cli("fly", None, None).action(), Ok(Action::Unrecognized)));
}
