//! The persisted binary form of a container: a fixed little-endian layout
//! with length prefixes, decoded only when the bytes are exactly the
//! encoding of a well-formed container.
use vstd::prelude::*;
use crate::envelope::is_consistent;
use crate::model::{
    Bounds, Owner, Parcel, ParcelModel, Parcels, Point, geometry_view, name_view, parcels_wf,
    records_view,
};

verus! {

/// The eight little-endian bytes of `v`.
pub open spec fn le8(v: u64) -> Seq<u8> {
    seq![
        (v & 0xff) as u8,
        ((v >> 8u64) & 0xff) as u8,
        ((v >> 16u64) & 0xff) as u8,
        ((v >> 24u64) & 0xff) as u8,
        ((v >> 32u64) & 0xff) as u8,
        ((v >> 40u64) & 0xff) as u8,
        ((v >> 48u64) & 0xff) as u8,
        ((v >> 56u64) & 0xff) as u8,
    ]
}

/// The elements' encodings one after another.
pub open spec fn enc_list<T>(s: Seq<T>, f: spec_fn(T) -> Seq<u8>) -> Seq<u8>
    decreases s.len(),
{
    if s.len() == 0 {
        Seq::empty()
    } else {
        enc_list(s.drop_last(), f) + f(s.last())
    }
}

/// A count, then the elements.
pub open spec fn enc_counted<T>(s: Seq<T>, f: spec_fn(T) -> Seq<u8>) -> Seq<u8> {
    le8(s.len() as u64) + enc_list(s, f)
}

pub open spec fn enc_bytes(s: Seq<u8>) -> Seq<u8> {
    le8(s.len() as u64) + s
}

pub open spec fn enc_name(n: Option<Seq<u8>>) -> Seq<u8> {
    match n {
        None => seq![0u8],
        Some(s) => seq![1u8] + enc_bytes(s),
    }
}

pub open spec fn enc_flag(x: bool) -> Seq<u8> {
    if x {
        seq![1u8]
    } else {
        seq![0u8]
    }
}

pub open spec fn enc_i64(v: i64) -> Seq<u8> {
    le8(v as u64)
}

pub open spec fn enc_point(p: Point) -> Seq<u8> {
    enc_i64(p.x) + enc_i64(p.y)
}

pub open spec fn enc_ring(r: Seq<Point>) -> Seq<u8> {
    enc_counted(r, |p: Point| enc_point(p))
}

pub open spec fn enc_geometry(g: Seq<Seq<Point>>) -> Seq<u8> {
    enc_counted(g, |r: Seq<Point>| enc_ring(r))
}

pub open spec fn enc_bounds(b: Bounds) -> Seq<u8> {
    enc_i64(b.min_x) + (enc_i64(b.min_y) + (enc_i64(b.max_x) + enc_i64(b.max_y)))
}

pub open spec fn enc_parcel(p: ParcelModel) -> Seq<u8> {
    enc_bytes(p.id) + (enc_name(p.name) + (enc_geometry(p.geometry) + (enc_bounds(p.bounds) + (
    enc_flag(p.selected) + enc_flag(p.hidden)))))
}

/// The persisted form of a container's records.
pub open spec fn enc_parcels(rs: Seq<ParcelModel>) -> Seq<u8> {
    enc_counted(rs, |p: ParcelModel| enc_parcel(p))
}

/// `s` stands in `b` from position `pos` on.
pub open spec fn prefix_at(b: Seq<u8>, pos: int, s: Seq<u8>) -> bool {
    0 <= pos && pos + s.len() <= b.len() && b.subrange(pos, pos + s.len()) == s
}

proof fn lemma_prefix_concat(b: Seq<u8>, pos: int, s1: Seq<u8>, s2: Seq<u8>)
    ensures
        prefix_at(b, pos, s1 + s2) <==> (prefix_at(b, pos, s1) && prefix_at(
            b,
            pos + s1.len(),
            s2,
        )),
{
    let s = s1 + s2;
    if prefix_at(b, pos, s) {
        assert(b.subrange(pos, pos + s1.len()) =~= s.subrange(0, s1.len() as int));
        assert(s.subrange(0, s1.len() as int) =~= s1);
        assert(b.subrange(pos + s1.len(), pos + s.len()) =~= s.subrange(
            s1.len() as int,
            s.len() as int,
        ));
        assert(s.subrange(s1.len() as int, s.len() as int) =~= s2);
    }
    if prefix_at(b, pos, s1) && prefix_at(b, pos + s1.len(), s2) {
        assert(b.subrange(pos, pos + s.len()) =~= s);
    }
}

proof fn lemma_enc_list_len<T>(s: Seq<T>, f: spec_fn(T) -> Seq<u8>)
    requires
        forall|x: T| (#[trigger] f(x)).len() >= 1,
    ensures
        enc_list(s, f).len() >= s.len(),
    decreases s.len(),
{
    if s.len() > 0 {
        lemma_enc_list_len(s.drop_last(), f);
        assert(f(s.last()).len() >= 1);
    }
}

proof fn lemma_enc_list_push<T>(s: Seq<T>, x: T, f: spec_fn(T) -> Seq<u8>)
    ensures
        enc_list(s.push(x), f) == enc_list(s, f) + f(x),
{
    assert(s.push(x).drop_last() =~= s);
}

/// The encoding of the first `k` elements starts the encoding of all.
proof fn lemma_enc_list_take<T>(s: Seq<T>, k: int, f: spec_fn(T) -> Seq<u8>)
    requires
        0 <= k <= s.len(),
    ensures
        enc_list(s.take(k), f).len() <= enc_list(s, f).len(),
        enc_list(s, f).subrange(0, enc_list(s.take(k), f).len() as int) == enc_list(s.take(k), f),
    decreases s.len(),
{
    if k == s.len() {
        assert(s.take(k) =~= s);
        assert(enc_list(s, f).subrange(0, enc_list(s, f).len() as int) =~= enc_list(s, f));
    } else {
        let t = s.drop_last();
        lemma_enc_list_take(t, k, f);
        assert(t.take(k) =~= s.take(k));
        let a = enc_list(t, f);
        let p = enc_list(s.take(k), f);
        assert((a + f(s.last())).subrange(0, p.len() as int) =~= a.subrange(0, p.len() as int));
    }
}

/// Where a counted list stands at `pos`, its element `k` stands right after
/// the first `k` elements.
proof fn lemma_list_member<T>(b: Seq<u8>, pos: int, xs: Seq<T>, k: int, f: spec_fn(T) -> Seq<u8>)
    requires
        prefix_at(b, pos, enc_counted(xs, f)),
        0 <= k < xs.len(),
    ensures
        prefix_at(b, pos + 8, enc_list(xs.take(k), f)),
        prefix_at(b, pos + 8 + enc_list(xs.take(k), f).len(), f(xs[k])),
{
    lemma_prefix_concat(b, pos, le8(xs.len() as u64), enc_list(xs, f));
    let whole = enc_list(xs, f);
    let t1 = xs.take(k + 1);
    lemma_enc_list_take(xs, k + 1, f);
    assert(t1.drop_last() =~= xs.take(k));
    let o1 = enc_list(t1, f);
    assert(prefix_at(b, pos + 8, o1)) by {
        assert(b.subrange(pos + 8, pos + 8 + o1.len()) =~= b.subrange(
            pos + 8,
            pos + 8 + whole.len(),
        ).subrange(0, o1.len() as int));
    }
    lemma_prefix_concat(b, pos + 8, enc_list(xs.take(k), f), f(xs[k]));
}

proof fn lemma_le8_parts(v: u64)
    by (bit_vector)
    ensures
        (v & 0xff) <= 0xff,
        ((v >> 8u64) & 0xff) <= 0xff,
        ((v >> 16u64) & 0xff) <= 0xff,
        ((v >> 24u64) & 0xff) <= 0xff,
        ((v >> 32u64) & 0xff) <= 0xff,
        ((v >> 40u64) & 0xff) <= 0xff,
        ((v >> 48u64) & 0xff) <= 0xff,
        ((v >> 56u64) & 0xff) <= 0xff,
        v == (v & 0xff) | (((v >> 8u64) & 0xff) << 8u64) | (((v >> 16u64) & 0xff) << 16u64) | (((
        v >> 24u64) & 0xff) << 24u64) | (((v >> 32u64) & 0xff) << 32u64) | (((v >> 40u64) & 0xff)
            << 40u64) | (((v >> 48u64) & 0xff) << 48u64) | (((v >> 56u64) & 0xff) << 56u64),
{
}

proof fn lemma_le8_injective(v: u64, w: u64)
    requires
        le8(v) == le8(w),
    ensures
        v == w,
{
    lemma_le8_parts(v);
    lemma_le8_parts(w);
    let a = le8(v);
    let c = le8(w);
    assert(a[0] == c[0] && a[1] == c[1] && a[2] == c[2] && a[3] == c[3]);
    assert(a[4] == c[4] && a[5] == c[5] && a[6] == c[6] && a[7] == c[7]);
}

proof fn lemma_i64_round(v: i64)
    by (bit_vector)
    ensures
        (v as u64) as i64 == v,
{
}

proof fn lemma_u64_round(u: u64)
    by (bit_vector)
    ensures
        (u as i64) as u64 == u,
{
}

proof fn lemma_list_start<T>(b: Seq<u8>, pos: int, count: u64, f: spec_fn(T) -> Seq<u8>)
    requires
        prefix_at(b, pos, le8(count)),
        forall|x: T| (#[trigger] f(x)).len() >= 1,
        b.len() <= u64::MAX,
    ensures
        prefix_at(b, pos + 8, enc_list(Seq::<T>::empty(), f)),
        forall|xs: Seq<T>|
            #[trigger] prefix_at(b, pos, enc_counted(xs, f)) ==> xs.len() == count && xs.take(0)
                == Seq::<T>::empty(),
{
    assert(b.subrange(pos + 8, pos + 8) =~= Seq::<u8>::empty());
    assert forall|xs: Seq<T>| #[trigger] prefix_at(b, pos, enc_counted(xs, f)) implies xs.len()
        == count && xs.take(0) == Seq::<T>::empty() by {
        lemma_prefix_concat(b, pos, le8(xs.len() as u64), enc_list(xs, f));
        lemma_enc_list_len(xs, f);
        lemma_le8_injective(count, xs.len() as u64);
        assert(xs.take(0) =~= Seq::<T>::empty());
    }
}

proof fn lemma_list_step<T>(
    b: Seq<u8>,
    pos: int,
    count: u64,
    done: Seq<T>,
    e: T,
    f: spec_fn(T) -> Seq<u8>,
)
    requires
        prefix_at(b, pos + 8, enc_list(done, f)),
        prefix_at(b, pos + 8 + enc_list(done, f).len(), f(e)),
        forall|x: T| #[trigger] prefix_at(b, pos + 8 + enc_list(done, f).len(), f(x)) ==> x == e,
        forall|xs: Seq<T>|
            #[trigger] prefix_at(b, pos, enc_counted(xs, f)) ==> xs.len() == count && xs.take(
                done.len() as int,
            ) == done,
        done.len() < count,
    ensures
        prefix_at(b, pos + 8, enc_list(done.push(e), f)),
        enc_list(done.push(e), f).len() == enc_list(done, f).len() + f(e).len(),
        forall|xs: Seq<T>|
            #[trigger] prefix_at(b, pos, enc_counted(xs, f)) ==> xs.len() == count && xs.take(
                done.len() + 1 as int,
            ) == done.push(e),
{
    lemma_enc_list_push(done, e, f);
    lemma_prefix_concat(b, pos + 8, enc_list(done, f), f(e));
    assert forall|xs: Seq<T>| #[trigger] prefix_at(b, pos, enc_counted(xs, f)) implies xs.len()
        == count && xs.take(done.len() + 1 as int) == done.push(e) by {
        let k = done.len() as int;
        lemma_list_member(b, pos, xs, k, f);
        assert(xs.take(k + 1) =~= xs.take(k).push(xs[k]));
    }
}

proof fn lemma_list_stuck<T>(b: Seq<u8>, pos: int, count: u64, done: Seq<T>, f: spec_fn(T) -> Seq<u8>)
    requires
        forall|xs: Seq<T>|
            #[trigger] prefix_at(b, pos, enc_counted(xs, f)) ==> xs.len() == count && xs.take(
                done.len() as int,
            ) == done,
        done.len() < count,
        forall|x: T| !#[trigger] prefix_at(b, pos + 8 + enc_list(done, f).len(), f(x)),
    ensures
        forall|xs: Seq<T>| !#[trigger] prefix_at(b, pos, enc_counted(xs, f)),
{
    assert forall|xs: Seq<T>| !#[trigger] prefix_at(b, pos, enc_counted(xs, f)) by {
        if prefix_at(b, pos, enc_counted(xs, f)) {
            lemma_list_member(b, pos, xs, done.len() as int, f);
        }
    }
}

proof fn lemma_list_done<T>(b: Seq<u8>, pos: int, count: u64, done: Seq<T>, f: spec_fn(T) -> Seq<u8>)
    requires
        prefix_at(b, pos, le8(count)),
        prefix_at(b, pos + 8, enc_list(done, f)),
        done.len() == count,
        forall|xs: Seq<T>|
            #[trigger] prefix_at(b, pos, enc_counted(xs, f)) ==> xs.len() == count && xs.take(
                done.len() as int,
            ) == done,
    ensures
        prefix_at(b, pos, enc_counted(done, f)),
        forall|xs: Seq<T>| #[trigger] prefix_at(b, pos, enc_counted(xs, f)) ==> xs == done,
{
    lemma_prefix_concat(b, pos, le8(count), enc_list(done, f));
    assert forall|xs: Seq<T>| #[trigger] prefix_at(b, pos, enc_counted(xs, f)) implies xs
        == done by {
        assert(xs.take(done.len() as int) =~= xs);
    }
}

// ---- encoding ----

fn put_u64(out: &mut Vec<u8>, v: u64)
    ensures
        final(out)@ == old(out)@ + le8(v),
{
    out.push((v & 0xff) as u8);
    out.push(((v >> 8u64) & 0xff) as u8);
    out.push(((v >> 16u64) & 0xff) as u8);
    out.push(((v >> 24u64) & 0xff) as u8);
    out.push(((v >> 32u64) & 0xff) as u8);
    out.push(((v >> 40u64) & 0xff) as u8);
    out.push(((v >> 48u64) & 0xff) as u8);
    out.push(((v >> 56u64) & 0xff) as u8);
    assert(final(out)@ =~= old(out)@ + le8(v));
}

fn put_bytes(out: &mut Vec<u8>, s: &Vec<u8>)
    ensures
        final(out)@ == old(out)@ + enc_bytes(s@),
{
    put_u64(out, s.len() as u64);
    let ghost mid = out@;
    let mut i: usize = 0;
    while i < s.len()
        invariant
            i <= s@.len(),
            out@ == mid + s@.take(i as int),
        decreases s@.len() - i,
    {
        out.push(s[i]);
        assert(s@.take(i + 1) =~= s@.take(i as int).push(s@[i as int]));
        i = i + 1;
    }
    assert(s@.take(s@.len() as int) =~= s@);
}

fn put_flag(out: &mut Vec<u8>, x: bool)
    ensures
        final(out)@ == old(out)@ + enc_flag(x),
{
    out.push(if x { 1u8 } else { 0u8 });
    assert(final(out)@ =~= old(out)@ + enc_flag(x));
}

fn put_ring(out: &mut Vec<u8>, r: &Vec<Point>)
    ensures
        final(out)@ == old(out)@ + enc_ring(r@),
{
    let ghost f = |p: Point| enc_point(p);
    put_u64(out, r.len() as u64);
    let ghost mid = out@;
    let mut i: usize = 0;
    while i < r.len()
        invariant
            i <= r@.len(),
            f == (|p: Point| enc_point(p)),
            out@ == mid + enc_list(r@.take(i as int), f),
        decreases r@.len() - i,
    {
        let p = r[i];
        put_u64(out, p.x as u64);
        put_u64(out, p.y as u64);
        proof {
            lemma_enc_list_push(r@.take(i as int), p, f);
            assert(r@.take(i + 1) =~= r@.take(i as int).push(p));
        }
        i = i + 1;
    }
    assert(r@.take(r@.len() as int) =~= r@);
    assert(old(out)@ + enc_ring(r@) =~= mid + enc_list(r@, f));
}

fn put_geometry(out: &mut Vec<u8>, g: &Vec<Vec<Point>>)
    ensures
        final(out)@ == old(out)@ + enc_geometry(geometry_view(g@)),
{
    let ghost f = |r: Seq<Point>| enc_ring(r);
    let ghost gv = geometry_view(g@);
    put_u64(out, g.len() as u64);
    let ghost mid = out@;
    let mut i: usize = 0;
    while i < g.len()
        invariant
            i <= g@.len(),
            gv == geometry_view(g@),
            f == (|r: Seq<Point>| enc_ring(r)),
            out@ == mid + enc_list(gv.take(i as int), f),
        decreases g@.len() - i,
    {
        put_ring(out, &g[i]);
        proof {
            lemma_enc_list_push(gv.take(i as int), g@[i as int]@, f);
            assert(gv.take(i + 1) =~= gv.take(i as int).push(g@[i as int]@));
        }
        i = i + 1;
    }
    assert(gv.take(gv.len() as int) =~= gv);
    assert(old(out)@ + enc_geometry(gv) =~= mid + enc_list(gv, f));
}

fn put_name(out: &mut Vec<u8>, name: &Option<Vec<u8>>)
    ensures
        final(out)@ == old(out)@ + enc_name(name_view(*name)),
{
    match name {
        None => out.push(0u8),
        Some(n) => {
            out.push(1u8);
            put_bytes(out, n);
        },
    }
    assert(final(out)@ =~= old(out)@ + enc_name(name_view(*name)));
}

fn put_bounds(out: &mut Vec<u8>, b: &Bounds)
    ensures
        final(out)@ == old(out)@ + enc_bounds(*b),
{
    put_u64(out, b.min_x as u64);
    put_u64(out, b.min_y as u64);
    put_u64(out, b.max_x as u64);
    put_u64(out, b.max_y as u64);
    assert(final(out)@ =~= old(out)@ + enc_bounds(*b));
}

fn put_parcel(out: &mut Vec<u8>, p: &Parcel)
    ensures
        final(out)@ == old(out)@ + enc_parcel(p@),
{
    let ghost m = p@;
    let ghost s0 = out@;
    put_bytes(out, &p.owner.id);
    let ghost s1 = out@;
    put_name(out, &p.owner.name);
    let ghost s2 = out@;
    put_geometry(out, &p.geometry);
    let ghost s3 = out@;
    put_bounds(out, &p.bounds);
    let ghost s4 = out@;
    put_flag(out, p.selected);
    put_flag(out, p.hidden);
    proof {
        let a = enc_bytes(m.id);
        let n = enc_name(m.name);
        let g = enc_geometry(m.geometry);
        let bd = enc_bounds(m.bounds);
        let fl = enc_flag(m.selected) + enc_flag(m.hidden);
        assert(out@ =~= s4 + fl);
        assert(s4 + fl =~= s0 + (a + (n + (g + (bd + fl)))));
    }
}

/// The persisted form of `parcels`.
pub fn encode(parcels: &Parcels) -> (r: Vec<u8>)
    ensures
        r@ == enc_parcels(parcels@),
{
    let ghost f = |p: ParcelModel| enc_parcel(p);
    let ghost rv = parcels@;
    let mut out: Vec<u8> = Vec::new();
    put_u64(&mut out, parcels.records.len() as u64);
    let ghost mid = out@;
    let mut i: usize = 0;
    while i < parcels.records.len()
        invariant
            i <= parcels.records@.len(),
            rv == records_view(parcels.records@),
            f == (|p: ParcelModel| enc_parcel(p)),
            out@ == mid + enc_list(rv.take(i as int), f),
        decreases parcels.records@.len() - i,
    {
        put_parcel(&mut out, &parcels.records[i]);
        proof {
            lemma_enc_list_push(rv.take(i as int), parcels.records@[i as int]@, f);
            assert(rv.take(i + 1) =~= rv.take(i as int).push(parcels.records@[i as int]@));
        }
        i = i + 1;
    }
    assert(rv.take(rv.len() as int) =~= rv);
    assert(out@ =~= enc_parcels(rv));
    out
}

// ---- decoding ----

proof fn lemma_le8_of_bytes(b0: u64, b1: u64, b2: u64, b3: u64, b4: u64, b5: u64, b6: u64, b7: u64)
    by (bit_vector)
    requires
        b0 <= 0xff && b1 <= 0xff && b2 <= 0xff && b3 <= 0xff,
        b4 <= 0xff && b5 <= 0xff && b6 <= 0xff && b7 <= 0xff,
    ensures
        ({
            let v = b0 | (b1 << 8u64) | (b2 << 16u64) | (b3 << 24u64) | (b4 << 32u64) | (b5
                << 40u64) | (b6 << 48u64) | (b7 << 56u64);
            &&& (v & 0xff) == b0
            &&& ((v >> 8u64) & 0xff) == b1
            &&& ((v >> 16u64) & 0xff) == b2
            &&& ((v >> 24u64) & 0xff) == b3
            &&& ((v >> 32u64) & 0xff) == b4
            &&& ((v >> 40u64) & 0xff) == b5
            &&& ((v >> 48u64) & 0xff) == b6
            &&& ((v >> 56u64) & 0xff) == b7
        }),
{
}

/// Two encodings that both stand at one place are equal.
proof fn lemma_prefix_same(b: Seq<u8>, pos: int, s1: Seq<u8>, s2: Seq<u8>)
    requires
        prefix_at(b, pos, s1),
        prefix_at(b, pos, s2),
        s1.len() == s2.len(),
    ensures
        s1 == s2,
{
}

fn get_u64(b: &Vec<u8>, pos: usize) -> (r: Option<u64>)
    ensures
        r matches Some(v) ==> prefix_at(b@, pos as int, le8(v)),
        forall|w: u64| #[trigger] prefix_at(b@, pos as int, le8(w)) ==> r == Some(w),
{
    if pos > b.len() || b.len() - pos < 8 {
        return None;
    }
    let b0 = b[pos] as u64;
    let b1 = b[pos + 1] as u64;
    let b2 = b[pos + 2] as u64;
    let b3 = b[pos + 3] as u64;
    let b4 = b[pos + 4] as u64;
    let b5 = b[pos + 5] as u64;
    let b6 = b[pos + 6] as u64;
    let b7 = b[pos + 7] as u64;
    let v = b0 | (b1 << 8u64) | (b2 << 16u64) | (b3 << 24u64) | (b4 << 32u64) | (b5 << 40u64) | (
    b6 << 48u64) | (b7 << 56u64);
    proof {
        lemma_le8_of_bytes(b0, b1, b2, b3, b4, b5, b6, b7);
        assert(b@.subrange(pos as int, pos + 8) =~= le8(v));
        assert forall|w: u64| #[trigger] prefix_at(b@, pos as int, le8(w)) implies Some(v) == Some(
            w,
        ) by {
            lemma_prefix_same(b@, pos as int, le8(v), le8(w));
            lemma_le8_injective(v, w);
        }
    }
    Some(v)
}

fn get_i64(b: &Vec<u8>, pos: usize) -> (r: Option<i64>)
    ensures
        r matches Some(v) ==> prefix_at(b@, pos as int, enc_i64(v)),
        forall|w: i64| #[trigger] prefix_at(b@, pos as int, enc_i64(w)) ==> r == Some(w),
{
    match get_u64(b, pos) {
        None => {
            proof {
                assert forall|w: i64| !#[trigger] prefix_at(b@, pos as int, enc_i64(w)) by {
                    if prefix_at(b@, pos as int, enc_i64(w)) {
                        assert(prefix_at(b@, pos as int, le8(w as u64)));
                    }
                }
            }
            None
        },
        Some(u) => {
            proof {
                lemma_u64_round(u);
                assert forall|w: i64| #[trigger] prefix_at(b@, pos as int, enc_i64(w)) implies Some(
                    u as i64,
                ) == Some(w) by {
                    assert(prefix_at(b@, pos as int, le8(w as u64)));
                    lemma_i64_round(w);
                }
            }
            Some(u as i64)
        },
    }
}

fn get_flag(b: &Vec<u8>, pos: usize) -> (r: Option<bool>)
    ensures
        r matches Some(x) ==> prefix_at(b@, pos as int, enc_flag(x)),
        forall|x: bool| #[trigger] prefix_at(b@, pos as int, enc_flag(x)) ==> r == Some(x),
{
    if pos >= b.len() {
        return None;
    }
    let c = b[pos];
    proof {
        assert(b@.subrange(pos as int, pos + 1) =~= seq![c]);
        assert forall|x: bool| #[trigger] prefix_at(b@, pos as int, enc_flag(x)) implies (c == 0
            || c == 1) && (x <==> c == 1) by {
            assert(enc_flag(x) =~= seq![c]);
            assert(enc_flag(x)[0] == c);
        }
    }
    if c == 0 {
        Some(false)
    } else if c == 1 {
        Some(true)
    } else {
        None
    }
}

fn get_bytes(b: &Vec<u8>, pos: usize) -> (r: Option<(Vec<u8>, usize)>)
    ensures
        r matches Some((v, end)) ==> end == pos + enc_bytes(v@).len() && prefix_at(
            b@,
            pos as int,
            enc_bytes(v@),
        ),
        forall|s: Seq<u8>| #[trigger]
            prefix_at(b@, pos as int, enc_bytes(s)) ==> (r matches Some((v, end)) && v@ == s),
{
    let n = match get_u64(b, pos) {
        None => {
            proof {
                assert forall|s: Seq<u8>| !#[trigger] prefix_at(b@, pos as int, enc_bytes(s)) by {
                    lemma_prefix_concat(b@, pos as int, le8(s.len() as u64), s);
                }
            }
            return None;
        },
        Some(n) => n,
    };
    assert(le8(n).len() == 8);
    assert(prefix_at(b@, pos as int, le8(n)));
    let blen = b.len();
    assert(pos + 8 <= blen);
    let start = pos + 8;
    if n > (b.len() - start) as u64 {
        proof {
            assert forall|s: Seq<u8>| !#[trigger] prefix_at(b@, pos as int, enc_bytes(s)) by {
                lemma_prefix_concat(b@, pos as int, le8(s.len() as u64), s);
            }
        }
        return None;
    }
    let end = start + n as usize;
    let mut v: Vec<u8> = Vec::new();
    let mut i: usize = start;
    while i < end
        invariant
            start <= i <= end <= b@.len(),
            v@ == b@.subrange(start as int, i as int),
        decreases end - i,
    {
        v.push(b[i]);
        assert(b@.subrange(start as int, i + 1) =~= b@.subrange(start as int, i as int).push(
            b@[i as int],
        ));
        i = i + 1;
    }
    proof {
        lemma_prefix_concat(b@, pos as int, le8(n), v@);
        assert forall|s: Seq<u8>| #[trigger] prefix_at(b@, pos as int, enc_bytes(s)) implies (Some(
            (v, end),
        ) matches Some((w, e)) && w@ == s) by {
            lemma_prefix_concat(b@, pos as int, le8(s.len() as u64), s);
        }
    }
    Some((v, end))
}


fn get_point(b: &Vec<u8>, pos: usize) -> (r: Option<(Point, usize)>)
    ensures
        r matches Some((v, end)) ==> end == pos + enc_point(v).len() && prefix_at(
            b@,
            pos as int,
            enc_point(v),
        ),
        forall|x: Point| #[trigger]
            prefix_at(b@, pos as int, enc_point(x)) ==> (r matches Some((v, end)) && v == x),
{
    let x = match get_i64(b, pos) {
        None => {
            proof {
                assert forall|p: Point| !#[trigger] prefix_at(b@, pos as int, enc_point(p)) by {
                    lemma_prefix_concat(b@, pos as int, enc_i64(p.x), enc_i64(p.y));
                }
            }
            return None;
        },
        Some(x) => x,
    };
    assert(enc_i64(x).len() == 8);
    let blen = b.len();
    assert(pos + 8 <= blen);
    let y = match get_i64(b, pos + 8) {
        None => {
            proof {
                assert forall|p: Point| !#[trigger] prefix_at(b@, pos as int, enc_point(p)) by {
                    lemma_prefix_concat(b@, pos as int, enc_i64(p.x), enc_i64(p.y));
                }
            }
            return None;
        },
        Some(y) => y,
    };
    let v = Point { x, y };
    proof {
        lemma_prefix_concat(b@, pos as int, enc_i64(x), enc_i64(y));
        assert forall|p: Point| #[trigger] prefix_at(b@, pos as int, enc_point(p)) implies p == v by {
            lemma_prefix_concat(b@, pos as int, enc_i64(p.x), enc_i64(p.y));
        }
    }
    Some((v, pos + 16))
}

fn get_ring(b: &Vec<u8>, pos: usize) -> (r: Option<(Vec<Point>, usize)>)
    ensures
        r matches Some((v, end)) ==> end == pos + enc_ring(v@).len() && prefix_at(
            b@,
            pos as int,
            enc_ring(v@),
        ),
        forall|x: Seq<Point>| #[trigger]
            prefix_at(b@, pos as int, enc_ring(x)) ==> (r matches Some((v, end)) && v@ == x),
{
    let ghost f = |p: Point| enc_point(p);
    let count = match get_u64(b, pos) {
        None => {
            proof {
                assert forall|x: Seq<Point>| !#[trigger] prefix_at(b@, pos as int, enc_ring(x)) by {
                    lemma_prefix_concat(b@, pos as int, le8(x.len() as u64), enc_list(x, f));
                }
            }
            return None;
        },
        Some(n) => n,
    };
    assert(le8(count).len() == 8);
    let blen = b.len();
    assert(pos + 8 <= blen);
    proof {
        lemma_list_start(b@, pos as int, count, f);
    }
    let mut cur: usize = pos + 8;
    let mut out: Vec<Point> = Vec::new();
    let mut k: u64 = 0;
    while k < count
        invariant
            f == (|p: Point| enc_point(p)),
            k <= count,
            out@.len() == k,
            cur <= b@.len(),
            prefix_at(b@, pos as int, le8(count)),
            prefix_at(b@, pos + 8, enc_list(out@, f)),
            cur == pos + 8 + enc_list(out@, f).len(),
            forall|xs: Seq<Point>|
                #[trigger] prefix_at(b@, pos as int, enc_counted(xs, f)) ==> xs.len() == count
                    && xs.take(out@.len() as int) == out@,
        decreases count - k,
    {
        match get_point(b, cur) {
            None => {
                proof {
                    assert forall|x: Point| !#[trigger] prefix_at(b@, cur as int, f(x)) by {
                        if prefix_at(b@, cur as int, f(x)) {
                            assert(prefix_at(b@, cur as int, enc_point(x)));
                        }
                    }
                    lemma_list_stuck(b@, pos as int, count, out@, f);
                    assert forall|x: Seq<Point>| !#[trigger] prefix_at(b@, pos as int, enc_ring(x)) by {
                        assert(!prefix_at(b@, pos as int, enc_counted(x, f)));
                    }
                }
                return None;
            },
            Some((p, end)) => {
                proof {
                    assert forall|x: Point| #[trigger] prefix_at(b@, cur as int, f(x)) implies x == p by {
                        assert(prefix_at(b@, cur as int, enc_point(x)));
                    }
                    lemma_list_step(b@, pos as int, count, out@, p, f);
                }
                out.push(p);
                cur = end;
                k = k + 1;
            },
        }
    }
    proof {
        lemma_list_done(b@, pos as int, count, out@, f);
        assert forall|x: Seq<Point>| #[trigger] prefix_at(b@, pos as int, enc_ring(x)) implies x
            == out@ by {
            assert(prefix_at(b@, pos as int, enc_counted(x, f)));
        }
    }
    Some((out, cur))
}


fn get_geometry(b: &Vec<u8>, pos: usize) -> (r: Option<(Vec<Vec<Point>>, usize)>)
    ensures
        r matches Some((v, end)) ==> end == pos + enc_geometry(geometry_view(v@)).len()
            && prefix_at(b@, pos as int, enc_geometry(geometry_view(v@))),
        forall|x: Seq<Seq<Point>>| #[trigger]
            prefix_at(b@, pos as int, enc_geometry(x)) ==> (r matches Some((v, end))
                && geometry_view(v@) == x),
{
    let ghost f = |r: Seq<Point>| enc_ring(r);
    let count = match get_u64(b, pos) {
        None => {
            proof {
                assert forall|x: Seq<Seq<Point>>| !#[trigger] prefix_at(
                    b@,
                    pos as int,
                    enc_geometry(x),
                ) by {
                    lemma_prefix_concat(b@, pos as int, le8(x.len() as u64), enc_list(x, f));
                }
            }
            return None;
        },
        Some(n) => n,
    };
    assert(le8(count).len() == 8);
    let blen = b.len();
    assert(pos + 8 <= blen);
    proof {
        lemma_list_start(b@, pos as int, count, f);
    }
    let mut cur: usize = pos + 8;
    let mut out: Vec<Vec<Point>> = Vec::new();
    let mut k: u64 = 0;
    while k < count
        invariant
            f == (|r: Seq<Point>| enc_ring(r)),
            k <= count,
            out@.len() == k,
            cur <= b@.len(),
            prefix_at(b@, pos as int, le8(count)),
            prefix_at(b@, pos + 8, enc_list(geometry_view(out@), f)),
            cur == pos + 8 + enc_list(geometry_view(out@), f).len(),
            forall|xs: Seq<Seq<Point>>|
                #[trigger] prefix_at(b@, pos as int, enc_counted(xs, f)) ==> xs.len() == count
                    && xs.take(out@.len() as int) == geometry_view(out@),
        decreases count - k,
    {
        let ghost done = geometry_view(out@);
        match get_ring(b, cur) {
            None => {
                proof {
                    assert forall|x: Seq<Point>| !#[trigger] prefix_at(b@, cur as int, f(x)) by {
                        if prefix_at(b@, cur as int, f(x)) {
                            assert(prefix_at(b@, cur as int, enc_ring(x)));
                        }
                    }
                    lemma_list_stuck(b@, pos as int, count, done, f);
                    assert forall|x: Seq<Seq<Point>>| !#[trigger] prefix_at(
                        b@,
                        pos as int,
                        enc_geometry(x),
                    ) by {
                        assert(!prefix_at(b@, pos as int, enc_counted(x, f)));
                    }
                }
                return None;
            },
            Some((ring, end)) => {
                proof {
                    assert forall|x: Seq<Point>| #[trigger] prefix_at(b@, cur as int, f(x)) implies x
                        == ring@ by {
                        assert(prefix_at(b@, cur as int, enc_ring(x)));
                    }
                    lemma_list_step(b@, pos as int, count, done, ring@, f);
                }
                out.push(ring);
                assert(geometry_view(out@) =~= done.push(ring@));
                cur = end;
                k = k + 1;
            },
        }
    }
    proof {
        lemma_list_done(b@, pos as int, count, geometry_view(out@), f);
        assert forall|x: Seq<Seq<Point>>| #[trigger] prefix_at(b@, pos as int, enc_geometry(x)) implies x
            == geometry_view(out@) by {
            assert(prefix_at(b@, pos as int, enc_counted(x, f)));
        }
    }
    Some((out, cur))
}

fn get_name(b: &Vec<u8>, pos: usize) -> (r: Option<(Option<Vec<u8>>, usize)>)
    ensures
        r matches Some((v, end)) ==> end == pos + enc_name(name_view(v)).len() && prefix_at(
            b@,
            pos as int,
            enc_name(name_view(v)),
        ),
        forall|x: Option<Seq<u8>>| #[trigger]
            prefix_at(b@, pos as int, enc_name(x)) ==> (r matches Some((v, end)) && name_view(v)
                == x),
{
    if pos >= b.len() {
        return None;
    }
    let tag = b[pos];
    proof {
        assert forall|x: Option<Seq<u8>>| #[trigger] prefix_at(b@, pos as int, enc_name(x)) implies (
        tag == 0 || tag == 1) && (x is None <==> tag == 0) by {
            assert(enc_name(x)[0] == b@.subrange(pos as int, pos + enc_name(x).len())[0]);
        }
    }
    if tag == 0 {
        proof {
            assert(b@.subrange(pos as int, pos + 1) =~= seq![0u8]);
        }
        Some((None, pos + 1))
    } else if tag == 1 {
        match get_bytes(b, pos + 1) {
            None => {
                proof {
                    assert forall|x: Option<Seq<u8>>| !#[trigger] prefix_at(
                        b@,
                        pos as int,
                        enc_name(x),
                    ) by {
                        if prefix_at(b@, pos as int, enc_name(x)) {
                            lemma_prefix_concat(b@, pos as int, seq![1u8], enc_bytes(x->0));
                        }
                    }
                }
                None
            },
            Some((v, end)) => {
                proof {
                    assert(b@.subrange(pos as int, pos + 1) =~= seq![1u8]);
                    lemma_prefix_concat(b@, pos as int, seq![1u8], enc_bytes(v@));
                    assert forall|x: Option<Seq<u8>>| #[trigger] prefix_at(
                        b@,
                        pos as int,
                        enc_name(x),
                    ) implies x == Some(v@) by {
                        lemma_prefix_concat(b@, pos as int, seq![1u8], enc_bytes(x->0));
                    }
                }
                Some((Some(v), end))
            },
        }
    } else {
        None
    }
}


/// The fields of a record's encoding, each where it stands.
pub open spec fn parcel_parts_at(b: Seq<u8>, pos: int, x: ParcelModel) -> bool {
    let o1 = pos + enc_bytes(x.id).len();
    let o2 = o1 + enc_name(x.name).len();
    let o3 = o2 + enc_geometry(x.geometry).len();
    &&& prefix_at(b, pos, enc_bytes(x.id))
    &&& prefix_at(b, o1, enc_name(x.name))
    &&& prefix_at(b, o2, enc_geometry(x.geometry))
    &&& prefix_at(b, o3, enc_i64(x.bounds.min_x))
    &&& prefix_at(b, o3 + 8, enc_i64(x.bounds.min_y))
    &&& prefix_at(b, o3 + 16, enc_i64(x.bounds.max_x))
    &&& prefix_at(b, o3 + 24, enc_i64(x.bounds.max_y))
    &&& prefix_at(b, o3 + 32, enc_flag(x.selected))
    &&& prefix_at(b, o3 + 33, enc_flag(x.hidden))
}

proof fn lemma_parcel_parts(b: Seq<u8>, pos: int, x: ParcelModel)
    ensures
        prefix_at(b, pos, enc_parcel(x)) <==> parcel_parts_at(b, pos, x),
        enc_parcel(x).len() == enc_bytes(x.id).len() + enc_name(x.name).len() + enc_geometry(
            x.geometry,
        ).len() + 34,
{
    let a = enc_bytes(x.id);
    let n = enc_name(x.name);
    let g = enc_geometry(x.geometry);
    let bd = enc_bounds(x.bounds);
    let fl = enc_flag(x.selected) + enc_flag(x.hidden);
    let o1 = pos + a.len();
    let o2 = o1 + n.len();
    let o3 = o2 + g.len();
    lemma_prefix_concat(b, pos, a, n + (g + (bd + fl)));
    lemma_prefix_concat(b, o1, n, g + (bd + fl));
    lemma_prefix_concat(b, o2, g, bd + fl);
    lemma_prefix_concat(b, o3, bd, fl);
    lemma_prefix_concat(
        b,
        o3,
        enc_i64(x.bounds.min_x),
        enc_i64(x.bounds.min_y) + (enc_i64(x.bounds.max_x) + enc_i64(x.bounds.max_y)),
    );
    lemma_prefix_concat(
        b,
        o3 + 8,
        enc_i64(x.bounds.min_y),
        enc_i64(x.bounds.max_x) + enc_i64(x.bounds.max_y),
    );
    lemma_prefix_concat(b, o3 + 16, enc_i64(x.bounds.max_x), enc_i64(x.bounds.max_y));
    lemma_prefix_concat(b, o3 + 32, enc_flag(x.selected), enc_flag(x.hidden));
}

#[verifier::rlimit(50)]
fn get_parcel(b: &Vec<u8>, pos: usize) -> (r: Option<(Parcel, usize)>)
    ensures
        r matches Some((v, end)) ==> end == pos + enc_parcel(v@).len() && prefix_at(
            b@,
            pos as int,
            enc_parcel(v@),
        ),
        forall|x: ParcelModel| #[trigger]
            prefix_at(b@, pos as int, enc_parcel(x)) ==> (r matches Some((v, end)) && v@ == x),
{
    let (id, o1) = match get_bytes(b, pos) {
        Some(t) => t,
        None => {
            proof {
                assert forall|x: ParcelModel| !#[trigger] prefix_at(b@, pos as int, enc_parcel(x)) by {
                    lemma_parcel_parts(b@, pos as int, x);
                }
            }
            return None;
        },
    };
    let (name, o2) = match get_name(b, o1) {
        Some(t) => t,
        None => {
            proof {
                assert forall|x: ParcelModel| !#[trigger] prefix_at(b@, pos as int, enc_parcel(x)) by {
                    lemma_parcel_parts(b@, pos as int, x);
                }
            }
            return None;
        },
    };
    let (geometry, o3) = match get_geometry(b, o2) {
        Some(t) => t,
        None => {
            proof {
                assert forall|x: ParcelModel| !#[trigger] prefix_at(b@, pos as int, enc_parcel(x)) by {
                    lemma_parcel_parts(b@, pos as int, x);
                }
            }
            return None;
        },
    };
    let blen = b.len();
    if o3 > blen || blen - o3 < 34 {
        proof {
            assert forall|x: ParcelModel| !#[trigger] prefix_at(b@, pos as int, enc_parcel(x)) by {
                lemma_parcel_parts(b@, pos as int, x);
                if prefix_at(b@, pos as int, enc_parcel(x)) {
                    assert(enc_flag(x.hidden).len() == 1);
                }
            }
        }
        return None;
    }
    let min_x = get_i64(b, o3);
    let min_y = get_i64(b, o3 + 8);
    let max_x = get_i64(b, o3 + 16);
    let max_y = get_i64(b, o3 + 24);
    let selected = get_flag(b, o3 + 32);
    let hidden = get_flag(b, o3 + 33);
    match (min_x, min_y, max_x, max_y, selected, hidden) {
        (Some(min_x), Some(min_y), Some(max_x), Some(max_y), Some(selected), Some(hidden)) => {
            let v = Parcel {
                owner: Owner { id, name },
                geometry,
                bounds: Bounds { min_x, min_y, max_x, max_y },
                selected,
                hidden,
            };
            proof {
                lemma_parcel_parts(b@, pos as int, v@);
                assert forall|x: ParcelModel| #[trigger] prefix_at(b@, pos as int, enc_parcel(x)) implies v@
                    == x by {
                    lemma_parcel_parts(b@, pos as int, x);
                }
            }
            Some((v, o3 + 34))
        },
        _ => {
            proof {
                assert forall|x: ParcelModel| !#[trigger] prefix_at(b@, pos as int, enc_parcel(x)) by {
                    lemma_parcel_parts(b@, pos as int, x);
                }
            }
            None
        },
    }
}


/// Why bytes were not accepted as a container.
#[derive(Clone, Copy, Debug, PartialEq, Eq, Structural)]
pub enum DecodeError {
    /// The bytes are not the encoding of any container: truncated, with
    /// bytes left over, or with a tag out of range.
    Malformed,
    /// The bytes encode a container that breaks its invariant: bounds that
    /// are not the envelope of their geometry, or two selected records.
    Inconsistent,
}

/// The container whose persisted form is `bytes`.
pub fn decode(bytes: &Vec<u8>) -> (r: Result<Parcels, DecodeError>)
    ensures
        r matches Ok(p) ==> bytes@ == enc_parcels(p@) && parcels_wf(p@),
        forall|m: Seq<ParcelModel>|
            parcels_wf(m) && #[trigger] enc_parcels(m) == bytes@ ==> (r matches Ok(p) && p@ == m),
        r == Err::<Parcels, DecodeError>(DecodeError::Malformed) <==> forall|m: Seq<ParcelModel>|
            #[trigger] enc_parcels(m) != bytes@,
        r == Err::<Parcels, DecodeError>(DecodeError::Inconsistent) <==> exists|m: Seq<ParcelModel>|
            #[trigger] enc_parcels(m) == bytes@ && !parcels_wf(m),
{
    let ghost f = |p: ParcelModel| enc_parcel(p);
    let ghost b = bytes@;
    proof {
        assert forall|m: Seq<ParcelModel>| #[trigger] enc_parcels(m) == b implies prefix_at(
            b,
            0,
            enc_counted(m, f),
        ) by {
            assert(b.subrange(0, b.len() as int) =~= b);
        }
    }
    let count = match get_u64(bytes, 0) {
        None => {
            proof {
                assert forall|m: Seq<ParcelModel>| #[trigger] enc_parcels(m) != b by {
                    if enc_parcels(m) == b {
                        lemma_prefix_concat(b, 0, le8(m.len() as u64), enc_list(m, f));
                    }
                }
            }
            return Err(DecodeError::Malformed);
        },
        Some(n) => n,
    };
    assert(le8(count).len() == 8);
    let blen = bytes.len();
    assert(8 <= blen);
    proof {
        lemma_list_start(b, 0, count, f);
    }
    let mut cur: usize = 8;
    let mut out: Vec<Parcel> = Vec::new();
    let mut k: u64 = 0;
    while k < count
        invariant
            f == (|p: ParcelModel| enc_parcel(p)),
            b == bytes@,
            k <= count,
            out@.len() == k,
            cur <= b.len(),
            prefix_at(b, 0, le8(count)),
            prefix_at(b, 8, enc_list(records_view(out@), f)),
            cur == 8 + enc_list(records_view(out@), f).len(),
            forall|xs: Seq<ParcelModel>|
                #[trigger] prefix_at(b, 0, enc_counted(xs, f)) ==> xs.len() == count && xs.take(
                    out@.len() as int,
                ) == records_view(out@),
            forall|m: Seq<ParcelModel>| #[trigger]
                enc_parcels(m) == b ==> prefix_at(b, 0, enc_counted(m, f)),
        decreases count - k,
    {
        let ghost done = records_view(out@);
        match get_parcel(bytes, cur) {
            None => {
                proof {
                    assert forall|x: ParcelModel| !#[trigger] prefix_at(b, cur as int, f(x)) by {
                        if prefix_at(b, cur as int, f(x)) {
                            assert(prefix_at(b, cur as int, enc_parcel(x)));
                        }
                    }
                    lemma_list_stuck(b, 0, count, done, f);
                    assert forall|m: Seq<ParcelModel>| #[trigger] enc_parcels(m) != b by {
                        if enc_parcels(m) == b {
                            assert(prefix_at(b, 0, enc_counted(m, f)));
                        }
                    }
                }
                return Err(DecodeError::Malformed);
            },
            Some((p, end)) => {
                proof {
                    assert forall|x: ParcelModel| #[trigger] prefix_at(b, cur as int, f(x)) implies x
                        == p@ by {
                        assert(prefix_at(b, cur as int, enc_parcel(x)));
                    }
                    lemma_list_step(b, 0, count, done, p@, f);
                }
                out.push(p);
                assert(records_view(out@) =~= done.push(p@));
                cur = end;
                k = k + 1;
            },
        }
    }
    let ghost rv = records_view(out@);
    proof {
        lemma_list_done(b, 0, count, rv, f);
    }
    if cur != bytes.len() {
        proof {
            assert forall|m: Seq<ParcelModel>| #[trigger] enc_parcels(m) != b by {
                if enc_parcels(m) == b {
                    assert(prefix_at(b, 0, enc_counted(m, f)));
                    assert(m == rv);
                }
            }
        }
        return Err(DecodeError::Malformed);
    }
    proof {
        assert(b.subrange(0, cur as int) == enc_parcels(rv));
        assert(b.subrange(0, cur as int) =~= b);
        assert forall|m: Seq<ParcelModel>| #[trigger] enc_parcels(m) == b implies m == rv by {
            assert(prefix_at(b, 0, enc_counted(m, f)));
        }
    }
    if !is_consistent(&out) {
        proof {
            assert(enc_parcels(rv) == b && !parcels_wf(rv));
        }
        return Err(DecodeError::Inconsistent);
    }
    Ok(Parcels { records: out })
}

/// Decoding the persisted form of a well-formed container gives it back,
/// every field and flag included.
pub proof fn lemma_round_trip(p: &Parcels, bytes: Vec<u8>, r: Result<Parcels, DecodeError>)
    requires
        p.wf(),
        call_ensures(encode, (p,), bytes),
        call_ensures(decode, (&bytes,), r),
    ensures
        r matches Ok(q) && q@ == p@,
{
}

} // verus!
