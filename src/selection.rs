//! The selection engine: hover highlights at most one parcel, click toggles
//! the visibility of every parcel under the pointer.
//!
//! The spatial query itself belongs to the renderer's indexed layer: each
//! event arrives here as the list of candidate indices that it found, in
//! any order. A hover picks the lowest of them.
use vstd::prelude::*;
use crate::model::{ParcelModel, Parcels, at_most_one_selected, parcels_wf};

verus! {

/// `m` is the lowest of the candidates.
pub open spec fn is_least(c: Seq<usize>, m: usize) -> bool {
    c.contains(m) && forall|k: int| 0 <= k < c.len() ==> m <= #[trigger] c[k]
}

/// The parcel that a hover picks: the lowest candidate index, if any.
pub open spec fn pick(c: Seq<usize>) -> Option<int> {
    if c.len() > 0 {
        Some((choose|m: usize| is_least(c, m)) as int)
    } else {
        None
    }
}

proof fn lemma_pick_least(c: Seq<usize>, m: usize)
    requires
        is_least(c, m),
    ensures
        pick(c) == Some(m as int),
{
    let m2 = choose|m2: usize| is_least(c, m2);
    assert(is_least(c, m2));
    let j = choose|j: int| 0 <= j < c.len() && c[j] == m2;
    let j2 = choose|j: int| 0 <= j < c.len() && c[j] == m;
    assert(m <= c[j] && m2 <= c[j2]);
}

/// The lowest candidate index, if any.
fn least_candidate(c: &Vec<usize>) -> (r: Option<usize>)
    ensures
        r matches Some(m) ==> is_least(c@, m) && pick(c@) == Some(m as int),
        r is None <==> pick(c@) is None,
{
    if c.len() == 0 {
        return None;
    }
    let mut m: usize = c[0];
    let mut i: usize = 1;
    assert(c@.take(1)[0] == m);
    while i < c.len()
        invariant
            1 <= i <= c@.len(),
            c@.take(i as int).contains(m),
            forall|k: int| 0 <= k < i ==> m <= #[trigger] c@[k],
        decreases c@.len() - i,
    {
        let x = c[i];
        let ghost old_m = m;
        if x < m {
            m = x;
        }
        proof {
            if x < old_m {
                assert(c@.take(i + 1)[i as int] == x);
            } else {
                let j = choose|j: int| 0 <= j < i && c@.take(i as int)[j] == old_m;
                assert(c@.take(i + 1)[j] == m);
            }
        }
        i = i + 1;
    }
    assert(c@.take(c@.len() as int) =~= c@);
    proof {
        lemma_pick_least(c@, m);
    }
    Some(m)
}

/// The records after a hover with candidates `c`: exactly the picked
/// parcel is selected, nothing else changes.
pub open spec fn hover_next(rs: Seq<ParcelModel>, c: Seq<usize>) -> Seq<ParcelModel> {
    Seq::new(
        rs.len(),
        |i: int|
            ParcelModel {
                id: rs[i].id,
                name: rs[i].name,
                geometry: rs[i].geometry,
                bounds: rs[i].bounds,
                selected: pick(c) == Some(i),
                hidden: rs[i].hidden,
            },
    )
}

/// The records after a click with candidates `c`: every candidate has its
/// `hidden` flag flipped, nothing else changes.
pub open spec fn click_next(rs: Seq<ParcelModel>, c: Seq<usize>) -> Seq<ParcelModel> {
    Seq::new(
        rs.len(),
        |i: int|
            ParcelModel {
                id: rs[i].id,
                name: rs[i].name,
                geometry: rs[i].geometry,
                bounds: rs[i].bounds,
                selected: rs[i].selected,
                hidden: rs[i].hidden != c.contains(i as usize),
            },
    )
}

/// Every candidate names a record.
pub open spec fn candidates_valid(rs: Seq<ParcelModel>, c: Seq<usize>) -> bool {
    forall|k: int| 0 <= k < c.len() ==> (#[trigger] c[k]) < rs.len()
}


/// The records after a sequence of hovers, in order.
pub open spec fn hover_all(rs: Seq<ParcelModel>, events: Seq<Seq<usize>>) -> Seq<ParcelModel>
    decreases events.len(),
{
    if events.len() == 0 {
        rs
    } else {
        hover_all(hover_next(rs, events[0]), events.drop_first())
    }
}

/// After any sequence of hovers, at most one record is selected.
pub proof fn lemma_hovers_keep_one_selected(rs: Seq<ParcelModel>, events: Seq<Seq<usize>>)
    requires
        at_most_one_selected(rs),
    ensures
        at_most_one_selected(hover_all(rs, events)),
    decreases events.len(),
{
    if events.len() > 0 {
        let next = hover_next(rs, events[0]);
        assert(at_most_one_selected(next));
        lemma_hovers_keep_one_selected(next, events.drop_first());
    }
}

/// A second hover with the same candidates changes nothing, so it owes no
/// redraw.
pub proof fn lemma_hover_idempotent(rs: Seq<ParcelModel>, c: Seq<usize>)
    ensures
        hover_next(hover_next(rs, c), c) == hover_next(rs, c),
{
    assert(hover_next(hover_next(rs, c), c) =~= hover_next(rs, c));
}

/// A hover that finds no candidate leaves no record selected.
pub proof fn lemma_hover_nothing_deselects(rs: Seq<ParcelModel>, c: Seq<usize>)
    requires
        c.len() == 0,
    ensures
        forall|i: int|
            0 <= i < hover_next(rs, c).len() ==> !(#[trigger] hover_next(rs, c)[i]).selected,
{
}

/// A click flips `hidden` on exactly the candidates, and a second click on
/// the same candidates restores every record.
pub proof fn lemma_click_toggles(rs: Seq<ParcelModel>, c: Seq<usize>)
    ensures
        click_next(rs, c).len() == rs.len(),
        forall|i: int|
            0 <= i < rs.len() ==> (#[trigger] click_next(rs, c)[i]).hidden == (rs[i].hidden
                != c.contains(i as usize)),
        forall|i: int|
            0 <= i < rs.len() ==> (#[trigger] click_next(rs, c)[i]).selected == rs[i].selected,
        click_next(click_next(rs, c), c) == rs,
{
    assert(click_next(click_next(rs, c), c) =~= rs);
}

/// An interactive session over one container. It owns the records and the
/// index of the one that is selected.
pub struct Viewer {
    parcels: Parcels,
    selected: Option<usize>,
}

impl View for Viewer {
    type V = Seq<ParcelModel>;

    closed spec fn view(&self) -> Seq<ParcelModel> {
        self.parcels@
    }
}

impl Viewer {
    /// The container's invariant holds and the engine's index names the
    /// selected record, if there is one.
    pub closed spec fn wf(&self) -> bool {
        &&& parcels_wf(self.parcels@)
        &&& match self.selected {
            Some(s) => s < self.parcels@.len() && self.parcels@[s as int].selected,
            None => forall|i: int|
                0 <= i < self.parcels@.len() ==> !(#[trigger] self.parcels@[i]).selected,
        }
    }

    /// The engine's own record of the selected index.
    pub closed spec fn selected_index(&self) -> Option<usize> {
        self.selected
    }

    /// The session's invariant includes the container's.
    pub proof fn lemma_wf(&self)
        requires
            self.wf(),
        ensures
            parcels_wf(self@),
    {
    }

    /// The records of the session.
    pub fn parcels(&self) -> (r: &Parcels)
        ensures
            r@ == self@,
    {
        &self.parcels
    }

    /// Starts a session over `parcels`, with the record that is already
    /// selected, if any, as the hovered one.
    pub fn new(parcels: Parcels) -> (r: Viewer)
        requires
            parcels.wf(),
        ensures
            r.wf(),
            r@ == parcels@,
    {
        let mut selected: Option<usize> = None;
        let mut i: usize = 0;
        while i < parcels.records.len()
            invariant
                i <= parcels@.len(),
                parcels@.len() == parcels.records@.len(),
                match selected {
                    Some(s) => s < parcels@.len() && parcels@[s as int].selected,
                    None => forall|k: int| 0 <= k < i ==> !(#[trigger] parcels@[k]).selected,
                },
            decreases parcels@.len() - i,
        {
            if parcels.records[i].selected {
                selected = Some(i);
            }
            i = i + 1;
        }
        Viewer { parcels, selected }
    }

    /// The index of the selected record, if any.
    pub fn selected(&self) -> (r: Option<usize>)
        requires
            self.wf(),
        ensures
            r == self.selected_index(),
            r matches Some(s) ==> s < self@.len() && self@[s as int].selected,
            r is None ==> forall|i: int| 0 <= i < self@.len() ==> !(#[trigger] self@[i]).selected,
    {
        self.selected
    }

    /// A pointer move whose spatial query found `candidates`. Selects the
    /// first candidate and deselects every other record; returns whether
    /// the records changed, which is when a redraw is owed.
    pub fn on_hover(&mut self, candidates: &Vec<usize>) -> (redraw: bool)
        requires
            old(self).wf(),
            candidates_valid(old(self)@, candidates@),
        ensures
            final(self).wf(),
            final(self)@ == hover_next(old(self)@, candidates@),
            redraw == (final(self)@ != old(self)@),
    {
        let ghost rs = self.parcels@;
        let new_selected = least_candidate(candidates);
        proof {
            if let Some(m) = new_selected {
                let j = choose|j: int| 0 <= j < candidates@.len() && candidates@[j] == m;
                assert(m < rs.len());
            }
        }
        let same = match (new_selected, self.selected) {
            (Some(a), Some(b)) => a == b,
            (None, None) => true,
            _ => false,
        };
        if same {
            proof {
                assert(self.parcels@ =~= hover_next(rs, candidates@)) by {
                    assert forall|i: int| 0 <= i < rs.len() implies rs[i].selected == (pick(
                        candidates@,
                    ) == Some(i)) by {
                        if rs[i].selected && pick(candidates@) != Some(i) {
                            assert(rs[self.selected->0 as int].selected);
                        }
                    }
                }
            }
            return false;
        }
        if let Some(s) = self.selected {
            self.parcels.records[s].selected = false;
        }
        if let Some(n) = new_selected {
            self.parcels.records[n].selected = true;
        }
        self.selected = new_selected;
        proof {
            let next = hover_next(rs, candidates@);
            assert forall|i: int| 0 <= i < rs.len() implies #[trigger] self.parcels@[i] == next[i] by {
                if rs[i].selected && pick(candidates@) != Some(i) {
                    assert(rs[old(self).selected->0 as int].selected);
                }
            }
            assert(self.parcels@ =~= next);
            match old(self).selected {
                Some(s) => {
                    if pick(candidates@) != Some(s as int) {
                        assert(self.parcels@[s as int] != rs[s as int]);
                    }
                },
                None => {
                    let n = new_selected->0;
                    assert(self.parcels@[n as int] != rs[n as int]);
                },
            }
        }
        true
    }

    /// A click whose spatial query found `candidates`. Flips `hidden` on
    /// each candidate record, once however often it is listed; returns
    /// whether the records changed, which is when a redraw is owed.
    pub fn on_click(&mut self, candidates: &Vec<usize>) -> (redraw: bool)
        requires
            old(self).wf(),
            candidates_valid(old(self)@, candidates@),
        ensures
            final(self).wf(),
            final(self).selected_index() == old(self).selected_index(),
            final(self)@ == click_next(old(self)@, candidates@),
            redraw == (final(self)@ != old(self)@),
            redraw == (candidates@.len() > 0),
    {
        let ghost rs = self.parcels@;
        let n = self.parcels.records.len();
        let mut hit: Vec<bool> = Vec::new();
        let mut i: usize = 0;
        while i < n
            invariant
                i <= n,
                hit@.len() == i,
                forall|k: int| 0 <= k < i ==> !(#[trigger] hit@[k]),
            decreases n - i,
        {
            hit.push(false);
            i = i + 1;
        }
        let mut k: usize = 0;
        while k < candidates.len()
            invariant
                k <= candidates@.len(),
                n == rs.len(),
                hit@.len() == n,
                candidates_valid(rs, candidates@),
                forall|j: int|
                    0 <= j < n ==> (#[trigger] hit@[j] <==> candidates@.subrange(
                        0,
                        k as int,
                    ).contains(j as usize)),
            decreases candidates@.len() - k,
        {
            let c = candidates[k];
            hit.set(c, true);
            proof {
                assert forall|j: int| 0 <= j < n implies (#[trigger] hit@[j]
                    <==> candidates@.subrange(0, k + 1).contains(j as usize)) by {
                    let prev = candidates@.subrange(0, k as int);
                    let cur = candidates@.subrange(0, k + 1);
                    if prev.contains(j as usize) {
                        let m = choose|m: int| 0 <= m < prev.len() && prev[m] == j as usize;
                        assert(cur[m] == j as usize);
                    }
                    if cur.contains(j as usize) && j as usize != c {
                        let m = choose|m: int| 0 <= m < cur.len() && cur[m] == j as usize;
                        assert(prev[m] == j as usize);
                    }
                    if j as usize == c {
                        assert(cur[k as int] == c);
                    }
                }
            }
            k = k + 1;
        }
        assert(candidates@.subrange(0, candidates@.len() as int) =~= candidates@);
        let mut i: usize = 0;
        while i < n
            invariant
                n == rs.len(),
                hit@.len() == n,
                self.parcels@.len() == n,
                self.parcels.records@.len() == n,
                self.selected == old(self).selected,
                forall|j: int| 0 <= j < n ==> (#[trigger] hit@[j] <==> candidates@.contains(j as usize)),
                forall|j: int|
                    0 <= j < i ==> #[trigger] self.parcels@[j] == click_next(rs, candidates@)[j],
                forall|j: int| i <= j < n ==> #[trigger] self.parcels@[j] == rs[j],
            decreases n - i,
        {
            let ghost before = self.parcels.records@;
            let ghost before_view = self.parcels@;
            assert(self.parcels@[i as int] == rs[i as int]);
            assert(self.parcels@[i as int] == before[i as int]@);
            if hit[i] {
                let h = self.parcels.records[i].hidden;
                self.parcels.records[i].hidden = !h;
            }
            proof {
                assert forall|j: int| 0 <= j < n && j != i implies #[trigger] self.parcels@[j]
                    == before_view[j] by {
                    assert(self.parcels.records@[j] == before[j]);
                }
                assert(hit@[i as int] <==> candidates@.contains(i));
                assert(self.parcels@[i as int] == click_next(rs, candidates@)[i as int]);
            }
            i = i + 1;
        }
        proof {
            let next = click_next(rs, candidates@);
            assert(self.parcels@ =~= next);
            assert forall|j: int| 0 <= j < n implies #[trigger] next[j].selected == rs[j].selected by {}
            if candidates@.len() > 0 {
                let c = candidates@[0];
                assert(candidates@.contains(c));
                assert(next[c as int] != rs[c as int]);
            } else {
                assert(next =~= rs);
            }
        }
        candidates.len() > 0
    }
}

} // verus!
