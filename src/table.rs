//! The entry table: discrete notes ordered by creation time, with identities
//! handed out in increasing order.
use vstd::prelude::*;
use crate::clock::{local_day, Stamp};
use crate::entry::NoteEntry;
use crate::format::{entries_text, entries_to_text};

verus! {

/// `a` comes before `b`: created earlier, or at the same second with a
/// smaller identity.
pub open spec fn precedes(a: NoteEntry, b: NoteEntry) -> bool {
    a.created_at.utc < b.created_at.utc || (a.created_at.utc == b.created_at.utc && a.id < b.id)
}

/// The entries created on local day `day` at or after `from` (UTC seconds).
pub open spec fn in_window(day: int, from: int) -> spec_fn(NoteEntry) -> bool {
    |e: NoteEntry| local_day(e.created_at) == day && e.created_at.utc >= from
}

/// The entries created on local day `day`.
pub open spec fn on_day(day: int) -> spec_fn(NoteEntry) -> bool {
    |e: NoteEntry| local_day(e.created_at) == day
}

/// The entries created on any other local day than `day`.
pub open spec fn off_day(day: int) -> spec_fn(NoteEntry) -> bool {
    |e: NoteEntry| local_day(e.created_at) != day
}

/// The entries that do not carry identity `id`.
pub open spec fn other_than(id: i64) -> spec_fn(NoteEntry) -> bool {
    |e: NoteEntry| e.id != id
}

/// `e` after a full-row update of entry `id` to `content` at `at`; any
/// other entry stays as it is.
pub open spec fn revised(e: NoteEntry, id: i64, content: String, at: Stamp) -> NoteEntry {
    if e.id == id {
        NoteEntry {
            id: e.id,
            content,
            created_at: e.created_at,
            updated_at: at,
            is_quick_capture: e.is_quick_capture,
        }
    } else {
        e
    }
}

/// The rows after a full-row update of entry `id`.
pub open spec fn revised_rows(rows: Seq<NoteEntry>, id: i64, content: String, at: Stamp) -> Seq<NoteEntry> {
    rows.map_values(|e: NoteEntry| revised(e, id, content, at))
}

/// The entries of the given provenance; all entries for `None`.
pub open spec fn provenance(quick: Option<bool>) -> spec_fn(NoteEntry) -> bool {
    |e: NoteEntry| quick matches Some(q) ==> e.is_quick_capture == q
}

/// The part of `s` that starts at `offset` and holds at most `limit` items.
pub open spec fn clip<A>(s: Seq<A>, offset: int, limit: int) -> Seq<A> {
    let lo = if offset < s.len() {
        offset
    } else {
        s.len() as int
    };
    let hi = if offset + limit < s.len() {
        offset + limit
    } else {
        s.len() as int
    };
    s.subrange(lo, hi)
}

pub struct EntryTable {
    pub rows: Vec<NoteEntry>,
    pub next_id: i64,
}

impl EntryTable {
    /// Rows in order, with identities positive and below `next_id` (so
    /// that, being ordered, rows of one second carry distinct identities).
    pub open spec fn rows_wf(rows: Seq<NoteEntry>, next_id: i64) -> bool {
        &&& forall|i: int| 0 <= i < rows.len() ==> (#[trigger] rows[i]).wf()
        &&& forall|i: int| 0 <= i < rows.len() ==> 0 < (#[trigger] rows[i]).id < next_id
        &&& forall|i: int, j: int|
            0 <= i < j < rows.len() ==> precedes(#[trigger] rows[i], #[trigger] rows[j])
    }

    pub open spec fn wf(&self) -> bool {
        0 < self.next_id && Self::rows_wf(self.rows@, self.next_id)
    }

    /// The aggregate of local day `day`.
    pub open spec fn day_text(&self, day: int) -> Seq<char> {
        entries_text(self.rows@.filter(on_day(day)))
    }

    /// Room for `n` more identities.
    pub open spec fn has_room(&self, n: int) -> bool {
        self.next_id + n <= i64::MAX
    }

    pub fn new() -> (r: EntryTable)
        ensures
            r.wf(),
            r.rows@ == Seq::<NoteEntry>::empty(),
            r.next_id == 1,
    {
        EntryTable { rows: Vec::new(), next_id: 1 }
    }

    /// Is there room for `n` more identities?
    pub fn room_for(&self, n: usize) -> (r: bool)
        requires
            self.wf(),
        ensures
            r == self.has_room(n as int),
    {
        n as u64 <= (i64::MAX - self.next_id) as u64
    }

    /// Is there a row with identity `id`?
    pub fn contains(&self, id: i64) -> (r: bool)
        ensures
            r == exists|i: int| 0 <= i < self.rows@.len() && self.rows@[i].id == id,
    {
        let mut i: usize = 0;
        while i < self.rows.len()
            invariant
                i <= self.rows@.len(),
                forall|k: int| 0 <= k < i ==> self.rows@[k].id != id,
            decreases self.rows@.len() - i,
        {
            if self.rows[i].id == id {
                return true;
            }
            i = i + 1;
        }
        false
    }

    /// The aggregate of the rows on local day `day` created at or after `from`.
    pub fn window_text(&self, day: i64, from: i64) -> (r: String)
        requires
            self.wf(),
        ensures
            r@ == entries_text(self.rows@.filter(in_window(day as int, from as int))),
    {
        let mut sel: Vec<NoteEntry> = Vec::new();
        let mut i: usize = 0;
        while i < self.rows.len()
            invariant
                self.wf(),
                i <= self.rows@.len(),
                sel@ == self.rows@.subrange(0, i as int).filter(in_window(day as int, from as int)),
            decreases self.rows@.len() - i,
        {
            proof {
                lemma_filter_prefix(self.rows@, i as int, in_window(day as int, from as int));
            }
            let e = &self.rows[i];
            if e.created_at.day() == day && e.created_at.utc >= from {
                sel.push(e.duplicate());
            }
            i = i + 1;
        }
        assert(self.rows@.subrange(0, self.rows@.len() as int) =~= self.rows@);
        proof {
            assert forall|k: int| 0 <= k < sel@.len() implies (#[trigger] sel@[k]).wf() by {
                self.rows@.lemma_filter_contains_rev(in_window(day as int, from as int), sel@[k]);
                assert(sel@.contains(sel@[k]));
            }
        }
        entries_to_text(&sel)
    }

    /// Is some row on local day `day` created at or after `from`?
    pub fn any_in_window(&self, day: i64, from: i64) -> (r: bool)
        requires
            self.wf(),
        ensures
            r == (self.rows@.filter(in_window(day as int, from as int)).len() > 0),
    {
        let mut found = false;
        let mut i: usize = 0;
        while i < self.rows.len()
            invariant
                self.wf(),
                i <= self.rows@.len(),
                found == (self.rows@.subrange(0, i as int).filter(in_window(day as int, from as int)).len() > 0),
            decreases self.rows@.len() - i,
        {
            proof {
                lemma_filter_prefix(self.rows@, i as int, in_window(day as int, from as int));
            }
            let e = &self.rows[i];
            if e.created_at.day() == day && e.created_at.utc >= from {
                found = true;
            }
            i = i + 1;
        }
        assert(self.rows@.subrange(0, self.rows@.len() as int) =~= self.rows@);
        found
    }

    /// The aggregate of local day `day`.
    pub fn day_text_of(&self, day: i64) -> (r: String)
        requires
            self.wf(),
        ensures
            r@ == self.day_text(day as int),
    {
        let r = self.window_text(day, i64::MIN);
        proof {
            assert forall|e: NoteEntry| e.created_at.wf() implies #[trigger] in_window(day as int, i64::MIN as int)(e)
                == on_day(day as int)(e) by {}
            lemma_filter_same(self.rows@, in_window(day as int, i64::MIN as int), on_day(day as int));
        }
        r
    }

    /// Adds a row created at `at`, after every row created at or before that
    /// second; the new row takes the next identity.
    pub fn insert(&mut self, content: String, at: Stamp, is_quick_capture: bool) -> (id: i64)
        requires
            old(self).wf(),
            old(self).has_room(1),
            at.wf(),
        ensures
            final(self).wf(),
            id == old(self).next_id,
            final(self).next_id == old(self).next_id + 1,
            exists|p: int|
                {
                    &&& 0 <= p <= old(self).rows@.len()
                    &&& final(self).rows@ == old(self).rows@.insert(
                        p,
                        (NoteEntry { id, content, created_at: at, updated_at: at, is_quick_capture }),
                    )
                    &&& forall|k: int| 0 <= k < p ==> (#[trigger] old(self).rows@[k]).created_at.utc <= at.utc
                    &&& forall|k: int|
                        p <= k < old(self).rows@.len() ==> (#[trigger] old(self).rows@[k]).created_at.utc > at.utc
                },
    {
        let id = self.next_id;
        let mut p: usize = self.rows.len();
        while p > 0 && self.rows[p - 1].created_at.utc > at.utc
            invariant
                self.wf(),
                p <= self.rows@.len(),
                forall|k: int| p <= k < self.rows@.len() ==> (#[trigger] self.rows@[k]).created_at.utc > at.utc,
            decreases p,
        {
            p = p - 1;
        }
        proof {
            assert forall|k: int| 0 <= k < p implies (#[trigger] self.rows@[k]).created_at.utc <= at.utc by {
                if k < p - 1 {
                    assert(precedes(self.rows@[k], self.rows@[p - 1]));
                }
            }
        }
        let ghost before = self.rows@;
        let e = NoteEntry::new(id, content, at, is_quick_capture);
        self.rows.insert(p, e);
        self.next_id = id + 1;
        proof {
            let rows = self.rows@;
            assert(rows == before.insert(p as int, e));
            assert forall|i: int, j: int| 0 <= i < j < rows.len() implies precedes(
                #[trigger] rows[i],
                #[trigger] rows[j],
            ) by {
                if j < p {
                    assert(precedes(before[i], before[j]));
                } else if j == p {
                    assert(before[i].created_at.utc <= at.utc);
                } else if i < p {
                    assert(precedes(before[i], before[j - 1]));
                } else if i == p {
                    assert(before[j - 1].created_at.utc > at.utc);
                } else {
                    assert(precedes(before[i - 1], before[j - 1]));
                }
            }
            assert forall|i: int| 0 <= i < rows.len() implies 0 < (#[trigger] rows[i]).id < self.next_id && rows[i].wf() by {
                if i < p {
                    assert(before[i].id < id);
                } else if i > p {
                    assert(before[i - 1].id < id);
                }
            }
        }
        id
    }

    /// Removes every row created on local day `day`.
    pub fn clear_day(&mut self, day: i64)
        requires
            old(self).wf(),
        ensures
            final(self).wf(),
            final(self).next_id == old(self).next_id,
            final(self).rows@ == old(self).rows@.filter(off_day(day as int)),
    {
        let mut kept: Vec<NoteEntry> = Vec::new();
        let mut i: usize = 0;
        while i < self.rows.len()
            invariant
                self.wf(),
                i <= self.rows@.len(),
                kept@ == self.rows@.subrange(0, i as int).filter(off_day(day as int)),
            decreases self.rows@.len() - i,
        {
            proof {
                lemma_filter_prefix(self.rows@, i as int, off_day(day as int));
            }
            let e = &self.rows[i];
            if e.created_at.day() != day {
                kept.push(e.duplicate());
            }
            i = i + 1;
        }
        assert(self.rows@.subrange(0, self.rows@.len() as int) =~= self.rows@);
        proof {
            lemma_filter_keeps_wf(self.rows@, off_day(day as int), self.next_id);
        }
        self.rows = kept;
    }

    /// Replaces the rows of local day `day` by `entries`, all created at one
    /// instant on that day and numbered on from `next_id`.
    pub fn replace_day(&mut self, day: i64, entries: &Vec<NoteEntry>)
        requires
            old(self).wf(),
            old(self).has_room(entries@.len() as int),
            Self::fresh_batch(entries@, day as int, old(self).next_id),
        ensures
            final(self).wf(),
            final(self).next_id == old(self).next_id + entries@.len(),
            final(self).rows@.filter(on_day(day as int)) == entries@,
            forall|d: int|
                d != day ==> #[trigger] final(self).rows@.filter(on_day(d)) == old(self).rows@.filter(
                    on_day(d),
                ),
    {
        let ghost orig = self.rows@;
        self.clear_day(day);
        proof {
            let kept = self.rows@;
            assert forall|i: int| 0 <= i < kept.len() implies !on_day(day as int)(#[trigger] kept[i]) by {
                orig.lemma_filter_pred(off_day(day as int), i);
            }
            lemma_filter_none(kept, on_day(day as int));
            assert(kept.filter(on_day(day as int)) =~= entries@.subrange(0, 0));
            assert forall|d: int| d != day implies #[trigger] kept.filter(on_day(d)) == orig.filter(on_day(d)) by {
                lemma_filter_nested(orig, off_day(day as int), on_day(d));
            }
        }
        let mut k: usize = 0;
        while k < entries.len()
            invariant
                self.wf(),
                k <= entries@.len(),
                Self::fresh_batch(entries@, day as int, old(self).next_id),
                self.next_id == old(self).next_id + k,
                old(self).has_room(entries@.len() as int),
                self.rows@.filter(on_day(day as int)) == entries@.subrange(0, k as int),
                forall|i: int|
                    0 <= i < self.rows@.len() && local_day((#[trigger] self.rows@[i]).created_at) == day
                        ==> self.rows@[i].created_at.utc <= entries@[0].created_at.utc,
                forall|d: int|
                    d != day ==> #[trigger] self.rows@.filter(on_day(d)) == orig.filter(on_day(d)),
            decreases entries@.len() - k,
        {
            let e = &entries[k];
            let ghost before = self.rows@;
            self.insert(e.content.clone(), e.created_at, e.is_quick_capture);
            proof {
                let ne = entries@[k as int];
                let p = choose|p: int|
                    {
                        &&& 0 <= p <= before.len()
                        &&& self.rows@ == before.insert(
                            p,
                            (NoteEntry {
                                id: ne.id,
                                content: ne.content,
                                created_at: ne.created_at,
                                updated_at: ne.created_at,
                                is_quick_capture: ne.is_quick_capture,
                            }),
                        )
                        &&& forall|j: int| 0 <= j < p ==> (#[trigger] before[j]).created_at.utc <= ne.created_at.utc
                        &&& forall|j: int|
                            p <= j < before.len() ==> (#[trigger] before[j]).created_at.utc > ne.created_at.utc
                    };
                assert(self.rows@ == before.insert(p, ne));
                let tail = before.subrange(p, before.len() as int);
                assert forall|j: int| 0 <= j < tail.len() implies !on_day(day as int)(#[trigger] tail[j]) by {
                    assert(before[p + j].created_at.utc > ne.created_at.utc);
                }
                lemma_filter_none(tail, on_day(day as int));
                lemma_filter_insert(before, p, ne, on_day(day as int));
                assert(entries@.subrange(0, k + 1) =~= entries@.subrange(0, k as int).push(ne));
                assert(before.subrange(0, p).filter(on_day(day as int)) + seq![ne] + Seq::<NoteEntry>::empty()
                    =~= before.subrange(0, p).filter(on_day(day as int)).push(ne));
                assert(before.subrange(0, p).filter(on_day(day as int)) + Seq::<NoteEntry>::empty()
                    =~= before.subrange(0, p).filter(on_day(day as int)));
                assert forall|d: int| d != day implies #[trigger] self.rows@.filter(on_day(d)) == orig.filter(on_day(d)) by {
                    lemma_filter_insert(before, p, ne, on_day(d));
                    assert(before.subrange(0, p).filter(on_day(d)) + Seq::<NoteEntry>::empty()
                        =~= before.subrange(0, p).filter(on_day(d)));
                }
                assert forall|i: int|
                    0 <= i < self.rows@.len() && local_day((#[trigger] self.rows@[i]).created_at) == day
                    implies self.rows@[i].created_at.utc <= entries@[0].created_at.utc by {
                    if i < p {
                        assert(self.rows@[i] == before[i]);
                    } else if i > p {
                        assert(self.rows@[i] == before[i - 1]);
                    }
                }
            }
            k = k + 1;
        }
        assert(entries@.subrange(0, entries@.len() as int) =~= entries@);
    }

    /// A batch of new entries for day `day`: all created at the instant of the
    /// first, on that day, never updated, with identities `first_id`,
    /// `first_id + 1`, ...
    pub open spec fn fresh_batch(entries: Seq<NoteEntry>, day: int, first_id: i64) -> bool {
        forall|i: int|
            0 <= i < entries.len() ==> {
                &&& (#[trigger] entries[i]).created_at == entries[0].created_at
                &&& entries[i].updated_at == entries[i].created_at
                &&& entries[i].created_at.wf()
                &&& local_day(entries[i].created_at) == day
                &&& entries[i].id == first_id + i
            }
    }

    /// The entries of the given provenance, newest first.
    pub open spec fn newest_first(&self, quick: Option<bool>) -> Seq<NoteEntry> {
        self.rows@.filter(provenance(quick)).reverse()
    }

    /// A page of `newest_first(quick)`: at most `limit` entries from
    /// position `offset` on, and how many entries that order holds in all.
    pub fn page(&self, limit: usize, offset: usize, quick: Option<bool>) -> (r: (Vec<NoteEntry>, usize))
        requires
            self.wf(),
        ensures
            r.0@ == clip(self.newest_first(quick), offset as int, limit as int),
            r.1 == self.newest_first(quick).len(),
    {
        let ghost p = provenance(quick);
        let n = self.rows.len();
        let mut out: Vec<NoteEntry> = Vec::new();
        let mut seen: usize = 0;
        let mut i: usize = n;
        assert(self.rows@.subrange(n as int, n as int).filter(p) =~= Seq::<NoteEntry>::empty());
        assert(Seq::<NoteEntry>::empty().reverse() =~= Seq::<NoteEntry>::empty());
        while i > 0
            invariant
                n == self.rows@.len(),
                i <= n,
                p == provenance(quick),
                seen == self.rows@.subrange(i as int, n as int).filter(p).reverse().len(),
                seen <= n - i,
                out@ == clip(self.rows@.subrange(i as int, n as int).filter(p).reverse(), offset as int, limit as int),
            decreases i,
        {
            let e = &self.rows[i - 1];
            proof {
                lemma_newest_step(self.rows@, i as int, p);
                lemma_clip_push(
                    self.rows@.subrange(i as int, n as int).filter(p).reverse(),
                    self.rows@[i - 1],
                    offset as int,
                    limit as int,
                );
            }
            let keep = match quick {
                Some(q) => e.is_quick_capture == q,
                None => true,
            };
            if keep {
                if seen >= offset && seen - offset < limit {
                    out.push(e.duplicate());
                }
                seen = seen + 1;
            }
            i = i - 1;
        }
        assert(self.rows@.subrange(0, n as int) =~= self.rows@);
        (out, seen)
    }

    /// A full-row update: every row with identity `id` takes `content` and
    /// is marked updated at `at`.
    pub fn update(&mut self, id: i64, content: &String, at: Stamp)
        requires
            old(self).wf(),
            at.wf(),
        ensures
            final(self).wf(),
            final(self).next_id == old(self).next_id,
            final(self).rows@ == revised_rows(old(self).rows@, id, *content, at),
    {
        let ghost orig = self.rows@;
        let mut out: Vec<NoteEntry> = Vec::new();
        let mut i: usize = 0;
        while i < self.rows.len()
            invariant
                self.wf(),
                self.rows@ == orig,
                at.wf(),
                i <= self.rows@.len(),
                out@ == self.rows@.subrange(0, i as int).map_values(|e: NoteEntry| revised(e, id, *content, at)),
            decreases self.rows@.len() - i,
        {
            let e = &self.rows[i];
            let r = if e.id == id {
                NoteEntry {
                    id: e.id,
                    content: content.clone(),
                    created_at: e.created_at,
                    updated_at: at,
                    is_quick_capture: e.is_quick_capture,
                }
            } else {
                e.duplicate()
            };
            out.push(r);
            assert(out@ =~= self.rows@.subrange(0, i + 1).map_values(|e: NoteEntry| revised(e, id, *content, at)));
            i = i + 1;
        }
        let ghost m = revised_rows(orig, id, *content, at);
        assert(orig.subrange(0, orig.len() as int) =~= orig);
        assert(Self::rows_wf(m, self.next_id)) by {
            assert forall|i: int, j: int| 0 <= i < j < m.len() implies precedes(#[trigger] m[i], #[trigger] m[j]) by {
                assert(precedes(orig[i], orig[j]));
            }
            assert forall|i: int| 0 <= i < m.len() implies (#[trigger] m[i]).wf() && 0 < m[i].id < self.next_id by {
                assert(orig[i].wf());
            }
        }
        self.rows = out;
    }

    /// Removes the row with identity `id`, if there is one.
    pub fn remove(&mut self, id: i64)
        requires
            old(self).wf(),
        ensures
            final(self).wf(),
            final(self).next_id == old(self).next_id,
            final(self).rows@ == old(self).rows@.filter(other_than(id)),
    {
        let mut kept: Vec<NoteEntry> = Vec::new();
        let mut i: usize = 0;
        while i < self.rows.len()
            invariant
                self.wf(),
                i <= self.rows@.len(),
                kept@ == self.rows@.subrange(0, i as int).filter(other_than(id)),
            decreases self.rows@.len() - i,
        {
            proof {
                lemma_filter_prefix(self.rows@, i as int, other_than(id));
            }
            let e = &self.rows[i];
            if e.id != id {
                kept.push(e.duplicate());
            }
            i = i + 1;
        }
        assert(self.rows@.subrange(0, self.rows@.len() as int) =~= self.rows@);
        proof {
            lemma_filter_keeps_wf(self.rows@, other_than(id), self.next_id);
        }
        self.rows = kept;
    }
}

/// Filtering a sequence with one element inserted at `p`.
pub proof fn lemma_filter_insert<A>(s: Seq<A>, p: int, e: A, f: spec_fn(A) -> bool)
    requires
        0 <= p <= s.len(),
    ensures
        s.insert(p, e).filter(f) == s.subrange(0, p).filter(f) + (if f(e) {
            seq![e]
        } else {
            Seq::<A>::empty()
        }) + s.subrange(p, s.len() as int).filter(f),
        s.filter(f) == s.subrange(0, p).filter(f) + s.subrange(p, s.len() as int).filter(f),
{
    let a = s.subrange(0, p);
    let b = s.subrange(p, s.len() as int);
    assert(s.insert(p, e) =~= a.push(e) + b);
    assert(s =~= a + b);
    Seq::filter_distributes_over_add(a.push(e), b, f);
    Seq::filter_distributes_over_add(a, b, f);
    a.lemma_filter_push(e, f);
    if f(e) {
        assert(a.filter(f).push(e) =~= a.filter(f) + seq![e]);
    } else {
        assert(a.filter(f) =~= a.filter(f) + Seq::<A>::empty());
    }
}

/// Nothing passes a filter that no element meets.
pub proof fn lemma_filter_none<A>(s: Seq<A>, f: spec_fn(A) -> bool)
    requires
        forall|i: int| 0 <= i < s.len() ==> !f(#[trigger] s[i]),
    ensures
        s.filter(f) == Seq::<A>::empty(),
    decreases s.len(),
{
    if s.len() > 0 {
        lemma_filter_none(s.drop_last(), f);
        assert(!f(s[s.len() - 1]));
        lemma_filter_last(s, f);
    } else {
        assert(s.filter(f) =~= Seq::<A>::empty());
    }
}

/// Taking one more entry, from the front, into a newest-first order adds it
/// at the end.
pub proof fn lemma_newest_step<A>(s: Seq<A>, i: int, p: spec_fn(A) -> bool)
    requires
        0 < i <= s.len(),
    ensures
        s.subrange(i - 1, s.len() as int).filter(p).reverse() == (if p(s[i - 1]) {
            s.subrange(i, s.len() as int).filter(p).reverse().push(s[i - 1])
        } else {
            s.subrange(i, s.len() as int).filter(p).reverse()
        }),
        s.subrange(i, s.len() as int).filter(p).reverse().len() <= s.len() - i,
{
    let x = s[i - 1];
    let t = s.subrange(i, s.len() as int);
    let f = t.filter(p);
    assert(s.subrange(i - 1, s.len() as int) =~= seq![x] + t);
    t.lemma_filter_prepend(x, p);
    t.lemma_filter_len(p);
    if p(x) {
        assert((seq![x] + f).reverse() =~= f.reverse().push(x));
    } else {
        assert(Seq::<A>::empty() + f =~= f);
    }
    if f.len() == 0 {
        assert(f.reverse() =~= Seq::<A>::empty());
    }
}

/// `clip` of a sequence with one more item at the end.
pub proof fn lemma_clip_push<A>(g: Seq<A>, x: A, offset: int, limit: int)
    requires
        0 <= offset,
        0 <= limit,
    ensures
        clip(g.push(x), offset, limit) == (if offset <= g.len() && g.len() - offset < limit {
            clip(g, offset, limit).push(x)
        } else {
            clip(g, offset, limit)
        }),
{
    if offset <= g.len() && g.len() - offset < limit {
        assert(clip(g.push(x), offset, limit) =~= clip(g, offset, limit).push(x));
    } else {
        assert(clip(g.push(x), offset, limit) =~= clip(g, offset, limit));
    }
}

/// One step of `filter`, at the end of a sequence.
pub proof fn lemma_filter_last<A>(s: Seq<A>, p: spec_fn(A) -> bool)
    requires
        s.len() > 0,
    ensures
        s.filter(p) == (if p(s.last()) {
            s.drop_last().filter(p).push(s.last())
        } else {
            s.drop_last().filter(p)
        }),
{
    assert(s =~= s.drop_last().push(s.last()));
    s.drop_last().lemma_filter_push(s.last(), p);
}

/// One step of `filter` over the prefixes of a sequence.
pub proof fn lemma_filter_prefix<A>(s: Seq<A>, i: int, p: spec_fn(A) -> bool)
    requires
        0 <= i < s.len(),
    ensures
        s.subrange(0, i + 1).filter(p) == (if p(s[i]) {
            s.subrange(0, i).filter(p).push(s[i])
        } else {
            s.subrange(0, i).filter(p)
        }),
{
    let t = s.subrange(0, i + 1);
    assert(t.drop_last() =~= s.subrange(0, i));
    assert(t.last() == s[i]);
    lemma_filter_last(t, p);
}

/// Filtering by `f` after `g` where `g` holds of everything that `f` holds of.
pub proof fn lemma_filter_nested<A>(s: Seq<A>, g: spec_fn(A) -> bool, f: spec_fn(A) -> bool)
    requires
        forall|x: A| #[trigger] f(x) ==> g(x),
    ensures
        s.filter(g).filter(f) == s.filter(f),
    decreases s.len(),
{
    if s.len() > 0 {
        lemma_filter_nested(s.drop_last(), g, f);
        lemma_filter_last(s, g);
        lemma_filter_last(s, f);
        if g(s.last()) {
            lemma_filter_last(s.filter(g), f);
            assert(s.filter(g).drop_last() =~= s.drop_last().filter(g));
        }
    }
}

/// Two predicates that agree on well-formed entries filter a sequence of
/// well-formed entries alike.
pub proof fn lemma_filter_same(s: Seq<NoteEntry>, p: spec_fn(NoteEntry) -> bool, q: spec_fn(NoteEntry) -> bool)
    requires
        forall|i: int| 0 <= i < s.len() ==> (#[trigger] s[i]).wf(),
        forall|e: NoteEntry| e.created_at.wf() ==> #[trigger] p(e) == q(e),
    ensures
        s.filter(p) == s.filter(q),
    decreases s.len(),
{
    if s.len() > 0 {
        lemma_filter_same(s.drop_last(), p, q);
        assert(s.last() == s[s.len() - 1]);
        lemma_filter_last(s, p);
        lemma_filter_last(s, q);
    }
}

/// A filtered table keeps its order and its identities.
pub proof fn lemma_filter_keeps_wf(s: Seq<NoteEntry>, p: spec_fn(NoteEntry) -> bool, next_id: i64)
    requires
        EntryTable::rows_wf(s, next_id),
    ensures
        EntryTable::rows_wf(s.filter(p), next_id),
    decreases s.len(),
{
    if s.len() > 0 {
        let t = s.drop_last();
        assert(EntryTable::rows_wf(t, next_id)) by {
            assert forall|i: int, j: int| 0 <= i < j < t.len() implies precedes(#[trigger] t[i], #[trigger] t[j]) by {
                assert(precedes(s[i], s[j]));
            }
        }
        lemma_filter_keeps_wf(t, p, next_id);
        lemma_filter_last(s, p);
        let f = t.filter(p);
        if p(s.last()) {
            let g = f.push(s.last());
            assert forall|i: int| 0 <= i < f.len() implies precedes(#[trigger] f[i], s.last()) by {
                t.lemma_filter_contains_rev(p, f[i]);
                assert(f.contains(f[i]));
                let k = choose|k: int| 0 <= k < t.len() && t[k] == f[i];
                assert(precedes(s[k], s[s.len() - 1]));
            }
            assert forall|i: int, j: int| 0 <= i < j < g.len() implies precedes(#[trigger] g[i], #[trigger] g[j]) by {
                if j == g.len() - 1 {
                    assert(g[j] == s.last());
                    assert(g[i] == f[i]);
                } else {
                    assert(g[i] == f[i] && g[j] == f[j]);
                }
            }
            assert forall|i: int| 0 <= i < g.len() implies (#[trigger] g[i]).wf() && 0 < g[i].id < next_id by {
                if i < f.len() {
                    assert(g[i] == f[i]);
                } else {
                    assert(s.last() == s[s.len() - 1]);
                }
            }
        }
    }
}

} // verus!
