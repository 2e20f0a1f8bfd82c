//! Notes and the fixed-capacity container that stores the ones currently
//! playing.
//!
//! The container is a doubly-linked list threaded through a slot store with
//! per-slot identity stamps: eviction of the oldest note, lookup by identity
//! and removal are all constant-time, and a reused slot can never alias a
//! stale identity to a new note.

use vstd::prelude::*;

use crate::{CAP_MAX, TIME_SAT};

verus! {

/// One sounding note: a frequency/amplitude pair with its own clock and its
/// own oscillator state.
pub struct Note<St> {
    /// The frequency of the note, in micro-hertz.
    pub freq: u64,
    /// The amplitude of the note, scaled by [`crate::UNIT`].
    pub amp: i64,
    /// The time since the note started or was released, depending on `held`,
    /// in microseconds.
    pub time: i64,
    /// Whether the note is still being held.
    pub held: bool,
    /// The state of the oscillator.
    pub state: St,
}

/// The lifecycle phase of a note, together with the time in microseconds
/// since that phase began.
#[derive(Clone, Copy, PartialEq, Eq, Structural, Debug)]
pub enum NoteState {
    Holding(i64),
    Released(i64),
}

impl<St> Note<St> {
    /// The note's envelope state `t_offset` microseconds from now.
    pub open spec fn spec_held_state(self, t_offset: i64) -> NoteState {
        if self.held {
            NoteState::Holding((self.time + t_offset) as i64)
        } else {
            NoteState::Released((self.time + t_offset) as i64)
        }
    }

    /// The note's envelope state `t_offset` microseconds from now.
    pub fn held_state(&self, t_offset: i64) -> (r: NoteState)
        requires
            i64::MIN <= self.time + t_offset <= i64::MAX,
        ensures
            r == self.spec_held_state(t_offset),
    {
        if self.held {
            NoteState::Holding(self.time + t_offset)
        } else {
            NoteState::Released(self.time + t_offset)
        }
    }

    /// A note as the [`crate::Synth`] keeps it: clock within the saturation
    /// bound and amplitude a gain in `[0, 1]`.
    pub open spec fn bounds_ok(self) -> bool {
        &&& 0 <= self.time <= TIME_SAT
        &&& 0 <= self.amp <= crate::UNIT
        &&& self.freq <= crate::FREQ_MAX
    }
}

/// A generation-safe handle to a note: the slot it lives in, tagged with a
/// stamp that is never reused, so that a handle to an evicted note can never
/// resolve to a note that later reuses the slot.
#[derive(Clone, Copy, PartialEq, Eq, Structural, Debug)]
pub struct NoteId {
    idx: usize,
    stamp: u64,
}

struct ListEntry<St> {
    note: Note<St>,
    prev: Option<usize>,
    next: Option<usize>,
}

struct Slot<St> {
    entry: Option<ListEntry<St>>,
    stamp: u64,
}

/// A fixed-capacity container for the currently playing notes.
///
/// Notes live in a slot store for constant-time lookup and removal by
/// [`NoteId`]; a doubly-linked list threaded through the slots keeps strict
/// insertion order, so the chronologically oldest note can be evicted in
/// constant time when the container is full.  A free list keeps insertion
/// itself constant-time.
pub struct NoteList<St> {
    slots: Vec<Slot<St>>,
    free: Vec<usize>,
    head: Option<usize>,
    tail: Option<usize>,
    next_stamp: u64,
    order: Ghost<Seq<usize>>,
    issued: Ghost<Set<NoteId>>,
}

impl<St> NoteList<St> {
    /// The fixed maximum number of notes, set at construction.
    pub closed spec fn capacity(self) -> int {
        self.slots.len() as int
    }

    /// The number of notes currently stored.
    pub closed spec fn n_live(self) -> int {
        self.order@.len() as int
    }

    closed spec fn occ(self, s: int) -> bool {
        0 <= s < self.slots.len() && self.slots[s].entry is Some
    }

    closed spec fn entry_at(self, s: int) -> ListEntry<St> {
        self.slots[s].entry->Some_0
    }

    /// The identity that storage slot `s` currently answers to.
    pub closed spec fn id_at(self, s: int) -> NoteId {
        NoteId { idx: s as usize, stamp: self.slots[s].stamp }
    }

    /// The identities of the stored notes, oldest first.
    pub closed spec fn ids(self) -> Seq<NoteId> {
        Seq::new(self.order@.len(), |i: int| self.id_at(self.order@[i] as int))
    }

    /// Whether `id` currently resolves to a note.
    pub closed spec fn live(self, id: NoteId) -> bool {
        self.occ(id.idx as int) && self.slots[id.idx as int].stamp == id.stamp
    }

    /// The note `id` resolves to.
    pub closed spec fn note_of(self, id: NoteId) -> Note<St> {
        self.entry_at(id.idx as int).note
    }

    /// Every identity this container has ever handed out.
    pub closed spec fn issued_ids(self) -> Set<NoteId> {
        self.issued@
    }

    /// How many identities this container has issued so far.
    pub closed spec fn issued_count(self) -> int {
        self.next_stamp as int
    }

    /// Whether a fresh identity stamp is still available.  The container
    /// issues at most `u64::MAX` identities over its whole lifetime.
    pub open spec fn can_issue(self) -> bool {
        self.issued_count() < u64::MAX
    }

    closed spec fn link_ok(self, i: int) -> bool {
        let s = self.order@[i] as int;
        &&& self.occ(s)
        &&& self.entry_at(s).prev == if i == 0 {
            None::<usize>
        } else {
            Some(self.order@[i - 1])
        }
        &&& self.entry_at(s).next == if i == self.order@.len() - 1 {
            None::<usize>
        } else {
            Some(self.order@[i + 1])
        }
    }

    /// The container's internal invariant.
    pub closed spec fn wf(self) -> bool {
        &&& 1 <= self.slots.len() <= CAP_MAX
        &&& self.order@.len() + self.free@.len() == self.slots.len()
        &&& forall|i: int| 0 <= i < self.order@.len() ==> #[trigger] self.link_ok(i)
        &&& forall|i: int, j: int|
            0 <= i < j < self.order@.len() ==> self.order@[i] != self.order@[j]
        &&& self.head == if self.order@.len() == 0 {
            None::<usize>
        } else {
            Some(self.order@[0])
        }
        &&& self.tail == if self.order@.len() == 0 {
            None::<usize>
        } else {
            Some(self.order@[self.order@.len() - 1])
        }
        &&& forall|i: int|
            0 <= i < self.free@.len() ==> (#[trigger] self.free@[i]) < self.slots.len()
                && !self.occ(self.free@[i] as int)
        &&& forall|i: int, j: int| 0 <= i < j < self.free@.len() ==> self.free@[i] != self.free@[j]
        &&& forall|s: int|
            0 <= s < self.slots.len() && #[trigger] self.occ(s) ==> self.order@.contains(
                s as usize,
            )
        &&& forall|s: int|
            0 <= s < self.slots.len() && #[trigger] self.occ(s) ==> self.slots[s].stamp
                < self.next_stamp
        &&& forall|s: int|
            0 <= s < self.slots.len() && #[trigger] self.occ(s) ==> self.issued@.contains(
                self.id_at(s),
            )
        &&& forall|id: NoteId| self.issued@.contains(id) ==> id.stamp < self.next_stamp
    }

    /// The identities of distinct positions are distinct.
    pub proof fn lemma_ids_distinct(self)
        requires
            self.wf(),
        ensures
            forall|i: int, j: int| 0 <= i < j < self.ids().len() ==> self.ids()[i] != self.ids()[j],
    {
        assert forall|i: int, j: int|
            0 <= i < j < self.ids().len() implies self.ids()[i] != self.ids()[j] by {
            assert(self.link_ok(i));
            assert(self.link_ok(j));
            assert(self.order@[i] != self.order@[j]);
        }
    }

    /// An identity is live exactly when it is among the stored identities.
    pub proof fn lemma_live_iff_ids_contains(self, id: NoteId)
        requires
            self.wf(),
        ensures
            self.live(id) <==> self.ids().contains(id),
    {
        if self.live(id) {
            assert(self.occ(id.idx as int));
            assert(self.order@.contains(id.idx));
            let i = choose|i: int| 0 <= i < self.order@.len() && self.order@[i] == id.idx;
            assert(self.ids()[i] == id);
        }
        if self.ids().contains(id) {
            let i = choose|i: int| 0 <= i < self.ids().len() && self.ids()[i] == id;
            assert(self.link_ok(i));
        }
    }

    /// An identity that was never issued does not resolve to a note.
    pub proof fn lemma_unissued_not_live(self, id: NoteId)
        requires
            self.wf(),
            !self.issued_ids().contains(id),
        ensures
            !self.live(id),
    {
        if self.live(id) {
            assert(self.occ(id.idx as int));
            assert(self.issued@.contains(self.id_at(id.idx as int)));
        }
    }

    /// The container never stores more notes than its capacity.
    pub proof fn lemma_capacity_invariant(self)
        requires
            self.wf(),
        ensures
            self.n_live() <= self.capacity(),
            self.capacity() <= CAP_MAX,
            self.ids().len() == self.n_live(),
    {
    }

    /// A new container with room for exactly `cap` notes.
    pub fn new(cap: usize) -> (r: Self)
        requires
            1 <= cap <= CAP_MAX,
        ensures
            r.wf(),
            r.capacity() == cap,
            r.n_live() == 0,
            r.ids() == Seq::<NoteId>::empty(),
            r.issued_ids() == Set::<NoteId>::empty(),
            r.issued_count() == 0,
            forall|id: NoteId| !r.live(id),
    {
        let mut slots: Vec<Slot<St>> = Vec::with_capacity(cap);
        let mut free: Vec<usize> = Vec::with_capacity(cap);
        let mut i: usize = 0;
        while i < cap
            invariant
                i <= cap,
                slots.len() == i,
                free.len() == i,
                forall|j: int| 0 <= j < i ==> !(#[trigger] slots[j].entry is Some),
                forall|j: int| 0 <= j < i ==> #[trigger] free[j] == j,
            decreases cap - i,
        {
            slots.push(Slot { entry: None, stamp: 0 });
            free.push(i);
            i += 1;
        }
        let r = NoteList {
            slots,
            free,
            head: None,
            tail: None,
            next_stamp: 0,
            order: Ghost(Seq::empty()),
            issued: Ghost(Set::empty()),
        };
        proof {
            assert(r.ids() =~= Seq::<NoteId>::empty());
            assert forall|id: NoteId| !r.live(id) by {
                if 0 <= id.idx < r.slots.len() {
                    assert(!(r.slots[id.idx as int].entry is Some));
                }
            }
        }
        r
    }

    /// Whether a fresh identity stamp is still available (it is, until
    /// `u64::MAX` identities have been issued).
    pub fn has_fresh_ids(&self) -> (r: bool)
        ensures
            r == self.can_issue(),
    {
        self.next_stamp < u64::MAX
    }

    /// The number of notes currently stored.
    pub fn len(&self) -> (r: usize)
        requires
            self.wf(),
        ensures
            r == self.n_live(),
    {
        self.slots.len() - self.free.len()
    }

    /// Unlink and drop the note in occupied slot `s`, freeing the slot.
    fn remove_at(&mut self, s: usize)
        requires
            old(self).wf(),
            old(self).occ(s as int),
        ensures
            final(self).wf(),
            final(self).capacity() == old(self).capacity(),
            final(self).issued_ids() == old(self).issued_ids(),
            final(self).issued_count() == old(self).issued_count(),
            final(self).ids() == old(self).ids().remove(
                old(self).ids().index_of(old(self).id_at(s as int)),
            ),
            final(self).n_live() == old(self).n_live() - 1,
            !final(self).live(old(self).id_at(s as int)),
            forall|id: NoteId|
                id != old(self).id_at(s as int) ==> (final(self).live(id) <==> old(self).live(
                    id,
                )),
            forall|id: NoteId|
                id != old(self).id_at(s as int) && old(self).live(id) ==> final(self).note_of(id)
                    == old(self).note_of(id),
    {
        proof {
            assert(old(self).order@.contains(s));
        }
        let ghost k = choose|i: int|
            0 <= i < old(self).order@.len() && old(self).order@[i] == s;
        proof {
            assert(old(self).link_ok(k));
        }
        let (prev, next) = match &self.slots[s].entry {
            Some(e) => (e.prev, e.next),
            None => (None, None),
        };
        {
            let sl = &mut self.slots[s];
            sl.entry = None;
        }
        match prev {
            Some(p) => {
                proof {
                    assert(old(self).link_ok(k - 1));
                }
                let sl = &mut self.slots[p];
                match &mut sl.entry {
                    Some(e) => {
                        e.next = next;
                    },
                    None => {
                        proof {
                            assert(false);
                        }
                    },
                }
            },
            None => {
                self.head = next;
            },
        }
        match next {
            Some(nx) => {
                proof {
                    assert(old(self).link_ok(k + 1));
                }
                let sl = &mut self.slots[nx];
                match &mut sl.entry {
                    Some(e) => {
                        e.prev = prev;
                    },
                    None => {
                        proof {
                            assert(false);
                        }
                    },
                }
            },
            None => {
                self.tail = prev;
            },
        }
        self.free.push(s);
        proof {
            self.order@ = old(self).order@.remove(k);
        }
        proof {
            let o = old(self);
            let oo = o.order@;
            let no = self.order@;
            oo.remove_ensures(k);
            o.ids().remove_ensures(k);
            assert forall|t: int|
                0 <= t < self.slots.len() && t != s implies (self.occ(t) <==> o.occ(t))
                    && self.slots[t].stamp == o.slots[t].stamp && (o.occ(t)
                    ==> self.entry_at(t).note == o.entry_at(t).note) by {}
            assert(self.slots[s as int].stamp == o.slots[s as int].stamp);
            assert forall|i: int, j: int| 0 <= i < j < no.len() implies no[i] != no[j] by {
                let i0 = if i < k { i } else { i + 1 };
                let j0 = if j < k { j } else { j + 1 };
                assert(no[i] == oo[i0] && no[j] == oo[j0]);
            }
            // the three possibly-rewritten slots are distinct
            assert forall|i: int| 0 <= i < no.len() implies #[trigger] self.link_ok(i) by {
                if i < k - 1 {
                    assert(o.link_ok(i));
                    assert(oo[i] != s && (k >= 1 ==> oo[i] != oo[k - 1]));
                    assert(k + 1 < oo.len() ==> oo[i] != oo[k + 1]);
                } else if i == k - 1 {
                    assert(o.link_ok(i));
                    assert(oo[i] != s);
                    assert(k + 1 < oo.len() ==> oo[i] != oo[k + 1]);
                } else if i == k {
                    assert(o.link_ok(i + 1));
                    assert(oo[i + 1] != s && (k >= 1 ==> oo[i + 1] != oo[k - 1]));
                } else {
                    assert(o.link_ok(i + 1));
                    assert(oo[i + 1] != s && (k >= 1 ==> oo[i + 1] != oo[k - 1]));
                    assert(k + 1 < oo.len() ==> oo[i + 1] != oo[k + 1]);
                }
            }
            assert forall|s2: int|
                0 <= s2 < self.slots.len() && #[trigger] self.occ(s2) implies self.order@.contains(
                s2 as usize,
            ) by {
                assert(o.occ(s2));
                assert(oo.contains(s2 as usize));
                let j = choose|j: int| 0 <= j < oo.len() && oo[j] == s2 as usize;
                assert(j != k);
                if j < k {
                    assert(no[j] == s2 as usize);
                } else {
                    assert(no[j - 1] == s2 as usize);
                }
            }
            assert forall|i: int|
                0 <= i < self.free@.len() implies (#[trigger] self.free@[i]) < self.slots.len()
                    && !self.occ(self.free@[i] as int) by {
                if i < o.free@.len() {
                    assert(o.free@[i] == self.free@[i]);
                }
            }
            assert forall|i: int, j: int|
                0 <= i < j < self.free@.len() implies self.free@[i] != self.free@[j] by {
                if j < o.free@.len() {
                    assert(o.free@[i] == self.free@[i] && o.free@[j] == self.free@[j]);
                } else {
                    assert(self.free@[j] == s && self.free@[i] == o.free@[i]);
                    assert(!o.occ(o.free@[i] as int) && o.occ(s as int));
                }
            }
            if no.len() == 0 {
                assert(k == 0 && oo.len() == 1);
            } else {
                assert(self.head == Some(no[0])) by {
                    if k == 0 {
                        assert(o.link_ok(0));
                        assert(no[0] == oo[1]);
                    } else {
                        assert(no[0] == oo[0]);
                    }
                }
                assert(self.tail == Some(no[no.len() - 1])) by {
                    if k == oo.len() - 1 {
                        assert(o.link_ok(k));
                        assert(no[no.len() - 1] == oo[oo.len() - 2]);
                    } else {
                        assert(no[no.len() - 1] == oo[oo.len() - 1]);
                    }
                }
            }
            assert(self.wf());
            // the stored identities are the old ones with position k removed
            assert forall|i: int|
                0 <= i < no.len() implies self.ids()[i] == o.ids().remove(k)[i] by {
                let t = no[i] as int;
                assert(self.link_ok(i));
                assert(self.occ(t));
                assert(self.slots[t].stamp == o.slots[t].stamp);
                if i < k {
                    assert(no[i] == oo[i]);
                    assert(o.ids().remove(k)[i] == o.ids()[i]);
                } else {
                    assert(no[i] == oo[i + 1]);
                    assert(o.ids().remove(k)[i] == o.ids()[i + 1]);
                }
            }
            assert(self.ids() =~= o.ids().remove(k));
            o.lemma_ids_distinct();
            lemma_index_of_distinct(o.ids(), k);
            assert(o.ids()[k] == o.id_at(s as int));
            assert forall|id: NoteId|
                id != o.id_at(s as int) implies (self.live(id) <==> o.live(id)) by {
                if id.idx as int == s as int {
                    assert(!self.occ(s as int));
                    if o.live(id) {
                        assert(id == o.id_at(s as int));
                    }
                }
            }
        }
    }

    /// Store a new note, evicting the oldest one first if the container is
    /// full, and return a fresh identity for it.
    pub fn add(&mut self, note: Note<St>) -> (r: NoteId)
        requires
            old(self).wf(),
            old(self).can_issue(),
        ensures
            final(self).wf(),
            final(self).capacity() == old(self).capacity(),
            !old(self).issued_ids().contains(r),
            final(self).issued_ids() == old(self).issued_ids().insert(r),
            final(self).issued_count() == old(self).issued_count() + 1,
            final(self).live(r),
            final(self).note_of(r) == note,
            final(self).ids() == (if old(self).n_live() == old(self).capacity() {
                old(self).ids().drop_first()
            } else {
                old(self).ids()
            }).push(r),
            final(self).n_live() == if old(self).n_live() == old(self).capacity() {
                old(self).n_live()
            } else {
                old(self).n_live() + 1
            },
            forall|id: NoteId|
                id != r ==> (final(self).live(id) <==> old(self).live(id) && !(old(self).n_live()
                    == old(self).capacity() && id == old(self).ids()[0])),
            forall|id: NoteId|
                id != r && final(self).live(id) ==> final(self).note_of(id) == old(self).note_of(
                    id,
                ),
    {
        let ghost o0 = *old(self);
        if self.free.len() == 0 {
            let h = match self.head {
                Some(h) => h,
                None => {
                    proof {
                        assert(false);
                    }
                    0
                },
            };
            proof {
                assert(old(self).link_ok(0));
                old(self).lemma_ids_distinct();
                lemma_index_of_distinct(old(self).ids(), 0);
            }
            self.remove_at(h);
            proof {
                assert(self.ids() =~= o0.ids().drop_first());
            }
        }
        let ghost mid = *self;
        let s = match self.free.pop() {
            Some(s) => s,
            None => {
                proof {
                    assert(false);
                }
                0
            },
        };
        let stamp = self.next_stamp;
        self.next_stamp = stamp + 1;
        let prev_tail = self.tail;
        {
            let sl = &mut self.slots[s];
            sl.entry = Some(ListEntry { note, prev: prev_tail, next: None });
            sl.stamp = stamp;
        }
        match prev_tail {
            Some(t) => {
                proof {
                    assert(mid.link_ok(mid.order@.len() - 1));
                    assert(mid.order@[mid.order@.len() - 1] != s);
                }
                let sl = &mut self.slots[t];
                match &mut sl.entry {
                    Some(e) => {
                        e.next = Some(s);
                    },
                    None => {
                        proof {
                            assert(false);
                        }
                    },
                }
            },
            None => {
                self.head = Some(s);
            },
        }
        self.tail = Some(s);
        let r = NoteId { idx: s, stamp };
        proof {
            self.order@ = mid.order@.push(s);
            self.issued@ = mid.issued@.insert(r);
        }
        proof {
            let no = self.order@;
            assert(!mid.occ(s as int));
            assert forall|t: int|
                0 <= t < self.slots.len() && t != s implies (self.occ(t) <==> mid.occ(t))
                    && self.slots[t].stamp == mid.slots[t].stamp && (mid.occ(t)
                    ==> self.entry_at(t).note == mid.entry_at(t).note) by {}
            assert forall|i: int| 0 <= i < no.len() implies #[trigger] self.link_ok(i) by {
                if i < no.len() - 2 {
                    assert(mid.link_ok(i));
                    assert(mid.order@[i] != s);
                    assert(mid.order@[i] != mid.order@[mid.order@.len() - 1]);
                } else if i == no.len() - 2 {
                    assert(mid.link_ok(i));
                    assert(mid.order@[i] != s);
                } else {
                    assert(self.entry_at(s as int).prev == prev_tail);
                }
            }
            assert forall|i: int, j: int|
                0 <= i < j < no.len() implies no[i] != no[j] by {
                if j == no.len() - 1 {
                    if i < mid.order@.len() {
                        assert(mid.link_ok(i));
                        assert(mid.occ(no[i] as int));
                    }
                }
            }
            assert forall|s2: int|
                0 <= s2 < self.slots.len() && #[trigger] self.occ(s2) implies self.order@.contains(
                s2 as usize,
            ) by {
                if s2 == s {
                    assert(no[no.len() - 1] == s as usize);
                } else {
                    assert(mid.occ(s2));
                    assert(mid.order@.contains(s2 as usize));
                    let j = choose|j: int| 0 <= j < mid.order@.len() && mid.order@[j] == s2 as usize;
                    assert(no[j] == s2 as usize);
                }
            }
            assert forall|i: int|
                0 <= i < self.free@.len() implies (#[trigger] self.free@[i]) < self.slots.len()
                    && !self.occ(self.free@[i] as int) by {
                assert(mid.free@[i] == self.free@[i]);
                assert(mid.free@[i] != mid.free@[mid.free@.len() - 1]);
            }
            assert forall|s2: int|
                0 <= s2 < self.slots.len() && #[trigger] self.occ(s2) implies self.slots[s2].stamp
                    < self.next_stamp by {
                if s2 != s {
                    assert(mid.occ(s2));
                }
            }
            assert(self.head == Some(no[0])) by {
                if mid.order@.len() == 0 {
                    assert(no[0] == s);
                } else {
                    assert(no[0] == mid.order@[0]);
                }
            }
            assert forall|s2: int|
                0 <= s2 < self.slots.len() && #[trigger] self.occ(s2) implies self.issued@.contains(
                self.id_at(s2),
            ) by {
                if s2 == s as int {
                    assert(self.id_at(s2) == r);
                } else {
                    assert(mid.occ(s2));
                    assert(self.id_at(s2) == mid.id_at(s2));
                }
            }
            assert(self.wf());
            assert forall|i: int|
                0 <= i < no.len() implies self.ids()[i] == mid.ids().push(r)[i] by {
                if i < no.len() - 1 {
                    assert(no[i] == mid.order@[i]);
                    assert(mid.link_ok(i));
                    assert(self.slots[no[i] as int].stamp == mid.slots[no[i] as int].stamp);
                } else {
                    assert(no[i] == s);
                    assert(self.id_at(s as int) == r);
                }
            }
            assert(self.ids() =~= mid.ids().push(r));
            if o0.n_live() == o0.capacity() {
                assert(self.ids() == o0.ids().drop_first().push(r));
            } else {
                assert(mid == o0);
                assert(self.ids() == o0.ids().push(r));
            }
            assert(!mid.issued@.contains(r)) by {
                if mid.issued@.contains(r) {
                    assert(r.stamp < mid.next_stamp);
                }
            }
            assert(!o0.issued_ids().contains(r));
            assert forall|id: NoteId|
                id != r implies (self.live(id) <==> mid.live(id)) by {
                if id.idx == s {
                    if mid.live(id) {
                        assert(mid.occ(s as int));
                    }
                    if self.live(id) {
                        assert(id.stamp == stamp);
                    }
                }
            }
            if o0.n_live() == o0.capacity() {
                let ev = o0.id_at(o0.order@[0] as int);
                assert(o0.link_ok(0));
                assert(ev == o0.ids()[0]);
                assert(ev.stamp < o0.next_stamp);
                assert(ev != r);
                assert(!mid.live(ev));
                assert forall|id: NoteId|
                    id != r implies (self.live(id) <==> (o0.live(id) && !(o0.n_live()
                        == o0.capacity() && id == o0.ids()[0]))) by {
                    if id != ev {
                        assert(mid.live(id) <==> o0.live(id));
                    }
                }
            }
            assert forall|id: NoteId|
                id != r && self.live(id) implies self.note_of(id) == o0.note_of(id) by {
                assert(mid.live(id));
                assert(mid.occ(id.idx as int));
                assert(id.idx != s);
            }
        }
        r
    }

    /// Remove the note `id` resolves to, if any; removing an absent identity
    /// is a no-op.
    pub fn remove(&mut self, id: NoteId)
        requires
            old(self).wf(),
        ensures
            final(self).wf(),
            final(self).capacity() == old(self).capacity(),
            final(self).issued_ids() == old(self).issued_ids(),
            final(self).issued_count() == old(self).issued_count(),
            !final(self).live(id),
            old(self).live(id) ==> final(self).ids() == old(self).ids().remove(
                old(self).ids().index_of(id),
            ),
            !old(self).live(id) ==> *final(self) == *old(self),
            forall|id2: NoteId| id2 != id ==> (final(self).live(id2) <==> old(self).live(id2)),
            forall|id2: NoteId|
                id2 != id && old(self).live(id2) ==> final(self).note_of(id2) == old(
                    self,
                ).note_of(id2),
    {
        if id.idx >= self.slots.len() {
            return ;
        }
        let hit = {
            let sl = &self.slots[id.idx];
            sl.stamp == id.stamp && sl.entry.is_some()
        };
        if hit {
            proof {
                assert(old(self).id_at(id.idx as int) == id);
            }
            self.remove_at(id.idx);
        }
    }

    /// Look up the note `id` resolves to.  An evicted or removed identity
    /// yields `None`, never another note's data.
    pub fn get_mut(&mut self, id: NoteId) -> (r: Option<&mut Note<St>>)
        requires
            old(self).wf(),
        ensures
            r is Some <==> old(self).live(id),
            r is None ==> *final(self) == *old(self),
            r matches Some(n) ==> *n == old(self).note_of(id),
            r matches Some(n) ==> Self::note_write_rel(*old(self), *final(self), id, *final(n)),
    {
        if id.idx >= self.slots.len() {
            return None;
        }
        let hit = {
            let sl = &self.slots[id.idx];
            sl.stamp == id.stamp && sl.entry.is_some()
        };
        if !hit {
            return None;
        }
        let sl = slot_mut(&mut self.slots, id.idx);
        Some(entry_note_mut(sl))
    }

    /// How a container looks after the note `id` resolves to was overwritten
    /// with `n`, everything else untouched: the relation a caller of
    /// [`Self::get_mut`] or [`Self::notes_mut`] holds when its borrow ends.
    pub closed spec fn note_write_rel(pre: Self, post: Self, id: NoteId, n: Note<St>) -> bool {
        &&& pre.live(id)
        &&& post.slots@ == pre.slots@.update(
            id.idx as int,
            Slot {
                entry: Some(
                    ListEntry { note: n, ..pre.slots@[id.idx as int].entry->Some_0 },
                ),
                ..pre.slots@[id.idx as int]
            },
        )
        &&& post.free == pre.free
        &&& post.head == pre.head
        &&& post.tail == pre.tail
        &&& post.next_stamp == pre.next_stamp
        &&& post.order == pre.order
        &&& post.issued == pre.issued
    }

    /// What a note write through [`Self::get_mut`] or [`Self::notes_mut`]
    /// preserves: the container stays well-formed, and every identity but the
    /// written one keeps its note.
    pub proof fn lemma_note_write(pre: Self, post: Self, id: NoteId, n: Note<St>)
        requires
            pre.wf(),
            Self::note_write_rel(pre, post, id, n),
        ensures
            post.wf(),
            post.ids() == pre.ids(),
            post.capacity() == pre.capacity(),
            post.n_live() == pre.n_live(),
            post.issued_ids() == pre.issued_ids(),
            post.issued_count() == pre.issued_count(),
            post.live(id),
            post.note_of(id) == n,
            forall|id2: NoteId| post.live(id2) <==> pre.live(id2),
            forall|id2: NoteId|
                id2 != id && pre.live(id2) ==> post.note_of(id2) == pre.note_of(id2),
    {
        let w = id.idx as int;
        assert(pre.occ(w));
        assert forall|t: int|
            0 <= t < post.slots.len() implies (post.occ(t) <==> pre.occ(t)) && post.slots[t].stamp
                == pre.slots[t].stamp && (pre.occ(t) ==> post.entry_at(t).prev == pre.entry_at(
                t,
            ).prev && post.entry_at(t).next == pre.entry_at(t).next) && (pre.occ(t) && t != w
                ==> post.entry_at(t).note == pre.entry_at(t).note) by {}
        assert forall|i: int| 0 <= i < post.order@.len() implies #[trigger] post.link_ok(i) by {
            assert(pre.link_ok(i));
        }
        assert forall|i: int|
            0 <= i < post.free@.len() implies (#[trigger] post.free@[i]) < post.slots.len()
                && !post.occ(post.free@[i] as int) by {
            assert(pre.free@[i] == post.free@[i]);
        }
        assert forall|s2: int|
            0 <= s2 < post.slots.len() && #[trigger] post.occ(s2) implies post.order@.contains(
            s2 as usize,
        ) && post.slots[s2].stamp < post.next_stamp && post.issued@.contains(
            post.id_at(s2),
        ) by {
            assert(pre.occ(s2));
            assert(post.id_at(s2) == pre.id_at(s2));
        }
        assert(post.wf());
        assert forall|i: int| 0 <= i < post.ids().len() implies post.ids()[i] == pre.ids()[i] by {
            assert(pre.link_ok(i));
            assert(post.id_at(post.order@[i] as int) == pre.id_at(pre.order@[i] as int));
        }
        assert(post.ids() =~= pre.ids());
        assert forall|id2: NoteId| post.live(id2) <==> pre.live(id2) by {}
    }

    /// A read-only view of the note in storage slot `s`, if it holds one.
    fn note_at(&self, s: usize) -> (r: Option<&Note<St>>)
        ensures
            match r {
                Some(n) => self.occ(s as int) && *n == self.entry_at(s as int).note,
                None => !self.occ(s as int),
            },
    {
        if s < self.slots.len() {
            match &self.slots[s].entry {
                Some(e) => Some(&e.note),
                None => None,
            }
        } else {
            None
        }
    }

    /// The identity of the oldest stored note, if any.
    pub fn first(&self) -> (r: Option<NoteId>)
        requires
            self.wf(),
        ensures
            r == if self.n_live() == 0 {
                None::<NoteId>
            } else {
                Some(self.ids()[0])
            },
    {
        match self.head {
            Some(s) => {
                proof {
                    assert(self.link_ok(0));
                }
                Some(NoteId { idx: s, stamp: self.slots[s].stamp })
            },
            None => None,
        }
    }

    /// The identity of the note stored right after `id`, in insertion order.
    pub fn next_of(&self, id: NoteId) -> (r: Option<NoteId>)
        requires
            self.wf(),
            self.live(id),
        ensures
            ({
                let k = self.ids().index_of(id);
                r == if k + 1 < self.n_live() {
                    Some(self.ids()[k + 1])
                } else {
                    None::<NoteId>
                }
            }),
    {
        proof {
            assert(self.occ(id.idx as int));
            assert(self.order@.contains(id.idx));
        }
        let ghost k = choose|i: int| 0 <= i < self.order@.len() && self.order@[i] == id.idx;
        proof {
            assert(self.link_ok(k));
            assert(self.ids()[k] == id);
            self.lemma_ids_distinct();
            lemma_index_of_distinct(self.ids(), k);
        }
        let nxt = match &self.slots[id.idx].entry {
            Some(e) => e.next,
            None => None,
        };
        match nxt {
            Some(s2) => {
                proof {
                    assert(self.link_ok(k + 1));
                }
                Some(NoteId { idx: s2, stamp: self.slots[s2].stamp })
            },
            None => None,
        }
    }

    /// The note in storage slot `k`, if that slot currently holds one.
    /// Stepping `k` over `0..capacity` visits every live note exactly once,
    /// in storage order rather than insertion order.
    pub fn notes_mut(&mut self, k: usize) -> (r: Option<&mut Note<St>>)
        requires
            old(self).wf(),
        ensures
            r is Some <==> old(self).live(old(self).id_at(k as int)),
            r is None ==> *final(self) == *old(self),
            r matches Some(n) ==> *n == old(self).note_of(old(self).id_at(k as int)),
            r matches Some(n) ==> Self::note_write_rel(
                *old(self),
                *final(self),
                old(self).id_at(k as int),
                *final(n),
            ),
    {
        if k >= self.slots.len() {
            return None;
        }
        let occupied = self.slots[k].entry.is_some();
        if !occupied {
            return None;
        }
        let sl = slot_mut(&mut self.slots, k);
        Some(entry_note_mut(sl))
    }

    /// Visit every stored note in insertion order exactly once and remove
    /// each note for which `f` answers false.  Each note is judged before
    /// any removal of this pass affects it.
    pub fn filter<F: Fn(&Note<St>) -> bool>(&mut self, f: F)
        requires
            old(self).wf(),
            forall|n: &Note<St>| #[trigger] f.requires((n,)),
        ensures
            final(self).wf(),
            final(self).capacity() == old(self).capacity(),
            final(self).issued_ids() == old(self).issued_ids(),
            final(self).issued_count() == old(self).issued_count(),
            exists|keep: Seq<bool>|
                {
                    &&& keep.len() == old(self).n_live()
                    &&& (forall|i: int|
                        0 <= i < keep.len() ==> call_ensures(
                            f,
                            (&old(self).note_of(old(self).ids()[i]),),
                            keep[i],
                        ))
                    &&& final(self).ids() == filter_seq(old(self).ids(), keep)
                },
            forall|id: NoteId|
                final(self).live(id) ==> old(self).live(id) && final(self).note_of(id) == old(
                    self,
                ).note_of(id),
    {
        let ghost orig = *old(self);
        let mut cur = self.first();
        let ghost mut j: int = 0;
        let ghost mut keep: Seq<bool> = Seq::empty();
        proof {
            assert(orig.ids().take(0) =~= Seq::<NoteId>::empty());
            assert(orig.ids().skip(0) =~= orig.ids());
            assert(self.ids() =~= filter_seq(orig.ids().take(0), keep) + orig.ids().skip(0));
        }
        loop
            invariant
                self.wf(),
                orig.wf(),
                self.capacity() == orig.capacity(),
                self.issued_ids() == orig.issued_ids(),
                self.issued_count() == orig.issued_count(),
                0 <= j <= orig.n_live(),
                keep.len() == j,
                forall|i: int|
                    0 <= i < j ==> call_ensures(f, (&orig.note_of(orig.ids()[i]),), keep[i]),
                self.ids() =~= filter_seq(orig.ids().take(j), keep) + orig.ids().skip(j),
                forall|id: NoteId|
                    self.live(id) ==> orig.live(id) && self.note_of(id) == orig.note_of(id),
                cur == if j < orig.n_live() {
                    Some(orig.ids()[j])
                } else {
                    None::<NoteId>
                },
                forall|n: &Note<St>| #[trigger] f.requires((n,)),
            ensures
                self.wf(),
                self.capacity() == orig.capacity(),
                self.issued_ids() == orig.issued_ids(),
                self.issued_count() == orig.issued_count(),
                j == orig.n_live(),
                keep.len() == j,
                forall|i: int|
                    0 <= i < j ==> call_ensures(f, (&orig.note_of(orig.ids()[i]),), keep[i]),
                self.ids() =~= filter_seq(orig.ids().take(j), keep) + orig.ids().skip(j),
                forall|id: NoteId|
                    self.live(id) ==> orig.live(id) && self.note_of(id) == orig.note_of(id),
            decreases orig.n_live() - j,
        {
            match cur {
                None => {
                    break ;
                },
                Some(id) => {
                    let ghost pre = *self;
                    let ghost pfx = filter_seq(orig.ids().take(j), keep);
                    let ghost pos = pfx.len() as int;
                    proof {
                        assert(self.ids()[pos] == orig.ids()[j]);
                        self.lemma_live_iff_ids_contains(id);
                        assert(self.live(id));
                        assert(self.note_of(id) == orig.note_of(id));
                        self.lemma_ids_distinct();
                        lemma_index_of_distinct(self.ids(), pos);
                    }
                    let keep_it = match self.note_at(id.idx) {
                        Some(n) => f(n),
                        None => {
                            proof {
                                assert(false);
                            }
                            true
                        },
                    };
                    let nxt = self.next_of(id);
                    if !keep_it {
                        proof {
                            assert(self.id_at(id.idx as int) == id);
                        }
                        self.remove_at(id.idx);
                        proof {
                            pre.ids().remove_ensures(pos);
                            assert(self.ids() =~= pfx + orig.ids().skip(j + 1)) by {
                                assert(pre.ids() =~= pfx + orig.ids().skip(j));
                                assert forall|i: int|
                                    0 <= i < self.ids().len() implies self.ids()[i] == (pfx
                                    + orig.ids().skip(j + 1))[i] by {
                                    if i < pos {
                                        assert(self.ids()[i] == pre.ids()[i]);
                                    } else {
                                        assert(self.ids()[i] == pre.ids()[i + 1]);
                                        assert(pre.ids()[i + 1] == orig.ids().skip(j)[i + 1 - pos]);
                                        assert(orig.ids().skip(j)[i + 1 - pos] == orig.ids()[j + (i
                                            + 1 - pos)]);
                                    }
                                }
                            }
                        }
                    } else {
                        proof {
                            assert(self.ids() =~= pfx.push(id) + orig.ids().skip(j + 1)) by {
                                assert forall|i: int|
                                    0 <= i < self.ids().len() implies self.ids()[i] == (pfx.push(
                                    id,
                                ) + orig.ids().skip(j + 1))[i] by {
                                    if i > pos {
                                        assert(self.ids()[i] == orig.ids().skip(j)[i - pos]);
                                        assert(orig.ids().skip(j)[i - pos] == orig.ids()[j + (i
                                            - pos)]);
                                    }
                                }
                            }
                        }
                    }
                    proof {
                        let keep2 = keep.push(keep_it);
                        let take2 = orig.ids().take(j + 1);
                        assert(take2.drop_last() =~= orig.ids().take(j));
                        assert(keep2.drop_last() =~= keep);
                        assert(take2.last() == orig.ids()[j]);
                        assert(filter_seq(take2, keep2) == if keep_it {
                            pfx.push(id)
                        } else {
                            pfx
                        });
                        keep = keep2;
                        j = j + 1;
                    }
                    cur = nxt;
                },
            }
        }
        proof {
            assert(orig.ids().take(orig.n_live() as int) =~= orig.ids());
            assert(orig.ids().skip(orig.n_live() as int) =~= Seq::<NoteId>::empty());
            assert(self.ids() =~= filter_seq(orig.ids(), keep));
            assert(keep.len() == orig.n_live() && (forall|i: int|
                0 <= i < keep.len() ==> call_ensures(f, (&orig.note_of(orig.ids()[i]),), keep[i]))
                && self.ids() == filter_seq(orig.ids(), keep));
        }
    }
}

/// The subsequence of `s` at the positions where `keep` holds true.
pub open spec fn filter_seq<A>(s: Seq<A>, keep: Seq<bool>) -> Seq<A>
    decreases s.len(),
{
    if s.len() == 0 || keep.len() == 0 {
        Seq::empty()
    } else {
        let rest = filter_seq(s.drop_last(), keep.drop_last());
        if keep.last() {
            rest.push(s.last())
        } else {
            rest
        }
    }
}

/// A mutable borrow of one element of a vector.
fn slot_mut<St>(v: &mut Vec<Slot<St>>, i: usize) -> (r: &mut Slot<St>)
    requires
        i < old(v).len(),
    ensures
        *r == old(v)@[i as int],
        final(v)@ == old(v)@.update(i as int, *final(r)),
{
    &mut v[i]
}

/// A mutable borrow of the note inside an occupied slot; the slot's stamp
/// and list links are untouched.
fn entry_note_mut<St>(sl: &mut Slot<St>) -> (r: &mut Note<St>)
    requires
        old(sl).entry is Some,
    ensures
        *r == old(sl).entry->Some_0.note,
        *final(sl) == (Slot {
            entry: Some(ListEntry { note: *final(r), ..old(sl).entry->Some_0 }),
            ..*old(sl)
        }),
{
    match &mut sl.entry {
        Some(e) => &mut e.note,
        None => vstd::pervasive::unreached(),
    }
}

/// In a sequence with pairwise-distinct elements, `index_of` returns the
/// position the element stands at.
pub proof fn lemma_index_of_distinct<A>(s: Seq<A>, i: int)
    requires
        0 <= i < s.len(),
        forall|p: int, q: int| 0 <= p < q < s.len() ==> s[p] != s[q],
    ensures
        s.index_of(s[i]) == i,
{
    assert(s.contains(s[i]));
    let j = s.index_of(s[i]);
    assert(0 <= j < s.len() && s[j] == s[i]);
    if j < i {
        assert(s[j] != s[i]);
    } else if j > i {
        assert(s[i] != s[j]);
    }
}

} // verus!
