//! A small polyphonic sound-synthesis core.
//!
//! The engine mixes a pluggable waveform generator (an oscillator) with a
//! pluggable amplitude-over-time shape (an envelope) across a bounded set of
//! simultaneously sounding notes.  All quantities are fixed-point integers:
//!
//! * amplitudes and samples are scaled by [`UNIT`] (so `UNIT` is a gain of 1),
//! * times are microseconds,
//! * frequencies are micro-hertz,
//! * oscillator phases are micro-cycles in `[0, UNIT)`.
//!
//! The three pieces are the note container ([`note::NoteList`], a fixed
//! capacity store with stable identities and oldest-first eviction), the
//! oscillator and envelope variants ([`osc`], [`envelope`]), and the
//! [`Synth`] orchestrator that owns one of each and renders sample buffers.

use vstd::prelude::*;

pub mod envelope;
pub mod fixed;
pub mod note;
pub mod osc;

verus! {

/// Fixed-point scale: a gain of 1.0 and one full oscillator cycle.
pub const UNIT: i64 = 1_000_000;

/// Largest envelope duration (attack, decay or release), in microseconds.
pub const TIME_MAX: i64 = 1_000_000_000_000;

/// A note's clock saturates here instead of growing without bound.  It lies
/// beyond `attack + decay` and beyond `release` for every valid envelope
/// (those are at most `2 * TIME_MAX`), so saturation never changes the
/// envelope amplitude or whether a note has ended.
pub const TIME_SAT: i64 = 3_000_000_000_000;

/// Largest time at which an envelope can be sampled: a saturated note clock
/// plus one whole buffer of at most `TIME_MAX` microseconds.
pub const ENV_T_MAX: i64 = 4_000_000_000_000;

/// Largest note frequency, in micro-hertz (1 MHz).
pub const FREQ_MAX: u64 = 1_000_000_000_000;

/// Largest time step between two samples, in microseconds (a 1 Hz rate).
pub const DT_MAX: i64 = 1_000_000;

/// Largest capacity of a note container.
pub const CAP_MAX: usize = 1_000_000;

/// Largest sample magnitude a buffer handed to an oscillator may hold:
/// far below `i64::MAX`, so one contribution more cannot overflow.
pub const SAMPLE_MAX: i64 = 1_000_000_000_000_000_000;

/// Largest sample magnitude a buffer handed to [`Synth::render`] may hold:
/// it leaves room for one largest note contribution per note of the largest
/// container.
pub const MIX_LIMIT: i64 = 1_000_000_000_000_000;

/// Largest magnitude one note can contribute to one sample: a full harmonic
/// stack of [`osc::harmonic::MAX_HARMONICS`] partials at full gain.
pub const NOTE_MIX_MAX: i64 = 1_000_000_000;

/// Default sample rate, in micro-hertz (44.1 kHz).
pub const DEFAULT_SAMPLE_RATE: u64 = 44_100_000_000;

/// Default number of samples to be copied from one buffer to the next by a
/// surrounding streaming pipeline.
pub const DEFAULT_LEFTOVER_SAMPLE_COUNT: usize = 16;

/// Default number of samples per buffer: 5 ms at the default sample rate,
/// plus the default leftover count.
pub const DEFAULT_BUFFER_SIZE: usize = 236;

/// Stream configuration.  `buffer_size` and `leftover_sample_count` are
/// sizing hints for a surrounding streaming pipeline; the core algorithms
/// only consume `sample_rate`.
pub struct Config {
    /// The sample rate of the audio stream, in micro-hertz.
    pub sample_rate: u64,
    /// The number of samples per buffer.
    pub buffer_size: usize,
    /// The number of samples to be copied from the previous buffer to the next.
    pub leftover_sample_count: usize,
}

impl Config {
    /// A sample rate between 1 Hz and 1 MHz, so that the time step between
    /// two samples is between `1` and [`DT_MAX`] microseconds.
    pub open spec fn wf(self) -> bool {
        1_000_000 <= self.sample_rate <= 1_000_000_000_000
    }

    /// The time between two samples, in microseconds.
    pub open spec fn spec_delta_t(self) -> int {
        1_000_000_000_000int / (self.sample_rate as int)
    }

    /// The time between two samples, in microseconds.
    pub fn delta_t(&self) -> (r: i64)
        requires
            self.wf(),
        ensures
            r == self.spec_delta_t(),
            1 <= r <= DT_MAX,
    {
        proof {
            vstd::arithmetic::div_mod::lemma_div_is_ordered(
                self.sample_rate as int, 1_000_000_000_000, self.sample_rate as int);
            vstd::arithmetic::div_mod::lemma_div_by_self(self.sample_rate as int);
            vstd::arithmetic::div_mod::lemma_div_is_ordered_by_denominator(
                1_000_000_000_000, 1_000_000, self.sample_rate as int);
        }
        (1_000_000_000_000u64 / self.sample_rate) as i64
    }
}

impl Default for Config {
    fn default() -> (r: Self)
        ensures
            r.sample_rate == DEFAULT_SAMPLE_RATE,
            r.buffer_size == DEFAULT_BUFFER_SIZE,
            r.leftover_sample_count == DEFAULT_LEFTOVER_SAMPLE_COUNT,
            r.wf(),
    {
        Config {
            sample_rate: DEFAULT_SAMPLE_RATE,
            buffer_size: DEFAULT_BUFFER_SIZE,
            leftover_sample_count: DEFAULT_LEFTOVER_SAMPLE_COUNT,
        }
    }
}

/// A note's clock after `d` more microseconds: saturating at [`TIME_SAT`],
/// which is far beyond every envelope phase.
pub open spec fn advance_time_spec(t: int, d: int) -> int {
    if t + d <= TIME_SAT {
        t + d
    } else {
        TIME_SAT as int
    }
}

/// The envelope state of `note` at the `i`-th sample of a buffer rendered
/// `delta_t` microseconds per sample from now.
pub open spec fn env_state_at(
    note: note::Note<osc::OscillatorState>,
    delta_t: i64,
    i: int,
) -> note::NoteState {
    note.spec_held_state((i * delta_t) as i64)
}

/// What rendering one note into the running buffer does: the oscillator
/// fills a silent scratch buffer (relating the note's old and new state),
/// each scratch sample is scaled by the envelope at that sample's time and
/// added to the buffer, and the note's clock advances by the buffer's
/// duration.
pub open spec fn note_render_ok(
    osc_cfg: osc::Oscillator,
    env: envelope::Envelope,
    delta_t: i64,
    n0: note::Note<osc::OscillatorState>,
    n1: note::Note<osc::OscillatorState>,
    b0: Seq<i64>,
    b1: Seq<i64>,
) -> bool {
    &&& b1.len() == b0.len()
    &&& n1.freq == n0.freq
    &&& n1.amp == n0.amp
    &&& n1.held == n0.held
    &&& n1.time == advance_time_spec(n0.time as int, b0.len() * delta_t)
    &&& exists|c: Seq<i64>|
        {
            &&& #[trigger] osc_cfg.fill_ok(
                n0.state,
                n1.state,
                delta_t,
                n0.freq,
                n0.amp,
                osc::zero_seq(b0.len()),
                c,
            )
            &&& forall|i: int|
                0 <= i < b0.len() ==> b1[i] == b0[i] + fixed::scale_spec(
                    env.spec_sample(env_state_at(n0, delta_t, i)),
                    c[i] as int,
                )
        }
}

/// What one `render` call does: every stored note, oldest first, adds its
/// enveloped oscillator contribution to the buffer in turn.
pub open spec fn render_chain_ok(
    osc_cfg: osc::Oscillator,
    env: envelope::Envelope,
    delta_t: i64,
    pre: note::NoteList<osc::OscillatorState>,
    post: note::NoteList<osc::OscillatorState>,
    b0: Seq<i64>,
    b1: Seq<i64>,
) -> bool {
    exists|chain: Seq<Seq<i64>>|
        {
            &&& chain.len() == pre.ids().len() + 1
            &&& chain[0] == b0
            &&& chain[pre.ids().len() as int] == b1
            &&& forall|k: int|
                0 <= k < pre.ids().len() ==> #[trigger] note_render_ok(
                    osc_cfg,
                    env,
                    delta_t,
                    pre.note_of(pre.ids()[k]),
                    post.note_of(pre.ids()[k]),
                    chain[k],
                    chain[k + 1],
                )
        }
}

/// The synthesizer: one oscillator, one envelope, and the container of the
/// currently sounding notes.
pub struct Synth {
    /// The configuration of the synth.
    cfg: Config,
    /// The oscillator used to generate the sound.
    osc: osc::Oscillator,
    /// The envelope configuration.
    adsr: envelope::Envelope,
    /// Notes currently being played.
    notes: note::NoteList<osc::OscillatorState>,
}

impl Synth {
    /// The stream configuration.
    pub closed spec fn cfg(self) -> Config {
        self.cfg
    }

    /// The oscillator configuration.
    pub closed spec fn osc(self) -> osc::Oscillator {
        self.osc
    }

    /// The envelope configuration.
    pub closed spec fn adsr(self) -> envelope::Envelope {
        self.adsr
    }

    /// The container of currently sounding notes.
    pub closed spec fn notes(self) -> note::NoteList<osc::OscillatorState> {
        self.notes
    }

    /// What holds of every stored note: clock and amplitude in range, the
    /// frequency low enough for the oscillator, the oscillator state of the
    /// right kind with phases in range.
    pub open spec fn note_ok(self, n: note::Note<osc::OscillatorState>) -> bool {
        &&& 0 <= n.time <= TIME_SAT
        &&& 0 <= n.amp <= UNIT
        &&& self.osc().spec_freq_ok(n.freq)
        &&& self.osc().state_ok(n.state)
    }

    /// The synthesizer's invariant.
    pub open spec fn wf(self) -> bool {
        &&& self.cfg().wf()
        &&& self.osc().wf()
        &&& self.adsr().wf()
        &&& self.notes().wf()
        &&& forall|id: note::NoteId|
            #[trigger] self.notes().live(id) ==> self.note_ok(self.notes().note_of(id))
    }

    /// Capacity invariant: a well-formed synthesizer never holds more notes
    /// than its capacity.  Every operation returns a well-formed
    /// synthesizer, so this holds after any sequence of calls, however many
    /// notes were started.
    pub proof fn lemma_capacity_invariant(self)
        requires
            self.wf(),
        ensures
            self.notes().n_live() <= self.notes().capacity(),
    {
        self.notes().lemma_capacity_invariant();
    }

    /// Identity stability: an identity this synthesizer never issued does
    /// not resolve to a note.  Together with `start_note` returning only
    /// never-before-issued identities, a handle to a removed or evicted note
    /// can never alias a note that later reuses its storage slot.
    pub proof fn lemma_unissued_identity_not_live(self, id: note::NoteId)
        requires
            self.wf(),
            !self.notes().issued_ids().contains(id),
        ensures
            !self.notes().live(id),
    {
        self.notes().lemma_unissued_not_live(id);
    }

    /// Whether `freq` is low enough for this synthesizer's oscillator.
    pub fn freq_ok(&self, freq: u64) -> (r: bool)
        ensures
            r == self.osc().spec_freq_ok(freq),
    {
        self.osc.freq_ok(freq)
    }

    /// Whether a fresh note identity is still available.
    pub fn has_fresh_ids(&self) -> (r: bool)
        ensures
            r == self.notes().can_issue(),
    {
        self.notes.has_fresh_ids()
    }

    /// The time between two samples, in microseconds.
    pub fn delta_t(&self) -> (r: i64)
        requires
            self.wf(),
        ensures
            r == self.cfg().spec_delta_t(),
            1 <= r <= DT_MAX,
    {
        self.cfg.delta_t()
    }

    /// The number of currently sounding notes.
    pub fn note_count(&self) -> (r: usize)
        requires
            self.wf(),
        ensures
            r == self.notes().n_live(),
    {
        self.notes.len()
    }

    /// A new synthesizer with room for `max_notes` simultaneous notes.
    pub fn new(
        cfg: Config,
        osc: osc::Oscillator,
        adsr: envelope::Envelope,
        max_notes: usize,
    ) -> (r: Self)
        requires
            cfg.wf(),
            osc.wf(),
            adsr.wf(),
            1 <= max_notes <= CAP_MAX,
        ensures
            r.wf(),
            r.cfg() == cfg,
            r.osc() == osc,
            r.adsr() == adsr,
            r.notes().capacity() == max_notes,
            r.notes().n_live() == 0,
            r.notes().ids() == Seq::<note::NoteId>::empty(),
            r.notes().issued_ids() == Set::<note::NoteId>::empty(),
            r.notes().issued_count() == 0,
    {
        Synth { cfg, osc, adsr, notes: note::NoteList::new(max_notes) }
    }

    /// Start a note: a fresh oscillator state, clock at 0, held.  If the
    /// container is full, the chronologically oldest note is evicted first.
    /// Returns a never-before-issued identity for the new note.
    pub fn start_note(&mut self, freq: u64, amp: i64) -> (r: note::NoteId)
        requires
            old(self).wf(),
            old(self).notes().can_issue(),
            old(self).osc().spec_freq_ok(freq),
            0 <= amp <= UNIT,
        ensures
            final(self).wf(),
            final(self).cfg() == old(self).cfg(),
            final(self).osc() == old(self).osc(),
            final(self).adsr() == old(self).adsr(),
            final(self).notes().capacity() == old(self).notes().capacity(),
            !old(self).notes().issued_ids().contains(r),
            final(self).notes().issued_ids() == old(self).notes().issued_ids().insert(r),
            final(self).notes().issued_count() == old(self).notes().issued_count() + 1,
            final(self).notes().live(r),
            ({
                let n = final(self).notes().note_of(r);
                &&& n.freq == freq
                &&& n.amp == amp
                &&& n.time == 0
                &&& n.held
                &&& old(self).osc().fresh_state_ok(n.state)
            }),
            final(self).notes().ids() == (if old(self).notes().n_live() == old(self).notes().capacity() {
                old(self).notes().ids().drop_first()
            } else {
                old(self).notes().ids()
            }).push(r),
            forall|id: note::NoteId|
                id != r ==> (final(self).notes().live(id) <==> old(self).notes().live(id) && !(
                old(self).notes().n_live() == old(self).notes().capacity() && id == old(self).notes().ids()[0])),
            forall|id: note::NoteId|
                id != r && final(self).notes().live(id) ==> final(self).notes().note_of(id)
                    == old(self).notes().note_of(id),
    {
        let state = self.osc.create_state();
        let note = note::Note { freq, amp, time: 0, held: true, state };
        let id = self.notes.add(note);
        proof {
            assert forall|id2: note::NoteId|
                #[trigger] self.notes().live(id2) implies self.note_ok(
                self.notes().note_of(id2),
            ) by {
                if id2 != id {
                    assert(old(self).notes().live(id2));
                }
            }
        }
        id
    }

    /// End a note: if the identity is live, the note stops being held and
    /// its clock restarts at 0, so release timing starts fresh.  An unknown
    /// or evicted identity is a no-op.
    pub fn end_note(&mut self, id: note::NoteId)
        requires
            old(self).wf(),
        ensures
            final(self).wf(),
            final(self).cfg() == old(self).cfg(),
            final(self).osc() == old(self).osc(),
            final(self).adsr() == old(self).adsr(),
            final(self).notes().capacity() == old(self).notes().capacity(),
            final(self).notes().issued_ids() == old(self).notes().issued_ids(),
            final(self).notes().issued_count() == old(self).notes().issued_count(),
            final(self).notes().ids() == old(self).notes().ids(),
            forall|id2: note::NoteId|
                final(self).notes().live(id2) <==> old(self).notes().live(id2),
            old(self).notes().live(id) ==> final(self).notes().note_of(id) == (note::Note {
                held: false,
                time: 0,
                ..old(self).notes().note_of(id)
            }),
            forall|id2: note::NoteId|
                id2 != id && old(self).notes().live(id2) ==> final(self).notes().note_of(id2)
                    == old(self).notes().note_of(id2),
    {
        let ghost pre = self.notes;
        let ghost was_live = pre.live(id);
        match self.notes.get_mut(id) {
            Some(note) => {
                note.held = false;
                note.time = 0;
            },
            None => {},
        }
        proof {
            if was_live {
                let n1 = note::Note { held: false, time: 0, ..pre.note_of(id) };
                note::NoteList::lemma_note_write(pre, self.notes, id, n1);
                assert forall|id2: note::NoteId|
                    #[trigger] self.notes().live(id2) implies self.note_ok(
                    self.notes().note_of(id2),
                ) by {
                    if id2 != id {
                        assert(old(self).notes().live(id2));
                    }
                }
            }
        }
    }

    /// Sweep out every note whose envelope reports it ended on its current
    /// state: released for at least the release duration.  Must be called
    /// periodically by the owner.
    pub fn bookkeeping(&mut self)
        requires
            old(self).wf(),
        ensures
            final(self).wf(),
            final(self).cfg() == old(self).cfg(),
            final(self).osc() == old(self).osc(),
            final(self).adsr() == old(self).adsr(),
            final(self).notes().capacity() == old(self).notes().capacity(),
            final(self).notes().issued_ids() == old(self).notes().issued_ids(),
            final(self).notes().issued_count() == old(self).notes().issued_count(),
            final(self).notes().ids() == note::filter_seq(
                old(self).notes().ids(),
                Seq::new(
                    old(self).notes().ids().len(),
                    |i: int|
                        !old(self).adsr().spec_note_ended(
                            old(self).notes().note_of(
                                old(self).notes().ids()[i],
                            ).spec_held_state(0),
                        ),
                ),
            ),
            forall|id: note::NoteId|
                final(self).notes().live(id) ==> old(self).notes().live(id) && final(self).notes().note_of(id) == old(self).notes().note_of(id),
    {
        let ghost pre = self.notes;
        let adsr = &self.adsr;
        let f = |n: &note::Note<osc::OscillatorState>| -> (keep: bool)
            ensures
                keep == !adsr.spec_note_ended(n.spec_held_state(0)),
            {
                !adsr.note_ended(n.held_state(0))
            };
        self.notes.filter(f);
        proof {
            let target = Seq::new(
                pre.ids().len(),
                |i: int| !self.adsr.spec_note_ended(pre.note_of(pre.ids()[i]).spec_held_state(0)),
            );
            let keep = choose|keep: Seq<bool>|
                {
                    &&& keep.len() == pre.n_live()
                    &&& (forall|i: int|
                        0 <= i < keep.len() ==> call_ensures(
                            f,
                            (&pre.note_of(pre.ids()[i]),),
                            keep[i],
                        ))
                    &&& self.notes.ids() == note::filter_seq(pre.ids(), keep)
                };
            pre.lemma_capacity_invariant();
            assert forall|i: int| 0 <= i < keep.len() implies keep[i] == target[i] by {
                assert(call_ensures(f, (&pre.note_of(pre.ids()[i]),), keep[i]));
            }
            assert(keep =~= target);
            assert forall|id2: note::NoteId|
                #[trigger] self.notes().live(id2) implies self.note_ok(
                self.notes().note_of(id2),
            ) by {
                assert(old(self).notes().live(id2));
            }
        }
    }

    /// Render every stored note into the buffer: for each note, the
    /// oscillator fills a silent scratch buffer, each scratch sample is
    /// scaled by the envelope at that sample's time and accumulated into the
    /// output, and the note's clock advances by the buffer's duration.  The
    /// buffer is not cleared first: contributions add to what is there.
    pub fn render(&mut self, buffer: &mut Vec<i64>)
        requires
            old(self).wf(),
            forall|i: int|
                0 <= i < old(buffer)@.len() ==> -MIX_LIMIT <= #[trigger] old(buffer)@[i]
                    <= MIX_LIMIT,
            old(buffer)@.len() * old(self).cfg().spec_delta_t() <= TIME_MAX,
        ensures
            final(self).wf(),
            final(buffer)@.len() == old(buffer)@.len(),
            final(self).cfg() == old(self).cfg(),
            final(self).osc() == old(self).osc(),
            final(self).adsr() == old(self).adsr(),
            final(self).notes().capacity() == old(self).notes().capacity(),
            final(self).notes().issued_ids() == old(self).notes().issued_ids(),
            final(self).notes().issued_count() == old(self).notes().issued_count(),
            final(self).notes().ids() == old(self).notes().ids(),
            forall|id: note::NoteId|
                final(self).notes().live(id) <==> old(self).notes().live(id),
            render_chain_ok(
                old(self).osc(),
                old(self).adsr(),
                old(self).cfg().spec_delta_t() as i64,
                old(self).notes(),
                final(self).notes(),
                old(buffer)@,
                final(buffer)@,
            ),
    {
        let ghost s0 = *self;
        let ghost b0 = old(buffer)@;
        let dt = self.cfg.delta_t();
        let n = buffer.len();
        proof {
            assert(n as int <= (n as int) * dt) by (nonlinear_arith)
                requires
                    1 <= dt,
                    0 <= n as int,
            ;
        }
        let ghost ids0 = s0.notes().ids();
        proof {
            s0.notes().lemma_capacity_invariant();
        }
        let mut cur = self.notes.first();
        let ghost mut k: int = 0;
        let ghost mut chain: Seq<Seq<i64>> = seq![b0];
        loop
            invariant
                self.cfg == s0.cfg,
                self.osc == s0.osc,
                self.adsr == s0.adsr,
                s0.wf(),
                dt == s0.cfg().spec_delta_t(),
                1 <= dt <= DT_MAX,
                n == b0.len(),
                buffer@.len() == n,
                n as int <= TIME_MAX,
                (n as int) * dt <= TIME_MAX,
                forall|i: int| 0 <= i < n ==> -MIX_LIMIT <= #[trigger] b0[i] <= MIX_LIMIT,
                self.notes.wf(),
                self.notes.capacity() == s0.notes().capacity(),
                self.notes.issued_ids() == s0.notes().issued_ids(),
                self.notes.issued_count() == s0.notes().issued_count(),
                self.notes.ids() == ids0,
                ids0 == s0.notes().ids(),
                ids0.len() <= CAP_MAX,
                forall|id: note::NoteId| self.notes.live(id) <==> s0.notes().live(id),
                forall|id: note::NoteId|
                    #[trigger] self.notes.live(id) ==> s0.note_ok(self.notes.note_of(id)),
                0 <= k <= ids0.len(),
                chain.len() == k + 1,
                chain[0] == b0,
                chain[k] == buffer@,
                forall|i: int|
                    0 <= i < n ==> -MIX_LIMIT - k * NOTE_MIX_MAX <= #[trigger] buffer@[i]
                        <= MIX_LIMIT + k * NOTE_MIX_MAX,
                forall|j: int|
                    0 <= j < k ==> #[trigger] note_render_ok(
                        s0.osc,
                        s0.adsr,
                        dt,
                        s0.notes().note_of(ids0[j]),
                        self.notes.note_of(ids0[j]),
                        chain[j],
                        chain[j + 1],
                    ),
                forall|j: int|
                    k <= j < ids0.len() ==> #[trigger] self.notes.note_of(ids0[j]) == s0.notes(
                    ).note_of(ids0[j]),
                cur == if k < ids0.len() {
                    Some(ids0[k])
                } else {
                    None::<note::NoteId>
                },
            ensures
                k == ids0.len(),
                buffer@.len() == n,
                chain.len() == k + 1,
                chain[0] == b0,
                chain[k] == buffer@,
                self.cfg == s0.cfg,
                self.osc == s0.osc,
                self.adsr == s0.adsr,
                self.notes.wf(),
                self.notes.capacity() == s0.notes().capacity(),
                self.notes.issued_ids() == s0.notes().issued_ids(),
                self.notes.issued_count() == s0.notes().issued_count(),
                self.notes.ids() == ids0,
                forall|id: note::NoteId| self.notes.live(id) <==> s0.notes().live(id),
                forall|id: note::NoteId|
                    #[trigger] self.notes.live(id) ==> s0.note_ok(self.notes.note_of(id)),
                forall|j: int|
                    0 <= j < k ==> #[trigger] note_render_ok(
                        s0.osc,
                        s0.adsr,
                        dt,
                        s0.notes().note_of(ids0[j]),
                        self.notes.note_of(ids0[j]),
                        chain[j],
                        chain[j + 1],
                    ),
            decreases ids0.len() - k,
        {
            match cur {
                None => {
                    break ;
                },
                Some(id) => {
                    proof {
                        assert(self.notes.ids()[k] == id);
                        self.notes.lemma_live_iff_ids_contains(id);
                        self.notes.lemma_ids_distinct();
                        self.notes.lemma_capacity_invariant();
                        note::lemma_index_of_distinct(self.notes.ids(), k);
                        assert(self.notes.live(id));
                    }
                    let mut scratch: Vec<i64> = Vec::new();
                    let mut z: usize = 0;
                    while z < n
                        invariant
                            z <= n,
                            scratch@.len() == z,
                            forall|i: int| 0 <= i < z ==> #[trigger] scratch@[i] == 0,
                        decreases n - z,
                    {
                        scratch.push(0);
                        z += 1;
                    }
                    proof {
                        assert(scratch@ =~= osc::zero_seq(n as nat));
                    }
                    let nxt = self.notes.next_of(id);
                    let ghost pre_notes = self.notes;
                    let ghost bpre = buffer@;
                    let ghost mut st_b: osc::OscillatorState = vstd::pervasive::arbitrary();
                    let ghost mut c: Seq<i64> = Seq::empty();
                    match self.notes.get_mut(id) {
                        Some(note) => {
                            let freq = note.freq;
                            let amp = note.amp;
                            let held = note.held;
                            let t0 = note.time;
                            let ghost st_a = note.state;
                            self.osc.fill_samples(&mut note.state, &mut scratch, dt, freq, amp);
                            proof {
                                st_b = note.state;
                                c = scratch@;
                                osc::lemma_fill_scratch_bound(s0.osc, st_a, st_b, dt, freq, amp, c);
                            }
                            let mut i: usize = 0;
                            while i < n
                                invariant
                                    i <= n,
                                    n == bpre.len(),
                                    buffer@.len() == n,
                                    scratch@ == c,
                                    c.len() == n,
                                    self.adsr == s0.adsr,
                                    s0.adsr().wf(),
                                    held ==> t0 <= TIME_SAT,
                                    0 <= t0 <= TIME_SAT,
                                    1 <= dt <= DT_MAX,
                                    n as int <= TIME_MAX,
                                    (n as int) * dt <= TIME_MAX,
                                    forall|q: int|
                                        0 <= q < n ==> -NOTE_MIX_MAX <= #[trigger] c[q]
                                            <= NOTE_MIX_MAX,
                                    forall|q: int|
                                        0 <= q < n ==> -MIX_LIMIT - k * NOTE_MIX_MAX
                                            <= #[trigger] bpre[q] <= MIX_LIMIT + k
                                            * NOTE_MIX_MAX,
                                    0 <= k < ids0.len(),
                                    ids0.len() <= CAP_MAX,
                                    forall|j: int|
                                        0 <= j < i ==> #[trigger] buffer@[j] == bpre[j]
                                            + fixed::scale_spec(
                                            s0.adsr().spec_sample(env_state_spec(held, t0, dt, j)),
                                            c[j] as int,
                                        ),
                                    forall|j: int|
                                        0 <= j < i ==> bpre[j] - NOTE_MIX_MAX
                                            <= #[trigger] buffer@[j] <= bpre[j] + NOTE_MIX_MAX,
                                    forall|j: int| i <= j < n ==> buffer@[j] == bpre[j],
                                decreases n - i,
                            {
                                proof {
                                    assert(0 <= (i as int) * dt && (i as int) * dt <= (n as int)
                                        * dt) by (nonlinear_arith)
                                        requires
                                            0 <= i as int <= n as int,
                                            1 <= dt,
                                    ;
                                }
                                let ts = t0 + (i as i64) * dt;
                                let st = if held {
                                    note::NoteState::Holding(ts)
                                } else {
                                    note::NoteState::Released(ts)
                                };
                                let e = self.adsr.sample(st);
                                let m = fixed::scale_wide(e, scratch[i]);
                                proof {
                                    fixed::lemma_scale_bound_wide(e as int, c[i as int] as int);
                                    assert(buffer@[i as int] == bpre[i as int]);
                                    assert(-MIX_LIMIT - k * NOTE_MIX_MAX <= bpre[i as int]
                                        <= MIX_LIMIT + k * NOTE_MIX_MAX);
                                    assert(0 <= k * NOTE_MIX_MAX
                                        <= 1_000_000_000_000_000) by (nonlinear_arith)
                                        requires
                                            0 <= k <= 1_000_000,
                                    ;
                                }
                                let v = buffer[i] + m;
                                buffer[i] = v;
                                i += 1;
                            }
                            let total = (n as i64) * dt;
                            if note.time <= TIME_SAT - total {
                                note.time = note.time + total;
                            } else {
                                note.time = TIME_SAT;
                            }
                        },
                        None => {
                            proof {
                                assert(false);
                            }
                        },
                    }
                    proof {
                        let n0 = pre_notes.note_of(id);
                        let n1 = note::Note {
                            time: advance_time_spec(n0.time as int, (n as int) * dt) as i64,
                            state: st_b,
                            ..n0
                        };
                        note::NoteList::lemma_note_write(pre_notes, self.notes, id, n1);
                        assert(note_render_ok(s0.osc, s0.adsr, dt, n0, n1, bpre, buffer@)) by {
                            assert(osc::zero_seq(bpre.len()) =~= osc::zero_seq(n as nat));
                            assert(s0.osc.fill_ok(
                                n0.state,
                                n1.state,
                                dt,
                                n0.freq,
                                n0.amp,
                                osc::zero_seq(bpre.len()),
                                c,
                            ));
                            assert forall|i: int|
                                0 <= i < bpre.len() implies buffer@[i] == bpre[i]
                                + fixed::scale_spec(
                                s0.adsr().spec_sample(env_state_at(n0, dt, i)),
                                c[i] as int,
                            ) by {
                                assert(0 <= (i as int) * dt && (i as int) * dt <= (n as int)
                                    * dt) by (nonlinear_arith)
                                    requires
                                        0 <= i < n as int,
                                        1 <= dt,
                                ;
                                assert(env_state_at(n0, dt, i) == env_state_spec(
                                    n0.held,
                                    n0.time,
                                    dt,
                                    i,
                                ));
                            }
                        };
                        assert forall|id2: note::NoteId|
                            #[trigger] self.notes.live(id2) implies s0.note_ok(
                            self.notes.note_of(id2),
                        ) by {
                            if id2 != id {
                                assert(pre_notes.live(id2));
                            }
                        }
                        chain = chain.push(buffer@);
                        k = k + 1;
                        assert forall|j: int|
                            0 <= j < k implies #[trigger] note_render_ok(
                            s0.osc,
                            s0.adsr,
                            dt,
                            s0.notes().note_of(ids0[j]),
                            self.notes.note_of(ids0[j]),
                            chain[j],
                            chain[j + 1],
                        ) by {
                            if j < k - 1 {
                                assert(note_render_ok(
                                    s0.osc,
                                    s0.adsr,
                                    dt,
                                    s0.notes().note_of(ids0[j]),
                                    pre_notes.note_of(ids0[j]),
                                    chain[j],
                                    chain[j + 1],
                                ));
                                pre_notes.lemma_ids_distinct();
                                assert(ids0[j] != id);
                                pre_notes.lemma_live_iff_ids_contains(ids0[j]);
                                assert(pre_notes.ids().contains(ids0[j]));
                                assert(self.notes.note_of(ids0[j]) == pre_notes.note_of(ids0[j]));
                            } else {
                                assert(s0.notes().note_of(ids0[j]) == n0);
                                assert(self.notes.note_of(ids0[j]) == n1);
                            }
                        }
                        assert forall|i: int|
                            0 <= i < n implies -MIX_LIMIT - k * NOTE_MIX_MAX
                            <= #[trigger] buffer@[i] <= MIX_LIMIT + k * NOTE_MIX_MAX by {
                            assert(bpre[i] - NOTE_MIX_MAX <= buffer@[i] <= bpre[i]
                                + NOTE_MIX_MAX);
                            assert(k * NOTE_MIX_MAX == (k - 1) * NOTE_MIX_MAX
                                + NOTE_MIX_MAX) by (nonlinear_arith);
                        }
                        assert forall|j: int|
                            k <= j < ids0.len() implies #[trigger] self.notes.note_of(ids0[j])
                            == s0.notes().note_of(ids0[j]) by {
                            pre_notes.lemma_ids_distinct();
                            assert(ids0[j] != id);
                            pre_notes.lemma_live_iff_ids_contains(ids0[j]);
                            assert(pre_notes.ids().contains(ids0[j]));
                            assert(pre_notes.note_of(ids0[j]) == s0.notes().note_of(ids0[j]));
                        }
                    }
                    cur = nxt;
                },
            }
        }
        proof {
            assert(render_chain_ok(
                s0.osc,
                s0.adsr,
                dt,
                s0.notes(),
                self.notes(),
                b0,
                buffer@,
            )) by {
                let m = ids0.len() as int;
                assert(chain.len() == ids0.len() + 1 && chain[0] == b0 && chain[m] == buffer@);
            };
        }
    }
}

/// The envelope state of a note with the given phase and clock at the `i`-th
/// sample.
pub open spec fn env_state_spec(held: bool, t0: i64, delta_t: i64, i: int) -> note::NoteState {
    if held {
        note::NoteState::Holding((t0 + i * delta_t) as i64)
    } else {
        note::NoteState::Released((t0 + i * delta_t) as i64)
    }
}

} // verus!
