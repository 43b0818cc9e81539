//! The note accumulator: timed note-on and note-off markers, finalized into
//! the ordered, delta-timed events of one MIDI track.
use vstd::prelude::*;
use crate::notes::HALF_BEAT_TICKS;

verus! {

/// The MIDI channel every note goes to.
pub const MIDI_CHANNEL: u8 = 0;

/// One marker: a note starts (`note_on`) or stops at a tick.
#[derive(Clone, Copy, Debug, PartialEq, Eq, Structural)]
pub struct MidiNote {
    pub pitch: u8,
    pub note_on: bool,
    pub start_time: u32,
    pub volume: u8,
}

/// A note message on channel 0.
#[derive(Clone, Copy, Debug, PartialEq, Eq, Structural)]
pub enum NoteMessage {
    NoteOff { key: u8, vel: u8 },
    NoteOn { key: u8, vel: u8 },
}

/// One event of a track: a note message, `delta` ticks after the previous
/// event.
#[derive(Clone, Copy, Debug, PartialEq, Eq, Structural)]
pub struct NoteEvent {
    pub delta: u32,
    pub message: NoteMessage,
}

/// The message of a marker.
pub open spec fn message_of(n: MidiNote) -> NoteMessage {
    if n.note_on {
        NoteMessage::NoteOn { key: n.pitch, vel: n.volume }
    } else {
        NoteMessage::NoteOff { key: n.pitch, vel: n.volume }
    }
}

/// The bag of markers of a piece in progress.
#[derive(Debug)]
pub struct MidiFile {
    pub notes: Vec<MidiNote>,
}

/// The order of markers: by tick, and at one tick a note-off before a
/// note-on.
pub open spec fn note_key(n: MidiNote) -> int {
    n.start_time * 2 + (if n.note_on { 1int } else { 0 })
}

/// Inserts `x` into `s` after the last element whose key is not greater.
pub open spec fn insert_sorted(s: Seq<MidiNote>, x: MidiNote) -> Seq<MidiNote>
    decreases s.len(),
{
    if s.len() == 0 {
        seq![x]
    } else if note_key(s.last()) <= note_key(x) {
        s.push(x)
    } else {
        insert_sorted(s.drop_last(), x).push(s.last())
    }
}

/// The markers in the order of `note_key`, markers of equal key keeping
/// the order in which they were added (a stable sort).
pub open spec fn sorted_notes(s: Seq<MidiNote>) -> Seq<MidiNote>
    decreases s.len(),
{
    if s.len() == 0 {
        s
    } else {
        insert_sorted(sorted_notes(s.drop_last()), s.last())
    }
}

/// Whether the markers are in the order of `note_key`.
pub open spec fn is_sorted(s: Seq<MidiNote>) -> bool {
    forall|i: int, j: int| 0 <= i < j < s.len() ==> note_key(s[i]) <= note_key(s[j])
}

/// The events of sorted markers: each one's delta is its tick minus the
/// tick of the marker before it (0 for the first).
pub open spec fn events_of(s: Seq<MidiNote>) -> Seq<NoteEvent> {
    Seq::new(
        s.len(),
        |i: int|
            NoteEvent {
                delta: (s[i].start_time - (if i == 0 { 0 } else { s[i - 1].start_time as int })) as u32,
                message: message_of(s[i]),
            },
    )
}

proof fn lemma_insert_sorted_split(s: Seq<MidiNote>, x: MidiNote, j: int)
    requires
        0 <= j <= s.len(),
        forall|t: int| j <= t < s.len() ==> note_key(#[trigger] s[t]) > note_key(x),
        j == 0 || note_key(s[j - 1]) <= note_key(x),
    ensures
        insert_sorted(s, x) == s.subrange(0, j).push(x) + s.subrange(j, s.len() as int),
    decreases s.len(),
{
    if s.len() == j {
        if s.len() == 0 {
            assert(s.subrange(0, j).push(x) + s.subrange(j, s.len() as int) =~= seq![x]);
        } else {
            assert(s.subrange(0, j) =~= s);
            assert(s.subrange(0, j).push(x) + s.subrange(j, s.len() as int) =~= s.push(x));
        }
    } else {
        let d = s.drop_last();
        assert(forall|t: int| j <= t < d.len() ==> #[trigger] d[t] == s[t]);
        lemma_insert_sorted_split(d, x, j);
        assert(s.subrange(0, j) =~= d.subrange(0, j));
        assert(s.subrange(j, s.len() as int) =~= d.subrange(j, d.len() as int).push(s.last()));
        assert((d.subrange(0, j).push(x) + d.subrange(j, d.len() as int)).push(s.last()) =~= s.subrange(0, j).push(x)
            + s.subrange(j, s.len() as int));
    }
}

proof fn lemma_insert_sorted_sorted(s: Seq<MidiNote>, x: MidiNote)
    requires
        is_sorted(s),
    ensures
        is_sorted(insert_sorted(s, x)),
        insert_sorted(s, x).len() == s.len() + 1,
        forall|i: int| 0 <= i < insert_sorted(s, x).len() ==> (#[trigger] insert_sorted(s, x)[i] == x || s.contains(
            insert_sorted(s, x)[i],
        )),
    decreases s.len(),
{
    if s.len() > 0 && note_key(s.last()) > note_key(x) {
        let d = s.drop_last();
        lemma_insert_sorted_sorted(d, x);
        let r0 = insert_sorted(d, x);
        assert forall|i: int| 0 <= i < r0.len() implies note_key(#[trigger] r0[i]) <= note_key(s.last()) by {
            if r0[i] != x {
                let t = choose|t: int| 0 <= t < d.len() && d[t] == r0[i];
                assert(s[t] == d[t]);
            }
        }
        assert forall|i: int| 0 <= i < r0.push(s.last()).len() implies (#[trigger] r0.push(s.last())[i] == x || s.contains(
            r0.push(s.last())[i],
        )) by {
            if i < r0.len() && r0[i] != x {
                let t = choose|t: int| 0 <= t < d.len() && d[t] == r0[i];
                assert(s[t] == d[t]);
            } else if i == r0.len() {
                assert(s[s.len() - 1] == s.last());
            }
        }
    } else if s.len() > 0 {
        assert forall|i: int| 0 <= i < s.push(x).len() implies (#[trigger] s.push(x)[i] == x || s.contains(s.push(x)[i])) by {
            if i < s.len() {
                assert(s.push(x)[i] == s[i]);
            }
        }
        assert forall|i: int, j: int| 0 <= i < j < s.push(x).len() implies note_key(s.push(x)[i]) <= note_key(s.push(x)[j]) by {
            if j == s.len() {
                assert(note_key(s[i]) <= note_key(s[s.len() - 1]));
            }
        }
    }
}

pub proof fn lemma_sorted_notes_sorted(s: Seq<MidiNote>)
    ensures
        is_sorted(sorted_notes(s)),
        sorted_notes(s).len() == s.len(),
    decreases s.len(),
{
    if s.len() > 0 {
        lemma_sorted_notes_sorted(s.drop_last());
        lemma_insert_sorted_sorted(sorted_notes(s.drop_last()), s.last());
    }
}

/// The key a marker is sorted by (see `note_key`).
fn sort_key(n: &MidiNote) -> (r: u64)
    ensures
        r == note_key(*n),
{
    n.start_time as u64 * 2 + if n.note_on { 1 } else { 0 }
}

impl MidiFile {
    /// An empty accumulator.
    pub fn new() -> (r: Self)
        ensures
            r.notes@ == Seq::<MidiNote>::empty(),
    {
        MidiFile { notes: Vec::new() }
    }

    /// Adds a note: a note-on at `initial_time` and a note-off `duration`
    /// ticks later, both with the given volume.
    pub fn add_note(&mut self, pitch: u8, initial_time: u32, duration: u32, volume: u8)
        requires
            initial_time + duration <= u32::MAX,
        ensures
            final(self).notes@ == old(self).notes@.push(
                MidiNote { pitch, note_on: true, start_time: initial_time, volume },
            ).push(MidiNote { pitch, note_on: false, start_time: (initial_time + duration) as u32, volume }),
    {
        self.notes.push(MidiNote { pitch, note_on: true, start_time: initial_time, volume });
        self.notes.push(MidiNote { pitch, note_on: false, start_time: initial_time + duration, volume });
    }

    /// Adds a note whose start and length are counted in half beats.
    pub fn add_note_half_beats(&mut self, pitch: u8, start: u32, length: u32, volume: u8)
        requires
            (start + length) * HALF_BEAT_TICKS <= u32::MAX,
        ensures
            final(self).notes@ == old(self).notes@.push(
                MidiNote { pitch, note_on: true, start_time: (start * HALF_BEAT_TICKS) as u32, volume },
            ).push(
                MidiNote {
                    pitch,
                    note_on: false,
                    start_time: ((start + length) * HALF_BEAT_TICKS) as u32,
                    volume,
                },
            ),
    {
        proof {
            vstd::arithmetic::mul::lemma_mul_is_distributive_add_other_way(HALF_BEAT_TICKS as int, start as int, length as int);
        }
        self.add_note(pitch, start * HALF_BEAT_TICKS, length * HALF_BEAT_TICKS, volume);
    }

    /// Sorts the markers (see `sorted_notes`) and turns them into
    /// delta-timed events.
    pub fn finalize(&mut self) -> (r: Vec<NoteEvent>)
        ensures
            final(self).notes@ == sorted_notes(old(self).notes@),
            is_sorted(final(self).notes@),
            r@ == events_of(sorted_notes(old(self).notes@)),
    {
        let ghost orig = self.notes@;
        let mut sorted: Vec<MidiNote> = Vec::new();
        let mut i: usize = 0;
        while i < self.notes.len()
            invariant
                i <= self.notes@.len(),
                self.notes@ == orig,
                sorted@ == sorted_notes(orig.subrange(0, i as int)),
            decreases self.notes@.len() - i,
        {
            let x = self.notes[i];
            proof {
                lemma_sorted_notes_sorted(orig.subrange(0, i as int));
            }
            let key = sort_key(&x);
            let mut j: usize = sorted.len();
            while j > 0 && sort_key(&sorted[j - 1]) > key
                invariant
                    j <= sorted@.len(),
                    key == note_key(x),
                    forall|t: int| j <= t < sorted@.len() ==> note_key(#[trigger] sorted@[t]) > note_key(x),
                decreases j,
            {
                j = j - 1;
            }
            proof {
                lemma_insert_sorted_split(sorted@, x, j as int);
                assert(orig.subrange(0, i + 1).drop_last() =~= orig.subrange(0, i as int));
            }
            let ghost before = sorted@;
            sorted.insert(j, x);
            assert(sorted@ =~= before.subrange(0, j as int).push(x) + before.subrange(j as int, before.len() as int));
            i = i + 1;
        }
        assert(orig.subrange(0, orig.len() as int) =~= orig);
        proof {
            lemma_sorted_notes_sorted(orig);
        }
        let mut events: Vec<NoteEvent> = Vec::new();
        let mut last_time: u32 = 0;
        let mut k: usize = 0;
        while k < sorted.len()
            invariant
                k <= sorted@.len(),
                sorted@ == sorted_notes(orig),
                is_sorted(sorted@),
                last_time == (if k == 0 { 0 } else { sorted@[k - 1].start_time }),
                events@ == events_of(sorted@).subrange(0, k as int),
            decreases sorted@.len() - k,
        {
            let n = sorted[k];
            if k > 0 {
                assert(note_key(sorted@[k - 1]) <= note_key(sorted@[k as int]));
            }
            let message = if n.note_on {
                NoteMessage::NoteOn { key: n.pitch, vel: n.volume }
            } else {
                NoteMessage::NoteOff { key: n.pitch, vel: n.volume }
            };
            events.push(NoteEvent { delta: n.start_time - last_time, message });
            assert(events@ =~= events_of(sorted@).subrange(0, k + 1));
            last_time = n.start_time;
            k = k + 1;
        }
        assert(events_of(sorted@).subrange(0, sorted@.len() as int) =~= events_of(sorted@));
        self.notes = sorted;
        events
    }
}


/// The events of sorted markers where a note never overlaps itself: a
/// note-on of a sounding pitch first stops it (with the volume it was
/// started with), and a note-off of a silent pitch is dropped. `on` holds,
/// for each pitch, the volume it sounds with. Both events of a step carry
/// the step's delta.
pub open spec fn overlap_free(s: Seq<MidiNote>, i: int, last: u32, on: Seq<Option<u8>>) -> Seq<NoteEvent>
    decreases s.len() - i,
{
    if i >= s.len() || i < 0 {
        Seq::empty()
    } else {
        let n = s[i];
        let d = (n.start_time - last) as u32;
        if n.note_on {
            match on[n.pitch as int] {
                Some(v) => seq![
                    NoteEvent { delta: d, message: NoteMessage::NoteOff { key: n.pitch, vel: v } },
                    NoteEvent { delta: d, message: NoteMessage::NoteOn { key: n.pitch, vel: n.volume } },
                ] + overlap_free(s, i + 1, n.start_time, on),
                None => seq![NoteEvent { delta: d, message: NoteMessage::NoteOn { key: n.pitch, vel: n.volume } }]
                    + overlap_free(s, i + 1, n.start_time, on.update(n.pitch as int, Some(n.volume))),
            }
        } else {
            match on[n.pitch as int] {
                Some(_) => seq![NoteEvent { delta: d, message: NoteMessage::NoteOff { key: n.pitch, vel: n.volume } }]
                    + overlap_free(s, i + 1, n.start_time, on.update(n.pitch as int, None)),
                None => overlap_free(s, i + 1, n.start_time, on),
            }
        }
    }
}

/// No pitch sounding.
pub open spec fn all_silent() -> Seq<Option<u8>> {
    Seq::new(256, |p: int| None)
}

impl MidiFile {
    /// Another way to finish the track: sorts the markers (see
    /// `sorted_notes`) and turns them into events in which no pitch
    /// overlaps itself (see `overlap_free`).
    pub fn finalize_no_overlap(&mut self) -> (r: Vec<NoteEvent>)
        ensures
            final(self).notes@ == sorted_notes(old(self).notes@),
            r@ == overlap_free(sorted_notes(old(self).notes@), 0, 0, all_silent()),
    {
        let _events = self.finalize();
        let ghost s = self.notes@;
        let mut on: Vec<Option<u8>> = Vec::new();
        let mut p: usize = 0;
        while p < 256
            invariant
                p <= 256,
                on@.len() == p,
                forall|j: int| 0 <= j < p ==> on@[j] is None,
            decreases 256 - p,
        {
            on.push(None);
            p = p + 1;
        }
        assert(on@ =~= all_silent());
        let mut result: Vec<NoteEvent> = Vec::new();
        let mut last_time: u32 = 0;
        let mut i: usize = 0;
        proof {
            assert(result@ + overlap_free(s, 0, 0, on@) =~= overlap_free(s, 0, 0, all_silent()));
        }
        while i < self.notes.len()
            invariant
                s == self.notes@,
                is_sorted(s),
                i <= s.len(),
                on@.len() == 256,
                last_time == (if i == 0 { 0 } else { s[i - 1].start_time }),
                result@ + overlap_free(s, i as int, last_time, on@) == overlap_free(s, 0, 0, all_silent()),
            decreases s.len() - i,
        {
            let n = self.notes[i];
            if i > 0 {
                assert(note_key(s[i - 1]) <= note_key(s[i as int]));
            }
            let d = n.start_time - last_time;
            let ghost on0 = on@;
            let ghost before = result@;
            let pitch = n.pitch as usize;
            if n.note_on {
                match on[pitch] {
                    Some(v) => {
                        result.push(NoteEvent { delta: d, message: NoteMessage::NoteOff { key: n.pitch, vel: v } });
                        result.push(NoteEvent { delta: d, message: NoteMessage::NoteOn { key: n.pitch, vel: n.volume } });
                    },
                    None => {
                        result.push(NoteEvent { delta: d, message: NoteMessage::NoteOn { key: n.pitch, vel: n.volume } });
                        on.set(pitch, Some(n.volume));
                    },
                }
            } else {
                match on[pitch] {
                    Some(_) => {
                        result.push(NoteEvent { delta: d, message: NoteMessage::NoteOff { key: n.pitch, vel: n.volume } });
                        on.set(pitch, None);
                    },
                    None => {},
                }
            }
            proof {
                assert(n == s[i as int]);
                assert(result@ + overlap_free(s, i + 1, n.start_time, on@) =~= before + overlap_free(s, i as int, last_time, on0));
            }
            last_time = n.start_time;
            i = i + 1;
        }
        result
    }
}

} // verus!
