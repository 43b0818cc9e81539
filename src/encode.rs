//! The outside encoders the library relies on: SHA-256 for seeds, the MIDI
//! file writer and base64.
use vstd::prelude::*;
use base64::Engine;
use midly::MidiMessage as M;
use midly::TrackEventKind::Midi;
use midly::{Format, Header, Smf, Timing, TrackEvent};
use sha2::Digest;
use crate::chord::{Chord, ChordView};
use crate::error::MusicError;
use crate::midi::{events_of, sorted_notes, MidiFile, MidiNote, NoteEvent, NoteMessage, MIDI_CHANNEL};
use crate::notes::PPQ;

verus! {

/// The SHA-256 digest of some bytes.
pub uninterp spec fn sha256_of(data: Seq<u8>) -> Seq<u8>;

/// Relies on sha2's `Sha256::digest`: the 32-byte SHA-256 digest of the
/// data, which depends on the data alone.
#[verifier::external_body]
pub(crate) fn sha256(data: &[u8]) -> (r: [u8; 32])
    ensures
        r@ == sha256_of(data@),
{
    sha2::Sha256::digest(data).into()
}

/// The layout of the tracks of a Standard MIDI File that the library
/// writes: a single track.
#[derive(Clone, Copy, Debug, PartialEq, Eq, Structural)]
pub enum TrackFormat {
    SingleTrack,
}

/// The bytes of a Standard MIDI File in the given format, at the given
/// ticks per quarter note, with one track of the given events on the given
/// channel.
pub uninterp spec fn smf_of(format: TrackFormat, ticks_per_beat: u16, channel: u8, events: Seq<NoteEvent>) -> Seq<u8>;

/// Relies on midly's `Smf::write` into a `Vec<u8>`: a file with the given
/// header (format, metrical timing) and one track holding the events as
/// note-on and note-off messages on the channel; channel, keys, velocities
/// and deltas keep their low 4, 7, 7 and 28 bits, as midly's conversions
/// do. With one track, the only failure midly reports for a `Vec` is a
/// track chunk longer than `u32::MAX` bytes, and each event takes at most 7
/// bytes (a delta of up to 4, a status byte and two data bytes).
#[verifier::external_body]
pub(crate) fn write_single_track(format: TrackFormat, ppq: u16, ch: u8, events: &Vec<NoteEvent>) -> (r: Result<Vec<u8>, String>)
    ensures
        r is Ok ==> r->Ok_0@ == smf_of(format, ppq, ch, events@),
        7 * events@.len() <= u32::MAX ==> r is Ok,
{
    let track = events.iter().map(|e| TrackEvent { delta: e.delta.into(), kind: Midi { channel: ch.into(), message: match e.message {
        NoteMessage::NoteOff { key, vel } => M::NoteOff { key: key.into(), vel: vel.into() },
        NoteMessage::NoteOn { key, vel } => M::NoteOn { key: key.into(), vel: vel.into() },
    } } }).collect();
    let format = match format {
        TrackFormat::SingleTrack => Format::SingleTrack,
    };
    let mut out = Vec::new();
    Smf { header: Header::new(format, Timing::Metrical(ppq.into())), tracks: vec![track] }.write(&mut out).map_err(|e| e.to_string())?;
    Ok(out)
}

/// The standard base64 text of some bytes.
pub uninterp spec fn base64_of(data: Seq<u8>) -> Seq<char>;

/// Relies on base64's `general_purpose::STANDARD.encode`: the standard
/// (padded) base64 text of the bytes, which depends on the bytes alone.
#[verifier::external_body]
pub(crate) fn base64_encode(data: &Vec<u8>) -> (r: String)
    ensures
        r@ == base64_of(data@),
{
    base64::engine::general_purpose::STANDARD.encode(data)
}


/// The markers of a chord's preview: every mandatory note, four octaves
/// up, sounding for one beat from tick 0 at velocity 80.
pub open spec fn preview_notes(c: ChordView) -> Seq<MidiNote> {
    Seq::new(
        2 * c.chord_type.note_intervals.len(),
        |t: int|
            MidiNote {
                pitch: ((c.note(t / 2) + 48) % 256) as u8,
                note_on: t % 2 == 0,
                start_time: if t % 2 == 0 { 0 } else { 96 },
                volume: 80,
            },
    )
}

impl Chord {
    /// A one-track MIDI file that plays the chord for one beat, as base64
    /// text; an error when the MIDI writer refuses it.
    pub fn to_midi(&self) -> (r: Result<String, MusicError>)
        requires
            self.wf(),
        ensures
            r is Ok ==> r->Ok_0@ == base64_of(
                smf_of(TrackFormat::SingleTrack, PPQ as u16, MIDI_CHANNEL, events_of(sorted_notes(preview_notes(self@)))),
            ),
            14 * self@.chord_type.note_intervals.len() <= u32::MAX ==> r is Ok,
    {
        let notes = self.get_notes();
        let mut track = MidiFile::new();
        let mut i: usize = 0;
        while i < notes.len()
            invariant
                i <= notes@.len(),
                self.wf(),
                notes@.len() == self@.chord_type.note_intervals.len(),
                forall|j: int| 0 <= j < notes@.len() ==> notes@[j] as int == #[trigger] self@.note(j),
                track.notes@ == preview_notes(self@).subrange(0, 2 * i),
            decreases notes@.len() - i,
        {
            assert(notes@[i as int] as int == self@.note(i as int));
            let pitch = ((notes[i] as i32 + 48) % 256) as u8;
            track.add_note(pitch, 0, 96, 80);
            proof {
                let p = preview_notes(self@);
                assert((2 * i) / 2 == i && (2 * i + 1) / 2 == i);
                assert(track.notes@ =~= p.subrange(0, 2 * i + 2));
            }
            i = i + 1;
        }
        assert(preview_notes(self@).subrange(0, 2 * notes@.len() as int) =~= preview_notes(self@));
        let events = track.finalize();
        proof {
            crate::midi::lemma_sorted_notes_sorted(preview_notes(self@));
        }
        match write_single_track(TrackFormat::SingleTrack, PPQ as u16, MIDI_CHANNEL, &events) {
            Ok(bytes) => Ok(base64_encode(&bytes)),
            Err(message) => Err(MusicError { message }),
        }
    }
}

} // verus!
