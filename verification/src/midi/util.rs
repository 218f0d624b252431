//! MIDI note bookkeeping and audio export: pairing note-on and note-off
//! events of a Standard MIDI File into note segments, and writing stereo
//! 16-bit samples as a WAVE file.
use vstd::prelude::*;
use std::collections::HashMap;
use crate::stable_order::lemma_swap_keeps_filter;
use midly::{MetaMessage::Tempo, MidiMessage as M, TrackEventKind as K};

verus! {

/// A note played by an instrument.
#[derive(Clone, Copy, Debug, PartialEq, Eq, Structural, Hash)]
pub struct MidiNote {
    pub midi_note: u8,
    pub instrument_id: u8,
}

/// The number that keys a note in a note map: note number and instrument
/// side by side in 16 bits.
pub open spec fn midi_note_key(note: MidiNote) -> u16 {
    (note.midi_note as int * 256 + note.instrument_id as int) as u16
}

impl MidiNote {
    /// The key of this note in a note map.
    pub fn key(&self) -> (key: u16)
        ensures
            key == midi_note_key(*self),
    {
        self.midi_note as u16 * 256 + self.instrument_id as u16
    }
}

#[verifier::external_type_specification]
#[verifier::external_body]
pub struct ExHoundError(hound::Error);

/// The bytes of `v` below 2^(8 * count), least significant first.
pub open spec fn little_endian(v: int, count: nat) -> Seq<u8>
    decreases count,
{
    if count == 0 {
        seq![]
    } else {
        seq![(v % 256) as u8] + little_endian(v / 256, (count - 1) as nat)
    }
}

/// The two bytes of a sample, two's complement, least significant first.
pub open spec fn sample_bytes(v: i16) -> Seq<u8> {
    little_endian(
        if v < 0 {
            v + 0x1_0000
        } else {
            v as int
        },
        2,
    )
}

/// The interleaved sample data: left then right sample of each frame.
pub open spec fn frame_bytes(samples: Seq<(i16, i16)>) -> Seq<u8>
    decreases samples.len(),
{
    if samples.len() == 0 {
        seq![]
    } else {
        frame_bytes(samples.drop_last()) + sample_bytes(samples.last().0) + sample_bytes(samples.last().1)
    }
}

/// A stereo 16-bit integer PCM WAVE file: the RIFF header, the 16-byte fmt
/// chunk (format 1, 2 channels, the sample rate, 4 bytes per frame, 16 bits
/// per sample) and the data chunk.
pub open spec fn stereo_pcm16_wav(sample_rate: u32, samples: Seq<(i16, i16)>) -> Seq<u8> {
    let data_length = 4 * samples.len() as int;
    seq![0x52u8, 0x49, 0x46, 0x46] + little_endian(data_length + 36, 4) + seq![0x57u8, 0x41, 0x56, 0x45]
        + seq![0x66u8, 0x6d, 0x74, 0x20] + little_endian(16, 4) + little_endian(1, 2) + little_endian(2, 2)
        + little_endian(sample_rate as int, 4) + little_endian(4 * sample_rate, 4) + little_endian(4, 2)
        + little_endian(16, 2) + seq![0x64u8, 0x61, 0x74, 0x61] + little_endian(data_length, 4) + frame_bytes(
        samples,
    )
}

/// Writes the samples as a stereo 16-bit WAVE file in memory with hound
/// (`WavWriter::new` on a cursor, `write_sample` for the left and the right
/// sample of each frame, `finalize`). Claimed: hound reports no error, and
/// the bytes are `stereo_pcm16_wav`, which is what hound's writer lays down
/// for this spec (the PCMWAVEFORMAT header, since there are at most two
/// channels of at most 16 bits). No step can fail here: 16 bits is a
/// supported depth, an `i16` always fits 16 bits, writes and seeks on an
/// in-memory cursor do not fail, and whole frames leave no sample
/// unfinished. The requirements keep hound's own u32 arithmetic (bytes per
/// second, data and file length) from overflowing and its block-align
/// division away from zero.
#[verifier::external_body]
fn hound_write_stereo_pcm16(sample_rate: u32, samples: &[(i16, i16)]) -> (written: Result<Vec<u8>, hound::Error>)
    requires
        1 <= sample_rate <= 0x3fff_ffff,
        4 * samples@.len() + 36 <= u32::MAX,
    ensures
        written is Ok,
        written matches Ok(bytes) ==> bytes@ == stereo_pcm16_wav(sample_rate, samples@),
{
    let spec = hound::WavSpec {
        channels: 2,
        sample_rate,
        bits_per_sample: 16,
        sample_format: hound::SampleFormat::Int,
    };
    let mut cursor = std::io::Cursor::new(Vec::new());
    let mut writer = hound::WavWriter::new(&mut cursor, spec)?;
    for &(left, right) in samples {
        writer.write_sample(left)?;
        writer.write_sample(right)?;
    }
    writer.finalize()?;
    Ok(cursor.into_inner())
}

/// Why a WAVE file could not be written.
#[derive(Clone, Copy, Debug, PartialEq, Eq, Structural)]
pub enum WavWriteError {
    /// The writer reported an error.
    Writer,
}

/// The samples as a stereo 16-bit integer WAVE file (see `stereo_pcm16_wav`).
pub fn write_samples_to_wav_bytes(sample_rate: i32, samples: &[(i16, i16)]) -> (wav: Result<Vec<u8>, WavWriteError>)
    requires
        1 <= sample_rate <= 0x3fff_ffff,
        4 * samples@.len() + 36 <= u32::MAX,
    ensures
        wav is Ok,
        wav matches Ok(bytes) ==> bytes@ == stereo_pcm16_wav(sample_rate as u32, samples@),
{
    match hound_write_stereo_pcm16(sample_rate as u32, samples) {
        Ok(bytes) => Ok(bytes),
        Err(_) => Err(WavWriteError::Writer),
    }
}

/// The samples as the bytes of a stereo 16-bit integer WAVE file.
pub fn write_samples_to_wav(sample_rate: i32, samples: Vec<(i16, i16)>) -> (wav: Result<Vec<u8>, WavWriteError>)
    requires
        1 <= sample_rate <= 0x3fff_ffff,
        4 * samples@.len() + 36 <= u32::MAX,
    ensures
        wav is Ok,
        wav matches Ok(bytes) ==> bytes@ == stereo_pcm16_wav(sample_rate as u32, samples@),
{
    write_samples_to_wav_bytes(sample_rate, samples.as_slice())
}


#[verifier::external_type_specification]
#[verifier::external_body]
pub struct ExSmf<'a>(midly::Smf<'a>);

#[verifier::external_type_specification]
#[verifier::external_body]
pub struct ExMidlyError(midly::Error);

/// A track event as note pairing reads it.
#[derive(Clone, Copy, Debug, PartialEq, Eq, Structural)]
pub enum MidiEventKind {
    NoteOn { channel: u8, key: u8, velocity: u8 },
    NoteOff { channel: u8, key: u8 },
    ProgramChange { channel: u8, program: u8 },
    Tempo { microseconds_per_quarter: u32 },
    Other,
}

/// Channels are 4-bit and keys, velocities and programs 7-bit numbers.
pub open spec fn event_in_range(kind: MidiEventKind) -> bool {
    match kind {
        MidiEventKind::NoteOn { channel, key, velocity } => channel < 16 && key < 128 && velocity < 128,
        MidiEventKind::NoteOff { channel, key } => channel < 16 && key < 128,
        MidiEventKind::ProgramChange { channel, program } => channel < 16 && program < 128,
        _ => true,
    }
}

/// What midly's `Smf::parse` makes of the bytes: `None` where it reports an
/// error, else the ticks per quarter note of a metrical header (`None` for
/// timecode timing) and each track's (delta ticks, event) list.
pub uninterp spec fn standard_midi_file(bytes: Seq<u8>) -> Option<(Option<u16>, Seq<Seq<(u32, MidiEventKind)>>)>;

/// The events of a parsed file, track by track, as (delta ticks, event).
pub uninterp spec fn smf_tracks(smf: midly::Smf) -> Seq<Seq<(u32, MidiEventKind)>>;

/// The ticks per quarter note of a parsed file's metrical header, `None` for
/// timecode timing.
pub uninterp spec fn smf_ticks_per_quarter(smf: midly::Smf) -> Option<u16>;

/// midly's `Smf::parse`. Claimed: it fails exactly where
/// `standard_midi_file` is `None`, and a parsed file holds the header timing
/// and tracks that `standard_midi_file` names.
#[verifier::external_body]
fn parse_smf(bytes: &[u8]) -> (parsed: Result<midly::Smf<'_>, midly::Error>)
    ensures
        match parsed {
            Ok(smf) => standard_midi_file(bytes@) == Some((smf_ticks_per_quarter(smf), smf_tracks(smf))),
            Err(_) => standard_midi_file(bytes@) is None,
        },
{
    midly::Smf::parse(bytes)
}

/// The header timing of a parsed file: `Timing::Metrical` gives its ticks per
/// quarter note, `Timing::Timecode` gives `None`.
#[verifier::external_body]
fn ticks_per_quarter(smf: &midly::Smf) -> (ticks: Option<u16>)
    ensures
        ticks == smf_ticks_per_quarter(*smf),
{
    match smf.header.timing {
        midly::Timing::Metrical(t) => Some(t.as_int()),
        midly::Timing::Timecode(_, _) => None,
    }
}

/// The number of tracks of a parsed file (`smf.tracks.len()`).
#[verifier::external_body]
fn track_count(smf: &midly::Smf) -> (count: usize)
    ensures
        count == smf_tracks(*smf).len(),
{
    smf.tracks.len()
}

/// The number of events of a track (`smf.tracks[track].len()`).
#[verifier::external_body]
fn track_length(smf: &midly::Smf, track: usize) -> (count: usize)
    requires
        track < smf_tracks(*smf).len(),
    ensures
        count == smf_tracks(*smf)[track as int].len(),
{
    smf.tracks[track].len()
}

/// An event of a track, as (delta ticks, event): note on, note off and
/// program change messages and tempo changes are told apart, everything else
/// is `Other`. Claimed beside the name: midly's `u4` and `u7` fields are in
/// range.
#[verifier::external_body]
fn track_event(smf: &midly::Smf, track: usize, index: usize) -> (event: (u32, MidiEventKind))
    requires
        track < smf_tracks(*smf).len(),
        index < smf_tracks(*smf)[track as int].len(),
    ensures
        event == smf_tracks(*smf)[track as int][index as int],
        event_in_range(event.1),
{
    let e = &smf.tracks[track][index];
    let kind = match e.kind {
        K::Midi { channel: c, message: M::NoteOn { key, vel } } => MidiEventKind::NoteOn { channel: c.as_int(), key: key.as_int(), velocity: vel.as_int() },
        K::Midi { channel: c, message: M::NoteOff { key, .. } } => MidiEventKind::NoteOff { channel: c.as_int(), key: key.as_int() },
        K::Midi { channel: c, message: M::ProgramChange { program } } => MidiEventKind::ProgramChange { channel: c.as_int(), program: program.as_int() },
        K::Meta(Tempo(us)) => MidiEventKind::Tempo { microseconds_per_quarter: us.as_int() },
        _ => MidiEventKind::Other,
    };
    (e.delta.as_int(), kind)
}

/// The tick of event `i` of a track: the sum of the deltas up to and
/// including it.
pub open spec fn tick_sum(track: Seq<(u32, MidiEventKind)>, i: int) -> int
    decreases i + 1,
{
    if i < 0 {
        0
    } else {
        tick_sum(track, i - 1) + track[i].0
    }
}

/// The events of all tracks with absolute ticks, track after track.
pub open spec fn absolute_events(tracks: Seq<Seq<(u32, MidiEventKind)>>) -> Seq<(int, MidiEventKind)>
    decreases tracks.len(),
{
    if tracks.len() == 0 {
        seq![]
    } else {
        let track = tracks.last();
        absolute_events(tracks.drop_last()) + Seq::new(track.len(), |i: int| (tick_sum(track, i), track[i].1))
    }
}

/// Why a MIDI file could not be read into note segments.
#[derive(Clone, Copy, Debug, PartialEq, Eq, Structural)]
pub enum MidiParseError {
    /// The bytes are not a Standard MIDI File.
    Unparsable,
    /// The header gives timecode timing, not ticks per quarter note.
    NotMetrical,
    /// An absolute tick does not fit in 32 bits.
    TickOverflow,
}

proof fn lemma_tick_sum_monotone(track: Seq<(u32, MidiEventKind)>, i: int, j: int)
    requires
        -1 <= i <= j,
    ensures
        tick_sum(track, i) <= tick_sum(track, j),
    decreases j - i,
{
    if i < j {
        lemma_tick_sum_monotone(track, i, j - 1);
    }
}

/// The events of all tracks of a parsed file with absolute ticks (see
/// `absolute_events`), or `TickOverflow` when one does not fit in 32 bits.
fn absolute_track_events(smf: &midly::Smf) -> (events: Result<Vec<(u32, MidiEventKind)>, MidiParseError>)
    ensures
        match events {
            Ok(v) => {
                &&& v@.len() == absolute_events(smf_tracks(*smf)).len()
                &&& forall|i: int|
                    0 <= i < v@.len() ==> (#[trigger] v@[i]).0 == absolute_events(smf_tracks(*smf))[i].0
                        && v@[i].1 == absolute_events(smf_tracks(*smf))[i].1
                &&& forall|i: int| 0 <= i < v@.len() ==> event_in_range(#[trigger] v@[i].1)
            },
            Err(e) => e == MidiParseError::TickOverflow && exists|i: int|
                0 <= i < absolute_events(smf_tracks(*smf)).len() && #[trigger] absolute_events(
                    smf_tracks(*smf),
                )[i].0 > u32::MAX,
        },
{
    let ghost tracks = smf_tracks(*smf);
    let count = track_count(smf);
    let mut events: Vec<(u32, MidiEventKind)> = Vec::new();
    let mut t: usize = 0;
    while t < count
        invariant
            tracks == smf_tracks(*smf),
            count == tracks.len(),
            t <= count,
            events@.len() == absolute_events(tracks.take(t as int)).len(),
            forall|i: int|
                0 <= i < events@.len() ==> (#[trigger] events@[i]).0 == absolute_events(tracks.take(t as int))[i].0
                    && events@[i].1 == absolute_events(tracks.take(t as int))[i].1,
            forall|i: int| 0 <= i < events@.len() ==> event_in_range(#[trigger] events@[i].1),
        decreases count - t,
    {
        let length = track_length(smf, t);
        let ghost track = tracks[t as int];
        let ghost start = events@.len();
        let ghost done = absolute_events(tracks.take(t as int));
        proof {
            assert(tracks.take(t + 1).drop_last() =~= tracks.take(t as int));
            assert(tracks.take(t + 1).last() == track);
        }
        let mut absolute_tick: u32 = 0;
        let mut i: usize = 0;
        while i < length
            invariant
                tracks == smf_tracks(*smf),
                count == tracks.len(),
                t < count,
                track == tracks[t as int],
                length == track.len(),
                i <= length,
                done == absolute_events(tracks.take(t as int)),
                events@.len() == start + i,
                start == done.len(),
                absolute_tick == tick_sum(track, i - 1),
                forall|j: int|
                    0 <= j < start ==> (#[trigger] events@[j]).0 == done[j].0 && events@[j].1 == done[j].1,
                forall|j: int|
                    start <= j < start + i ==> (#[trigger] events@[j]).0 == tick_sum(track, j - start)
                        && events@[j].1 == track[j - start].1,
                forall|j: int| 0 <= j < events@.len() ==> event_in_range(#[trigger] events@[j].1),
            decreases length - i,
        {
            let (delta, kind) = track_event(smf, t, i);
            match absolute_tick.checked_add(delta) {
                Some(tick) => {
                    absolute_tick = tick;
                },
                None => {
                    proof {
                        let all = absolute_events(tracks);
                        lemma_absolute_events_prefix(tracks, t as int + 1);
                        lemma_absolute_events_step(tracks, t as int);
                        let next = absolute_events(tracks.take(t + 1));
                        assert(next[start + i] == (tick_sum(track, i as int), track[i as int].1));
                        assert(all[start + i] == next[start + i]);
                        assert(all[start + i].0 > u32::MAX);
                    }
                    return Err(MidiParseError::TickOverflow);
                },
            }
            events.push((absolute_tick, kind));
            i += 1;
        }
        proof {
            lemma_absolute_events_step(tracks, t as int);
        }
        t += 1;
    }
    proof {
        assert(tracks.take(count as int) =~= tracks);
    }
    Ok(events)
}

/// One more track appends that track's events.
proof fn lemma_absolute_events_step(tracks: Seq<Seq<(u32, MidiEventKind)>>, t: int)
    requires
        0 <= t < tracks.len(),
    ensures
        absolute_events(tracks.take(t + 1)) == absolute_events(tracks.take(t)) + Seq::new(
            tracks[t].len(),
            |i: int| (tick_sum(tracks[t], i), tracks[t][i].1),
        ),
{
    let a = tracks.take(t + 1);
    assert(a.drop_last() =~= tracks.take(t));
    assert(a.last() == tracks[t]);
}

/// The absolute events of the first tracks are a prefix of those of all tracks.
proof fn lemma_absolute_events_prefix(tracks: Seq<Seq<(u32, MidiEventKind)>>, t: int)
    requires
        0 <= t <= tracks.len(),
    ensures
        absolute_events(tracks.take(t)).len() <= absolute_events(tracks).len(),
        forall|i: int|
            0 <= i < absolute_events(tracks.take(t)).len() ==> #[trigger] absolute_events(tracks.take(t))[i]
                == absolute_events(tracks)[i],
    decreases tracks.len() - t,
{
    if t < tracks.len() {
        lemma_absolute_events_prefix(tracks, t + 1);
        lemma_absolute_events_step(tracks, t);
        assert forall|i: int| 0 <= i < absolute_events(tracks.take(t)).len() implies #[trigger] absolute_events(
            tracks.take(t),
        )[i] == absolute_events(tracks)[i] by {
            assert(absolute_events(tracks.take(t))[i] == absolute_events(tracks.take(t + 1))[i]);
        }
    } else {
        assert(tracks.take(t) =~= tracks);
    }
}


/// The events are in nondecreasing order of time.
pub open spec fn sorted_by_tick(events: Seq<(u32, MidiEventKind)>) -> bool {
    forall|i: int, j: int| 0 <= i <= j < events.len() ==> (#[trigger] events[i]).0 <= (#[trigger] events[j]).0
}

/// The events at `tick`, in their order in `events`.
pub open spec fn events_at_tick(events: Seq<(u32, MidiEventKind)>, tick: u32) -> Seq<(u32, MidiEventKind)> {
    events.filter(|e: (u32, MidiEventKind)| e.0 == tick)
}

/// `order` holds `events` sorted by tick, the events of each tick in their
/// order in `events` (what a stable sort gives, and nothing else does).
pub open spec fn stable_tick_order(events: Seq<(u32, MidiEventKind)>, order: Seq<(u32, MidiEventKind)>) -> bool {
    &&& sorted_by_tick(order)
    &&& forall|tick: u32| #[trigger] events_at_tick(order, tick) == events_at_tick(events, tick)
}

/// Sorts the events by tick (insertion sort; equal ticks keep their order).
fn sort_events_by_tick(events: &mut Vec<(u32, MidiEventKind)>)
    ensures
        stable_tick_order(old(events)@, final(events)@),
        final(events)@.to_multiset() == old(events)@.to_multiset(),
        final(events)@.len() == old(events)@.len(),
{
    let n = events.len();
    if n == 0 {
        return;
    }
    let mut i: usize = 1;
    while i < n
        invariant
            n == events@.len(),
            1 <= i <= n,
            events@.to_multiset() == old(events)@.to_multiset(),
            forall|tick: u32| #[trigger] events_at_tick(events@, tick) == events_at_tick(old(events)@, tick),
            sorted_by_tick(events@.subrange(0, i as int)),
        decreases n - i,
    {
        let mut j = i;
        proof {
            let pre = events@.subrange(0, i as int);
            assert forall|a: int, b: int| 0 <= a <= b <= i && a != j && b != j implies (#[trigger] events@[a]).0
                <= (#[trigger] events@[b]).0 by {
                assert(pre[a] == events@[a]);
                assert(pre[b] == events@[b]);
            }
        }
        while j > 0 && events[j - 1].0 > events[j].0
            invariant
                n == events@.len(),
                1 <= i < n,
                j <= i,
                events@.to_multiset() == old(events)@.to_multiset(),
                forall|tick: u32| #[trigger] events_at_tick(events@, tick) == events_at_tick(old(events)@, tick),
                forall|a: int, b: int|
                    0 <= a <= b <= i && a != j && b != j ==> (#[trigger] events@[a]).0 <= (#[trigger] events@[b]).0,
                forall|b: int| j < b <= i ==> events@[j as int].0 <= (#[trigger] events@[b]).0,
            decreases j,
        {
            let left = events[j - 1];
            let right = events[j];
            let ghost before = events@;
            events.set(j - 1, right);
            events.set(j, left);
            proof {
                let mid = before.update(j - 1, right);
                assert(events@ == mid.update(j as int, left));
                vstd::seq_lib::to_multiset_update(before, j - 1, right);
                vstd::seq_lib::to_multiset_update(mid, j as int, left);
                assert(mid[j as int] == right);
                let m = before.to_multiset();
                assert(m.contains(left) && m.contains(right)) by {
                    vstd::seq_lib::to_multiset_contains(before, left);
                    vstd::seq_lib::to_multiset_contains(before, right);
                    assert(before[j - 1] == left);
                    assert(before[j as int] == right);
                }
                assert(m.insert(right).remove(left).insert(left).remove(right) =~= m);
                assert forall|tick: u32| #[trigger] events_at_tick(events@, tick) == events_at_tick(old(events)@, tick) by {
                    lemma_swap_keeps_filter(before, j as int, |e: (u32, MidiEventKind)| e.0 == tick);
                    assert(events_at_tick(before, tick) == events_at_tick(old(events)@, tick));
                }
            }
            j -= 1;
        }
        proof {
            let pre = events@.subrange(0, i + 1);
            assert forall|a: int, b: int| 0 <= a <= b < pre.len() implies (#[trigger] pre[a]).0
                <= (#[trigger] pre[b]).0 by {
                assert(pre[a] == events@[a]);
                assert(pre[b] == events@[b]);
                if a == j && b != j && j > 0 {
                    assert(events@[j - 1].0 <= events@[j as int].0);
                }
            }
        }
        i += 1;
    }
    proof {
        assert(events@.subrange(0, n as int) =~= events@);
    }
}

/// The key of a (channel, key) pair among the sounding notes.
pub open spec fn channel_key(channel: u8, key: u8) -> u16 {
    (channel as int * 256 + key as int) as u16
}

/// The state of note pairing: the onset times of the sounding notes, keyed by
/// `channel_key`; the program of each of the 16 channels; and the (onset,
/// release) segments of each note, keyed by `midi_note_key`.
pub type PairingState<T> = (Map<u16, T>, Seq<u8>, Map<u16, Seq<(T, T)>>);

/// A note-off: a sounding note on the channel and key ends, and its segment
/// goes to the note of the key and the channel's current program.
pub open spec fn release_note<T>(state: PairingState<T>, channel: u8, key: u8, time: T) -> PairingState<T> {
    let (active, programs, segments) = state;
    let sounding = channel_key(channel, key);
    if active.contains_key(sounding) {
        let note = midi_note_key(MidiNote { midi_note: key, instrument_id: programs[channel as int] });
        let earlier = if segments.contains_key(note) {
            segments[note]
        } else {
            seq![]
        };
        (active.remove(sounding), programs, segments.insert(note, earlier.push((active[sounding], time))))
    } else {
        state
    }
}

/// One event: a program change sets the channel's program, a note-on with a
/// positive velocity (re)starts the note, a note-on with velocity 0 or a
/// note-off releases it; other events change nothing.
pub open spec fn pairing_step<T>(state: PairingState<T>, time: T, kind: MidiEventKind) -> PairingState<T> {
    match kind {
        MidiEventKind::ProgramChange { channel, program } => (
            state.0,
            state.1.update(channel as int, program),
            state.2,
        ),
        MidiEventKind::NoteOn { channel, key, velocity } => if velocity > 0 {
            (state.0.insert(channel_key(channel, key), time), state.1, state.2)
        } else {
            release_note(state, channel, key, time)
        },
        MidiEventKind::NoteOff { channel, key } => release_note(state, channel, key, time),
        _ => state,
    }
}

/// The pairing state after the first `n` events, starting with no sounding
/// notes, program 0 on every channel and no segments.
pub open spec fn pairing_after<T>(events: Seq<(T, MidiEventKind)>, n: nat) -> PairingState<T>
    decreases n,
{
    if n == 0 {
        (Map::empty(), Seq::new(16, |i: int| 0u8), Map::empty())
    } else {
        let (time, kind) = events[n - 1];
        pairing_step(pairing_after(events, (n - 1) as nat), time, kind)
    }
}

/// The note segments of a timed event list.
pub open spec fn note_segments<T>(events: Seq<(T, MidiEventKind)>) -> Map<u16, Seq<(T, T)>> {
    pairing_after(events, events.len()).2
}

/// Each segment list as a sequence.
pub open spec fn segment_lists<T>(segments: Map<u16, Vec<(T, T)>>) -> Map<u16, Seq<(T, T)>> {
    segments.map_values(|v: Vec<(T, T)>| v@)
}

proof fn lemma_programs_len<T>(events: Seq<(T, MidiEventKind)>, n: nat)
    requires
        n <= events.len(),
        forall|i: int| 0 <= i < events.len() ==> event_in_range(#[trigger] events[i].1),
    ensures
        pairing_after(events, n).1.len() == 16,
    decreases n,
{
    if n > 0 {
        lemma_programs_len(events, (n - 1) as nat);
        assert(event_in_range(events[n - 1].1));
    }
}

/// A note message: with a positive velocity the note on the channel and key
/// (re)starts at `time`; with velocity 0 it is released, if it sounds (see
/// `release_note`).
fn handle_note_message<T: Copy>(
    channel: u8,
    key: u8,
    velocity: u8,
    time: T,
    programs: &Vec<u8>,
    active: &mut HashMap<u16, T>,
    segments: &mut HashMap<u16, Vec<(T, T)>>,
)
    requires
        channel < 16,
        programs@.len() == 16,
    ensures
        (final(active)@, programs@, segment_lists(final(segments)@)) == if velocity > 0 {
            (old(active)@.insert(channel_key(channel, key), time), programs@, segment_lists(old(segments)@))
        } else {
            release_note((old(active)@, programs@, segment_lists(old(segments)@)), channel, key, time)
        },
{
    broadcast use vstd::std_specs::hash::group_hash_axioms;

    let sounding = channel as u16 * 256 + key as u16;
    if velocity > 0 {
        active.insert(sounding, time);
        return;
    }
    match active.remove(&sounding) {
        Some(onset) => {
            let note = MidiNote { midi_note: key, instrument_id: programs[channel as usize] }.key();
            let mut list = match segments.remove(&note) {
                Some(list) => list,
                None => Vec::new(),
            };
            list.push((onset, time));
            segments.insert(note, list);
            proof {
                assert(segment_lists(final(segments)@) =~= segment_lists(old(segments)@).insert(note, list@));
            }
        },
        None => {},
    }
}

/// Pairs note-on and note-off events into (onset, release) segments per note
/// (see `note_segments`); the events are taken in the given order.
pub fn pair_note_events<T: Copy>(events: &[(T, MidiEventKind)]) -> (segments: HashMap<u16, Vec<(T, T)>>)
    requires
        forall|i: int| 0 <= i < events@.len() ==> event_in_range(#[trigger] events@[i].1),
    ensures
        segment_lists(segments@) == note_segments(events@),
{
    broadcast use vstd::std_specs::hash::group_hash_axioms;

    let ghost evs = events@;
    let mut active: HashMap<u16, T> = HashMap::new();
    let mut programs: Vec<u8> = vec![0u8; 16];
    let mut segments: HashMap<u16, Vec<(T, T)>> = HashMap::new();
    proof {
        assert(programs@ =~= Seq::new(16, |i: int| 0u8));
        assert(segment_lists(segments@) =~= Map::<u16, Seq<(T, T)>>::empty());
    }
    let n = events.len();
    let mut i: usize = 0;
    while i < n
        invariant
            evs == events@,
            n == evs.len(),
            i <= n,
            forall|j: int| 0 <= j < evs.len() ==> event_in_range(#[trigger] evs[j].1),
            (active@, programs@, segment_lists(segments@)) == pairing_after(evs, i as nat),
        decreases n - i,
    {
        proof {
            lemma_programs_len(evs, i as nat);
            assert(event_in_range(evs[i as int].1));
        }
        let (time, kind) = events[i];
        match kind {
            MidiEventKind::ProgramChange { channel, program } => {
                programs.set(channel as usize, program);
            },
            MidiEventKind::NoteOn { channel, key, velocity } => {
                handle_note_message(channel, key, velocity, time, &programs, &mut active, &mut segments);
            },
            MidiEventKind::NoteOff { channel, key } => {
                handle_note_message(channel, key, 0, time, &programs, &mut active, &mut segments);
            },
            _ => {},
        }
        i += 1;
    }
    segments
}


/// Some absolute tick of the tracks does not fit in 32 bits.
pub open spec fn ticks_overflow(tracks: Seq<Seq<(u32, MidiEventKind)>>) -> bool {
    exists|i: int|
        0 <= i < absolute_events(tracks).len() && #[trigger] absolute_events(tracks)[i].0 > u32::MAX
}

/// Absolute events with their ticks as 32-bit numbers.
pub open spec fn as_tick_events(events: Seq<(int, MidiEventKind)>) -> Seq<(u32, MidiEventKind)> {
    Seq::new(events.len(), |i: int| (events[i].0 as u32, events[i].1))
}

/// Why the bytes give no note events, if they do not.
pub open spec fn midi_parse_error(bytes: Seq<u8>) -> Option<MidiParseError> {
    match standard_midi_file(bytes) {
        None => Some(MidiParseError::Unparsable),
        Some((None, _)) => Some(MidiParseError::NotMetrical),
        Some((Some(_), tracks)) => if ticks_overflow(tracks) {
            Some(MidiParseError::TickOverflow)
        } else {
            None
        },
    }
}

/// The events of a metrical file in `order`: all tracks' events with
/// absolute ticks, track after track, stably sorted by tick (see
/// `stable_tick_order`; one order only meets this).
pub open spec fn is_tick_order(bytes: Seq<u8>, order: Seq<(u32, MidiEventKind)>) -> bool {
    standard_midi_file(bytes) matches Some((Some(_), tracks)) && stable_tick_order(
        as_tick_events(absolute_events(tracks)),
        order,
    )
}

/// All tracks' events of a parsed file with absolute ticks, track after
/// track, stably sorted by tick; `TickOverflow` when a tick does not fit in
/// 32 bits.
pub fn prepare_events(smf: &midly::Smf) -> (events: Result<Vec<(u32, MidiEventKind)>, MidiParseError>)
    ensures
        match events {
            Ok(v) => {
                &&& !ticks_overflow(smf_tracks(*smf))
                &&& stable_tick_order(as_tick_events(absolute_events(smf_tracks(*smf))), v@)
                &&& forall|i: int| 0 <= i < v@.len() ==> event_in_range(#[trigger] v@[i].1)
            },
            Err(e) => e == MidiParseError::TickOverflow && ticks_overflow(smf_tracks(*smf)),
        },
{
    let ghost tracks = smf_tracks(*smf);
    let mut events = match absolute_track_events(smf) {
        Ok(events) => events,
        Err(e) => {
            return Err(e);
        },
    };
    let ghost unsorted = events@;
    proof {
        let all = absolute_events(tracks);
        assert(!ticks_overflow(tracks)) by {
            if ticks_overflow(tracks) {
                let i = choose|i: int| 0 <= i < all.len() && #[trigger] all[i].0 > u32::MAX;
                assert(unsorted[i].0 == all[i].0);
            }
        }
        assert(unsorted =~= as_tick_events(all));
    }
    sort_events_by_tick(&mut events);
    proof {
        assert forall|i: int| 0 <= i < events@.len() implies event_in_range(#[trigger] events@[i].1) by {
            vstd::seq_lib::to_multiset_contains(events@, events@[i]);
            assert(unsorted.to_multiset().contains(events@[i]));
            vstd::seq_lib::to_multiset_contains(unsorted, events@[i]);
            let j = choose|j: int| 0 <= j < unsorted.len() && unsorted[j] == events@[i];
            assert(event_in_range(unsorted[j].1));
        }
    }
    Ok(events)
}

/// The events with a program change of `channel` to `program` put first, at
/// tick 0; like midly's `u4` and `u7`, the channel keeps its low 4 bits and
/// the program its low 7.
pub fn inject_program_change(events: Vec<(u32, MidiEventKind)>, channel: u8, program: u8) -> (injected: Vec<(u32, MidiEventKind)>)
    ensures
        injected@ == seq![(0u32, MidiEventKind::ProgramChange { channel: channel % 16, program: program % 128 })] + events@,
{
    let mut events = events;
    let c = channel & 0x0f;
    let p = program & 0x7f;
    proof {
        assert(c == channel % 16) by (bit_vector)
            requires
                c == channel & 0x0f,
        ;
        assert(p == program % 128) by (bit_vector)
            requires
                p == program & 0x7f,
        ;
    }
    let ghost given = events@;
    events.insert(0, (0, MidiEventKind::ProgramChange { channel: c, program: p }));
    proof {
        assert(events@ =~= seq![(0u32, MidiEventKind::ProgramChange { channel: channel % 16, program: program % 128 })] + given);
    }
    events
}

/// The ticks per quarter note of a metrical MIDI file and all its tracks'
/// events with absolute ticks, sorted by tick; or why there are none.
pub fn sorted_midi_events(midi_bytes: &[u8]) -> (result: Result<(u16, Vec<(u32, MidiEventKind)>), MidiParseError>)
    ensures
        match result {
            Ok((ticks_per_quarter, events)) => {
                &&& midi_parse_error(midi_bytes@) is None
                &&& standard_midi_file(midi_bytes@) matches Some((Some(t), _)) && t == ticks_per_quarter
                &&& is_tick_order(midi_bytes@, events@)
                &&& forall|i: int| 0 <= i < events@.len() ==> event_in_range(#[trigger] events@[i].1)
            },
            Err(e) => midi_parse_error(midi_bytes@) == Some(e),
        },
{
    let smf = match parse_smf(midi_bytes) {
        Ok(smf) => smf,
        Err(_) => {
            return Err(MidiParseError::Unparsable);
        },
    };
    let ghost tracks = smf_tracks(smf);
    let ticks = match ticks_per_quarter(&smf) {
        Some(t) => t,
        None => {
            return Err(MidiParseError::NotMetrical);
        },
    };
    let events = match prepare_events(&smf) {
        Ok(events) => events,
        Err(e) => {
            return Err(e);
        },
    };
    Ok((ticks, events))
}

/// The (onset, release) tick segments of every note of a metrical MIDI file,
/// keyed by `midi_note_key`: the pairing (see `note_segments`) of all events
/// in their stable order by tick (see `is_tick_order`); or why there are
/// none.
pub fn parse_midi_events_into_note_on_off_event_buffer_ticks_from_bytes(
    midi_bytes: &[u8],
) -> (result: Result<HashMap<u16, Vec<(u32, u32)>>, MidiParseError>)
    ensures
        match result {
            Ok(segments) => midi_parse_error(midi_bytes@) is None && exists|order: Seq<(u32, MidiEventKind)>|
                is_tick_order(midi_bytes@, order) && segment_lists(segments@) == note_segments(order),
            Err(e) => midi_parse_error(midi_bytes@) == Some(e),
        },
{
    match sorted_midi_events(midi_bytes) {
        Ok((_, events)) => {
            let segments = pair_note_events(events.as_slice());
            proof {
                assert(is_tick_order(midi_bytes@, events@));
            }
            Ok(segments)
        },
        Err(e) => Err(e),
    }
}


proof fn lemma_little_endian_length(v: int, count: nat)
    ensures
        little_endian(v, count).len() == count,
    decreases count,
{
    if count > 0 {
        lemma_little_endian_length(v / 256, (count - 1) as nat);
    }
}

proof fn lemma_frame_bytes_length(samples: Seq<(i16, i16)>)
    ensures
        frame_bytes(samples).len() == 4 * samples.len(),
    decreases samples.len(),
{
    if samples.len() > 0 {
        lemma_frame_bytes_length(samples.drop_last());
        let last = samples.last();
        lemma_little_endian_length(if last.0 < 0 { last.0 + 0x1_0000 } else { last.0 as int }, 2);
        lemma_little_endian_length(if last.1 < 0 { last.1 + 0x1_0000 } else { last.1 as int }, 2);
    }
}

/// A stereo 16-bit WAVE file is its 44-byte header followed by four bytes
/// per frame.
pub proof fn lemma_wav_length(sample_rate: u32, samples: Seq<(i16, i16)>)
    ensures
        stereo_pcm16_wav(sample_rate, samples).len() == 44 + 4 * samples.len(),
{
    let data_length = 4 * samples.len() as int;
    lemma_little_endian_length(data_length + 36, 4);
    lemma_little_endian_length(16, 4);
    lemma_little_endian_length(1, 2);
    lemma_little_endian_length(2, 2);
    lemma_little_endian_length(sample_rate as int, 4);
    lemma_little_endian_length(4 * sample_rate, 4);
    lemma_little_endian_length(4, 2);
    lemma_little_endian_length(16, 2);
    lemma_little_endian_length(data_length, 4);
    lemma_frame_bytes_length(samples);
}

/// Sounding notes on distinct (channel, key) pairs have distinct keys.
pub proof fn lemma_channel_key_injective(channel_a: u8, key_a: u8, channel_b: u8, key_b: u8)
    requires
        channel_a < 16,
        channel_b < 16,
    ensures
        channel_key(channel_a, key_a) == channel_key(channel_b, key_b) <==> channel_a == channel_b && key_a == key_b,
{
    let ka = channel_a as int * 256 + key_a as int;
    let kb = channel_b as int * 256 + key_b as int;
    assert(0 <= ka < 0x10000 && 0 <= kb < 0x10000);
    if ka == kb {
        assert(channel_a == channel_b && key_a == key_b) by (nonlinear_arith)
            requires
                channel_a as int * 256 + key_a as int == channel_b as int * 256 + key_b as int,
                0 <= key_a < 256,
                0 <= key_b < 256,
        ;
    }
}

/// An event on one channel leaves the sounding notes of every other channel
/// as they were: notes with the same key on different channels are paired
/// independently.
pub proof fn lemma_other_channels_untouched<T>(
    state: PairingState<T>,
    time: T,
    kind: MidiEventKind,
    channel: u8,
    key: u8,
)
    requires
        event_in_range(kind),
        channel < 16,
        match kind {
            MidiEventKind::NoteOn { channel: c, .. } => c != channel,
            MidiEventKind::NoteOff { channel: c, .. } => c != channel,
            _ => true,
        },
    ensures
        ({
            let after = pairing_step(state, time, kind);
            let sounding = channel_key(channel, key);
            &&& after.0.contains_key(sounding) == state.0.contains_key(sounding)
            &&& state.0.contains_key(sounding) ==> after.0[sounding] == state.0[sounding]
        }),
{
    match kind {
        MidiEventKind::NoteOn { channel: c, key: k, .. } => {
            lemma_channel_key_injective(c, k, channel, key);
        },
        MidiEventKind::NoteOff { channel: c, key: k } => {
            lemma_channel_key_injective(c, k, channel, key);
        },
        _ => {},
    }
}

/// A note-off right after a note-on of the same channel and key adds the
/// segment from the note-on's time to the note-off's time to the note of
/// that key and the channel's program.
pub proof fn lemma_note_on_then_off<T>(
    state: PairingState<T>,
    onset: T,
    release: T,
    channel: u8,
    key: u8,
    velocity: u8,
)
    requires
        velocity > 0,
    ensures
        ({
            let after = pairing_step(
                pairing_step(state, onset, MidiEventKind::NoteOn { channel, key, velocity }),
                release,
                MidiEventKind::NoteOff { channel, key },
            );
            let note = midi_note_key(MidiNote { midi_note: key, instrument_id: state.1[channel as int] });
            let earlier = if state.2.contains_key(note) {
                state.2[note]
            } else {
                seq![]
            };
            after.2 == state.2.insert(note, earlier.push((onset, release)))
        }),
{
}

/// Distinct notes have distinct keys.
pub proof fn lemma_midi_note_key_injective(a: MidiNote, b: MidiNote)
    requires
        midi_note_key(a) == midi_note_key(b),
    ensures
        a == b,
{
    let ka = a.midi_note as int * 256 + a.instrument_id as int;
    let kb = b.midi_note as int * 256 + b.instrument_id as int;
    assert(ka == kb);
    assert(a.midi_note == b.midi_note && a.instrument_id == b.instrument_id) by (nonlinear_arith)
        requires
            a.midi_note as int * 256 + a.instrument_id as int == b.midi_note as int * 256 + b.instrument_id as int,
            0 <= a.instrument_id < 256,
            0 <= b.instrument_id < 256,
    ;
}

/// The pairing state after `n` events in tick order: every sounding note
/// started at or before the last of those ticks, and every segment ends no
/// earlier than it starts.
proof fn lemma_pairing_ordered(events: Seq<(u32, MidiEventKind)>, n: nat)
    requires
        n <= events.len(),
        sorted_by_tick(events),
    ensures
        n > 0 ==> forall|k: u16| #[trigger] pairing_after(events, n).0.contains_key(k) ==> pairing_after(events, n).0[k]
            <= events[n - 1].0,
        forall|k: u16, i: int|
            pairing_after(events, n).2.contains_key(k) && 0 <= i < pairing_after(events, n).2[k].len() ==> (
            #[trigger] pairing_after(events, n).2[k][i]).0 <= pairing_after(events, n).2[k][i].1,
    decreases n,
{
    if n > 0 {
        let m = (n - 1) as nat;
        lemma_pairing_ordered(events, m);
        let state = pairing_after(events, m);
        let (time, kind) = events[n - 1];
        if m > 0 {
            assert(events[m - 1].0 <= events[n - 1].0);
        }
        let next = pairing_after(events, n);
        assert(next == pairing_step(state, time, kind));
        assert forall|k: u16| #[trigger] next.0.contains_key(k) implies next.0[k] <= time by {
            if state.0.contains_key(k) && state.0[k] == next.0[k] {
            }
        }
        assert forall|k: u16, i: int|
            next.2.contains_key(k) && 0 <= i < next.2[k].len() implies (#[trigger] next.2[k][i]).0 <= next.2[k][i].1 by {
            if state.2.contains_key(k) && i < state.2[k].len() && next.2[k][i] == state.2[k][i] {
            }
        }
    }
}

/// Paired in tick order, every note segment ends no earlier than it starts.
pub proof fn lemma_segments_ordered(events: Seq<(u32, MidiEventKind)>)
    requires
        sorted_by_tick(events),
    ensures
        forall|k: u16, i: int|
            note_segments(events).contains_key(k) && 0 <= i < note_segments(events)[k].len() ==> (
            #[trigger] note_segments(events)[k][i]).0 <= note_segments(events)[k][i].1,
{
    lemma_pairing_ordered(events, events.len());
}

} // verus!
