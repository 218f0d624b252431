use bath::keys::{key_bindings, midi_note, note_name_no_octave, note_to_name, KeyBinding, BASE_OCTAVE};
use bath::midi::util::{
    inject_program_change, pair_note_events, parse_midi_events_into_note_on_off_event_buffer_ticks_from_bytes,
    prepare_events, sorted_midi_events,
    write_samples_to_wav, write_samples_to_wav_bytes, MidiEventKind, MidiNote, MidiParseError,
};

fn note_key(midi_note: u8, instrument_id: u8) -> u16 {
    MidiNote { midi_note, instrument_id }.key()
}

/// A Standard MIDI File with the given division and tracks (raw track bytes).
fn smf(format: u16, division: [u8; 2], tracks: &[Vec<u8>]) -> Vec<u8> {
    let mut bytes = b"MThd".to_vec();
    bytes.extend_from_slice(&6u32.to_be_bytes());
    bytes.extend_from_slice(&format.to_be_bytes());
    bytes.extend_from_slice(&(tracks.len() as u16).to_be_bytes());
    bytes.extend_from_slice(&division);
    for track in tracks {
        bytes.extend_from_slice(b"MTrk");
        bytes.extend_from_slice(&(track.len() as u32).to_be_bytes());
        bytes.extend_from_slice(track);
    }
    bytes
}

fn single_track_song() -> Vec<u8> {
    let track = vec![
        0x00, 0xC0, 0x05, // program 5 on channel 0
        0x00, 0x90, 0x3C, 0x64, // note on 60
        0x60, 0x80, 0x3C, 0x00, // 96 ticks later: note off 60
        0x00, 0x90, 0x3E, 0x5A, // note on 62
        0x30, 0x90, 0x3E, 0x00, // 48 ticks later: note on 62 with velocity 0
        0x00, 0xFF, 0x2F, 0x00, // end of track
    ];
    smf(0, [0x00, 0x60], &[track])
}

#[test]
fn note_names_with_octaves() {
    assert_eq!(note_to_name(60), "C4");
    assert_eq!(note_to_name(61), "C♯4");
    assert_eq!(note_to_name(69), "A4");
    assert_eq!(note_to_name(127), "G9");
    assert_eq!(note_to_name(120), "C9");
}

#[test]
fn low_notes_stay_in_octave_zero() {
    assert_eq!(note_to_name(0), "C0");
    assert_eq!(note_to_name(11), "B0");
    assert_eq!(note_to_name(12), "C0");
    assert_eq!(note_to_name(23), "B0");
    assert_eq!(note_to_name(24), "C1");
}

#[test]
fn note_names_without_octave() {
    assert_eq!(note_name_no_octave(60), "C");
    assert_eq!(note_name_no_octave(70), "A♯");
    assert_eq!(note_name_no_octave(255), "D♯");
}

#[test]
fn midi_note_keys_are_distinct() {
    assert_eq!(note_key(60, 5), 60 * 256 + 5);
    assert_ne!(note_key(1, 0), note_key(0, 1));
}

#[test]
fn wav_bytes_of_two_frames() {
    let bytes = write_samples_to_wav_bytes(44100, &[(1, -1), (256, -32768)]).unwrap();
    let expected: Vec<u8> = vec![
        82, 73, 70, 70, 44, 0, 0, 0, 87, 65, 86, 69, 102, 109, 116, 32, 16, 0, 0, 0, 1, 0, 2, 0, 68, 172, 0, 0, 16,
        177, 2, 0, 4, 0, 16, 0, 100, 97, 116, 97, 8, 0, 0, 0, 1, 0, 255, 255, 0, 1, 0, 128,
    ];
    assert_eq!(bytes, expected);
}

#[test]
fn wav_bytes_without_samples_are_the_header() {
    let bytes = write_samples_to_wav(8000, Vec::new()).unwrap();
    let expected: Vec<u8> = vec![
        82, 73, 70, 70, 36, 0, 0, 0, 87, 65, 86, 69, 102, 109, 116, 32, 16, 0, 0, 0, 1, 0, 2, 0, 64, 31, 0, 0, 0, 125,
        0, 0, 4, 0, 16, 0, 100, 97, 116, 97, 0, 0, 0, 0,
    ];
    assert_eq!(bytes, expected);
}

#[test]
fn wav_bytes_of_one_frame() {
    let bytes = write_samples_to_wav(22050, vec![(-1, 2)]).unwrap();
    assert_eq!(bytes.len(), 48);
    assert_eq!(&bytes[24..28], &[34, 86, 0, 0]);
    assert_eq!(&bytes[28..32], &[136, 88, 1, 0]);
    assert_eq!(&bytes[44..48], &[255, 255, 2, 0]);
}

#[test]
fn pairing_releases_on_note_off_and_zero_velocity() {
    let events = vec![
        (0u32, MidiEventKind::ProgramChange { channel: 0, program: 5 }),
        (0, MidiEventKind::NoteOn { channel: 0, key: 60, velocity: 100 }),
        (96, MidiEventKind::NoteOff { channel: 0, key: 60 }),
        (96, MidiEventKind::NoteOn { channel: 0, key: 62, velocity: 90 }),
        (144, MidiEventKind::NoteOn { channel: 0, key: 62, velocity: 0 }),
    ];
    let segments = pair_note_events(&events);
    assert_eq!(segments.len(), 2);
    assert_eq!(segments[&note_key(60, 5)], vec![(0, 96)]);
    assert_eq!(segments[&note_key(62, 5)], vec![(96, 144)]);
}

#[test]
fn pairing_restarts_a_sounding_note_and_ignores_stray_offs() {
    let events = vec![
        (0u32, MidiEventKind::NoteOn { channel: 1, key: 40, velocity: 10 }),
        (5, MidiEventKind::NoteOn { channel: 1, key: 40, velocity: 20 }),
        (9, MidiEventKind::NoteOff { channel: 1, key: 40 }),
        (12, MidiEventKind::NoteOff { channel: 1, key: 40 }),
        (13, MidiEventKind::NoteOff { channel: 2, key: 41 }),
        (14, MidiEventKind::Tempo { microseconds_per_quarter: 400000 }),
        (15, MidiEventKind::Other),
    ];
    let segments = pair_note_events(&events);
    assert_eq!(segments.len(), 1);
    assert_eq!(segments[&note_key(40, 0)], vec![(5, 9)]);
}

#[test]
fn pairing_uses_the_program_at_release() {
    let events = vec![
        (0u32, MidiEventKind::NoteOn { channel: 3, key: 50, velocity: 1 }),
        (1, MidiEventKind::ProgramChange { channel: 3, program: 7 }),
        (2, MidiEventKind::NoteOff { channel: 3, key: 50 }),
        (3, MidiEventKind::NoteOn { channel: 3, key: 50, velocity: 1 }),
        (4, MidiEventKind::NoteOff { channel: 3, key: 50 }),
    ];
    let segments = pair_note_events(&events);
    assert_eq!(segments[&note_key(50, 7)], vec![(0, 2), (3, 4)]);
}

#[test]
fn pairing_of_no_events_is_empty() {
    let events: Vec<(u32, MidiEventKind)> = Vec::new();
    assert!(pair_note_events(&events).is_empty());
}

#[test]
fn midi_file_note_segments_in_ticks() {
    let segments = parse_midi_events_into_note_on_off_event_buffer_ticks_from_bytes(&single_track_song()).unwrap();
    assert_eq!(segments.len(), 2);
    assert_eq!(segments[&note_key(60, 5)], vec![(0, 96)]);
    assert_eq!(segments[&note_key(62, 5)], vec![(96, 144)]);
}

#[test]
fn midi_file_events_are_sorted_across_tracks() {
    let first = vec![0x00, 0x90, 0x3C, 0x40, 0x64, 0x80, 0x3C, 0x00, 0x00, 0xFF, 0x2F, 0x00];
    let second = vec![0x00, 0xC1, 0x03, 0x32, 0x91, 0x40, 0x40, 0x64, 0x81, 0x40, 0x00, 0x00, 0xFF, 0x2F, 0x00];
    let bytes = smf(1, [0x00, 0x30], &[first, second]);
    let (ticks_per_quarter, events) = sorted_midi_events(&bytes).unwrap();
    assert_eq!(ticks_per_quarter, 48);
    let ticks: Vec<u32> = events.iter().map(|e| e.0).collect();
    assert_eq!(ticks, vec![0, 0, 50, 100, 100, 150, 150]);
    let segments = parse_midi_events_into_note_on_off_event_buffer_ticks_from_bytes(&bytes).unwrap();
    assert_eq!(segments[&note_key(60, 0)], vec![(0, 100)]);
    assert_eq!(segments[&note_key(64, 3)], vec![(50, 150)]);
}

#[test]
fn midi_file_tempo_events_are_read() {
    let track = vec![0x00, 0xFF, 0x51, 0x03, 0x07, 0xA1, 0x20, 0x00, 0xFF, 0x2F, 0x00];
    let (_, events) = sorted_midi_events(&smf(0, [0x00, 0x60], &[track])).unwrap();
    assert_eq!(events[0], (0, MidiEventKind::Tempo { microseconds_per_quarter: 500000 }));
    assert_eq!(events[1], (0, MidiEventKind::Other));
}

#[test]
fn unparsable_midi_bytes_are_refused() {
    assert_eq!(
        parse_midi_events_into_note_on_off_event_buffer_ticks_from_bytes(b"not a midi file").unwrap_err(),
        MidiParseError::Unparsable
    );
}

#[test]
fn timecode_midi_files_are_refused() {
    let track = vec![0x00, 0xFF, 0x2F, 0x00];
    let bytes = smf(0, [0xE7, 0x28], &[track]);
    assert_eq!(
        parse_midi_events_into_note_on_off_event_buffer_ticks_from_bytes(&bytes).unwrap_err(),
        MidiParseError::NotMetrical
    );
}

#[test]
fn overflowing_ticks_are_refused() {
    // twenty deltas of 2^28 - 1 ticks add up past 2^32
    let mut track = Vec::new();
    for _ in 0..20 {
        track.extend_from_slice(&[0xFF, 0xFF, 0xFF, 0x7F, 0xB0, 0x07, 0x64]);
    }
    track.extend_from_slice(&[0x00, 0xFF, 0x2F, 0x00]);
    let bytes = smf(0, [0x00, 0x60], &[track]);
    assert_eq!(sorted_midi_events(&bytes).unwrap_err(), MidiParseError::TickOverflow);
}

fn two_track_song() -> Vec<u8> {
    let first = vec![0x00, 0x90, 0x3C, 0x40, 0x64, 0x80, 0x3C, 0x00, 0x00, 0xFF, 0x2F, 0x00];
    let second = vec![0x00, 0xC1, 0x03, 0x32, 0x91, 0x40, 0x40, 0x64, 0x81, 0x40, 0x00, 0x00, 0xFF, 0x2F, 0x00];
    smf(1, [0x00, 0x30], &[first, second])
}

fn two_track_song_in_tick_order() -> Vec<(u32, MidiEventKind)> {
    vec![
        (0, MidiEventKind::NoteOn { channel: 0, key: 60, velocity: 64 }),
        (0, MidiEventKind::ProgramChange { channel: 1, program: 3 }),
        (50, MidiEventKind::NoteOn { channel: 1, key: 64, velocity: 64 }),
        (100, MidiEventKind::NoteOff { channel: 0, key: 60 }),
        (100, MidiEventKind::Other),
        (150, MidiEventKind::NoteOff { channel: 1, key: 64 }),
        (150, MidiEventKind::Other),
    ]
}

#[test]
fn events_of_one_tick_keep_their_track_order() {
    let (_, events) = sorted_midi_events(&two_track_song()).unwrap();
    assert_eq!(events, two_track_song_in_tick_order());
}

#[test]
fn prepared_events_of_a_parsed_file() {
    let bytes = two_track_song();
    let smf = midly::Smf::parse(&bytes).unwrap();
    assert_eq!(prepare_events(&smf).unwrap(), two_track_song_in_tick_order());
}

#[test]
fn prepared_events_refuse_overflowing_ticks() {
    let mut track = Vec::new();
    for _ in 0..20 {
        track.extend_from_slice(&[0xFF, 0xFF, 0xFF, 0x7F, 0xB0, 0x07, 0x64]);
    }
    track.extend_from_slice(&[0x00, 0xFF, 0x2F, 0x00]);
    let bytes = smf(0, [0x00, 0x60], &[track]);
    let smf = midly::Smf::parse(&bytes).unwrap();
    assert_eq!(prepare_events(&smf).unwrap_err(), MidiParseError::TickOverflow);
}

#[test]
fn program_change_is_put_first_with_masked_numbers() {
    let events = vec![(5, MidiEventKind::NoteOn { channel: 2, key: 60, velocity: 100 })];
    let injected = inject_program_change(events.clone(), 17, 200);
    assert_eq!(injected[0], (0, MidiEventKind::ProgramChange { channel: 1, program: 72 }));
    assert_eq!(injected[1..], events[..]);
    let into_empty = inject_program_change(Vec::new(), 9, 40);
    assert_eq!(into_empty, vec![(0, MidiEventKind::ProgramChange { channel: 9, program: 40 })]);
}

#[test]
fn keyboard_keys_play_one_octave_from_middle_c() {
    let bindings = key_bindings();
    let labels: String = bindings.iter().map(|b| b.label).collect();
    assert_eq!(labels, "AWSEDFTGYHUJ");
    let notes: Vec<u8> = bindings.iter().map(|b| b.midi_note).collect();
    assert_eq!(notes, (60..72).collect::<Vec<u8>>());
    assert_eq!(bindings[0], KeyBinding { label: 'A', midi_note: 60 });
    assert_eq!(note_name_no_octave(bindings[1].midi_note), "C♯");
}

#[test]
fn midi_note_counts_twelve_to_the_octave() {
    assert_eq!(midi_note(0, BASE_OCTAVE), 60);
    assert_eq!(midi_note(11, 4), 59);
    assert_eq!(midi_note(9, 0), 9);
    assert_eq!(midi_note(0, -1), 244);
}
