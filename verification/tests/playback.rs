use viper::audio::{
    advance, apply_live, apu_position, bounce_at, bounce_steps, channel_mask, gate_due, gate_step,
    mute_voices, new_voices, song_rows, step_samples, sync, wav_pcm16_mono, BounceError, EnvPhase,
    LiveEvent, Position, Transport, Voice,
};
use viper::compile::{lower, noise_period_index, Event, Warning};
use viper::dpcm::{encode_dmc, note_to_sample};
use viper::midi::{export_phrase_to_midi, noi_to_gm_drum, write_vlq, PPQN};
use viper::song::{Cell, Instrument, Phrase, Song, CHANNELS, INSTRUMENTS, STEPS_PER_PHRASE};
use viper::vip::{from_vip, swing_groove};

fn note(n: u8) -> Cell {
    Cell { note: Some(n), ..Default::default() }
}

#[test]
fn bounce_rejects_zero_loops() {
    let err = bounce_steps(0, 1).unwrap_err();
    assert!(err.message().contains("loops"));
    assert_eq!(bounce_steps(1, 0).unwrap_err(), BounceError::NothingToRender);
    assert_eq!(bounce_steps(2, 3).unwrap(), 96);
    assert_eq!(bounce_at(17, 3), (1, 1));
}

#[test]
fn wav_files_have_a_header() {
    let samples: Vec<i16> = (0..2000).map(|i| if i % 50 < 25 { 8000 } else { -8000 }).collect();
    let bytes = wav_pcm16_mono(44_100, &samples);
    assert_eq!(&bytes[..4], b"RIFF");
    assert_eq!(&bytes[8..12], b"WAVE");
    assert_eq!(&bytes[12..16], b"fmt ");
    assert_eq!(&bytes[36..40], b"data");
    let data = &bytes[44..];
    let nonzero =
        data.chunks(2).filter(|c| i16::from_le_bytes([c[0], c[1]]) != 0).count();
    assert!(nonzero > 1000, "too few non-zero samples: {}", nonzero);
    assert_eq!(u32::from_le_bytes([bytes[24], bytes[25], bytes[26], bytes[27]]), 44_100);
}

#[test]
fn groove_shifts_steps_but_keeps_the_bar_length() {
    let swing = swing_groove(300);
    assert_eq!(step_samples(10_000, &swing, 0), 9_700);
    assert_eq!(step_samples(10_000, &swing, 1), 10_300);
    let bar: u32 = (0..16).map(|s| step_samples(10_000, &swing, s)).sum();
    assert_eq!(bar, 160_000);
    assert_eq!(step_samples(10, &[-500; 16], 3), 1);
}

#[test]
fn polymeter_wraps_a_short_channel_inside_the_phrase() {
    let mut p = Phrase::default();
    p.cells[0][0] = Cell { note: Some(60), instr: 0, vol: 0, fx: None, hold: false };
    let instr = [Instrument::default(); INSTRUMENTS];
    let mut len = [STEPS_PER_PHRASE as u8; CHANNELS];
    len[0] = 4;
    let mut voices = new_voices();
    gate_step(&mut voices, &p, 4, &instr, &[false; CHANNELS], &len);
    assert!(voices[0].held(), "PU1 with length 4 retriggers on step 4");
    gate_step(&mut voices, &p, 5, &instr, &[false; CHANNELS], &len);
    assert!(!voices[0].held());
    let mut voices = new_voices();
    gate_step(
        &mut voices,
        &p,
        4,
        &instr,
        &[false; CHANNELS],
        &[STEPS_PER_PHRASE as u8; CHANNELS],
    );
    assert!(!voices[0].held());
}

#[test]
fn apu_position_wraps_to_loop_point() {
    // Four order entries, loop at 1, 4.5 frames per row.
    assert_eq!(apu_position(1, 9, 2, 64, 16), (0, 0));
    assert_eq!(apu_position(64 * 45 / 10 + 1, 9, 2, 64, 16), (0, 1));
    assert_eq!(apu_position(520, 9, 2, 64, 16), (3, 1));
}

#[test]
fn a_sample_is_not_cut_off() {
    let mut v = Voice::new(4);
    v.gate_on(60, Instrument::default(), 15);
    v.gate_off();
    assert!(v.sample.is_some());
    v.end_sample();
    assert!(v.sample.is_none());
}

#[test]
fn live_notes_release_by_themselves() {
    let instr = [Instrument::default(); INSTRUMENTS];
    let muted = [false; CHANNELS];
    let mut voices = new_voices();
    let on = LiveEvent::GateOn { ch: 1, note: 60, instr: 0, vel: 15, hold_ms: Some(180) };
    apply_live(&mut voices, on, &instr, &muted, 44_100);
    assert!(voices[1].held());
    assert_eq!(voices[1].auto_release, 7938);
    for _ in 0..7938 {
        voices[1].count_down();
    }
    assert_eq!(voices[1].env, EnvPhase::Release);
    apply_live(&mut voices, LiveEvent::AllOff, &instr, &muted, 44_100);
    assert_eq!(voices[1].env, EnvPhase::Idle);
    let mut quiet = [false; CHANNELS];
    quiet[1] = true;
    apply_live(&mut voices, on, &instr, &quiet, 44_100);
    assert!(!voices[1].held());
}

#[test]
fn muted_channels_fall_silent() {
    let instr = [Instrument::default(); INSTRUMENTS];
    let mut voices = new_voices();
    let mut p = Phrase::default();
    p.cells[0][0] = note(60);
    p.cells[0][2] = note(40);
    gate_step(&mut voices, &p, 0, &instr, &[false; CHANNELS], &[16; CHANNELS]);
    let mut muted = [false; CHANNELS];
    muted[0] = true;
    mute_voices(&mut voices, &muted);
    assert!(!voices[0].held() && voices[2].held());
    assert_eq!(channel_mask(&muted), 0b11110);
}

#[test]
fn the_transport_walks_the_order() {
    let mut t = Transport::default();
    t.playing = true;
    t.song_mode = true;
    t.phrases = vec![Phrase::default(), Phrase::default()];
    t.order = vec![1, 0];
    t.loop_pos = 1;
    let mut p = Position::new();
    let mut voices = new_voices();
    sync(&mut p, &mut voices, &t);
    assert_eq!((p.step, p.order_pos, p.phrase), (0, 0, 1));
    gate_due(&mut p, &mut voices, &t);
    assert_eq!(p.gated, Some(0));
    for _ in 0..16 {
        advance(&mut p, &t, 1);
    }
    assert_eq!((p.step, p.order_pos, p.phrase), (0, 1, 0));
    for _ in 0..16 {
        advance(&mut p, &t, 1);
    }
    assert_eq!((p.order_pos, p.phrase), (1, 0));
    assert_eq!(song_rows(4, 1), (64, 16));
}

#[test]
fn noise_mapping_is_monotonic() {
    assert_eq!(noise_period_index(36), 15);
    assert_eq!(noise_period_index(60), 9);
    assert_eq!(noise_period_index(96), 0);
    assert_eq!(noise_period_index(120), 0);
}

#[test]
fn lowering_emits_instr_vol_note_and_off() {
    let mut song = Song::default();
    song.phrases[0].cells[0][0] =
        Cell { note: Some(64), instr: 1, vol: 0, fx: None, hold: false };
    song.phrases[0].cells[2][0] =
        Cell { note: Some(66), instr: 1, vol: 8, fx: Some((b'V', 0x63)), hold: false };
    let l = lower(&song);
    let p = &l.patterns[0];
    assert_eq!(*p.events(0, 0), vec![Event::Instr(1), Event::Vol(15), Event::Note(40)]);
    assert_eq!(*p.events(1, 0), vec![Event::Off]);
    assert_eq!(
        *p.events(2, 0),
        vec![Event::Vol(8), Event::Vibrato { depth: 6, rate: 3 }, Event::Note(42)]
    );
    assert_eq!(*p.events(3, 0), vec![Event::Off]);
    assert_eq!(*p.events(0, 1), vec![Event::Off]);
    assert!(p.events(1, 1).is_empty());
    assert!(p.events(0, 4).is_empty());
    assert_eq!(viper::compile::count_samples(&song), 3);
}

#[test]
fn holds_are_lowered_to_nothing() {
    let mut song = Song::default();
    song.phrases[0].cells[0][0] = note(64);
    song.phrases[0].cells[1][0] = Cell::hold();
    let l = lower(&song);
    assert!(l.patterns[0].events(1, 0).is_empty());
    assert_eq!(*l.patterns[0].events(2, 0), vec![Event::Off]);
}

#[test]
fn lowering_warns() {
    let mut song = Song::default();
    song.phrases[0].cells[0][0] = note(20);
    song.phrases[0].cells[1][0] = Cell { fx: Some((b'Q', 1)), ..note(60) };
    let l = lower(&song);
    assert!(l.warnings.contains(&Warning::NoOrder));
    assert!(l.warnings.contains(&Warning::LowNotes(1)));
    assert!(l.warnings.contains(&Warning::NoEffect(b'Q')));
    assert_eq!(Warning::NoOrder.message(), "no order list; playing all phrases in index order");
    assert_eq!(Warning::NoEffect(b'Q').message(), "effect `Q` has no NSF meaning; ignored");
}

#[test]
fn encoded_samples_are_padded() {
    for len in [0usize, 1, 200, 1000, 4000] {
        let wave: Vec<i32> = (0..len).map(|i| ((i as i32 * 7919) % 2_000_001) - 1_000_000).collect();
        let a = encode_dmc(&wave);
        let b = encode_dmc(&wave);
        assert_eq!(a, b);
        assert_eq!(a.len() % 16, 1, "{} not 16n+1", len);
        assert!(a.len() < 0xFF1);
    }
}

#[test]
fn sample_note_mapping() {
    assert_eq!(note_to_sample(60), 0);
    assert_eq!(note_to_sample(62), 2);
    assert_eq!(note_to_sample(40), 0);
}

#[test]
fn vlq_encoding_roundtrips_standard_examples() {
    let cases = [
        (0u32, vec![0x00]),
        (0x40, vec![0x40]),
        (0x7F, vec![0x7F]),
        (0x80, vec![0x81, 0x00]),
        (0x2000, vec![0xC0, 0x00]),
        (0x1FFFFF, vec![0xFF, 0xFF, 0x7F]),
    ];
    for (val, want) in cases {
        let mut buf = Vec::new();
        write_vlq(&mut buf, val);
        assert_eq!(buf, want, "VLQ({:#x})", val);
    }
}

#[test]
fn noi_mapping_matches_demo_intent() {
    assert_eq!(noi_to_gm_drum(36), 36);
    assert_eq!(noi_to_gm_drum(50), 38);
    assert_eq!(noi_to_gm_drum(60), 42);
}

#[test]
fn midi_export_writes_valid_header_and_tracks() {
    let mut p = Phrase::default();
    p.cells[0][0] = note(60);
    p.cells[4][0] = note(64);
    p.cells[0][3] = note(36);
    p.cells[4][3] = note(50);
    p.cells[8][3] = note(60);
    let bytes = export_phrase_to_midi(&p, 140, 1);
    assert_eq!(&bytes[..4], b"MThd");
    assert_eq!(bytes[8], 0);
    assert_eq!(bytes[9], 1);
    assert_eq!(bytes[10], 0);
    assert_eq!(bytes[11], 5);
    assert_eq!(u16::from_be_bytes([bytes[12], bytes[13]]), PPQN);
    let trk_count = bytes.windows(4).filter(|w| *w == b"MTrk").count();
    assert_eq!(trk_count, 5);
}

#[test]
fn an_exported_phrase_can_be_imported() {
    let mut p = Phrase::default();
    p.cells[0][0] = note(60);
    p.cells[4][0] = note(64);
    let bytes = export_phrase_to_midi(&p, 140, 1);
    let m = viper::import::parse_midi(&bytes).unwrap();
    assert_eq!(m.ticks_per_quarter, PPQN);
    let lead = m.tracks.iter().find(|t| !t.notes.is_empty()).unwrap();
    assert_eq!(lead.notes[0].key, 60);
    assert_eq!(lead.notes[1].key, 64);
}

#[test]
fn chained_song_compiles_to_the_flattened_order() {
    let text = "\
@song bpm=120
@phrase 00
  00  C-4:00:0F  ---  C-2:02:0F  ---  ---
  08  E-4:00:0F  ---  ---  ---  ---
@phrase 01
  00  G-4:00:0F  ---  G-2:02:0F  ---  ---
@chain 00  name=\"verse\"
  00 01 00
@chain 01
  01
@arrangement loop=01
  00 01 00
@length  pu1=8
";
    let (song, _) = from_vip(text).unwrap();
    let lowered = lower(&song);
    assert_eq!(lowered.order.len(), 7);
    // 120 frames a phrase: an intro of 360 frames and a loop of 480.
    assert_eq!(lowered.order, vec![0, 1, 0, 1, 0, 1, 0]);
    assert_eq!(lowered.loop_pos * 120, 360);
    assert_eq!((lowered.order.len() - lowered.loop_pos) * 120, 480);
    // PU1 starts again after 8 rows, so the note of row 8 is that of row 0.
    let note = |row: usize| lowered.patterns[0].events(row, 0).last().copied();
    assert_eq!(note(0), Some(Event::Note(36)));
    assert_eq!(note(8), note(0));
}

#[test]
fn an_exported_phrase_reads_back_whole() {
    let mut p = Phrase::default();
    p.cells[0][0] = note(60);
    p.cells[1][0] = Cell { vol: 1, ..note(60) };
    p.cells[15][2] = Cell { vol: 15, ..note(33) };
    p.cells[4][3] = note(50);
    p.cells[7][4] = note(40);
    let m = viper::import::parse_midi(&export_phrase_to_midi(&p, 125, 2)).unwrap();
    assert_eq!(m.ticks_per_quarter, 96);
    assert_eq!(m.tempos, vec![(0, 480_000)]);
    assert_eq!(m.tracks.len(), 5);
    assert!(m.tracks[0].notes.is_empty());
    let found = |ch: usize| -> Vec<(u64, u64, u8, u8)> {
        m.tracks[1 + ch].notes.iter().map(|n| (n.tick, n.len, n.key, n.vel)).collect()
    };
    assert_eq!(found(0), vec![(0, 24, 60, 100), (24, 24, 60, 8), (384, 24, 60, 100), (408, 24, 60, 8)]);
    assert!(found(1).is_empty());
    assert_eq!(found(2), vec![(360, 24, 33, 127), (744, 24, 33, 127)]);
    assert_eq!(found(3), vec![(96, 24, 38, 100), (480, 24, 38, 100)]);
    assert_eq!(m.tracks[4].channels, vec![9]);
}
