use viper::import::arrange::is_importable;
use viper::import::smf::MidiFault;
use viper::import::vmap::MapFault;
use viper::import::words::explain;
use viper::import::{import, parse_map, parse_midi};

/// A format 1 file: a tempo, and named tracks of (tick, length, key) notes.
fn smf(bpm: u32, tracks: &[(&str, u8, &[(u64, u64, u8)])]) -> Vec<u8> {
    fn vlq(v: u64) -> Vec<u8> {
        let mut b = vec![(v & 0x7F) as u8];
        let mut v = v >> 7;
        while v > 0 {
            b.push((v & 0x7F) as u8 | 0x80);
            v >>= 7;
        }
        b.reverse();
        b
    }
    let mut out = Vec::new();
    out.extend_from_slice(b"MThd");
    out.extend_from_slice(&6u32.to_be_bytes());
    out.extend_from_slice(&1u16.to_be_bytes());
    out.extend_from_slice(&((tracks.len() + 1) as u16).to_be_bytes());
    out.extend_from_slice(&480u16.to_be_bytes());
    let us = 60_000_000 / bpm;
    let mut t0 = vec![
        0x00,
        0xFF,
        0x51,
        0x03,
        (us >> 16) as u8,
        (us >> 8) as u8,
        us as u8,
        0x00,
        0xFF,
        0x2F,
        0x00,
    ];
    let mut chunk = b"MTrk".to_vec();
    chunk.extend_from_slice(&(t0.len() as u32).to_be_bytes());
    chunk.append(&mut t0);
    out.extend_from_slice(&chunk);
    for (name, ch, notes) in tracks {
        let mut ev: Vec<(u64, Vec<u8>)> = Vec::new();
        for (t, l, k) in notes.iter() {
            ev.push((*t, vec![0x90 | ch, *k, 100]));
            ev.push((*t + *l, vec![0x80 | ch, *k, 0]));
        }
        ev.sort_by_key(|e| e.0);
        let mut body = vec![0x00, 0xFF, 0x03];
        body.extend_from_slice(&vlq(name.len() as u64));
        body.extend_from_slice(name.as_bytes());
        let mut last = 0;
        for (t, bytes) in ev {
            body.extend_from_slice(&vlq(t - last));
            last = t;
            body.extend_from_slice(&bytes);
        }
        body.extend_from_slice(&[0x00, 0xFF, 0x2F, 0x00]);
        out.extend_from_slice(b"MTrk");
        out.extend_from_slice(&(body.len() as u32).to_be_bytes());
        out.extend_from_slice(&body);
    }
    out
}

const MAP: &str = "@song title=\"T\" artist=\"A\" bpm=auto\n@track midi=lead ch=PU1 instr=00 flatten=top vibrato=V42 vibrato_min_rows=2\n@track midi=rhythm ch=PU2 instr=01 flatten=root octave=-1\n@track midi=bass ch=TRI instr=02\n@track midi=drums drums=1\n@drum 36 dpcm=0\n@drum 38 dpcm=1\n@drum 42 noi=C-6/03\n@drum 49 noi=C-5/04\n@priority dpcm=38,36 noi=49,42\n@fallback 36 noi=C-2/05\n@instr 00 a=0 d=20 s=0.8 r=40 duty=0.25 vol=0.8\n";

#[test]
fn parses_running_status_tempo_and_names() {
    let bytes = smf(217, &[("Lead Guitar", 0, &[(0, 480, 64), (480, 240, 66)])]);
    let m = parse_midi(&bytes).unwrap();
    assert_eq!(m.ticks_per_quarter, 480);
    assert!((60_000_000.0 / m.tempos[0].1 as f64 - 217.0).abs() < 0.1);
    assert_eq!(m.tracks[1].name, "Lead Guitar");
    assert_eq!(m.tracks[1].notes.len(), 2);
    assert_eq!(m.tracks[1].notes[0].len, 480);
}

#[test]
fn import_holds_flattens_voices_and_resolves_drums() {
    let bytes = smf(
        200,
        &[
            ("Lead", 0, &[(0, 240, 64), (480, 120, 64), (480, 120, 71), (480, 120, 76)]),
            ("Rhythm", 1, &[(0, 120, 40), (480, 120, 64), (480, 120, 71), (480, 120, 76)]),
            ("Bass", 2, &[(0, 480, 28)]),
            (
                "Drums",
                9,
                &[(0, 60, 36), (0, 60, 38), (0, 60, 42), (120, 60, 36), (120, 60, 49)],
            ),
        ],
    );
    let midi = parse_midi(&bytes).unwrap();
    let map = parse_map(MAP).unwrap();
    assert!(is_importable(&midi, &map));
    let (song, rep) = import(&midi, &map).unwrap();
    assert_eq!(rep.bpm, 200);
    let p = &song.phrases[song.order[0]];
    assert_eq!(p.cells[0][0].note, Some(64));
    assert_eq!(p.cells[0][0].fx, Some((b'V', 0x42)));
    assert!(p.cells[1][0].hold);
    assert!(!p.cells[2][0].hold && p.cells[2][0].note.is_none());
    assert_eq!(p.cells[4][0].note, Some(71));
    assert_eq!(p.cells[4][1].note, Some(52));
    assert_eq!(rep.voiced_chords, 1);
    assert_eq!(p.cells[0][2].note, Some(28));
    assert!(p.cells[1][2].hold && p.cells[3][2].hold);
    assert_eq!(p.cells[0][4].note, Some(61));
    assert_eq!(p.cells[0][3].note, Some(84));
    assert_eq!(p.cells[1][4].note, Some(60));
    assert_eq!(p.cells[1][3].note, Some(72));
    assert_eq!(rep.drum_dpcm_conflicts, 1);
    assert_eq!(rep.drum_dropped, 1);
    assert_eq!(song.title, "T");
    let text = viper::vip::to_vip(&song);
    let (back, _) = viper::vip::from_vip(&text).unwrap();
    assert!(back.phrases[back.order[0]].cells[1][0].hold);
    assert!(rep.summary().starts_with("200 BPM, "), "{}", rep.summary());
}

#[test]
fn fallback_kick_lands_on_free_noise_channel() {
    let bytes = smf(200, &[("Drums", 9, &[(0, 60, 36), (0, 60, 38)])]);
    let midi = parse_midi(&bytes).unwrap();
    let map = parse_map("@track midi=drums drums=1\n@drum 36 dpcm=0\n@drum 38 dpcm=1\n@priority dpcm=38,36\n@fallback 36 noi=C-2/05\n").unwrap();
    let (song, rep) = import(&midi, &map).unwrap();
    let p = &song.phrases[0];
    assert_eq!(p.cells[0][4].note, Some(61));
    assert_eq!(p.cells[0][3].note, Some(36));
    assert_eq!(p.cells[0][3].instr, 5);
    assert_eq!(rep.drum_fallbacks, 1);
}

#[test]
fn midi_faults() {
    assert_eq!(parse_midi(b"RIFF").unwrap_err(), MidiFault::NotMidi);
    let mut smpte = smf(120, &[]);
    smpte[12] = 0xE7;
    assert_eq!(parse_midi(&smpte).unwrap_err(), MidiFault::SmpteDivision);
    let mut short = smf(120, &[("Lead", 0, &[(0, 120, 60)])]);
    short.truncate(short.len() - 4);
    assert!(parse_midi(&short).is_err());
}

#[test]
fn track_names_that_are_not_utf8_are_replaced() {
    let mut bytes = smf(120, &[("Lead", 0, &[(0, 120, 60)])]);
    let at = bytes.windows(4).position(|w| w == b"Lead").unwrap();
    bytes[at + 3] = 0xFF;
    let m = parse_midi(&bytes).unwrap();
    assert_eq!(m.tracks[1].name, "Lea\u{FFFD}");
}

#[test]
fn map_faults_name_their_line() {
    let fault = |t: &str| {
        let e = parse_map(t).unwrap_err();
        (e.line, e.fault)
    };
    assert_eq!(fault("track"), (1, MapFault::NotADirective));
    assert_eq!(fault("\n@nope"), (2, MapFault::UnknownDirective));
    assert_eq!(fault("@track midi=a ch=ZZ"), (1, MapFault::UnknownChannel));
    assert_eq!(fault("@track ch=PU1"), (1, MapFault::NeedsMidi));
    assert_eq!(fault("@track midi=a"), (1, MapFault::NeedsChannel));
    assert_eq!(fault("@song title=x"), (0, MapFault::NoTracks));
}

#[test]
fn a_track_that_is_missing_is_refused() {
    let midi = parse_midi(&smf(120, &[("Lead", 0, &[(0, 120, 60)])])).unwrap();
    let map = parse_map("@track midi=violin ch=PU1\n").unwrap();
    assert!(import(&midi, &map).is_err());
}

#[test]
fn map_faults_in_words() {
    let said = |t: &str| explain(t, parse_map(t).err().unwrap());
    assert_eq!(said(""), "map has no @track lines");
    assert_eq!(said("track"), "line 1: expected an @directive");
    assert_eq!(said("@nope x"), "line 1: @nope: unknown directive");
    assert_eq!(said("\n@track midi=x ch=zz"), "line 2: @track: unknown channel \"zz\"");
    assert_eq!(said("@drum 36 noi=C-4"), "line 1: @drum: noi= wants NOTE/INSTR, got \"C-4\"");
    assert_eq!(said("@fallback 36 noi=H-4/00"), "line 1: @fallback: bad note \"H-4\"");
}
