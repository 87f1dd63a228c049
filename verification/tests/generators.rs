use viper::gen::automata::{
    cellular, cellular_rows, lsystem, lsystem_expand, parse_note_map, parse_note_name, parse_rules,
    ListFault,
};
use viper::gen::chord::{parse_chord_symbol, parse_key_spec, parse_progression, Chord};
use viper::gen::dispatch::{dispatch, explain, GenError, NumberKey};
use viper::gen::patterns::{
    arp, bassline, chord_prog, drum_preset, drum_presets, drums, four_on_floor, random_in_scale,
};
use viper::gen::odds::{milli_odds, share_odds};
use viper::gen::{euclid_mask, parse_key, Channel, Mode, Rng};
use viper::song::Song;

#[test]
fn euclid_hit_count() {
    let m = euclid_mask(5, 16, 0);
    assert_eq!(m.iter().filter(|&&h| h).count(), 5);
}

#[test]
fn euclid_tresillo() {
    let m = euclid_mask(3, 8, 0);
    let hits: Vec<usize> =
        m.iter().enumerate().filter(|(_, &h)| h).map(|(i, _)| i).collect();
    assert_eq!(hits, vec![2, 5, 7]);
}

#[test]
fn euclid_offset_rotates() {
    let plain = euclid_mask(5, 16, 0);
    let turned = euclid_mask(5, 16, 2);
    assert_eq!(turned.iter().filter(|&&h| h).count(), 5);
    assert_ne!(plain, turned);
    assert!(euclid_mask(0, 8, 0).iter().all(|&h| !h));
    assert!(euclid_mask(8, 8, 0).iter().all(|&h| h));
    assert_eq!(euclid_mask(3, 0, 0), vec![true]);
}

#[test]
fn rng_deterministic() {
    let mut a = Rng::new(42);
    let mut b = Rng::new(42);
    for _ in 0..100 {
        assert_eq!(a.next_u32(), b.next_u32());
    }
}

#[test]
fn rng_range_stays_inside() {
    let mut r = Rng::new(7);
    for _ in 0..200 {
        let n = r.range(3, 9);
        assert!((3..9).contains(&n));
    }
}

#[test]
fn parse_key_accidentals() {
    assert_eq!(parse_key("C"), Some(0));
    assert_eq!(parse_key("C#"), Some(1));
    assert_eq!(parse_key("Db"), Some(1));
    assert_eq!(parse_key("A"), Some(9));
    assert_eq!(parse_key("Bb"), Some(10));
}

#[test]
fn channels_by_name() {
    assert!(matches!(Channel::parse("pu2"), Some(Channel::Pu2)));
    assert!(Channel::parse("nope").is_none());
    assert_eq!(Channel::Pu1.index(), 0);
    assert_eq!(Channel::Pu1.label(), "PU1");
}

#[test]
fn chord_symbols_roman_and_absolute() {
    let am = parse_chord_symbol("i", 9, Mode::Minor).unwrap();
    assert_eq!(am, Chord { root: 9, intervals: vec![0, 3, 7] });
    let e = parse_chord_symbol("V", 9, Mode::Minor).unwrap();
    assert_eq!(e, Chord { root: 4, intervals: vec![0, 4, 7] });
    assert_eq!(parse_chord_symbol("bVII", 0, Mode::Major).unwrap().root, 10);
    assert_eq!(
        parse_chord_symbol("V7", 0, Mode::Major).unwrap(),
        Chord { root: 7, intervals: vec![0, 4, 7, 10] }
    );
    assert_eq!(
        parse_chord_symbol("Dm", 0, Mode::Major).unwrap(),
        Chord { root: 2, intervals: vec![0, 3, 7] }
    );
    assert_eq!(
        parse_chord_symbol("Cmaj7", 0, Mode::Major).unwrap().intervals,
        vec![0, 4, 7, 11]
    );
    assert_eq!(
        parse_chord_symbol("F#dim7", 0, Mode::Major).unwrap(),
        Chord { root: 6, intervals: vec![0, 3, 6, 9] }
    );
    assert_eq!(parse_chord_symbol("E5", 0, Mode::Major).unwrap().intervals, vec![0, 7]);
    assert!(parse_chord_symbol("H", 0, Mode::Major).is_none());
    assert!(parse_chord_symbol("Cxyz", 0, Mode::Major).is_none());
    assert!(matches!(parse_key_spec("F#m"), Some((6, Mode::Minor))));
    assert!(matches!(parse_key_spec("Ebmaj"), Some((3, Mode::Major))));
    assert!(matches!(parse_key_spec("Ddorian"), Some((2, Mode::Dorian))));
}

#[test]
fn presets_and_progressions_fill_phrases() {
    let mut song = Song::default();
    let chords = parse_progression(&["12bar"], 0, Mode::Major).unwrap();
    assert_eq!(chords.len(), 12);
    let n = chord_prog(&mut song, &chords, 4);
    assert_eq!(n, 3);
    assert_eq!(song.phrases.len(), 3);
    assert_eq!(song.phrases[0].cells[0][2].note, Some(36));
    assert_eq!(song.phrases[0].cells[0][1].note, Some(64));
    assert_eq!(song.phrases[0].cells[0][0].note, Some(67));
    assert_eq!(song.phrases[1].cells[0][2].note, Some(41));
}

#[test]
fn bassline_styles_are_deterministic_and_land_on_roots() {
    let mut song = Song::default();
    let chords = parse_progression(&["Am", "Dm", "E", "Am"], 9, Mode::Minor).unwrap();
    bassline(&mut song, &chords, "walking", 4).unwrap();
    let tri: Vec<Option<u8>> = (0..16).map(|s| song.phrases[0].cells[s][2].note).collect();
    assert_eq!(tri[0], Some(45), "A-2 root on the downbeat");
    assert_eq!(tri[4], Some(38), "D-2 on the chord change");
    assert_eq!(tri[2], Some(39), "chromatic approach to D from above (D is below A)");
    assert!(bassline(&mut song, &chords, "nope", 4).is_none());
    let mut b = Song::default();
    bassline(&mut b, &chords, "arpeggio", 4).unwrap();
    assert_eq!(
        (0..4).map(|s| b.phrases[0].cells[s][2].note.unwrap()).collect::<Vec<_>>(),
        vec![45, 48, 52, 57]
    );
}

#[test]
fn arp_patterns() {
    let c = parse_chord_symbol("Am", 0, Mode::Major).unwrap();
    let mut song = Song::default();
    assert!(arp(&mut song, Channel::Pu2, &c, "up", 16, 1, 1, 0));
    let notes: Vec<u8> = (0..6).map(|s| song.phrases[0].cells[s][1].note.unwrap()).collect();
    assert_eq!(notes, vec![69, 72, 76, 69, 72, 76]);
    assert!(arp(&mut song, Channel::Pu2, &c, "updown", 16, 2, 2, 0));
    assert!(song.phrases[0].cells[1][1].note.is_none(), "rate 2 leaves odd steps empty");
    let mut a = Song::default();
    let mut b = Song::default();
    assert!(arp(&mut a, Channel::Pu1, &c, "random", 16, 1, 2, 7));
    assert!(arp(&mut b, Channel::Pu1, &c, "random", 16, 1, 2, 7));
    assert_eq!(a.phrases[0].cells, b.phrases[0].cells);
    assert!(!arp(&mut a, Channel::Pu1, &c, "sideways", 16, 1, 2, 7));
}

#[test]
fn drum_presets_are_well_formed_and_fill_adds_snares() {
    for p in drum_presets() {
        for m in [p.kick, p.snare, p.hat, p.open] {
            assert_eq!(m.len(), 16, "{} mask {:?}", p.name, m);
        }
    }
    let mut song = Song::default();
    drums(&mut song, &drum_preset("four").unwrap(), 0, true);
    let kicks = (0..16).filter(|&s| song.phrases[0].cells[s][4].note == Some(60)).count();
    let snares = (0..16).filter(|&s| song.phrases[0].cells[s][4].note == Some(61)).count();
    let noi_kicks = (0..16).filter(|&s| song.phrases[0].cells[s][3].note == Some(36)).count();
    assert_eq!((kicks, snares, noi_kicks), (2, 2, 2));
    drums(&mut song, &drum_preset("four").unwrap(), 2, true);
    let snares = (0..16).filter(|&s| song.phrases[0].cells[s][4].note == Some(61)).count();
    assert!(snares >= 3, "fill adds snare hits: {}", snares);
    drums(&mut song, &drum_preset("four").unwrap(), 0, false);
    assert!(
        (0..16).any(|s| song.phrases[0].cells[s][4].note.is_some()),
        "dpcm=off leaves the DPCM column alone"
    );
    assert_eq!(song.phrases[0].cells[0][3].note, Some(36));
}

#[test]
fn lsystem_expands_and_maps() {
    let rules = parse_rules("A=ABA,B=.A.").unwrap();
    assert_eq!(lsystem_expand("A", &rules, 1), "ABA");
    assert_eq!(lsystem_expand("A", &rules, 2), "ABA.A.ABA");
    let map = parse_note_map("A=C4,B=G3,.=-").unwrap();
    assert_eq!(parse_note_name("F#3"), Some(Some(54)));
    assert_eq!(parse_note_name("-"), Some(None));
    let mut song = Song::default();
    let expanded = lsystem(&mut song, Channel::Pu1, "A", &rules, 2, &map, 0, Mode::Major);
    assert_eq!(expanded.len(), 9);
    let notes: Vec<Option<u8>> = (0..9).map(|s| song.phrases[0].cells[s][0].note).collect();
    assert_eq!(
        notes,
        vec![
            Some(60),
            Some(55),
            Some(60),
            None,
            Some(60),
            None,
            Some(60),
            Some(55),
            Some(60)
        ]
    );
}

#[test]
fn rule_lists_name_the_bad_entry() {
    assert_eq!(parse_rules("A=B,C").unwrap_err(), ListFault::NoEquals(1));
    assert_eq!(parse_rules("AB=C").unwrap_err(), ListFault::LeftSide(0));
    assert_eq!(parse_rules("").unwrap_err(), ListFault::Empty);
    assert_eq!(parse_note_map("A=zz").unwrap_err(), ListFault::BadNote(0));
}

#[test]
fn cellular_rule_30_from_center() {
    let mut rng = Rng::new(1);
    let rows = cellular_rows(30, 7, 3, "center", &mut rng);
    let s = |r: &Vec<bool>| r.iter().map(|&c| if c { 'x' } else { '.' }).collect::<String>();
    assert_eq!(s(&rows[0]), "...x...");
    assert_eq!(s(&rows[1]), "..xxx..");
    assert_eq!(s(&rows[2]), ".xx..x.");
    let mut song = Song::default();
    let hits = cellular(&mut song, Channel::Pu1, 30, 16, "center", 9, Mode::Minor, 1);
    assert!(hits > 0 && hits < 16);
    assert!(song.phrases[0].cells[0][0].note.is_some(), "the seed cell is alive at step 0");
}

#[test]
fn dispatch_routes_new_generators() {
    let mut song = Song::default();
    assert!(dispatch(&mut song, &["chord_prog", "\"i", "iv", "V", "i\"", "key=Am"], 1)
        .unwrap()
        .contains("4 chords"));
    assert!(dispatch(&mut song, &["drums", "breakbeat", "fills=2"], 1)
        .unwrap()
        .contains("breakbeat"));
    assert!(dispatch(&mut song, &["drums", "nope"], 1).is_err());
    assert!(dispatch(&mut song, &["arp", "Cmaj7", "updown", "16", "rate=2"], 1).is_ok());
    assert!(dispatch(
        &mut song,
        &["lsystem", "axiom=A", "rules=A=ABA,B=.A.", "iterations=3"],
        1
    )
    .is_ok());
    assert!(dispatch(&mut song, &["cellular", "rule=110", "ch=pu2"], 1).is_ok());
    assert!(dispatch(&mut song, &["bassline", "doowop", "style=root_fifth", "key=C"], 1)
        .unwrap()
        .contains("root_fifth"));
}

#[test]
fn dispatch_faults() {
    let mut s = Song::default();
    assert_eq!(dispatch(&mut s, &[], 1).unwrap_err(), GenError::Usage);
    assert_eq!(dispatch(&mut s, &["euclid", "xx", "5", "16"], 1).unwrap_err(), GenError::BadChannel);
    assert_eq!(dispatch(&mut s, &["euclid", "pu1", "x", "16"], 1).unwrap_err(), GenError::BadHits);
    assert_eq!(dispatch(&mut s, &["euclid", "pu1", "5", "x"], 1).unwrap_err(), GenError::BadSteps);
    assert_eq!(
        dispatch(&mut s, &["euclid", "pu1", "5", "16", "x"], 1).unwrap_err(),
        GenError::BadOffset
    );
    assert_eq!(dispatch(&mut s, &["scale", "pu1", "H"], 1).unwrap_err(), GenError::BadKey);
    assert_eq!(dispatch(&mut s, &["scale", "pu1", "A", "zz"], 1).unwrap_err(), GenError::BadMode);
    assert_eq!(
        dispatch(&mut s, &["scale", "pu1", "A", "minor", "zz"], 1).unwrap_err(),
        GenError::BadDensity
    );
    assert_eq!(
        dispatch(&mut s, &["bassline", "Am", "style=zz"], 1).unwrap_err(),
        GenError::UnknownBassStyle
    );
    assert_eq!(dispatch(&mut s, &["arp", "Am", "zz"], 1).unwrap_err(), GenError::UnknownArpPattern);
    assert_eq!(dispatch(&mut s, &["arp", "zz"], 1).unwrap_err(), GenError::BadChord);
    assert_eq!(dispatch(&mut s, &["lsystem"], 1).unwrap_err(), GenError::NeedStart);
    assert_eq!(dispatch(&mut s, &["lsystem", "axiom=A"], 1).unwrap_err(), GenError::NeedRules);
    let mut said = |args: &[&str]| {
        let e = dispatch(&mut s, args, 1).unwrap_err();
        explain(args, e)
    };
    assert_eq!(said(&["euclid", "pu1", "x", "8"]), "bad k");
    assert_eq!(said(&["euclid", "xx", "5", "8"]), "bad channel \"xx\"");
    assert_eq!(said(&["cellular", "ch=xx"]), "bad channel \"xx\"");
    assert_eq!(said(&["scale", "pu1", "H"]), "bad key \"H\"");
    assert_eq!(said(&["chord_prog", "i", "key=H"]), "bad key \"H\"");
    assert_eq!(said(&["scale", "pu1", "A", "zz"]), "bad mode \"zz\"");
    assert_eq!(said(&["chord_prog", "i", "\"zz\""]), "bad chord \"zz\"");
    assert_eq!(said(&["arp", "zz"]), "bad chord \"zz\"");
    assert_eq!(said(&["arp", "Am", "up", "zz"]), "bad length \"zz\"");
    assert_eq!(said(&["arp", "Am", "rate=x"]), "rate=\"x\" is not a number");
    assert_eq!(said(&["cellular", "rule=256"]), "rule=\"256\" is not a number");
    assert_eq!(
        said(&["bassline", "Am", "style=zz"]),
        "bassline: unknown style \"zz\" (walking | arpeggio | root_fifth | octaves | roots)"
    );
    assert_eq!(
        said(&["arp", "Am", "zz"]),
        "arp: unknown pattern \"zz\" (up | down | updown | random)"
    );
    assert!(said(&["drums", "nope"]).starts_with("unknown drum preset \"nope\" (have: "));
    assert_eq!(said(&["lsystem", "axiom=A", "rules=A"]), "rule \"A\" needs the form X=YZ");
    assert_eq!(
        said(&["lsystem", "axiom=A", "rules=A=B, AB=C"]),
        "rule \"AB=C\": left side must be one character"
    );
    assert_eq!(
        said(&["lsystem", "axiom=A", "rules=A=B", "map=A=zz"]),
        "bad note \"zz\" in map"
    );
    assert_eq!(
        dispatch(&mut s, &["arp", "Am", "octaves=x"], 1).unwrap_err(),
        GenError::BadNumber(NumberKey::Octaves)
    );
    assert!(s.phrases[0].cells.iter().all(|r| r.iter().all(|c| c.note.is_none())));
}

#[test]
fn dispatch_keeps_the_current_phrase() {
    let mut s = Song::default();
    let said = dispatch(&mut s, &["chord_prog", "12bar", "key=C"], 1).unwrap();
    assert_eq!(said, "chord_prog: 12 chords over 3 phrase(s) from 00");
    assert_eq!(s.current_phrase, 0);
    assert_eq!(s.phrases.len(), 3);
    assert_eq!(dispatch(&mut s, &["euclid", "pu1", "5", "16"], 1).unwrap(), "euclid 5 in 16 on PU1");
}

#[test]
fn four_on_floor_strikes_every_beat() {
    let mut s = Song::default();
    four_on_floor(&mut s);
    for beat in 0..4 {
        assert_eq!(s.phrases[0].cells[beat * 4][3].note, Some(36));
    }
}

#[test]
fn random_scale_stays_in_key() {
    let mut s = Song::default();
    random_in_scale(&mut s, Channel::Pu1, 0, Mode::Major, 1000, 4, 5, 0, 3);
    let notes: Vec<u8> = (0..16).filter_map(|i| s.phrases[0].cells[i][0].note).collect();
    assert_eq!(notes.len(), 16);
    assert!(notes.iter().all(|n| [0, 2, 4, 5, 7, 9, 11].contains(&(n % 12))));
    let mut none = Song::default();
    random_in_scale(&mut none, Channel::Pu1, 0, Mode::Major, 0, 4, 5, 0, 3);
    assert!((0..16).all(|i| none.phrases[0].cells[i][0].note.is_none()));
}

#[test]
fn an_l_system_stops_growing() {
    let rules = vec![('A', "B".repeat(5000))];
    assert_eq!(lsystem_expand("A", &rules, 1).len(), 4096);
    let rules = parse_rules("A=AA").unwrap();
    assert_eq!(lsystem_expand("A", &rules, 11).len(), 2048);
    assert_eq!(lsystem_expand("A", &rules, 20).len(), 4096);
    assert_eq!(lsystem_expand("AB", &rules, 0), "AB");
}

#[test]
fn hits_are_even_over_every_window() {
    for n in 1..=16usize {
        for k in 0..=n {
            for offset in [0, 1, 5, 17] {
                let m = euclid_mask(k, n, offset);
                assert_eq!(m.iter().filter(|&&h| h).count(), k);
                for w in 0..=n {
                    let hits: Vec<usize> =
                        (0..n).map(|a| (0..w).filter(|i| m[(a + i) % n]).count()).collect();
                    assert!(hits.iter().max().unwrap() - hits.iter().min().unwrap() <= 1);
                }
                let flat = euclid_mask(k, n, 0);
                for i in 0..n {
                    assert_eq!(m[(i + offset) % n], flat[i]);
                }
            }
        }
    }
}

#[test]
fn an_offset_in_place_or_by_name() {
    let mut a = Song::default();
    let mut b = Song::default();
    let ra = dispatch(&mut a, &["euclid", "pu1", "5", "16", "3"], 1).unwrap();
    let rb = dispatch(&mut b, &["euclid", "pu1", "5", "16", "offset=3"], 1).unwrap();
    assert_eq!(ra, rb);
    assert_eq!(a.phrases[0].cells, b.phrases[0].cells);
    let quoted = dispatch(&mut a, &["euclid", "\"pu2\"", "\"5\"", "16\"", "3\""], 1).unwrap();
    let named = dispatch(&mut b, &["euclid", "\"pu2\"", "\"5\"", "16\"", "offset=3\""], 1).unwrap();
    assert_eq!(quoted, named);
    assert_eq!(a.phrases[0].cells, b.phrases[0].cells);
}

#[test]
fn a_refused_bass_line_changes_nothing() {
    let mut s = Song::demo();
    let before = s.phrases[0].cells;
    let e = dispatch(&mut s, &["bassline", "I", "IV", "V", "I", "I", "I", "style=nope"], 1);
    assert_eq!(e.unwrap_err(), GenError::UnknownBassStyle);
    assert_eq!(s.phrases[0].cells, before);
    assert_eq!(s.phrases.len(), Song::demo().phrases.len());
}

#[test]
fn what_is_sure_always_happens() {
    assert_eq!(milli_odds(1000), 0x1_0000_0000);
    assert_eq!(milli_odds(1500), 0x1_0000_0001);
    assert_eq!(milli_odds(i32::MAX), 0x1_0000_0001);
    assert_eq!(milli_odds(0), 0);
    assert_eq!(share_odds(1500), 0x1_0000_0000);
    let mut rng = Rng::new(7);
    for _ in 0..10_000 {
        assert!(rng.chance(milli_odds(1001)));
        assert!(!rng.chance(milli_odds(-1)));
    }
}

#[test]
fn densities_beyond_range_are_taken_at_the_ends() {
    let filled = |density: &str| {
        let mut s = Song::default();
        dispatch(&mut s, &["scale", "pu1", "A", "minor", density], 3).unwrap();
        s.phrases[0].cells.iter().filter(|r| r[0].note.is_some()).count()
    };
    assert_eq!(filled("1"), 16);
    assert_eq!(filled("1e30"), 16);
    assert_eq!(filled("inf"), 16);
    assert_eq!(filled("+Infinity"), 16);
    assert_eq!(filled("0"), 0);
    assert_eq!(filled("nan"), 0);
    assert_eq!(filled("-inf"), 0);
    let mut s = Song::default();
    assert_eq!(
        dispatch(&mut s, &["scale", "pu1", "A", "minor", "infi"], 3).unwrap_err(),
        GenError::BadDensity
    );
}
