use viper::song::{Cell, Chain, DpcmRef, Instrument, Phrase, Song, INSTRUMENTS};
use viper::vip::reader::Fault;
use viper::vip::words::explain;
use viper::vip::{
    decode_cell, decode_note, decode_note_pub, encode_cell, encode_note, from_vip, key_name,
    swing_groove, to_vip, CellFault,
};

#[test]
fn note_round_trip() {
    for midi in 12..=127u8 {
        let s = encode_note(midi);
        let back = decode_note(&s).unwrap_or_else(|| panic!("decode {:?}", s));
        assert_eq!(midi, back, "round-trip {:?}", s);
    }
}

#[test]
fn notes_by_name() {
    assert_eq!(decode_note_pub("A-4"), Some(69));
    assert_eq!(decode_note_pub("C#5"), Some(73));
    assert_eq!(decode_note_pub("H-4"), None);
    assert_eq!(key_name(3), "D#");
    assert_eq!(key_name(15), "D#");
}

#[test]
fn round_trip_default_song() {
    let song = Song::default();
    let text = to_vip(&song);
    let (back, warns) = from_vip(&text).unwrap();
    assert!(warns.is_empty());
    assert_eq!(song.bpm, back.bpm);
    assert_eq!(song.edit_step, back.edit_step);
    assert_eq!(song.phrases.len(), back.phrases.len());
    for i in 0..INSTRUMENTS {
        assert_eq!(song.instruments[i].attack_ms, back.instruments[i].attack_ms);
        assert_eq!(song.instruments[i].decay_ms, back.instruments[i].decay_ms);
    }
}

#[test]
fn round_trip_demo_song() {
    let song = Song::demo();
    let text = to_vip(&song);
    let (back, _) = from_vip(&text).unwrap();
    assert_eq!(song.bpm, back.bpm);
    for (a, b) in song.phrases[0].cells.iter().zip(back.phrases[0].cells.iter()) {
        for (ca, cb) in a.iter().zip(b.iter()) {
            assert_eq!(ca.note, cb.note);
            assert_eq!(ca.instr, cb.instr);
            assert_eq!(ca.vol, cb.vol);
        }
    }
    assert_eq!(back.instruments, song.instruments);
    assert_eq!(to_vip(&back), text);
}

#[test]
fn reject_garbage_step() {
    let bad = "@phrase 00\n  GZ  ---  ---  ---  ---\n";
    assert!(from_vip(bad).is_err());
}

#[test]
fn comment_lines_ignored() {
    let text = "# comment only\n@song bpm=123\n@phrase 00\n  00 A-4 --- --- ---\n";
    let (song, _) = from_vip(text).unwrap();
    assert_eq!(song.bpm, 123);
    assert_eq!(song.phrases[0].cells[0][0].note, Some(69));
}

#[test]
fn fx_round_trip() {
    let cell =
        Cell { note: Some(60), instr: 1, vol: 0x0F, fx: Some((b'A', 0x42)), hold: false };
    let s = encode_cell(cell);
    assert_eq!(s, "C-4:01:0F:A42");
    let back = decode_cell(&s).unwrap();
    assert_eq!(back.fx, Some((b'A', 0x42)));
    let bare = Cell { note: Some(60), instr: 0, vol: 0, fx: None, hold: false };
    assert_eq!(encode_cell(bare), "C-4:00:00");
}

#[test]
fn fx_rejects_bad_form() {
    assert!(decode_cell("C-4:00:00:AB").is_err());
    assert!(decode_cell("C-4:00:00:ABCD").is_err());
    assert!(decode_cell("C-4:00:00:!42").is_err());
}

#[test]
fn cell_faults() {
    assert_eq!(decode_cell("H-4").unwrap_err(), CellFault::Note);
    assert_eq!(decode_cell("C-4:zz").unwrap_err(), CellFault::Instrument);
    assert_eq!(decode_cell("C-4:00:zz").unwrap_err(), CellFault::Volume);
    assert_eq!(decode_cell("C-4:00:00:AB").unwrap_err(), CellFault::FxLength);
    assert_eq!(decode_cell("C-4:00:00:!42").unwrap_err(), CellFault::FxCommand);
    assert_eq!(decode_cell("C-4:00:00:A+5").unwrap_err(), CellFault::FxParam);
    assert_eq!(decode_cell("C-4:00:00:Ag5").unwrap_err(), CellFault::FxParam);
    assert_eq!(decode_cell("C-4:00:00:A0f").unwrap().fx, Some((b'A', 15)));
    assert_eq!(decode_cell("---").unwrap(), Cell::default());
}

#[test]
fn reserved_directive_warns() {
    let text = "@song bpm=120\n@phrase 00\n@scene 1 phrase=00\n@bogus foo=bar\n";
    let (_, warns) = from_vip(text).unwrap();
    assert_eq!(warns.len(), 2);
    assert!(warns[0].contains("@scene"));
    assert!(warns[1].contains("@bogus"));
}

#[test]
fn order_meta_driver_round_trip() {
    let mut song = Song::default();
    song.phrases.push(Phrase::default());
    song.order = vec![0, 1, 0];
    song.loop_pos = 1;
    song.title = "Blast Furnace".into();
    song.artist = "viper".into();
    song.driver = Some(("driver/build/driver.bin".into(), "driver/build/driver.sym".into()));
    song.samples.push(DpcmRef {
        name: "kick".into(),
        path: "samples/kick.dmc".into(),
        rate: 13,
    });
    song.phrases[1].cells[3][4] =
        Cell { note: Some(61), instr: 0, vol: 0, fx: None, hold: false };
    let text = to_vip(&song);
    let (back, warns) = from_vip(&text).unwrap();
    assert!(warns.is_empty(), "{:?}", warns);
    assert_eq!(back.order, vec![0, 1, 0]);
    assert_eq!(back.loop_pos, 1);
    assert_eq!(back.title, "Blast Furnace");
    assert_eq!(back.artist, "viper");
    assert_eq!(back.driver.as_ref().unwrap().1, "driver/build/driver.sym");
    assert_eq!(back.samples[0].name, "kick");
    assert_eq!(back.samples[0].rate, 13);
    let (again, _) = from_vip("@dpcm 00 name=k path=k.dmc\n").unwrap();
    assert_eq!(again.samples[0].rate, 15);
    assert_eq!(back.phrases[1].cells[3][4].note, Some(61));
}

#[test]
fn driver_symbols_lie_beside_the_driver() {
    let (song, _) = from_vip("@driver bin=build/driver.bin\n").unwrap();
    assert_eq!(song.driver.unwrap(), ("build/driver.bin".into(), "build/driver.sym".into()));
}

#[test]
fn hold_cells_round_trip_and_orphans_warn() {
    let mut song = Song::default();
    song.phrases[0].cells[0][0] =
        Cell { note: Some(60), instr: 1, vol: 0, fx: None, hold: false };
    song.phrases[0].cells[1][0] = Cell::hold();
    song.phrases[0].cells[2][0] = Cell::hold();
    let text = to_vip(&song);
    assert!(text.contains("===             ---"), "{}", text);
    let (back, warns) = from_vip(&text).unwrap();
    assert!(warns.is_empty(), "{:?}", warns);
    assert!(back.phrases[0].cells[1][0].hold && back.phrases[0].cells[2][0].hold);
    assert_eq!(back.phrases[0].cells[1][0].note, None);
    let (_, warns) =
        from_vip("@phrase 00\n  00 --- --- --- --- ---\n  01 === --- --- --- ---\n").unwrap();
    assert_eq!(warns.len(), 1, "{:?}", warns);
    assert!(decode_cell("===:00").unwrap().hold);
}

#[test]
fn four_column_files_still_load() {
    let text = "@phrase 00\n  00 C-4 --- E-2 G-2\n";
    let (song, _) = from_vip(text).unwrap();
    assert_eq!(song.phrases[0].cells[0][3].note, Some(43));
    assert_eq!(song.phrases[0].cells[0][4].note, None);
}

#[test]
fn chains_and_arrangement_round_trip_and_flatten() {
    let mut song = Song::default();
    song.phrases.push(Phrase::default());
    song.phrases.push(Phrase::default());
    song.chains = vec![
        Chain { phrases: vec![0, 1, 0], name: Some("intro riff".into()) },
        Chain { phrases: vec![2, 1], name: None },
    ];
    song.arrangement = vec![0, 1, 0];
    song.arr_loop = 1;
    let text = to_vip(&song);
    assert!(
        !text.contains("order="),
        "arrangement songs must not also write order=\n{}",
        text
    );
    let (back, warns) = from_vip(&text).unwrap();
    assert!(warns.is_empty(), "unexpected warnings: {:?}", warns);
    assert_eq!(back.chains, song.chains);
    assert_eq!(back.arrangement, vec![0, 1, 0]);
    assert_eq!(back.arr_loop, 1);
    assert_eq!(back.flat_order(), (vec![0, 1, 0, 2, 1, 0, 1, 0], 3));
    assert_eq!(back.arrangement_map()[3], (1, 0));
    assert_eq!(to_vip(&back), text);
}

#[test]
fn groove_and_length_round_trip_and_defaults_are_omitted() {
    let plain = to_vip(&Song::default());
    assert!(!plain.contains("@groove") && !plain.contains("@length") && !plain.contains("@chain"));

    let mut song = Song::default();
    song.groove = swing_groove(120);
    song.channel_length = [16, 16, 12, 8, 16];
    let text = to_vip(&song);
    let (back, warns) = from_vip(&text).unwrap();
    assert!(warns.is_empty(), "{:?}", warns);
    assert_eq!(back.groove, song.groove);
    assert_eq!(back.channel_length, song.channel_length);

    let (inline, _) = from_vip("@song bpm=120\n@groove swing=7\n@phrase 00\n").unwrap();
    assert_eq!(inline.groove, swing_groove(7));
}

#[test]
fn bad_chain_and_arrangement_references_are_dropped_with_warnings() {
    let text = "@song bpm=120 order=[00]\n@phrase 00\n@chain 00\n  00 05\n@chain 01\n  00\n@arrangement loop=03\n  00 07 01\n";
    let (song, warns) = from_vip(text).unwrap();
    assert_eq!(song.chains[0].phrases, vec![0]);
    assert_eq!(song.arrangement, vec![0, 1]);
    assert_eq!(song.arr_loop, 0);
    assert!(song.order.is_empty(), "order= gives way to the arrangement");
    assert!(warns.iter().any(|w| w.contains("@chain 00")));
    assert!(warns.iter().any(|w| w.contains("@arrangement")));
    assert!(warns.iter().any(|w| w.contains("order= ignored")));
}

#[test]
fn faults_name_their_line() {
    let cases: Vec<(&str, usize, Fault)> = vec![
        ("@song bpm=x\n", 1, Fault::Bpm),
        ("\n@song edit_step=x\n", 2, Fault::EditStep),
        ("@phrase zz\n", 1, Fault::PhraseIndex),
        ("@instr zz\n", 1, Fault::InstrumentIndex),
        ("@instr 10 a=1\n", 1, Fault::InstrumentRange),
        ("@instr 00 a=x\n", 1, Fault::InstrumentField),
        ("@dpcm 00 name=k path=k.dmc rate=16\n", 1, Fault::SampleRateRange),
        ("@phrase 00\n  zz ---\n", 2, Fault::RowStep),
        ("@phrase 00\n  10 ---\n", 2, Fault::RowStepRange),
        ("@phrase 00\n  00 zzz\n", 2, Fault::RowCell(0, CellFault::Note)),
    ];
    for (text, line, fault) in cases {
        let e = from_vip(text).unwrap_err();
        assert_eq!((e.line, e.fault), (line, fault), "{:?}", text);
    }
}

#[test]
fn quoted_titles_are_escaped() {
    let mut song = Song::default();
    song.title = "plain title".into();
    let text = to_vip(&song);
    assert!(text.contains("\"plain title\""), "{}", text);
    let (back, _) = from_vip(&text).unwrap();
    assert_eq!(back.title, "plain title");
    song.title = "say \"hi\"\t".into();
    let text = to_vip(&song);
    assert!(text.contains("\"say \\\"hi\\\"\\t\""), "{}", text);
    let (back, _) = from_vip(&text).unwrap();
    assert_eq!(back.title, "say \"hi\"\t");
}

#[test]
fn a_read_song_has_a_phrase() {
    let (song, _) = from_vip("").unwrap();
    assert_eq!(song.phrases.len(), 1);
    assert_eq!(song.current_phrase, 0);
    let (song, _) = from_vip("@song current=05\n@phrase 00\n").unwrap();
    assert!(song.current_phrase < song.phrases.len());
}

#[test]
fn demo_song_plays_its_progression() {
    let s = Song::demo();
    assert_eq!(s.bpm, 80);
    let p = &s.phrases[0];
    assert_eq!(p.cells[0][0].note, Some(81));
    assert_eq!(p.cells[1][0].note, None);
    assert_eq!(p.cells[7][1].note, Some(69));
    assert_eq!(p.cells[14][2].note, Some(45));
    assert_eq!(p.cells[2][3].note, Some(50));
    assert_eq!(p.cells[0][3].vol, 15);
    assert_eq!(s.instruments[3].decay_ms, 60);
    assert_eq!(s.instruments[1].duty, 250);
}

#[test]
fn titles_beyond_ascii_round_trip() {
    let mut song = Song::default();
    song.title = "Ünder dem Eis — 氷の下".into();
    song.artist = "Måns".into();
    let (back, warnings) = from_vip(&to_vip(&song)).unwrap();
    assert!(warnings.is_empty());
    assert_eq!(back.title, song.title);
    assert_eq!(back.artist, song.artist);
}

#[test]
fn instruments_by_long_or_short_names() {
    let want = Instrument {
        attack_ms: 2,
        decay_ms: 80,
        sustain: 600,
        release_ms: 150,
        duty: 500,
        volume: 700,
    };
    let long = "@instr 00  attack=2  decay=80  sustain=0.60  release=150  duty=0.50  vol=0.70\n";
    let short = "@instr 00  a=2  d=80  s=0.60  r=150  duty=0.50  vol=0.70\n";
    for text in [long, short] {
        let (song, _) = from_vip(text).unwrap();
        assert_eq!(song.instruments[0], want);
        for i in 1..INSTRUMENTS {
            assert_eq!(song.instruments[i], Song::default().instruments[i]);
        }
    }
}

#[test]
fn levels_with_an_exponent() {
    let level = |v: &str| from_vip(&format!("@instr 00 s={}\n", v)).map(|r| r.0.instruments[0].sustain);
    assert_eq!(level("1e-1").unwrap(), 100);
    assert_eq!(level("25E-2").unwrap(), 250);
    assert_eq!(level("0.0005e3").unwrap(), 500);
    assert_eq!(level(".6").unwrap(), 600);
    assert_eq!(level("0.6004").unwrap(), 600);
    assert_eq!(level("0.6005").unwrap(), 601);
    assert_eq!(level("0e99999999999999999999999999").unwrap(), 0);
    assert_eq!(level("7e-99999999999999999999999999").unwrap(), 0);
    assert!(level("1e99999999999999999999999999").is_err());
    assert!(level("1e").is_err());
    assert!(level("e5").is_err());
    assert!(level("1e5.").is_err());
}

#[test]
fn any_name_is_read_back() {
    let names = [
        "Say \"hi\"",
        "back\\slash",
        "tab\tand\nline",
        "a #comment that is none",
        "# first",
        "\u{7f}\u{0}\u{200b}",
        "it's",
        "order=[00]",
        "\\u{41}",
        " blanks around ",
    ];
    for name in names {
        let mut song = Song::default();
        song.title = name.into();
        song.artist = name.into();
        song.copyright = name.into();
        song.key_name = name.into();
        song.driver = Some((name.into(), name.into()));
        song.samples.push(DpcmRef { name: name.into(), path: name.into(), rate: 3 });
        song.samples.push(DpcmRef { name: "k".into(), path: "a b.dmc".into(), rate: 15 });
        song.chains.push(Chain { name: Some(name.into()), phrases: vec![0] });
        let text = to_vip(&song);
        let (back, warnings) = from_vip(&text).unwrap();
        assert!(warnings.is_empty(), "{:?}", warnings);
        assert_eq!(back.title, name);
        assert_eq!(back.artist, name);
        assert_eq!(back.copyright, name);
        assert_eq!(back.key_name, name);
        assert_eq!(back.driver, Some((name.to_string(), name.to_string())));
        assert_eq!(back.samples[0].name, name);
        assert_eq!(back.samples[0].path, name);
        assert_eq!(back.samples[0].rate, 3);
        assert_eq!(back.samples[1].path, "a b.dmc");
        assert_eq!(back.chains[0].name.as_deref(), Some(name));
        assert_eq!(to_vip(&back), text);
    }
}

#[test]
fn plain_values_are_written_bare() {
    let mut song = Song::default();
    song.samples.push(DpcmRef { name: "kick".into(), path: "kick.dmc".into(), rate: 15 });
    song.samples.push(DpcmRef { name: "my kick".into(), path: "my kick.dmc".into(), rate: 15 });
    let text = to_vip(&song);
    assert!(text.contains("@dpcm 00  name=kick  path=kick.dmc\n"), "{}", text);
    assert!(text.contains("@dpcm 01  name=\"my kick\"  path=\"my kick.dmc\"\n"), "{}", text);
}

#[test]
fn the_order_is_written_without_an_arrangement() {
    let mut song = Song::default();
    song.order = vec![0, 0];
    assert!(to_vip(&song).contains("order=[00,00]"));
    song.chains.push(Chain { name: None, phrases: vec![0] });
    song.arrangement = vec![0];
    assert!(!to_vip(&song).contains("order="));
}

#[test]
fn what_is_read_is_in_range() {
    let text = "@song current=09 order=[00,07,01] loop=05\n@phrase 00\n@phrase 01\n@chain 00\n  00 09 01\n";
    let (s, _) = from_vip(text).unwrap();
    assert_eq!(s.current_phrase, 0);
    assert_eq!(s.order, vec![0, 1]);
    assert_eq!(s.loop_pos, 0);
    assert_eq!(s.chains[0].phrases, vec![0, 1]);
    let text = "@song order=[00]\n@phrase 00\n@chain 00\n  00\n@arrangement loop=09\n  00 05\n";
    let (s, _) = from_vip(text).unwrap();
    assert_eq!(s.arrangement, vec![0]);
    assert_eq!(s.arr_loop, 0);
    assert!(s.order.is_empty());
}

#[test]
fn song_faults_in_words() {
    let said = |t: &str| explain(t, from_vip(t).err().unwrap());
    assert_eq!(said("@song bpm=x"), "line 1: @song: bpm");
    assert_eq!(said("\n@length pu1=x"), "line 2: @length: length pu1=x");
    assert_eq!(said("@length pu1=4 tri=+20"), "line 1: @length: length tri=20 out of range (1..=16)");
    assert_eq!(said("@length zz=4"), "line 1: @length: length: unknown channel \"zz\"");
    assert_eq!(said("@instr 1F a=2"), "line 1: @instr: instrument 1F out of range (max F)");
    assert_eq!(said("@instr 00 a=2 duty=x"), "line 1: @instr: duty");
    assert_eq!(said("@dpcm 40 path=x"), "line 1: @dpcm: sample index 40 out of range (max 3F)");
    assert_eq!(said("@dpcm 00 path=x rate=16"), "line 1: @dpcm: rate 16 out of range 0..=15");
    assert_eq!(said("@dpcm 00 name=x"), "line 1: @dpcm: @dpcm needs path=");
    assert_eq!(said("@phrase 00\n1F C-4"), "line 2: step 1F out of range");
    assert_eq!(said("@phrase 00\n00 C-4 H-4:00"), "line 2: ch2: bad note \"H-4\"");
    assert_eq!(
        said("@phrase 00\n00 C-4:00:00:AB"),
        "line 2: ch1: fx field must be 3 chars, got \"AB\""
    );
    assert_eq!(
        said("@phrase 00\n00 C-4:00:00:!42"),
        "line 2: ch1: fx command must be A-Z or 0-9, got '!'"
    );
    assert_eq!(said("@chain 00\n00 zz"), "line 2: chain phrase \"zz\"");
    assert_eq!(said("@arrangement\n00 zz"), "line 2: arrangement chain \"zz\"");
    assert_eq!(said("@groove\n0 4 x"), "line 2: groove value \"x\"");
    assert_eq!(
        said("00 C-4"),
        "line 1: data row appears before any @phrase / @chain / @arrangement / @groove directive"
    );
}

#[test]
fn lengths_that_are_read_fit_a_phrase() {
    let (s, _) = from_vip("@length pu1=3 dpcm=16\n").unwrap();
    assert_eq!(s.channel_length, [3, 16, 16, 16, 16]);
    assert!(from_vip("@length pu1=0\n").is_err());
    assert!(from_vip("@length pu1=17\n").is_err());
}
