use viper::audio::LiveEvent;
use viper::editor::complete::longest_common_prefix;
use viper::editor::draw::{cell_columns, note_name, Shade};
use viper::editor::keys::{Key, KeyCode};
use viper::editor::{piano_row_note, Editor, Mode, Pending, Request, Theme};
use viper::song::{Cell, Instrument, Song};

fn press(e: &mut Editor, code: KeyCode) {
    e.handle_key(Key { code, ctrl: false });
}

fn type_keys(e: &mut Editor, keys: &str) {
    for c in keys.chars() {
        press(e, KeyCode::Char(c));
    }
}

fn run(e: &mut Editor, command: &str) {
    type_keys(e, ":");
    type_keys(e, command);
    press(e, KeyCode::Enter);
}

/// An editor past its title screen, on an empty song.
fn blank() -> Editor {
    let mut e = Editor::new();
    press(&mut e, KeyCode::Enter);
    run(&mut e, "new");
    e
}

fn notes(e: &Editor, ch: usize) -> Vec<Option<u8>> {
    (0..16).map(|s| e.phrase().cells[s][ch].note).collect()
}

#[test]
fn the_first_key_only_closes_the_title() {
    let mut e = Editor::new();
    assert!(e.show_splash && e.playing);
    press(&mut e, KeyCode::Char('x'));
    assert!(!e.show_splash && !e.playing);
    assert_eq!(e.phrase().cells[0][0].note, Some(81));
}

#[test]
fn the_piano_row_is_chromatic() {
    let row = "zsxdcvgbhnjm,l.;/";
    for (i, k) in row.chars().enumerate() {
        assert_eq!(piano_row_note(k, 4), Some(60 + i as u8));
    }
    assert_eq!(piano_row_note('q', 4), None);
    assert_eq!(piano_row_note('z', 0), Some(12));
}

#[test]
fn inserting_steps_down() {
    let mut e = blank();
    type_keys(&mut e, "izxc");
    assert_eq!(e.mode, Mode::Insert);
    assert_eq!(notes(&e, 0)[..4], [Some(60), Some(62), Some(64), None]);
    press(&mut e, KeyCode::Backspace);
    assert_eq!(notes(&e, 0)[2], None);
    type_keys(&mut e, ">z<");
    assert_eq!(notes(&e, 0)[2], Some(72));
    assert_eq!(e.insert_octave, 4);
    press(&mut e, KeyCode::Esc);
    assert_eq!(e.mode, Mode::Normal);
    run(&mut e, "set step=4");
    type_keys(&mut e, "g0izz");
    assert_eq!(e.cursor_step, 8);
}

#[test]
fn undo_takes_back_and_redo_brings_again() {
    let mut e = blank();
    type_keys(&mut e, "iz");
    press(&mut e, KeyCode::Esc);
    let with = e.phrase();
    type_keys(&mut e, "u");
    assert_eq!(notes(&e, 0)[0], None);
    assert_eq!(e.status_line(), "undo (0 remaining)");
    e.handle_key(Key { code: KeyCode::Char('r'), ctrl: true });
    assert_eq!(e.phrase(), with);
    assert_eq!(e.status_line(), "redo (0 remaining)");
    type_keys(&mut e, "uu");
    assert_eq!(e.status_line(), "already at oldest change");
}

#[test]
fn history_is_bounded() {
    let mut e = blank();
    for _ in 0..250 {
        type_keys(&mut e, "x");
    }
    assert_eq!(e.undo.len(), 200);
}

#[test]
fn rows_are_deleted_and_pasted() {
    let mut e = blank();
    type_keys(&mut e, "izxcv");
    press(&mut e, KeyCode::Esc);
    type_keys(&mut e, "g2dd");
    assert_eq!(e.status_line(), "deleted 2 rows");
    assert_eq!(notes(&e, 0)[..4], [None, None, Some(64), Some(65)]);
    type_keys(&mut e, "P");
    assert_eq!(notes(&e, 0)[..4], [Some(60), Some(62), Some(64), Some(65)]);
    assert_eq!(e.status_line(), "pasted 2 row(s)");
    type_keys(&mut e, "Gp");
    assert_eq!(notes(&e, 0)[15], None);
}

#[test]
fn bars_phrases_and_channels() {
    let mut e = Editor::new();
    press(&mut e, KeyCode::Enter);
    type_keys(&mut e, "dab");
    assert_eq!(e.status_line(), "deleted bar");
    assert!(notes(&e, 0)[..4].iter().all(|n| n.is_none()));
    assert!(notes(&e, 1)[4].is_some());
    type_keys(&mut e, "ldiv");
    assert_eq!(e.status_line(), "deleted channel");
    assert!(notes(&e, 1).iter().all(|n| n.is_none()));
    type_keys(&mut e, "dip");
    assert!((0..5).all(|c| notes(&e, c).iter().all(|n| n.is_none())));
    type_keys(&mut e, "uu.");
    assert_eq!(e.status_line(), "deleted phrase");
    type_keys(&mut e, "daz");
    assert_eq!(e.status_line(), "unknown object");
    type_keys(&mut e, "dz");
    assert_eq!(e.status_line(), "cancelled");
}

#[test]
fn changing_goes_on_with_inserting() {
    let mut e = Editor::new();
    press(&mut e, KeyCode::Enter);
    type_keys(&mut e, "jlcc");
    assert_eq!(e.mode, Mode::Insert);
    assert_eq!((e.cursor_step, e.cursor_ch), (1, 0));
    assert_eq!(e.status_line(), "-- INSERT (change) --");
}

#[test]
fn a_selection_is_a_rectangle() {
    let mut e = Editor::new();
    press(&mut e, KeyCode::Enter);
    type_keys(&mut e, "vjl");
    assert_eq!(e.mode, Mode::Visual);
    assert_eq!(e.shade_of(0, 1), Shade::Selection);
    assert_eq!(e.shade_of(1, 1), Shade::Cursor);
    assert_eq!(e.shade_of(2, 1), Shade::Column);
    assert_eq!(e.shade_of(2, 0), Shade::Plain);
    type_keys(&mut e, "d");
    assert_eq!(e.status_line(), "deleted 2×2 block");
    assert_eq!(e.mode, Mode::Normal);
    assert_eq!(notes(&e, 0)[0], None);
    assert_eq!(notes(&e, 2)[0], Some(45));
    type_keys(&mut e, "P");
    assert_eq!(notes(&e, 0)[0], Some(81));
    type_keys(&mut e, "VVy");
    assert_eq!(e.status_line(), "yanked 1×1 block");
}

#[test]
fn replacing_a_note() {
    let mut e = blank();
    type_keys(&mut e, "rz");
    assert_eq!(e.status_line(), "replaced [00,ch1] with C-4");
    type_keys(&mut e, "rq");
    assert_eq!(e.status_line(), "r: not a piano-row key: 'q'");
    type_keys(&mut e, "r");
    press(&mut e, KeyCode::Up);
    assert_eq!(e.status_line(), "r: expected piano-row key");
}

#[test]
fn counts_saturate_and_show() {
    let mut e = blank();
    type_keys(&mut e, "12");
    assert_eq!(e.typed_line(), "12");
    type_keys(&mut e, "d");
    assert_eq!(e.typed_line(), "12d");
    assert!(matches!(e.pending, Pending::Op(_)));
    press(&mut e, KeyCode::Esc);
    assert_eq!(e.typed_line(), "");
    type_keys(&mut e, "99999999999j");
    assert_eq!(e.cursor_step, 15);
}

#[test]
fn phrases_go_round() {
    let mut e = blank();
    type_keys(&mut e, "}");
    assert_eq!(e.status_line(), "only one phrase");
    run(&mut e, "phrase new");
    assert_eq!(e.status_line(), "new phrase 01");
    type_keys(&mut e, "}");
    assert_eq!(e.song.current_phrase, 0);
    type_keys(&mut e, "{");
    assert_eq!(e.song.current_phrase, 1);
    run(&mut e, "phrase");
    assert_eq!(e.status_line(), "phrase 01/01");
    run(&mut e, "phrase 00");
    assert_eq!(e.song.current_phrase, 0);
    run(&mut e, "phrase 07");
    assert_eq!(e.status_line(), "no phrase 07 (have 2)");
    run(&mut e, "phrase zz");
    assert_eq!(e.status_line(), "bad phrase index: zz");
    run(&mut e, "phrase del");
    assert_eq!(e.status_line(), "deleted phrase 00, now on 00");
    run(&mut e, "phrase del");
    assert_eq!(e.status_line(), "cleared phrase (last one, not deleted)");
}

#[test]
fn settings() {
    let mut e = blank();
    run(&mut e, "set bpm = 150");
    assert_eq!((e.song.bpm, e.status_line()), (150, "bpm = 150".to_string()));
    run(&mut e, "set bpm=5");
    assert_eq!(e.status_line(), "bpm out of range (20–999): 5");
    run(&mut e, "set bpm=x");
    assert_eq!(e.status_line(), "bad bpm value: \"x\"");
    run(&mut e, "set step=17");
    assert_eq!(e.status_line(), "step out of range (1–16): 17");
    run(&mut e, "set octave=9");
    assert_eq!(e.status_line(), "octave out of range (0–8): 9");
    run(&mut e, "set octave=2");
    assert_eq!(e.insert_octave, 2);
    run(&mut e, "set theme=phosphor");
    assert_eq!(e.theme, Theme::Phosphor);
    run(&mut e, "set theme=x");
    assert_eq!(e.status_line(), "unknown theme: \"x\" (try nes or phosphor)");
    run(&mut e, "set bpm");
    assert_eq!(e.status_line(), "usage: :set key=value");
    run(&mut e, "set x=1");
    assert_eq!(e.status_line(), "unknown setting: x");
    run(&mut e, "nope now");
    assert_eq!(e.status_line(), "unknown command: nope now");
}

#[test]
fn volumes_and_effects() {
    let mut e = blank();
    run(&mut e, "vol 0A");
    assert_eq!(e.status_line(), "cursor cell has no note — vol only applies to notes");
    type_keys(&mut e, "rz");
    run(&mut e, "vol 0A");
    assert_eq!(e.phrase().cells[0][0].vol, 10);
    assert_eq!(e.status_line(), "vol = 0A at [00,ch1]");
    run(&mut e, "vol 10");
    assert_eq!(e.status_line(), "vol out of range (00–0F): 10");
    run(&mut e, "vol zz");
    assert_eq!(e.status_line(), "bad vol hex: \"zz\"");
    run(&mut e, "fx a04");
    assert_eq!(e.phrase().cells[0][0].fx, Some((b'A', 4)));
    assert_eq!(e.status_line(), "fx = A04 at [00,ch1]");
    run(&mut e, "fx V 63");
    assert_eq!(e.phrase().cells[0][0].fx, Some((b'V', 0x63)));
    run(&mut e, "fx A0");
    assert_eq!(e.status_line(), "fx form: CPP (e.g. A04) — got \"A0\"");
    run(&mut e, "fx !04");
    assert_eq!(e.status_line(), "fx command must be A-Z or 0-9 — got '!'");
    run(&mut e, "fx Azz");
    assert_eq!(e.status_line(), "bad fx param hex: \"ZZ\"");
    run(&mut e, "fx V+5");
    assert_eq!(e.status_line(), "fx = V05 at [00,ch1]");
    run(&mut e, "fx é1");
    assert_eq!(e.status_line(), "fx command must be A-Z or 0-9 — got 'Ã'");
    run(&mut e, "fx off");
    assert_eq!(e.phrase().cells[0][0].fx, None);
    run(&mut e, "fx off");
    assert_eq!(e.status_line(), "no fx to clear");
}

#[test]
fn transposing_leaves_drums_alone() {
    let mut e = Editor::new();
    press(&mut e, KeyCode::Enter);
    let before = notes(&e, 3);
    run(&mut e, "transpose +12");
    assert_eq!(notes(&e, 0)[0], Some(93));
    assert_eq!(notes(&e, 3), before);
    assert_eq!(e.status_line(), "transposed 37 note(s) by +12 semitones");
    run(&mut e, "tr -12");
    assert_eq!(notes(&e, 0)[0], Some(81));
    run(&mut e, "tr 0");
    assert_eq!(e.status_line(), "transpose: 0 semitones (no-op)");
    run(&mut e, "tr x");
    assert_eq!(e.status_line(), "bad transpose amount: \"x\" (try +5 or -3)");
    let mut b = blank();
    run(&mut b, "tr 5");
    assert_eq!(b.status_line(), "transpose: nothing to move (or all clamped)");
    assert!(!b.dirty && b.undo.is_empty());
}

#[test]
fn generators_from_the_command_line() {
    let mut e = blank();
    run(&mut e, "gen four");
    assert_eq!(e.status_line(), "generated four-on-floor drums on NOI");
    assert_eq!(e.gen_seed, 2);
    assert_eq!(notes(&e, 3)[0], Some(36));
    type_keys(&mut e, "u");
    assert_eq!(notes(&e, 3)[0], None);
    run(&mut e, "gen euclid zz 5 16");
    assert_eq!(e.status_line(), "gen: bad channel \"zz\"");
    assert!(e.undo.is_empty());
}

#[test]
fn files_are_asked_for() {
    let mut e = blank();
    run(&mut e, "w");
    assert_eq!(e.status_line(), "error: no filename (use :w <path>)");
    run(&mut e, "w song.vip");
    assert_eq!(e.request, Request::Write { quit: false });
    assert_eq!(e.path.iter().collect::<String>(), "song.vip");
    e.dirty = true;
    e.finish_failed("disk full");
    assert_eq!(e.status_line(), "error: disk full");
    assert!(e.dirty && !e.quit && e.file.is_none());
    run(&mut e, "wq song.vip");
    e.finish_write();
    assert!(e.quit && !e.dirty);
    assert_eq!(e.status_line(), "wrote song.vip");
    assert_eq!(e.request, Request::Nothing);
    e.quit = false;
    type_keys(&mut e, "ZZ");
    assert_eq!(e.request, Request::Write { quit: true });
    run(&mut e, "e other.vip");
    assert_eq!(e.request, Request::Open);
    e.finish_load(Song::demo(), &vec!["line 1: odd".to_string()]);
    assert_eq!(e.status_line(), "loaded other.vip (1 warning: line 1: odd)");
    assert!(e.undo.is_empty());
    run(&mut e, "e! ");
    assert_eq!(e.path.iter().collect::<String>(), "other.vip");
    e.finish_new_file();
    assert_eq!(e.status_line(), "new file: other.vip");
    assert_eq!(e.song.bpm, 140);
}

#[test]
fn quitting() {
    let mut e = blank();
    type_keys(&mut e, "ZQ");
    assert!(e.quit);
    for c in ["q", "q!", "quit", "quit!"] {
        let mut e = blank();
        run(&mut e, c);
        assert!(e.quit);
    }
    let mut e = blank();
    e.handle_key(Key { code: KeyCode::Char('q'), ctrl: true });
    assert!(e.quit);
}

#[test]
fn paths_are_completed() {
    let mut e = blank();
    type_keys(&mut e, ":e songs/bl");
    press(&mut e, KeyCode::Tab);
    assert_eq!(e.request, Request::List);
    assert_eq!(e.path.iter().collect::<String>(), "songs/");
    let entries: Vec<(String, bool)> = vec![
        ("blue.vip".into(), false),
        ("blast.vip".into(), false),
        ("blob.txt".into(), false),
        ("black".into(), true),
        ("red.vip".into(), false),
    ];
    e.finish_listing(&entries);
    assert_eq!(e.typed_line(), ":e songs/bl");
    assert_eq!(e.status_line(), "3 matches: black/ blast.vip blue.vip");
    type_keys(&mut e, "ac");
    press(&mut e, KeyCode::Tab);
    e.finish_listing(&entries);
    assert_eq!(e.typed_line(), ":e songs/black/");
    type_keys(&mut e, "zz");
    press(&mut e, KeyCode::Tab);
    e.finish_listing(&vec![]);
    assert_eq!(e.status_line(), "no matches for 'songs/black/zz'");
    e.finish_no_directory("nowhere");
    assert_eq!(e.status_line(), "no such directory: nowhere");
    press(&mut e, KeyCode::Esc);
    type_keys(&mut e, ":set b");
    press(&mut e, KeyCode::Tab);
    assert_eq!(e.request, Request::Nothing);
}

#[test]
fn hidden_files_need_a_dot() {
    let mut e = blank();
    let entries: Vec<(String, bool)> = vec![(".git".into(), true), ("a.vip".into(), false)];
    type_keys(&mut e, ":w ");
    press(&mut e, KeyCode::Tab);
    assert_eq!(e.path.iter().collect::<String>(), ".");
    e.finish_listing(&entries);
    assert_eq!(e.typed_line(), ":w a.vip");
    press(&mut e, KeyCode::Esc);
    type_keys(&mut e, ":w .");
    press(&mut e, KeyCode::Tab);
    e.finish_listing(&entries);
    assert_eq!(e.typed_line(), ":w .git/");
}

#[test]
fn live_notes_are_played_and_recorded() {
    let mut e = blank();
    type_keys(&mut e, "Kz");
    assert_eq!(e.mode, Mode::Live);
    let played = e.take_live();
    assert_eq!(
        played,
        vec![
            LiveEvent::GateOff { ch: 0 },
            LiveEvent::GateOn { ch: 0, note: 60, instr: 0, vel: 15, hold_ms: Some(180) },
        ]
    );
    assert_eq!(e.status_line(), "live: PU1 C-4 (i00)");
    assert!(notes(&e, 0).iter().all(|n| n.is_none()));
    assert!(!e.dirty);
    type_keys(&mut e, "R");
    assert_eq!(e.status_line(), "rec: PU1 armed (armed: PU1)");
    assert_eq!(e.badge(), Some(" ● REC PU1 ".to_string()));
    type_keys(&mut e, "x");
    assert_eq!(notes(&e, 0)[0], Some(62));
    type_keys(&mut e, " ");
    e.follow(9);
    type_keys(&mut e, "c");
    assert_eq!(e.status_line(), "● REC PU1 E-4 → step 09 (i00)");
    assert_eq!(notes(&e, 0)[9], Some(64));
    press(&mut e, KeyCode::Tab);
    assert_eq!(e.status_line(), "live: PU2 i00 oct4");
    press(&mut e, KeyCode::Backspace);
    assert_eq!(e.status_line(), "live: PU2 off");
    e.take_live();
    press(&mut e, KeyCode::Esc);
    assert_eq!(e.take_live(), vec![LiveEvent::AllOff]);
    press(&mut e, KeyCode::Esc);
    assert_eq!(e.status_line(), "rec disarmed");
    assert_eq!(e.badge(), None);
}

#[test]
fn instruments_are_tuned() {
    let mut e = blank();
    press(&mut e, KeyCode::F(2));
    assert_eq!(e.mode, Mode::Instrument);
    assert_eq!(e.status_line(), "instrument 00 — Esc to return");
    type_keys(&mut e, "l");
    assert_eq!(e.song.instruments[0].attack_ms, 4);
    type_keys(&mut e, "jjl");
    assert_eq!(e.song.instruments[0].sustain, 750);
    assert_eq!(e.song.instruments[0].display(2), "0.75");
    type_keys(&mut e, "]]h");
    assert_eq!(e.selected_instr, 2);
    assert_eq!(e.song.instruments[2].sustain, 650);
    type_keys(&mut e, "q");
    assert_eq!(e.mode, Mode::Normal);
    run(&mut e, "inst FF");
    assert_eq!(e.selected_instr, 15);
    let mut i = Instrument::default();
    i.adjust(4, 100);
    assert_eq!(i.duty, 950);
    i.adjust(3, -1000);
    assert_eq!(i.release_ms, 0);
    assert_eq!(i.display(3), "0 ms");
}

#[test]
fn the_screen() {
    let mut e = Editor::new();
    press(&mut e, KeyCode::Enter);
    assert_eq!(
        e.title(),
        " [no name]   PHRASE 00/00   PU1 i00 v0F   80 BPM   ■ STOP "
    );
    type_keys(&mut e, "x ");
    assert_eq!(
        e.title(),
        " [no name] [+]   PHRASE 00/00   PU1 i-- v--   80 BPM   ● PLAY "
    );
    assert!(e.channel_lit(1) && !e.channel_lit(0));
    assert_eq!(e.shade_of(0, 1), Shade::Playhead);
    run(&mut e, "w songs/a.vip");
    e.finish_write();
    assert!(e.title().starts_with(" a.vip   PHRASE"));
    let c = Cell { note: Some(69), instr: 2, vol: 0, fx: Some((b'V', 0x42)), hold: false };
    assert_eq!(
        cell_columns(c),
        ("A-4".into(), "02".into(), "--".into(), "V42".into())
    );
    assert_eq!(
        cell_columns(Cell::hold()),
        ("===".into(), "--".into(), "--".into(), "---".into())
    );
    assert_eq!(note_name(0), "C--1");
    assert_eq!(Mode::Instrument.name(), "INSTR");
}

#[test]
fn a_note_takes_the_place_of_a_hold() {
    let mut e = blank();
    e.song.phrases[0].cells[0][0] = Cell::hold();
    e.song.phrases[0].cells[1][0] = Cell::hold();
    type_keys(&mut e, "rzjix");
    for (s, note) in [(0, 60), (1, 62)] {
        let cell = e.phrase().cells[s][0];
        assert_eq!(cell.note, Some(note));
        assert!(!cell.hold);
    }
}

#[test]
fn a_dot_repeats_the_last_change() {
    let mut e = blank();
    type_keys(&mut e, "izxcvbn");
    press(&mut e, KeyCode::Esc);
    type_keys(&mut e, "gddj.");
    assert_eq!(notes(&e, 0)[..5], [None, None, Some(64), Some(65), Some(67)]);
    type_keys(&mut e, "j2ddG.");
    assert_eq!(notes(&e, 0)[..5], [None, None, None, None, Some(67)]);
}

#[test]
fn a_failed_generator_is_no_change() {
    let mut e = Editor::new();
    press(&mut e, KeyCode::Enter);
    let tri = notes(&e, 2);
    assert!(tri.iter().any(|n| n.is_some()));
    let (undo, phrases, dirty) = (e.undo.len(), e.song.phrases.len(), e.dirty);
    run(&mut e, "gen bassline Am style=nope");
    assert!(e.status_line().starts_with("gen: "), "{}", e.status_line());
    assert!(e.status_line().contains("\"nope\""), "{}", e.status_line());
    assert_eq!(notes(&e, 2), tri);
    assert_eq!(e.undo.len(), undo);
    assert_eq!(e.song.phrases.len(), phrases);
    assert_eq!(e.dirty, dirty);
}

#[test]
fn no_words_share_nothing() {
    let word = |s: &str| (s.chars().collect::<Vec<char>>(), false);
    assert!(longest_common_prefix(&vec![]).is_empty());
    assert_eq!(
        longest_common_prefix(&vec![word("blast"), word("blue"), word("blob")]),
        vec!['b', 'l']
    );
}

#[test]
fn levels_are_shown_as_single_precision_has_them() {
    let shown = |m: i32| Instrument { sustain: m, ..Instrument::default() }.display(2);
    for m in [-5, 0, 5, 15, 25, 35, 125, 335, 375, 615, 625, 875, 1005, 999, 1_000_000, i32::MAX] {
        let f: f32 = format!("{}e-3", m).parse().unwrap();
        assert_eq!(shown(m), format!("{:.2}", f), "{}", m);
    }
    assert_eq!(shown(15), "0.01");
    for m in 0..=2000 {
        let f: f32 = format!("{}e-3", m).parse().unwrap();
        assert_eq!(shown(m), format!("{:.2}", f), "{}", m);
    }
}
