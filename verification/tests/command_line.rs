use viper::cli::{
    aligned_len, gen_header, import_header, name_stem, render_frames, sample_fits, track_time,
    trigger_note, Args, CliError, Command, Need,
};
use viper::style::{GenInfo, Report};

fn args(words: &[&str]) -> Args {
    let v: Vec<String> = words.iter().map(|w| w.to_string()).collect();
    Args::parse(&v)
}

#[test]
fn words_and_flags() {
    let a = args(&["song.vip", "--loops", "2", "--help", "more", "-o", "out.nsf", "--tail"]);
    assert_eq!(a.positional, vec!["song.vip", "more"]);
    assert_eq!(a.get("loops"), Some("2".to_string()));
    assert_eq!(a.get("out"), Some("out.nsf".to_string()));
    assert_eq!(a.get("help"), None);
    assert_eq!(a.get("tail"), None);
    assert_eq!(a.num("loops", 100).unwrap(), Some(2));
    assert_eq!(a.num("frames", 100).unwrap(), None);
}

#[test]
fn a_flag_given_twice() {
    let a = args(&["--seed", "1", "--seed", "2", "--bpm", "--key", "C"]);
    assert_eq!(a.get("seed"), Some("2".to_string()));
    assert_eq!(a.get("bpm"), None);
    assert_eq!(a.get("key"), Some("C".to_string()));
}

#[test]
fn commands_by_name() {
    assert_eq!(Command::parse("check"), Command::Check);
    assert_eq!(Command::parse("gen"), Command::Gen);
    assert_eq!(Command::parse("rip"), Command::Rip);
    assert_eq!(Command::parse("--help"), Command::Usage);
}

#[test]
fn faults_in_words() {
    let e = args(&["--loops", "x"]).num("loops", 10).unwrap_err();
    assert_eq!(e.message(), "--loops expects a number, got \"x\"");
    let e = args(&[]).first(Need::CheckPath).unwrap_err();
    assert_eq!(e.message(), "check: need a .vip path");
    assert_eq!(args(&[]).gen_plan().unwrap_err().message(), "gen: need --style DIR");
    let e = args(&["--style", "s", "--key", "H"]).gen_plan().unwrap_err();
    assert_eq!(e.message(), "bad --key \"H\"");
    let e = args(&["--style", "s", "--seed", "18446744073709551615", "--count", "2"]);
    assert!(matches!(e.gen_plan(), Err(CliError::TooMany)));
}

#[test]
fn plans_and_paths() {
    let p = args(&["--style", "s", "--seed", "7", "--motif", "on", "--driver", "d/drv.bin"])
        .gen_plan()
        .unwrap();
    assert_eq!((p.seed, p.count, p.motif), (7, 1, Some(true)));
    assert_eq!(p.driver, Some(("d/drv.bin".to_string(), "d/drv.sym".to_string())));
    assert_eq!(p.path(7, false), "gen_007.vip");
    assert_eq!(p.params(8).seed, 8);
    let p = args(&["--style", "s", "-o", "songs"]).gen_plan().unwrap();
    assert_eq!(p.path(1234, false), "songs/gen_1234.vip");
    let p = args(&["--style", "s", "-o", "a.vip"]).gen_plan().unwrap();
    assert_eq!(p.path(1, false), "a.vip");
    assert_eq!(p.path(1, true), "a.vip/gen_001.vip");
    let p = args(&["--style", "s", "-o", "a.vip", "--count", "2", "--prefix", "x"])
        .gen_plan()
        .unwrap();
    assert_eq!(p.path(20, false), "a.vip/x_020.vip");
    assert_eq!(args(&[]).output("dir/song.mid", "vip"), "dir/song.vip");
    assert_eq!(args(&["-o", "x"]).output("dir/song.mid", "vip"), "x");
}

#[test]
fn headers() {
    let info = GenInfo {
        key: 4,
        scale: "minor".into(),
        progression: "plain".into(),
        form: 1,
        motif: true,
    };
    let r = Report { bars: 8, unique_phrases: 5, lead_hits: 48, lead_range: 12, drum_hits: 30 };
    assert_eq!(
        gen_header("neutral", "1", 7, "E", &info, &r),
        "# generated by viper gen — style neutral v1 seed 7 key E progression plain form 1 motif on\n# 8 bars, 5 unique phrases, lead density 0.38, lead range 12 semitones\n"
    );
    assert_eq!(
        import_header("a.mid", "a.vmap", "one\ntwo"),
        "# imported by viper import from a.mid with a.vmap\n# one\n# two\n"
    );
}

#[test]
fn rendering() {
    assert_eq!(render_frames(360, 480, 0, 60), Some(900));
    assert_eq!(render_frames(360, 480, 2, 0), Some(1320));
    assert_eq!(render_frames(1, u32::MAX, 2, 0), None);
    let names = vec!["kick".to_string(), "snare".to_string()];
    assert_eq!(name_stem("dpcm0", &vec![9, 3], &names), "snare");
    assert_eq!(name_stem("dpcm1", &vec![9, 3], &names), "kick");
    assert_eq!(name_stem("dpcm7", &vec![9, 3], &names), "dpcm7");
    assert_eq!(name_stem("pulse1", &vec![9, 3], &names), "pulse1");
    assert_eq!(trigger_note(None), 42);
    assert_eq!(trigger_note(Some(9)), 45);
    assert!(sample_fits(17) && !sample_fits(16) && !sample_fits(4097));
    assert_eq!(aligned_len(65), Some(128));
    assert_eq!(track_time(61_500), "1:01");
}
