use viper::style::compose::{GenParams, NoSuchScale};
use viper::style::parser::StyleFault;
use viper::style::{
    generate, generate_with_info, parse_chord, report, split_transpose, ChordSym, Style,
};
use viper::style::words::explain;
use viper::song::STEPS_PER_PHRASE;
use viper::vip::to_vip;

const NEUTRAL: &str = r#"# a style without a genre
@style name=neutral version=1
@tempo min=120 max=150
@keys C D E A
@scales minor dorian
@progression i VI III VII
@progression name=plain i iv v i
@instr 00 name=lead a=2 d=60 s=0.6 r=80 duty=0.5 vol=0.7
@instr 01 name=harm a=2 d=60 s=0.4 r=60 duty=0.25 vol=0.5
@instr 02 name=bass a=2 d=40 s=0.9 r=60 duty=0.5 vol=0.9
@instr 03 name=hat a=0 d=30 s=0.0 r=10 vol=0.6
@instr 04 name=crash a=0 d=200 s=0.1 r=120 vol=0.7
@noise   hat=C-6/03  open=G-5/03  crash=C-5/04
@riff gallop rhythm=x.xxx.xxx.xxx.xx contour=walk harmony=third bass=roots lead=lead harm=harm bassi=bass octave=5
@riff long rhythm=x...x...x...x... contour=arch harmony=third bass=roots lead=lead harm=harm bassi=bass octave=5
@drums half   noi="h . . . h . . . h . . . h . . ."  dpcm="k . . . . . . . s . . . . . . ."
@drums full   noi="h . h . h . h . h . h . h . h ."  dpcm="k . . . s . . . k . . . s . . ."
@section intro  bars=1 riffs=long drums=half
@section verse  bars=2 riffs=gallop drums=full
@section chorus bars=2 riffs=gallop,long drums=full end=crash
@section bridge bars=1 riffs=long drums=half
@section outro  bars=1 riffs=long drums=half
@form intro verse chorus verse chorus bridge chorus outro
@motif 0 2 4 2
@title adj=quiet,bright noun=river,engine
"#;

fn seeded(seed: u64) -> GenParams {
    GenParams { seed, ..Default::default() }
}

#[test]
fn neutral_style_parses_and_generates_deterministically() {
    let st = Style::parse(NEUTRAL).unwrap();
    assert!(st.is_playable());
    let a = generate(&st, &seeded(7)).unwrap();
    let b = generate(&st, &seeded(7)).unwrap();
    assert_eq!(to_vip(&a), to_vip(&b));
    assert!(!a.order.is_empty());
    assert!(a.bpm >= st.tempo_min && a.bpm <= st.tempo_max);
    let r = report(&a);
    assert!(r.lead_hits * 10 > r.bars * 16, "{:?}", r);
    assert!(r.drum_hits > 0);
    let c = generate(&st, &seeded(8)).unwrap();
    assert_ne!(to_vip(&a), to_vip(&c));
}

#[test]
fn transposed_form_sections_shift_pitched_channels_only() {
    let text = NEUTRAL.replace(
        "@form intro verse chorus verse chorus bridge chorus outro",
        "@form intro verse chorus+3 outro",
    );
    let st = Style::parse(&text).unwrap();
    let a = generate(&st, &GenParams { seed: 5, form: Some(0), ..Default::default() }).unwrap();
    let plain = NEUTRAL.replace(
        "@form intro verse chorus verse chorus bridge chorus outro",
        "@form intro verse chorus outro",
    );
    let base = generate(
        &Style::parse(&plain).unwrap(),
        &GenParams { seed: 5, form: Some(0), ..Default::default() },
    )
    .unwrap();
    assert_eq!(a.order.len(), base.order.len());
    let mut shifted = 0;
    for (x, y) in a.order.iter().zip(base.order.iter()) {
        let (pa, pb) = (&a.phrases[*x], &base.phrases[*y]);
        for s in 0..STEPS_PER_PHRASE {
            assert_eq!(pa.cells[s][3].note, pb.cells[s][3].note);
            assert_eq!(pa.cells[s][4].note, pb.cells[s][4].note);
            if let (Some(n1), Some(n2)) = (pa.cells[s][0].note, pb.cells[s][0].note) {
                if n1 != n2 {
                    assert_eq!(n1, n2 + 3);
                    shifted += 1;
                }
            }
        }
    }
    assert!(shifted > 0);
    assert_eq!(split_transpose("chorus-2"), ("chorus".to_string(), -2));
}

#[test]
fn style_dpcm_bank_maps_tokens_and_reaches_generated_songs() {
    let text = NEUTRAL.replace(
        "@noise   hat=C-6/03  open=G-5/03  crash=C-5/04",
        "@noise   hat=C-6/03  open=G-5/03  crash=C-5/04\n@dpcm 00 name=kick path=../samples/kick.dmc token=k\n@dpcm 01 name=snare path=../samples/snare.dmc rate=13 token=s\n@dpcm 02 name=tom path=../samples/tom.dmc token=t",
    );
    let st = Style::parse(&text).unwrap();
    assert_eq!(st.dpcm_note('s'), Some(61));
    assert_eq!(st.dpcm_note('t'), Some(62));
    assert_eq!(st.dpcm_note('x'), None);
    let song = generate(&st, &seeded(2)).unwrap();
    assert_eq!(song.samples.len(), 3);
    assert_eq!(song.samples[1].rate, 13);
    let out = to_vip(&song);
    assert!(
        out.contains("@dpcm 01  name=snare  path=../samples/snare.dmc  rate=13"),
        "{}",
        out
    );
    let plain = Style::parse(NEUTRAL).unwrap();
    assert_eq!(plain.dpcm_note('k'), Some(60));
    let bad = text.replace(
        "@drums half   noi=\"h . . . h . . . h . . . h . . .\"  dpcm=\"k . . . . . . . s . . . . . . .\"",
        "@drums half   noi=\"h . . . h . . . h . . . h . . .\"  dpcm=\"k . . . . . . . c . . . . . . .\"",
    );
    assert!(Style::parse(&bad).unwrap_err().message().contains("token"));
}

#[test]
fn chord_symbols() {
    assert_eq!(
        parse_chord("bII"),
        Some(ChordSym { degree: 1, accidental: -1, minor: false })
    );
    assert_eq!(parse_chord("vi"), Some(ChordSym { degree: 5, accidental: 0, minor: true }));
    assert_eq!(parse_chord("VIII"), None);
}

#[test]
fn style_validation_catches_dangling_names() {
    let bad = "@keys E\n@scales minor\n@progression i VI\n@riff a rhythm=xxxxxxxxxxxxxxxx\n@drums d noi=\"h h h h h h h h h h h h h h h h\"\n@section s riffs=nope\n@form s\n";
    let e = Style::parse(bad).unwrap_err().message();
    assert!(e.contains("unknown riff"), "{}", e);
}

#[test]
fn style_faults_name_their_line() {
    let fault = |t: &str| {
        let e = Style::parse(t).unwrap_err();
        (e.line, e.fault)
    };
    assert_eq!(fault("tempo"), (1, StyleFault::NotADirective));
    assert_eq!(fault("\n@nope"), (2, StyleFault::UnknownDirective));
    assert_eq!(fault("@keys H"), (1, StyleFault::BadKey));
    assert_eq!(fault("@scales nope"), (1, StyleFault::UnknownScale));
    assert_eq!(fault("@scale x 1 2"), (1, StyleFault::ScaleStart));
    assert_eq!(fault("@progression"), (1, StyleFault::EmptyProgression));
    assert_eq!(fault("@riff a rhythm=x"), (1, StyleFault::RhythmLength));
    assert_eq!(fault("@section s bars=1"), (1, StyleFault::SectionRiffs));
    assert_eq!(fault(""), (0, StyleFault::NoKeys));
    assert_eq!(fault("@keys C"), (0, StyleFault::NoScales));
}

#[test]
fn an_unknown_scale_is_refused() {
    let st = Style::parse(NEUTRAL).unwrap();
    let p = GenParams { scale: Some("nope".into()), ..Default::default() };
    assert_eq!(generate(&st, &p).unwrap_err(), NoSuchScale);
    let p = GenParams { scale: Some("dorian".into()), key: Some(4), ..Default::default() };
    let (song, info) = generate_with_info(&st, &p).unwrap();
    assert_eq!(info.scale, "dorian");
    assert_eq!(info.key, 4);
    assert!(song.order.iter().all(|&i| i < song.phrases.len()));
}

#[test]
fn a_section_swells_over_all_its_bars() {
    let text = "@keys C\n@scales minor\n@progression i\n@riff a rhythm=xxxxxxxxxxxxxxxx contour=root\n@drums d noi=\"h h h h h h h h h h h h h h h h\"\n@section s riffs=a bars=4 swell=1\n@form s\n";
    let st = Style::parse(text).unwrap();
    let (song, _) = generate_with_info(&st, &GenParams::default()).unwrap();
    assert_eq!(song.order.len(), 4);
    let vols: Vec<u8> = song.order.iter().map(|&i| song.phrases[i].cells[0][0].vol).collect();
    assert_eq!(vols, vec![6, 9, 12, 15]);
}

#[test]
fn style_faults_in_words() {
    let said = |t: &str| explain(t, Style::parse(t).unwrap_err());
    assert_eq!(said("tempo"), "line 1: expected an @directive");
    assert_eq!(said("\n@nope"), "line 2: @nope: unknown directive");
    assert_eq!(said("@keys C H"), "line 1: @keys: bad key \"H\"");
    assert_eq!(
        said("@scale odd 0 3\n@scales odd nope"),
        "line 2: @scales: unknown scale \"nope\" (define it with @scale first)"
    );
    assert_eq!(said("@progression name=p i zz"), "line 1: @progression: bad chord \"zz\"");
    assert_eq!(said("@tempo min=x"), "line 1: @tempo: bad number");
    assert_eq!(said("@instr 1F name=x"), "line 1: @instr: instrument 1F out of range");
    assert_eq!(said("@riff a lead=zz"), "line 1: @riff: unknown instrument \"zz\"");
    assert_eq!(said("@noise hat=H-9/00"), "line 1: @noise: bad note \"H-9\"");
    assert_eq!(said("@drums d noi=\"h h\""), "line 1: @drums: noi needs 16 tokens, got 2");
    assert_eq!(
        said("@dpcm 40 path=x"),
        "line 1: @dpcm: slot 40 out of range (max 3F)"
    );
    assert_eq!(
        said("@keys C\n@dpcm 01 path=x\n"),
        "@dpcm slot 00 is missing (slots must be contiguous)"
    );
    assert_eq!(
        said("@keys C\n@drums d dpcm=\"q . . . . . . . . . . . . . . .\"\n"),
        "@drums d uses DPCM token 'q' with no @dpcm token= for it"
    );
    assert_eq!(said("@keys C"), "style has no @scales");
    let bad = "@keys E\n@scales minor\n@progression i VI\n@riff a rhythm=xxxxxxxxxxxxxxxx\n@drums d noi=\"h h h h h h h h h h h h h h h h\"\n";
    assert_eq!(
        said(&format!("{}@section s riffs=nope\n@form s\n", bad)),
        "section \"s\" references unknown riff \"nope\""
    );
    assert_eq!(
        said(&format!("{}@section s riffs=a drums=nope\n@form s\n", bad)),
        "section \"s\" references unknown drums \"nope\""
    );
    assert_eq!(
        said(&format!("{}@section s riffs=a\n@form s t+3\n", bad)),
        "@form references unknown section \"t\""
    );
}

#[test]
fn sure_odds_are_read() {
    let text = "@keys C\n@scales minor\n@progression i\n@riff a rhythm=xxxxxxxxxxxxxxxx contour=root slide=2 fx=\n@drums d noi=\"h h h h h h h h h h h h h h h h\"\n@section s riffs=a bars=4 motif=inf\n@form s\n";
    let st = Style::parse(text).unwrap();
    assert_eq!(st.riffs[0].slide, 2000);
    assert_eq!(st.sections[0].motif, i32::MAX);
    for seed in 0..20 {
        let (song, _) = generate_with_info(&st, &seeded(seed)).unwrap();
        let p = &song.phrases[song.order[0]];
        for s in 1..STEPS_PER_PHRASE {
            assert_eq!(p.cells[s][0].fx, Some((b'S', 4)));
        }
    }
    let signed = text.replace("fx=", "fx=v+5");
    assert_eq!(Style::parse(&signed).unwrap().riffs[0].fx, Some((b'V', 5)));
}
