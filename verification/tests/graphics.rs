use viper::modulation::{
    bindings_for, compile_expr, parse_binding, parse_source, BindFault, Func, IdxPat, Instr, Op, Source,
    SourceFault, Target,
};
use viper::sprite::{
    is_nes_rom, load_chr, load_image, load_sheet, sheet_of_raw, parse_hex, ChrFault, Placement, Rgb, Rgba, SheetFault,
    CHR_BANK_TILES,
};
use viper::viz::{bar_char, half_block, step_mark, wrapped_frame, Canvas, StepMark, VizKind};

/// An iNES file with `chr_banks` banks of tiles.
fn rom(prg_banks: u8, chr_banks: u8, trainer: bool, fill: impl Fn(usize) -> u8) -> Vec<u8> {
    let mut v = b"NES\x1A".to_vec();
    v.push(prg_banks);
    v.push(chr_banks);
    v.push(if trainer { 0x04 } else { 0x00 });
    v.resize(16, 0);
    if trainer {
        v.extend(std::iter::repeat(0xAA).take(512));
    }
    v.extend(std::iter::repeat(0x11).take(prg_banks as usize * 16 * 1024));
    let chr = chr_banks as usize * 8 * 1024;
    v.extend((0..chr).map(&fill));
    v
}

/// A diagonal in the low plane, and the top row in the high plane.
fn diagonal_tile() -> Vec<u8> {
    let mut t = vec![0u8; 16];
    for y in 0..8 {
        t[y] = 0x80 >> y;
    }
    t[8] = 0xFF;
    t
}

#[test]
fn chr_is_two_bitplanes_and_lands_where_the_hardware_says() {
    let mut chr = diagonal_tile();
    chr.resize(8 * 1024, 0);
    let s = load_chr("t", "t.nes", &rom(1, 1, false, |i| chr[i]), 8, 8, None).unwrap();
    assert_eq!(s.pixel(0, 0, 0), Some(3), "both planes set");
    assert_eq!(s.pixel(0, 7, 0), Some(2), "high plane only");
    assert_eq!(s.pixel(0, 1, 1), Some(1), "low plane only");
    assert_eq!(s.pixel(0, 0, 1), Some(0), "neither");
}

#[test]
fn tiles_are_laid_out_sixteen_to_a_row_like_a_pattern_table() {
    let r = rom(1, 1, false, |i| if i / 16 == 17 { 0xFF } else { 0 });
    let s = load_chr("t", "t.nes", &r, 8, 8, None).unwrap();
    assert_eq!(s.width, 128);
    assert_eq!(s.cell_count(), 512, "an 8 KB bank is 512 tiles");
    assert_eq!(s.pixel(17, 3, 3), Some(3), "both planes set in the fixture");
    assert_eq!(s.pixel(16, 3, 3), Some(0));
}

#[test]
fn the_chr_is_found_past_the_prg_and_any_trainer() {
    for trainer in [false, true] {
        for prg in [1u8, 2, 4] {
            let r = rom(prg, 1, trainer, |i| if i < 16 { 0xFF } else { 0 });
            let s = load_chr("t", "t.nes", &r, 8, 8, None).unwrap();
            assert_eq!(s.pixel(0, 0, 0), Some(3), "prg {} trainer {}", prg, trainer);
        }
    }
}

#[test]
fn a_bank_is_one_pattern_table_and_past_the_end_is_an_error() {
    let r = rom(1, 2, false, |i| if i / 16 == 256 { 0xFF } else { 0 });
    let whole = load_chr("t", "t.nes", &r, 8, 8, None).unwrap();
    assert_eq!(whole.cell_count(), 1024, "two 8 KB banks");
    let one = load_chr("t", "t.nes", &r, 8, 8, Some(0)).unwrap();
    assert_eq!(one.cell_count(), CHR_BANK_TILES as u64, "one pattern table");
    assert_eq!(one.pixel(255, 0, 0), Some(0));
    assert_eq!(load_chr("t", "t.nes", &r, 8, 8, Some(1)).unwrap().pixel(0, 0, 0), Some(3));
    let err = load_chr("t", "t.nes", &r, 8, 8, Some(99)).unwrap_err().message("t.nes");
    assert!(err.contains("past the end") && err.contains("4 banks"), "{}", err);
}

#[test]
fn a_cartridge_without_tiles_says_so() {
    let r = rom(1, 0, false, |_| 0);
    assert_eq!(load_chr("t", "t.nes", &r, 8, 8, None).unwrap_err(), ChrFault::InRam);
    let mut cut = rom(1, 1, false, |_| 0);
    cut.truncate(20_000);
    assert_eq!(
        load_chr("t", "t.nes", &cut, 8, 8, None).unwrap_err(),
        ChrFault::TooShort { chr_bytes: 8192 }
    );
}

#[test]
fn something_that_is_not_a_rom_is_refused() {
    let text = b"this is not a ROM at all, not even close";
    assert!(load_chr("t", "t.nes", text, 8, 8, None).is_err());
    assert!(!is_nes_rom(text), "and is not mistaken for one");
    assert!(is_nes_rom(&rom(1, 1, false, |_| 0)), "a ROM called .png is still a ROM");
}

#[test]
fn cells_must_be_whole_tiles() {
    let r = rom(1, 1, false, |_| 0);
    assert!(load_chr("t", "t.nes", &r, 8, 16, None).is_ok());
    assert!(load_chr("t", "t.nes", &r, 16, 16, None).is_ok());
    for bad in [(5, 8), (8, 5), (0, 8)] {
        assert!(load_chr("t", "t.nes", &r, bad.0, bad.1, None).is_err(), "{:?}", bad);
    }
}

#[test]
fn a_chr_sheet_needs_no_quantising_because_it_is_already_indexed() {
    let r = rom(1, 1, false, |i| (i % 251) as u8);
    let s = load_chr("t", "t.nes", &r, 8, 8, None).unwrap();
    assert!(!s.quantize, "nothing was approximated");
    assert!(s.indices.iter().all(|&v| v <= 3), "every pixel is already an index");
    assert!(s.indices.iter().any(|&v| v == 3), "and the range is used");
}

fn dot(r: u8, g: u8, b: u8) -> Rgba {
    Rgba { color: Rgb { r, g, b }, a: 255 }
}

#[test]
fn sheets_keep_few_colors_and_refuse_many() {
    let few: Vec<Rgba> = (0..16).map(|i| if i % 2 == 0 { dot(255, 0, 0) } else { dot(0, 0, 255) }).collect();
    let s = load_sheet("s", "s.png", 4, 4, &few, 2, 2, false).unwrap();
    assert_eq!((s.cols(), s.rows(), s.cell_count()), (2, 2, 4));
    let a = s.pixel(0, 0, 0).unwrap() as usize;
    assert_eq!(s.palette[a], Rgb { r: 255, g: 0, b: 0 });
    let many: Vec<Rgba> = (0..16).map(|i| dot(i * 16, 0, 255 - i * 16)).collect();
    assert_eq!(
        load_sheet("s", "s.png", 4, 4, &many, 2, 2, false).unwrap_err(),
        SheetFault::TooManyColors(16)
    );
    assert!(load_sheet("s", "s.png", 4, 4, &many, 2, 2, true).unwrap().quantize);
    assert_eq!(
        load_sheet("s", "s.png", 4, 4, &few, 3, 2, false).unwrap_err(),
        SheetFault::Uneven { width: 4, height: 4, w: 3, h: 2 }
    );
    assert_eq!(
        load_sheet("s", "s.png", 4, 4, &few, 0, 2, false).unwrap_err(),
        SheetFault::EmptyCell { w: 0, h: 2 }
    );
}

#[test]
fn colors_in_hex() {
    assert_eq!(parse_hex("#ff8000"), Some(Rgb { r: 255, g: 128, b: 0 }));
    assert_eq!(parse_hex("nope"), None);
}

#[test]
fn targets_by_name() {
    for t in [
        Target::X,
        Target::Y,
        Target::Scale,
        Target::FlipX,
        Target::FlipY,
        Target::Frame,
        Target::Visible,
    ] {
        assert_eq!(Target::parse(t.name()), Some(t));
    }
    assert_eq!(Target::parse("nope"), None);
}

fn code(s: &str) -> Result<Vec<Instr>, BindFault> {
    let c: Vec<char> = s.chars().collect();
    compile_expr(&c)
}

#[test]
fn expressions_become_postfix_code() {
    assert_eq!(
        code("step * 2 + 1").unwrap(),
        vec![
            Instr::Src(Source::Step),
            Instr::Lit { from: 7, to: 8 },
            Instr::Bin(Op::Mul),
            Instr::Lit { from: 11, to: 12 },
            Instr::Bin(Op::Add),
        ]
    );
    assert_eq!(
        code("-abs(beat)").unwrap(),
        vec![Instr::Src(Source::Beat), Instr::Call(Func::Abs), Instr::Neg]
    );
    assert!(code("1 +").is_err());
    assert!(code("(1").is_err());
    assert!(matches!(code("min(1)"), Err(BindFault::BadArity { func: Func::Min, got: 1 })));
    assert!(matches!(code("1 ? 2"), Err(BindFault::BadChar('?'))));
}

#[test]
fn sources_by_name() {
    let c = |s: &str| parse_source(&s.chars().collect::<Vec<char>>());
    assert_eq!(c("step"), Ok(Source::Step));
    assert_eq!(c("nope"), Err(SourceFault::UnknownName));
    assert!(matches!(c("pu1.env"), Ok(Source::Voice { ch: 0, .. })));
    assert_eq!(c("pu1.nope"), Err(SourceFault::UnknownField));
    assert_eq!(c("zz.env"), Err(SourceFault::UnknownVoice));
}

#[test]
fn bindings_address_sprites() {
    let b = parse_binding("hero.0 x = step * 4").unwrap();
    assert_eq!(b.sheet, "hero");
    assert_eq!(b.idx, IdxPat::Exact(0));
    assert_eq!(b.target, Target::X);
    assert_eq!(b.addr(), "hero.0");
    assert_eq!(b.expr_src, "step * 4");
    let fault = |s: &str| parse_binding(s).unwrap_err();
    assert_eq!(fault("hero.0 x"), BindFault::NoEquals);
    assert_eq!(fault("hero.0 x ="), BindFault::EmptyExpression);
    assert_eq!(fault(" = 1"), BindFault::NoAddress);
    assert_eq!(fault("hero.0 = 1"), BindFault::NoTarget);
    assert_eq!(fault("hero.0 x y = 1"), BindFault::TooManyTokens);
    assert_eq!(fault("hero.a x = 1"), BindFault::BadIndex);
    assert_eq!(fault("hero.0 zz = 1"), BindFault::UnknownTarget);
    let all = parse_binding("hero.* y = 1").unwrap();
    let other = parse_binding("cat.0 y = 1").unwrap();
    let at = |sheet: &str, idx: u32| Placement {
        sheet: sheet.into(),
        idx,
        x: 0,
        y: 0,
        palette: None,
    };
    let placed = vec![at("hero", 7), at("cat", 1)];
    let bare = parse_binding("hero y = sin(time * 4) * 6").unwrap();
    assert_eq!((bare.sheet.as_str(), bare.idx), ("hero", IdxPat::Wildcard));
    assert_eq!(bare.addr(), "hero.*");
    let bound = [b, all, other, bare];
    assert_eq!(bindings_for(&bound, &placed, 0), vec![0, 1, 3]);
    assert_eq!(bindings_for(&bound, &placed, 1), vec![2]);
    let dotted = parse_binding("my.hero.2 x = 1").unwrap();
    assert_eq!((dotted.sheet.as_str(), dotted.idx), ("my.hero", IdxPat::Exact(2)));
    assert!(parse_binding("mario frame = clamp(floor(noi.age * 16), 0, 3)").is_ok());
}

#[test]
fn visualizers_by_name() {
    for k in [VizKind::Bars, VizKind::Scope, VizKind::Grid, VizKind::Orbit, VizKind::Sprites] {
        assert_eq!(VizKind::parse(k.name()), Some(k));
    }
    assert_eq!(VizKind::parse("nope"), None);
}

#[test]
fn blocks_and_bars() {
    assert_eq!(half_block(true, true), '█');
    assert_eq!(half_block(true, false), '▀');
    assert_eq!(half_block(false, true), '▄');
    assert_eq!(half_block(false, false), ' ');
    assert_eq!(bar_char(0, 0, 4), ' ');
    assert!(matches!(step_mark(3, 3, true), StepMark::Active));
}

#[test]
fn canvas_keeps_what_is_plotted() {
    let mut c = Canvas::blank(4, 2);
    let red = Rgb { r: 255, g: 0, b: 0 };
    c.plot(1, 1, red);
    c.plot(-1, 0, red);
    c.plot(99, 0, red);
    assert_eq!(c.pixel(1, 1), Some(red));
    assert_eq!(c.pixel(0, 0), None);
    let s = load_sheet("s", "s.png", 4, 4, &vec![dot(1, 2, 3); 16], 2, 2, false).unwrap();
    assert_eq!(wrapped_frame(&s, 5), 1);
}

fn png(width: u32, height: u32, color: impl Fn(u32, u32) -> [u8; 4]) -> Vec<u8> {
    let mut picture = image::RgbaImage::new(width, height);
    for (x, y, p) in picture.enumerate_pixels_mut() {
        *p = image::Rgba(color(x, y));
    }
    let mut file = std::io::Cursor::new(Vec::new());
    picture.write_to(&mut file, image::ImageFormat::Png).unwrap();
    file.into_inner()
}

#[test]
fn image_files_become_sheets() {
    let file = png(4, 2, |x, y| match (x, y) {
        (0, 0) => [255, 0, 0, 255],
        (1, 0) => [0, 255, 0, 255],
        (3, 1) => [9, 9, 9, 7],
        _ => [0, 0, 0, 0],
    });
    let s = load_image("s", "s.png", &file, 2, 2, false).unwrap();
    assert_eq!((s.width, s.height, s.cell_w, s.cell_h), (4, 2, 2, 2));
    assert_eq!(s.indices, vec![1, 2, 0, 0, 0, 0, 0, 0]);
    assert_eq!(s.palette[1], Rgb { r: 255, g: 0, b: 0 });
    assert_eq!(s.palette[2], Rgb { r: 0, g: 255, b: 0 });
    assert_eq!(
        load_image("s", "s.png", &file, 3, 2, false).unwrap_err(),
        SheetFault::Uneven { width: 4, height: 2, w: 3, h: 2 }
    );
    let f = load_image("s", "s.png", b"not a picture", 2, 2, false).unwrap_err();
    assert_eq!(f, SheetFault::NotImage);
    assert_eq!(f.message("s.png"), "open sprite sheet s.png");
    assert_eq!(
        load_image("s", "s.png", b"", 0, 2, false).unwrap_err(),
        SheetFault::EmptyCell { w: 0, h: 2 }
    );
    assert_eq!(
        load_image("s", "s.dat", &file, 2, 2, false).unwrap_err(),
        SheetFault::NotImage
    );
    let rich = png(4, 4, |x, y| [x as u8, y as u8, 0, 255]);
    assert_eq!(
        load_image("s", "s.png", &rich, 2, 2, false).unwrap_err(),
        SheetFault::TooManyColors(16)
    );
    assert!(load_image("s", "s.png", &rich, 2, 2, true).is_ok());
}

#[test]
fn decoded_images_have_four_bytes_a_pixel() {
    let raw = [1, 2, 3, 255, 1, 2, 3, 0];
    let s = sheet_of_raw("s", "s", 2, 1, &raw, 1, 1, false).unwrap();
    assert_eq!(s.indices, vec![1, 0]);
    assert_eq!(
        sheet_of_raw("s", "s", 2, 2, &raw, 1, 1, false).unwrap_err(),
        SheetFault::NotImage
    );
}
