//! Sprite sheets: images of at most four colours, cut into cells.
//!
//! Slot 0 of a palette is transparent. A sheet comes from an image, whose
//! colours have to be reduced, or from a ROM, whose tiles already are
//! indices.

use vstd::prelude::*;

use crate::text;

verus! {

pub const PALETTE_SIZE: usize = 4;

/// Tiles in a row of a sheet made from a ROM, as in the hardware's tables.
pub const CHR_TILES_PER_ROW: u32 = 16;

/// Tiles in one pattern table.
pub const CHR_BANK_TILES: u32 = 256;

#[derive(Clone, Copy, Debug, PartialEq, Eq, Structural)]
pub struct Rgb {
    pub r: u8,
    pub g: u8,
    pub b: u8,
}

/// A sheet. `indices` holds a palette slot for each pixel, row by row.
#[derive(Clone, Debug)]
pub struct SpriteSheet {
    pub name: String,
    pub source: String,
    pub width: u32,
    pub height: u32,
    pub cell_w: u32,
    pub cell_h: u32,
    pub indices: Vec<u8>,
    pub palette: [Rgb; PALETTE_SIZE],
    /// Whether colours were merged when the sheet was read.
    pub quantize: bool,
    pub palette_name: Option<String>,
    pub chr_bank: Option<u32>,
}

/// A slot for every pixel, no slot but the four, and cells that divide the
/// sheet.
pub open spec fn is_sheet(s: SpriteSheet) -> bool {
    &&& s.indices@.len() == s.width * s.height
    &&& forall|i: int| 0 <= i < s.indices@.len() ==> (#[trigger] s.indices@[i]) < PALETTE_SIZE
    &&& s.cell_w > 0
    &&& s.cell_h > 0
    &&& s.width % s.cell_w == 0
    &&& s.height % s.cell_h == 0
}

pub open spec fn sheet_cols(s: SpriteSheet) -> int {
    s.width as int / s.cell_w as int
}

pub open spec fn sheet_rows(s: SpriteSheet) -> int {
    s.height as int / s.cell_h as int
}

/// The slot at a pixel of a cell, where there is such a cell and pixel.
pub open spec fn pixel_of(s: SpriteSheet, idx: u32, px: u32, py: u32) -> Option<u8> {
    let cols = sheet_cols(s);
    if cols == 0 || idx as int / cols >= sheet_rows(s) || px >= s.cell_w || py >= s.cell_h {
        None
    } else {
        let x = idx as int % cols * s.cell_w + px;
        let y = idx as int / cols * s.cell_h + py;
        Some(s.indices@[y * s.width + x])
    }
}

proof fn lemma_pixel_inside(w: int, h: int, cw: int, ch: int, cx: int, cy: int, px: int, py: int)
    requires
        0 < cw,
        0 < ch,
        0 <= w,
        0 <= h,
        0 <= cx < w / cw,
        0 <= cy < h / ch,
        0 <= px < cw,
        0 <= py < ch,
    ensures
        0 <= cx * cw + px < w,
        0 <= cy * ch + py < h,
        0 <= (cy * ch + py) * w + (cx * cw + px) < w * h,
{
    assert(cx * cw + px < w && 0 <= cx * cw) by (nonlinear_arith)
        requires
            0 < cw,
            0 <= w,
            0 <= cx < w / cw,
            0 <= px < cw,
    ;
    assert(cy * ch + py < h && 0 <= cy * ch) by (nonlinear_arith)
        requires
            0 < ch,
            0 <= h,
            0 <= cy < h / ch,
            0 <= py < ch,
    ;
    let x = cx * cw + px;
    let y = cy * ch + py;
    assert(0 <= y * w + x < w * h) by (nonlinear_arith)
        requires
            0 <= x < w,
            0 <= y < h,
    ;
}

impl SpriteSheet {
    pub fn cols(&self) -> (r: u32)
        requires
            is_sheet(*self),
        ensures
            r == sheet_cols(*self),
    {
        self.width / self.cell_w
    }

    pub fn rows(&self) -> (r: u32)
        requires
            is_sheet(*self),
        ensures
            r == sheet_rows(*self),
    {
        self.height / self.cell_h
    }

    /// How many cells the sheet has.
    pub fn cell_count(&self) -> (r: u64)
        requires
            is_sheet(*self),
        ensures
            r == sheet_cols(*self) * sheet_rows(*self),
    {
        let c: u32 = self.cols();
        let n: u32 = self.rows();
        assert(c * n <= 0xffff_ffff * 0xffff_ffff) by (nonlinear_arith)
            requires
                c <= 0xffff_ffff,
                n <= 0xffff_ffff,
        ;
        c as u64 * n as u64
    }

    /// The slot at a pixel of a cell.
    pub fn pixel(&self, idx: u32, px: u32, py: u32) -> (r: Option<u8>)
        requires
            is_sheet(*self),
        ensures
            r == pixel_of(*self, idx, px, py),
            r is Some ==> r->0 < PALETTE_SIZE,
    {
        let cols: u32 = self.cols();
        if cols == 0 {
            return None;
        }
        let cx: u32 = idx % cols;
        let cy: u32 = idx / cols;
        if cy >= self.rows() || px >= self.cell_w || py >= self.cell_h {
            return None;
        }
        proof {
            lemma_pixel_inside(
                self.width as int,
                self.height as int,
                self.cell_w as int,
                self.cell_h as int,
                cx as int,
                cy as int,
                px as int,
                py as int,
            );
        }
        let n: usize = self.indices.len();
        let x: u32 = cx * self.cell_w + px;
        let y: u32 = cy * self.cell_h + py;
        assert(0 <= y * self.width <= y * self.width + x);
        let i: usize = y as usize * self.width as usize + x as usize;
        Some(self.indices[i])
    }
}

/// Every cell has all its pixels: within the grid, each pixel of each cell
/// has a slot.
pub proof fn law_cells_are_whole(s: SpriteSheet, idx: u32, px: u32, py: u32)
    requires
        is_sheet(s),
        idx < sheet_cols(s) * sheet_rows(s),
        px < s.cell_w,
        py < s.cell_h,
    ensures
        pixel_of(s, idx, px, py) is Some,
        pixel_of(s, idx, px, py)->0 < PALETTE_SIZE,
{
    let cols = sheet_cols(s);
    let rows = sheet_rows(s);
    assert(cols > 0) by (nonlinear_arith)
        requires
            0 <= idx < cols * rows,
            cols >= 0,
    ;
    assert(idx as int / cols < rows) by (nonlinear_arith)
        requires
            0 <= idx < cols * rows,
            cols > 0,
    ;
    lemma_pixel_inside(
        s.width as int,
        s.height as int,
        s.cell_w as int,
        s.cell_h as int,
        idx as int % cols,
        idx as int / cols,
        px as int,
        py as int,
    );
}

// ---------------------------------------------------------------- images

/// A pixel with its alpha.
#[derive(Clone, Copy, Debug, PartialEq, Eq, Structural)]
pub struct Rgba {
    pub color: Rgb,
    pub a: u8,
}

/// Why an image gives no sheet.
#[derive(Clone, Copy, Debug, PartialEq, Eq, Structural)]
pub enum SheetFault {
    EmptyCell { w: u32, h: u32 },
    /// The file is no image that can be read.
    NotImage,
    Uneven { width: u32, height: u32, w: u32, h: u32 },
    TooManyColors(usize),
}

pub open spec fn sheet_fault_text(f: SheetFault, source: Seq<char>) -> Seq<char> {
    match f {
        SheetFault::EmptyCell { w, h } => "cell dimensions must be ≥ 1 (got "@ + text::dec(
            w as nat,
        ) + "×"@ + text::dec(h as nat) + ")"@,
        SheetFault::NotImage => "open sprite sheet "@ + source,
        SheetFault::Uneven { width, height, w, h } => "sheet "@ + text::dec(width as nat) + "×"@
            + text::dec(height as nat) + " not divisible by cell size "@ + text::dec(w as nat)
            + "×"@ + text::dec(h as nat),
        SheetFault::TooManyColors(n) => "sheet "@ + source + " has "@ + text::dec(n as nat)
            + " opaque colors (>3) — reduce palette or add 'quantize' flag to remap to top-3"@,
    }
}

impl SheetFault {
    pub fn message(&self, source: &str) -> (r: String)
        ensures
            r@ == sheet_fault_text(*self, source@),
    {
        let mut t: Vec<char> = Vec::new();
        match *self {
            SheetFault::EmptyCell { w, h } => {
                text::put_str(&mut t, "cell dimensions must be ≥ 1 (got ");
                text::put_dec(&mut t, w as u64);
                text::put_str(&mut t, "×");
                text::put_dec(&mut t, h as u64);
                text::put_str(&mut t, ")");
            },
            SheetFault::NotImage => {
                text::put_str(&mut t, "open sprite sheet ");
                text::put_str(&mut t, source);
            },
            SheetFault::Uneven { width, height, w, h } => {
                text::put_str(&mut t, "sheet ");
                text::put_dec(&mut t, width as u64);
                text::put_str(&mut t, "×");
                text::put_dec(&mut t, height as u64);
                text::put_str(&mut t, " not divisible by cell size ");
                text::put_dec(&mut t, w as u64);
                text::put_str(&mut t, "×");
                text::put_dec(&mut t, h as u64);
            },
            SheetFault::TooManyColors(n) => {
                text::put_str(&mut t, "sheet ");
                text::put_str(&mut t, source);
                text::put_str(&mut t, " has ");
                text::put_dec(&mut t, n as u64);
                text::put_str(
                    &mut t,
                    " opaque colors (>3) — reduce palette or add 'quantize' flag to remap to top-3",
                );
            },
        }
        assert(t@ =~= sheet_fault_text(*self, source@));
        text::string_of(t.as_slice())
    }
}

/// Whether a pixel is seen.
pub open spec fn opaque(p: Rgba) -> bool {
    p.a >= 8
}

/// Where a colour stands, from `i` on, or the length.
pub open spec fn color_index(v: Seq<(Rgb, usize)>, c: Rgb, i: nat) -> nat
    decreases v.len() - i,
{
    if i >= v.len() || v[i as int].0 == c {
        i
    } else {
        color_index(v, c, i + 1)
    }
}

/// The colours of the first `k` pixels in order of first use, with how often
/// each occurs.
pub open spec fn tallied(p: Seq<Rgba>, k: nat) -> Seq<(Rgb, usize)>
    decreases k,
{
    if k == 0 {
        Seq::empty()
    } else {
        let v = tallied(p, (k - 1) as nat);
        let x = p[k - 1];
        let i = color_index(v, x.color, 0) as int;
        if !opaque(x) {
            v
        } else if i < v.len() {
            v.update(i, (x.color, (v[i].1 + 1) as usize))
        } else {
            v.push((x.color, 1usize))
        }
    }
}

/// Where a colour goes among the first `k`: behind all that occur as often.
pub open spec fn common_place(v: Seq<(Rgb, usize)>, n: usize, k: nat) -> nat
    decreases k,
{
    if k == 0 || v[k - 1].1 >= n {
        k
    } else {
        common_place(v, n, (k - 1) as nat)
    }
}

/// The first `k` colours, the commonest first.
pub open spec fn by_use(v: Seq<(Rgb, usize)>, k: nat) -> Seq<(Rgb, usize)>
    decreases k,
{
    if k == 0 {
        Seq::empty()
    } else {
        let b = by_use(v, (k - 1) as nat);
        b.insert(common_place(b, v[k - 1].1, b.len()) as int, v[k - 1])
    }
}

/// The colours that are kept: all of three or fewer, or the three commonest
/// where colours may be merged.
pub open spec fn kept_colors(p: Seq<Rgba>, quantize: bool) -> Option<Seq<Rgb>> {
    let v = tallied(p, p.len());
    if v.len() < PALETTE_SIZE {
        Some(v.map_values(|e: (Rgb, usize)| e.0))
    } else if quantize {
        Some(by_use(v, v.len()).take(3).map_values(|e: (Rgb, usize)| e.0))
    } else {
        None
    }
}

pub open spec fn square(a: u8, b: u8) -> int {
    (a - b) * (a - b)
}

/// How far apart two colours are.
pub open spec fn color_distance(a: Rgb, b: Rgb) -> int {
    square(a.r, b.r) + square(a.g, b.g) + square(a.b, b.b)
}

/// The nearest of the first `k` colours, the first of equals.
pub open spec fn nearest_color(v: Seq<Rgb>, c: Rgb, k: nat) -> nat
    decreases k,
{
    if k <= 1 {
        0
    } else {
        let b = nearest_color(v, c, (k - 1) as nat);
        if color_distance(v[k - 1], c) < color_distance(v[b as int], c) {
            (k - 1) as nat
        } else {
            b
        }
    }
}

/// A pixel's slot: 0 where it is not seen, else that of the nearest colour,
/// which is its own where it is kept.
pub open spec fn slot_of(v: Seq<Rgb>, p: Rgba) -> u8 {
    if !opaque(p) {
        0
    } else {
        (nearest_color(v, p.color, v.len()) + 1) as u8
    }
}

/// A pixel whose colour is kept keeps its colour.
pub proof fn law_kept_colors_are_exact(v: Seq<Rgb>, i: int, p: Rgba)
    requires
        0 <= i < v.len() < PALETTE_SIZE,
        v[i] == p.color,
        opaque(p),
    ensures
        v[slot_of(v, p) - 1] == p.color,
{
    lemma_nearest(v, p.color, v.len(), i);
    let b = nearest_color(v, p.color, v.len()) as int;
    lemma_distance(v[b], p.color);
    lemma_distance(v[i], p.color);
}

proof fn lemma_square(a: u8, b: u8)
    ensures
        0 <= square(a, b) <= 65_025,
        square(a, b) == 0 <==> a == b,
{
    assert((a - b) * (a - b) >= 0 && (a - b) * (a - b) <= 65_025 && ((a - b) * (a - b) == 0
        <==> a == b)) by (nonlinear_arith)
        requires
            0 <= a <= 255,
            0 <= b <= 255,
    ;
}

proof fn lemma_distance(a: Rgb, b: Rgb)
    ensures
        0 <= color_distance(a, b) <= 195_075,
        color_distance(a, b) == 0 <==> a == b,
{
    lemma_square(a.r, b.r);
    lemma_square(a.g, b.g);
    lemma_square(a.b, b.b);
}

proof fn lemma_nearest(v: Seq<Rgb>, c: Rgb, k: nat, i: int)
    requires
        0 < k <= v.len(),
        0 <= i < k,
    ensures
        nearest_color(v, c, k) < k,
        color_distance(v[nearest_color(v, c, k) as int], c) <= color_distance(v[i], c),
    decreases k,
{
    if k > 1 {
        if i < k - 1 {
            lemma_nearest(v, c, (k - 1) as nat, i);
        } else {
            lemma_nearest(v, c, (k - 1) as nat, 0);
        }
    }
}

fn squared(a: u8, b: u8) -> (r: u32)
    ensures
        r == square(a, b),
        r <= 65_025,
{
    let d: u32 = if a > b {
        (a - b) as u32
    } else {
        (b - a) as u32
    };
    proof {
        lemma_square(a, b);
        assert(d * d == (a - b) * (a - b)) by (nonlinear_arith)
            requires
                d == a - b || d == b - a,
        ;
    }
    d * d
}

fn distance(a: Rgb, b: Rgb) -> (r: u32)
    ensures
        r == color_distance(a, b),
{
    squared(a.r, b.r) + squared(a.g, b.g) + squared(a.b, b.b)
}

fn find_slot(v: &Vec<Rgb>, p: Rgba) -> (r: u8)
    requires
        v@.len() < PALETTE_SIZE,
    ensures
        r == slot_of(v@, p),
        r < PALETTE_SIZE || v@.len() == 0,
        v@.len() == 0 ==> r <= 1,
{
    if p.a < 8 {
        return 0;
    }
    let mut b: usize = 0;
    let mut k: usize = 1;
    while k < v.len()
        invariant
            v@.len() < PALETTE_SIZE,
            k <= v@.len() || k == 1,
            b == nearest_color(v@, p.color, k as nat),
            b < k,
        decreases v@.len() - k,
    {
        if distance(v[k], p.color) < distance(v[b], p.color) {
            b = k;
        }
        k += 1;
    }
    (b + 1) as u8
}

fn find_color(v: &Vec<(Rgb, usize)>, c: Rgb) -> (r: usize)
    ensures
        r == color_index(v@, c, 0),
        r <= v@.len(),
        r < v@.len() ==> v@[r as int].0 == c,
{
    let mut i: usize = 0;
    while i < v.len() && v[i].0 != c
        invariant
            i <= v@.len(),
            color_index(v@, c, 0) == color_index(v@, c, i as nat),
        decreases v@.len() - i,
    {
        i += 1;
    }
    i
}

fn tally(p: &[Rgba]) -> (r: Vec<(Rgb, usize)>)
    ensures
        r@ == tallied(p@, p@.len()),
        (exists|j: int| 0 <= j < p@.len() && opaque(#[trigger] p@[j])) ==> r@.len() > 0,
{
    let mut v: Vec<(Rgb, usize)> = Vec::new();
    for k in 0..p.len()
        invariant
            v@ == tallied(p@, k as nat),
            forall|i: int| 0 <= i < v@.len() ==> (#[trigger] v@[i]).1 <= k,
            (exists|j: int| 0 <= j < k && opaque(#[trigger] p@[j])) ==> v@.len() > 0,
    {
        let x: Rgba = p[k];
        if x.a >= 8 {
            let i: usize = find_color(&v, x.color);
            if i < v.len() {
                let n: usize = v[i].1;
                v.set(i, (x.color, n + 1));
            } else {
                v.push((x.color, 1));
            }
        }
    }
    v
}

fn sort_by_use(v: &Vec<(Rgb, usize)>) -> (r: Vec<(Rgb, usize)>)
    ensures
        r@ == by_use(v@, v@.len()),
        r@.len() == v@.len(),
{
    let mut out: Vec<(Rgb, usize)> = Vec::new();
    for k in 0..v.len()
        invariant
            out@ == by_use(v@, k as nat),
            out@.len() == k,
    {
        let x: (Rgb, usize) = v[k];
        let mut at: usize = out.len();
        while at > 0 && out[at - 1].1 < x.1
            invariant
                at <= out@.len(),
                common_place(out@, x.1, out@.len()) == common_place(out@, x.1, at as nat),
            decreases at,
        {
            at -= 1;
        }
        out.insert(at, x);
    }
    out
}

fn first_colors(v: &Vec<(Rgb, usize)>, n: usize) -> (r: Vec<Rgb>)
    requires
        n <= v@.len(),
    ensures
        r@ == v@.take(n as int).map_values(|e: (Rgb, usize)| e.0),
{
    let mut out: Vec<Rgb> = Vec::new();
    for i in 0..n
        invariant
            n <= v@.len(),
            out@.len() == i,
            forall|j: int| 0 <= j < i ==> #[trigger] out@[j] == v@[j].0,
    {
        out.push(v[i].0);
    }
    assert(out@ =~= v@.take(n as int).map_values(|e: (Rgb, usize)| e.0));
    out
}

/// A palette of the kept colours behind the transparent slot.
pub open spec fn palette_of(v: Seq<Rgb>) -> Seq<Rgb> {
    Seq::new(
        PALETTE_SIZE as nat,
        |i: int|
            if 1 <= i && i - 1 < v.len() {
                v[i - 1]
            } else {
                Rgb { r: 0, g: 0, b: 0 }
            },
    )
}

fn make_palette(v: &Vec<Rgb>) -> (r: [Rgb; PALETTE_SIZE])
    requires
        v@.len() < PALETTE_SIZE,
    ensures
        r@ == palette_of(v@),
{
    let none: Rgb = Rgb { r: 0, g: 0, b: 0 };
    let a: Rgb = if v.len() > 0 {
        v[0]
    } else {
        none
    };
    let b: Rgb = if v.len() > 1 {
        v[1]
    } else {
        none
    };
    let c: Rgb = if v.len() > 2 {
        v[2]
    } else {
        none
    };
    let r: [Rgb; PALETTE_SIZE] = [none, a, b, c];
    assert(r@ =~= palette_of(v@));
    r
}

/// What is wrong with an image's dimensions.
pub open spec fn size_fault(width: u32, height: u32, w: u32, h: u32) -> Option<SheetFault> {
    if w == 0 || h == 0 {
        Some(SheetFault::EmptyCell { w, h })
    } else if width % w != 0 || height % h != 0 {
        Some(SheetFault::Uneven { width, height, w, h })
    } else {
        None
    }
}

/// Whether a sheet is what an image gives.
pub open spec fn is_sheet_of(
    s: SpriteSheet,
    name: Seq<char>,
    source: Seq<char>,
    p: Seq<Rgba>,
    quantize: bool,
) -> bool {
    let v = kept_colors(p, quantize)->0;
    &&& s.name@ == name
    &&& s.source@ == source
    &&& s.indices@ == p.map_values(|x: Rgba| slot_of(v, x))
    &&& s.palette@ == palette_of(v)
    &&& s.quantize == quantize
    &&& s.palette_name is None
    &&& s.chr_bank is None
}

/// Makes a sheet of an image's pixels. An image of more than three colours
/// is refused unless they may be merged.
pub fn load_sheet(
    name: &str,
    source: &str,
    width: u32,
    height: u32,
    pixels: &[Rgba],
    cell_w: u32,
    cell_h: u32,
    quantize: bool,
) -> (r: Result<SpriteSheet, SheetFault>)
    requires
        pixels@.len() == width * height,
    ensures
        match r {
            Ok(s) => {
                &&& size_fault(width, height, cell_w, cell_h) is None
                &&& kept_colors(pixels@, quantize) is Some
                &&& is_sheet_of(s, name@, source@, pixels@, quantize)
                &&& s.width == width && s.height == height && s.cell_w == cell_w && s.cell_h
                    == cell_h
                &&& is_sheet(s)
            },
            Err(f) => match size_fault(width, height, cell_w, cell_h) {
                Some(e) => f == e,
                None => kept_colors(pixels@, quantize) is None && f == SheetFault::TooManyColors(
                    tallied(pixels@, pixels@.len()).len() as usize,
                ),
            },
        },
{
    if cell_w == 0 || cell_h == 0 {
        return Err(SheetFault::EmptyCell { w: cell_w, h: cell_h });
    }
    if width % cell_w != 0 || height % cell_h != 0 {
        return Err(SheetFault::Uneven { width, height, w: cell_w, h: cell_h });
    }
    let counts: Vec<(Rgb, usize)> = tally(pixels);
    let kept: Vec<Rgb> = if counts.len() < PALETTE_SIZE {
        assert(counts@.take(counts@.len() as int) =~= counts@);
        first_colors(&counts, counts.len())
    } else if quantize {
        let sorted: Vec<(Rgb, usize)> = sort_by_use(&counts);
        first_colors(&sorted, 3)
    } else {
        return Err(SheetFault::TooManyColors(counts.len()));
    };
    let ghost v = kept_colors(pixels@, quantize)->0;
    assert(kept@ == v);
    let mut indices: Vec<u8> = Vec::new();
    for i in 0..pixels.len()
        invariant
            kept@ == v,
            kept@.len() < PALETTE_SIZE,
            (exists|j: int| 0 <= j < pixels@.len() && opaque(#[trigger] pixels@[j]))
                ==> kept@.len() > 0,
            indices@.len() == i,
            forall|j: int|
                0 <= j < i ==> (#[trigger] indices@[j]) == slot_of(v, pixels@[j]) && indices@[j]
                    < PALETTE_SIZE,
    {
        indices.push(find_slot(&kept, pixels[i]));
    }
    let s: SpriteSheet = SpriteSheet {
        name: text::string_of(text::chars_of(name).as_slice()),
        source: text::string_of(text::chars_of(source).as_slice()),
        width,
        height,
        cell_w,
        cell_h,
        indices,
        palette: make_palette(&kept),
        quantize,
        palette_name: None,
        chr_bank: None,
    };
    assert(s.indices@ =~= pixels@.map_values(|x: Rgba| slot_of(v, x)));
    Ok(s)
}

// ---------------------------------------------------------------- image files

/// What the decoder makes of a file, given its name and its bytes: width,
/// height, and red, green, blue and alpha of each pixel, row by row; nothing
/// where it cannot read the file.
pub uninterp spec fn decoded_image(source: Seq<char>, bytes: Seq<u8>) -> Option<
    (u32, u32, Seq<u8>),
>;

/// `image::load_from_memory_with_format`, in the format that
/// `ImageFormat::from_path` finds by the name's extension, with the pixels
/// taken by `to_rgba8`: a function of the name and the bytes alone, which
/// fails where the extension is no format's or the bytes are no image of that
/// format. Which pixels a file holds is not stated here, nor how many.
#[verifier::external_body]
fn decode_image(source: &str, bytes: &[u8]) -> (r: Option<(u32, u32, Vec<u8>)>)
    ensures
        match r {
            Some((w, h, raw)) => decoded_image(source@, bytes@) == Some((w, h, raw@)),
            None => decoded_image(source@, bytes@) is None,
        },
{
    let format = image::ImageFormat::from_path(source).ok()?;
    let decoded = image::load_from_memory_with_format(bytes, format).ok()?.to_rgba8();
    Some((decoded.width(), decoded.height(), decoded.into_raw()))
}

/// Pixels of four bytes each.
pub open spec fn raw_pixels(raw: Seq<u8>) -> Seq<Rgba> {
    Seq::new(
        raw.len() / 4,
        |i: int|
            Rgba {
                color: Rgb { r: raw[4 * i], g: raw[4 * i + 1], b: raw[4 * i + 2] },
                a: raw[4 * i + 3],
            },
    )
}

fn read_pixels(raw: &[u8]) -> (r: Vec<Rgba>)
    ensures
        r@ == raw_pixels(raw@),
{
    let mut out: Vec<Rgba> = Vec::new();
    for i in 0..raw.len() / 4
        invariant
            out@.len() == i,
            forall|j: int| 0 <= j < i ==> #[trigger] out@[j] == raw_pixels(raw@)[j],
    {
        let color: Rgb = Rgb { r: raw[4 * i], g: raw[4 * i + 1], b: raw[4 * i + 2] };
        out.push(Rgba { color, a: raw[4 * i + 3] });
    }
    assert(out@ =~= raw_pixels(raw@));
    out
}

/// What is wrong with a decoded image, for cells of a size.
pub open spec fn raw_fault(
    width: u32,
    height: u32,
    raw: Seq<u8>,
    w: u32,
    h: u32,
    quantize: bool,
) -> Option<SheetFault> {
    if w == 0 || h == 0 {
        Some(SheetFault::EmptyCell { w, h })
    } else if raw.len() != 4 * (width * height) {
        Some(SheetFault::NotImage)
    } else if size_fault(width, height, w, h) is Some {
        size_fault(width, height, w, h)
    } else if kept_colors(raw_pixels(raw), quantize) is None {
        let p = raw_pixels(raw);
        Some(SheetFault::TooManyColors(tallied(p, p.len()).len() as usize))
    } else {
        None
    }
}

/// Makes a sheet of a decoded image.
pub fn sheet_of_raw(
    name: &str,
    source: &str,
    width: u32,
    height: u32,
    raw: &[u8],
    cell_w: u32,
    cell_h: u32,
    quantize: bool,
) -> (r: Result<SpriteSheet, SheetFault>)
    ensures
        match r {
            Ok(s) => {
                &&& raw_fault(width, height, raw@, cell_w, cell_h, quantize) is None
                &&& is_sheet_of(s, name@, source@, raw_pixels(raw@), quantize)
                &&& s.width == width && s.height == height && s.cell_w == cell_w && s.cell_h
                    == cell_h
                &&& is_sheet(s)
            },
            Err(f) => raw_fault(width, height, raw@, cell_w, cell_h, quantize) == Some(f),
        },
{
    if cell_w == 0 || cell_h == 0 {
        return Err(SheetFault::EmptyCell { w: cell_w, h: cell_h });
    }
    assert(width * height <= 0xffff_ffff * 0xffff_ffff) by (nonlinear_arith)
        requires
            width <= 0xffff_ffff,
            height <= 0xffff_ffff,
    ;
    let size: u128 = width as u128 * height as u128;
    if raw.len() as u128 != 4 * size {
        return Err(SheetFault::NotImage);
    }
    let pixels: Vec<Rgba> = read_pixels(raw);
    load_sheet(name, source, width, height, pixels.as_slice(), cell_w, cell_h, quantize)
}

/// Makes a sheet of an image file. Its format goes by the extension of its
/// name.
pub fn load_image(
    name: &str,
    source: &str,
    bytes: &[u8],
    cell_w: u32,
    cell_h: u32,
    quantize: bool,
) -> (r: Result<SpriteSheet, SheetFault>)
    ensures
        match decoded_image(source@, bytes@) {
            None => r matches Err(f) && f == (if cell_w == 0 || cell_h == 0 {
                SheetFault::EmptyCell { w: cell_w, h: cell_h }
            } else {
                SheetFault::NotImage
            }),
            Some((width, height, raw)) => match r {
                Ok(s) => {
                    &&& raw_fault(width, height, raw, cell_w, cell_h, quantize) is None
                    &&& is_sheet_of(s, name@, source@, raw_pixels(raw), quantize)
                    &&& s.width == width && s.height == height && s.cell_w == cell_w
                        && s.cell_h == cell_h
                    &&& is_sheet(s)
                },
                Err(f) => raw_fault(width, height, raw, cell_w, cell_h, quantize) == Some(f),
            },
        },
{
    if cell_w == 0 || cell_h == 0 {
        return Err(SheetFault::EmptyCell { w: cell_w, h: cell_h });
    }
    match decode_image(source, bytes) {
        None => Err(SheetFault::NotImage),
        Some((width, height, raw)) => sheet_of_raw(
            name,
            source,
            width,
            height,
            raw.as_slice(),
            cell_w,
            cell_h,
            quantize,
        ),
    }
}

// ---------------------------------------------------------------- ROMs

/// Why a ROM gives no sheet.
#[derive(Clone, Copy, Debug, PartialEq, Eq, Structural)]
pub enum ChrFault {
    /// Cells that are not made of whole tiles.
    PartTiles { w: u32, h: u32 },
    NotRom,
    /// The cartridge has no tiles of its own; it makes them when it runs.
    InRam,
    /// The file ends before its tiles do.
    TooShort { chr_bytes: usize },
    PastTheEnd { bank: u32, banks: u64 },
    Uneven { tiles: u64, width: u64, height: u64, w: u32, h: u32 },
}

pub open spec fn chr_fault_text(f: ChrFault, source: Seq<char>) -> Seq<char> {
    match f {
        ChrFault::PartTiles { w, h } => "CHR cells are whole 8x8 tiles, so "@ + text::dec(w as nat)
            + "x"@ + text::dec(h as nat) + " will not do"@,
        ChrFault::NotRom => source + " is not an iNES ROM (no NES\\x1A magic)"@,
        ChrFault::InRam => source + " keeps its tiles in RAM"@,
        ChrFault::TooShort { chr_bytes } => source + " claims "@ + text::dec(chr_bytes as nat)
            + " bytes of CHR but is too short"@,
        ChrFault::PastTheEnd { bank, banks } => "bank "@ + text::dec(bank as nat)
            + " is past the end: this ROM has "@ + text::dec(banks as nat)
            + " banks of 256 tiles"@,
        ChrFault::Uneven { tiles, width, height, w, h } => text::dec(tiles as nat)
            + " tiles lay out "@ + text::dec(width as nat) + "x"@ + text::dec(height as nat)
            + ", which "@ + text::dec(w as nat) + "x"@ + text::dec(h as nat)
            + " cells do not divide"@,
    }
}

impl ChrFault {
    pub fn message(&self, source: &str) -> (r: String)
        ensures
            r@ == chr_fault_text(*self, source@),
    {
        let mut t: Vec<char> = Vec::new();
        match *self {
            ChrFault::PartTiles { w, h } => {
                text::put_str(&mut t, "CHR cells are whole 8x8 tiles, so ");
                text::put_dec(&mut t, w as u64);
                text::put_str(&mut t, "x");
                text::put_dec(&mut t, h as u64);
                text::put_str(&mut t, " will not do");
            },
            ChrFault::NotRom => {
                text::put_str(&mut t, source);
                text::put_str(&mut t, " is not an iNES ROM (no NES\\x1A magic)");
            },
            ChrFault::InRam => {
                text::put_str(&mut t, source);
                text::put_str(&mut t, " keeps its tiles in RAM");
            },
            ChrFault::TooShort { chr_bytes } => {
                text::put_str(&mut t, source);
                text::put_str(&mut t, " claims ");
                text::put_dec(&mut t, chr_bytes as u64);
                text::put_str(&mut t, " bytes of CHR but is too short");
            },
            ChrFault::PastTheEnd { bank, banks } => {
                text::put_str(&mut t, "bank ");
                text::put_dec(&mut t, bank as u64);
                text::put_str(&mut t, " is past the end: this ROM has ");
                text::put_dec(&mut t, banks);
                text::put_str(&mut t, " banks of 256 tiles");
            },
            ChrFault::Uneven { tiles, width, height, w, h } => {
                text::put_dec(&mut t, tiles);
                text::put_str(&mut t, " tiles lay out ");
                text::put_dec(&mut t, width);
                text::put_str(&mut t, "x");
                text::put_dec(&mut t, height);
                text::put_str(&mut t, ", which ");
                text::put_dec(&mut t, w as u64);
                text::put_str(&mut t, "x");
                text::put_dec(&mut t, h as u64);
                text::put_str(&mut t, " cells do not divide");
            },
        }
        assert(t@ =~= chr_fault_text(*self, source@));
        text::string_of(t.as_slice())
    }
}

/// Whether a file begins as a ROM does.
pub open spec fn rom_magic(b: Seq<u8>) -> bool {
    b.len() >= 4 && b[0] == 0x4E && b[1] == 0x45 && b[2] == 0x53 && b[3] == 0x1A
}

pub fn is_nes_rom(b: &[u8]) -> (r: bool)
    ensures
        r == rom_magic(b@),
{
    b.len() >= 4 && b[0] == 0x4E && b[1] == 0x45 && b[2] == 0x53 && b[3] == 0x1A
}

/// Where the tiles of a ROM are: behind the header, a trainer of 512 bytes
/// where there is one, and the program.
pub open spec fn chr_offset(b: Seq<u8>) -> int {
    16 + (if b[6] as int / 4 % 2 == 1 {
        512int
    } else {
        0
    }) + b[4] * 16_384
}

/// The tiles of a ROM.
pub open spec fn rom_tiles(b: Seq<u8>) -> Result<Seq<u8>, ChrFault> {
    if b.len() < 16 || !rom_magic(b) {
        Err(ChrFault::NotRom)
    } else if b[5] == 0 {
        Err(ChrFault::InRam)
    } else if b.len() < chr_offset(b) + b[5] * 8_192 {
        Err(ChrFault::TooShort { chr_bytes: (b[5] * 8_192) as usize })
    } else {
        Ok(b.subrange(chr_offset(b), chr_offset(b) + b[5] * 8_192))
    }
}

/// Finds the tiles of a ROM.
pub fn ines_tiles<'a>(b: &'a [u8]) -> (r: Result<&'a [u8], ChrFault>)
    ensures
        match r {
            Ok(c) => rom_tiles(b@) == Ok::<Seq<u8>, ChrFault>(c@) && c@.len() <= 0x20_0000,
            Err(f) => rom_tiles(b@) == Err::<Seq<u8>, ChrFault>(f),
        },
{
    if b.len() < 16 || !is_nes_rom(b) {
        return Err(ChrFault::NotRom);
    }
    if b[5] == 0 {
        return Err(ChrFault::InRam);
    }
    let trainer: usize = if b[6] / 4 % 2 == 1 {
        512
    } else {
        0
    };
    let from: usize = 16 + trainer + b[4] as usize * 16_384;
    let size: usize = b[5] as usize * 8_192;
    if b.len() < from + size {
        return Err(ChrFault::TooShort { chr_bytes: size });
    }
    Ok(vstd::slice::slice_subrange(b, from, from + size))
}

/// The weight of the pixel at `x` of a byte, the leftmost heaviest.
pub open spec fn pixel_weight(x: int) -> int {
    if x == 0 {
        128
    } else if x == 1 {
        64
    } else if x == 2 {
        32
    } else if x == 3 {
        16
    } else if x == 4 {
        8
    } else if x == 5 {
        4
    } else if x == 6 {
        2
    } else {
        1
    }
}

/// The slot at a pixel of a tile: a low bit from the tile's first eight
/// bytes and a high one from its second eight.
pub open spec fn tile_slot(chr: Seq<u8>, tile: int, x: int, y: int) -> int {
    chr[tile * 16 + y] as int / pixel_weight(x) % 2 + 2 * (chr[tile * 16 + 8 + y] as int
        / pixel_weight(x) % 2)
}

/// The slot at a pixel of a sheet of `count` tiles from `first` on, sixteen
/// in a row.
pub open spec fn laid_out(chr: Seq<u8>, first: int, count: int, i: int) -> u8 {
    let x = i % 128;
    let y = i / 128;
    let t = y / 8 * 16 + x / 8;
    if t < count {
        tile_slot(chr, first + t, x % 8, y % 8) as u8
    } else {
        0
    }
}

/// The first tile of a bank and how many tiles it has.
pub open spec fn bank_tiles(total: int, bank: Option<u32>) -> Option<(int, int)> {
    match bank {
        None => Some((0, total)),
        Some(b) => if b * 256 >= total {
            None
        } else {
            Some(
                (
                    b * 256,
                    if total - b * 256 < 256 {
                        total - b * 256
                    } else {
                        256
                    },
                ),
            )
        },
    }
}

/// How high a sheet of a number of tiles is.
pub open spec fn sheet_height(count: int) -> int {
    (count + 15) / 16 * 8
}

/// What is wrong with making a sheet of tiles.
pub open spec fn tiles_fault(chr: nat, w: u32, h: u32, bank: Option<u32>) -> Option<ChrFault> {
    let total = chr as int / 16;
    if w == 0 || h == 0 || w % 8 != 0 || h % 8 != 0 {
        Some(ChrFault::PartTiles { w, h })
    } else {
        match bank_tiles(total, bank) {
            None => Some(
                ChrFault::PastTheEnd { bank: bank->0, banks: ((total + 255) / 256) as u64 },
            ),
            Some((first, count)) => if 128int % w as int != 0 || sheet_height(count) % h as int != 0 {
                Some(
                    ChrFault::Uneven {
                        tiles: count as u64,
                        width: 128,
                        height: sheet_height(count) as u64,
                        w,
                        h,
                    },
                )
            } else {
                None
            },
        }
    }
}

/// The palette for tiles, which have no colours of their own.
pub open spec fn tile_palette() -> Seq<Rgb> {
    seq![
        Rgb { r: 0, g: 0, b: 0 },
        Rgb { r: 0x3C, g: 0x3C, b: 0x6C },
        Rgb { r: 0x88, g: 0x88, b: 0xB8 },
        Rgb { r: 0xFC, g: 0xFC, b: 0xFC },
    ]
}

/// Whether a sheet is what tiles give.
pub open spec fn is_tile_sheet(
    s: SpriteSheet,
    name: Seq<char>,
    source: Seq<char>,
    chr: Seq<u8>,
    bank: Option<u32>,
) -> bool {
    let (first, count) = bank_tiles(chr.len() as int / 16, bank)->0;
    &&& s.name@ == name
    &&& s.source@ == source
    &&& s.width == 128
    &&& s.height == sheet_height(count)
    &&& s.indices@ == Seq::new(
        (128 * sheet_height(count)) as nat,
        |i: int| laid_out(chr, first, count, i),
    )
    &&& s.palette@ == tile_palette()
    &&& !s.quantize
    &&& s.palette_name is None
    &&& s.chr_bank == bank
}

fn weight(x: usize) -> (r: u8)
    ensures
        r == pixel_weight(x as int),
        r > 0,
{
    if x == 0 {
        128
    } else if x == 1 {
        64
    } else if x == 2 {
        32
    } else if x == 3 {
        16
    } else if x == 4 {
        8
    } else if x == 5 {
        4
    } else if x == 6 {
        2
    } else {
        1
    }
}

fn find_tile_slot(chr: &[u8], tile: usize, x: usize, y: usize) -> (r: u8)
    requires
        tile * 16 + 16 <= chr@.len(),
        x < 8,
        y < 8,
    ensures
        r == tile_slot(chr@, tile as int, x as int, y as int),
        r < PALETTE_SIZE,
{
    let n: usize = chr.len();
    let w: u8 = weight(x);
    let lo: u8 = chr[tile * 16 + y] / w % 2;
    let hi: u8 = chr[tile * 16 + 8 + y] / w % 2;
    lo + 2 * hi
}

fn lay_out(chr: &[u8], first: usize, count: usize) -> (r: Vec<u8>)
    requires
        (first + count) * 16 <= chr@.len(),
        128 * sheet_height(count as int) <= u32::MAX,
        count < 0x1000_0000,
    ensures
        r@ == Seq::new(
            (128 * sheet_height(count as int)) as nat,
            |i: int| laid_out(chr@, first as int, count as int, i),
        ),
        forall|i: int| 0 <= i < r@.len() ==> (#[trigger] r@[i]) < PALETTE_SIZE,
{
    let n: usize = 128 * ((count + 15) / 16 * 8);
    let len: usize = chr.len();
    let mut out: Vec<u8> = Vec::new();
    for i in 0..n
        invariant
            (first + count) * 16 <= chr@.len(),
            len == chr@.len(),
            n <= u32::MAX,
            n == 128 * sheet_height(count as int),
            out@.len() == i,
            forall|j: int|
                0 <= j < i ==> (#[trigger] out@[j]) == laid_out(
                    chr@,
                    first as int,
                    count as int,
                    j,
                ) && out@[j] < PALETTE_SIZE,
    {
        let x: usize = i % 128;
        let y: usize = i / 128;
        let t: usize = y / 8 * 16 + x / 8;
        let v: u8 = if t < count {
            find_tile_slot(chr, first + t, x % 8, y % 8)
        } else {
            0
        };
        out.push(v);
    }
    assert(out@ =~= Seq::new(
        (128 * sheet_height(count as int)) as nat,
        |i: int| laid_out(chr@, first as int, count as int, i),
    ));
    out
}

/// Whether tiles can be addressed, and their pixels counted, in 32 bits. One
/// pattern table always can.
pub open spec fn has_room(len: nat, bank: Option<u32>) -> bool {
    &&& len <= u32::MAX
    &&& bank is None ==> 128 * sheet_height(len as int / 16) <= u32::MAX
}

/// Makes a sheet of tiles: all of them, or one pattern table.
pub fn tile_sheet(
    name: &str,
    source: &str,
    chr: &[u8],
    cell_w: u32,
    cell_h: u32,
    bank: Option<u32>,
) -> (r: Result<SpriteSheet, ChrFault>)
    requires
        has_room(chr@.len(), bank),
    ensures
        match r {
            Ok(s) => {
                &&& tiles_fault(chr@.len(), cell_w, cell_h, bank) is None
                &&& is_tile_sheet(s, name@, source@, chr@, bank)
                &&& s.cell_w == cell_w && s.cell_h == cell_h
                &&& is_sheet(s)
            },
            Err(f) => tiles_fault(chr@.len(), cell_w, cell_h, bank) == Some(f),
        },
{
    if cell_w == 0 || cell_h == 0 || cell_w % 8 != 0 || cell_h % 8 != 0 {
        return Err(ChrFault::PartTiles { w: cell_w, h: cell_h });
    }
    let total: usize = chr.len() / 16;
    let (first, count): (usize, usize) = match bank {
        None => (0, total),
        Some(b) => {
            let start: u64 = b as u64 * 256;
            if start >= total as u64 {
                return Err(
                    ChrFault::PastTheEnd { bank: b, banks: ((total + 255) / 256) as u64 },
                );
            }
            let left: usize = total - start as usize;
            (
                start as usize,
                if left < 256 {
                    left
                } else {
                    256
                },
            )
        },
    };
    let height: usize = (count + 15) / 16 * 8;
    if 128 % cell_w != 0 || height as u32 % cell_h != 0 {
        return Err(
            ChrFault::Uneven {
                tiles: count as u64,
                width: 128,
                height: height as u64,
                w: cell_w,
                h: cell_h,
            },
        );
    }
    let palette: [Rgb; PALETTE_SIZE] = [
        Rgb { r: 0, g: 0, b: 0 },
        Rgb { r: 0x3C, g: 0x3C, b: 0x6C },
        Rgb { r: 0x88, g: 0x88, b: 0xB8 },
        Rgb { r: 0xFC, g: 0xFC, b: 0xFC },
    ];
    assert(palette@ =~= tile_palette());
    Ok(
        SpriteSheet {
            name: text::string_of(text::chars_of(name).as_slice()),
            source: text::string_of(text::chars_of(source).as_slice()),
            width: 128,
            height: height as u32,
            cell_w,
            cell_h,
            indices: lay_out(chr, first, count),
            palette,
            quantize: false,
            palette_name: None,
            chr_bank: bank,
        },
    )
}

/// Reads a sheet out of a ROM.
pub fn load_chr(
    name: &str,
    source: &str,
    rom: &[u8],
    cell_w: u32,
    cell_h: u32,
    bank: Option<u32>,
) -> (r: Result<SpriteSheet, ChrFault>)
    ensures
        ({
            let part = cell_w == 0 || cell_h == 0 || cell_w % 8 != 0 || cell_h % 8 != 0;
            match r {
                Ok(s) => {
                    &&& !part
                    &&& rom_tiles(rom@) is Ok
                    &&& tiles_fault(rom_tiles(rom@)->Ok_0.len(), cell_w, cell_h, bank) is None
                    &&& is_tile_sheet(s, name@, source@, rom_tiles(rom@)->Ok_0, bank)
                    &&& s.cell_w == cell_w && s.cell_h == cell_h
                    &&& is_sheet(s)
                },
                Err(f) => if part {
                    f == (ChrFault::PartTiles { w: cell_w, h: cell_h })
                } else {
                    match rom_tiles(rom@) {
                        Err(e) => f == e,
                        Ok(c) => tiles_fault(c.len(), cell_w, cell_h, bank) == Some(f),
                    }
                },
            }
        }),
{
    if cell_w == 0 || cell_h == 0 || cell_w % 8 != 0 || cell_h % 8 != 0 {
        return Err(ChrFault::PartTiles { w: cell_w, h: cell_h });
    }
    match ines_tiles(rom) {
        Err(f) => Err(f),
        Ok(chr) => tile_sheet(name, source, chr, cell_w, cell_h, bank),
    }
}

// ---------------------------------------------------------------- colours

/// Text without the `#` characters that begin it.
pub open spec fn after_hashes(s: Seq<char>) -> Seq<char>
    decreases s.len(),
{
    if s.len() > 0 && s[0] == '#' {
        after_hashes(s.skip(1))
    } else {
        s
    }
}

/// A palette entry: `#rrggbb`, `rrggbb`, or a word for transparent, which
/// stands as black.
pub open spec fn hex_color(tok: Seq<char>) -> Option<Rgb> {
    let s = text::lower(after_hashes(text::trim(tok)));
    if s == "transparent"@ || s == "none"@ || s == "-"@ {
        Some(Rgb { r: 0, g: 0, b: 0 })
    } else if s.len() != 6 {
        None
    } else {
        match (
            text::parse_uint(s.subrange(0, 2), 16, 255),
            text::parse_uint(s.subrange(2, 4), 16, 255),
            text::parse_uint(s.subrange(4, 6), 16, 255),
        ) {
            (Some(r), Some(g), Some(b)) => Some(Rgb { r: r as u8, g: g as u8, b: b as u8 }),
            _ => None,
        }
    }
}

pub fn parse_hex(tok: &str) -> (r: Option<Rgb>)
    ensures
        r == hex_color(tok@),
{
    let all: Vec<char> = text::chars_of(tok);
    let mut s: &[char] = text::trimmed(all.as_slice());
    while s.len() > 0 && s[0] == '#'
        invariant
            after_hashes(text::trim(tok@)) == after_hashes(s@),
        decreases s@.len(),
    {
        s = text::tail(s, 1);
    }
    let low: Vec<char> = text::lower_of(s);
    let w: &[char] = low.as_slice();
    if text::is_lit(w, "transparent") || text::is_lit(w, "none") || text::is_lit(w, "-") {
        return Some(Rgb { r: 0, g: 0, b: 0 });
    }
    if w.len() != 6 {
        return None;
    }
    let r: Option<u64> = text::read_uint(vstd::slice::slice_subrange(w, 0, 2), 16, 255);
    let g: Option<u64> = text::read_uint(vstd::slice::slice_subrange(w, 2, 4), 16, 255);
    let b: Option<u64> = text::read_uint(vstd::slice::slice_subrange(w, 4, 6), 16, 255);
    match (r, g, b) {
        (Some(r), Some(g), Some(b)) => Some(Rgb { r: r as u8, g: g as u8, b: b as u8 }),
        _ => None,
    }
}

/// A sprite shown in the picture, at a pixel.
#[derive(Clone, Debug)]
pub struct Placement {
    pub sheet: String,
    pub idx: u32,
    pub x: i32,
    pub y: i32,
    /// A palette in place of the sheet's own.
    pub palette: Option<String>,
}

// ---------------------------------------------------------------- what is seen

/// How many of the first `k` pixels are seen in a colour.
pub open spec fn uses(p: Seq<Rgba>, c: Rgb, k: nat) -> nat
    decreases k,
{
    if k == 0 {
        0
    } else {
        uses(p, c, (k - 1) as nat) + (if p[k - 1].a >= 8 && p[k - 1].color == c {
            1nat
        } else {
            0nat
        })
    }
}

proof fn lemma_color_index(v: Seq<(Rgb, usize)>, c: Rgb, i: nat)
    requires
        i <= v.len(),
    ensures
        i <= color_index(v, c, i) <= v.len(),
        color_index(v, c, i) < v.len() ==> v[color_index(v, c, i) as int].0 == c,
        forall|j: int| i <= j < color_index(v, c, i) ==> (#[trigger] v[j]).0 != c,
    decreases v.len() - i,
{
    if i < v.len() && v[i as int].0 != c {
        lemma_color_index(v, c, i + 1);
    }
}

proof fn lemma_uses(p: Seq<Rgba>, c: Rgb, k: nat)
    ensures
        uses(p, c, k) <= k,
    decreases k,
{
    if k > 0 {
        lemma_uses(p, c, (k - 1) as nat);
    }
}

proof fn lemma_tallied(p: Seq<Rgba>, k: nat, c: Rgb)
    requires
        k <= p.len() <= usize::MAX,
    ensures
        ({
            let v = tallied(p, k);
            &&& forall|i: int|
                0 <= i < v.len() ==> (#[trigger] v[i]).1 == uses(p, v[i].0, k) && v[i].1 > 0
            &&& forall|i: int, j: int| 0 <= i < j < v.len() ==> (#[trigger] v[i]).0 != (
            #[trigger] v[j]).0
            &&& uses(p, c, k) > 0 ==> exists|i: int| 0 <= i < v.len() && (#[trigger] v[i]).0 == c
        }),
    decreases k,
{
    if k > 0 {
        lemma_tallied(p, (k - 1) as nat, c);
        lemma_tallied(p, (k - 1) as nat, p[k - 1].color);
        let b = tallied(p, (k - 1) as nat);
        let v = tallied(p, k);
        let x = p[k - 1];
        lemma_color_index(b, x.color, 0);
        lemma_uses(p, x.color, k);
        let at = color_index(b, x.color, 0) as int;
        assert forall|i: int| 0 <= i < v.len() implies (#[trigger] v[i]).1 == uses(p, v[i].0, k)
            && v[i].1 > 0 by {
            if i < b.len() {
                assert(b[i].1 == uses(p, b[i].0, (k - 1) as nat));
                if opaque(x) && i != at && at < b.len() {
                    assert(b[i].0 != b[at].0);
                }
            } else {
                assert(uses(p, x.color, (k - 1) as nat) == 0);
            }
        }
        if uses(p, c, k) > 0 {
            if uses(p, c, (k - 1) as nat) > 0 {
                let i = choose|i: int| 0 <= i < b.len() && (#[trigger] b[i]).0 == c;
                assert(v[i].0 == c);
            } else if at < b.len() {
                assert(v[at].0 == c);
            } else {
                assert(v[b.len() as int].0 == c);
            }
        }
    }
}

proof fn lemma_common_place(v: Seq<(Rgb, usize)>, n: usize, k: nat)
    requires
        k <= v.len(),
        forall|i: int, j: int| 0 <= i < j < v.len() ==> (#[trigger] v[i]).1 >= (#[trigger] v[j]).1,
    ensures
        common_place(v, n, k) <= k,
        forall|i: int| 0 <= i < common_place(v, n, k) ==> (#[trigger] v[i]).1 >= n,
        forall|i: int| common_place(v, n, k) <= i < k ==> (#[trigger] v[i]).1 < n,
    decreases k,
{
    if k > 0 && v[k - 1].1 < n {
        lemma_common_place(v, n, (k - 1) as nat);
    }
}

/// The colours in order of use are all of them, the commonest first.
proof fn lemma_by_use(v: Seq<(Rgb, usize)>, k: nat, x: (Rgb, usize))
    requires
        k <= v.len(),
    ensures
        ({
            let b = by_use(v, k);
            &&& b.len() == k
            &&& forall|i: int, j: int| 0 <= i < j < b.len() ==> (#[trigger] b[i]).1 >= (
            #[trigger] b[j]).1
            &&& (exists|i: int| 0 <= i < k && #[trigger] v[i] == x) ==> b.contains(x)
            &&& b.contains(x) ==> exists|i: int| 0 <= i < k && #[trigger] v[i] == x
        }),
    decreases k,
{
    if k > 0 {
        lemma_by_use(v, (k - 1) as nat, x);
        let a = by_use(v, (k - 1) as nat);
        let b = by_use(v, k);
        let y = v[k - 1];
        lemma_common_place(a, y.1, a.len());
        let at = common_place(a, y.1, a.len()) as int;
        assert(b[at] == y);
        if exists|i: int| 0 <= i < k && #[trigger] v[i] == x {
            if y == x {
                assert(b[at] == x);
            } else {
                let i = choose|i: int| 0 <= i < k && #[trigger] v[i] == x;
                assert(v[i] == x && i < k - 1);
                let q = choose|q: int| 0 <= q < a.len() && a[q] == x;
                if q < at {
                    assert(b[q] == x);
                } else {
                    assert(b[q + 1] == x);
                }
            }
        }
        if b.contains(x) {
            let q = choose|q: int| 0 <= q < b.len() && b[q] == x;
            if q == at {
                assert(v[k - 1] == x);
            } else {
                if q < at {
                    assert(a[q] == x);
                } else {
                    assert(a[q - 1] == x);
                }
                assert(a.contains(x));
                let i = choose|i: int| 0 <= i < k - 1 && #[trigger] v[i] == x;
                assert(v[i] == x);
            }
        }
        assert forall|i: int, j: int| 0 <= i < j < b.len() implies (#[trigger] b[i]).1 >= (
        #[trigger] b[j]).1 by {
            let p = if i < at {
                i
            } else {
                i - 1
            };
            let q = if j < at {
                j
            } else {
                j - 1
            };
            if i != at && j != at {
                assert(b[i] == a[p] && b[j] == a[q]);
            } else if i == at {
                assert(b[j] == a[q]);
            } else {
                assert(b[i] == a[p]);
            }
        }
    }
}

/// Where colours are merged the commonest are kept: no colour that is left out
/// is seen more often than one that is not.
pub proof fn law_the_commonest_colors_are_kept(p: Seq<Rgba>, c: Rgb, i: int)
    requires
        p.len() <= usize::MAX,
        kept_colors(p, true) is Some,
        0 <= i < kept_colors(p, true)->0.len(),
        !kept_colors(p, true)->0.contains(c),
    ensures
        uses(p, c, p.len()) <= uses(p, kept_colors(p, true)->0[i], p.len()),
        uses(p, kept_colors(p, true)->0[i], p.len()) > 0,
        kept_colors(p, true)->0.len() < PALETTE_SIZE,
{
    let v = tallied(p, p.len());
    let kept = kept_colors(p, true)->0;
    lemma_tallied(p, p.len(), c);
    if v.len() < PALETTE_SIZE {
        assert(kept[i] == v[i].0);
        if uses(p, c, p.len()) > 0 {
            let j = choose|j: int| 0 <= j < v.len() && (#[trigger] v[j]).0 == c;
            assert(kept[j] == c);
            assert(kept.contains(c));
        }
    } else {
        let b = by_use(v, v.len());
        lemma_by_use(v, v.len(), b[i]);
        assert(b.contains(b[i]));
        let q = choose|q: int| 0 <= q < v.len() && #[trigger] v[q] == b[i];
        assert(v[q].1 == uses(p, v[q].0, p.len()));
        assert(kept[i] == b[i].0);
        if uses(p, c, p.len()) > 0 {
            let j = choose|j: int| 0 <= j < v.len() && (#[trigger] v[j]).0 == c;
            lemma_by_use(v, v.len(), v[j]);
            assert(v[j] == v[j]);
            let w = choose|w: int| 0 <= w < b.len() && b[w] == v[j];
            if w < 3 {
                assert(kept[w] == c);
                assert(kept.contains(c));
            }
            assert(b[i].1 >= b[w].1);
        }
    }
}

/// A pixel that is seen takes the kept colour that is nearest to its own, and
/// one that is not takes the transparent slot.
pub proof fn law_pixels_take_the_nearest_color(v: Seq<Rgb>, p: Rgba, i: int)
    requires
        0 <= i < v.len() < PALETTE_SIZE,
    ensures
        p.a < 8 ==> slot_of(v, p) == 0,
        p.a >= 8 ==> 1 <= slot_of(v, p) <= v.len() && color_distance(
            v[slot_of(v, p) - 1],
            p.color,
        ) <= color_distance(v[i], p.color),
{
    lemma_nearest(v, p.color, v.len(), i);
}

/// Cells are counted along the rows of a sheet, and pixels from the upper left
/// corner of their cell.
pub proof fn law_cells_are_counted_along_rows(
    s: SpriteSheet,
    idx: u32,
    cx: int,
    cy: int,
    px: u32,
    py: u32,
)
    requires
        is_sheet(s),
        0 <= cx < sheet_cols(s),
        0 <= cy < sheet_rows(s),
        idx == cy * sheet_cols(s) + cx,
        px < s.cell_w,
        py < s.cell_h,
    ensures
        pixel_of(s, idx, px, py) == Some(
            s.indices@[(cy * s.cell_h + py) * s.width + (cx * s.cell_w + px)],
        ),
{
    let cols = sheet_cols(s);
    assert(idx == cols * cy + cx) by (nonlinear_arith)
        requires
            idx == cy * cols + cx,
    ;
    vstd::arithmetic::div_mod::lemma_fundamental_div_mod_converse(idx as int, cols, cy, cx);
}

} // verus!
