//! The picture beside the music: which view is shown, and how sprites are
//! painted into a grid of pixels, two to a character cell.

use vstd::prelude::*;

use crate::sprite;
use crate::sprite::{Rgb, SpriteSheet, PALETTE_SIZE};
use crate::text;

verus! {

#[derive(Clone, Copy, Debug, PartialEq, Eq, Structural)]
pub enum VizKind {
    Bars,
    Scope,
    Grid,
    Orbit,
    Sprites,
}

pub open spec fn kind_name(k: VizKind) -> Seq<char> {
    match k {
        VizKind::Bars => "bars"@,
        VizKind::Scope => "scope"@,
        VizKind::Grid => "grid"@,
        VizKind::Orbit => "orbit"@,
        VizKind::Sprites => "sprites"@,
    }
}

pub open spec fn kind_named(w: Seq<char>) -> Option<VizKind> {
    if w == "bars"@ {
        Some(VizKind::Bars)
    } else if w == "scope"@ {
        Some(VizKind::Scope)
    } else if w == "grid"@ {
        Some(VizKind::Grid)
    } else if w == "orbit"@ {
        Some(VizKind::Orbit)
    } else if w == "sprites"@ || w == "sprite"@ {
        Some(VizKind::Sprites)
    } else {
        None
    }
}

impl VizKind {
    pub fn name(self) -> (r: &'static str)
        ensures
            r@ == kind_name(self),
    {
        match self {
            VizKind::Bars => "bars",
            VizKind::Scope => "scope",
            VizKind::Grid => "grid",
            VizKind::Orbit => "orbit",
            VizKind::Sprites => "sprites",
        }
    }

    pub fn parse(s: &str) -> (r: Option<VizKind>)
        ensures
            r == kind_named(s@),
    {
        let all: Vec<char> = text::chars_of(s);
        let w: &[char] = all.as_slice();
        if text::is_lit(w, "bars") {
            Some(VizKind::Bars)
        } else if text::is_lit(w, "scope") {
            Some(VizKind::Scope)
        } else if text::is_lit(w, "grid") {
            Some(VizKind::Grid)
        } else if text::is_lit(w, "orbit") {
            Some(VizKind::Orbit)
        } else if text::is_lit(w, "sprites") || text::is_lit(w, "sprite") {
            Some(VizKind::Sprites)
        } else {
            None
        }
    }
}

/// A view's name is read back as that view.
pub proof fn law_kind_round_trip(k: VizKind)
    ensures
        kind_named(kind_name(k)) == Some(k),
{
    reveal_strlit("bars");
    reveal_strlit("scope");
    reveal_strlit("grid");
    reveal_strlit("orbit");
    reveal_strlit("sprites");
    assert("bars"@[0] == 'b' && "grid"@[0] == 'g');
    assert("scope"@[0] == 's' && "orbit"@[0] == 'o');
    assert("bars"@.len() == 4 && "grid"@.len() == 4 && "sprites"@.len() == 7);
    assert("scope"@.len() == 5 && "orbit"@.len() == 5);
}

/// A channel's colour.
pub open spec fn color_of(ch: int) -> Option<Rgb> {
    if ch == 0 {
        Some(Rgb { r: 120, g: 220, b: 110 })
    } else if ch == 1 {
        Some(Rgb { r: 240, g: 180, b: 80 })
    } else if ch == 2 {
        Some(Rgb { r: 150, g: 130, b: 240 })
    } else if ch == 3 {
        Some(Rgb { r: 240, g: 120, b: 180 })
    } else {
        None
    }
}

pub fn channel_color(ch: usize) -> (r: Option<Rgb>)
    ensures
        r == color_of(ch as int),
{
    if ch == 0 {
        Some(Rgb { r: 120, g: 220, b: 110 })
    } else if ch == 1 {
        Some(Rgb { r: 240, g: 180, b: 80 })
    } else if ch == 2 {
        Some(Rgb { r: 150, g: 130, b: 240 })
    } else if ch == 3 {
        Some(Rgb { r: 240, g: 120, b: 180 })
    } else {
        None
    }
}

pub fn channel_name(ch: usize) -> (r: &'static str)
    ensures
        r@ == (if ch == 0 {
            "PU1"@
        } else if ch == 1 {
            "PU2"@
        } else if ch == 2 {
            "TRI"@
        } else if ch == 3 {
            "NOI"@
        } else {
            "???"@
        }),
{
    if ch == 0 {
        "PU1"
    } else if ch == 1 {
        "PU2"
    } else if ch == 2 {
        "TRI"
    } else if ch == 3 {
        "NOI"
    } else {
        "???"
    }
}

// ---------------------------------------------------------------- half blocks

/// The character for two pixels, one above the other.
pub open spec fn block_char(upper: bool, lower: bool) -> char {
    if upper && lower {
        '█'
    } else if upper {
        '▀'
    } else if lower {
        '▄'
    } else {
        ' '
    }
}

pub fn half_block(upper: bool, lower: bool) -> (r: char)
    ensures
        r == block_char(upper, lower),
{
    if upper && lower {
        '█'
    } else if upper {
        '▀'
    } else if lower {
        '▄'
    } else {
        ' '
    }
}

/// The character of a bar on a row from the top. The bar is `h` half rows
/// high and grows from the bottom.
pub fn bar_char(h: usize, row: usize, rows: usize) -> (r: char)
    requires
        row < rows,
        2 * rows <= usize::MAX,
    ensures
        r == block_char(h > 2 * (rows - row) - 1, h > 2 * (rows - row) - 2),
{
    let from_bottom: usize = rows - row;
    half_block(h > 2 * from_bottom - 1, h > 2 * from_bottom - 2)
}

/// How a step of the sequence is marked.
#[derive(Clone, Copy, Debug, PartialEq, Eq, Structural)]
pub enum StepMark {
    Active,
    Near,
    Far,
}

/// The mark of a step: the playing one, those beside it while the song
/// plays, or none.
pub fn step_mark(idx: usize, step: usize, playing: bool) -> (r: StepMark)
    ensures
        ({
            let active = if step > 15 {
                15
            } else {
                step as int
            };
            r == (if idx == active {
                StepMark::Active
            } else if playing && (idx == active + 1 || idx == active - 1) {
                StepMark::Near
            } else {
                StepMark::Far
            })
        }),
{
    let active: usize = if step > 15 {
        15
    } else {
        step
    };
    if idx == active {
        StepMark::Active
    } else if playing && (idx == active + 1 || (active > 0 && idx == active - 1)) {
        StepMark::Near
    } else {
        StepMark::Far
    }
}

// ---------------------------------------------------------------- sprites

/// A grid of pixels, row by row. A pixel may be unpainted.
#[derive(Debug)]
pub struct Canvas {
    pub cols: usize,
    pub rows: usize,
    pub pixels: Vec<Option<Rgb>>,
}

pub open spec fn is_canvas(c: Canvas) -> bool {
    c.pixels@.len() == c.cols * c.rows
}

/// The pixel at a place.
pub open spec fn at(c: Canvas, x: int, y: int) -> Option<Rgb> {
    c.pixels@[y * c.cols + x]
}

proof fn lemma_inside(cols: int, rows: int, x: int, y: int)
    requires
        0 <= x < cols,
        0 <= y < rows,
    ensures
        0 <= y * cols + x < cols * rows,
        0 <= y * cols,
{
    assert(0 <= y * cols && y * cols + x < cols * rows) by (nonlinear_arith)
        requires
            0 <= x < cols,
            0 <= y < rows,
    ;
}

proof fn lemma_apart(cols: int, x: int, y: int, u: int, v: int)
    requires
        0 <= x < cols,
        0 <= u < cols,
        0 <= y,
        0 <= v,
        y * cols + x == v * cols + u,
    ensures
        x == u,
        y == v,
{
    assert(y == v) by (nonlinear_arith)
        requires
            0 <= x < cols,
            0 <= u < cols,
            y * cols + x == v * cols + u,
    ;
}

impl Canvas {
    /// A canvas without paint.
    pub fn blank(cols: usize, rows: usize) -> (c: Canvas)
        requires
            cols * rows <= usize::MAX,
        ensures
            is_canvas(c),
            c.cols == cols,
            c.rows == rows,
            forall|i: int| 0 <= i < c.pixels@.len() ==> (#[trigger] c.pixels@[i]) is None,
    {
        let mut pixels: Vec<Option<Rgb>> = Vec::new();
        let n: usize = cols * rows;
        for i in 0..n
            invariant
                pixels@.len() == i,
                forall|j: int| 0 <= j < i ==> (#[trigger] pixels@[j]) is None,
        {
            pixels.push(None);
        }
        Canvas { cols, rows, pixels }
    }

    /// The pixel at a place.
    pub fn pixel(&self, x: usize, y: usize) -> (r: Option<Rgb>)
        requires
            is_canvas(*self),
            x < self.cols,
            y < self.rows,
        ensures
            r == at(*self, x as int, y as int),
    {
        proof {
            lemma_inside(self.cols as int, self.rows as int, x as int, y as int);
        }
        let n: usize = self.pixels.len();
        self.pixels[y * self.cols + x]
    }

    /// Paints one pixel, where it is on the canvas.
    pub fn plot(&mut self, x: i64, y: i64, color: Rgb)
        requires
            is_canvas(*old(self)),
        ensures
            is_canvas(*final(self)),
            final(self).cols == old(self).cols,
            final(self).rows == old(self).rows,
            forall|u: int, v: int|
                0 <= u < old(self).cols && 0 <= v < old(self).rows ==> #[trigger] at(
                    *final(self),
                    u,
                    v,
                ) == (if u == x && v == y {
                    Some(color)
                } else {
                    at(*old(self), u, v)
                }),
    {
        if x < 0 || y < 0 || x as u64 >= self.cols as u64 || y as u64 >= self.rows as u64 {
            return;
        }
        let ghost cols = self.cols as int;
        proof {
            lemma_inside(cols, self.rows as int, x as int, y as int);
        }
        let n: usize = self.pixels.len();
        let i: usize = y as usize * self.cols + x as usize;
        self.pixels.set(i, Some(color));
        assert forall|u: int, v: int|
            0 <= u < cols && 0 <= v < self.rows implies #[trigger] at(*self, u, v) == (if u == x
            && v == y {
            Some(color)
        } else {
            at(*old(self), u, v)
        }) by {
            lemma_inside(cols, self.rows as int, u, v);
            if v * cols + u == i {
                lemma_apart(cols, u, v, x as int, y as int);
            }
        }
    }
}

/// Where a sprite is shown: its top left pixel, whether it is mirrored, and
/// which column and row of the cell each column and row shown is taken from.
pub struct Stamp<'a> {
    pub x: i32,
    pub y: i32,
    pub flipx: bool,
    pub flipy: bool,
    pub from_x: &'a [u32],
    pub from_y: &'a [u32],
}

/// A column of a cell, mirrored where asked.
pub open spec fn flipped(at: u32, size: u32, flip: bool) -> int {
    let inside = if at >= size {
        size - 1
    } else {
        at as int
    };
    if flip {
        size - 1 - inside
    } else {
        inside
    }
}

/// The colour that a sprite paints at a pixel of the canvas, if any: slot 0
/// paints nothing.
pub open spec fn stamped(
    s: SpriteSheet,
    frame: u32,
    palette: Seq<Rgb>,
    p: Stamp<'_>,
    u: int,
    v: int,
) -> Option<Rgb> {
    let dx = u - p.x;
    let dy = v - p.y;
    if dx < 0 || dy < 0 || dx >= p.from_x@.len() || dy >= p.from_y@.len() {
        None
    } else {
        match sprite::pixel_of(
            s,
            frame,
            flipped(p.from_x@[dx], s.cell_w, p.flipx) as u32,
            flipped(p.from_y@[dy], s.cell_h, p.flipy) as u32,
        ) {
            Some(i) => if i == 0 {
                None
            } else {
                Some(palette[i as int])
            },
            None => None,
        }
    }
}

fn flip_at(at: u32, size: u32, flip: bool) -> (r: u32)
    requires
        size > 0,
    ensures
        r == flipped(at, size, flip),
{
    let inside: u32 = if at >= size {
        size - 1
    } else {
        at
    };
    if flip {
        size - 1 - inside
    } else {
        inside
    }
}

/// The cell shown for a frame number: numbers past the last cell begin again.
pub fn wrapped_frame(s: &SpriteSheet, idx: u32) -> (r: u32)
    requires
        sprite::is_sheet(*s),
    ensures
        ({
            let n = sprite::sheet_cols(*s) * sprite::sheet_rows(*s);
            r == (if n == 0 {
                0
            } else {
                idx as int % n
            })
        }),
{
    let n: u64 = s.cell_count();
    if n == 0 {
        0
    } else {
        let m: u64 = idx as u64 % n;
        assert(m <= idx) by (nonlinear_arith)
            requires
                m == idx as u64 % n,
                n > 0,
        ;
        m as u32
    }
}

fn paint_row(
    c: &mut Canvas,
    s: &SpriteSheet,
    frame: u32,
    palette: &[Rgb; PALETTE_SIZE],
    p: &Stamp,
    dy: usize,
)
    requires
        is_canvas(*old(c)),
        sprite::is_sheet(*s),
        dy < p.from_y@.len(),
        p.from_x@.len() <= u32::MAX,
        p.from_y@.len() <= u32::MAX,
    ensures
        is_canvas(*final(c)),
        final(c).cols == old(c).cols,
        final(c).rows == old(c).rows,
        forall|u: int, v: int|
            0 <= u < old(c).cols && 0 <= v < old(c).rows ==> #[trigger] at(*final(c), u, v) == (
            if v - p.y == dy && stamped(*s, frame, palette@, *p, u, v) is Some {
                stamped(*s, frame, palette@, *p, u, v)
            } else {
                at(*old(c), u, v)
            }),
{
    let sy: u32 = flip_at(p.from_y[dy], s.cell_h, p.flipy);
    let oy: i64 = p.y as i64 + dy as i64;
    for dx in 0..p.from_x.len()
        invariant
            is_canvas(*c),
            sprite::is_sheet(*s),
            dy < p.from_y@.len(),
            p.from_x@.len() <= u32::MAX,
            oy == p.y + dy,
            sy == flipped(p.from_y@[dy as int], s.cell_h, p.flipy),
            c.cols == old(c).cols,
            c.rows == old(c).rows,
            forall|u: int, v: int|
                0 <= u < c.cols && 0 <= v < c.rows ==> #[trigger] at(*c, u, v) == (if v - p.y == dy
                    && u - p.x < dx && stamped(*s, frame, palette@, *p, u, v) is Some {
                    stamped(*s, frame, palette@, *p, u, v)
                } else {
                    at(*old(c), u, v)
                }),
    {
        let sx: u32 = flip_at(p.from_x[dx], s.cell_w, p.flipx);
        let ox: i64 = p.x as i64 + dx as i64;
        assert(stamped(*s, frame, palette@, *p, ox as int, oy as int) == (
        match sprite::pixel_of(*s, frame, sx, sy) {
            Some(i) => if i == 0 {
                None
            } else {
                Some(palette@[i as int])
            },
            None => None,
        }));
        if let Some(i) = s.pixel(frame, sx, sy) {
            if i != 0 {
                c.plot(ox, oy, palette[i as usize]);
            }
        }
    }
}

/// Paints a sprite. Where it paints nothing the canvas keeps its pixel, so
/// that later sprites cover earlier ones.
pub fn paint(
    c: &mut Canvas,
    s: &SpriteSheet,
    frame: u32,
    palette: &[Rgb; PALETTE_SIZE],
    p: &Stamp,
)
    requires
        is_canvas(*old(c)),
        sprite::is_sheet(*s),
        p.from_x@.len() <= u32::MAX,
        p.from_y@.len() <= u32::MAX,
    ensures
        is_canvas(*final(c)),
        final(c).cols == old(c).cols,
        final(c).rows == old(c).rows,
        forall|u: int, v: int|
            0 <= u < old(c).cols && 0 <= v < old(c).rows ==> #[trigger] at(*final(c), u, v) == (
            if stamped(*s, frame, palette@, *p, u, v) is Some {
                stamped(*s, frame, palette@, *p, u, v)
            } else {
                at(*old(c), u, v)
            }),
{
    for dy in 0..p.from_y.len()
        invariant
            is_canvas(*c),
            sprite::is_sheet(*s),
            p.from_x@.len() <= u32::MAX,
            p.from_y@.len() <= u32::MAX,
            c.cols == old(c).cols,
            c.rows == old(c).rows,
            forall|u: int, v: int|
                0 <= u < c.cols && 0 <= v < c.rows ==> #[trigger] at(*c, u, v) == (if v - p.y < dy
                    && stamped(*s, frame, palette@, *p, u, v) is Some {
                    stamped(*s, frame, palette@, *p, u, v)
                } else {
                    at(*old(c), u, v)
                }),
    {
        paint_row(c, s, frame, palette, p, dy);
    }
}

/// A sprite that is mirrored paints its columns and rows from the other side:
/// where it stands one pixel to a pixel, what it paints at a place is what it
/// would paint unmirrored at the opposite one.
pub proof fn law_mirrored_sprites_are_seen_from_the_other_side(
    s: SpriteSheet,
    frame: u32,
    palette: Seq<Rgb>,
    p: Stamp<'_>,
    q: Stamp<'_>,
    dx: int,
    dy: int,
)
    requires
        0 <= dx < s.cell_w,
        0 <= dy < s.cell_h,
        p.x == q.x && p.y == q.y,
        p.flipx && p.flipy && !q.flipx && !q.flipy,
        p.from_x@ == q.from_x@ && p.from_y@ == q.from_y@,
        p.from_x@.len() == s.cell_w && p.from_y@.len() == s.cell_h,
        forall|i: int| 0 <= i < s.cell_w ==> #[trigger] p.from_x@[i] == i,
        forall|i: int| 0 <= i < s.cell_h ==> #[trigger] p.from_y@[i] == i,
    ensures
        stamped(s, frame, palette, p, p.x + dx, p.y + dy) == stamped(
            s,
            frame,
            palette,
            q,
            q.x + (s.cell_w - 1 - dx),
            q.y + (s.cell_h - 1 - dy),
        ),
{
    assert(p.from_x@[dx] == dx && p.from_y@[dy] == dy);
    assert(q.from_x@[s.cell_w - 1 - dx] == s.cell_w - 1 - dx);
    assert(q.from_y@[s.cell_h - 1 - dy] == s.cell_h - 1 - dy);
}

} // verus!
