//! Pixel drawing on RGBA image buffers, used to flatten annotations onto a
//! screenshot.
use vstd::prelude::*;
use vstd::arithmetic::div_mod::{lemma_fundamental_div_mod, lemma_fundamental_div_mod_converse};

verus! {

/// The shapes an annotation can take.
#[derive(Clone, Copy, PartialEq, Eq, Debug, Structural)]
pub enum ShapeKind {
    Rect,
    Ellipse,
    Arrow,
    Pen,
}

/// An opaque RGB colour.
#[derive(Clone, Copy, PartialEq, Eq, Debug, Structural)]
pub struct Rgb {
    pub r: u8,
    pub g: u8,
    pub b: u8,
}

/// Whether `(x, y)` lies in a `w` × `h` image.
pub open spec fn in_image(w: int, h: int, x: int, y: int) -> bool {
    0 <= x < w && 0 <= y < h
}

/// Byte offset of pixel `(x, y)` in a `w`-pixel-wide RGBA buffer.
pub open spec fn pixel_offset(w: int, x: int, y: int) -> int {
    (y * w + x) * 4
}

/// `buf` with pixel `(x, y)` set to the opaque colour `c`.
pub open spec fn with_pixel(buf: Seq<u8>, w: int, x: int, y: int, c: Rgb) -> Seq<u8> {
    let i = pixel_offset(w, x, y);
    buf.update(i, c.r).update(i + 1, c.g).update(i + 2, c.b).update(i + 3, 255u8)
}

/// `n as i32` for a non-negative `n`: its low 32 bits read as a signed
/// number. For `n <= i32::MAX` this is `n` itself.
pub open spec fn as_i32(n: int) -> int {
    let m = n % 0x1_0000_0000;
    if m < 0x8000_0000 {
        m
    } else {
        m - 0x1_0000_0000
    }
}

/// Whether pixel `(x, y)` is drawn on in a `w` × `h` image: it lies within
/// the width and height as they read after the cast to `i32`, which for
/// every size up to `i32::MAX` is the image itself.
pub open spec fn drawable(w: int, h: int, x: int, y: int) -> bool {
    in_image(as_i32(w), as_i32(h), x, y)
}

/// The cast to `i32` keeps small sizes and never makes a size larger.
proof fn lemma_as_i32(n: int)
    requires
        0 <= n,
    ensures
        as_i32(n) <= n,
        n <= i32::MAX ==> as_i32(n) == n,
{
    let c: int = 0x1_0000_0000;
    lemma_fundamental_div_mod(n, c);
    let q = n / c;
    let m = n % c;
    assert(0 <= m < c);
    assert(q >= 0) by (nonlinear_arith)
        requires
            n == c * q + m,
            0 <= n,
            0 <= m < c,
            c > 0,
    ;
    assert(c * q >= 0) by (nonlinear_arith)
        requires
            q >= 0,
            c > 0,
    ;
    if n <= i32::MAX {
        lemma_fundamental_div_mod_converse(n, c, 0, n);
    }
}

/// `n as i32`, the cast written out on the bits it keeps.
fn size_as_i32(n: usize) -> (r: i32)
    ensures
        r == as_i32(n as int),
{
    if n <= 0x7fff_ffff {
        proof {
            lemma_as_i32(n as int);
        }
        n as i32
    } else {
        let m: u64 = (n as u64) % 0x1_0000_0000;
        if m < 0x8000_0000 {
            m as i32
        } else {
            (m as i64 - 0x1_0000_0000) as i32
        }
    }
}

/// Sets pixel `(x, y)` of the `w` × `h` RGBA image in `buf` to the opaque
/// colour `c`; pixels outside the image are ignored. The image's size is
/// compared as `i32`, so a side longer than `i32::MAX` bounds it by its
/// value after that cast.
pub fn set_pixel(buf: &mut [u8], w: usize, h: usize, x: i32, y: i32, c: Rgb)
    requires
        old(buf)@.len() >= w * h * 4,
    ensures
        drawable(w as int, h as int, x as int, y as int) ==> final(buf)@ == with_pixel(old(buf)@, w as int, x as int, y as int, c),
        !drawable(w as int, h as int, x as int, y as int) ==> final(buf)@ == old(buf)@,
{
    if x < 0 || y < 0 || x >= size_as_i32(w) || y >= size_as_i32(h) {
        return;
    }
    proof {
        lemma_as_i32(w as int);
        lemma_as_i32(h as int);
    }
    let xu = x as usize;
    let yu = y as usize;
    let n = buf.len();
    proof {
        assert(yu * w + xu < w * h) by (nonlinear_arith)
            requires
                yu < h,
                xu < w;
        assert((yu * w + xu) * 4 + 3 < n) by (nonlinear_arith)
            requires
                yu * w + xu < w * h,
                w * h * 4 <= n;
    }
    let i = (yu * w + xu) * 4;
    buf[i] = c.r;
    buf[i + 1] = c.g;
    buf[i + 2] = c.b;
    buf[i + 3] = 255;
}

/// Byte `k` (0 to 3) of the opaque colour `c` in RGBA order.
pub open spec fn channel(c: Rgb, k: int) -> u8 {
    if k == 0 {
        c.r
    } else if k == 1 {
        c.g
    } else if k == 2 {
        c.b
    } else {
        255u8
    }
}

/// Column of the pixel that byte `i` of a `w`-pixel-wide RGBA buffer belongs to.
pub open spec fn column_of(w: int, i: int) -> int {
    (i / 4) % w
}

/// Row of the pixel that byte `i` of a `w`-pixel-wide RGBA buffer belongs to.
pub open spec fn row_of(w: int, i: int) -> int {
    (i / 4) / w
}

/// `buf` with every drawable pixel of the `w` × `h` image whose coordinates
/// lie in `region` set to the opaque colour `c`; every other byte is kept.
pub open spec fn painted(buf: Seq<u8>, w: int, h: int, region: Set<(int, int)>, c: Rgb) -> Seq<u8> {
    Seq::new(
        buf.len(),
        |i: int|
            if i < w * h * 4 && drawable(w, h, column_of(w, i), row_of(w, i)) && region.contains(
                (column_of(w, i), row_of(w, i)),
            ) {
                channel(c, i % 4)
            } else {
                buf[i]
            },
    )
}

/// Each byte of the image area belongs to exactly one in-image pixel, at the
/// byte's offset modulo four.
proof fn lemma_byte_pixel(w: int, h: int, i: int)
    requires
        0 <= i < w * h * 4,
        0 <= w,
        0 <= h,
    ensures
        w > 0,
        in_image(w, h, column_of(w, i), row_of(w, i)),
        i == pixel_offset(w, column_of(w, i), row_of(w, i)) + i % 4,
        0 <= i % 4 < 4,
{
    assert(w * h > 0) by (nonlinear_arith)
        requires
            0 <= i < w * h * 4,
    ;
    assert(w > 0) by (nonlinear_arith)
        requires
            w * h > 0,
            0 <= w,
            0 <= h,
    ;
    let q = i / 4;
    lemma_fundamental_div_mod(i, 4);
    lemma_fundamental_div_mod(q, w);
    let px = q % w;
    let py = q / w;
    assert(0 <= q < w * h);
    assert(0 <= px < w);
    assert(0 <= py < h) by (nonlinear_arith)
        requires
            q == w * py + px,
            0 <= px < w,
            0 <= q < w * h,
            w > 0,
    ;
    assert(q == py * w + px) by (nonlinear_arith)
        requires
            q == w * py + px,
    ;
}

/// A byte lies in the four bytes of in-image pixel `(x, y)` exactly when its
/// pixel coordinates are `(x, y)`.
proof fn lemma_pixel_bytes(w: int, h: int, x: int, y: int, i: int)
    requires
        in_image(w, h, x, y),
        0 <= i,
    ensures
        (pixel_offset(w, x, y) <= i < pixel_offset(w, x, y) + 4) <==> (column_of(w, i) == x
            && row_of(w, i) == y),
{
    let q = i / 4;
    lemma_fundamental_div_mod(i, 4);
    assert(0 <= y * w) by (nonlinear_arith)
        requires
            0 <= y,
            0 <= w,
    ;
    if pixel_offset(w, x, y) <= i < pixel_offset(w, x, y) + 4 {
        lemma_fundamental_div_mod_converse(i, 4, y * w + x, i - pixel_offset(w, x, y));
        lemma_fundamental_div_mod_converse(q, w, y, x);
    }
    if column_of(w, i) == x && row_of(w, i) == y {
        lemma_fundamental_div_mod(q, w);
        assert(q == y * w + x) by (nonlinear_arith)
            requires
                q == w * y + x,
        ;
    }
}

/// Setting one pixel after painting a region is painting the region with that
/// pixel added; a pixel that is not drawable adds nothing.
proof fn lemma_paint_one(buf: Seq<u8>, w: int, h: int, region: Set<(int, int)>, x: int, y: int, c: Rgb)
    requires
        0 <= w,
        0 <= h,
        buf.len() >= w * h * 4,
    ensures
        drawable(w, h, x, y) ==> with_pixel(painted(buf, w, h, region, c), w, x, y, c)
            == painted(buf, w, h, region.insert((x, y)), c),
        !drawable(w, h, x, y) ==> painted(buf, w, h, region, c) == painted(
            buf,
            w,
            h,
            region.insert((x, y)),
            c,
        ),
{
    let before = painted(buf, w, h, region, c);
    let after = painted(buf, w, h, region.insert((x, y)), c);
    lemma_as_i32(w);
    lemma_as_i32(h);
    if drawable(w, h, x, y) {
        let off = pixel_offset(w, x, y);
        assert(off + 3 < w * h * 4) by (nonlinear_arith)
            requires
                off == (y * w + x) * 4,
                0 <= x < w,
                0 <= y < h,
        ;
        assert(0 <= off) by (nonlinear_arith)
            requires
                off == (y * w + x) * 4,
                0 <= x,
                0 <= y,
                0 <= w,
        ;
        let set_one = with_pixel(before, w, x, y, c);
        assert forall|i: int| 0 <= i < buf.len() implies set_one[i] == after[i] by {
            lemma_pixel_bytes(w, h, x, y, i);
            if i < w * h * 4 {
                lemma_byte_pixel(w, h, i);
            }
            if off <= i < off + 4 {
                lemma_fundamental_div_mod_converse(i, 4, y * w + x, i - off);
            }
        }
        assert(set_one =~= after);
    } else {
        assert forall|i: int| 0 <= i < buf.len() implies before[i] == after[i] by {
            if i < w * h * 4 {
                lemma_byte_pixel(w, h, i);
            }
        }
        assert(before =~= after);
    }
}

/// Sets one pixel on a buffer that holds `orig` with `region` painted,
/// giving `orig` with the pixel added to the region.
fn paint_pixel(
    buf: &mut [u8],
    w: usize,
    h: usize,
    x: i64,
    y: i64,
    c: Rgb,
    Ghost(orig): Ghost<Seq<u8>>,
    Ghost(region): Ghost<Set<(int, int)>>,
)
    requires
        orig.len() >= w * h * 4,
        old(buf)@ == painted(orig, w as int, h as int, region, c),
        i32::MIN <= x <= i32::MAX,
        i32::MIN <= y <= i32::MAX,
    ensures
        final(buf)@ == painted(orig, w as int, h as int, region.insert((x as int, y as int)), c),
{
    proof {
        lemma_paint_one(orig, w as int, h as int, region, x as int, y as int, c);
    }
    set_pixel(buf, w, h, x as i32, y as i32, c);
}

/// The pixels of the filled rectangle with corners `(x0, y0)` and `(x1, y1)`.
pub open spec fn rect_region(x0: int, y0: int, x1: int, y1: int) -> Set<(int, int)> {
    Set::new(|p: (int, int)| x0 <= p.0 <= x1 && y0 <= p.1 <= y1)
}

/// The pixels of the one-pixel outline of the rectangle with corners
/// `(x0, y0)` and `(x1, y1)`.
pub open spec fn outline_region(x0: int, y0: int, x1: int, y1: int) -> Set<(int, int)> {
    Set::new(
        |p: (int, int)|
            (x0 <= p.0 <= x1 && (p.1 == y0 || p.1 == y1)) || (y0 <= p.1 <= y1 && (p.0 == x0 || p.0
                == x1)),
    )
}

/// Fills the rectangle with corners `(x0, y0)` and `(x1, y1)`, both
/// included, with the opaque colour `c`; pixels outside the image are skipped.
pub fn fill_rect(buf: &mut [u8], w: usize, h: usize, x0: i32, y0: i32, x1: i32, y1: i32, c: Rgb)
    requires
        old(buf)@.len() >= w * h * 4,
    ensures
        final(buf)@ == painted(
            old(buf)@,
            w as int,
            h as int,
            rect_region(x0 as int, y0 as int, x1 as int, y1 as int),
            c,
        ),
{
    let ghost orig = buf@;
    let ghost (gx0, gy0, gx1, gy1) = (x0 as int, y0 as int, x1 as int, y1 as int);
    let mut y: i64 = y0 as i64;
    proof {
        assert(Set::<(int, int)>::empty() =~= Set::new(
            |p: (int, int)| gx0 <= p.0 <= gx1 && gy0 <= p.1 < y,
        ));
        assert(orig =~= painted(orig, w as int, h as int, Set::empty(), c));
    }
    while y <= y1 as i64
        invariant
            orig.len() >= w * h * 4,
            gx0 == x0,
            gy0 == y0,
            gx1 == x1,
            gy1 == y1,
            y0 <= y <= i32::MAX as i64 + 1,
            y <= y1 as i64 + 1 || y == y0,
            buf@ == painted(
                orig,
                w as int,
                h as int,
                Set::new(|p: (int, int)| gx0 <= p.0 <= gx1 && gy0 <= p.1 < y),
                c,
            ),
        decreases i32::MAX as i64 + 1 - y,
    {
        let mut x: i64 = x0 as i64;
        let ghost row = y as int;
        assert(Set::new(|p: (int, int)| gx0 <= p.0 <= gx1 && gy0 <= p.1 < row) =~= Set::new(
            |p: (int, int)| (gx0 <= p.0 <= gx1 && gy0 <= p.1 < row) || (p.1 == row && gx0 <= p.0 < x),
        ));
        while x <= x1 as i64
            invariant
                orig.len() >= w * h * 4,
                gx0 == x0,
                gy0 == y0,
                gx1 == x1,
                row == y,
                y0 <= y <= y1,
                x0 <= x <= i32::MAX as i64 + 1,
                x <= x1 as i64 + 1 || x == x0,
                buf@ == painted(
                    orig,
                    w as int,
                    h as int,
                    Set::new(
                        |p: (int, int)|
                            (gx0 <= p.0 <= gx1 && gy0 <= p.1 < row) || (p.1 == row && gx0 <= p.0
                                < x),
                    ),
                    c,
                ),
            decreases i32::MAX as i64 + 1 - x,
        {
            let ghost before = Set::new(
                |p: (int, int)| (gx0 <= p.0 <= gx1 && gy0 <= p.1 < row) || (p.1 == row && gx0 <= p.0 < x),
            );
            paint_pixel(buf, w, h, x, y, c, Ghost(orig), Ghost(before));
            assert(before.insert((x as int, y as int)) =~= Set::new(
                |p: (int, int)|
                    (gx0 <= p.0 <= gx1 && gy0 <= p.1 < row) || (p.1 == row && gx0 <= p.0 < x + 1),
            ));
            x = x + 1;
        }
        assert(Set::new(
            |p: (int, int)| (gx0 <= p.0 <= gx1 && gy0 <= p.1 < row) || (p.1 == row && gx0 <= p.0 < x),
        ) =~= Set::new(|p: (int, int)| gx0 <= p.0 <= gx1 && gy0 <= p.1 < row + 1));
        y = y + 1;
    }
    assert(Set::new(|p: (int, int)| gx0 <= p.0 <= gx1 && gy0 <= p.1 < y) =~= rect_region(
        gx0,
        gy0,
        gx1,
        gy1,
    ));
}

/// Draws the one-pixel outline of the rectangle with corners `(x0, y0)` and
/// `(x1, y1)` in the opaque colour `c`; pixels outside the image are skipped.
pub fn draw_rect_outline(
    buf: &mut [u8],
    w: usize,
    h: usize,
    x0: i32,
    y0: i32,
    x1: i32,
    y1: i32,
    c: Rgb,
)
    requires
        old(buf)@.len() >= w * h * 4,
    ensures
        final(buf)@ == painted(
            old(buf)@,
            w as int,
            h as int,
            outline_region(x0 as int, y0 as int, x1 as int, y1 as int),
            c,
        ),
{
    let ghost orig = buf@;
    let ghost (gx0, gy0, gx1, gy1) = (x0 as int, y0 as int, x1 as int, y1 as int);
    let mut x: i64 = x0 as i64;
    proof {
        assert(Set::<(int, int)>::empty() =~= Set::new(
            |p: (int, int)| gx0 <= p.0 < x && (p.1 == gy0 || p.1 == gy1),
        ));
        assert(orig =~= painted(orig, w as int, h as int, Set::empty(), c));
    }
    while x <= x1 as i64
        invariant
            orig.len() >= w * h * 4,
            gx0 == x0,
            gy0 == y0,
            gx1 == x1,
            gy1 == y1,
            x0 <= x <= i32::MAX as i64 + 1,
            x <= x1 as i64 + 1 || x == x0,
            buf@ == painted(
                orig,
                w as int,
                h as int,
                Set::new(|p: (int, int)| gx0 <= p.0 < x && (p.1 == gy0 || p.1 == gy1)),
                c,
            ),
        decreases i32::MAX as i64 + 1 - x,
    {
        let ghost done = Set::new(|p: (int, int)| gx0 <= p.0 < x && (p.1 == gy0 || p.1 == gy1));
        paint_pixel(buf, w, h, x, y0 as i64, c, Ghost(orig), Ghost(done));
        paint_pixel(buf, w, h, x, y1 as i64, c, Ghost(orig), Ghost(done.insert((x as int, gy0))));
        assert(done.insert((x as int, gy0)).insert((x as int, gy1)) =~= Set::new(
            |p: (int, int)| gx0 <= p.0 < x + 1 && (p.1 == gy0 || p.1 == gy1),
        ));
        x = x + 1;
    }
    let ghost top_bottom = Set::new(
        |p: (int, int)| gx0 <= p.0 < x && (p.1 == gy0 || p.1 == gy1),
    );
    let mut y: i64 = y0 as i64;
    assert(top_bottom =~= Set::new(
        |p: (int, int)| top_bottom.contains(p) || (gy0 <= p.1 < y && (p.0 == gx0 || p.0 == gx1)),
    ));
    while y <= y1 as i64
        invariant
            orig.len() >= w * h * 4,
            gx0 == x0,
            gy0 == y0,
            gx1 == x1,
            gy1 == y1,
            y0 <= y <= i32::MAX as i64 + 1,
            y <= y1 as i64 + 1 || y == y0,
            buf@ == painted(
                orig,
                w as int,
                h as int,
                Set::new(
                    |p: (int, int)|
                        top_bottom.contains(p) || (gy0 <= p.1 < y && (p.0 == gx0 || p.0 == gx1)),
                ),
                c,
            ),
        decreases i32::MAX as i64 + 1 - y,
    {
        let ghost done = Set::new(
            |p: (int, int)| top_bottom.contains(p) || (gy0 <= p.1 < y && (p.0 == gx0 || p.0 == gx1)),
        );
        paint_pixel(buf, w, h, x0 as i64, y, c, Ghost(orig), Ghost(done));
        paint_pixel(buf, w, h, x1 as i64, y, c, Ghost(orig), Ghost(done.insert((gx0, y as int))));
        assert(done.insert((gx0, y as int)).insert((gx1, y as int)) =~= Set::new(
            |p: (int, int)|
                top_bottom.contains(p) || (gy0 <= p.1 < y + 1 && (p.0 == gx0 || p.0 == gx1)),
        ));
        y = y + 1;
    }
    assert(Set::new(
        |p: (int, int)| top_bottom.contains(p) || (gy0 <= p.1 < y && (p.0 == gx0 || p.0 == gx1)),
    ) =~= outline_region(gx0, gy0, gx1, gy1));
}

/// Painting `first` and then `second` paints their union.
proof fn lemma_paint_twice(buf: Seq<u8>, w: int, h: int, first: Set<(int, int)>, second: Set<(int, int)>, c: Rgb)
    ensures
        painted(painted(buf, w, h, first, c), w, h, second, c) == painted(
            buf,
            w,
            h,
            first.union(second),
            c,
        ),
{
    assert(painted(painted(buf, w, h, first, c), w, h, second, c) =~= painted(
        buf,
        w,
        h,
        first.union(second),
        c,
    ));
}

/// The state `(x steps, y steps, error)` of the line walk after one step,
/// for a line spanning `dx` columns and `dy` rows.
pub open spec fn line_step(dx: int, dy: int, s: (int, int, int)) -> (int, int, int) {
    let e2 = 2 * s.2;
    let (a, err) = if e2 > -dy {
        (s.0 + 1, s.2 - dy)
    } else {
        (s.0, s.2)
    };
    if e2 < dx {
        (a, s.1 + 1, err + dx)
    } else {
        (a, s.1, err)
    }
}

/// The state of the line walk after `k` steps.
pub open spec fn line_state(dx: int, dy: int, k: nat) -> (int, int, int)
    decreases k,
{
    if k == 0 {
        (0, 0, dx - dy)
    } else {
        line_step(dx, dy, line_state(dx, dy, (k - 1) as nat))
    }
}

/// Whether the walk stands on the far end of the line after `k` steps.
pub open spec fn line_done(dx: int, dy: int, k: nat) -> bool {
    line_state(dx, dy, k).0 == dx && line_state(dx, dy, k).1 == dy
}

/// Whether the walk takes its `k`-th step: it has not stood on the far end before.
pub open spec fn line_reaches(dx: int, dy: int, k: nat) -> bool {
    forall|j: nat| j < k ==> !#[trigger] line_done(dx, dy, j)
}

/// The direction, 1 or -1, in which a coordinate moves from `from` to `to`.
pub open spec fn step_sign(from: int, to: int) -> int {
    if from < to {
        1
    } else {
        -1
    }
}

/// Half a stroke width, rounded toward zero.
pub open spec fn half_width(lw: int) -> int {
    if lw >= 0 {
        lw / 2
    } else {
        -((-lw) / 2)
    }
}

/// The absolute value of `v`.
pub open spec fn abs(v: int) -> int {
    if v < 0 {
        -v
    } else {
        v
    }
}

/// The point reached after `k` steps on the line from `(x0, y0)` to `(x1, y1)`.
pub open spec fn line_point(x0: int, y0: int, x1: int, y1: int, k: nat) -> (int, int) {
    let s = line_state(abs(x1 - x0), abs(y1 - y0), k);
    (x0 + step_sign(x0, x1) * s.0, y0 + step_sign(y0, y1) * s.1)
}

/// Whether `p` lies in the square of half-side `half_width(lw)` around the
/// `k`-th point of the line.
pub open spec fn near_point(x0: int, y0: int, x1: int, y1: int, lw: int, k: nat, p: (int, int)) -> bool {
    let q = line_point(x0, y0, x1, y1, k);
    let r = half_width(lw);
    rect_region(q.0 - r, q.1 - r, q.0 + r, q.1 + r).contains(p)
}

/// The pixels of the line from `(x0, y0)` to `(x1, y1)` drawn with stroke
/// width `lw`: a square of half-side `half_width(lw)` around each point
/// that the walk reaches.
pub open spec fn thick_line_region(x0: int, y0: int, x1: int, y1: int, lw: int) -> Set<(int, int)> {
    Set::new(
        |p: (int, int)|
            exists|k: nat|
                line_reaches(abs(x1 - x0), abs(y1 - y0), k) && #[trigger] near_point(
                    x0,
                    y0,
                    x1,
                    y1,
                    lw,
                    k,
                    p,
                ),
    )
}

/// The pixels of the squares around the first `k` points of the line.
pub open spec fn drawn_squares(x0: int, y0: int, x1: int, y1: int, lw: int, k: nat) -> Set<(int, int)> {
    Set::new(|p: (int, int)| exists|j: nat| j < k && #[trigger] near_point(x0, y0, x1, y1, lw, j, p))
}

/// Half the stroke width where it is positive, else 0.
pub open spec fn positive_half(lw: int) -> int {
    if half_width(lw) > 0 {
        half_width(lw)
    } else {
        0
    }
}

/// One step of the walk moves one column, one row or both toward the far
/// end without passing it, and keeps the error term in step with the position.
proof fn lemma_line_step(dx: int, dy: int, a: int, b: int, err: int)
    requires
        0 <= a <= dx,
        0 <= b <= dy,
        err == dx * (1 + b) - dy * (1 + a),
        !(a == dx && b == dy),
    ensures
        ({
            let s = line_step(dx, dy, (a, b, err));
            &&& a <= s.0 <= a + 1
            &&& b <= s.1 <= b + 1
            &&& s.0 <= dx
            &&& s.1 <= dy
            &&& s.0 + s.1 > a + b
            &&& s.2 == dx * (1 + s.1) - dy * (1 + s.0)
        }),
{
    let e2 = 2 * err;
    if a == dx {
        assert(b < dy);
        assert(e2 <= -dy) by (nonlinear_arith)
            requires
                e2 == 2 * (dx * (1 + b) - dy * (1 + a)),
                a == dx,
                0 <= b < dy,
                0 <= dx,
        ;
    }
    if b == dy {
        assert(a < dx);
        assert(e2 >= dx) by (nonlinear_arith)
            requires
                e2 == 2 * (dx * (1 + b) - dy * (1 + a)),
                b == dy,
                0 <= a < dx,
                0 <= dy,
        ;
    }
    assert(dx * (1 + b) + dx == dx * (1 + (b + 1))) by (nonlinear_arith);
    assert(dy * (1 + a) + dy == dy * (1 + (a + 1))) by (nonlinear_arith);
}

/// The error term stays far inside the range of `i128`.
proof fn lemma_line_error_bound(dx: int, dy: int, a: int, b: int, err: int)
    requires
        0 <= a <= dx <= 0x1_0000_0000,
        0 <= b <= dy <= 0x1_0000_0000,
        err == dx * (1 + b) - dy * (1 + a),
    ensures
        -0x10_0000_0000_0000_0000 <= err <= 0x10_0000_0000_0000_0000,
{
    assert(0 <= dx * (1 + b) <= 0x1_0000_0000 * 0x1_0000_0001) by (nonlinear_arith)
        requires
            0 <= b <= dy <= 0x1_0000_0000,
            0 <= dx <= 0x1_0000_0000,
    ;
    assert(0 <= dy * (1 + a) <= 0x1_0000_0000 * 0x1_0000_0001) by (nonlinear_arith)
        requires
            0 <= a <= dx <= 0x1_0000_0000,
            0 <= dy <= 0x1_0000_0000,
    ;
}

/// Draws the line from `(x0, y0)` to `(x1, y1)` with stroke width `lw` in
/// the opaque colour `c`: the walk steps one column, one row or both at a
/// time, and around each point it reaches a square of half-side `lw / 2` is
/// filled. Pixels outside the image are skipped.
pub fn draw_line_thick_i(
    buf: &mut [u8],
    w: usize,
    h: usize,
    x0: i32,
    y0: i32,
    x1: i32,
    y1: i32,
    c: Rgb,
    lw: i32,
)
    requires
        old(buf)@.len() >= w * h * 4,
        i32::MIN < x1 - x0 <= i32::MAX,
        i32::MIN < y1 - y0 <= i32::MAX,
        i32::MIN <= x0 - positive_half(lw as int),
        x0 + positive_half(lw as int) <= i32::MAX,
        i32::MIN <= x1 - positive_half(lw as int),
        x1 + positive_half(lw as int) <= i32::MAX,
        i32::MIN <= y0 - positive_half(lw as int),
        y0 + positive_half(lw as int) <= i32::MAX,
        i32::MIN <= y1 - positive_half(lw as int),
        y1 + positive_half(lw as int) <= i32::MAX,
    ensures
        final(buf)@ == painted(
            old(buf)@,
            w as int,
            h as int,
            thick_line_region(x0 as int, y0 as int, x1 as int, y1 as int, lw as int),
            c,
        ),
{
    let ghost orig = buf@;
    let ghost (gx0, gy0, gx1, gy1, glw) = (x0 as int, y0 as int, x1 as int, y1 as int, lw as int);
    let dx: i64 = if x1 >= x0 {
        x1 as i64 - x0 as i64
    } else {
        x0 as i64 - x1 as i64
    };
    let dy: i64 = if y1 >= y0 {
        y1 as i64 - y0 as i64
    } else {
        y0 as i64 - y1 as i64
    };
    let sx: i64 = if x0 < x1 {
        1
    } else {
        -1
    };
    let sy: i64 = if y0 < y1 {
        1
    } else {
        -1
    };
    let half: i64 = if lw >= 0 {
        lw as i64 / 2
    } else {
        -((-(lw as i64)) / 2)
    };
    let mut err: i128 = dx as i128 - dy as i128;
    let mut x: i64 = x0 as i64;
    let mut y: i64 = y0 as i64;
    let ghost mut k: nat = 0;
    let ghost mut a: int = 0;
    let ghost mut b: int = 0;
    proof {
        assert(drawn_squares(gx0, gy0, gx1, gy1, glw, 0) =~= Set::empty());
        assert(orig =~= painted(orig, w as int, h as int, Set::empty(), c));
        assert(err == dx * (1 + b) - dy * (1 + a));
    }
    loop
        invariant_except_break
            buf@ == painted(orig, w as int, h as int, drawn_squares(gx0, gy0, gx1, gy1, glw, k), c),
        invariant
            orig.len() >= w * h * 4,
            gx0 == x0,
            gy0 == y0,
            gx1 == x1,
            gy1 == y1,
            glw == lw,
            dx == abs(x1 - x0),
            dy == abs(y1 - y0),
            0 <= dx <= i32::MAX,
            0 <= dy <= i32::MAX,
            sx == step_sign(x0 as int, x1 as int),
            sy == step_sign(y0 as int, y1 as int),
            half == half_width(lw as int),
            i32::MIN <= x0 - positive_half(lw as int),
            x0 + positive_half(lw as int) <= i32::MAX,
            i32::MIN <= x1 - positive_half(lw as int),
            x1 + positive_half(lw as int) <= i32::MAX,
            i32::MIN <= y0 - positive_half(lw as int),
            y0 + positive_half(lw as int) <= i32::MAX,
            i32::MIN <= y1 - positive_half(lw as int),
            y1 + positive_half(lw as int) <= i32::MAX,
            line_state(dx as int, dy as int, k) == (a, b, err as int),
            0 <= a <= dx,
            0 <= b <= dy,
            err == dx * (1 + b) - dy * (1 + a),
            x == x0 + sx * a,
            y == y0 + sy * b,
            line_reaches(dx as int, dy as int, k),
        ensures
            buf@ == painted(
                orig,
                w as int,
                h as int,
                thick_line_region(gx0, gy0, gx1, gy1, glw),
                c,
            ),
        decreases (dx - a) + (dy - b),
    {
        let ghost square = rect_region(x - half, y - half, x + half, y + half);
        assert(line_point(gx0, gy0, gx1, gy1, k) == (x as int, y as int));
        if half >= 0 {
            fill_rect(
                buf,
                w,
                h,
                (x - half) as i32,
                (y - half) as i32,
                (x + half) as i32,
                (y + half) as i32,
                c,
            );
            proof {
                lemma_paint_twice(
                    orig,
                    w as int,
                    h as int,
                    drawn_squares(gx0, gy0, gx1, gy1, glw, k),
                    square,
                    c,
                );
            }
        } else {
            assert(square =~= Set::empty());
        }
        proof {
            let before = drawn_squares(gx0, gy0, gx1, gy1, glw, k);
            let after = drawn_squares(gx0, gy0, gx1, gy1, glw, k + 1);
            assert forall|p: (int, int)| #[trigger] after.contains(p) <==> before.union(square).contains(p) by {
                if after.contains(p) {
                    let j = choose|j: nat| j < k + 1 && #[trigger] near_point(gx0, gy0, gx1, gy1, glw, j, p);
                    if j < k {
                        assert(before.contains(p));
                    }
                }
                if square.contains(p) {
                    assert(near_point(gx0, gy0, gx1, gy1, glw, k, p));
                }
                if before.contains(p) {
                    let j = choose|j: nat| j < k && #[trigger] near_point(gx0, gy0, gx1, gy1, glw, j, p);
                    assert(near_point(gx0, gy0, gx1, gy1, glw, j, p));
                }
            }
            assert(after =~= before.union(square));
            if half < 0 {
                assert(before.union(square) =~= before);
            }
        }
        if x == x1 as i64 && y == y1 as i64 {
            proof {
                assert(line_done(dx as int, dy as int, k));
                let reached = drawn_squares(gx0, gy0, gx1, gy1, glw, k + 1);
                let region = thick_line_region(gx0, gy0, gx1, gy1, glw);
                assert forall|p: (int, int)| #[trigger] reached.contains(p) <==> region.contains(p) by {
                    if reached.contains(p) {
                        let j = choose|j: nat| j < k + 1 && #[trigger] near_point(gx0, gy0, gx1, gy1, glw, j, p);
                        assert(line_reaches(dx as int, dy as int, j));
                    }
                    if region.contains(p) {
                        let j = choose|j: nat| line_reaches(dx as int, dy as int, j) && #[trigger] near_point(gx0, gy0, gx1, gy1, glw, j, p);
                        if j > k {
                            assert(!line_done(dx as int, dy as int, k));
                        }
                        assert(near_point(gx0, gy0, gx1, gy1, glw, j, p));
                    }
                }
                assert(reached =~= region);
            }
            break;
        }
        proof {
            assert(!(a == dx && b == dy));
            lemma_line_step(dx as int, dy as int, a, b, err as int);
            lemma_line_error_bound(dx as int, dy as int, a, b, err as int);
        }
        let e2: i128 = 2 * err;
        if e2 > -(dy as i128) {
            err = err - dy as i128;
            x = x + sx;
            proof {
                a = a + 1;
            }
        }
        if e2 < dx as i128 {
            err = err + dx as i128;
            y = y + sy;
            proof {
                b = b + 1;
            }
        }
        proof {
            assert(line_state(dx as int, dy as int, k + 1) == (a, b, err as int));
            assert forall|j: nat| j < k + 1 implies !#[trigger] line_done(dx as int, dy as int, j) by {
                if j < k {
                    assert(!line_done(dx as int, dy as int, j));
                }
            }
            k = k + 1;
        }
    }
}

/// From any state it reaches, the walk goes on to stand on the far end.
proof fn lemma_walk_ends(dx: int, dy: int, k: nat)
    requires
        line_reaches(dx, dy, k),
        0 <= line_state(dx, dy, k).0 <= dx,
        0 <= line_state(dx, dy, k).1 <= dy,
        line_state(dx, dy, k).2 == dx * (1 + line_state(dx, dy, k).1) - dy * (1
            + line_state(dx, dy, k).0),
    ensures
        exists|m: nat| k <= m && line_reaches(dx, dy, m) && #[trigger] line_done(dx, dy, m),
    decreases (dx - line_state(dx, dy, k).0) + (dy - line_state(dx, dy, k).1),
{
    let s = line_state(dx, dy, k);
    if line_done(dx, dy, k) {
        assert(k <= k && line_reaches(dx, dy, k) && line_done(dx, dy, k));
    } else {
        lemma_line_step(dx, dy, s.0, s.1, s.2);
        assert(line_state(dx, dy, k + 1) == line_step(dx, dy, s));
        assert forall|j: nat| j < k + 1 implies !#[trigger] line_done(dx, dy, j) by {
            if j < k {
                assert(!line_done(dx, dy, j));
            }
        }
        lemma_walk_ends(dx, dy, k + 1);
    }
}

/// A line drawn with a non-negative stroke width covers both of its end points.
pub proof fn law_line_covers_endpoints(x0: int, y0: int, x1: int, y1: int, lw: int)
    requires
        lw >= 0,
    ensures
        thick_line_region(x0, y0, x1, y1, lw).contains((x0, y0)),
        thick_line_region(x0, y0, x1, y1, lw).contains((x1, y1)),
{
    let dx = abs(x1 - x0);
    let dy = abs(y1 - y0);
    assert(lw / 2 >= 0);
    assert(line_reaches(dx, dy, 0));
    assert(near_point(x0, y0, x1, y1, lw, 0, (x0, y0)));
    lemma_walk_ends(dx, dy, 0);
    let m = choose|m: nat| 0 <= m && line_reaches(dx, dy, m) && #[trigger] line_done(dx, dy, m);
    let s = line_state(dx, dy, m);
    assert(s.0 == dx && s.1 == dy);
    assert(x0 + step_sign(x0, x1) * dx == x1);
    assert(y0 + step_sign(y0, y1) * dy == y1);
    assert(line_point(x0, y0, x1, y1, m) == (x1, y1));
    assert(near_point(x0, y0, x1, y1, lw, m, (x1, y1)));
}

/// Every state the walk reaches lies between the two ends, with the error
/// term in step with the position.
proof fn lemma_reached_state(dx: int, dy: int, k: nat)
    requires
        0 <= dx,
        0 <= dy,
        line_reaches(dx, dy, k),
    ensures
        0 <= line_state(dx, dy, k).0 <= dx,
        0 <= line_state(dx, dy, k).1 <= dy,
        line_state(dx, dy, k).2 == dx * (1 + line_state(dx, dy, k).1) - dy * (1
            + line_state(dx, dy, k).0),
    decreases k,
{
    if k > 0 {
        let j = (k - 1) as nat;
        assert(line_reaches(dx, dy, j));
        lemma_reached_state(dx, dy, j);
        assert(!line_done(dx, dy, j));
        let s = line_state(dx, dy, j);
        lemma_line_step(dx, dy, s.0, s.1, s.2);
    }
}

/// A drawn line has no gaps: each step of the walk moves to one of the eight
/// neighbouring pixels.
pub proof fn law_line_steps_adjacent(x0: int, y0: int, x1: int, y1: int, k: nat)
    requires
        line_reaches(abs(x1 - x0), abs(y1 - y0), k + 1),
    ensures
        ({
            let p = line_point(x0, y0, x1, y1, k);
            let q = line_point(x0, y0, x1, y1, k + 1);
            &&& abs(q.0 - p.0) <= 1
            &&& abs(q.1 - p.1) <= 1
            &&& p != q
        }),
{
    let dx = abs(x1 - x0);
    let dy = abs(y1 - y0);
    assert(line_reaches(dx, dy, k));
    lemma_reached_state(dx, dy, k);
    assert(!line_done(dx, dy, k));
    let s = line_state(dx, dy, k);
    lemma_line_step(dx, dy, s.0, s.1, s.2);
    let t = line_state(dx, dy, k + 1);
    assert(t == line_step(dx, dy, s));
    let sx = step_sign(x0, x1);
    let sy = step_sign(y0, y1);
    assert(sx == 1 || sx == -1);
    assert(sy == 1 || sy == -1);
    let p = line_point(x0, y0, x1, y1, k);
    let q = line_point(x0, y0, x1, y1, k + 1);
    assert(p == (x0 + sx * s.0, y0 + sy * s.1));
    assert(q == (x0 + sx * t.0, y0 + sy * t.1));
    assert(abs(q.0 - p.0) <= 1 && abs(q.1 - p.1) <= 1 && (q.0 != p.0 || q.1 != p.1)) by (nonlinear_arith)
        requires
            sx == 1 || sx == -1,
            sy == 1 || sy == -1,
            q.0 - p.0 == sx * t.0 - sx * s.0,
            q.1 - p.1 == sy * t.1 - sy * s.1,
            s.0 <= t.0 <= s.0 + 1,
            s.1 <= t.1 <= s.1 + 1,
            t.0 + t.1 > s.0 + s.1,
    ;
}

/// The pixels of `lw` nested one-pixel outlines, the `t`-th inset by `t`
/// from the rectangle with corners `(x0, y0)` and `(x1, y1)`.
pub open spec fn thick_outline_region(x0: int, y0: int, x1: int, y1: int, lw: int) -> Set<(int, int)> {
    Set::new(
        |p: (int, int)|
            exists|t: int| 0 <= t < lw && #[trigger] outline_region(x0 + t, y0 + t, x1 - t, y1 - t).contains(p),
    )
}

/// Draws the outline of the rectangle with corners `(x0, y0)` and
/// `(x1, y1)` with stroke width `lw`: `lw` one-pixel outlines, each inset by
/// one more pixel than the one before.
pub fn draw_thick_outline(
    buf: &mut [u8],
    w: usize,
    h: usize,
    x0: i32,
    y0: i32,
    x1: i32,
    y1: i32,
    lw: i32,
    c: Rgb,
)
    requires
        old(buf)@.len() >= w * h * 4,
        lw > 0 ==> x0 + lw - 1 <= i32::MAX && y0 + lw - 1 <= i32::MAX,
        lw > 0 ==> x1 - (lw - 1) >= i32::MIN && y1 - (lw - 1) >= i32::MIN,
    ensures
        final(buf)@ == painted(
            old(buf)@,
            w as int,
            h as int,
            thick_outline_region(x0 as int, y0 as int, x1 as int, y1 as int, lw as int),
            c,
        ),
{
    let ghost orig = buf@;
    let ghost (gx0, gy0, gx1, gy1) = (x0 as int, y0 as int, x1 as int, y1 as int);
    let mut t: i32 = 0;
    proof {
        assert(thick_outline_region(gx0, gy0, gx1, gy1, 0) =~= Set::<(int, int)>::empty());
        assert(orig =~= painted(orig, w as int, h as int, Set::empty(), c));
    }
    while t < lw
        invariant
            orig.len() >= w * h * 4,
            gx0 == x0,
            gy0 == y0,
            gx1 == x1,
            gy1 == y1,
            0 <= t,
            t <= lw || t == 0,
            lw > 0 ==> x0 + lw - 1 <= i32::MAX && y0 + lw - 1 <= i32::MAX,
            lw > 0 ==> x1 - (lw - 1) >= i32::MIN && y1 - (lw - 1) >= i32::MIN,
            buf@ == painted(orig, w as int, h as int, thick_outline_region(gx0, gy0, gx1, gy1, t as int), c),
        decreases lw - t,
    {
        let ghost before = thick_outline_region(gx0, gy0, gx1, gy1, t as int);
        let ghost ring = outline_region(gx0 + t, gy0 + t, gx1 - t, gy1 - t);
        draw_rect_outline(buf, w, h, x0 + t, y0 + t, x1 - t, y1 - t, c);
        proof {
            lemma_paint_twice(orig, w as int, h as int, before, ring, c);
            let after = thick_outline_region(gx0, gy0, gx1, gy1, t + 1);
            assert forall|p: (int, int)| #[trigger] after.contains(p) <==> before.union(ring).contains(p) by {
                if after.contains(p) {
                    let u = choose|u: int| 0 <= u < t + 1 && #[trigger] outline_region(gx0 + u, gy0 + u, gx1 - u, gy1 - u).contains(p);
                    if u < t {
                        assert(before.contains(p));
                    }
                }
                if before.contains(p) {
                    let u = choose|u: int| 0 <= u < t && #[trigger] outline_region(gx0 + u, gy0 + u, gx1 - u, gy1 - u).contains(p);
                    assert(outline_region(gx0 + u, gy0 + u, gx1 - u, gy1 - u).contains(p));
                }
                if ring.contains(p) {
                    assert(outline_region(gx0 + t, gy0 + t, gx1 - t, gy1 - t).contains(p));
                }
            }
            assert(after =~= before.union(ring));
        }
        t = t + 1;
    }
    proof {
        if lw <= 0 {
            assert(thick_outline_region(gx0, gy0, gx1, gy1, lw as int) =~= thick_outline_region(gx0, gy0, gx1, gy1, 0));
        }
    }
}

} // verus!
