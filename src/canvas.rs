use vstd::prelude::*;

verus! {

/// An opaque RGB color, eight bits per channel.
#[derive(Clone, Copy, Debug, PartialEq, Eq, Structural)]
pub struct Color {
    pub r: u8,
    pub g: u8,
    pub b: u8,
}

impl Color {
    pub fn rgb(r: u8, g: u8, b: u8) -> (c: Color)
        ensures
            c == (Color { r, g, b }),
    {
        Color { r, g, b }
    }

    /// Solid black, the color of a fresh canvas.
    pub fn black() -> (c: Color)
        ensures
            c == (Color { r: 0, g: 0, b: 0 }),
    {
        Color { r: 0, g: 0, b: 0 }
    }

    /// Solid blue: the fill of any cell that a transform of the grid does
    /// not write. `Image::shift` is a permutation and writes every cell.
    pub fn blue() -> (c: Color)
        ensures
            c == (Color { r: 0, g: 0, b: 255 }),
    {
        Color { r: 0, g: 0, b: 255 }
    }

    /// The neutral gray of baseline markers.
    pub fn gray() -> (c: Color)
        ensures
            c == (Color { r: 160, g: 160, b: 160 }),
    {
        Color { r: 160, g: 160, b: 160 }
    }
}

/// Channel `v` scaled by `num / den`, rounded toward zero.
pub open spec fn fade_channel(v: u8, num: u8, den: u8) -> u8 {
    (v as int * num as int / den as int) as u8
}

pub open spec fn fade_color(c: Color, num: u8, den: u8) -> Color {
    Color {
        r: fade_channel(c.r, num, den),
        g: fade_channel(c.g, num, den),
        b: fade_channel(c.b, num, den),
    }
}

pub open spec fn faded(p: Seq<Color>, num: u8, den: u8) -> Seq<Color> {
    p.map_values(|c: Color| fade_color(c, num, den))
}

/// The pixel sequence with cell `(x, y)` set to `c`, or unchanged where the
/// cell lies outside the `w` by `h` grid.
pub open spec fn put(p: Seq<Color>, w: int, h: int, x: int, y: int, c: Color) -> Seq<Color> {
    if 0 <= x < w && 0 <= y < h {
        p.update(y * w + x, c)
    } else {
        p
    }
}

/// Where the pixel that lands on cell `i` comes from when a `w` by `h` grid
/// is shifted by `(dx, dy)` with wrap-around (`%` is Euclidean here).
pub open spec fn shift_source(i: int, w: int, h: int, dx: int, dy: int) -> int {
    ((i / w - dy) % h) * w + (i % w - dx) % w
}

/// Every pixel at `(x, y)` moved to `((x + dx) mod w, (y + dy) mod h)`.
pub open spec fn shifted(p: Seq<Color>, w: int, h: int, dx: int, dy: int) -> Seq<Color> {
    Seq::new(p.len(), |i: int| p[shift_source(i, w, h, dx, dy)])
}

/// A fixed-size grid of pixels stored row-major.
pub struct Image {
    pub width: usize,
    pub height: usize,
    pub pixels: Vec<Color>,
}

impl Image {
    pub open spec fn wf(&self) -> bool {
        &&& self.pixels@.len() == self.width * self.height
        &&& self.width * self.height <= usize::MAX
    }

    pub open spec fn view(&self) -> Seq<Color> {
        self.pixels@
    }

    /// A `width` by `height` canvas with every pixel `fill`.
    pub fn new(width: usize, height: usize, fill: Color) -> (c: Image)
        requires
            width * height <= usize::MAX,
        ensures
            c.wf(),
            c.width == width,
            c.height == height,
            c@ == Seq::new((width * height) as nat, |i: int| fill),
    {
        let n: usize = width * height;
        let mut pixels: Vec<Color> = Vec::new();
        let mut i: usize = 0;
        while i < n
            invariant
                i <= n,
                pixels@ == Seq::new(i as nat, |k: int| fill),
            decreases n - i,
        {
            pixels.push(fill);
            i = i + 1;
            assert(pixels@ =~= Seq::new(i as nat, |k: int| fill));
        }
        Image { width, height, pixels }
    }

    /// The color at `(x, y)`; `None` outside the grid.
    pub fn get_pixel(&self, x: usize, y: usize) -> (r: Option<Color>)
        requires
            self.wf(),
        ensures
            x < self.width && y < self.height ==> r == Some(self@[y * self.width + x]),
            !(x < self.width && y < self.height) ==> r is None,
    {
        if x < self.width && y < self.height {
            proof {
                lemma_cell_in_grid(x as int, y as int, self.width as int, self.height as int);
            }
            Some(self.pixels[y * self.width + x])
        } else {
            None
        }
    }

    /// Sets `(x, y)` to `c`; a cell outside the grid is silently ignored.
    pub fn set_pixel(&mut self, x: usize, y: usize, c: Color)
        requires
            old(self).wf(),
        ensures
            final(self).wf(),
            final(self).width == old(self).width,
            final(self).height == old(self).height,
            final(self)@ == put(
                old(self)@,
                old(self).width as int,
                old(self).height as int,
                x as int,
                y as int,
                c,
            ),
    {
        if x < self.width && y < self.height {
            proof {
                lemma_cell_in_grid(x as int, y as int, self.width as int, self.height as int);
            }
            let i = y * self.width + x;
            self.pixels.set(i, c);
        }
    }

    /// Multiplies every channel of every pixel by `num / den`, rounding
    /// toward zero.
    pub fn decay(&mut self, num: u8, den: u8)
        requires
            old(self).wf(),
            0 < num < den,
        ensures
            final(self).wf(),
            final(self).width == old(self).width,
            final(self).height == old(self).height,
            final(self)@ == faded(old(self)@, num, den),
    {
        let n = self.pixels.len();
        let mut i: usize = 0;
        while i < n
            invariant
                self.wf(),
                self.width == old(self).width,
                self.height == old(self).height,
                n == self.pixels@.len(),
                0 < num < den,
                i <= n,
                forall|k: int| 0 <= k < i ==> self.pixels@[k] == fade_color(old(self)@[k], num, den),
                forall|k: int| i <= k < n ==> self.pixels@[k] == old(self)@[k],
            decreases n - i,
        {
            let c = self.pixels[i];
            let f = Color {
                r: fade_u8(c.r, num, den),
                g: fade_u8(c.g, num, den),
                b: fade_u8(c.b, num, den),
            };
            self.pixels.set(i, f);
            i = i + 1;
        }
        assert(self.pixels@ =~= faded(old(self)@, num, den));
    }

    /// Moves every pixel at `(x, y)` to `((x + dx) mod width, (y + dy) mod
    /// height)`; negative offsets wrap around. Every cell is written, so no
    /// cell keeps the fill color `Color::blue()`.
    pub fn shift(&mut self, dx: i32, dy: i32)
        requires
            old(self).wf(),
        ensures
            final(self).wf(),
            final(self).width == old(self).width,
            final(self).height == old(self).height,
            final(self)@ == shifted(
                old(self)@,
                old(self).width as int,
                old(self).height as int,
                dx as int,
                dy as int,
            ),
    {
        let w = self.width;
        let h = self.height;
        if w == 0 || h == 0 {
            assert(self.pixels@ =~= shifted(self.pixels@, w as int, h as int, dx as int, dy as int));
            return;
        }
        let sx = wrap_offset(dx, w);
        let sy = wrap_offset(dy, h);
        let n = self.pixels.len();
        let mut out: Vec<Color> = Vec::new();
        let mut y: usize = 0;
        while y < h
            invariant
                self.wf(),
                n == self.pixels@.len(),
                w == self.width,
                h == self.height,
                w > 0,
                h > 0,
                sx < w,
                sy < h,
                sx as int == (-(dx as int)) % (w as int),
                sy as int == (-(dy as int)) % (h as int),
                y <= h,
                out@.len() == y * w,
                forall|i: int|
                    0 <= i < out@.len() ==> out@[i] == self.pixels@[shift_source(
                        i,
                        w as int,
                        h as int,
                        dx as int,
                        dy as int,
                    )],
            decreases h - y,
        {
            let src_y = wrap_add(y, sy, h);
            let mut x: usize = 0;
            while x < w
                invariant
                    self.wf(),
                    n == self.pixels@.len(),
                    w == self.width,
                    h == self.height,
                    w > 0,
                    h > 0,
                    sx < w,
                    sy < h,
                    sx as int == (-(dx as int)) % (w as int),
                    sy as int == (-(dy as int)) % (h as int),
                    y < h,
                    x <= w,
                    src_y as int == (y + sy) % (h as int),
                    out@.len() == y * w + x,
                    forall|i: int|
                        0 <= i < out@.len() ==> out@[i] == self.pixels@[shift_source(
                            i,
                            w as int,
                            h as int,
                            dx as int,
                            dy as int,
                        )],
                decreases w - x,
            {
                let src_x = wrap_add(x, sx, w);
                proof {
                    lemma_cell_in_grid(src_x as int, src_y as int, w as int, h as int);
                    lemma_shift_source_at(
                        x as int,
                        y as int,
                        w as int,
                        h as int,
                        dx as int,
                        dy as int,
                        sx as int,
                        sy as int,
                    );
                }
                let c = self.pixels[src_y * w + src_x];
                out.push(c);
                x = x + 1;
            }
            proof {
                lemma_cell_in_grid(0, y as int, w as int, h as int);
                assert((y + 1) * w == y * w + w) by (nonlinear_arith);
            }
            y = y + 1;
        }
        proof {
            assert(h * w == w * h) by (nonlinear_arith);
            assert(out@ =~= shifted(self.pixels@, w as int, h as int, dx as int, dy as int));
        }
        self.pixels = out;
    }
}

fn fade_u8(v: u8, num: u8, den: u8) -> (r: u8)
    requires
        0 < num < den,
    ensures
        r == fade_channel(v, num, den),
{
    let vv: u32 = v as u32;
    let nn: u32 = num as u32;
    assert(vv * nn <= 255 * 255) by (nonlinear_arith)
        requires
            vv <= 255,
            nn <= 255,
    ;
    let p: u32 = vv * nn;
    proof {
        assert(p / (den as u32) <= p) by (nonlinear_arith)
            requires
                den > 0,
                p >= 0,
        ;
        assert(v as int * num as int / den as int <= v as int) by (nonlinear_arith)
            requires
                num < den,
                den > 0,
                v >= 0,
        ;
    }
    (p / den as u32) as u8
}

/// `-d` reduced into `[0, n)`: the offset to read from for a shift by `d`.
fn wrap_offset(d: i32, n: usize) -> (r: usize)
    requires
        n > 0,
    ensures
        r < n,
        r as int == (-(d as int)) % (n as int),
{
    let m: i64 = -(d as i64);
    if m >= 0 {
        let r = (m as u64 % n as u64) as usize;
        r
    } else {
        let k = ((-m) as u64 % n as u64) as usize;
        proof {
            lemma_neg_mod(-(m as int), n as int);
        }
        if k == 0 {
            0
        } else {
            n - k
        }
    }
}

/// `(a + b) mod n` for `a, b < n`, without overflow.
fn wrap_add(a: usize, b: usize, n: usize) -> (r: usize)
    requires
        a < n,
        b < n,
    ensures
        r < n,
        r as int == (a + b) % (n as int),
{
    if a >= n - b {
        proof {
            vstd::arithmetic::div_mod::lemma_mod_sub_multiples_vanish((a + b) as int, n as int);
            vstd::arithmetic::div_mod::lemma_small_mod((a + b - n) as nat, n as nat);
        }
        a - (n - b)
    } else {
        proof {
            vstd::arithmetic::div_mod::lemma_small_mod((a + b) as nat, n as nat);
        }
        a + b
    }
}

/// Setting a cell that lies outside the grid leaves every pixel as it was.
pub proof fn lemma_put_outside_is_noop(p: Seq<Color>, w: int, h: int, x: int, y: int, c: Color)
    requires
        x >= w || y >= h || x < 0 || y < 0,
    ensures
        put(p, w, h, x, y, c) == p,
{
}

/// Shifting by `(0, 0)` is the identity.
pub proof fn lemma_shift_zero_is_identity(p: Seq<Color>, w: int, h: int)
    requires
        w >= 0,
        h >= 0,
        p.len() == w * h,
    ensures
        shifted(p, w, h, 0, 0) == p,
{
    assert forall|i: int| 0 <= i < p.len() implies #[trigger] shift_source(i, w, h, 0, 0) == i by {
        lemma_grid_cell_of(i, w, h);
        vstd::arithmetic::div_mod::lemma_small_mod((i / w) as nat, h as nat);
        vstd::arithmetic::div_mod::lemma_small_mod((i % w) as nat, w as nat);
        vstd::arithmetic::div_mod::lemma_fundamental_div_mod(i, w);
        assert(i == (i / w) * w + i % w) by (nonlinear_arith)
            requires
                i == w * (i / w) + (i % w),
        ;
    }
    assert(shifted(p, w, h, 0, 0) =~= p);
}

/// Shifting by `(dx, dy)` and then by `(w - dx, h - dy)` restores the grid.
pub proof fn lemma_shift_periodic(p: Seq<Color>, w: int, h: int, dx: int, dy: int)
    requires
        w >= 0,
        h >= 0,
        p.len() == w * h,
    ensures
        shifted(shifted(p, w, h, dx, dy), w, h, w - dx, h - dy) == p,
{
    let q = shifted(p, w, h, dx, dy);
    assert forall|i: int| 0 <= i < p.len() implies #[trigger] shift_source(
        shift_source(i, w, h, w - dx, h - dy),
        w,
        h,
        dx,
        dy,
    ) == i by {
        lemma_grid_cell_of(i, w, h);
        let x = i % w;
        let y = i / w;
        let x1 = (x - (w - dx)) % w;
        let y1 = (y - (h - dy)) % h;
        vstd::arithmetic::div_mod::lemma_mod_bound(x - (w - dx), w);
        vstd::arithmetic::div_mod::lemma_mod_bound(y - (h - dy), h);
        lemma_cell_in_grid(x1, y1, w, h);
        lemma_wrap_back(x, dx, w);
        lemma_wrap_back(y, dy, h);
        vstd::arithmetic::div_mod::lemma_fundamental_div_mod(i, w);
        assert(i == y * w + x) by (nonlinear_arith)
            requires
                i == w * (i / w) + (i % w),
                y == i / w,
                x == i % w,
        ;
    }
    assert forall|i: int| 0 <= i < p.len() implies 0 <= #[trigger] shift_source(i, w, h, w - dx, h - dy) < p.len() by {
        lemma_grid_cell_of(i, w, h);
        vstd::arithmetic::div_mod::lemma_mod_bound(i % w - (w - dx), w);
        vstd::arithmetic::div_mod::lemma_mod_bound(i / w - (h - dy), h);
        lemma_cell_in_grid((i % w - (w - dx)) % w, (i / w - (h - dy)) % h, w, h);
    }
    assert(shifted(q, w, h, w - dx, h - dy) =~= p);
}

proof fn lemma_grid_cell_of(i: int, w: int, h: int)
    requires
        0 <= i < w * h,
        w >= 0,
        h >= 0,
    ensures
        w > 0,
        h > 0,
        0 <= i % w < w,
        0 <= i / w < h,
{
    if w == 0 {
        assert(w * h == 0);
    }
    vstd::arithmetic::div_mod::lemma_mod_pos_bound(i, w);
    vstd::arithmetic::div_mod::lemma_fundamental_div_mod(i, w);
    assert(0 <= i / w < h) by (nonlinear_arith)
        requires
            i == w * (i / w) + (i % w),
            0 <= i % w < w,
            0 <= i < w * h,
            w > 0,
    ;
}

proof fn lemma_wrap_back(a: int, d: int, m: int)
    requires
        0 <= a < m,
    ensures
        ((a - (m - d)) % m - d) % m == a,
{
    vstd::arithmetic::div_mod::lemma_add_mod_noop_right(-d, a - (m - d), m);
    assert(-d + (a - (m - d)) == -m + a);
    vstd::arithmetic::div_mod::lemma_mod_sub_multiples_vanish(a, m);
    vstd::arithmetic::div_mod::lemma_small_mod(a as nat, m as nat);
    assert((a - (m - d)) % m - d == -d + (a - (m - d)) % m);
}

proof fn lemma_neg_mod(k: int, n: int)
    requires
        k > 0,
        n > 0,
    ensures
        (k % n == 0) ==> (-k) % n == 0,
        (k % n != 0) ==> (-k) % n == n - k % n,
{
    vstd::arithmetic::div_mod::lemma_fundamental_div_mod(k, n);
    vstd::arithmetic::div_mod::lemma_mod_pos_bound(k, n);
    let q = k / n;
    let r = k % n;
    if r == 0 {
        vstd::arithmetic::div_mod::lemma_mod_multiples_basic(-q, n);
        assert(-k == (-q) * n) by (nonlinear_arith)
            requires
                k == n * q + r,
                r == 0,
        ;
    } else {
        assert(-k == (n - r) + (-q - 1) * n) by (nonlinear_arith)
            requires
                k == n * q + r,
        ;
        vstd::arithmetic::div_mod::lemma_mod_multiples_vanish(-q - 1, n - r, n);
        vstd::arithmetic::div_mod::lemma_small_mod((n - r) as nat, n as nat);
    }
}

proof fn lemma_cell_in_grid(x: int, y: int, w: int, h: int)
    requires
        0 <= x < w,
        0 <= y < h,
    ensures
        0 <= y * w + x < w * h,
        (y * w + x) / w == y,
        (y * w + x) % w == x,
{
    assert(y * w + x < w * h) by (nonlinear_arith)
        requires
            0 <= x < w,
            0 <= y < h,
    ;
    assert(0 <= y * w) by (nonlinear_arith)
        requires
            0 <= y,
            0 <= w,
    ;
    vstd::arithmetic::div_mod::lemma_fundamental_div_mod_converse(y * w + x, w, y, x);
}

proof fn lemma_shift_source_at(x: int, y: int, w: int, h: int, dx: int, dy: int, sx: int, sy: int)
    requires
        0 <= x < w,
        0 <= y < h,
        sx == (-dx) % w,
        sy == (-dy) % h,
    ensures
        shift_source(y * w + x, w, h, dx, dy) == ((y + sy) % h) * w + (x + sx) % w,
{
    lemma_cell_in_grid(x, y, w, h);
    vstd::arithmetic::div_mod::lemma_add_mod_noop_right(x, -dx, w);
    vstd::arithmetic::div_mod::lemma_add_mod_noop_right(y, -dy, h);
}

} // verus!
