use vstd::prelude::*;
use vstd::arithmetic::div_mod::lemma_fundamental_div_mod_converse;
use crate::gradient::Rgb8;

verus! {

/// A colored pixel at `(x, y)`.
#[derive(Clone, Copy, Debug, PartialEq, Eq, Structural)]
pub struct Pixel {
    pub x: u32,
    pub y: u32,
    pub color: Rgb8,
}

/// A `width` x `height` grid of RGB bytes, row by row, three bytes a pixel.
#[derive(Debug)]
pub struct PixelBuffer {
    pub width: u32,
    pub height: u32,
    pub data: Vec<u8>,
}

pub open spec fn black() -> Rgb8 {
    Rgb8 { red: 0, green: 0, blue: 0 }
}

/// Offset of the first byte of pixel `(x, y)`.
pub open spec fn byte_offset(width: int, x: int, y: int) -> int {
    (y * width + x) * 3
}

/// The color that a sequence of writes leaves at `(x, y)`: the last pixel
/// written there, or black where none was.
pub open spec fn cell_spec(pixels: Seq<Pixel>, x: int, y: int) -> Rgb8
    decreases pixels.len(),
{
    if pixels.len() == 0 {
        black()
    } else {
        let p = pixels.last();
        if p.x == x && p.y == y {
            p.color
        } else {
            cell_spec(pixels.drop_last(), x, y)
        }
    }
}

/// No two pixels share a position.
pub open spec fn distinct_positions(pixels: Seq<Pixel>) -> bool {
    forall|i: int, j: int|
        0 <= i < pixels.len() && 0 <= j < pixels.len() && i != j ==> (#[trigger] pixels[i].x
            != #[trigger] pixels[j].x || pixels[i].y != pixels[j].y)
}

pub open spec fn in_bounds(pixels: Seq<Pixel>, width: int, height: int) -> bool {
    forall|i: int| 0 <= i < pixels.len() ==> #[trigger] pixels[i].x < width && pixels[i].y < height
}

proof fn lemma_offsets_apart(width: int, height: int, x: int, y: int, x2: int, y2: int)
    requires
        0 <= x < width,
        0 <= y < height,
        0 <= x2 < width,
        0 <= y2 < height,
        x != x2 || y != y2,
    ensures
        byte_offset(width, x, y) + 3 <= byte_offset(width, x2, y2) || byte_offset(width, x2, y2)
            + 3 <= byte_offset(width, x, y),
        0 <= byte_offset(width, x, y),
        byte_offset(width, x, y) + 3 <= width * height * 3,
{
    lemma_cell_in_range(width, height, x, y);
    if y * width + x == y2 * width + x2 {
        lemma_fundamental_div_mod_converse(y * width + x, width, y, x);
        lemma_fundamental_div_mod_converse(y2 * width + x2, width, y2, x2);
    }
}

proof fn lemma_cell_in_range(width: int, height: int, x: int, y: int)
    requires
        0 <= x < width,
        0 <= y < height,
    ensures
        0 <= y * width + x < width * height,
{
    assert(0 <= y * width + x < width * height) by (nonlinear_arith)
        requires
            0 <= x < width,
            0 <= y < height,
    ;
}

impl PixelBuffer {
    pub open spec fn wf(&self) -> bool {
        self.data@.len() == self.width * self.height * 3
    }

    /// The color stored at `(x, y)`.
    pub open spec fn color_at(&self, x: int, y: int) -> Rgb8 {
        let o = byte_offset(self.width as int, x, y);
        Rgb8 { red: self.data@[o], green: self.data@[o + 1], blue: self.data@[o + 2] }
    }

    /// An all-black buffer.
    pub fn new(width: u32, height: u32) -> (r: PixelBuffer)
        requires
            width * height * 3 <= usize::MAX,
        ensures
            r.wf(),
            r.width == width,
            r.height == height,
            forall|i: int| 0 <= i < r.data@.len() ==> r.data@[i] == 0,
    {
        let n = width as usize * height as usize * 3;
        let mut data: Vec<u8> = Vec::with_capacity(n);
        let mut i: usize = 0;
        while i < n
            invariant
                i <= n,
                data@.len() == i,
                forall|k: int| 0 <= k < i ==> data@[k] == 0,
            decreases n - i,
        {
            data.push(0);
            i = i + 1;
        }
        PixelBuffer { width, height, data }
    }

    /// The color at `(x, y)`.
    pub fn pixel(&self, x: u32, y: u32) -> (r: Rgb8)
        requires
            self.wf(),
            x < self.width,
            y < self.height,
        ensures
            r == self.color_at(x as int, y as int),
    {
        proof {
            lemma_cell_in_range(self.width as int, self.height as int, x as int, y as int);
            assert(0 <= y * self.width <= y * self.width + x) by (nonlinear_arith)
                requires
                    0 <= x,
                    0 <= y,
                    0 <= self.width,
            ;
        }
        let n = self.data.len();
        let o = (y as usize * self.width as usize + x as usize) * 3;
        Rgb8 { red: self.data[o], green: self.data[o + 1], blue: self.data[o + 2] }
    }

    /// Writes `color` at `(x, y)`; every other pixel keeps its color.
    pub fn put_pixel(&mut self, x: u32, y: u32, color: Rgb8)
        requires
            old(self).wf(),
            x < old(self).width,
            y < old(self).height,
        ensures
            final(self).wf(),
            final(self).width == old(self).width,
            final(self).height == old(self).height,
            final(self).color_at(x as int, y as int) == color,
            forall|x2: int, y2: int|
                0 <= x2 < old(self).width && 0 <= y2 < old(self).height && (x2 != x || y2 != y)
                    ==> #[trigger] final(self).color_at(x2, y2) == old(self).color_at(x2, y2),
    {
        proof {
            lemma_cell_in_range(self.width as int, self.height as int, x as int, y as int);
            assert(0 <= y * self.width <= y * self.width + x) by (nonlinear_arith)
                requires
                    0 <= x,
                    0 <= y,
                    0 <= self.width,
            ;
        }
        let n = self.data.len();
        let o = (y as usize * self.width as usize + x as usize) * 3;
        self.data.set(o, color.red);
        self.data.set(o + 1, color.green);
        self.data.set(o + 2, color.blue);
        proof {
            assert(o as int == byte_offset(self.width as int, x as int, y as int));
            assert forall|x2: int, y2: int|
                0 <= x2 < old(self).width && 0 <= y2 < old(self).height && (x2 != x || y2 != y)
                    implies #[trigger] self.color_at(x2, y2) == old(self).color_at(x2, y2) by {
                lemma_offsets_apart(
                    self.width as int,
                    self.height as int,
                    x as int,
                    y as int,
                    x2,
                    y2,
                );
                lemma_cell_in_range(self.width as int, self.height as int, x2, y2);
                let o2 = byte_offset(self.width as int, x2, y2);
                assert(self.data@[o2] == old(self).data@[o2]);
                assert(self.data@[o2 + 1] == old(self).data@[o2 + 1]);
                assert(self.data@[o2 + 2] == old(self).data@[o2 + 2]);
            }
        }
    }
}

/// Writes every pixel of `pixels` into a black `width` x `height` buffer, in
/// order.
pub fn assemble(width: u32, height: u32, pixels: &Vec<Pixel>) -> (r: PixelBuffer)
    requires
        width * height * 3 <= usize::MAX,
        in_bounds(pixels@, width as int, height as int),
    ensures
        r.wf(),
        r.width == width,
        r.height == height,
        forall|x: int, y: int|
            0 <= x < width && 0 <= y < height ==> #[trigger] r.color_at(x, y) == cell_spec(
                pixels@,
                x,
                y,
            ),
{
    let mut buf = PixelBuffer::new(width, height);
    proof {
        assert forall|x: int, y: int| 0 <= x < width && 0 <= y < height implies #[trigger] buf.color_at(
            x,
            y,
        ) == cell_spec(pixels@.take(0), x, y) by {
            lemma_cell_in_range(width as int, height as int, x, y);
        }
    }
    let mut i: usize = 0;
    while i < pixels.len()
        invariant
            buf.wf(),
            buf.width == width,
            buf.height == height,
            i <= pixels@.len(),
            in_bounds(pixels@, width as int, height as int),
            forall|x: int, y: int|
                0 <= x < width && 0 <= y < height ==> #[trigger] buf.color_at(x, y) == cell_spec(
                    pixels@.take(i as int),
                    x,
                    y,
                ),
        decreases pixels@.len() - i,
    {
        let p = pixels[i];
        buf.put_pixel(p.x, p.y, p.color);
        proof {
            let s = pixels@.take(i + 1);
            assert(s.drop_last() == pixels@.take(i as int));
            assert(s.last() == p);
        }
        i = i + 1;
    }
    proof {
        assert(pixels@.take(pixels@.len() as int) == pixels@);
    }
    buf
}

/// Every position `(x, y)` with `x < width` and `y < height`, column by
/// column: position `(x, y)` stands at index `x * height + y`.
pub fn pixel_grid(width: u32, height: u32) -> (r: Vec<(u32, u32)>)
    requires
        width * height <= usize::MAX,
    ensures
        r@.len() == width * height,
        forall|k: int|
            0 <= k < r@.len() ==> #[trigger] r@[k] == ((k / height as int) as u32, (k
                % height as int) as u32),
{
    let mut r: Vec<(u32, u32)> = Vec::new();
    let mut x: u32 = 0;
    while x < width
        invariant
            x <= width,
            width * height <= usize::MAX,
            r@.len() == x * height,
            forall|k: int|
                0 <= k < r@.len() ==> #[trigger] r@[k] == ((k / height as int) as u32, (k
                    % height as int) as u32),
        decreases width - x,
    {
        let mut y: u32 = 0;
        while y < height
            invariant
                x < width,
                y <= height,
                width * height <= usize::MAX,
                r@.len() == x * height + y,
                forall|k: int|
                    0 <= k < r@.len() ==> #[trigger] r@[k] == ((k / height as int) as u32, (k
                        % height as int) as u32),
            decreases height - y,
        {
            proof {
                lemma_fundamental_div_mod_converse(
                    x * height + y,
                    height as int,
                    x as int,
                    y as int,
                );
                assert(x * height + y < width * height) by (nonlinear_arith)
                    requires
                        x < width,
                        y < height,
                ;
            }
            r.push((x, y));
            y = y + 1;
        }
        proof {
            assert(x * height + height == (x + 1) * height) by (nonlinear_arith);
        }
        x = x + 1;
    }
    r
}

proof fn lemma_cell_of_member(pixels: Seq<Pixel>, k: int)
    requires
        distinct_positions(pixels),
        0 <= k < pixels.len(),
    ensures
        cell_spec(pixels, pixels[k].x as int, pixels[k].y as int) == pixels[k].color,
    decreases pixels.len(),
{
    let last = pixels.len() - 1;
    if k != last {
        assert(pixels[k].x != pixels[last].x || pixels[k].y != pixels[last].y);
        let rest = pixels.drop_last();
        assert(rest[k] == pixels[k]);
        assert forall|i: int, j: int|
            0 <= i < rest.len() && 0 <= j < rest.len() && i != j implies (#[trigger] rest[i].x
                != #[trigger] rest[j].x || rest[i].y != rest[j].y) by {
            assert(rest[i] == pixels[i] && rest[j] == pixels[j]);
        }
        lemma_cell_of_member(rest, k);
    }
}

proof fn lemma_cell_of_absent(pixels: Seq<Pixel>, x: int, y: int)
    requires
        forall|i: int| 0 <= i < pixels.len() ==> (#[trigger] pixels[i].x != x || pixels[i].y != y),
    ensures
        cell_spec(pixels, x, y) == black(),
    decreases pixels.len(),
{
    if pixels.len() > 0 {
        let rest = pixels.drop_last();
        assert(pixels.last() == pixels[pixels.len() - 1]);
        assert forall|i: int| 0 <= i < rest.len() implies (#[trigger] rest[i].x != x || rest[i].y
            != y) by {
            assert(rest[i] == pixels[i]);
        }
        lemma_cell_of_absent(rest, x, y);
    }
}

/// The assembled raster depends only on which pixels are written, not on the
/// order they arrive in: two lists of the same pixels, each with at most one
/// pixel per position, leave the same color everywhere.
pub proof fn lemma_assembly_order_independent(a: Seq<Pixel>, b: Seq<Pixel>, x: int, y: int)
    requires
        distinct_positions(a),
        distinct_positions(b),
        forall|p: Pixel| a.contains(p) <==> b.contains(p),
    ensures
        cell_spec(a, x, y) == cell_spec(b, x, y),
{
    if exists|i: int| 0 <= i < a.len() && a[i].x == x && a[i].y == y {
        let i = choose|i: int| 0 <= i < a.len() && a[i].x == x && a[i].y == y;
        assert(a.contains(a[i]));
        assert(b.contains(a[i]));
        let j = choose|j: int| 0 <= j < b.len() && b[j] == a[i];
        lemma_cell_of_member(a, i);
        lemma_cell_of_member(b, j);
    } else {
        assert forall|j: int| 0 <= j < b.len() implies (#[trigger] b[j].x != x || b[j].y != y) by {
            if b[j].x == x && b[j].y == y {
                assert(b.contains(b[j]));
                assert(a.contains(b[j]));
            }
        }
        assert forall|i: int| 0 <= i < a.len() implies (#[trigger] a[i].x != x || a[i].y != y) by {
        }
        lemma_cell_of_absent(a, x, y);
        lemma_cell_of_absent(b, x, y);
    }
}

} // verus!
