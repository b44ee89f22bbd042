use vstd::prelude::*;
use crate::escape::IterationResult;
use crate::gradient::{Gradient, GradientMode, Rgb8, mode_wf, query_spec, sample_channel};
use crate::raster::{Pixel, PixelBuffer, assemble, cell_spec, in_bounds};

verus! {

/// The escape result computed for the pixel at `(x, y)`.
#[derive(Clone, Copy, Debug, PartialEq, Eq, Structural)]
pub struct PixelResult {
    pub x: u32,
    pub y: u32,
    pub result: IterationResult,
}

/// The color that `shade` gives an escape result, if any.
pub open spec fn shade_spec(g: &Gradient, result: IterationResult, take: u32, mode: GradientMode) -> Option<
    Rgb8,
> {
    if !result.escaped {
        None
    } else {
        let q = query_spec(
            result.count as int,
            take as int,
            mode,
            g.first_position(),
            g.last_position(),
        );
        Some(
            Rgb8 {
                red: sample_channel(g.stops@, g.scale as int, q.0, q.1, 0) as u8,
                green: sample_channel(g.stops@, g.scale as int, q.0, q.1, 1) as u8,
                blue: sample_channel(g.stops@, g.scale as int, q.0, q.1, 2) as u8,
            },
        )
    }
}

/// The colored pixels of a sequence of results, in order; points that did
/// not escape are left out.
pub open spec fn shaded_pixels(g: &Gradient, results: Seq<PixelResult>, take: u32, mode: GradientMode) -> Seq<
    Pixel,
>
    decreases results.len(),
{
    if results.len() == 0 {
        Seq::empty()
    } else {
        let p = results.last();
        let rest = shaded_pixels(g, results.drop_last(), take, mode);
        match shade_spec(g, p.result, take, mode) {
            Some(c) => rest.push(Pixel { x: p.x, y: p.y, color: c }),
            None => rest,
        }
    }
}

proof fn lemma_shaded_in_bounds(
    g: &Gradient,
    results: Seq<PixelResult>,
    take: u32,
    mode: GradientMode,
    width: int,
    height: int,
)
    requires
        forall|i: int| 0 <= i < results.len() ==> #[trigger] results[i].x < width && results[i].y < height,
    ensures
        in_bounds(shaded_pixels(g, results, take, mode), width, height),
    decreases results.len(),
{
    if results.len() > 0 {
        let rest = results.drop_last();
        assert forall|i: int| 0 <= i < rest.len() implies #[trigger] rest[i].x < width && rest[i].y
            < height by {
            assert(rest[i] == results[i]);
        }
        lemma_shaded_in_bounds(g, rest, take, mode, width, height);
        assert(results.last() == results[results.len() - 1]);
    }
}

/// Colors every escaped result and writes it into a black `width` x
/// `height` buffer; points that did not escape stay black.
pub fn render(
    width: u32,
    height: u32,
    results: &Vec<PixelResult>,
    take: u32,
    mode: GradientMode,
    gradient: &Gradient,
) -> (r: PixelBuffer)
    requires
        width * height * 3 <= usize::MAX,
        forall|i: int| 0 <= i < results@.len() ==> #[trigger] results@[i].x < width && results@[i].y < height,
        gradient.wf(),
        take > 0,
        mode_wf(mode),
    ensures
        r.wf(),
        r.width == width,
        r.height == height,
        forall|x: int, y: int|
            0 <= x < width && 0 <= y < height ==> #[trigger] r.color_at(x, y) == cell_spec(
                shaded_pixels(gradient, results@, take, mode),
                x,
                y,
            ),
{
    let mut pixels: Vec<Pixel> = Vec::new();
    let mut i: usize = 0;
    while i < results.len()
        invariant
            i <= results@.len(),
            gradient.wf(),
            take > 0,
            mode_wf(mode),
            pixels@ == shaded_pixels(gradient, results@.take(i as int), take, mode),
        decreases results@.len() - i,
    {
        let p = results[i];
        let c = gradient.shade(p.result, take, mode);
        proof {
            let s = results@.take(i + 1);
            assert(s.drop_last() == results@.take(i as int));
            assert(s.last() == p);
        }
        match c {
            Some(color) => {
                pixels.push(Pixel { x: p.x, y: p.y, color });
            },
            None => {},
        }
        i = i + 1;
    }
    proof {
        assert(results@.take(results@.len() as int) == results@);
        lemma_shaded_in_bounds(gradient, results@, take, mode, width as int, height as int);
    }
    assemble(width, height, &pixels)
}

} // verus!
