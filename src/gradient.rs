use vstd::prelude::*;
use vstd::arithmetic::div_mod::{lemma_div_denominator, lemma_div_multiples_vanish};
use crate::escape::IterationResult;

verus! {

/// An 8-bit RGB color.
#[derive(Clone, Copy, Debug, PartialEq, Eq, Structural)]
pub struct Rgb8 {
    pub red: u8,
    pub green: u8,
    pub blue: u8,
}

/// A gradient stop. The position is in the gradient's own units; each channel
/// is a numerator over the gradient's `scale`, so `scale` stands for 1.0.
#[derive(Clone, Copy, Debug, PartialEq, Eq, Structural)]
pub struct ColorStop {
    pub position: u32,
    pub red: u16,
    pub green: u16,
    pub blue: u16,
}

/// Stops in strictly increasing position, sampled by linear interpolation
/// between neighbours and clamped to the end stops outside their range.
#[derive(Debug)]
pub struct Gradient {
    pub stops: Vec<ColorStop>,
    pub scale: u16,
}

/// How an iteration count selects a position on the gradient.
#[derive(Clone, Copy, Debug, PartialEq, Eq, Structural)]
pub enum GradientMode {
    /// `(count mod interval) / interval` of the gradient's span: the colors
    /// cycle every `interval` iterations.
    Periodic { interval: u32 },
    /// `count / take` of the gradient's span.
    Exponential,
}

pub open spec fn channel(s: ColorStop, k: int) -> int {
    if k == 0 {
        s.red as int
    } else if k == 1 {
        s.green as int
    } else {
        s.blue as int
    }
}

pub open spec fn stops_wf(stops: Seq<ColorStop>, scale: int) -> bool {
    &&& scale > 0
    &&& stops.len() >= 1
    &&& forall|i: int| 0 <= i < stops.len() ==> stops[i].red <= scale && stops[i].green <= scale
        && stops[i].blue <= scale
    &&& forall|i: int| 0 <= i < stops.len() - 1 ==> #[trigger] stops[i].position < stops[i + 1].position
}

/// `floor(255 * c / scale)`: a channel value in `[0, 1]` as a byte, truncated.
pub open spec fn to_byte(c: int, scale: int) -> int {
    (255 * c) / scale
}

/// The byte of the channel interpolated between `col_a` at `pos_a` and `col_b` at
/// `pos_b`, at the position `num / den`, truncated.
pub open spec fn mix_byte(col_a: int, col_b: int, pos_a: int, pos_b: int, num: int, den: int, scale: int) -> int {
    (255 * (col_a * (pos_b * den - num) + col_b * (num - pos_a * den))) / (scale * (pos_b - pos_a) * den)
}

/// Index `i` of the segment `[stops[i], stops[i + 1]]` that holds `num / den`,
/// searching from `from`: the first whose upper end is at or beyond it.
pub open spec fn segment_from(stops: Seq<ColorStop>, num: int, den: int, from: nat) -> nat
    decreases stops.len() - from,
{
    if from + 2 >= stops.len() {
        from
    } else if num <= stops[from + 1int].position * den {
        from
    } else {
        segment_from(stops, num, den, from + 1)
    }
}

/// Channel `k` of the gradient sampled at `num / den`, as a truncated byte.
pub open spec fn sample_channel(stops: Seq<ColorStop>, scale: int, num: int, den: int, k: int) -> int {
    let last = stops.len() - 1;
    if num <= stops[0].position * den {
        to_byte(channel(stops[0], k), scale)
    } else if num >= stops[last].position * den {
        to_byte(channel(stops[last], k), scale)
    } else {
        let i = segment_from(stops, num, den, 0) as int;
        mix_byte(
            channel(stops[i], k),
            channel(stops[i + 1], k),
            stops[i].position as int,
            stops[i + 1].position as int,
            num,
            den,
            scale,
        )
    }
}

impl Rgb8 {
    pub open spec fn triple(self) -> (int, int, int) {
        (self.red as int, self.green as int, self.blue as int)
    }
}

pub open spec fn sample_spec(stops: Seq<ColorStop>, scale: int, num: int, den: int) -> (int, int, int) {
    (
        sample_channel(stops, scale, num, den, 0),
        sample_channel(stops, scale, num, den, 1),
        sample_channel(stops, scale, num, den, 2),
    )
}

/// Truncated byte of the channel value `c / scale`.
fn scale_channel(c: u16, scale: u16) -> (r: u8)
    requires
        0 < scale,
        c <= scale,
    ensures
        r == to_byte(c as int, scale as int),
{
    let x: u32 = 255 * (c as u32);
    proof {
        assert((255 * c as int) / (scale as int) <= 255) by (nonlinear_arith)
            requires
                0 < scale,
                c <= scale,
        ;
    }
    (x / (scale as u32)) as u8
}

/// Truncated byte of the channel interpolated at `num / den` between `col_a` at
/// `pos_a` and `col_b` at `pos_b`.
fn mix_channel(col_a: u16, col_b: u16, pos_a: u32, pos_b: u32, num: u64, den: u32, scale: u16) -> (r: u8)
    requires
        0 < scale,
        col_a <= scale,
        col_b <= scale,
        pos_a < pos_b,
        0 < den,
        pos_a * den <= num <= pos_b * den,
    ensures
        r == mix_byte(col_a as int, col_b as int, pos_a as int, pos_b as int, num as int, den as int, scale as int),
{
    let d = den as u128;
    proof {
        assert(pos_b as int * den as int <= u32::MAX as int * u32::MAX as int) by (nonlinear_arith)
            requires
                pos_b <= u32::MAX,
                den <= u32::MAX,
        ;
        assert((pos_b - pos_a) as int * den as int <= u32::MAX as int * u32::MAX as int)
            by (nonlinear_arith)
            requires
                pos_b - pos_a <= u32::MAX,
                den <= u32::MAX,
        ;
    }
    let hi = pos_b as u128 * d;
    let lo = pos_a as u128 * d;
    let q = num as u128;
    let w0 = hi - q;
    let w1 = q - lo;
    let span = (pos_b - pos_a) as u128 * d;
    proof {
        assert(w0 + w1 == span) by (nonlinear_arith)
            requires
                w0 == pos_b * den - num,
                w1 == num - pos_a * den,
                span == (pos_b - pos_a) * den,
        ;
        assert(span <= u32::MAX as int * u32::MAX as int) by (nonlinear_arith)
            requires
                span == (pos_b - pos_a) * den,
                pos_b - pos_a <= u32::MAX,
                den <= u32::MAX,
        ;
        assert(col_a * w0 + col_b * w1 <= scale * span) by (nonlinear_arith)
            requires
                col_a <= scale,
                col_b <= scale,
                w0 >= 0,
                w1 >= 0,
                w0 + w1 == span,
        ;
        assert(scale * span <= 65535 * (u32::MAX as int * u32::MAX as int)) by (nonlinear_arith)
            requires
                scale <= 65535,
                span <= u32::MAX as int * u32::MAX as int,
        ;
        assert(col_a * w0 >= 0 && col_b * w1 >= 0) by (nonlinear_arith)
            requires
                w0 >= 0,
                w1 >= 0,
        ;
        assert(span > 0) by (nonlinear_arith)
            requires
                span == (pos_b - pos_a) * den,
                pos_b > pos_a,
                den > 0,
        ;
    }
    let x = col_a as u128 * w0 + col_b as u128 * w1;
    let total = scale as u128 * span;
    proof {
        assert(total > 0) by (nonlinear_arith)
            requires
                total == scale * span,
                scale > 0,
                span > 0,
        ;
        assert((255 * x as int) / (total as int) <= 255) by (nonlinear_arith)
            requires
                x <= total,
                total > 0,
                x >= 0,
        ;
        assert(total == scale as int * (pos_b as int - pos_a as int) * den as int) by (nonlinear_arith)
            requires
                total == scale * span,
                span == (pos_b - pos_a) * den,
        ;
    }
    ((255 * x) / total) as u8
}

proof fn lemma_positions_increasing(stops: Seq<ColorStop>, scale: int, i: int, j: int)
    requires
        stops_wf(stops, scale),
        0 <= i < j < stops.len(),
    ensures
        stops[i].position < stops[j].position,
    decreases j - i,
{
    if i + 1 < j {
        lemma_positions_increasing(stops, scale, i, j - 1);
    }
    assert(stops[j - 1].position < stops[j].position);
}

proof fn lemma_scaled_less(a: int, b: int, den: int)
    requires
        a < b,
        den > 0,
    ensures
        a * den < b * den,
{
    assert(a * den < b * den) by (nonlinear_arith)
        requires
            a < b,
            den > 0,
    ;
}

/// The search from `from` lands on the segment that ends at stop `j`.
proof fn lemma_segment_ending_at(stops: Seq<ColorStop>, scale: int, den: int, from: nat, j: int)
    requires
        stops_wf(stops, scale),
        den > 0,
        0 <= from < j < stops.len(),
    ensures
        segment_from(stops, stops[j].position * den, den, from) == j - 1,
    decreases j - from,
{
    if from + 1 < j {
        lemma_positions_increasing(stops, scale, from + 1int, j);
        lemma_scaled_less(stops[from + 1int].position as int, stops[j].position as int, den);
        lemma_segment_ending_at(stops, scale, den, from + 1, j);
    }
}

/// At the upper end of a segment the interpolation gives that end's color.
proof fn lemma_mix_at_upper(col_a: int, col_b: int, pos_a: int, pos_b: int, den: int, scale: int)
    requires
        0 <= col_b,
        pos_a < pos_b,
        den > 0,
        scale > 0,
    ensures
        mix_byte(col_a, col_b, pos_a, pos_b, pos_b * den, den, scale) == to_byte(col_b, scale),
{
    let k = (pos_b - pos_a) * den;
    assert(k > 0) by (nonlinear_arith)
        requires
            k == (pos_b - pos_a) * den,
            pos_a < pos_b,
            den > 0,
    ;
    assert(255 * (col_a * (pos_b * den - pos_b * den) + col_b * (pos_b * den - pos_a * den)) == k * (255 * col_b))
        by (nonlinear_arith)
        requires
            k == (pos_b - pos_a) * den,
    ;
    assert(scale * (pos_b - pos_a) * den == k * scale) by (nonlinear_arith)
        requires
            k == (pos_b - pos_a) * den,
    ;
    lemma_div_denominator(k * (255 * col_b), k, scale);
    lemma_div_multiples_vanish(255 * col_b, k);
}

/// Sampling exactly at a stop's position gives that stop's color.
pub proof fn lemma_sample_at_stop(stops: Seq<ColorStop>, scale: int, j: int, den: int)
    requires
        stops_wf(stops, scale),
        0 <= j < stops.len(),
        den > 0,
    ensures
        sample_channel(stops, scale, stops[j].position * den, den, 0) == to_byte(
            stops[j].red as int,
            scale,
        ),
        sample_channel(stops, scale, stops[j].position * den, den, 1) == to_byte(
            stops[j].green as int,
            scale,
        ),
        sample_channel(stops, scale, stops[j].position * den, den, 2) == to_byte(
            stops[j].blue as int,
            scale,
        ),
{
    let last = stops.len() - 1;
    let num = stops[j].position * den;
    if j > 0 {
        lemma_positions_increasing(stops, scale, 0, j);
        lemma_scaled_less(stops[0].position as int, stops[j].position as int, den);
    }
    if 0 < j < last {
        lemma_positions_increasing(stops, scale, j, last);
        lemma_scaled_less(stops[j].position as int, stops[last].position as int, den);
        lemma_segment_ending_at(stops, scale, den, 0, j);
        let i = j - 1;
        assert(stops[i].position < stops[j].position);
        lemma_mix_at_upper(stops[i].red as int, stops[j].red as int, stops[i].position as int,
            stops[j].position as int, den, scale);
        lemma_mix_at_upper(stops[i].green as int, stops[j].green as int, stops[i].position as int,
            stops[j].position as int, den, scale);
        lemma_mix_at_upper(stops[i].blue as int, stops[j].blue as int, stops[i].position as int,
            stops[j].position as int, den, scale);
    }
}

/// The gradient position, as `(num, den)`, that an iteration count maps to:
/// periodic mode takes `(count mod interval) / interval` of the span between
/// the first and last stops, exponential mode `count / take` of it (counts
/// beyond the cap sample the last stop either way).
pub open spec fn query_spec(count: int, take: int, mode: GradientMode, first: int, last: int) -> (
    int,
    int,
) {
    match mode {
        GradientMode::Periodic { interval } => (
            first * interval + (count % (interval as int)) * (last - first),
            interval as int,
        ),
        GradientMode::Exponential => {
            let c = if count <= take { count } else { take };
            (first * take + c * (last - first), take)
        },
    }
}

pub open spec fn mode_wf(mode: GradientMode) -> bool {
    match mode {
        GradientMode::Periodic { interval } => interval > 0,
        GradientMode::Exponential => true,
    }
}

pub open spec fn stop(position: u32, red: u16, green: u16, blue: u16) -> ColorStop {
    ColorStop { position, red, green, blue }
}

/// The built-in periodic gradient, in half units of position and quarter
/// units of channel: white, dark red, red, orange, light green, cyan, sky
/// blue, blue, violet, back to white over `[0, 16]`.
pub open spec fn periodic_stops_spec() -> Seq<ColorStop> {
    seq![
        stop(0, 4, 4, 4),
        stop(1, 2, 0, 0),
        stop(3, 4, 0, 0),
        stop(5, 4, 2, 0),
        stop(7, 2, 4, 2),
        stop(9, 0, 4, 4),
        stop(11, 0, 2, 4),
        stop(13, 0, 0, 4),
        stop(15, 1, 0, 4),
        stop(16, 4, 4, 4),
    ]
}

/// The built-in exponential gradient: the same colors at doubling positions
/// over `[0, 256]` half units.
pub open spec fn exponential_stops_spec() -> Seq<ColorStop> {
    seq![
        stop(0, 4, 4, 4),
        stop(1, 2, 0, 0),
        stop(2, 4, 0, 0),
        stop(4, 4, 2, 0),
        stop(8, 2, 4, 2),
        stop(16, 0, 4, 4),
        stop(32, 0, 2, 4),
        stop(64, 0, 0, 4),
        stop(128, 1, 0, 4),
        stop(256, 4, 4, 4),
    ]
}

impl Gradient {
    pub open spec fn wf(&self) -> bool {
        stops_wf(self.stops@, self.scale as int)
    }

    /// A gradient over `stops` with channel denominator `scale`, if the stops
    /// are non-empty, strictly increasing in position, and their channels lie
    /// in `[0, scale]` with `scale > 0`.
    pub fn new(stops: Vec<ColorStop>, scale: u16) -> (r: Option<Gradient>)
        ensures
            r is Some <==> stops_wf(stops@, scale as int),
            r matches Some(g) ==> g.stops@ == stops@ && g.scale == scale,
    {
        if scale == 0 || stops.len() == 0 {
            return None;
        }
        let n = stops.len();
        let mut i: usize = 0;
        while i < n
            invariant
                n == stops@.len(),
                scale > 0,
                n >= 1,
                i <= n,
                forall|k: int|
                    0 <= k < i ==> stops@[k].red <= scale && stops@[k].green <= scale
                        && stops@[k].blue <= scale,
                forall|k: int| 0 <= k < i && k < n - 1 ==> #[trigger] stops@[k].position < stops@[k
                    + 1].position,
            decreases n - i,
        {
            let s = stops[i];
            if s.red > scale || s.green > scale || s.blue > scale {
                return None;
            }
            if i + 1 < n && s.position >= stops[i + 1].position {
                return None;
            }
            i = i + 1;
        }
        Some(Gradient { stops, scale })
    }

    /// The built-in periodic gradient.
    pub fn periodic() -> (r: Gradient)
        ensures
            r.wf(),
            r.stops@ == periodic_stops_spec(),
            r.scale == 4,
    {
        let stops = vec![
            ColorStop { position: 0, red: 4, green: 4, blue: 4 },
            ColorStop { position: 1, red: 2, green: 0, blue: 0 },
            ColorStop { position: 3, red: 4, green: 0, blue: 0 },
            ColorStop { position: 5, red: 4, green: 2, blue: 0 },
            ColorStop { position: 7, red: 2, green: 4, blue: 2 },
            ColorStop { position: 9, red: 0, green: 4, blue: 4 },
            ColorStop { position: 11, red: 0, green: 2, blue: 4 },
            ColorStop { position: 13, red: 0, green: 0, blue: 4 },
            ColorStop { position: 15, red: 1, green: 0, blue: 4 },
            ColorStop { position: 16, red: 4, green: 4, blue: 4 },
        ];
        assert(stops@ == periodic_stops_spec());
        Gradient { stops, scale: 4 }
    }

    /// The built-in exponential gradient.
    pub fn exponential() -> (r: Gradient)
        ensures
            r.wf(),
            r.stops@ == exponential_stops_spec(),
            r.scale == 4,
    {
        let stops = vec![
            ColorStop { position: 0, red: 4, green: 4, blue: 4 },
            ColorStop { position: 1, red: 2, green: 0, blue: 0 },
            ColorStop { position: 2, red: 4, green: 0, blue: 0 },
            ColorStop { position: 4, red: 4, green: 2, blue: 0 },
            ColorStop { position: 8, red: 2, green: 4, blue: 2 },
            ColorStop { position: 16, red: 0, green: 4, blue: 4 },
            ColorStop { position: 32, red: 0, green: 2, blue: 4 },
            ColorStop { position: 64, red: 0, green: 0, blue: 4 },
            ColorStop { position: 128, red: 1, green: 0, blue: 4 },
            ColorStop { position: 256, red: 4, green: 4, blue: 4 },
        ];
        assert(stops@ == exponential_stops_spec());
        Gradient { stops, scale: 4 }
    }

    /// The gradient position that `count` maps to under `mode`.
    pub fn query(&self, count: u32, take: u32, mode: GradientMode) -> (r: (u64, u32))
        requires
            self.wf(),
            take > 0,
            mode_wf(mode),
        ensures
            r.1 > 0,
            (r.0 as int, r.1 as int) == query_spec(
                count as int,
                take as int,
                mode,
                self.first_position(),
                self.last_position(),
            ),
    {
        let first = self.stops[0].position as u64;
        let last = self.stops[self.stops.len() - 1].position as u64;
        proof {
            if self.stops@.len() > 1 {
                lemma_positions_increasing(self.stops@, self.scale as int, 0, self.stops@.len() - 1);
            }
        }
        let span = last - first;
        match mode {
            GradientMode::Periodic { interval } => {
                let g = interval as u64;
                let m = count as u64 % g;
                proof {
                    assert(first * g + m * span <= last * g) by (nonlinear_arith)
                        requires
                            m < g,
                            span == last - first,
                            first <= last,
                    ;
                    assert(last * g <= u32::MAX as int * u32::MAX as int) by (nonlinear_arith)
                        requires
                            last <= u32::MAX,
                            g <= u32::MAX,
                    ;
                    assert(first * g <= first * g + m * span) by (nonlinear_arith)
                        requires
                            m >= 0,
                            span >= 0,
                    ;
                }
                (first * g + m * span, interval)
            },
            GradientMode::Exponential => {
                let t = take as u64;
                let c = if count <= take { count as u64 } else { t };
                proof {
                    assert(first * t + c * span <= last * t) by (nonlinear_arith)
                        requires
                            c <= t,
                            span == last - first,
                            first <= last,
                    ;
                    assert(last * t <= u32::MAX as int * u32::MAX as int) by (nonlinear_arith)
                        requires
                            last <= u32::MAX,
                            t <= u32::MAX,
                    ;
                    assert(first * t <= first * t + c * span) by (nonlinear_arith)
                        requires
                            c >= 0,
                            span >= 0,
                    ;
                }
                (first * t + c * span, take)
            },
        }
    }

    /// The color of a pixel with escape result `result` under the cap `take`:
    /// none for a point that did not escape, else the gradient sampled at the
    /// position that its count maps to.
    pub fn shade(&self, result: IterationResult, take: u32, mode: GradientMode) -> (r: Option<Rgb8>)
        requires
            self.wf(),
            take > 0,
            mode_wf(mode),
        ensures
            r is Some <==> result.escaped,
            r matches Some(c) ==> c.triple() == sample_spec(
                self.stops@,
                self.scale as int,
                query_spec(
                    result.count as int,
                    take as int,
                    mode,
                    self.first_position(),
                    self.last_position(),
                ).0,
                query_spec(
                    result.count as int,
                    take as int,
                    mode,
                    self.first_position(),
                    self.last_position(),
                ).1,
            ),
    {
        if !result.escaped {
            return None;
        }
        let (num, den) = self.query(result.count, take, mode);
        Some(self.sample(num, den))
    }

    pub open spec fn first_position(&self) -> int {
        self.stops@[0].position as int
    }

    pub open spec fn last_position(&self) -> int {
        self.stops@[self.stops@.len() - 1].position as int
    }

    /// Samples the gradient at the position `num / den`.
    pub fn sample(&self, num: u64, den: u32) -> (r: Rgb8)
        requires
            self.wf(),
            den > 0,
        ensures
            r.triple() == sample_spec(self.stops@, self.scale as int, num as int, den as int),
    {
        let stops = &self.stops;
        let n = stops.len();
        let last = n - 1;
        let d = den as u64;
        proof {
            assert(stops@[0].position as int * den as int <= u32::MAX as int * u32::MAX as int)
                by (nonlinear_arith)
                requires
                    stops@[0].position <= u32::MAX,
                    den <= u32::MAX,
            ;
            assert(stops@[last as int].position as int * den as int <= u32::MAX as int
                * u32::MAX as int) by (nonlinear_arith)
                requires
                    stops@[last as int].position <= u32::MAX,
                    den <= u32::MAX,
            ;
        }
        if num <= stops[0].position as u64 * d {
            let s = stops[0];
            return Rgb8 {
                red: scale_channel(s.red, self.scale),
                green: scale_channel(s.green, self.scale),
                blue: scale_channel(s.blue, self.scale),
            };
        }
        if num >= stops[last].position as u64 * d {
            let s = stops[last];
            return Rgb8 {
                red: scale_channel(s.red, self.scale),
                green: scale_channel(s.green, self.scale),
                blue: scale_channel(s.blue, self.scale),
            };
        }
        let mut i: usize = 0;
        let mut found = false;
        while !found && i + 2 < n
            invariant
                self.wf(),
                stops == &self.stops,
                n == stops@.len(),
                d == den,
                den > 0,
                i + 1 < n,
                (stops@[i as int].position as int * den as int) < num,
                found ==> num <= stops@[i + 1].position as int * den as int,
                segment_from(stops@, num as int, den as int, i as nat) == segment_from(
                    stops@,
                    num as int,
                    den as int,
                    0,
                ),
            decreases (n - i) * 2 + if found { 0int } else { 1int },
        {
            proof {
                assert(stops@[i + 1].position as int * den as int <= u32::MAX as int
                    * u32::MAX as int) by (nonlinear_arith)
                    requires
                        stops@[i + 1].position <= u32::MAX,
                        den <= u32::MAX,
                ;
            }
            if num <= stops[i + 1].position as u64 * d {
                found = true;
            } else {
                i = i + 1;
            }
        }
        proof {
            assert(stops@[i + 1].position as int * den as int <= u32::MAX as int * u32::MAX as int)
                by (nonlinear_arith)
                requires
                    stops@[i + 1].position <= u32::MAX,
                    den <= u32::MAX,
            ;
        }
        let a = stops[i];
        let b = stops[i + 1];
        Rgb8 {
            red: mix_channel(a.red, b.red, a.position, b.position, num, den, self.scale),
            green: mix_channel(a.green, b.green, a.position, b.position, num, den, self.scale),
            blue: mix_channel(a.blue, b.blue, a.position, b.position, num, den, self.scale),
        }
    }
}

} // verus!
