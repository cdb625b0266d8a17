//! The pixel grid that a render fills, and the loop that fills it.

use crate::config::RenderConfig;
use crate::stream::{
    following, generator, generator_of, lemma_following_stream, lemma_ordinal_next_estimate,
    lemma_ordinal_next_pixel, lemma_ordinal_next_row, lemma_ordinal_start, ordinal, stream_seed,
};
use rand::rngs::StdRng;
use vstd::prelude::*;

verus! {

/// `rows` is a grid of `height` rows, each of `width` pixels, with at least
/// one pixel.
pub open spec fn is_grid<C>(rows: Seq<Seq<C>>, width: nat, height: nat) -> bool {
    &&& width > 0
    &&& height > 0
    &&& rows.len() == height
    &&& forall|y: int| 0 <= y < rows.len() ==> (#[trigger] rows[y]).len() == width
}

/// The pixels held by `lines`, row by row.
pub open spec fn rows_of<C>(lines: Seq<Vec<C>>) -> Seq<Seq<C>> {
    Seq::new(lines.len(), |y: int| lines[y]@)
}

/// `samples` holds, stream by stream, an estimate that `estimate` can give
/// for the pixel in column `x` of row `y` of an image `width` pixels wide,
/// with the generator of each of the pixel's `count` streams.
pub open spec fn estimated<C, E>(
    estimate: E,
    seed: u64,
    width: usize,
    count: usize,
    x: usize,
    y: usize,
    samples: Seq<C>,
) -> bool where E: Fn(StdRng, usize, usize) -> C {
    &&& samples.len() == count
    &&& forall|i: int|
        0 <= i < samples.len() ==> estimate.ensures(
            (
                generator_of(
                    stream_seed(
                        seed,
                        ordinal(width as nat, count as nat, x as nat, y as nat, i as nat),
                    ),
                ),
                x,
                y,
            ),
            #[trigger] samples[i],
        )
}

/// `total` is what adding `samples` to `black`, one after the other in their
/// order, can give.
pub open spec fn summed<C, A>(accumulate: A, black: C, samples: Seq<C>, total: C) -> bool where
    A: Fn(C, C) -> C,

    decreases samples.len(),
{
    if samples.len() == 0 {
        total == black
    } else {
        exists|before: C|
            summed(accumulate, black, samples.drop_last(), before) && #[trigger] accumulate.ensures(
                (before, samples.last()),
                total,
            )
    }
}

/// `pixel` is a colour that the pixel in column `x` of row `y` can get: what
/// `scale` makes of the sum of the pixel's `count` estimates and their
/// number.
pub open spec fn sampled<C, E, A, S>(
    estimate: E,
    accumulate: A,
    scale: S,
    black: C,
    seed: u64,
    width: usize,
    count: usize,
    x: usize,
    y: usize,
    pixel: C,
) -> bool where E: Fn(StdRng, usize, usize) -> C, A: Fn(C, C) -> C, S: Fn(C, usize) -> C {
    exists|samples: Seq<C>, total: C|
        {
            &&& estimated(estimate, seed, width, count, x, y, samples)
            &&& #[trigger] summed(accumulate, black, samples, total)
            &&& scale.ensures((total, count), pixel)
        }
}

/// `estimate` gives one colour for a generator and a pixel: what it returns
/// depends on nothing else.
pub open spec fn estimates_one_colour<C, E>(estimate: E) -> bool where
    E: Fn(StdRng, usize, usize) -> C,
 {
    forall|rng: StdRng, x: usize, y: usize, a: C, b: C|
        #[trigger] estimate.ensures((rng, x, y), a) && #[trigger] estimate.ensures((rng, x, y), b)
            ==> a == b
}

/// `accumulate` gives one colour for a given sum and sample.
pub open spec fn accumulates_to_one_colour<C, A>(accumulate: A) -> bool where A: Fn(C, C) -> C {
    forall|left: C, right: C, a: C, b: C|
        #[trigger] accumulate.ensures((left, right), a) && #[trigger] accumulate.ensures((left, right), b) ==> a
            == b
}

/// `scale` gives one colour for a given sum and count.
pub open spec fn scales_to_one_colour<C, S>(scale: S) -> bool where S: Fn(C, usize) -> C {
    forall|total: C, count: usize, a: C, b: C|
        #[trigger] scale.ensures((total, count), a) && #[trigger] scale.ensures((total, count), b)
            ==> a == b
}

/// Where `accumulate` gives one colour for a sum and a sample, there is one
/// sum of given samples.
pub proof fn lemma_sum_is_determined<C, A>(accumulate: A, black: C, samples: Seq<C>, one: C, other: C) where
    A: Fn(C, C) -> C,

    requires
        accumulates_to_one_colour(accumulate),
        summed(accumulate, black, samples, one),
        summed(accumulate, black, samples, other),
    ensures
        one == other,
    decreases samples.len(),
{
    if samples.len() > 0 {
        let first = choose|before: C|
            summed(accumulate, black, samples.drop_last(), before) && #[trigger] accumulate.ensures(
                (before, samples.last()),
                one,
            );
        let second = choose|before: C|
            summed(accumulate, black, samples.drop_last(), before) && #[trigger] accumulate.ensures(
                (before, samples.last()),
                other,
            );
        lemma_sum_is_determined(accumulate, black, samples.drop_last(), first, second);
    }
}

/// A pixel is determined by the seed: where `estimate`, `accumulate` and `scale`
/// each give one colour for what they are given, there is one colour that a
/// pixel can get.
pub proof fn lemma_sampling_is_determined<C, E, A, S>(
    estimate: E,
    accumulate: A,
    scale: S,
    black: C,
    seed: u64,
    width: usize,
    count: usize,
    x: usize,
    y: usize,
    one: C,
    other: C,
) where E: Fn(StdRng, usize, usize) -> C, A: Fn(C, C) -> C, S: Fn(C, usize) -> C
    requires
        estimates_one_colour(estimate),
        accumulates_to_one_colour(accumulate),
        scales_to_one_colour(scale),
        sampled(estimate, accumulate, scale, black, seed, width, count, x, y, one),
        sampled(estimate, accumulate, scale, black, seed, width, count, x, y, other),
    ensures
        one == other,
{
    let (first, first_total) = choose|samples: Seq<C>, total: C|
        {
            &&& estimated(estimate, seed, width, count, x, y, samples)
            &&& #[trigger] summed(accumulate, black, samples, total)
            &&& scale.ensures((total, count), one)
        };
    let (second, second_total) = choose|samples: Seq<C>, total: C|
        {
            &&& estimated(estimate, seed, width, count, x, y, samples)
            &&& #[trigger] summed(accumulate, black, samples, total)
            &&& scale.ensures((total, count), other)
        };
    assert(first =~= second);
    lemma_sum_is_determined(accumulate, black, first, first_total, second_total);
}

/// A render is determined by its seed, pixel for pixel: two images of the
/// same size whose pixels are all sampled with the same seed from an
/// `estimate`, an `accumulate` and a `scale` that each give one colour are the same
/// image.
pub proof fn lemma_render_is_determined<C, E, A, S>(
    estimate: E,
    accumulate: A,
    scale: S,
    black: C,
    seed: u64,
    width: usize,
    height: usize,
    count: usize,
    one: Seq<Seq<C>>,
    other: Seq<Seq<C>>,
) where E: Fn(StdRng, usize, usize) -> C, A: Fn(C, C) -> C, S: Fn(C, usize) -> C
    requires
        estimates_one_colour(estimate),
        accumulates_to_one_colour(accumulate),
        scales_to_one_colour(scale),
        is_grid(one, width as nat, height as nat),
        is_grid(other, width as nat, height as nat),
        forall|x: usize, y: usize|
            x < width && y < height ==> sampled(
                estimate,
                accumulate,
                scale,
                black,
                seed,
                width,
                count,
                x,
                y,
                #[trigger] one[y as int][x as int],
            ),
        forall|x: usize, y: usize|
            x < width && y < height ==> sampled(
                estimate,
                accumulate,
                scale,
                black,
                seed,
                width,
                count,
                x,
                y,
                #[trigger] other[y as int][x as int],
            ),
    ensures
        one == other,
{
    assert forall|y: int| 0 <= y < height implies one[y] == other[y] by {
        assert forall|x: int| 0 <= x < width implies one[y][x] == other[y][x] by {
            lemma_sampling_is_determined(
                estimate,
                accumulate,
                scale,
                black,
                seed,
                width,
                count,
                x as usize,
                y as usize,
                one[y][x],
                other[y][x],
            );
        }
        assert(one[y] =~= other[y]);
    }
    assert(one =~= other);
}

/// A rectangular grid of pixels of some colour type `C`, stored row by row in
/// the order the rows were produced.
pub struct Image<C> {
    width: usize,
    height: usize,
    lines: Vec<Vec<C>>,
}

impl<C> View for Image<C> {
    type V = Seq<Seq<C>>;

    /// The rows in storage order, each a sequence of pixels from column 0 on.
    closed spec fn view(&self) -> Seq<Seq<C>> {
        rows_of(self.lines@)
    }
}

impl<C> Image<C> {
    #[verifier::type_invariant]
    spec fn well_formed(self) -> bool {
        is_grid(self@, self.width as nat, self.height as nat)
    }

    /// Pixels in a row.
    pub closed spec fn spec_width(&self) -> usize {
        self.width
    }

    /// Rows in the image.
    pub closed spec fn spec_height(&self) -> usize {
        self.height
    }

    /// Pixels in a row; never zero.
    #[verifier::when_used_as_spec(spec_width)]
    pub fn width(&self) -> (w: usize)
        ensures
            w == self.spec_width(),
            is_grid(self@, w as nat, self.spec_height() as nat),
    {
        proof {
            use_type_invariant(self);
        }
        self.width
    }

    /// Rows in the image; never zero.
    #[verifier::when_used_as_spec(spec_height)]
    pub fn height(&self) -> (h: usize)
        ensures
            h == self.spec_height(),
            is_grid(self@, self.spec_width() as nat, h as nat),
    {
        proof {
            use_type_invariant(self);
        }
        self.height
    }

    /// Takes ownership of `lines` as an image, if they form a grid: at least
    /// one row, at least one pixel in it, and every row as long as the first.
    pub fn from_rows(lines: Vec<Vec<C>>) -> (r: Option<Image<C>>)
        ensures
            match r {
                Some(image) => {
                    &&& image@ == rows_of(lines@)
                    &&& is_grid(image@, image.spec_width() as nat, image.spec_height() as nat)
                },
                None => forall|w: nat, h: nat| !#[trigger] is_grid(rows_of(lines@), w, h),
            },
    {
        let ghost grid = rows_of(lines@);
        let height = lines.len();
        if height == 0 {
            return None;
        }
        let width = lines[0].len();
        if width == 0 {
            assert(grid[0].len() == 0);
            return None;
        }
        let mut y: usize = 1;
        while y < height
            invariant
                1 <= y <= height,
                grid == rows_of(lines@),
                height == lines@.len(),
                width == lines@[0]@.len(),
                forall|k: int| 0 <= k < y ==> (#[trigger] lines@[k])@.len() == width,
            decreases height - y,
        {
            if lines[y].len() != width {
                assert(grid[0].len() == width);
                assert(grid[y as int].len() != width);
                return None;
            }
            y += 1;
        }
        let image = Image { width, height, lines };
        assert(image@ =~= grid);
        Some(image)
    }

    /// The rows in storage order.
    pub fn lines(&self) -> (lines: &Vec<Vec<C>>)
        ensures
            rows_of(lines@) == self@,
            is_grid(self@, self.spec_width() as nat, self.spec_height() as nat),
    {
        proof {
            use_type_invariant(self);
        }
        &self.lines
    }

    /// The pixel in column `x` of row `y`, rows counted in storage order.
    pub fn get(&self, x: usize, y: usize) -> (r: Option<&C>)
        ensures
            match r {
                Some(pixel) => x < self.spec_width() && y < self.spec_height() && *pixel
                    == self@[y as int][x as int],
                None => x >= self.spec_width() || y >= self.spec_height(),
            },
    {
        proof {
            use_type_invariant(self);
        }
        if y < self.height && x < self.width {
            assert(self@[y as int].len() == self.width);
            Some(&self.lines[y][x])
        } else {
            None
        }
    }

    /// A new image of the same shape, each pixel made by `convert` from the
    /// pixel in the same place.
    pub fn map<D, F>(&self, convert: &F) -> (out: Image<D>) where F: Fn(&C) -> D
        requires
            forall|x: int, y: int|
                0 <= x < self.spec_width() && 0 <= y < self.spec_height() ==> convert.requires(
                    (&#[trigger] self@[y][x],),
                ),
        ensures
            out.spec_width() == self.spec_width(),
            out.spec_height() == self.spec_height(),
            is_grid(out@, out.spec_width() as nat, out.spec_height() as nat),
            forall|x: int, y: int|
                0 <= x < self.spec_width() && 0 <= y < self.spec_height() ==> convert.ensures(
                    (&self@[y][x],),
                    #[trigger] out@[y][x],
                ),
    {
        proof {
            use_type_invariant(self);
        }
        let mut lines: Vec<Vec<D>> = Vec::new();
        let mut y: usize = 0;
        while y < self.height
            invariant
                is_grid(self@, self.width as nat, self.height as nat),
                forall|x: int, k: int|
                    0 <= x < self.width && 0 <= k < self.height ==> convert.requires(
                        (&#[trigger] self@[k][x],),
                    ),
                y <= self.height,
                lines@.len() == y,
                forall|k: int| 0 <= k < y ==> (#[trigger] lines@[k])@.len() == self.width,
                forall|x: int, k: int|
                    0 <= x < self.width && 0 <= k < y ==> convert.ensures(
                        (&self@[k][x],),
                        #[trigger] lines@[k]@[x],
                    ),
            decreases self.height - y,
        {
            let mut line: Vec<D> = Vec::new();
            let mut x: usize = 0;
            assert(self@[y as int].len() == self.width);
            while x < self.width
                invariant
                    is_grid(self@, self.width as nat, self.height as nat),
                    forall|k: int|
                        0 <= k < self.width ==> convert.requires((&#[trigger] self@[y as int][k],)),
                    y < self.height,
                    x <= self.width,
                    self@[y as int].len() == self.width,
                    line@.len() == x,
                    forall|k: int|
                        0 <= k < x ==> convert.ensures(
                            (&self@[y as int][k],),
                            #[trigger] line@[k],
                        ),
                decreases self.width - x,
            {
                let pixel = convert(&self.lines[y][x]);
                line.push(pixel);
                x += 1;
            }
            lines.push(line);
            y += 1;
        }
        let out = Image { width: self.width, height: self.height, lines };
        out
    }

    /// Renders an image. For each pixel, `samples_per_pixel` estimates are
    /// taken, each with a generator of its own, and added one after the other
    /// to `black`; what `scale` makes of that sum and the number of estimates
    /// becomes the pixel. The generator of an estimate is made from `seed`
    /// and the estimate's place in the scan.
    pub fn sample<E, A, S>(
        config: &RenderConfig,
        seed: u64,
        black: C,
        estimate: &E,
        accumulate: &A,
        scale: &S,
    ) -> (image: Image<C>) where
        C: Copy,
        E: Fn(StdRng, usize, usize) -> C,
        A: Fn(C, C) -> C,
        S: Fn(C, usize) -> C,

        requires
            forall|rng: StdRng, x: usize, y: usize|
                x < config.spec_width() && y < config.spec_height() ==> estimate.requires(
                    (rng, x, y),
                ),
            forall|sum: C, sample: C| accumulate.requires((sum, sample)),
            forall|sum: C|
                config.spec_samples_per_pixel() > 0 ==> scale.requires(
                    (sum, config.spec_samples_per_pixel()),
                ),
        ensures
            image.spec_width() == config.spec_width(),
            image.spec_height() == config.spec_height(),
            is_grid(image@, image.spec_width() as nat, image.spec_height() as nat),
            forall|x: usize, y: usize|
                x < config.spec_width() && y < config.spec_height() ==> sampled(
                    *estimate,
                    *accumulate,
                    *scale,
                    black,
                    seed,
                    config.spec_width(),
                    config.spec_samples_per_pixel(),
                    x,
                    y,
                    #[trigger] image@[y as int][x as int],
                ),
    {
        let width = config.width();
        let height = config.height();
        let sampling = config.samples_per_pixel();
        let mut lines: Vec<Vec<C>> = Vec::new();
        let mut stream: u64 = seed;
        let mut y: usize = 0;
        proof {
            lemma_ordinal_start(width as nat, sampling as nat);
        }
        while y < height
            invariant
                width == config.spec_width(),
                height == config.spec_height(),
                sampling == config.spec_samples_per_pixel(),
                width > 0,
                sampling > 0,
                forall|rng: StdRng, x: usize, y: usize|
                    x < width && y < height ==> estimate.requires((rng, x, y)),
                forall|sum: C, sample: C| accumulate.requires((sum, sample)),
                forall|sum: C| scale.requires((sum, sampling)),
                y <= height,
                stream == stream_seed(seed, ordinal(width as nat, sampling as nat, 0, y as nat, 0)),
                lines@.len() == y,
                forall|k: int| 0 <= k < y ==> (#[trigger] lines@[k])@.len() == width,
                forall|x: usize, k: usize|
                    x < width && k < y ==> sampled(
                        *estimate,
                        *accumulate,
                        *scale,
                        black,
                        seed,
                        width,
                        sampling,
                        x,
                        k,
                        #[trigger] lines@[k as int]@[x as int],
                    ),
            decreases height - y,
        {
            let mut line: Vec<C> = Vec::new();
            let mut x: usize = 0;
            while x < width
                invariant
                    forall|rng: StdRng, x: usize, y: usize|
                        x < width && y < height ==> estimate.requires((rng, x, y)),
                    forall|sum: C, sample: C| accumulate.requires((sum, sample)),
                    forall|sum: C| scale.requires((sum, sampling)),
                    y < height,
                    x <= width,
                    stream == stream_seed(
                        seed,
                        ordinal(width as nat, sampling as nat, x as nat, y as nat, 0),
                    ),
                    line@.len() == x,
                    forall|k: usize|
                        k < x ==> sampled(
                            *estimate,
                            *accumulate,
                            *scale,
                            black,
                            seed,
                            width,
                            sampling,
                            k,
                            y,
                            #[trigger] line@[k as int],
                        ),
                decreases width - x,
            {
                let mut color = black;
                let ghost mut samples: Seq<C> = Seq::empty();
                let mut taken: usize = 0;
                while taken < sampling
                    invariant
                        forall|rng: StdRng| estimate.requires((rng, x, y)),
                        forall|sum: C, sample: C| accumulate.requires((sum, sample)),
                        taken <= sampling,
                        stream == stream_seed(
                            seed,
                            ordinal(width as nat, sampling as nat, x as nat, y as nat, taken as nat),
                        ),
                        samples.len() == taken,
                        forall|i: int|
                            0 <= i < samples.len() ==> estimate.ensures(
                                (
                                    generator_of(
                                        stream_seed(
                                            seed,
                                            ordinal(
                                                width as nat,
                                                sampling as nat,
                                                x as nat,
                                                y as nat,
                                                i as nat,
                                            ),
                                        ),
                                    ),
                                    x,
                                    y,
                                ),
                                #[trigger] samples[i],
                            ),
                        summed(*accumulate, black, samples, color),
                    decreases sampling - taken,
                {
                    let one = estimate(generator(stream), x, y);
                    let ghost before = samples;
                    let ghost sum = color;
                    color = accumulate(color, one);
                    proof {
                        samples = before.push(one);
                        assert(samples.drop_last() =~= before);
                        assert(summed(*accumulate, black, samples.drop_last(), sum)
                            && accumulate.ensures((sum, samples.last()), color));
                    }
                    proof {
                        let at = ordinal(
                            width as nat,
                            sampling as nat,
                            x as nat,
                            y as nat,
                            taken as nat,
                        );
                        lemma_ordinal_next_estimate(
                            width as nat,
                            sampling as nat,
                            x as nat,
                            y as nat,
                            taken as nat,
                        );
                        lemma_following_stream(seed, at);
                    }
                    stream = following(stream);
                    taken += 1;
                }
                let pixel = scale(color, sampling);
                line.push(pixel);
                proof {
                    assert(estimated(*estimate, seed, width, sampling, x, y, samples));
                    lemma_ordinal_next_pixel(width as nat, sampling as nat, x as nat, y as nat);
                }
                x += 1;
            }
            lines.push(line);
            proof {
                lemma_ordinal_next_row(width as nat, sampling as nat, y as nat);
            }
            y += 1;
        }
        let image = Image { width, height, lines };
        image
    }
}

} // verus!
