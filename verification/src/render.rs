//! The render loop: every pixel of a frame gets the colours of its samples
//! summed up and finished into the pixel that is stored.
//!
//! How a sample is shaded and how a sum is finished is the caller's part;
//! what is fixed here is which samples are taken, for which pixel, in which
//! order, and where the result goes.

use crate::ppm::ImagePPM;
use crate::scan::{aim_at, lemma_rank_bounds, Aim, Scan, Task};
use vstd::arithmetic::div_mod::{
    lemma_fundamental_div_mod_converse_div, lemma_fundamental_div_mod_converse_mod,
};
use vstd::prelude::*;

verus! {

/// The aim of the samples of pixel number `p`, counted row by row from the
/// top left.
pub open spec fn aim_of(width: u32, height: u32, samples: u32, p: int) -> Aim {
    aim_at(width, height, samples, (p % width as int) as u32, (p / width as int) as u32)
}

/// `sums` records the sampling of one pixel: it starts at `zero`, and
/// `sample` made each further sum of the one before it and `aim`.
pub open spec fn is_sampled<C, S: Fn(C, Aim) -> C>(
    sample: S,
    zero: C,
    aim: Aim,
    sums: Seq<C>,
) -> bool {
    &&& sums.len() >= 1
    &&& sums[0] == zero
    &&& forall|i: int|
        0 <= i < sums.len() - 1 ==> call_ensures(sample, (#[trigger] sums[i], aim), sums[i + 1])
}

/// `pixel` is what a pixel with the given aim comes to: `sample` was called
/// `samples` times, each time on the sum so far, and `finish` made the pixel
/// of the last sum and the number of samples.
pub open spec fn is_shaded<C, P, S: Fn(C, Aim) -> C, G: Fn(C, u32) -> P>(
    sample: S,
    finish: G,
    zero: C,
    aim: Aim,
    samples: u32,
    pixel: P,
) -> bool {
    exists|sums: Seq<C>|
        {
            &&& #[trigger] is_sampled(sample, zero, aim, sums)
            &&& sums.len() == samples + 1
            &&& call_ensures(finish, (sums.last(), samples), pixel)
        }
}

/// `image` is the frame that sampling and finishing come to: it has the
/// frame's shape, and each of its pixels, row by row from the top, is what the
/// pixel at its place comes to.
pub open spec fn is_rendered<C, P: Copy, S: Fn(C, Aim) -> C, G: Fn(C, u32) -> P>(
    sample: S,
    finish: G,
    zero: C,
    width: u32,
    height: u32,
    samples: u32,
    image: ImagePPM<P>,
) -> bool {
    &&& image.width == width
    &&& image.height == height
    &&& image.wf()
    &&& forall|p: int|
        0 <= p < width * height ==> is_shaded(
            sample,
            finish,
            zero,
            aim_of(width, height, samples, p),
            samples,
            #[trigger] image.pixels@[p],
        )
}

/// Renders a frame of `width` by `height` pixels with `samples` samples per
/// pixel. For each pixel, row by row from the top, `sample` is called
/// `samples` times with the pixel's aim, starting from `zero` and each time on
/// the sum that the call before returned; then `finish` is called on the last
/// sum and the number of samples, and what it returns is the pixel.
pub fn render<C: Copy, P: Copy, S: Fn(C, Aim) -> C, G: Fn(C, u32) -> P>(
    width: u32,
    height: u32,
    samples: u32,
    zero: C,
    sample: S,
    finish: G,
) -> (image: ImagePPM<P>)
    requires
        width * height <= u32::MAX,
        forall|sum: C, aim: Aim| call_requires(sample, (sum, aim)),
        forall|sum: C, count: u32| call_requires(finish, (sum, count)),
    ensures
        is_rendered(sample, finish, zero, width, height, samples, image),
{
    let mut scan = Scan::new(width, height, samples);
    let mut pixels: Vec<P> = Vec::new();
    let mut sum = zero;
    let ghost mut sums: Seq<C> = seq![zero];
    proof {
        assert(scan.y * width + scan.x == 0) by (nonlinear_arith)
            requires
                scan.x == 0,
                scan.y == 0 || width == 0,
        ;
    }
    loop
        invariant
            forall|sum: C, aim: Aim| call_requires(sample, (sum, aim)),
            forall|sum: C, count: u32| call_requires(finish, (sum, count)),
            width * height <= u32::MAX,
            scan.wf(),
            scan.width == width,
            scan.height == height,
            scan.samples == samples,
            pixels@.len() == scan.y * width + scan.x,
            forall|p: int|
                0 <= p < pixels@.len() ==> is_shaded(
                    sample,
                    finish,
                    zero,
                    aim_of(width, height, samples, p),
                    samples,
                    #[trigger] pixels@[p],
                ),
            is_sampled(sample, zero, aim_at(width, height, samples, scan.x, scan.y), sums),
            sums.len() == scan.taken + 1,
            sums.last() == sum,
        decreases scan.total() - scan.rank(),
    {
        proof {
            lemma_rank_bounds(scan);
        }
        match scan.next() {
            Task::Sample { aim } => {
                let next = sample(sum, aim);
                proof {
                    let longer = sums.push(next);
                    assert forall|i: int| 0 <= i < longer.len() - 1 implies call_ensures(
                        sample,
                        (#[trigger] longer[i], aim),
                        longer[i + 1],
                    ) by {
                        if i < sums.len() - 1 {
                            assert(longer[i] == sums[i] && longer[i + 1] == sums[i + 1]);
                        }
                    }
                    sums = longer;
                }
                sum = next;
            },
            Task::Store { x, y, samples: count } => {
                let pixel = finish(sum, count);
                proof {
                    let p = pixels@.len() as int;
                    let w = width as int;
                    lemma_fundamental_div_mod_converse_mod(p, w, y as int, x as int);
                    lemma_fundamental_div_mod_converse_div(p, w, y as int, x as int);
                    let aim = aim_at(width, height, samples, x, y);
                    assert(aim == aim_of(width, height, samples, p));
                    assert(is_sampled(sample, zero, aim, sums));
                    assert(is_shaded(sample, finish, zero, aim, samples, pixel));
                    assert(scan.y * w + scan.x == p + 1) by (nonlinear_arith)
                        requires
                            p == y * w + x,
                            (scan.x == x + 1 && scan.y == y) || (scan.x == 0 && scan.y == y + 1 && x
                                + 1 == w),
                    ;
                }
                let ghost stored = pixels@;
                pixels.push(pixel);
                proof {
                    assert forall|p: int| 0 <= p < pixels@.len() implies is_shaded(
                        sample,
                        finish,
                        zero,
                        aim_of(width, height, samples, p),
                        samples,
                        #[trigger] pixels@[p],
                    ) by {
                        if p < stored.len() {
                            assert(pixels@[p] == stored[p]);
                        }
                    }
                    sums = seq![zero];
                }
                sum = zero;
            },
            Task::Done => {
                proof {
                    assert(scan.y * width + scan.x == width * height) by (nonlinear_arith)
                        requires
                            scan.x == 0,
                            scan.y == height,
                    ;
                }
                return ImagePPM { width, height, pixels };
            },
        }
    }
}

/// Where `sample` answers each question in one way only, the sums of a
/// pixel are determined: two records of its sampling agree as far as both
/// reach.
pub proof fn lemma_sums_are_determined<C, S: Fn(C, Aim) -> C>(
    sample: S,
    zero: C,
    aim: Aim,
    a: Seq<C>,
    b: Seq<C>,
    i: int,
)
    requires
        forall|sum: C, aim: Aim, x: C, y: C|
            call_ensures(sample, (sum, aim), x) && call_ensures(sample, (sum, aim), y) ==> x == y,
        is_sampled(sample, zero, aim, a),
        is_sampled(sample, zero, aim, b),
        0 <= i < a.len(),
        i < b.len(),
    ensures
        a[i] == b[i],
    decreases i,
{
    if i > 0 {
        lemma_sums_are_determined(sample, zero, aim, a, b, i - 1);
        assert(call_ensures(sample, (a[i - 1], aim), a[i]));
        assert(call_ensures(sample, (b[i - 1], aim), b[i]));
    }
}

/// Rendering adds no chance of its own: where `sample` and `finish` answer
/// each question in one way only, the frame is determined, pixel for pixel.
pub proof fn lemma_render_is_determined<C, P: Copy, S: Fn(C, Aim) -> C, G: Fn(C, u32) -> P>(
    sample: S,
    finish: G,
    zero: C,
    width: u32,
    height: u32,
    samples: u32,
    a: ImagePPM<P>,
    b: ImagePPM<P>,
)
    requires
        forall|sum: C, aim: Aim, x: C, y: C|
            call_ensures(sample, (sum, aim), x) && call_ensures(sample, (sum, aim), y) ==> x == y,
        forall|sum: C, count: u32, x: P, y: P|
            call_ensures(finish, (sum, count), x) && call_ensures(finish, (sum, count), y) ==> x
                == y,
        is_rendered(sample, finish, zero, width, height, samples, a),
        is_rendered(sample, finish, zero, width, height, samples, b),
    ensures
        a.pixels@ == b.pixels@,
{
    assert forall|p: int| 0 <= p < width * height implies a.pixels@[p] == b.pixels@[p] by {
        let aim = aim_of(width, height, samples, p);
        assert(is_shaded(sample, finish, zero, aim, samples, a.pixels@[p]));
        assert(is_shaded(sample, finish, zero, aim, samples, b.pixels@[p]));
        let sa = choose|sums: Seq<C>|
            {
                &&& #[trigger] is_sampled(sample, zero, aim, sums)
                &&& sums.len() == samples + 1
                &&& call_ensures(finish, (sums.last(), samples), a.pixels@[p])
            };
        let sb = choose|sums: Seq<C>|
            {
                &&& #[trigger] is_sampled(sample, zero, aim, sums)
                &&& sums.len() == samples + 1
                &&& call_ensures(finish, (sums.last(), samples), b.pixels@[p])
            };
        lemma_sums_are_determined(sample, zero, aim, sa, sb, samples as int);
    }
    assert(a.pixels@ =~= b.pixels@);
}

} // verus!
