//! The order in which a frame is rendered: row by row from the top, pixel by
//! pixel from the left, and for each pixel all of its samples before its one
//! store.
//!
//! The renderer asks a [`Scan`] for the next task, does the shading that the
//! task names, and asks again until the scan is done.

use vstd::arithmetic::div_mod::{
    lemma_fundamental_div_mod_converse_div, lemma_fundamental_div_mod_converse_mod,
};
use vstd::prelude::*;

verus! {

/// Where on the image plane a camera ray goes: at
/// `u = (u_num + offset) / u_den` and `v = (v_num + offset) / v_den`, where
/// `offset` is one random draw from `[0, 1)` shared by both axes if `jitter`
/// is set, and zero if it is not.
#[derive(Clone, Copy, Debug, PartialEq, Eq, Structural)]
pub struct Aim {
    pub u_num: u32,
    pub u_den: u32,
    pub v_num: u32,
    pub v_den: u32,
    pub jitter: bool,
}

/// The next thing for the renderer to do.
#[derive(Clone, Copy, Debug, PartialEq, Eq, Structural)]
pub enum Task {
    /// Trace one camera ray through the current pixel, aimed as `aim` says,
    /// and add its colour to the pixel's sum.
    Sample { aim: Aim },
    /// Divide the pixel's sum by `samples`, tone-map it and write it to
    /// column `x` of row `y`; then clear the sum.
    Store { x: u32, y: u32, samples: u32 },
    /// Every pixel has been stored.
    Done,
}

/// A position in the scan of a `width` by `height` frame with `samples`
/// samples per pixel: the pixel at column `x` of row `y`, of which `taken`
/// samples have been handed out.
#[derive(Clone, Copy, Debug, PartialEq, Eq, Structural)]
pub struct Scan {
    pub width: u32,
    pub height: u32,
    pub samples: u32,
    pub x: u32,
    pub y: u32,
    pub taken: u32,
}

/// The aim of the samples of pixel `(x, y)`: columns count up from zero at
/// the left edge to the last column at the right, rows count down from the
/// last row's number at the top of the image to zero at its bottom, and the
/// offset is random only where a pixel has several samples. Without an offset
/// the top row is aimed at `v = 1` and the bottom row at `v = 0`.
pub open spec fn aim_at(width: u32, height: u32, samples: u32, x: u32, y: u32) -> Aim {
    Aim {
        u_num: x,
        u_den: (width - 1) as u32,
        v_num: (height - 1 - y) as u32,
        v_den: (height - 1) as u32,
        jitter: samples > 1,
    }
}

impl Scan {
    /// The position lies on a pixel of the frame, or just past the last row.
    pub open spec fn wf(self) -> bool {
        if self.y < self.height {
            self.x < self.width && self.taken <= self.samples
        } else {
            self.y == self.height && self.x == 0 && self.taken == 0
        }
    }

    /// Nothing is left to do.
    pub open spec fn done(self) -> bool {
        self.y >= self.height || self.x >= self.width
    }

    /// The position before anything has been done. A frame without columns
    /// is finished from the start.
    pub open spec fn initial(width: u32, height: u32, samples: u32) -> Scan {
        Scan { width, height, samples, x: 0, y: if width == 0 { height } else { 0 }, taken: 0 }
    }

    /// The task that is due at this position.
    pub open spec fn task(self) -> Task {
        if self.done() {
            Task::Done
        } else if self.taken < self.samples {
            Task::Sample { aim: aim_at(self.width, self.height, self.samples, self.x, self.y) }
        } else {
            Task::Store { x: self.x, y: self.y, samples: self.samples }
        }
    }

    /// The position after the due task has been handed out.
    pub open spec fn successor(self) -> Scan {
        if self.done() {
            self
        } else if self.taken < self.samples {
            Scan { taken: (self.taken + 1) as u32, ..self }
        } else if self.x + 1 < self.width {
            Scan { x: (self.x + 1) as u32, taken: 0, ..self }
        } else {
            Scan { x: 0, y: (self.y + 1) as u32, taken: 0, ..self }
        }
    }

    /// The position after `k` tasks.
    pub open spec fn after(self, k: nat) -> Scan
        decreases k,
    {
        if k == 0 {
            self
        } else {
            self.successor().after((k - 1) as nat)
        }
    }

    /// How many tasks lie behind this position.
    pub open spec fn rank(self) -> int {
        (self.y * self.width + self.x) * (self.samples + 1) + self.taken
    }

    /// How many tasks the whole frame takes: for every pixel its samples and
    /// one store.
    pub open spec fn total(self) -> int {
        (self.height * self.width) * (self.samples + 1)
    }

    /// The scan of a frame, at its start.
    pub fn new(width: u32, height: u32, samples: u32) -> (scan: Scan)
        ensures
            scan == Scan::initial(width, height, samples),
            scan.wf(),
            scan.rank() == 0,
    {
        let y: u32 = if width == 0 {
            height
        } else {
            0
        };
        assert((y * width + 0) * (samples + 1) + 0 == 0) by (nonlinear_arith)
            requires
                y == 0 || width == 0,
        ;
        Scan { width, height, samples, x: 0, y, taken: 0 }
    }

    /// Whether every pixel has been stored.
    pub fn is_done(&self) -> (done: bool)
        ensures
            done == self.done(),
    {
        self.y >= self.height || self.x >= self.width
    }

    /// Hands out the due task and moves on. Each task but `Done` moves the
    /// scan one step further.
    pub fn next(&mut self) -> (task: Task)
        ensures
            task == old(self).task(),
            *final(self) == old(self).successor(),
            old(self).wf() ==> final(self).wf(),
            old(self).wf() && !old(self).done() ==> final(self).rank() == old(self).rank() + 1,
    {
        proof {
            lemma_step(*self);
        }
        if self.y >= self.height || self.x >= self.width {
            Task::Done
        } else if self.taken < self.samples {
            self.taken = self.taken + 1;
            Task::Sample {
                aim: Aim {
                    u_num: self.x,
                    u_den: self.width - 1,
                    v_num: self.height - 1 - self.y,
                    v_den: self.height - 1,
                    jitter: self.samples > 1,
                },
            }
        } else {
            let task = Task::Store { x: self.x, y: self.y, samples: self.samples };
            self.taken = 0;
            if self.x + 1 < self.width {
                self.x = self.x + 1;
            } else {
                self.x = 0;
                self.y = self.y + 1;
            }
            task
        }
    }
}

/// One step keeps the frame and a valid position, and leaves one more task
/// behind.
pub proof fn lemma_step(scan: Scan)
    ensures
        scan.successor().width == scan.width,
        scan.successor().height == scan.height,
        scan.successor().samples == scan.samples,
        scan.wf() ==> scan.successor().wf(),
        scan.wf() && !scan.done() ==> scan.successor().rank() == scan.rank() + 1,
{
    if scan.wf() && !scan.done() {
        let w = scan.width as int;
        let c = scan.samples as int + 1;
        let x = scan.x as int;
        let y = scan.y as int;
        if scan.taken < scan.samples {
        } else if x + 1 < w {
            assert((y * w + (x + 1)) * c == (y * w + x) * c + c) by (nonlinear_arith);
        } else {
            assert(((y + 1) * w + 0) * c == (y * w + x) * c + c) by (nonlinear_arith)
                requires
                    x + 1 == w,
            ;
        }
    }
}

/// What a valid position hands out lies in the frame: a store names a
/// pixel of the frame, and a sample is aimed at the image plane, with neither
/// numerator above its denominator and the row's numerator as far below the
/// denominator as the row is below the top.
/// A sample asks for a random offset only where a pixel has several samples:
/// a scan with one sample per pixel draws nothing.
pub proof fn lemma_task_in_frame(scan: Scan)
    requires
        scan.wf(),
    ensures
        match scan.task() {
            Task::Store { x, y, samples } => x < scan.width && y < scan.height && samples
                == scan.samples,
            Task::Sample { aim } => aim.u_num == scan.x && aim.u_num <= aim.u_den && aim.v_num
                <= aim.v_den && aim.v_num + scan.y == aim.v_den && aim.jitter == (scan.samples
                > 1),
            Task::Done => scan.rank() == scan.total(),
        },
{
    lemma_rank_bounds(scan);
}

/// The aims of a frame span the image plane and no more: the left column is
/// aimed at `u = 0` and the right column at `u = 1`, the top row at `v = 1`
/// and the bottom row at `v = 0`, and every row is aimed lower than the row
/// above it.
pub proof fn lemma_aim_spans_plane(width: u32, height: u32, samples: u32, x: u32, y: u32)
    requires
        x < width,
        y < height,
    ensures
        ({
            let aim = aim_at(width, height, samples, x, y);
            &&& aim.u_den == width - 1
            &&& aim.v_den == height - 1
            &&& aim.u_num == x
            &&& aim.v_num == height - 1 - y
            &&& (x == 0 ==> aim.u_num == 0)
            &&& (x == width - 1 ==> aim.u_num == aim.u_den)
            &&& (y == 0 ==> aim.v_num == aim.v_den)
            &&& (y == height - 1 ==> aim.v_num == 0)
            &&& (y + 1 < height ==> aim_at(width, height, samples, x, (y + 1) as u32).v_num + 1
                == aim.v_num)
        }),
{
}

/// A valid position has at most the frame's total behind it, and all of it
/// exactly when the scan is done.
pub proof fn lemma_rank_bounds(scan: Scan)
    requires
        scan.wf(),
    ensures
        0 <= scan.rank() <= scan.total(),
        scan.done() <==> scan.rank() == scan.total(),
{
    let w = scan.width as int;
    let h = scan.height as int;
    let c = scan.samples as int + 1;
    let x = scan.x as int;
    let y = scan.y as int;
    let t = scan.taken as int;
    if y < h {
        assert(0 <= (y * w + x) * c && (y * w + x) * c + t < (h * w) * c) by (nonlinear_arith)
            requires
                0 <= y < h,
                0 <= x < w,
                0 <= t < c,
        ;
    } else {
        assert(0 <= (h * w) * c) by (nonlinear_arith)
            requires
                0 <= h,
                0 <= w,
                0 < c,
        ;
    }
}

/// The length of a scan: after `k` tasks a valid position has `k` more
/// behind it, up to the frame's total, where it stays. From the start the
/// scan is therefore done after exactly `total` tasks.
pub proof fn lemma_scan_length(scan: Scan, k: nat)
    requires
        scan.wf(),
    ensures
        scan.after(k).wf(),
        scan.after(k).total() == scan.total(),
        scan.after(k).rank() == if scan.rank() + k < scan.total() {
            scan.rank() + k
        } else {
            scan.total()
        },
        scan.after(k).done() <==> scan.rank() + k >= scan.total(),
    decreases k,
{
    lemma_rank_bounds(scan);
    if k > 0 {
        lemma_step(scan);
        lemma_scan_length(scan.successor(), (k - 1) as nat);
    }
    lemma_rank_bounds(scan.after(k));
}

/// Position and rank determine each other: two valid positions in the same
/// frame with the same number of tasks behind them are the same position.
pub proof fn lemma_rank_is_position(a: Scan, b: Scan)
    requires
        a.wf(),
        b.wf(),
        a.width == b.width,
        a.height == b.height,
        a.samples == b.samples,
        a.rank() == b.rank(),
    ensures
        a == b,
{
    let w = a.width as int;
    let h = a.height as int;
    let c = a.samples as int + 1;
    lemma_rank_bounds(a);
    lemma_rank_bounds(b);
    if a.y < h && b.y < h {
        let pa = a.y * w + a.x;
        let pb = b.y * w + b.x;
        let ta = a.taken as int;
        let tb = b.taken as int;
        assert(pa == pb) by (nonlinear_arith)
            requires
                pa * c + ta == pb * c + tb,
                0 <= ta < c,
                0 <= tb < c,
        ;
        let ya = a.y as int;
        let yb = b.y as int;
        let xa = a.x as int;
        let xb = b.x as int;
        assert(ya == yb) by (nonlinear_arith)
            requires
                ya * w + xa == yb * w + xb,
                0 <= xa < w,
                0 <= xb < w,
        ;
    }
}

/// Where a scan stands follows from how many tasks lie behind it: the
/// remainder by a pixel's share of tasks counts the samples taken, and the
/// quotient numbers the pixels row by row.
pub proof fn lemma_position_of_rank(scan: Scan)
    requires
        scan.wf(),
        !scan.done(),
    ensures
        scan.taken == scan.rank() % (scan.samples + 1),
        scan.x == (scan.rank() / (scan.samples + 1)) % (scan.width as int),
        scan.y == (scan.rank() / (scan.samples + 1)) / (scan.width as int),
{
    let w = scan.width as int;
    let c = scan.samples as int + 1;
    let pixel = scan.y * w + scan.x;
    lemma_fundamental_div_mod_converse_mod(scan.rank(), c, pixel, scan.taken as int);
    lemma_fundamental_div_mod_converse_div(scan.rank(), c, pixel, scan.taken as int);
    lemma_fundamental_div_mod_converse_mod(pixel, w, scan.y as int, scan.x as int);
    lemma_fundamental_div_mod_converse_div(pixel, w, scan.y as int, scan.x as int);
}

/// The order of a scan in closed form: task number `k` of a frame, counted
/// from zero, belongs to pixel number `k / (samples + 1)`, counted row by
/// row, and is one of its samples unless it is the last of the pixel's
/// share, which is its store.
pub proof fn lemma_kth_task(width: u32, height: u32, samples: u32, k: nat)
    requires
        k < Scan::initial(width, height, samples).total(),
    ensures
        Scan::initial(width, height, samples).after(k) == (Scan {
            width,
            height,
            samples,
            x: ((k / (samples + 1) as nat) % (width as nat)) as u32,
            y: ((k / (samples + 1) as nat) / (width as nat)) as u32,
            taken: (k % (samples + 1) as nat) as u32,
        }),
{
    let start = Scan::initial(width, height, samples);
    assert(start.rank() == 0) by (nonlinear_arith)
        requires
            start.x == 0,
            start.taken == 0,
            start.y == 0 || start.width == 0,
            start.rank() == (start.y * start.width + start.x) * (start.samples + 1) + start.taken,
    ;
    lemma_scan_length(start, k);
    lemma_after_keeps_frame(start, k);
    lemma_position_of_rank(start.after(k));
}

/// A scan never changes the frame that it scans.
pub proof fn lemma_after_keeps_frame(scan: Scan, k: nat)
    ensures
        scan.after(k).width == scan.width,
        scan.after(k).height == scan.height,
        scan.after(k).samples == scan.samples,
    decreases k,
{
    if k > 0 {
        lemma_step(scan);
        lemma_after_keeps_frame(scan.successor(), (k - 1) as nat);
    }
}

} // verus!
