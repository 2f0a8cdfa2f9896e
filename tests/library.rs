use mandelbrot::aggregate::{ComputeError, ComputePass, PassEvent, PassStatus};
use mandelbrot::color::{background, colorize, gray, shade, ColorPolicy, DivergenceResult, Rgba};
use mandelbrot::evaluator::EscapeTracker;
use mandelbrot::partition::{partition, WorkUnit};
use mandelbrot::raster::{PixelResult, RasterBuffer, RasterDimensions};
use mandelbrot::worker::{render_unit, unit_pixels};

fn rows(units: &[WorkUnit]) -> Vec<(u32, u32)> {
    units.iter().map(|u| (u.row_start, u.row_end)).collect()
}

fn px(x: u32, y: u32, level: u8) -> PixelResult {
    PixelResult { x, y, color: gray(level) }
}

fn run_tracker(max_iterations: u32, bailouts: &[bool]) -> DivergenceResult {
    let mut t = EscapeTracker::new(max_iterations);
    let mut i = 0;
    loop {
        if let Some(r) = t.outcome() {
            return r;
        }
        t.observe(bailouts.get(i).copied().unwrap_or(false));
        i += 1;
    }
}

fn start(width: u32, height: u32, job_count: u32) -> (ComputePass, Vec<WorkUnit>) {
    match ComputePass::start(RasterDimensions { width, height }, job_count) {
        Ok(p) => p,
        Err(e) => panic!("start failed: {:?}", e),
    }
}

fn expect_awaiting(s: PassStatus) -> ComputePass {
    match s {
        PassStatus::Awaiting(p) => p,
        PassStatus::Done(_) => panic!("done too early"),
        PassStatus::Failed(e) => panic!("failed: {:?}", e),
    }
}

fn expect_done(s: PassStatus) -> RasterBuffer {
    match s {
        PassStatus::Done(r) => r,
        PassStatus::Awaiting(_) => panic!("still awaiting"),
        PassStatus::Failed(e) => panic!("failed: {:?}", e),
    }
}

fn expect_failed(s: PassStatus) -> ComputeError {
    match s {
        PassStatus::Failed(e) => e,
        PassStatus::Awaiting(_) => panic!("still awaiting"),
        PassStatus::Done(_) => panic!("unexpectedly done"),
    }
}

// A 2x2 raster in one unit, every pixel written once.
fn full_batch() -> Vec<PixelResult> {
    vec![px(0, 0, 10), px(1, 0, 20), px(0, 1, 30), px(1, 1, 40)]
}

#[test]
fn binary_policy_has_two_colors() {
    let black = Rgba { r: 0, g: 0, b: 0, a: 255 };
    let white = Rgba { r: 255, g: 255, b: 255, a: 255 };
    assert_eq!(colorize(ColorPolicy::Binary, DivergenceResult::Bounded), black);
    assert_eq!(colorize(ColorPolicy::Binary, DivergenceResult::Diverged(0)), white);
    assert_eq!(colorize(ColorPolicy::Binary, DivergenceResult::Diverged(200)), white);
    assert_eq!(colorize(ColorPolicy::Binary, DivergenceResult::Diverged(u32::MAX)), white);
}

#[test]
fn graded_policy_grows_with_step() {
    assert_eq!(colorize(ColorPolicy::Graded, DivergenceResult::Bounded), gray(0));
    assert_eq!(colorize(ColorPolicy::Graded, DivergenceResult::Diverged(7)), gray(7));
    assert_eq!(colorize(ColorPolicy::Graded, DivergenceResult::Diverged(255)), gray(255));
    assert_eq!(colorize(ColorPolicy::Graded, DivergenceResult::Diverged(1000)), gray(255));
    let mut last = 0u8;
    for n in 0..600u32 {
        let c = colorize(ColorPolicy::Graded, DivergenceResult::Diverged(n));
        assert!(c.r >= last);
        assert_eq!(c.r, c.g);
        assert_eq!(c.g, c.b);
        last = c.r;
    }
}

#[test]
fn shade_saturates() {
    assert_eq!(shade(0), 0);
    assert_eq!(shade(254), 254);
    assert_eq!(shade(255), 255);
    assert_eq!(shade(70000), 255);
}

#[test]
fn background_is_distinct_from_policy_colors() {
    let bg = background();
    assert_eq!(bg.a, 0);
    for r in [DivergenceResult::Bounded, DivergenceResult::Diverged(0), DivergenceResult::Diverged(9)] {
        assert_ne!(colorize(ColorPolicy::Binary, r), bg);
        assert_ne!(colorize(ColorPolicy::Graded, r), bg);
    }
}

#[test]
fn is_bounded_tells_variants_apart() {
    assert!(DivergenceResult::Bounded.is_bounded());
    assert!(!DivergenceResult::Diverged(3).is_bounded());
}

#[test]
fn partition_even_split() {
    assert_eq!(rows(&partition(8, 4)), vec![(0, 2), (2, 4), (4, 6), (6, 8)]);
}

#[test]
fn partition_remainder_goes_to_last_unit() {
    assert_eq!(rows(&partition(10, 3)), vec![(0, 3), (3, 6), (6, 10)]);
    assert_eq!(rows(&partition(720, 32)).last(), Some(&(682, 720)));
}

#[test]
fn partition_limits_job_count() {
    assert_eq!(rows(&partition(4, 40)), vec![(0, 1), (1, 2), (2, 3), (3, 4)]);
    assert_eq!(rows(&partition(5, 0)), vec![(0, 5)]);
    assert_eq!(rows(&partition(1, 1)), vec![(0, 1)]);
}

#[test]
fn partition_covers_every_row_once() {
    for height in 1..40u32 {
        for job_count in 1..=height {
            let units = partition(height, job_count);
            assert_eq!(units.len() as u32, job_count);
            let mut seen = vec![0u32; height as usize];
            for u in &units {
                assert!(u.row_start < u.row_end);
                for r in u.row_start..u.row_end {
                    seen[r as usize] += 1;
                }
            }
            assert!(seen.iter().all(|&c| c == 1));
        }
    }
}

#[test]
fn tracker_reports_first_bailout() {
    assert_eq!(run_tracker(50, &[false, false, true, true]), DivergenceResult::Diverged(2));
    assert_eq!(run_tracker(50, &[true]), DivergenceResult::Diverged(0));
}

#[test]
fn tracker_bounded_after_budget() {
    assert_eq!(run_tracker(3, &[false, false, false, true]), DivergenceResult::Bounded);
    assert_eq!(run_tracker(3, &[]), DivergenceResult::Bounded);
    assert_eq!(run_tracker(0, &[true]), DivergenceResult::Bounded);
}

#[test]
fn tracker_decides_only_at_the_end() {
    let mut t = EscapeTracker::new(2);
    assert_eq!(t.outcome(), None);
    t.observe(false);
    assert_eq!(t.outcome(), None);
    t.observe(false);
    assert_eq!(t.outcome(), Some(DivergenceResult::Bounded));
}

#[test]
fn tracker_is_deterministic() {
    let trace = [false, false, false, false, true];
    assert_eq!(run_tracker(10, &trace), run_tracker(10, &trace));
}

#[test]
fn unit_pixels_row_major() {
    let u = WorkUnit { row_start: 2, row_end: 4 };
    assert_eq!(unit_pixels(u, 3), vec![(0, 2), (1, 2), (2, 2), (0, 3), (1, 3), (2, 3)]);
    assert_eq!(unit_pixels(WorkUnit { row_start: 1, row_end: 1 }, 3), vec![]);
}

#[test]
fn render_unit_colors_each_pixel() {
    let u = WorkUnit { row_start: 1, row_end: 2 };
    let results = vec![DivergenceResult::Bounded, DivergenceResult::Diverged(5)];
    let r = render_unit(u, 2, &results, ColorPolicy::Graded);
    assert_eq!(r, vec![px(0, 1, 0), px(1, 1, 5)]);
    let r = render_unit(u, 2, &results, ColorPolicy::Binary);
    assert_eq!(r, vec![px(0, 1, 0), px(1, 1, 255)]);
}

#[test]
fn start_rejects_empty_dimensions() {
    for (w, h) in [(0, 5), (5, 0), (0, 0)] {
        match ComputePass::start(RasterDimensions { width: w, height: h }, 4) {
            Err(e) => assert_eq!(e, ComputeError::InvalidDimensions),
            Ok(_) => panic!("accepted {}x{}", w, h),
        }
    }
}

#[test]
fn start_rejects_unaddressable_dimensions() {
    match ComputePass::start(RasterDimensions { width: u32::MAX, height: u32::MAX }, 4) {
        Err(e) => assert_eq!(e, ComputeError::InvalidDimensions),
        Ok(_) => panic!("accepted a raster too large to address"),
    }
}

#[test]
fn start_returns_partition() {
    let (_, units) = start(3, 10, 3);
    assert_eq!(rows(&units), vec![(0, 3), (3, 6), (6, 10)]);
}

#[test]
fn pass_completes_with_all_pixels() {
    let (pass, units) = start(2, 2, 1);
    assert_eq!(units.len(), 1);
    let raster = expect_done(pass.on_event(PassEvent::Batch(full_batch())));
    assert_eq!(raster.width(), 2);
    assert_eq!(raster.height(), 2);
    assert_eq!(raster.pixel(0, 0), gray(10));
    assert_eq!(raster.pixel(1, 0), gray(20));
    assert_eq!(raster.pixel(0, 1), gray(30));
    assert_eq!(raster.pixel(1, 1), gray(40));
}

#[test]
fn pass_waits_for_every_unit() {
    let (pass, units) = start(2, 2, 2);
    assert_eq!(units.len(), 2);
    let pass = expect_awaiting(pass.on_event(PassEvent::Batch(vec![px(1, 1, 4), px(0, 1, 3)])));
    let raster = expect_done(pass.on_event(PassEvent::Batch(vec![px(0, 0, 1), px(1, 0, 2)])));
    assert_eq!(raster.to_rgba_bytes(), vec![1, 1, 1, 255, 2, 2, 2, 255, 3, 3, 3, 255, 4, 4, 4, 255]);
}

#[test]
fn pass_timeout_is_worker_lost() {
    let (pass, _) = start(2, 2, 2);
    let pass = expect_awaiting(pass.on_event(PassEvent::Batch(vec![px(0, 0, 1), px(1, 0, 2)])));
    assert_eq!(expect_failed(pass.on_event(PassEvent::TimedOut)), ComputeError::WorkerLost);
}

#[test]
fn pass_disconnect_is_worker_lost() {
    let (pass, _) = start(2, 2, 1);
    assert_eq!(expect_failed(pass.on_event(PassEvent::Disconnected)), ComputeError::WorkerLost);
}

#[test]
fn pass_rejects_out_of_bounds_pixel() {
    let (pass, _) = start(2, 2, 1);
    let mut batch = full_batch();
    batch.push(px(2, 0, 9));
    assert_eq!(expect_failed(pass.on_event(PassEvent::Batch(batch))), ComputeError::CorruptResult);
    let (pass, _) = start(2, 2, 1);
    let batch = vec![px(0, 2, 9)];
    assert_eq!(expect_failed(pass.on_event(PassEvent::Batch(batch))), ComputeError::CorruptResult);
}

#[test]
fn pass_rejects_duplicate_pixel() {
    let (pass, _) = start(2, 2, 1);
    let mut batch = full_batch();
    batch.push(px(1, 1, 9));
    assert_eq!(expect_failed(pass.on_event(PassEvent::Batch(batch))), ComputeError::CorruptResult);
    let (pass, _) = start(2, 2, 2);
    let pass = expect_awaiting(pass.on_event(PassEvent::Batch(vec![px(0, 0, 1)])));
    let again = vec![px(0, 0, 1)];
    assert_eq!(expect_failed(pass.on_event(PassEvent::Batch(again))), ComputeError::CorruptResult);
}

#[test]
fn pass_rejects_missing_pixels() {
    let (pass, _) = start(2, 2, 1);
    let batch = vec![px(0, 0, 1), px(1, 0, 2), px(0, 1, 3)];
    assert_eq!(expect_failed(pass.on_event(PassEvent::Batch(batch))), ComputeError::CorruptResult);
}

// What follows drives a whole pass the way the engine does, with the orbit computed in
// f64 and every decision taken by the library.

fn plane_point(x: u32, y: u32, w: u32, h: u32, center: (f64, f64), scale: f64) -> (f64, f64) {
    let pw = 3.0 / scale;
    let ph = 2.0 / scale;
    (center.0 - pw / 2.0 + x as f64 * pw / w as f64, center.1 - ph / 2.0 + y as f64 * ph / h as f64)
}

fn evaluate(c: (f64, f64), max_iterations: u32) -> DivergenceResult {
    let mut t = EscapeTracker::new(max_iterations);
    let (mut zr, mut zi) = (0.0f64, 0.0f64);
    loop {
        if let Some(r) = t.outcome() {
            return r;
        }
        let nr = zr * zr - zi * zi + c.0;
        zi = 2.0 * zr * zi + c.1;
        zr = nr;
        t.observe((zr * zr + zi * zi).sqrt() >= 2.0);
    }
}

fn render(w: u32, h: u32, job_count: u32, policy: ColorPolicy) -> Vec<u8> {
    let (mut pass, units) = start(w, h, job_count);
    let mut batches = Vec::new();
    for u in &units {
        let results: Vec<DivergenceResult> = unit_pixels(*u, w)
            .iter()
            .map(|&(x, y)| evaluate(plane_point(x, y, w, h, (-0.5, 0.0), 1.0), 50))
            .collect();
        batches.push(render_unit(*u, w, &results, policy));
    }
    // Deliver in reverse: arrival order must not matter.
    batches.reverse();
    let n = batches.len();
    for (i, b) in batches.into_iter().enumerate() {
        let status = pass.on_event(PassEvent::Batch(b));
        if i + 1 == n {
            return expect_done(status).to_rgba_bytes();
        }
        pass = expect_awaiting(status);
    }
    unreachable!()
}

#[test]
fn four_by_four_binary_render_is_complete_and_repeatable() {
    let a = render(4, 4, 4, ColorPolicy::Binary);
    let b = render(4, 4, 4, ColorPolicy::Binary);
    assert_eq!(a.len(), 64);
    assert!(a.chunks(4).all(|p| p[3] == 255));
    assert_eq!(a, b);
    // Pixel (2, 2) maps to -0.5 + 0i, inside the set; pixel (0, 0) to -2 - 1i, outside.
    assert_eq!(&a[(2 * 4 + 2) * 4..(2 * 4 + 2) * 4 + 4], &[0, 0, 0, 255]);
    assert_eq!(&a[0..4], &[255, 255, 255, 255]);
}

#[test]
fn job_count_does_not_change_raster() {
    let one = render(4, 4, 1, ColorPolicy::Graded);
    let forty = render(4, 4, 40, ColorPolicy::Graded);
    assert_eq!(one, forty);
    let one = render(37, 23, 1, ColorPolicy::Graded);
    let forty = render(37, 23, 40, ColorPolicy::Graded);
    assert_eq!(one, forty);
}
