use vstd::prelude::*;
use crate::color::{colorize, colorize_spec, ColorPolicy, DivergenceResult};
use crate::partition::WorkUnit;
use crate::raster::PixelResult;

verus! {

/// Number of pixels in `unit` of a raster `width` pixels wide.
pub open spec fn unit_len(unit: WorkUnit, width: nat) -> nat {
    ((unit.row_end - unit.row_start) * width) as nat
}

/// Position of pixel `(x, y)` in the row-major order of `unit`.
pub open spec fn unit_offset(unit: WorkUnit, width: nat, x: nat, y: nat) -> int {
    (y - unit.row_start) * width + x
}

/// Whether `(x, y)` is a pixel of `unit`.
pub open spec fn in_unit_area(unit: WorkUnit, width: nat, x: nat, y: nat) -> bool {
    unit.row_start <= y < unit.row_end && x < width
}

pub open spec fn unit_fits(unit: WorkUnit, width: nat) -> bool {
    unit.row_start <= unit.row_end && unit_len(unit, width) <= usize::MAX
}

proof fn lemma_offset_bound(unit: WorkUnit, width: nat, x: nat, y: nat, rows: nat)
    requires
        unit.row_start <= y,
        y < unit.row_start + rows,
        x < width,
    ensures
        0 <= unit_offset(unit, width, x, y) < rows * width,
{
    let a = y - unit.row_start;
    assert(0 <= a * width + x < rows * width) by (nonlinear_arith)
        requires
            0 <= a < rows,
            x < width,
    ;
}

proof fn lemma_offset_step(unit: WorkUnit, width: nat, y: nat)
    requires
        unit.row_start <= y,
    ensures
        ((y + 1 - unit.row_start) * width) == (y - unit.row_start) * width + width,
{
    let a = y - unit.row_start;
    assert((a + 1) * width == a * width + width) by (nonlinear_arith);
}

/// The pixels of `unit`, row by row and left to right within a row.
pub fn unit_pixels(unit: WorkUnit, width: u32) -> (r: Vec<(u32, u32)>)
    requires
        unit_fits(unit, width as nat),
    ensures
        r@.len() == unit_len(unit, width as nat),
        forall|x: nat, y: nat|
            #[trigger] in_unit_area(unit, width as nat, x, y) ==> r@[unit_offset(
                unit,
                width as nat,
                x,
                y,
            )] == (x as u32, y as u32),
        forall|k: int|
            0 <= k < r@.len() ==> {
                &&& in_unit_area(unit, width as nat, (#[trigger] r@[k]).0 as nat, r@[k].1 as nat)
                &&& unit_offset(unit, width as nat, r@[k].0 as nat, r@[k].1 as nat) == k
            },
{
    let mut r: Vec<(u32, u32)> = Vec::new();
    let mut y: u32 = unit.row_start;
    while y < unit.row_end
        invariant
            unit_fits(unit, width as nat),
            unit.row_start <= y <= unit.row_end,
            r@.len() == (y - unit.row_start) * width,
            forall|xx: nat, yy: nat|
                #[trigger] in_unit_area(unit, width as nat, xx, yy) && yy < y ==> r@[unit_offset(
                    unit,
                    width as nat,
                    xx,
                    yy,
                )] == (xx as u32, yy as u32),
            forall|k: int|
                0 <= k < r@.len() ==> {
                    &&& in_unit_area(unit, width as nat, (#[trigger] r@[k]).0 as nat, r@[k].1 as nat)
                    &&& unit_offset(unit, width as nat, r@[k].0 as nat, r@[k].1 as nat) == k
                },
        decreases unit.row_end - y,
    {
        let mut x: u32 = 0;
        proof {
            lemma_offset_step(unit, width as nat, y as nat);
        }
        while x < width
            invariant
                unit_fits(unit, width as nat),
                unit.row_start <= y < unit.row_end,
                x <= width,
                r@.len() == (y - unit.row_start) * width + x,
                ((y + 1 - unit.row_start) * width) == (y - unit.row_start) * width + width,
                forall|xx: nat, yy: nat|
                    #[trigger] in_unit_area(unit, width as nat, xx, yy) && (yy < y || (yy == y
                        && xx < x)) ==> r@[unit_offset(unit, width as nat, xx, yy)] == (
                        xx as u32,
                        yy as u32,
                    ),
                forall|k: int|
                    0 <= k < r@.len() ==> {
                        &&& in_unit_area(unit, width as nat, (#[trigger] r@[k]).0 as nat, r@[k].1 as nat)
                        &&& unit_offset(unit, width as nat, r@[k].0 as nat, r@[k].1 as nat) == k
                    },
            decreases width - x,
        {
            let ghost before = r@;
            r.push((x, y));
            assert(r@[r@.len() - 1] == (x, y));
            assert forall|xx: nat, yy: nat|
                #[trigger] in_unit_area(unit, width as nat, xx, yy) && (yy < y || (yy == y && xx
                    < x + 1)) implies r@[unit_offset(unit, width as nat, xx, yy)] == (
                xx as u32,
                yy as u32,
            ) by {
                if yy < y {
                    lemma_offset_bound(unit, width as nat, xx, yy, (y - unit.row_start) as nat);
                    assert(r@[unit_offset(unit, width as nat, xx, yy)] == before[unit_offset(
                        unit,
                        width as nat,
                        xx,
                        yy,
                    )]);
                } else if xx < x {
                    assert(r@[unit_offset(unit, width as nat, xx, yy)] == before[unit_offset(
                        unit,
                        width as nat,
                        xx,
                        yy,
                    )]);
                }
            }
            x = x + 1;
        }
        y = y + 1;
    }
    r
}

/// The pixel results of `unit`: `results` holds the divergence result of each pixel in
/// the order of `unit_pixels`, and each is colored by `policy`.
pub fn render_unit(
    unit: WorkUnit,
    width: u32,
    results: &Vec<DivergenceResult>,
    policy: ColorPolicy,
) -> (r: Vec<PixelResult>)
    requires
        unit_fits(unit, width as nat),
        results@.len() == unit_len(unit, width as nat),
    ensures
        r@.len() == results@.len(),
        forall|x: nat, y: nat|
            #[trigger] in_unit_area(unit, width as nat, x, y) ==> r@[unit_offset(
                unit,
                width as nat,
                x,
                y,
            )] == (PixelResult {
                x: x as u32,
                y: y as u32,
                color: colorize_spec(policy, results@[unit_offset(unit, width as nat, x, y)]),
            }),
        forall|k: int|
            0 <= k < r@.len() ==> {
                &&& in_unit_area(unit, width as nat, (#[trigger] r@[k]).x as nat, r@[k].y as nat)
                &&& unit_offset(unit, width as nat, r@[k].x as nat, r@[k].y as nat) == k
            },
{
    let mut r: Vec<PixelResult> = Vec::new();
    let mut y: u32 = unit.row_start;
    let mut k: usize = 0;
    while y < unit.row_end
        invariant
            unit_fits(unit, width as nat),
            results@.len() == unit_len(unit, width as nat),
            unit.row_start <= y <= unit.row_end,
            r@.len() == (y - unit.row_start) * width,
            k == r@.len(),
            forall|xx: nat, yy: nat|
                #[trigger] in_unit_area(unit, width as nat, xx, yy) && yy < y ==> r@[unit_offset(
                    unit,
                    width as nat,
                    xx,
                    yy,
                )] == (PixelResult {
                    x: xx as u32,
                    y: yy as u32,
                    color: colorize_spec(policy, results@[unit_offset(unit, width as nat, xx, yy)]),
                }),
            forall|k: int|
                0 <= k < r@.len() ==> {
                    &&& in_unit_area(unit, width as nat, (#[trigger] r@[k]).x as nat, r@[k].y as nat)
                    &&& unit_offset(unit, width as nat, r@[k].x as nat, r@[k].y as nat) == k
                },
        decreases unit.row_end - y,
    {
        let mut x: u32 = 0;
        proof {
            lemma_offset_step(unit, width as nat, y as nat);
            assert((y + 1 - unit.row_start) * width <= (unit.row_end - unit.row_start) * width)
                by (nonlinear_arith)
                requires
                    y + 1 <= unit.row_end,
            ;
        }
        while x < width
            invariant
                unit_fits(unit, width as nat),
                results@.len() == unit_len(unit, width as nat),
                unit.row_start <= y < unit.row_end,
                x <= width,
                r@.len() == (y - unit.row_start) * width + x,
                k == r@.len(),
                ((y + 1 - unit.row_start) * width) == (y - unit.row_start) * width + width,
                (y + 1 - unit.row_start) * width <= (unit.row_end - unit.row_start) * width,
                forall|xx: nat, yy: nat|
                    #[trigger] in_unit_area(unit, width as nat, xx, yy) && (yy < y || (yy == y
                        && xx < x)) ==> r@[unit_offset(unit, width as nat, xx, yy)] == (
                    PixelResult {
                        x: xx as u32,
                        y: yy as u32,
                        color: colorize_spec(
                            policy,
                            results@[unit_offset(unit, width as nat, xx, yy)],
                        ),
                    }),
                forall|k: int|
                    0 <= k < r@.len() ==> {
                        &&& in_unit_area(unit, width as nat, (#[trigger] r@[k]).x as nat, r@[k].y as nat)
                        &&& unit_offset(unit, width as nat, r@[k].x as nat, r@[k].y as nat) == k
                    },
            decreases width - x,
        {
            let ghost before = r@;
            let color = colorize(policy, results[k]);
            r.push(PixelResult { x, y, color });
            assert(r@[r@.len() - 1] == PixelResult { x, y, color });
            assert forall|xx: nat, yy: nat|
                #[trigger] in_unit_area(unit, width as nat, xx, yy) && (yy < y || (yy == y && xx
                    < x + 1)) implies r@[unit_offset(unit, width as nat, xx, yy)] == (PixelResult {
                x: xx as u32,
                y: yy as u32,
                color: colorize_spec(policy, results@[unit_offset(unit, width as nat, xx, yy)]),
            }) by {
                if yy < y {
                    lemma_offset_bound(unit, width as nat, xx, yy, (y - unit.row_start) as nat);
                    assert(r@[unit_offset(unit, width as nat, xx, yy)] == before[unit_offset(
                        unit,
                        width as nat,
                        xx,
                        yy,
                    )]);
                } else if xx < x {
                    assert(r@[unit_offset(unit, width as nat, xx, yy)] == before[unit_offset(
                        unit,
                        width as nat,
                        xx,
                        yy,
                    )]);
                }
            }
            k = k + 1;
            x = x + 1;
        }
        y = y + 1;
    }
    r
}

} // verus!
