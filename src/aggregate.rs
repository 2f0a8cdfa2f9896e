use vstd::prelude::*;
use vstd::arithmetic::div_mod::lemma_fundamental_div_mod;
use crate::color::{background, Rgba};
use crate::partition::{partition, unit_count_spec, unit_end_spec, unit_start_spec, WorkUnit};
use crate::raster::{
    cell_index, lemma_cell_index_bound, lemma_cell_index_injective, PixelResult, RasterBuffer, RasterDimensions,
};

verus! {

/// Why a compute pass produced no raster.
#[derive(Clone, Copy, Debug, PartialEq, Eq, Structural)]
pub enum ComputeError {
    /// The raster has no pixels, or too many to address as RGBA bytes.
    InvalidDimensions,
    /// A unit's results did not arrive before the wait ended.
    WorkerLost,
    /// A batch held a pixel outside the raster or one already written, or the batches
    /// left some pixel unwritten.
    CorruptResult,
}

/// What the waiting side of a pass observed next.
pub enum PassEvent {
    /// The pixel results of one unit arrived.
    Batch(Vec<PixelResult>),
    /// The wait for the next batch ran out of time.
    TimedOut,
    /// Every sender is gone, so no further batch can arrive.
    Disconnected,
}

/// A pass after an event: still waiting, finished with a raster, or failed as a whole.
pub enum PassStatus {
    Awaiting(ComputePass),
    Done(RasterBuffer),
    Failed(ComputeError),
}

/// Dimensions that a pass accepts: at least one pixel, and few enough that the raster's
/// RGBA bytes can be addressed.
pub open spec fn valid_dimensions(dims: RasterDimensions) -> bool {
    &&& dims.width >= 1
    &&& dims.height >= 1
    &&& 4 * (dims.width as nat * dims.height as nat) <= usize::MAX
}

/// The cells of `cells` after the pixels of `batch` are written in order.
pub open spec fn apply_batch(width: nat, cells: Seq<Option<Rgba>>, batch: Seq<PixelResult>) -> Seq<
    Option<Rgba>,
>
    decreases batch.len(),
{
    if batch.len() == 0 {
        cells
    } else {
        let p = batch.last();
        apply_batch(width, cells, batch.drop_last()).update(
            cell_index(width, p.x as nat, p.y as nat) as int,
            Some(p.color),
        )
    }
}

/// Whether every pixel of `batch` lies in the raster and lands on a cell that neither
/// an earlier batch (`cells`) nor an earlier pixel of the same batch has written.
pub open spec fn batch_fits(
    width: nat,
    height: nat,
    cells: Seq<Option<Rgba>>,
    batch: Seq<PixelResult>,
) -> bool
    decreases batch.len(),
{
    if batch.len() == 0 {
        true
    } else {
        let p = batch.last();
        &&& batch_fits(width, height, cells, batch.drop_last())
        &&& p.x < width
        &&& p.y < height
        &&& apply_batch(width, cells, batch.drop_last())[cell_index(
            width,
            p.x as nat,
            p.y as nat,
        ) as int] is None
    }
}

pub open spec fn all_written(cells: Seq<Option<Rgba>>) -> bool {
    forall|i: int| 0 <= i < cells.len() ==> (#[trigger] cells[i]) is Some
}

/// A batch that fits writes each of its pixels exactly once: its pixels lie in the
/// raster, no two name the same pixel, none lands on a cell written before, each cell it
/// names then holds that pixel's color, and a cell written before stays as it was.
pub proof fn lemma_batch_writes_once(
    width: nat,
    height: nat,
    cells: Seq<Option<Rgba>>,
    batch: Seq<PixelResult>,
)
    requires
        cells.len() == width * height,
        batch_fits(width, height, cells, batch),
    ensures
        apply_batch(width, cells, batch).len() == cells.len(),
        forall|k: int|
            0 <= k < batch.len() ==> {
                &&& (#[trigger] batch[k]).x < width
                &&& batch[k].y < height
                &&& cells[cell_index(width, batch[k].x as nat, batch[k].y as nat) as int] is None
                &&& apply_batch(width, cells, batch)[cell_index(
                    width,
                    batch[k].x as nat,
                    batch[k].y as nat,
                ) as int] == Some(batch[k].color)
            },
        forall|k1: int, k2: int|
            0 <= k1 < k2 < batch.len() ==> !(#[trigger] batch[k1].x == #[trigger] batch[k2].x
                && batch[k1].y == batch[k2].y),
        forall|i: int| 0 <= i < cells.len() && (#[trigger] cells[i]) is Some ==> apply_batch(
            width,
            cells,
            batch,
        )[i] == cells[i],
    decreases batch.len(),
{
    if batch.len() > 0 {
        let prev = batch.drop_last();
        let p = batch.last();
        let last = batch.len() - 1;
        lemma_batch_writes_once(width, height, cells, prev);
        let before = apply_batch(width, cells, prev);
        let ip = cell_index(width, p.x as nat, p.y as nat) as int;
        lemma_cell_index_bound(width, height, p.x as nat, p.y as nat);
        assert forall|k: int| 0 <= k < prev.len() implies prev[k] == batch[k] by {}
        assert(apply_batch(width, cells, batch) == before.update(ip, Some(p.color)));
        assert(batch[last as int] == p);
        assert forall|k1: int, k2: int|
            0 <= k1 < k2 < batch.len() implies !(#[trigger] batch[k1].x == #[trigger] batch[k2].x
                && batch[k1].y == batch[k2].y) by {
            if k2 == last {
                assert(prev[k1] == batch[k1]);
            } else {
                assert(prev[k1] == batch[k1] && prev[k2] == batch[k2]);
            }
        }
        assert forall|k: int| 0 <= k < batch.len() implies {
            &&& (#[trigger] batch[k]).x < width
            &&& batch[k].y < height
            &&& cells[cell_index(width, batch[k].x as nat, batch[k].y as nat) as int] is None
            &&& apply_batch(width, cells, batch)[cell_index(
                width,
                batch[k].x as nat,
                batch[k].y as nat,
            ) as int] == Some(batch[k].color)
        } by {
            if k < last {
                assert(prev[k] == batch[k]);
                let q = batch[k];
                lemma_cell_index_bound(width, height, q.x as nat, q.y as nat);
                assert(before[cell_index(width, q.x as nat, q.y as nat) as int] == Some(q.color));
                if cell_index(width, q.x as nat, q.y as nat) == cell_index(width, p.x as nat, p.y as nat) {
                    lemma_cell_index_injective(width, q.x as nat, q.y as nat, p.x as nat, p.y as nat);
                    assert(batch[k].x == batch[last].x);
                }
            } else {
                if cells[ip] is Some {
                    assert(before[ip] == cells[ip]);
                }
            }
        }
    }
}

/// The cells after `batches` are written one after another, as a pass does.
pub open spec fn apply_batches(
    width: nat,
    cells: Seq<Option<Rgba>>,
    batches: Seq<Seq<PixelResult>>,
) -> Seq<Option<Rgba>>
    decreases batches.len(),
{
    if batches.len() == 0 {
        cells
    } else {
        apply_batch(width, apply_batches(width, cells, batches.drop_last()), batches.last())
    }
}

/// The cells of a raster before any pixel is written.
pub open spec fn empty_cells(width: nat, height: nat) -> Seq<Option<Rgba>> {
    Seq::new(width * height, |i: int| None::<Rgba>)
}

/// Whether every written cell of `cells` holds `color(x, y)` of its pixel.
pub open spec fn colored_by(
    width: nat,
    height: nat,
    cells: Seq<Option<Rgba>>,
    color: spec_fn(nat, nat) -> Rgba,
) -> bool {
    forall|x: nat, y: nat|
        x < width && y < height && (#[trigger] cells[cell_index(width, x, y) as int]) is Some
            ==> cells[cell_index(width, x, y) as int] == Some(color(x, y))
}

/// Whether every pixel of every batch lies in the raster and carries `color(x, y)`.
pub open spec fn batches_colored_by(
    width: nat,
    height: nat,
    batches: Seq<Seq<PixelResult>>,
    color: spec_fn(nat, nat) -> Rgba,
) -> bool {
    forall|b: int, k: int|
        0 <= b < batches.len() && 0 <= k < batches[b].len() ==> {
            &&& (#[trigger] batches[b][k]).x < width
            &&& batches[b][k].y < height
            &&& batches[b][k].color == color(batches[b][k].x as nat, batches[b][k].y as nat)
        }
}

proof fn lemma_apply_batch_colored(
    width: nat,
    height: nat,
    cells: Seq<Option<Rgba>>,
    batch: Seq<PixelResult>,
    color: spec_fn(nat, nat) -> Rgba,
)
    requires
        cells.len() == width * height,
        colored_by(width, height, cells, color),
        forall|k: int|
            0 <= k < batch.len() ==> {
                &&& (#[trigger] batch[k]).x < width
                &&& batch[k].y < height
                &&& batch[k].color == color(batch[k].x as nat, batch[k].y as nat)
            },
    ensures
        apply_batch(width, cells, batch).len() == cells.len(),
        colored_by(width, height, apply_batch(width, cells, batch), color),
    decreases batch.len(),
{
    if batch.len() > 0 {
        let prev = batch.drop_last();
        let p = batch.last();
        assert(p == batch[batch.len() - 1]);
        assert forall|k: int| 0 <= k < prev.len() implies prev[k] == batch[k] by {}
        lemma_apply_batch_colored(width, height, cells, prev, color);
        let before = apply_batch(width, cells, prev);
        let after = apply_batch(width, cells, batch);
        assert(after == before.update(
            cell_index(width, p.x as nat, p.y as nat) as int,
            Some(p.color),
        ));
        lemma_cell_index_bound(width, height, p.x as nat, p.y as nat);
        assert forall|x: nat, y: nat|
            x < width && y < height && (#[trigger] after[cell_index(width, x, y) as int]) is Some
                implies after[cell_index(width, x, y) as int] == Some(color(x, y)) by {
            lemma_cell_index_bound(width, height, x, y);
            if cell_index(width, x, y) == cell_index(width, p.x as nat, p.y as nat) {
                lemma_cell_index_injective(width, x, y, p.x as nat, p.y as nat);
            } else {
                assert(after[cell_index(width, x, y) as int] == before[cell_index(
                    width,
                    x,
                    y,
                ) as int]);
            }
        }
    }
}

proof fn lemma_apply_batches_colored(
    width: nat,
    height: nat,
    batches: Seq<Seq<PixelResult>>,
    color: spec_fn(nat, nat) -> Rgba,
)
    requires
        batches_colored_by(width, height, batches, color),
    ensures
        apply_batches(width, empty_cells(width, height), batches).len() == width * height,
        colored_by(width, height, apply_batches(width, empty_cells(width, height), batches), color),
    decreases batches.len(),
{
    if batches.len() > 0 {
        let prev = batches.drop_last();
        let last = batches.last();
        assert forall|b: int, k: int|
            0 <= b < prev.len() && 0 <= k < prev[b].len() implies {
                &&& (#[trigger] prev[b][k]).x < width
                &&& prev[b][k].y < height
                &&& prev[b][k].color == color(prev[b][k].x as nat, prev[b][k].y as nat)
            } by {
            assert(prev[b] == batches[b]);
            assert(batches[b][k] == prev[b][k]);
        }
        lemma_apply_batches_colored(width, height, prev, color);
        assert forall|k: int| 0 <= k < last.len() implies {
            &&& (#[trigger] last[k]).x < width
            &&& last[k].y < height
            &&& last[k].color == color(last[k].x as nat, last[k].y as nat)
        } by {
            assert(batches[batches.len() - 1][k] == last[k]);
        }
        lemma_apply_batch_colored(
            width,
            height,
            apply_batches(width, empty_cells(width, height), prev),
            last,
            color,
        );
    } else {
        assert forall|x: nat, y: nat|
            x < width && y < height && (#[trigger] empty_cells(width, height)[cell_index(
                width,
                x,
                y,
            ) as int]) is Some implies empty_cells(width, height)[cell_index(width, x, y) as int]
            == Some(color(x, y)) by {
            lemma_cell_index_bound(width, height, x, y);
        }
    }
}

/// A finished raster depends only on the color each pixel is given, not on how the rows
/// were split into units nor on the order in which their batches arrived: two sequences
/// of batches that write every cell, and whose pixels all carry `color(x, y)`, leave the
/// same raster, with `color(x, y)` at every pixel.
pub proof fn lemma_raster_independent_of_partition(
    width: nat,
    height: nat,
    first: Seq<Seq<PixelResult>>,
    second: Seq<Seq<PixelResult>>,
    color: spec_fn(nat, nat) -> Rgba,
)
    requires
        batches_colored_by(width, height, first, color),
        batches_colored_by(width, height, second, color),
        all_written(apply_batches(width, empty_cells(width, height), first)),
        all_written(apply_batches(width, empty_cells(width, height), second)),
    ensures
        apply_batches(width, empty_cells(width, height), first) == apply_batches(
            width,
            empty_cells(width, height),
            second,
        ),
        forall|x: nat, y: nat|
            x < width && y < height ==> #[trigger] apply_batches(
                width,
                empty_cells(width, height),
                first,
            )[cell_index(width, x, y) as int] == Some(color(x, y)),
{
    let a = apply_batches(width, empty_cells(width, height), first);
    let b = apply_batches(width, empty_cells(width, height), second);
    lemma_apply_batches_colored(width, height, first, color);
    lemma_apply_batches_colored(width, height, second, color);
    assert forall|x: nat, y: nat| x < width && y < height implies #[trigger] a[cell_index(
        width,
        x,
        y,
    ) as int] == Some(color(x, y)) by {
        lemma_cell_index_bound(width, height, x, y);
        assert(a[cell_index(width, x, y) as int] is Some);
    }
    assert forall|i: int| 0 <= i < a.len() implies a[i] == b[i] by {
        let w = width as int;
        lemma_fundamental_div_mod(i, w);
        let x = (i % w) as nat;
        let y = (i / w) as nat;
        assert(0 <= i % w < w);
        assert(y < height) by (nonlinear_arith)
            requires
                i == w * (y as int) + (i % w),
                0 <= i % w,
                i < w * height,
                w > 0,
        ;
        assert(cell_index(width, x, y) == i) by (nonlinear_arith)
            requires
                i == w * (y as int) + (x as int),
                w == width,
        ;
        assert(a[i] is Some);
        assert(b[i] is Some);
    }
    assert(a =~= b);
}

/// The aggregation side of one compute pass: the raster cells written so far and the
/// number of unit batches still owed.
pub struct ComputePass {
    width: u32,
    height: u32,
    expected: usize,
    received: usize,
    pixels: Vec<Rgba>,
    written: Vec<bool>,
}

impl ComputePass {
    pub closed spec fn width_spec(&self) -> nat {
        self.width as nat
    }

    pub closed spec fn height_spec(&self) -> nat {
        self.height as nat
    }

    /// Number of unit batches the pass waits for.
    pub closed spec fn expected_spec(&self) -> nat {
        self.expected as nat
    }

    /// Number of unit batches accepted so far.
    pub closed spec fn received_spec(&self) -> nat {
        self.received as nat
    }

    /// Each raster cell, row-major: `None` until a pixel result is written to it.
    pub closed spec fn cells(&self) -> Seq<Option<Rgba>> {
        Seq::new(
            self.pixels@.len(),
            |i: int|
                if self.written@[i] {
                    Some(self.pixels@[i])
                } else {
                    None
                },
        )
    }

    pub closed spec fn wf(&self) -> bool {
        &&& valid_dimensions(RasterDimensions { width: self.width, height: self.height })
        &&& self.pixels@.len() == self.width * self.height
        &&& self.written@.len() == self.pixels@.len()
        &&& self.received < self.expected
    }

    /// Starts a pass over a raster of `dims`, split into units for `job_count` jobs.
    /// The pass waits for one batch per returned unit.
    pub fn start(dims: RasterDimensions, job_count: u32) -> (r: Result<
        (ComputePass, Vec<WorkUnit>),
        ComputeError,
    >)
        ensures
            r is Err <==> !valid_dimensions(dims),
            r matches Err(e) ==> e == ComputeError::InvalidDimensions,
            r matches Ok((pass, units)) ==> {
                &&& pass.wf()
                &&& pass.width_spec() == dims.width
                &&& pass.height_spec() == dims.height
                &&& pass.cells() == empty_cells(dims.width as nat, dims.height as nat)
                &&& pass.received_spec() == 0
                &&& pass.expected_spec() == units@.len()
                &&& units@.len() == unit_count_spec(dims.height as nat, job_count as nat)
                &&& forall|i: int|
                    0 <= i < units@.len() ==> {
                        &&& units@[i].row_start == unit_start_spec(
                            dims.height as nat,
                            job_count as nat,
                            i as nat,
                        )
                        &&& units@[i].row_end == unit_end_spec(
                            dims.height as nat,
                            job_count as nat,
                            i as nat,
                        )
                    }
            },
    {
        if dims.width == 0 || dims.height == 0 {
            return Err(ComputeError::InvalidDimensions);
        }
        let area = match (dims.width as usize).checked_mul(dims.height as usize) {
            Some(a) => a,
            None => {
                proof {
                    assert(dims.width as nat * dims.height as nat <= 4 * (dims.width as nat
                        * dims.height as nat));
                }
                return Err(ComputeError::InvalidDimensions);
            },
        };
        match area.checked_mul(4) {
            Some(_) => {},
            None => {
                return Err(ComputeError::InvalidDimensions);
            },
        }
        let units = partition(dims.height, job_count);
        let mut pixels: Vec<Rgba> = Vec::new();
        let mut written: Vec<bool> = Vec::new();
        let mut i: usize = 0;
        while i < area
            invariant
                i <= area,
                pixels@.len() == i,
                written@.len() == i,
                forall|k: int| 0 <= k < i ==> !#[trigger] written@[k],
            decreases area - i,
        {
            pixels.push(background());
            written.push(false);
            i = i + 1;
        }
        let pass = ComputePass {
            width: dims.width,
            height: dims.height,
            expected: units.len(),
            received: 0,
            pixels,
            written,
        };
        assert(pass.cells() =~= empty_cells(dims.width as nat, dims.height as nat));
        Ok((pass, units))
    }

    /// Writes the pixels of `batch` in order; stops at the first one that does not fit.
    fn write_batch(&mut self, batch: &Vec<PixelResult>) -> (ok: bool)
        requires
            old(self).wf(),
        ensures
            final(self).wf(),
            final(self).width == old(self).width,
            final(self).height == old(self).height,
            final(self).expected == old(self).expected,
            final(self).received == old(self).received,
            ok == batch_fits(
                old(self).width_spec(),
                old(self).height_spec(),
                old(self).cells(),
                batch@,
            ),
            ok ==> final(self).cells() == apply_batch(
                old(self).width_spec(),
                old(self).cells(),
                batch@,
            ),
    {
        let ghost start = self.cells();
        let mut k: usize = 0;
        while k < batch.len()
            invariant
                self.wf(),
                self.width == old(self).width,
                self.height == old(self).height,
                self.expected == old(self).expected,
                self.received == old(self).received,
                start == old(self).cells(),
                k <= batch@.len(),
                batch_fits(self.width as nat, self.height as nat, start, batch@.take(k as int)),
                self.cells() == apply_batch(self.width as nat, start, batch@.take(k as int)),
            decreases batch@.len() - k,
        {
            let p = batch[k];
            let ghost prefix = batch@.take(k as int);
            assert(batch@.take(k + 1).drop_last() == prefix);
            if p.x >= self.width || p.y >= self.height {
                proof {
                    self.lemma_no_fit_extends(start, batch@, k as nat);
                }
                return false;
            }
            proof {
                lemma_cell_index_bound(
                    self.width as nat,
                    self.height as nat,
                    p.x as nat,
                    p.y as nat,
                );
            }
            let i: usize = p.y as usize * self.width as usize + p.x as usize;
            if self.written[i] {
                proof {
                    self.lemma_no_fit_extends(start, batch@, k as nat);
                }
                return false;
            }
            self.pixels.set(i, p.color);
            self.written.set(i, true);
            proof {
                assert(self.cells() =~= apply_batch(
                    self.width as nat,
                    start,
                    batch@.take(k + 1),
                ));
            }
            k = k + 1;
        }
        assert(batch@.take(k as int) == batch@);
        true
    }

    /// A batch whose prefix of length `k + 1` does not fit does not fit as a whole.
    proof fn lemma_no_fit_extends(&self, start: Seq<Option<Rgba>>, batch: Seq<PixelResult>, k: nat)
        requires
            k < batch.len(),
            !batch_fits(self.width as nat, self.height as nat, start, batch.take(k + 1 as int)),
        ensures
            !batch_fits(self.width as nat, self.height as nat, start, batch),
        decreases batch.len() - k,
    {
        if k + 1 < batch.len() {
            assert(batch.take(k + 2 as int).drop_last() == batch.take(k + 1 as int));
            self.lemma_no_fit_extends(start, batch, k + 1);
        } else {
            assert(batch.take(k + 1 as int) == batch);
        }
    }

    fn all_cells_written(&self) -> (r: bool)
        requires
            self.wf(),
        ensures
            r == all_written(self.cells()),
    {
        let mut i: usize = 0;
        while i < self.written.len()
            invariant
                self.wf(),
                i <= self.written@.len(),
                forall|k: int| 0 <= k < i ==> #[trigger] self.written@[k],
            decreases self.written@.len() - i,
        {
            if !self.written[i] {
                assert(!(self.cells()[i as int] is Some));
                return false;
            }
            i = i + 1;
        }
        assert forall|k: int| 0 <= k < self.cells().len() implies (#[trigger] self.cells()[k]) is Some by {
            assert(self.written@[k]);
        }
        true
    }

    /// Advances the pass by one event. A timeout or a lost sender fails the pass with
    /// `WorkerLost`; a batch that does not fit fails it with `CorruptResult`. After the
    /// last expected batch the raster is returned if every cell has been written, and
    /// the pass fails with `CorruptResult` otherwise.
    pub fn on_event(self, event: PassEvent) -> (r: PassStatus)
        requires
            self.wf(),
        ensures
            match event {
                PassEvent::Batch(batch) => {
                    let after = apply_batch(self.width_spec(), self.cells(), batch@);
                    if !batch_fits(self.width_spec(), self.height_spec(), self.cells(), batch@) {
                        r matches PassStatus::Failed(ComputeError::CorruptResult)
                    } else if self.received_spec() + 1 < self.expected_spec() {
                        r matches PassStatus::Awaiting(next) && {
                            &&& next.wf()
                            &&& next.width_spec() == self.width_spec()
                            &&& next.height_spec() == self.height_spec()
                            &&& next.expected_spec() == self.expected_spec()
                            &&& next.received_spec() == self.received_spec() + 1
                            &&& next.cells() == after
                        }
                    } else if all_written(after) {
                        r matches PassStatus::Done(raster) && {
                            &&& raster.wf()
                            &&& raster.width_spec() == self.width_spec()
                            &&& raster.height_spec() == self.height_spec()
                            &&& raster.cells().len() == after.len()
                            &&& forall|i: int|
                                0 <= i < after.len() ==> after[i] == Some(
                                    #[trigger] raster.cells()[i],
                                )
                        }
                    } else {
                        r matches PassStatus::Failed(ComputeError::CorruptResult)
                    }
                },
                _ => r matches PassStatus::Failed(ComputeError::WorkerLost),
            },
    {
        match event {
            PassEvent::Batch(batch) => {
                let mut pass = self;
                if !pass.write_batch(&batch) {
                    return PassStatus::Failed(ComputeError::CorruptResult);
                }
                if pass.received + 1 < pass.expected {
                    pass.received = pass.received + 1;
                    return PassStatus::Awaiting(pass);
                }
                if !pass.all_cells_written() {
                    return PassStatus::Failed(ComputeError::CorruptResult);
                }
                let raster = RasterBuffer::from_parts(pass.width, pass.height, pass.pixels);
                PassStatus::Done(raster)
            },
            _ => PassStatus::Failed(ComputeError::WorkerLost),
        }
    }
}

} // verus!
