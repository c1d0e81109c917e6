//! The compact coordinate state: all rows' coordinates, one after another.
use crate::assignment::lemma_block_start_monotone;
use crate::scalar::Scalar;
use crate::term::SaeSupportSparseTerm;
use vstd::prelude::*;

verus! {

/// Where row `n` starts: the widths of the rows before it.
pub open spec fn row_start<S>(rows: Seq<Seq<S>>, n: int) -> nat
    decreases n,
{
    if n <= 0 {
        0
    } else {
        row_start(rows, n - 1) + rows[n - 1].len()
    }
}

/// The first `n` rows, one after another.
pub open spec fn flat<S>(rows: Seq<Seq<S>>, n: int) -> Seq<S>
    decreases n,
{
    if n <= 0 {
        Seq::empty()
    } else {
        flat(rows, n - 1) + rows[n - 1]
    }
}

pub proof fn lemma_row_start_monotone<S>(rows: Seq<Seq<S>>, a: int, b: int)
    requires
        0 <= a <= b,
    ensures
        row_start(rows, a) <= row_start(rows, b),
    decreases b,
{
    if a < b {
        lemma_row_start_monotone(rows, a, b - 1);
    }
}

/// Row starts depend on the rows' widths only.
pub proof fn lemma_row_start_by_width<S>(left: Seq<Seq<S>>, right: Seq<Seq<S>>, n: int)
    requires
        0 <= n <= left.len(),
        left.len() == right.len(),
        forall|r: int| 0 <= r < left.len() ==> (#[trigger] left[r]).len() == right[r].len(),
    ensures
        row_start(left, n) == row_start(right, n),
    decreases n,
{
    if n > 0 {
        lemma_row_start_by_width(left, right, n - 1);
        assert(left[n - 1].len() == right[n - 1].len());
    }
}

/// The flat state has the rows' total width, and row `r` is the stretch of it
/// that starts at `row_start`.
pub proof fn law_flat_state_holds_the_rows<S>(rows: Seq<Seq<S>>, n: int)
    requires
        0 <= n <= rows.len(),
    ensures
        flat(rows, n).len() == row_start(rows, n),
        forall|r: int|
            0 <= r < n ==> row_start(rows, r) + rows[r].len() <= row_start(rows, n) && flat(
                rows,
                n,
            ).subrange(row_start(rows, r) as int, (row_start(rows, r) + rows[r].len()) as int)
                == #[trigger] rows[r],
    decreases n,
{
    if n > 0 {
        law_flat_state_holds_the_rows(rows, n - 1);
        let whole = flat(rows, n);
        let rest = flat(rows, n - 1);
        assert forall|r: int| 0 <= r < n implies row_start(rows, r) + rows[r].len() <= row_start(
            rows,
            n,
        ) && whole.subrange(
            row_start(rows, r) as int,
            (row_start(rows, r) + rows[r].len()) as int,
        ) == #[trigger] rows[r] by {
            let a = row_start(rows, r) as int;
            let b = (row_start(rows, r) + rows[r].len()) as int;
            if r < n - 1 {
                assert(rest.subrange(a, b) == rows[r]);
                assert(whole.subrange(a, b) =~= rest.subrange(a, b));
            } else {
                assert(whole.subrange(a, b) =~= rows[r]);
            }
        }
    }
}

/// Installing a snapshot of a state over any state of the same row widths gives
/// back the snapshot's state.
pub proof fn law_install_undoes_a_change<S>(
    snapshot: Seq<Seq<S>>,
    changed: Seq<Seq<S>>,
    installed: Seq<Seq<S>>,
)
    requires
        snapshot.len() == changed.len() == installed.len(),
        forall|r: int|
            0 <= r < snapshot.len() ==> (#[trigger] changed[r]).len() == snapshot[r].len(),
        is_installed(
            changed,
            flat(snapshot, snapshot.len() as int),
            installed,
            snapshot.len() as int,
        ),
    ensures
        installed == snapshot,
{
    law_flat_state_holds_the_rows(snapshot, snapshot.len() as int);
    assert forall|r: int| 0 <= r < snapshot.len() implies installed[r] == snapshot[r] by {
        lemma_row_start_by_width(changed, snapshot, r);
        assert(changed[r].len() == snapshot[r].len());
        assert(installed[r] == flat(snapshot, snapshot.len() as int).subrange(
            row_start(changed, r) as int,
            (row_start(changed, r) + changed[r].len()) as int,
        ));
    }
    assert(installed =~= snapshot);
}

/// The first `n` rows of `after` are taken from `values`, the others are those
/// of `before`.
pub open spec fn is_installed<S>(
    before: Seq<Seq<S>>,
    values: Seq<S>,
    after: Seq<Seq<S>>,
    n: int,
) -> bool {
    &&& after.len() == before.len()
    &&& forall|r: int|
        0 <= r < n ==> #[trigger] after[r] == values.subrange(
            row_start(before, r) as int,
            (row_start(before, r) + before[r].len()) as int,
        )
    &&& forall|r: int| n <= r < before.len() ==> #[trigger] after[r] == before[r]
}

/// The first `n` rows of `after` are those of `moved`, the others those of
/// `before`.
pub open spec fn is_moved<S>(
    before: Seq<Seq<S>>,
    moved: Seq<Vec<S>>,
    after: Seq<Seq<S>>,
    n: int,
) -> bool {
    &&& after.len() == before.len()
    &&& forall|r: int| 0 <= r < n ==> #[trigger] after[r] == moved[r]@
    &&& forall|r: int| n <= r < before.len() ==> #[trigger] after[r] == before[r]
}

/// Why a flat vector does not fit the coordinate state.
#[derive(Clone, Copy, Debug, PartialEq, Eq, Structural)]
pub enum WidthFault {
    /// The vector ends before row `row`'s block does.
    Short { row: usize },
    /// The vector is longer than the state.
    Long { width: usize },
}

/// How `length` values fit rows of these widths.
pub open spec fn width_fault<S>(rows: Seq<Seq<S>>, length: nat, r: int) -> Option<WidthFault>
    decreases rows.len() - r,
{
    if r >= rows.len() {
        if length == row_start(rows, rows.len() as int) {
            None
        } else {
            Some(WidthFault::Long { width: row_start(rows, rows.len() as int) as usize })
        }
    } else if row_start(rows, r + 1) > length {
        Some(WidthFault::Short { row: r as usize })
    } else {
        width_fault(rows, length, r + 1)
    }
}

/// How many rows a vector with this fault covers.
pub open spec fn covered_rows(fault: Option<WidthFault>, rows: nat) -> int {
    match fault {
        Some(WidthFault::Short { row }) => row as int,
        _ => rows as int,
    }
}

/// `delta` on an axis: on a circular axis, its representative nearest zero.
pub open spec fn s_wrapped<S: Scalar>(period: Option<S>, delta: S) -> S {
    match period {
        Some(p) => if p.s_finite() && S::s_zero().s_below(p) {
            delta.s_minus(p.s_times(delta.s_over(p).s_nearest()))
        } else {
            delta
        },
        None => delta,
    }
}

pub fn wrapped<S: Scalar>(period: Option<S>, delta: S) -> (r: S)
    ensures
        r == s_wrapped(period, delta),
{
    match period {
        Some(p) => {
            if p.finite() && S::zero().below(p) {
                delta.minus(p.times(delta.over(p).nearest()))
            } else {
                delta
            }
        },
        None => delta,
    }
}

impl<S: Scalar> SaeSupportSparseTerm<S> {
    pub open spec fn coords(&self) -> Seq<Seq<S>> {
        self.state().coord_rows()
    }

    /// Total width of the coordinate state.
    pub open spec fn coord_total(&self) -> nat {
        row_start(self.coords(), self.rows() as int)
    }

    /// The flat position of one coordinate.
    pub open spec fn coord_index(&self, row: int, slot: int, axis: int) -> int {
        row_start(self.coords(), row) + self.state().slot_start(row, slot) + axis
    }

    pub fn coordinate_state_len(&self) -> (r: usize)
        requires
            self.wf(),
            self.coord_total() <= usize::MAX,
        ensures
            r == self.coord_total(),
    {
        let mut total: usize = 0;
        let n: usize = self.n_obs();
        for row in 0..n
            invariant
                self.wf(),
                n == self.rows(),
                self.coord_total() <= usize::MAX,
                total == row_start(self.coords(), row as int),
        {
            proof {
                lemma_row_start_monotone(self.coords(), row + 1, n as int);
            }
            total = total + self.assignment().coords_row(row).len();
        }
        total
    }

    /// All rows' coordinates, one after another.
    pub fn snapshot_coordinates(&self, out: &mut Vec<S>)
        requires
            self.wf(),
        ensures
            final(out)@ == flat(self.coords(), self.rows() as int),
    {
        out.clear();
        let n: usize = self.n_obs();
        for row in 0..n
            invariant
                self.wf(),
                n == self.rows(),
                out@ == flat(self.coords(), row as int),
        {
            let line: &Vec<S> = self.assignment().coords_row(row);
            let ghost start = out@;
            for i in 0..line.len()
                invariant
                    out@ == start + line@.take(i as int),
            {
                out.push(line[i]);
                assert(out@ =~= start + line@.take(i + 1));
            }
            assert(start + line@.take(line@.len() as int) =~= start + line@);
        }
    }

    /// Installs a whole coordinate state. The values are taken as they are:
    /// they have to lie on the atoms' manifolds. When the vector is too short
    /// the rows before the first uncovered one have been installed.
    pub fn install_coordinates(&mut self, values: &Vec<S>) -> (r: Result<(), WidthFault>)
        requires
            old(self).wf(),
            old(self).coord_total() <= usize::MAX,
        ensures
            final(self).wf(),
            final(self).same_but_coords(old(self)),
            match r {
                Ok(_) => width_fault(old(self).coords(), values@.len(), 0) is None,
                Err(fault) => width_fault(old(self).coords(), values@.len(), 0) == Some(fault),
            },
            is_installed(
                old(self).coords(),
                values@,
                final(self).coords(),
                covered_rows(
                    width_fault(old(self).coords(), values@.len(), 0),
                    old(self).rows(),
                ),
            ),
    {
        let ghost rows = self.coords();
        let n: usize = self.n_obs();
        let mut cursor: usize = 0;
        for row in 0..n
            invariant
                self.wf(),
                self.same_but_coords(old(self)),
                n == self.rows(),
                rows == old(self).coords(),
                rows.len() == n,
                row_start(rows, n as int) <= usize::MAX,
                cursor == row_start(rows, row as int),
                cursor <= values@.len(),
                width_fault(rows, values@.len(), 0) == width_fault(
                    rows,
                    values@.len(),
                    row as int,
                ),
                is_installed(rows, values@, self.coords(), row as int),
        {
            let width: usize = self.assignment().coords_row(row).len();
            proof {
                lemma_row_start_monotone(rows, row + 1, n as int);
            }
            let end: usize = cursor + width;
            if end > values.len() {
                return Err(WidthFault::Short { row });
            }
            let mut line: Vec<S> = Vec::new();
            for i in 0..width
                invariant
                    end == cursor + width,
                    end <= values@.len(),
                    line@ == values@.subrange(cursor as int, cursor + i),
            {
                line.push(values[cursor + i]);
                assert(line@ =~= values@.subrange(cursor as int, cursor + i + 1));
            }
            let outcome = self.set_row_coords(row, &line);
            assert(outcome is Ok);
            cursor = end;
        }
        if cursor != values.len() {
            return Err(WidthFault::Long { width: cursor });
        }
        Ok(())
    }

    /// Moves the coordinate state by one flat step. `retracted` holds each row's
    /// coordinates after the atoms' manifolds have carried them along the row's
    /// stretch of the step. When the step is too short the rows before the first
    /// uncovered one have moved.
    pub fn retract_coordinates(&mut self, step: &Vec<S>, retracted: &Vec<Vec<S>>) -> (r: Result<
        (),
        WidthFault,
    >)
        requires
            old(self).wf(),
            old(self).coord_total() <= usize::MAX,
            retracted@.len() == old(self).rows(),
            forall|row: int|
                0 <= row < old(self).rows() ==> (#[trigger] retracted@[row])@.len()
                    == old(self).coords()[row].len(),
        ensures
            final(self).wf(),
            final(self).same_but_coords(old(self)),
            match r {
                Ok(_) => width_fault(old(self).coords(), step@.len(), 0) is None,
                Err(fault) => width_fault(old(self).coords(), step@.len(), 0) == Some(fault),
            },
            is_moved(
                old(self).coords(),
                retracted@,
                final(self).coords(),
                covered_rows(width_fault(old(self).coords(), step@.len(), 0), old(self).rows()),
            ),
    {
        let ghost rows = self.coords();
        let n: usize = self.n_obs();
        let mut cursor: usize = 0;
        for row in 0..n
            invariant
                self.wf(),
                self.same_but_coords(old(self)),
                n == self.rows(),
                rows == old(self).coords(),
                rows.len() == n,
                retracted@.len() == n,
                forall|q: int|
                    0 <= q < n ==> (#[trigger] retracted@[q])@.len() == rows[q].len(),
                row_start(rows, n as int) <= usize::MAX,
                cursor == row_start(rows, row as int),
                cursor <= step@.len(),
                width_fault(rows, step@.len(), 0) == width_fault(rows, step@.len(), row as int),
                is_moved(rows, retracted@, self.coords(), row as int),
        {
            let width: usize = self.assignment().coords_row(row).len();
            proof {
                lemma_row_start_monotone(rows, row + 1, n as int);
            }
            let end: usize = cursor + width;
            if end > step.len() {
                return Err(WidthFault::Short { row });
            }
            let outcome = self.set_row_coords(row, &retracted[row]);
            assert(outcome is Ok);
            cursor = end;
        }
        if cursor != step.len() {
            return Err(WidthFault::Long { width: cursor });
        }
        Ok(())
    }

    /// `after - before` on every coordinate axis, each difference taken on the
    /// axis's own manifold: across the branch cut of a circular axis the short
    /// way round.
    pub fn wrapped_coordinate_residual(
        &self,
        before: &Vec<S>,
        after: &Vec<S>,
        out: &mut Vec<S>,
    )
        requires
            self.wf(),
            before@.len() == self.coord_total(),
            after@.len() == self.coord_total(),
        ensures
            final(out)@.len() == self.coord_total(),
            forall|row: int, slot: int, axis: int|
                0 <= row < self.rows() && 0 <= slot < self.support(row).len() && 0 <= axis
                    < self.state().slot_dim(row, slot) ==> #[trigger] final(out)@[self.coord_index(
                    row,
                    slot,
                    axis,
                )] == s_wrapped(
                    self.state().periods(self.support(row)[slot] as int)[axis],
                    after@[self.coord_index(row, slot, axis)].s_minus(
                        before@[self.coord_index(row, slot, axis)],
                    ),
                ),
    {
        out.clear();
        let n: usize = self.n_obs();
        assert(before.len() == self.coord_total());
        for row in 0..n
            invariant
                self.wf(),
                n == self.rows(),
                before@.len() == self.coord_total(),
                after@.len() == self.coord_total(),
                self.coord_total() <= usize::MAX,
                out@.len() == row_start(self.coords(), row as int),
                forall|r: int, slot: int, axis: int|
                    0 <= r < row && 0 <= slot < self.support(r).len() && 0 <= axis
                        < self.state().slot_dim(r, slot) ==> #[trigger] out@[self.coord_index(
                        r,
                        slot,
                        axis,
                    )] == self.axis_residual(before@, after@, r, slot, axis),
        {
            let support: &Vec<u32> = self.assignment().support_indices(row);
            proof {
                assert(self.state().row_wf(row as int));
                lemma_row_start_monotone(self.coords(), row + 1, n as int);
            }
            for slot in 0..support.len()
                invariant
                    self.wf(),
                    n == self.rows(),
                    row < n,
                    support@ == self.support(row as int),
                    before@.len() == self.coord_total(),
                    after@.len() == self.coord_total(),
                    self.coord_total() <= usize::MAX,
                    row_start(self.coords(), row + 1) <= self.coord_total(),
                    out@.len() == row_start(self.coords(), row as int) + self.state().slot_start(
                        row as int,
                        slot as int,
                    ),
                    forall|r: int, s: int, axis: int|
                        0 <= r <= row && 0 <= s < (if r < row {
                            self.support(r).len() as int
                        } else {
                            slot as int
                        }) && 0 <= axis < self.state().slot_dim(r, s)
                            ==> #[trigger] out@[self.coord_index(r, s, axis)]
                            == self.axis_residual(before@, after@, r, s, axis),
            {
                proof {
                    self.state().lemma_slot_in_row(row as int, slot as int);
                    self.lemma_active(row as int, slot as int);
                    assert(self.state().periods(support@[slot as int] as int).len()
                        == self.state().dims()[support@[slot as int] as int]);
                }
                let periods: &Vec<Option<S>> = self.assignment().atom_axis_periods(
                    support[slot] as usize,
                );
                for axis in 0..periods.len()
                    invariant
                        self.wf(),
                        row < self.rows(),
                        slot < self.support(row as int).len(),
                        periods@ == self.state().periods(
                            self.support(row as int)[slot as int] as int,
                        ),
                        periods@.len() == self.state().slot_dim(row as int, slot as int),
                        before@.len() == self.coord_total(),
                        after@.len() == self.coord_total(),
                        self.coord_total() <= usize::MAX,
                        row_start(self.coords(), row as int) + self.state().slot_start(
                            row as int,
                            slot as int,
                        ) + periods@.len() <= self.coord_total(),
                        out@.len() == self.coord_index(row as int, slot as int, axis as int),
                        forall|r: int, s: int, x: int|
                            0 <= r <= row && 0 <= s <= (if r < row {
                                self.support(r).len() - 1
                            } else {
                                slot as int
                            }) && 0 <= x < (if r == row && s == slot {
                                axis as int
                            } else {
                                self.state().slot_dim(r, s) as int
                            }) ==> #[trigger] out@[self.coord_index(r, s, x)]
                                == self.axis_residual(before@, after@, r, s, x),
                {
                    let cursor: usize = out.len();
                    let delta: S = after[cursor].minus(before[cursor]);
                    let ghost previous = out@;
                    out.push(wrapped(periods[axis], delta));
                    proof {
                        assert forall|r: int, s: int, x: int|
                            0 <= r <= row && 0 <= s <= (if r < row {
                                self.support(r).len() - 1
                            } else {
                                slot as int
                            }) && 0 <= x < (if r == row && s == slot {
                                axis + 1
                            } else {
                                self.state().slot_dim(r, s) as int
                            }) implies #[trigger] out@[self.coord_index(r, s, x)]
                            == self.axis_residual(before@, after@, r, s, x) by {
                            if r == row && s == slot && x == axis {
                            } else {
                                self.lemma_earlier_index(
                                    r,
                                    s,
                                    x,
                                    row as int,
                                    slot as int,
                                    axis as int,
                                );
                                assert(previous[self.coord_index(r, s, x)]
                                    == self.axis_residual(before@, after@, r, s, x));
                            }
                        }
                    }
                }
            }
        }
    }

    /// The step on one axis, taken on the axis's own manifold.
    pub open spec fn axis_residual(
        &self,
        before: Seq<S>,
        after: Seq<S>,
        row: int,
        slot: int,
        axis: int,
    ) -> S {
        s_wrapped(
            self.state().periods(self.support(row)[slot] as int)[axis],
            after[self.coord_index(row, slot, axis)].s_minus(
                before[self.coord_index(row, slot, axis)],
            ),
        )
    }

    proof fn lemma_earlier_index(&self, r: int, s: int, x: int, row: int, slot: int, axis: int)
        requires
            self.wf(),
            0 <= r <= row < self.rows(),
            0 <= s < self.support(r).len(),
            0 <= slot < self.support(row).len(),
            0 <= x < self.state().slot_dim(r, s),
            0 <= axis,
            r < row || s < slot || (s == slot && x < axis),
        ensures
            0 <= self.coord_index(r, s, x) < self.coord_index(row, slot, axis),
    {
        self.state().lemma_slot_in_row(r, s);
        if r < row {
            lemma_row_start_monotone(self.coords(), r + 1, row);
            assert(row_start(self.coords(), r + 1) == row_start(self.coords(), r)
                + self.coords()[r].len());
        } else if s < slot {
            lemma_block_start_monotone(self.state().dims(), self.support(row), s + 1, slot);
        }
    }

    /// The stretches of a row's coordinates that its slots own, as (start, end).
    pub fn slot_offsets_into(&self, row: usize, out: &mut Vec<(usize, usize)>)
        requires
            self.wf(),
            row < self.rows(),
        ensures
            final(out)@.len() == self.support(row as int).len(),
            forall|slot: int|
                0 <= slot < self.support(row as int).len() ==> {
                    &&& (#[trigger] final(out)@[slot]).0 == self.state().slot_start(row as int, slot)
                    &&& final(out)@[slot].1 == self.state().slot_start(row as int, slot + 1)
                },
    {
        out.clear();
        let support: &Vec<u32> = self.assignment().support_indices(row);
        let width: usize = self.assignment().coords_row(row).len();
        let mut cursor: usize = 0;
        for slot in 0..support.len()
            invariant
                self.wf(),
                row < self.rows(),
                support@ == self.support(row as int),
                width == self.coords()[row as int].len(),
                cursor == self.state().slot_start(row as int, slot as int),
                out@.len() == slot,
                forall|s: int|
                    0 <= s < slot ==> {
                        &&& (#[trigger] out@[s]).0 == self.state().slot_start(row as int, s)
                        &&& out@[s].1 == self.state().slot_start(row as int, s + 1)
                    },
        {
            proof {
                self.state().lemma_slot_in_row(row as int, slot as int);
                self.lemma_active(row as int, slot as int);
            }
            let d: usize = self.assignment().atom_coord_dim(support[slot] as usize);
            let end: usize = cursor + d;
            out.push((cursor, end));
            cursor = end;
        }
    }
}

} // verus!
