//! The routed state: which atoms each row uses, and at which coordinates.
use crate::scalar::copied;
use vstd::prelude::*;

verus! {

/// How rows are assigned to atoms.
#[derive(Clone, Copy, Debug, PartialEq, Eq, Structural)]
pub enum AssignmentMode {
    /// Each row uses at most `k` atoms, with hard binary gates.
    TopK { k: usize },
    Softmax,
    OrderedBetaBernoulli,
    ThresholdGate,
}

/// One atom's coordinate block: its width and, per axis, the period of a
/// circular axis.
#[derive(Debug)]
pub struct SaeAssignmentAtomSpec<S> {
    pub latent_dim: usize,
    pub axis_periods: Vec<Option<S>>,
}

/// Why a routed state is refused.
#[derive(Clone, Copy, Debug, PartialEq, Eq, Structural)]
pub enum AssignmentError {
    /// The lists of specs, supports, gates and coordinates do not match the
    /// declared numbers of atoms and rows.
    CountMismatch,
    /// An atom's periods are not one per axis.
    AxisCount { atom: usize },
    /// A row names an atom that does not exist.
    UnknownAtom { row: usize, slot: usize },
    /// A row's gates are not one per active atom.
    GateWidth { row: usize },
    /// A row's coordinates do not fill the blocks of its active atoms.
    CoordinateWidth { row: usize },
}

/// Rows' supports, gates and compact coordinates.
///
/// A row's coordinates are the blocks of its active atoms, one after another in
/// slot order.
#[derive(Debug)]
pub struct SaeAssignmentState<S> {
    mode: AssignmentMode,
    specs: Vec<SaeAssignmentAtomSpec<S>>,
    indices: Vec<Vec<u32>>,
    gates: Vec<Vec<S>>,
    coords: Vec<Vec<S>>,
}

/// The widths of the atoms' coordinate blocks.
pub open spec fn latent_dims<S>(specs: Seq<SaeAssignmentAtomSpec<S>>) -> Seq<usize> {
    Seq::new(specs.len(), |k: int| specs[k].latent_dim)
}

/// Where slot `n`'s block starts: the widths of the blocks before it.
pub open spec fn block_start(dims: Seq<usize>, support: Seq<u32>, n: int) -> nat
    decreases n,
{
    if n <= 0 {
        0
    } else {
        block_start(dims, support, n - 1) + dims[support[n - 1] as int] as nat
    }
}

/// Blocks follow one another.
pub proof fn lemma_block_start_monotone(dims: Seq<usize>, support: Seq<u32>, a: int, b: int)
    requires
        0 <= a <= b,
    ensures
        block_start(dims, support, a) <= block_start(dims, support, b),
    decreases b,
{
    if a < b {
        lemma_block_start_monotone(dims, support, a, b - 1);
    }
}

impl<S> SaeAssignmentState<S> {
    pub closed spec fn mode_spec(&self) -> AssignmentMode {
        self.mode
    }

    /// The width of each atom's coordinate block.
    pub closed spec fn dims(&self) -> Seq<usize> {
        latent_dims(self.specs@)
    }

    /// The periods of atom `k`'s axes.
    pub closed spec fn periods(&self, k: int) -> Seq<Option<S>> {
        self.specs@[k].axis_periods@
    }

    /// Rows' supports, in slot order.
    pub closed spec fn supports(&self) -> Seq<Seq<u32>> {
        Seq::new(self.indices@.len(), |r: int| self.indices@[r]@)
    }

    pub closed spec fn gate_rows(&self) -> Seq<Seq<S>> {
        Seq::new(self.gates@.len(), |r: int| self.gates@[r]@)
    }

    /// Rows' compact coordinates.
    pub closed spec fn coord_rows(&self) -> Seq<Seq<S>> {
        Seq::new(self.coords@.len(), |r: int| self.coords@[r]@)
    }

    pub open spec fn rows(&self) -> nat {
        self.supports().len()
    }

    pub open spec fn atoms(&self) -> nat {
        self.dims().len()
    }

    /// Where slot `slot` of row `row` starts in the row's coordinates.
    pub open spec fn slot_start(&self, row: int, slot: int) -> nat {
        block_start(self.dims(), self.supports()[row], slot)
    }

    /// Coordinate `axis` of slot `slot` of row `row`.
    pub open spec fn coord(&self, row: int, slot: int, axis: int) -> S {
        self.coord_rows()[row][self.slot_start(row, slot) + axis]
    }

    /// The width of slot `slot` of row `row`.
    pub open spec fn slot_dim(&self, row: int, slot: int) -> nat {
        self.dims()[self.supports()[row][slot] as int] as nat
    }

    pub open spec fn row_wf(&self, row: int) -> bool {
        &&& forall|slot: int|
            0 <= slot < self.supports()[row].len() ==> (#[trigger] self.supports()[row][slot])
                < self.atoms()
        &&& self.gate_rows()[row].len() == self.supports()[row].len()
        &&& self.coord_rows()[row].len() == self.slot_start(
            row,
            self.supports()[row].len() as int,
        )
    }

    /// Supports name existing atoms, and every row has one gate per active atom
    /// and coordinates for all its blocks.
    pub open spec fn wf(&self) -> bool {
        &&& self.gate_rows().len() == self.rows()
        &&& self.coord_rows().len() == self.rows()
        &&& self.rows() <= usize::MAX
        &&& self.atoms() <= usize::MAX
        &&& forall|k: int|
            0 <= k < self.atoms() ==> #[trigger] self.periods(k).len() == self.dims()[k]
        &&& forall|row: int| 0 <= row < self.rows() ==> #[trigger] self.row_wf(row)
    }

    /// Two states that differ in coordinates only.
    pub open spec fn same_routing(&self, other: &SaeAssignmentState<S>) -> bool {
        &&& self.mode_spec() == other.mode_spec()
        &&& self.dims() == other.dims()
        &&& self.supports() == other.supports()
        &&& self.gate_rows() == other.gate_rows()
        &&& forall|k: int| 0 <= k < self.atoms() ==> #[trigger] self.periods(k) == other.periods(k)
    }

    /// Slot `slot`'s block lies inside the row's coordinates.
    pub proof fn lemma_slot_in_row(&self, row: int, slot: int)
        requires
            self.wf(),
            0 <= row < self.rows(),
            0 <= slot < self.supports()[row].len(),
        ensures
            self.supports()[row][slot] < self.atoms(),
            self.slot_start(row, slot) + self.slot_dim(row, slot) == self.slot_start(row, slot + 1),
            self.slot_start(row, slot + 1) <= self.coord_rows()[row].len(),
    {
        assert(self.row_wf(row));
        lemma_block_start_monotone(
            self.dims(),
            self.supports()[row],
            slot + 1,
            self.supports()[row].len() as int,
        );
    }

    pub fn mode(&self) -> (r: AssignmentMode)
        ensures
            r == self.mode_spec(),
    {
        self.mode
    }

    pub fn n_obs(&self) -> (r: usize)
        ensures
            r == self.rows(),
    {
        self.indices.len()
    }

    pub fn k_atoms(&self) -> (r: usize)
        ensures
            r == self.atoms(),
    {
        self.specs.len()
    }

    pub fn atom_coord_dim(&self, atom: usize) -> (r: usize)
        requires
            atom < self.atoms(),
        ensures
            r == self.dims()[atom as int],
    {
        self.specs[atom].latent_dim
    }

    pub fn atom_axis_periods(&self, atom: usize) -> (r: &Vec<Option<S>>)
        requires
            atom < self.atoms(),
        ensures
            r@ == self.periods(atom as int),
    {
        &self.specs[atom].axis_periods
    }

    pub fn support_indices(&self, row: usize) -> (r: &Vec<u32>)
        requires
            row < self.rows(),
        ensures
            r@ == self.supports()[row as int],
    {
        &self.indices[row]
    }

    pub fn gates_row(&self, row: usize) -> (r: &Vec<S>)
        requires
            self.wf(),
            row < self.rows(),
        ensures
            r@ == self.gate_rows()[row as int],
    {
        &self.gates[row]
    }

    pub fn coords_row(&self, row: usize) -> (r: &Vec<S>)
        requires
            self.wf(),
            row < self.rows(),
        ensures
            r@ == self.coord_rows()[row as int],
    {
        &self.coords[row]
    }
}

/// The first slot at which a support names an atom past `atoms`.
fn first_unknown(support: &Vec<u32>, atoms: usize) -> (r: Option<usize>)
    ensures
        match r {
            Some(slot) => {
                &&& slot < support@.len()
                &&& support@[slot as int] >= atoms
                &&& forall|j: int| 0 <= j < slot ==> #[trigger] support@[j] < atoms
            },
            None => forall|j: int| 0 <= j < support@.len() ==> #[trigger] support@[j] < atoms,
        },
{
    for slot in 0..support.len()
        invariant
            forall|j: int| 0 <= j < slot ==> #[trigger] support@[j] < atoms,
    {
        if support[slot] as usize >= atoms {
            return Some(slot);
        }
    }
    None
}

impl<S: Copy> SaeAssignmentState<S> {
    /// The widths of a support's blocks add up to `width`.
    fn fills_blocks(
        specs: &Vec<SaeAssignmentAtomSpec<S>>,
        support: &Vec<u32>,
        width: usize,
    ) -> (r: bool)
        requires
            forall|j: int| 0 <= j < support@.len() ==> #[trigger] support@[j] < specs@.len(),
        ensures
            r == (block_start(
                latent_dims(specs@),
                support@,
                support@.len() as int,
            ) == width),
    {
        let ghost dims = latent_dims(specs@);
        let mut total: usize = 0;
        for slot in 0..support.len()
            invariant
                dims == latent_dims(specs@),
                forall|j: int| 0 <= j < support@.len() ==> #[trigger] support@[j] < specs@.len(),
                total == block_start(dims, support@, slot as int),
        {
            match total.checked_add(specs[support[slot] as usize].latent_dim) {
                Some(next) => {
                    total = next;
                },
                None => {
                    proof {
                        lemma_block_start_monotone(
                            dims,
                            support@,
                            slot + 1,
                            support@.len() as int,
                        );
                    }
                    return false;
                },
            }
        }
        total == width
    }

    /// A hard top-`k` state from per-row supports, gates and coordinates, whose
    /// blocks may differ in width from atom to atom.
    pub fn from_topk_support_heterogeneous(
        n_obs: usize,
        k_atoms: usize,
        top_k: usize,
        specs: Vec<SaeAssignmentAtomSpec<S>>,
        indices: Vec<Vec<u32>>,
        gates: Vec<Vec<S>>,
        coords: Vec<Vec<S>>,
    ) -> (r: Result<SaeAssignmentState<S>, AssignmentError>)
        ensures
            r matches Ok(state) ==> {
                &&& state.wf()
                &&& state.mode_spec() == (AssignmentMode::TopK { k: top_k })
                &&& state.rows() == n_obs
                &&& state.atoms() == k_atoms
                &&& state.dims() == latent_dims(specs@)
                &&& forall|k: int|
                    0 <= k < specs@.len() ==> #[trigger] state.periods(k)
                        == specs@[k].axis_periods@
                &&& state.supports() == Seq::new(indices@.len(), |i: int| indices@[i]@)
                &&& state.gate_rows() == Seq::new(gates@.len(), |i: int| gates@[i]@)
                &&& state.coord_rows() == Seq::new(coords@.len(), |i: int| coords@[i]@)
            },
            r is Ok <==> is_routed(n_obs, k_atoms, specs@, indices@, gates@, coords@),
            r matches Err(error) ==> {
                let counted = counts_match(n_obs, k_atoms, specs@, indices@, gates@, coords@);
                match error {
                    AssignmentError::CountMismatch => !counted,
                    AssignmentError::AxisCount { atom } => {
                        &&& counted
                        &&& axes_match_below(specs@, atom as int)
                        &&& atom < specs@.len()
                        &&& specs@[atom as int].axis_periods@.len()
                            != specs@[atom as int].latent_dim
                    },
                    AssignmentError::UnknownAtom { row, slot } => {
                        &&& counted
                        &&& axes_match_below(specs@, specs@.len() as int)
                        &&& rows_routed_below(specs@, indices@, gates@, coords@, row as int)
                        &&& row < indices@.len()
                        &&& slot < indices@[row as int]@.len()
                        &&& known_below(indices@[row as int]@, k_atoms, slot as int)
                        &&& indices@[row as int]@[slot as int] >= k_atoms
                    },
                    AssignmentError::GateWidth { row } => {
                        &&& counted
                        &&& axes_match_below(specs@, specs@.len() as int)
                        &&& rows_routed_below(specs@, indices@, gates@, coords@, row as int)
                        &&& row < indices@.len()
                        &&& known_below(
                            indices@[row as int]@,
                            k_atoms,
                            indices@[row as int]@.len() as int,
                        )
                        &&& gates@[row as int]@.len() != indices@[row as int]@.len()
                    },
                    AssignmentError::CoordinateWidth { row } => {
                        &&& counted
                        &&& axes_match_below(specs@, specs@.len() as int)
                        &&& rows_routed_below(specs@, indices@, gates@, coords@, row as int)
                        &&& row < indices@.len()
                        &&& known_below(
                            indices@[row as int]@,
                            k_atoms,
                            indices@[row as int]@.len() as int,
                        )
                        &&& gates@[row as int]@.len() == indices@[row as int]@.len()
                        &&& coords@[row as int]@.len() != block_start(
                            latent_dims(specs@),
                            indices@[row as int]@,
                            indices@[row as int]@.len() as int,
                        )
                    },
                }
            },
    {
        if specs.len() != k_atoms || indices.len() != n_obs || gates.len() != n_obs
            || coords.len() != n_obs {
            return Err(AssignmentError::CountMismatch);
        }
        let ghost dims = latent_dims(specs@);
        for atom in 0..specs.len()
            invariant
                counts_match(n_obs, k_atoms, specs@, indices@, gates@, coords@),
                forall|k: int|
                    0 <= k < atom ==> (#[trigger] specs@[k]).axis_periods@.len()
                        == specs@[k].latent_dim,
        {
            if specs[atom].axis_periods.len() != specs[atom].latent_dim {
                return Err(AssignmentError::AxisCount { atom });
            }
        }
        for row in 0..n_obs
            invariant
                dims == latent_dims(specs@),
                specs@.len() == k_atoms,
                axes_match_below(specs@, k_atoms as int),
                indices@.len() == n_obs,
                gates@.len() == n_obs,
                coords@.len() == n_obs,
                forall|q: int|
                    0 <= q < row ==> #[trigger] row_is_routed(
                        dims,
                        indices@[q]@,
                        gates@[q]@.len(),
                        coords@[q]@.len(),
                    ),
        {
            let support: &Vec<u32> = &indices[row];
            if let Some(slot) = first_unknown(support, k_atoms) {
                assert(!row_is_routed(
                    dims,
                    indices@[row as int]@,
                    gates@[row as int]@.len(),
                    coords@[row as int]@.len(),
                ));
                return Err(AssignmentError::UnknownAtom { row, slot });
            }
            if gates[row].len() != support.len() {
                assert(!row_is_routed(
                    dims,
                    indices@[row as int]@,
                    gates@[row as int]@.len(),
                    coords@[row as int]@.len(),
                ));
                return Err(AssignmentError::GateWidth { row });
            }
            if !Self::fills_blocks(&specs, support, coords[row].len()) {
                assert(!row_is_routed(
                    dims,
                    indices@[row as int]@,
                    gates@[row as int]@.len(),
                    coords@[row as int]@.len(),
                ));
                return Err(AssignmentError::CoordinateWidth { row });
            }
        }
        let state = SaeAssignmentState {
            mode: AssignmentMode::TopK { k: top_k },
            specs,
            indices,
            gates,
            coords,
        };
        proof {
            assert(state.dims() =~= dims);
            assert(state.indices.len() == state.rows());
            assert(state.specs.len() == state.atoms());
            assert forall|row: int| 0 <= row < state.rows() implies #[trigger] state.row_wf(row) by {
                assert(row_is_routed(
                    dims,
                    indices@[row]@,
                    gates@[row]@.len(),
                    coords@[row]@.len(),
                ));
            }
        }
        Ok(state)
    }

    /// The coordinates of one slot.
    pub fn coords_for_slot(&self, row: usize, slot: usize) -> (r: Vec<S>)
        requires
            self.wf(),
            row < self.rows(),
            slot < self.supports()[row as int].len(),
        ensures
            r@.len() == self.slot_dim(row as int, slot as int),
            forall|axis: int|
                0 <= axis < r@.len() ==> #[trigger] r@[axis] == self.coord(
                    row as int,
                    slot as int,
                    axis,
                ),
    {
        proof {
            assert(self.row_wf(row as int));
        }
        let start: usize = self.slot_offset(row, slot);
        let atom: usize = self.indices[row][slot] as usize;
        proof {
            self.lemma_slot_in_row(row as int, slot as int);
        }
        let dim: usize = self.specs[atom].latent_dim;
        let line: &Vec<S> = &self.coords[row];
        assert(line.len() == line@.len());
        let mut out: Vec<S> = Vec::new();
        for axis in 0..dim
            invariant
                line@ == self.coord_rows()[row as int],
                start == self.slot_start(row as int, slot as int),
                start + dim <= line@.len() <= usize::MAX,
                out@.len() == axis,
                forall|k: int|
                    0 <= k < axis ==> #[trigger] out@[k] == self.coord(row as int, slot as int, k),
        {
            out.push(line[start + axis]);
        }
        out
    }

    /// Where a slot's block starts in its row.
    pub fn slot_offset(&self, row: usize, slot: usize) -> (r: usize)
        requires
            self.wf(),
            row < self.rows(),
            slot <= self.supports()[row as int].len(),
        ensures
            r == self.slot_start(row as int, slot as int),
    {
        let support: &Vec<u32> = &self.indices[row];
        let mut total: usize = 0;
        proof {
            assert(self.row_wf(row as int));
            assert(self.coords@[row as int].len() == self.coord_rows()[row as int].len());
        }
        for s in 0..slot
            invariant
                self.wf(),
                self.row_wf(row as int),
                row < self.rows(),
                support@ == self.supports()[row as int],
                slot <= support@.len(),
                self.coord_rows()[row as int].len() <= usize::MAX,
                total == self.slot_start(row as int, s as int),
        {
            proof {
                self.lemma_slot_in_row(row as int, s as int);
            }
            assert(self.supports()[row as int][s as int] < self.atoms());
            total = total + self.specs[support[s] as usize].latent_dim;
        }
        total
    }

    /// Replaces one row's coordinates by as many others; any other number is
    /// refused and changes nothing.
    pub fn set_row_coords(&mut self, row: usize, values: &Vec<S>) -> (r: Result<(), AssignmentError>)
        requires
            old(self).wf(),
            row < old(self).rows(),
        ensures
            final(self).wf(),
            final(self).same_routing(old(self)),
            r is Ok <==> values@.len() == old(self).coord_rows()[row as int].len(),
            r is Ok ==> final(self).coord_rows() == old(self).coord_rows().update(
                row as int,
                values@,
            ),
            r matches Err(e) ==> {
                &&& e == (AssignmentError::CoordinateWidth { row })
                &&& final(self).coord_rows() == old(self).coord_rows()
            },
    {
        if values.len() != self.coords[row].len() {
            return Err(AssignmentError::CoordinateWidth { row });
        }
        let line: Vec<S> = copied(values);
        self.coords.set(row, line);
        proof {
            assert(self.dims() =~= old(self).dims());
            assert(self.supports() =~= old(self).supports());
            assert(self.gate_rows() =~= old(self).gate_rows());
            assert(self.coord_rows() =~= old(self).coord_rows().update(row as int, values@));
            assert forall|q: int| 0 <= q < self.rows() implies #[trigger] self.row_wf(q) by {
                assert(old(self).row_wf(q));
            }
            assert forall|k: int| 0 <= k < self.atoms() implies #[trigger] self.periods(k).len()
                == self.dims()[k] by {
                assert(old(self).periods(k).len() == old(self).dims()[k]);
            }
        }
        Ok(())
    }

    /// Replaces one slot's coordinates by as many others; any other number is
    /// refused and changes nothing. The other slots keep theirs.
    pub fn set_slot_coords(&mut self, row: usize, slot: usize, values: &Vec<S>) -> (r: Result<
        (),
        AssignmentError,
    >)
        requires
            old(self).wf(),
            row < old(self).rows(),
            slot < old(self).supports()[row as int].len(),
        ensures
            final(self).wf(),
            final(self).same_routing(old(self)),
            r is Ok <==> values@.len() == old(self).slot_dim(row as int, slot as int),
            r is Ok ==> final(self).has_slot_set(old(self), row as int, slot as int, values@),
            r matches Err(e) ==> {
                &&& e == (AssignmentError::CoordinateWidth { row })
                &&& final(self).coord_rows() == old(self).coord_rows()
            },
    {
        let start: usize = self.slot_offset(row, slot);
        proof {
            assert(self.row_wf(row as int));
            self.lemma_slot_in_row(row as int, slot as int);
        }
        let dim: usize = self.specs[self.indices[row][slot] as usize].latent_dim;
        if values.len() != dim {
            return Err(AssignmentError::CoordinateWidth { row });
        }
        let mut line: Vec<S> = copied(&self.coords[row]);
        let ghost before = line@;
        assert(before.len() == self.coord_rows()[row as int].len());
        assert(line.len() == before.len());
        for axis in 0..dim
            invariant
                values@.len() == dim,
                start + dim <= before.len() <= usize::MAX,
                line@.len() == before.len(),
                forall|i: int|
                    0 <= i < before.len() ==> #[trigger] line@[i] == (if start <= i < start
                        + axis {
                        values@[i - start]
                    } else {
                        before[i]
                    }),
        {
            line.set(start + axis, values[axis]);
        }
        let ghost new_line = line@;
        let outcome = self.set_row_coords(row, &line);
        assert(outcome is Ok);
        proof {
            let earlier = old(self);
            assert forall|q: int, s: int, axis: int|
                0 <= q < earlier.rows() && 0 <= s < earlier.supports()[q].len() && 0 <= axis
                    < earlier.slot_dim(q, s) implies #[trigger] self.coord(q, s, axis) == (if q
                == row && s == slot {
                values@[axis]
            } else {
                earlier.coord(q, s, axis)
            }) by {
                earlier.lemma_slot_in_row(q, s);
                assert(self.slot_start(q, s) == earlier.slot_start(q, s));
                if q == row && s < slot {
                    lemma_block_start_monotone(
                        earlier.dims(),
                        earlier.supports()[q],
                        s + 1,
                        slot as int,
                    );
                }
                if q == row && s > slot {
                    lemma_block_start_monotone(
                        earlier.dims(),
                        earlier.supports()[q],
                        slot + 1,
                        s,
                    );
                }
            }
        }
        Ok(())
    }

    /// Slot `slot` of row `row` holds `values`, and every other slot what it held
    /// in `before`.
    pub open spec fn has_slot_set(
        &self,
        before: &SaeAssignmentState<S>,
        row: int,
        slot: int,
        values: Seq<S>,
    ) -> bool {
        forall|q: int, s: int, axis: int|
            0 <= q < before.rows() && 0 <= s < before.supports()[q].len() && 0 <= axis
                < before.slot_dim(q, s) ==> #[trigger] self.coord(q, s, axis) == (if q == row && s
                == slot {
                values[axis]
            } else {
                before.coord(q, s, axis)
            })
    }

    /// Makes every axis of an atom a straight one.
    pub fn convert_atom_to_euclidean(&mut self, atom: usize)
        requires
            old(self).wf(),
            atom < old(self).atoms(),
        ensures
            final(self).wf(),
            final(self).mode_spec() == old(self).mode_spec(),
            final(self).dims() == old(self).dims(),
            final(self).supports() == old(self).supports(),
            final(self).gate_rows() == old(self).gate_rows(),
            final(self).coord_rows() == old(self).coord_rows(),
            forall|k: int|
                0 <= k < old(self).atoms() && k != atom ==> #[trigger] final(self).periods(k)
                    == old(self).periods(k),
            final(self).periods(atom as int) == Seq::new(
                old(self).dims()[atom as int] as nat,
                |axis: int| None::<S>,
            ),
    {
        let dim: usize = self.specs[atom].latent_dim;
        let mut axis_periods: Vec<Option<S>> = Vec::new();
        for axis in 0..dim
            invariant
                axis_periods@ == Seq::new(axis as nat, |x: int| None::<S>),
        {
            axis_periods.push(None);
            assert(axis_periods@ =~= Seq::new((axis + 1) as nat, |x: int| None::<S>));
        }
        self.specs.set(atom, SaeAssignmentAtomSpec { latent_dim: dim, axis_periods });
        proof {
            assert(self.dims() =~= old(self).dims());
            assert(self.supports() =~= old(self).supports());
            assert(self.gate_rows() =~= old(self).gate_rows());
            assert(self.coord_rows() =~= old(self).coord_rows());
            assert forall|q: int| 0 <= q < self.rows() implies #[trigger] self.row_wf(q) by {
                assert(old(self).row_wf(q));
            }
            assert forall|k: int| 0 <= k < self.atoms() implies #[trigger] self.periods(k).len()
                == self.dims()[k] by {
                assert(old(self).periods(k).len() == old(self).dims()[k]);
            }
        }
    }
}

/// One row's support names existing atoms and is filled by its gates and
/// coordinates.
pub open spec fn row_is_routed(
    dims: Seq<usize>,
    support: Seq<u32>,
    gates: nat,
    coords: nat,
) -> bool {
    &&& forall|slot: int| 0 <= slot < support.len() ==> #[trigger] support[slot] < dims.len()
    &&& gates == support.len()
    &&& coords == block_start(dims, support, support.len() as int)
}

pub open spec fn counts_match<S>(
    n_obs: usize,
    k_atoms: usize,
    specs: Seq<SaeAssignmentAtomSpec<S>>,
    indices: Seq<Vec<u32>>,
    gates: Seq<Vec<S>>,
    coords: Seq<Vec<S>>,
) -> bool {
    specs.len() == k_atoms && indices.len() == n_obs && gates.len() == n_obs && coords.len()
        == n_obs
}

/// The lists describe a routed state.
pub open spec fn is_routed<S>(
    n_obs: usize,
    k_atoms: usize,
    specs: Seq<SaeAssignmentAtomSpec<S>>,
    indices: Seq<Vec<u32>>,
    gates: Seq<Vec<S>>,
    coords: Seq<Vec<S>>,
) -> bool {
    &&& counts_match(n_obs, k_atoms, specs, indices, gates, coords)
    &&& forall|k: int|
        0 <= k < specs.len() ==> (#[trigger] specs[k]).axis_periods@.len() == specs[k].latent_dim
    &&& forall|row: int|
        0 <= row < n_obs ==> #[trigger] row_is_routed(
            latent_dims(specs),
            indices[row]@,
            gates[row]@.len(),
            coords[row]@.len(),
        )
}

/// The first `n` atoms have one period per axis.
pub open spec fn axes_match_below<S>(specs: Seq<SaeAssignmentAtomSpec<S>>, n: int) -> bool {
    forall|k: int|
        0 <= k < n ==> (#[trigger] specs[k]).axis_periods@.len() == specs[k].latent_dim
}

/// The first `n` slots name existing atoms.
pub open spec fn known_below(support: Seq<u32>, atoms: usize, n: int) -> bool {
    forall|slot: int| 0 <= slot < n ==> #[trigger] support[slot] < atoms
}

/// The first `n` rows are routed.
pub open spec fn rows_routed_below<S>(
    specs: Seq<SaeAssignmentAtomSpec<S>>,
    indices: Seq<Vec<u32>>,
    gates: Seq<Vec<S>>,
    coords: Seq<Vec<S>>,
    n: int,
) -> bool {
    forall|row: int|
        0 <= row < n ==> #[trigger] row_is_routed(
            latent_dims(specs),
            indices[row]@,
            gates[row]@.len(),
            coords[row]@.len(),
        )
}

} // verus!
