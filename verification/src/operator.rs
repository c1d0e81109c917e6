//! The decoder block of the Gauss-Newton system as a matrix-free operator.
//!
//! A row sees the decoder only through the basis rows of its active atoms, so
//! `H_bb v` is a gather over each row's blocks followed by a scatter back to
//! them, plus one smoothing block per atom. The scatter is organised by atom:
//! atoms own disjoint ranges of the output, so they can be handled
//! independently of one another, and each atom walks its rows in increasing
//! order, so every output entry accumulates in the order of a plain sweep over
//! the rows.
use crate::layout::{
    beta_index, beta_start, is_layout, law_blocks_follow_one_another,
    law_every_position_is_a_coefficient, lemma_beta_index_in_block,
};
use crate::matrix::{lemma_flat_index, Matrix};
use crate::scalar::{contents, filled, s_sum, Scalar};
use vstd::prelude::*;

verus! {

/// One active atom of a row: where its coefficients start, and its basis row.
#[derive(Debug)]
pub struct SupportBasisBlock<S> {
    pub beta_offset: usize,
    pub phi: Vec<S>,
}

/// One row, linearised: its active blocks and its coordinate Jacobian.
#[derive(Debug)]
pub struct SupportLinearizedRow<S> {
    pub blocks: Vec<SupportBasisBlock<S>>,
    /// One line per coordinate, one entry per output channel.
    pub jacobian: Vec<Vec<S>>,
}

#[derive(Debug)]
pub struct SupportBetaOperator<S> {
    pub rows: Vec<SupportLinearizedRow<S>>,
    /// For each atom, the `(row, block)` pairs that touch it, in increasing
    /// order.
    pub atom_blocks: Vec<Vec<(usize, usize)>>,
    pub beta_offsets: Vec<usize>,
    pub basis_sizes: Vec<usize>,
    pub penalties: Vec<Matrix<S>>,
    pub lambda_smooth: Vec<S>,
    pub output_dim: usize,
    pub beta_dim: usize,
}

/// The pair `a` stands before the pair `b`, row first.
pub open spec fn before(a: (usize, usize), row: int, block: int) -> bool {
    a.0 < row || (a.0 == row && a.1 < block)
}

/// Accumulating `basis_row . vector` over the first `n` entries of a block, on
/// top of `start`.
pub open spec fn gather_block<S: Scalar>(
    start: S,
    block: SupportBasisBlock<S>,
    vector: Seq<S>,
    width: int,
    channel: int,
    n: int,
) -> S {
    s_sum(
        start,
        n,
        |basis: int|
            block.phi@[basis].s_times(vector[block.beta_offset + basis * width + channel]),
    )
}

/// What channel `channel` of a row gathers from its first `n` blocks.
pub open spec fn gather_blocks<S: Scalar>(
    row: SupportLinearizedRow<S>,
    vector: Seq<S>,
    width: int,
    channel: int,
    n: int,
) -> S
    decreases n,
{
    if n <= 0 {
        S::s_zero()
    } else {
        let block = row.blocks@[n - 1];
        gather_block(
            gather_blocks(row, vector, width, channel, n - 1),
            block,
            vector,
            width,
            channel,
            block.phi@.len() as int,
        )
    }
}

/// What channel `channel` of a row gathers from all its blocks.
pub open spec fn gathered<S: Scalar>(
    row: SupportLinearizedRow<S>,
    vector: Seq<S>,
    width: int,
    channel: int,
) -> S {
    gather_blocks(row, vector, width, channel, row.blocks@.len() as int)
}

/// The block owns flat position `i`.
pub open spec fn covers<S>(block: SupportBasisBlock<S>, width: int, i: int) -> bool {
    block.beta_offset <= i < block.beta_offset + block.phi@.len() * width
}

/// Position `i` after the first `n` blocks of `row` have each added
/// `basis_row * slot` to the positions they own.
pub open spec fn scatter_blocks<S: Scalar>(
    start: S,
    row: SupportLinearizedRow<S>,
    slot: Seq<S>,
    width: int,
    i: int,
    n: int,
) -> S
    decreases n,
{
    if n <= 0 {
        start
    } else {
        let rest = scatter_blocks(start, row, slot, width, i, n - 1);
        let block = row.blocks@[n - 1];
        if covers(block, width, i) {
            let local = i - block.beta_offset;
            rest.s_plus(block.phi@[local / width].s_times(slot[local % width]))
        } else {
            rest
        }
    }
}

impl<S: Scalar> SupportBetaOperator<S> {
    pub open spec fn width(&self) -> nat {
        self.output_dim as nat
    }

    /// The block at `(row, block)` is one of atom `a`.
    pub open spec fn block_is_of(&self, row: int, block: int, a: int) -> bool {
        let b = self.rows@[row].blocks@[block];
        &&& b.beta_offset == self.beta_offsets@[a]
        &&& b.phi@.len() == self.basis_sizes@[a]
    }

    /// Atom `a`'s list names existing blocks of the atom, in increasing order.
    pub open spec fn lists_atom(&self, a: int) -> bool {
        let entries = self.atom_blocks@[a]@;
        &&& forall|e: int|
            0 <= e < entries.len() ==> {
                &&& (#[trigger] entries[e]).0 < self.rows@.len()
                &&& entries[e].1 < self.rows@[entries[e].0 as int].blocks@.len()
                &&& self.block_is_of(entries[e].0 as int, entries[e].1 as int, a)
            }
        &&& forall|e: int, f: int|
            0 <= e < f < entries.len() ==> before(
                #[trigger] entries[e],
                (#[trigger] entries[f]).0 as int,
                entries[f].1 as int,
            )
    }

    /// Some atom lists the block at `(row, block)`.
    pub open spec fn is_listed(&self, row: int, block: int) -> bool {
        exists|a: int, e: int|
            #![trigger self.atom_blocks@[a]@[e]]
            0 <= a < self.atom_blocks@.len() && 0 <= e < self.atom_blocks@[a]@.len()
                && self.atom_blocks@[a]@[e] == (row as usize, block as usize)
    }

    pub open spec fn wf(&self) -> bool {
        &&& is_layout(
            self.beta_offsets@,
            self.basis_sizes@,
            self.width(),
            self.beta_dim as nat,
        )
        &&& self.atom_blocks@.len() == self.basis_sizes@.len()
        &&& self.penalties@.len() == self.basis_sizes@.len()
        &&& self.lambda_smooth@.len() == self.basis_sizes@.len()
        &&& forall|a: int|
            0 <= a < self.penalties@.len() ==> (#[trigger] self.penalties@[a]).has_shape(
                self.basis_sizes@[a] as nat,
                self.basis_sizes@[a] as nat,
            )
        &&& forall|a: int| 0 <= a < self.atom_blocks@.len() ==> #[trigger] self.lists_atom(a)
        &&& forall|r: int, b: int|
            0 <= r < self.rows@.len() && 0 <= b < self.rows@[r].blocks@.len()
                ==> #[trigger] self.is_listed(r, b)
    }

    /// Row `r`'s Jacobian has one entry per channel on every line.
    pub open spec fn has_jacobian(&self, r: int) -> bool {
        forall|axis: int|
            0 <= axis < self.rows@[r].jacobian@.len() ==> (
            #[trigger] self.rows@[r].jacobian@[axis])@.len() == self.width()
    }

    /// Channel `channel` of row `r`'s gather.
    pub open spec fn slot(&self, vector: Seq<S>, r: int, channel: int) -> S {
        gathered(self.rows@[r], vector, self.output_dim as int, channel)
    }

    /// Every row's gather.
    pub open spec fn slots(&self, vector: Seq<S>) -> Seq<Seq<S>> {
        Seq::new(
            self.rows@.len(),
            |r: int| Seq::new(self.width(), |channel: int| self.slot(vector, r, channel)),
        )
    }

    /// What atom `a` scatters to `(basis, channel)` from the rows' gathers, over
    /// the first `n` entries of its list.
    pub open spec fn atom_scatter(
        &self,
        slots: Seq<Seq<S>>,
        a: int,
        basis: int,
        channel: int,
        n: int,
    ) -> S
        decreases n,
    {
        if n <= 0 {
            S::s_zero()
        } else {
            let entry = self.atom_blocks@[a]@[n - 1];
            self.atom_scatter(slots, a, basis, channel, n - 1).s_plus(
                self.rows@[entry.0 as int].blocks@[entry.1 as int].phi@[basis].s_times(
                    slots[entry.0 as int][channel],
                ),
            )
        }
    }

    pub open spec fn scattered(
        &self,
        slots: Seq<Seq<S>>,
        a: int,
        basis: int,
        channel: int,
    ) -> S {
        self.atom_scatter(slots, a, basis, channel, self.atom_blocks@[a]@.len() as int)
    }

    /// The smoothing block of atom `a` on top of `start`, over the first `n`
    /// columns.
    pub open spec fn smoothed(
        &self,
        start: S,
        vector: Seq<S>,
        a: int,
        basis: int,
        channel: int,
        n: int,
    ) -> S {
        s_sum(
            start,
            n,
            |right: int|
                self.lambda_smooth@[a].s_times(self.penalties@[a].at(basis, right)).s_times(
                    vector[self.beta_offsets@[a] + right * self.output_dim + channel],
                ),
        )
    }

    /// Entry `(basis, channel)` of atom `a` in the product with `vector`.
    pub open spec fn product(&self, vector: Seq<S>, a: int, basis: int, channel: int) -> S {
        self.smoothed(
            self.scattered(self.slots(vector), a, basis, channel),
            vector,
            a,
            basis,
            channel,
            self.basis_sizes@[a] as int,
        )
    }

    /// `out` holds the product with `vector`, entry by entry.
    pub open spec fn is_product(&self, vector: Seq<S>, out: Seq<S>) -> bool {
        &&& out.len() == self.beta_dim
        &&& forall|a: int, basis: int, c: int|
            0 <= a < self.basis_sizes@.len() && 0 <= basis < self.basis_sizes@[a] && 0 <= c
                < self.output_dim ==> #[trigger] out[beta_index(
                self.basis_sizes@,
                self.width(),
                a,
                basis,
                c,
            )] == self.product(vector, a, basis, c)
    }

    /// Applying the operator twice to one vector gives one result, whatever the
    /// output buffers held before.
    pub proof fn law_the_product_is_unique(&self, vector: Seq<S>, first: Seq<S>, again: Seq<S>)
        requires
            self.wf(),
            self.is_product(vector, first),
            self.is_product(vector, again),
        ensures
            first == again,
    {
        assert forall|i: int| 0 <= i < self.beta_dim implies first[i] == again[i] by {
            let (a, basis, c) = law_every_position_is_a_coefficient(
                self.basis_sizes@,
                self.width(),
                self.basis_sizes@.len() as int,
                i,
            );
            assert(first[beta_index(self.basis_sizes@, self.width(), a, basis, c)]
                == self.product(vector, a, basis, c));
            assert(again[beta_index(self.basis_sizes@, self.width(), a, basis, c)]
                == self.product(vector, a, basis, c));
        }
        assert(first =~= again);
    }

    /// Position `i` after a plain sweep over the first `n` rows, each gathering
    /// and then scattering its blocks in order.
    pub open spec fn swept(&self, vector: Seq<S>, i: int, n: int) -> S
        decreases n,
    {
        if n <= 0 {
            S::s_zero()
        } else {
            scatter_blocks(
                self.swept(vector, i, n - 1),
                self.rows@[n - 1],
                self.slots(vector)[n - 1],
                self.output_dim as int,
                i,
                self.rows@[n - 1].blocks@.len() as int,
            )
        }
    }

    /// The coefficient block that a row's block touches lies inside the layout.
    pub proof fn lemma_block_bounds(&self, r: int, b: int)
        requires
            self.wf(),
            0 <= r < self.rows@.len(),
            0 <= b < self.rows@[r].blocks@.len(),
        ensures
            self.rows@[r].blocks@[b].beta_offset + self.rows@[r].blocks@[b].phi@.len()
                * self.width() <= self.beta_dim,
    {
        assert(self.is_listed(r, b));
        let (a, e) = choose|a: int, e: int|
            #![trigger self.atom_blocks@[a]@[e]]
            0 <= a < self.atom_blocks@.len() && 0 <= e < self.atom_blocks@[a]@.len()
                && self.atom_blocks@[a]@[e] == (r as usize, b as usize);
        assert(self.rows.len() == self.rows@.len());
        assert(self.rows@[r].blocks.len() == self.rows@[r].blocks@.len());
        assert(self.lists_atom(a));
        assert(self.block_is_of(r, b, a));
        law_blocks_follow_one_another(
            self.basis_sizes@,
            self.width(),
            a,
            self.basis_sizes@.len() as int,
        );
    }

    /// One row's gather: for each channel, `sum basis_row . vector` over the
    /// row's blocks.
    pub fn gather_row(&self, row: usize, vector: &Vec<S>) -> (slot: Vec<S>)
        requires
            self.wf(),
            row < self.rows@.len(),
            vector@.len() == self.beta_dim,
        ensures
            slot@.len() == self.output_dim,
            forall|c: int|
                0 <= c < self.output_dim ==> #[trigger] slot@[c] == self.slot(
                    vector@,
                    row as int,
                    c,
                ),
    {
        let width: usize = self.output_dim;
        let line: &SupportLinearizedRow<S> = &self.rows[row];
        let mut slot: Vec<S> = filled(width, S::zero());
        for b in 0..line.blocks.len()
            invariant
                self.wf(),
                row < self.rows@.len(),
                *line == self.rows@[row as int],
                width == self.output_dim,
                vector@.len() == self.beta_dim,
                slot@.len() == width,
                forall|c: int|
                    0 <= c < width ==> #[trigger] slot@[c] == gather_blocks(
                        *line,
                        vector@,
                        width as int,
                        c,
                        b as int,
                    ),
        {
            let block: &SupportBasisBlock<S> = &line.blocks[b];
            proof {
                self.lemma_block_bounds(row as int, b as int);
            }
            for basis in 0..block.phi.len()
                invariant
                    self.wf(),
                    width == self.output_dim,
                    vector@.len() == self.beta_dim,
                    block.beta_offset + block.phi@.len() * width <= self.beta_dim,
                    slot@.len() == width,
                    forall|c: int|
                        0 <= c < width ==> #[trigger] slot@[c] == gather_block(
                            gather_blocks(*line, vector@, width as int, c, b as int),
                            *block,
                            vector@,
                            width as int,
                            c,
                            basis as int,
                        ),
            {
                for channel in 0..width
                    invariant
                        width == self.output_dim,
                        vector@.len() == self.beta_dim,
                        basis < block.phi@.len(),
                        block.beta_offset + block.phi@.len() * width <= self.beta_dim,
                        slot@.len() == width,
                        forall|c: int|
                            0 <= c < width ==> #[trigger] slot@[c] == gather_block(
                                gather_blocks(*line, vector@, width as int, c, b as int),
                                *block,
                                vector@,
                                width as int,
                                c,
                                if c < channel {
                                    basis + 1
                                } else {
                                    basis as int
                                },
                            ),
                {
                    proof {
                        lemma_flat_index(
                            block.phi@.len() as int,
                            width as int,
                            basis as int,
                            channel as int,
                        );
                    }
                    let position: usize = block.beta_offset + basis * width + channel;
                    let value: S = slot[channel].plus(block.phi[basis].times(vector[position]));
                    slot.set(channel, value);
                }
            }
        }
        slot
    }

    /// One atom's scatter to its own coefficient block, from the rows' gathers.
    pub fn scatter_atom(&self, atom: usize, gathers: &Vec<Vec<S>>) -> (buffer: Matrix<S>)
        requires
            self.wf(),
            atom < self.basis_sizes@.len(),
            gathers@.len() == self.rows@.len(),
            forall|r: int|
                0 <= r < gathers@.len() ==> (#[trigger] gathers@[r])@.len() == self.output_dim,
        ensures
            buffer.has_shape(self.basis_sizes@[atom as int] as nat, self.width()),
            forall|basis: int, c: int|
                0 <= basis < buffer.nrows() && 0 <= c < buffer.ncols() ==> #[trigger] buffer.at(
                    basis,
                    c,
                ) == self.scattered(contents(gathers@), atom as int, basis, c),
    {
        let width: usize = self.output_dim;
        let size: usize = self.basis_sizes[atom];
        let ghost slots = contents(gathers@);
        proof {
            law_blocks_follow_one_another(
                self.basis_sizes@,
                self.width(),
                atom as int,
                self.basis_sizes@.len() as int,
            );
            assert(self.lists_atom(atom as int));
        }
        let mut buffer: Matrix<S> = Matrix::constant(size, width, S::zero());
        let entries: &Vec<(usize, usize)> = &self.atom_blocks[atom];
        for e in 0..entries.len()
            invariant
                self.wf(),
                atom < self.basis_sizes@.len(),
                self.lists_atom(atom as int),
                entries@ == self.atom_blocks@[atom as int]@,
                size == self.basis_sizes@[atom as int],
                width == self.output_dim,
                slots == contents(gathers@),
                gathers@.len() == self.rows@.len(),
                forall|r: int|
                    0 <= r < gathers@.len() ==> (#[trigger] gathers@[r])@.len() == width,
                buffer.has_shape(size as nat, width as nat),
                forall|k: int, c: int|
                    0 <= k < size && 0 <= c < width ==> #[trigger] buffer.at(k, c)
                        == self.atom_scatter(slots, atom as int, k, c, e as int),
        {
            let (r, b): (usize, usize) = entries[e];
            assert(entries@[e as int] == (r, b));
            assert(self.block_is_of(r as int, b as int, atom as int));
            let block: &SupportBasisBlock<S> = &self.rows[r].blocks[b];
            let slot: &Vec<S> = &gathers[r];
            assert(slot@ == slots[r as int]);
            for basis in 0..block.phi.len()
                invariant
                    *block == self.rows@[r as int].blocks@[b as int],
                    entries@ == self.atom_blocks@[atom as int]@,
                    e < entries@.len(),
                    entries@[e as int] == (r, b),
                    slot@ == slots[r as int],
                    slot@.len() == width,
                    block.phi@.len() == size,
                    buffer.has_shape(size as nat, width as nat),
                    forall|k: int, c: int|
                        0 <= k < size && 0 <= c < width ==> #[trigger] buffer.at(k, c)
                            == self.atom_scatter(
                            slots,
                            atom as int,
                            k,
                            c,
                            if k < basis {
                                e + 1
                            } else {
                                e as int
                            },
                        ),
            {
                for channel in 0..width
                    invariant
                        *block == self.rows@[r as int].blocks@[b as int],
                        entries@ == self.atom_blocks@[atom as int]@,
                        e < entries@.len(),
                        entries@[e as int] == (r, b),
                        slot@ == slots[r as int],
                        slot@.len() == width,
                        basis < block.phi@.len(),
                        block.phi@.len() == size,
                        buffer.has_shape(size as nat, width as nat),
                        forall|k: int, c: int|
                            0 <= k < size && 0 <= c < width ==> #[trigger] buffer.at(k, c)
                                == self.atom_scatter(
                                slots,
                                atom as int,
                                k,
                                c,
                                if k < basis || (k == basis && c < channel) {
                                    e + 1
                                } else {
                                    e as int
                                },
                            ),
                {
                    let value: S = buffer.get(basis, channel).plus(
                        block.phi[basis].times(slot[channel]),
                    );
                    buffer.set(basis, channel, value);
                }
            }
        }
        buffer
    }

    /// `H_bb vector`: every atom's scatter of the rows' gathers, plus its
    /// smoothing block.
    pub fn apply(&self, vector: &Vec<S>, out: &mut Vec<S>)
        requires
            self.wf(),
            vector@.len() == self.beta_dim,
            old(out)@.len() == self.beta_dim,
        ensures
            self.is_product(vector@, final(out)@),
    {
        let mut gathers: Vec<Vec<S>> = Vec::new();
        for r in 0..self.rows.len()
            invariant
                self.wf(),
                vector@.len() == self.beta_dim,
                gathers@.len() == r,
                forall|k: int|
                    0 <= k < r ==> {
                        &&& (#[trigger] gathers@[k])@ == self.slots(vector@)[k]
                        &&& gathers@[k]@.len() == self.output_dim
                    },
        {
            let slot: Vec<S> = self.gather_row(r, vector);
            assert(slot@ =~= self.slots(vector@)[r as int]);
            gathers.push(slot);
        }
        assert(contents(gathers@) =~= self.slots(vector@));
        for atom in 0..self.basis_sizes.len()
            invariant
                self.wf(),
                vector@.len() == self.beta_dim,
                out@.len() == self.beta_dim,
                gathers@.len() == self.rows@.len(),
                contents(gathers@) == self.slots(vector@),
                forall|k: int|
                    0 <= k < gathers@.len() ==> (#[trigger] gathers@[k])@.len()
                        == self.output_dim,
                forall|a: int, basis: int, c: int|
                    0 <= a < atom && 0 <= basis < self.basis_sizes@[a] && 0 <= c
                        < self.output_dim ==> #[trigger] out@[beta_index(
                        self.basis_sizes@,
                        self.width(),
                        a,
                        basis,
                        c,
                    )] == self.product(vector@, a, basis, c),
        {
            let buffer: Matrix<S> = self.scatter_atom(atom, &gathers);
            let block: Vec<S> = self.smooth_atom(atom, &buffer, vector);
            let offset: usize = self.beta_offsets[atom];
            let ghost sizes = self.basis_sizes@;
            let ghost start = beta_start(sizes, self.width(), atom as int);
            let ghost end = beta_start(sizes, self.width(), atom + 1);
            proof {
                law_blocks_follow_one_another(
                    sizes,
                    self.width(),
                    atom as int,
                    sizes.len() as int,
                );
            }
            let ghost previous = out@;
            for k in 0..block.len()
                invariant
                    offset + block@.len() <= self.beta_dim,
                    out@.len() == self.beta_dim,
                    previous.len() == self.beta_dim,
                    forall|i: int| 0 <= i < offset ==> #[trigger] out@[i] == previous[i],
                    forall|i: int| 0 <= i < k ==> out@[offset + i] == #[trigger] block@[i],
            {
                out.set(offset + k, block[k]);
            }
            proof {
                assert forall|a: int, basis: int, c: int|
                    0 <= a < atom + 1 && 0 <= basis < sizes[a] && 0 <= c
                        < self.output_dim implies #[trigger] out@[beta_index(
                    sizes,
                    self.width(),
                    a,
                    basis,
                    c,
                )] == self.product(vector@, a, basis, c) by {
                    lemma_beta_index_in_block(sizes, self.width(), a, basis, c);
                    if a < atom {
                        law_blocks_follow_one_another(sizes, self.width(), a, atom as int);
                        let i = beta_index(sizes, self.width(), a, basis, c);
                        assert(previous[i] == self.product(vector@, a, basis, c));
                    } else {
                        lemma_flat_index(
                            sizes[a] as int,
                            self.output_dim as int,
                            basis,
                            c,
                        );
                        assert(block@[basis * self.output_dim + c] == self.product(
                            vector@,
                            a,
                            basis,
                            c,
                        ));
                    }
                }
            }
        }
    }

    /// One atom's entries of the product: its scatter plus its smoothing block,
    /// in flat order.
    pub fn smooth_atom(&self, atom: usize, scatter: &Matrix<S>, vector: &Vec<S>) -> (block: Vec<S>)
        requires
            self.wf(),
            atom < self.basis_sizes@.len(),
            scatter.has_shape(self.basis_sizes@[atom as int] as nat, self.width()),
            vector@.len() == self.beta_dim,
        ensures
            block@.len() == self.basis_sizes@[atom as int] * self.output_dim,
            forall|basis: int, c: int|
                0 <= basis < self.basis_sizes@[atom as int] && 0 <= c < self.output_dim ==>
                    #[trigger] block@[basis * self.output_dim + c] == self.smoothed(
                    scatter.at(basis, c),
                    vector@,
                    atom as int,
                    basis,
                    c,
                    self.basis_sizes@[atom as int] as int,
                ),
    {
        let width: usize = self.output_dim;
        let size: usize = self.basis_sizes[atom];
        let lambda: S = self.lambda_smooth[atom];
        let penalty: &Matrix<S> = &self.penalties[atom];
        let offset: usize = self.beta_offsets[atom];
        proof {
            law_blocks_follow_one_another(
                self.basis_sizes@,
                self.width(),
                atom as int,
                self.basis_sizes@.len() as int,
            );
        }
        let mut block: Vec<S> = Vec::new();
        assert(0 * width == 0) by (nonlinear_arith);
        for left in 0..size
            invariant
                self.wf(),
                atom < self.basis_sizes@.len(),
                size == self.basis_sizes@[atom as int],
                width == self.output_dim,
                lambda == self.lambda_smooth@[atom as int],
                *penalty == self.penalties@[atom as int],
                offset == self.beta_offsets@[atom as int],
                offset + size * width <= self.beta_dim,
                vector@.len() == self.beta_dim,
                scatter.has_shape(size as nat, width as nat),
                block@.len() == left * width,
                forall|k: int, c: int|
                    0 <= k < left && 0 <= c < width ==> #[trigger] block@[k * width + c]
                        == self.smoothed(
                        scatter.at(k, c),
                        vector@,
                        atom as int,
                        k,
                        c,
                        size as int,
                    ),
        {
            let mut line: Vec<S> = Vec::new();
            for channel in 0..width
                invariant
                    scatter.has_shape(size as nat, width as nat),
                    left < size,
                    line@.len() == channel,
                    forall|c: int| 0 <= c < channel ==> #[trigger] line@[c] == scatter.at(left as int, c),
            {
                line.push(scatter.get(left, channel));
            }
            for right in 0..size
                invariant
                    self.wf(),
                    atom < self.basis_sizes@.len(),
                    size == self.basis_sizes@[atom as int],
                    width == self.output_dim,
                    lambda == self.lambda_smooth@[atom as int],
                    *penalty == self.penalties@[atom as int],
                    offset == self.beta_offsets@[atom as int],
                    offset + size * width <= self.beta_dim,
                    vector@.len() == self.beta_dim,
                    left < size,
                    line@.len() == width,
                    forall|c: int|
                        0 <= c < width ==> #[trigger] line@[c] == self.smoothed(
                            scatter.at(left as int, c),
                            vector@,
                            atom as int,
                            left as int,
                            c,
                            right as int,
                        ),
            {
                assert(penalty.has_shape(size as nat, size as nat));
                let weight: S = lambda.times(penalty.get(left, right));
                for channel in 0..width
                    invariant
                        width == self.output_dim,
                        offset == self.beta_offsets@[atom as int],
                        lambda == self.lambda_smooth@[atom as int],
                        *penalty == self.penalties@[atom as int],
                        weight == lambda.s_times(penalty.at(left as int, right as int)),
                        offset + size * width <= self.beta_dim,
                        vector@.len() == self.beta_dim,
                        right < size,
                        line@.len() == width,
                        forall|c: int|
                            0 <= c < width ==> #[trigger] line@[c] == self.smoothed(
                                scatter.at(left as int, c),
                                vector@,
                                atom as int,
                                left as int,
                                c,
                                if c < channel {
                                    right + 1
                                } else {
                                    right as int
                                },
                            ),
                {
                    proof {
                        lemma_flat_index(size as int, width as int, right as int, channel as int);
                    }
                    let position: usize = offset + right * width + channel;
                    let value: S = line[channel].plus(weight.times(vector[position]));
                    line.set(channel, value);
                }
            }
            let ghost before_line = block@;
            proof {
                assert((left + 1) * width == left * width + width) by (nonlinear_arith);
            }
            for channel in 0..width
                invariant
                    line@.len() == width,
                    before_line.len() == left * width,
                    block@.len() == left * width + channel,
                    forall|i: int| 0 <= i < before_line.len() ==> #[trigger] block@[i] == before_line[i],
                    forall|c: int| 0 <= c < channel ==> block@[left * width + c] == #[trigger] line@[c],
            {
                block.push(line[channel]);
            }
            proof {
                assert forall|k: int, c: int| 0 <= k < left + 1 && 0 <= c < width implies
                    #[trigger] block@[k * width + c] == self.smoothed(
                    scatter.at(k, c),
                    vector@,
                    atom as int,
                    k,
                    c,
                    size as int,
                ) by {
                    if k < left {
                        lemma_flat_index(left as int, width as int, k, c);
                        assert(before_line[k * width + c] == block@[k * width + c]);
                    } else {
                        assert(line@[c] == block@[left * width + c]);
                    }
                }
            }
        }
        block
    }

    /// `H_tb vector` for one row: the row's gather, taken through its Jacobian.
    /// Entries past the row's coordinates become zero.
    pub fn htbeta_forward(&self, row: usize, vector: &Vec<S>, out: &mut Vec<S>)
        requires
            self.wf(),
            row < self.rows@.len(),
            self.has_jacobian(row as int),
            vector@.len() == self.beta_dim,
            old(out)@.len() >= self.rows@[row as int].jacobian@.len(),
        ensures
            final(out)@.len() == old(out)@.len(),
            forall|axis: int|
                0 <= axis < old(out)@.len() ==> #[trigger] final(out)@[axis] == (if axis
                    < self.rows@[row as int].jacobian@.len() {
                    self.row_forward(vector@, row as int, axis, self.output_dim as int)
                } else {
                    S::s_zero()
                }),
    {
        let width: usize = self.output_dim;
        let output: Vec<S> = self.gather_row(row, vector);
        let jacobian: &Vec<Vec<S>> = &self.rows[row].jacobian;
        let axes: usize = jacobian.len();
        let total: usize = out.len();
        for axis in 0..total
            invariant
                self.wf(),
                row < self.rows@.len(),
                width == self.output_dim,
                self.has_jacobian(row as int),
                *jacobian == self.rows@[row as int].jacobian,
                axes == jacobian@.len(),
                out@.len() == total,
                output@.len() == width,
                forall|c: int|
                    0 <= c < width ==> #[trigger] output@[c] == self.slot(vector@, row as int, c),
                forall|k: int|
                    0 <= k < axis ==> #[trigger] out@[k] == (if k < axes {
                        self.row_forward(vector@, row as int, k, width as int)
                    } else {
                        S::s_zero()
                    }),
        {
            let mut value: S = S::zero();
            if axis < axes {
                let line: &Vec<S> = &jacobian[axis];
                for channel in 0..width
                    invariant
                        width == self.output_dim,
                        line@ == self.rows@[row as int].jacobian@[axis as int]@,
                        line@.len() == width,
                        output@.len() == width,
                        forall|c: int|
                            0 <= c < width ==> #[trigger] output@[c] == self.slot(
                                vector@,
                                row as int,
                                c,
                            ),
                        value == self.row_forward(
                            vector@,
                            row as int,
                            axis as int,
                            channel as int,
                        ),
                {
                    value = value.plus(line[channel].times(output[channel]));
                }
            }
            out.set(axis, value);
        }
    }

    /// The first `n` channels of coordinate `axis` of `H_tb vector`.
    pub open spec fn row_forward(&self, vector: Seq<S>, row: int, axis: int, n: int) -> S {
        s_sum(
            S::s_zero(),
            n,
            |c: int| self.rows@[row].jacobian@[axis]@[c].s_times(self.slot(vector, row, c)),
        )
    }

    /// What the first `n` coordinates of a row send to channel `c`.
    pub open spec fn row_pullback(&self, vector: Seq<S>, row: int, c: int, n: int) -> S {
        s_sum(
            S::s_zero(),
            n,
            |axis: int| self.rows@[row].jacobian@[axis]@[c].s_times(vector[axis]),
        )
    }

    /// Every channel a row's coordinates send back.
    pub open spec fn row_pullbacks(&self, vector: Seq<S>, row: int) -> Seq<S> {
        Seq::new(
            self.width(),
            |c: int|
                self.row_pullback(vector, row, c, self.rows@[row].jacobian@.len() as int),
        )
    }

    /// Adds `H_bt vector` of one row to `out`: the coordinates pulled back
    /// through the Jacobian, scattered to the row's blocks.
    pub fn htbeta_transpose(&self, row: usize, vector: &Vec<S>, out: &mut Vec<S>)
        requires
            self.wf(),
            row < self.rows@.len(),
            self.has_jacobian(row as int),
            vector@.len() >= self.rows@[row as int].jacobian@.len(),
            old(out)@.len() == self.beta_dim,
        ensures
            final(out)@.len() == self.beta_dim,
            forall|i: int|
                0 <= i < self.beta_dim ==> #[trigger] final(out)@[i] == scatter_blocks(
                    old(out)@[i],
                    self.rows@[row as int],
                    self.row_pullbacks(vector@, row as int),
                    self.output_dim as int,
                    i,
                    self.rows@[row as int].blocks@.len() as int,
                ),
    {
        let width: usize = self.output_dim;
        let line: &SupportLinearizedRow<S> = &self.rows[row];
        let axes: usize = line.jacobian.len();
        let mut output: Vec<S> = Vec::new();
        for channel in 0..width
            invariant
                width == self.output_dim,
                *line == self.rows@[row as int],
                self.has_jacobian(row as int),
                axes == line.jacobian@.len(),
                vector@.len() >= axes,
                output@.len() == channel,
                forall|c: int|
                    0 <= c < channel ==> #[trigger] output@[c] == self.row_pullback(
                        vector@,
                        row as int,
                        c,
                        axes as int,
                    ),
        {
            let mut value: S = S::zero();
            for axis in 0..axes
                invariant
                    *line == self.rows@[row as int],
                    self.has_jacobian(row as int),
                    width == self.output_dim,
                    channel < width,
                    axes == line.jacobian@.len(),
                    vector@.len() >= axes,
                    value == self.row_pullback(vector@, row as int, channel as int, axis as int),
            {
                value = value.plus(line.jacobian[axis][channel].times(vector[axis]));
            }
            output.push(value);
        }
        assert(output@ =~= self.row_pullbacks(vector@, row as int));
        let ghost start = out@;
        for b in 0..line.blocks.len()
            invariant
                self.wf(),
                row < self.rows@.len(),
                width == self.output_dim,
                *line == self.rows@[row as int],
                output@.len() == width,
                out@.len() == self.beta_dim,
                start.len() == self.beta_dim,
                forall|i: int|
                    0 <= i < self.beta_dim ==> #[trigger] out@[i] == scatter_blocks(
                        start[i],
                        *line,
                        output@,
                        width as int,
                        i,
                        b as int,
                    ),
        {
            let block: &SupportBasisBlock<S> = &line.blocks[b];
            proof {
                self.lemma_block_bounds(row as int, b as int);
                assert(0 * width == 0) by (nonlinear_arith);
            }
            for basis in 0..block.phi.len()
                invariant
                    width == self.output_dim,
                    output@.len() == width,
                    *block == line.blocks@[b as int],
                    out@.len() == self.beta_dim,
                    start.len() == self.beta_dim,
                    block.beta_offset + block.phi@.len() * width <= self.beta_dim,
                    forall|i: int|
                        0 <= i < self.beta_dim ==> #[trigger] out@[i] == scatter_blocks(
                            start[i],
                            *line,
                            output@,
                            width as int,
                            i,
                            if block.beta_offset <= i < block.beta_offset + basis * width {
                                b + 1
                            } else {
                                b as int
                            },
                        ),
            {
                for channel in 0..width
                    invariant
                        width == self.output_dim,
                        output@.len() == width,
                        *block == line.blocks@[b as int],
                        basis < block.phi@.len(),
                        out@.len() == self.beta_dim,
                        start.len() == self.beta_dim,
                        block.beta_offset + block.phi@.len() * width <= self.beta_dim,
                        forall|i: int|
                            0 <= i < self.beta_dim ==> #[trigger] out@[i] == scatter_blocks(
                                start[i],
                                *line,
                                output@,
                                width as int,
                                i,
                                if block.beta_offset <= i < block.beta_offset + basis * width
                                    + channel {
                                    b + 1
                                } else {
                                    b as int
                                },
                            ),
                {
                    proof {
                        lemma_flat_index(
                            block.phi@.len() as int,
                            width as int,
                            basis as int,
                            channel as int,
                        );
                        vstd::arithmetic::div_mod::lemma_fundamental_div_mod_converse(
                            basis * width + channel,
                            width as int,
                            basis as int,
                            channel as int,
                        );
                    }
                    let position: usize = block.beta_offset + basis * width + channel;
                    let value: S = out[position].plus(block.phi[basis].times(output[channel]));
                    out.set(position, value);
                }
                proof {
                    assert((basis + 1) * width == basis * width + width) by (nonlinear_arith);
                }
            }
            assert forall|i: int| 0 <= i < self.beta_dim implies #[trigger] out@[i]
                == scatter_blocks(start[i], *line, output@, width as int, i, b + 1) by {
                if !covers(*block, width as int, i) {
                    assert(scatter_blocks(start[i], *line, output@, width as int, i, b + 1)
                        == scatter_blocks(start[i], *line, output@, width as int, i, b as int));
                }
            }
        }
    }

    /// Walking atom `a`'s list up to the pair `(r, b)` gives what a plain sweep
    /// has added to the atom's position `i` when it reaches block `b` of row
    /// `r`.
    proof fn lemma_sweep_prefix(
        &self,
        vector: Seq<S>,
        a: int,
        basis: int,
        c: int,
        r: int,
        b: int,
        k: int,
    )
        requires
            self.wf(),
            0 <= a < self.basis_sizes@.len(),
            0 <= basis < self.basis_sizes@[a],
            0 <= c < self.output_dim,
            0 <= r < self.rows@.len(),
            0 <= b <= self.rows@[r].blocks@.len(),
            0 <= k <= self.atom_blocks@[a]@.len(),
            forall|e: int|
                0 <= e < k ==> before(#[trigger] self.atom_blocks@[a]@[e], r, b),
            forall|e: int|
                k <= e < self.atom_blocks@[a]@.len() ==> !before(
                    #[trigger] self.atom_blocks@[a]@[e],
                    r,
                    b,
                ),
        ensures
            scatter_blocks(
                self.swept(
                    vector,
                    beta_index(self.basis_sizes@, self.width(), a, basis, c),
                    r,
                ),
                self.rows@[r],
                self.slots(vector)[r],
                self.output_dim as int,
                beta_index(self.basis_sizes@, self.width(), a, basis, c),
                b,
            ) == self.atom_scatter(self.slots(vector), a, basis, c, k),
        decreases r, b,
    {
        let sizes = self.basis_sizes@;
        let width = self.output_dim as int;
        let i = beta_index(sizes, self.width(), a, basis, c);
        let entries = self.atom_blocks@[a]@;
        let slots = self.slots(vector);
        assert(self.lists_atom(a));
        if b == 0 {
            if r == 0 {
                if k > 0 {
                    assert(before(entries[k - 1], 0, 0));
                }
            } else {
                let last = self.rows@[r - 1].blocks@.len() as int;
                assert forall|e: int| 0 <= e < k implies before(
                    #[trigger] entries[e],
                    r - 1,
                    last,
                ) by {
                    assert(before(entries[e], r, 0));
                    assert(entries[e].1 < self.rows@[entries[e].0 as int].blocks@.len());
                }
                assert forall|e: int| k <= e < entries.len() implies !before(
                    #[trigger] entries[e],
                    r - 1,
                    last,
                ) by {
                    assert(!before(entries[e], r, 0));
                }
                self.lemma_sweep_prefix(vector, a, basis, c, r - 1, last, k);
            }
        } else {
            let block = self.rows@[r].blocks@[b - 1];
            assert(self.rows.len() == self.rows@.len());
            assert(self.rows@[r].blocks.len() == self.rows@[r].blocks@.len());
            assert(self.is_listed(r, b - 1));
            let (owner, f) = choose|owner: int, f: int|
                #![trigger self.atom_blocks@[owner]@[f]]
                0 <= owner < self.atom_blocks@.len() && 0 <= f < self.atom_blocks@[owner]@.len()
                    && self.atom_blocks@[owner]@[f] == (r as usize, (b - 1) as usize);
            assert(self.lists_atom(owner));
            assert(self.block_is_of(r, b - 1, owner));
            lemma_flat_index(sizes[a] as int, width, basis, c);
            if owner == a {
                assert(before(entries[f], r, b));
                assert(f < k);
                if f < k - 1 {
                    assert(before(entries[f], entries[k - 1].0 as int, entries[k - 1].1 as int));
                    assert(before(entries[k - 1], r, b));
                    assert(false);
                }
                assert forall|e: int| 0 <= e < k - 1 implies before(
                    #[trigger] entries[e],
                    r,
                    b - 1,
                ) by {
                    assert(before(entries[e], entries[k - 1].0 as int, entries[k - 1].1 as int));
                }
                assert forall|e: int| k - 1 <= e < entries.len() implies !before(
                    #[trigger] entries[e],
                    r,
                    b - 1,
                ) by {
                    if e >= k {
                        assert(!before(entries[e], r, b));
                    }
                }
                self.lemma_sweep_prefix(vector, a, basis, c, r, b - 1, k - 1);
                assert(covers(block, width, i));
                vstd::arithmetic::div_mod::lemma_fundamental_div_mod_converse(
                    basis * width + c,
                    width,
                    basis,
                    c,
                );
            } else {
                if owner < a {
                    law_blocks_follow_one_another(sizes, self.width(), owner, a);
                } else {
                    law_blocks_follow_one_another(sizes, self.width(), a, owner);
                }
                assert(!covers(block, width, i));
                assert forall|e: int| 0 <= e < k implies before(
                    #[trigger] entries[e],
                    r,
                    b - 1,
                ) by {
                    assert(before(entries[e], r, b));
                    if entries[e].0 == r && entries[e].1 == b - 1 {
                        assert(self.block_is_of(r, b - 1, a));
                        assert(block.phi@.len() == sizes[a]);
                        assert(block.beta_offset == beta_start(sizes, self.width(), a));
                        assert(covers(block, width, i));
                    }
                }
                assert forall|e: int| k <= e < entries.len() implies !before(
                    #[trigger] entries[e],
                    r,
                    b - 1,
                ) by {
                    assert(!before(entries[e], r, b));
                }
                self.lemma_sweep_prefix(vector, a, basis, c, r, b - 1, k);
            }
        }
    }

    /// The atom-by-atom scatter gives, at every coefficient, exactly what a
    /// plain sweep over the rows accumulates there: the same additions in the
    /// same order.
    pub proof fn law_scatter_is_the_plain_sweep(&self, vector: Seq<S>, a: int, basis: int, c: int)
        requires
            self.wf(),
            0 <= a < self.basis_sizes@.len(),
            0 <= basis < self.basis_sizes@[a],
            0 <= c < self.output_dim,
        ensures
            self.scattered(self.slots(vector), a, basis, c) == self.swept(
                vector,
                beta_index(self.basis_sizes@, self.width(), a, basis, c),
                self.rows@.len() as int,
            ),
            self.product(vector, a, basis, c) == self.smoothed(
                self.swept(
                    vector,
                    beta_index(self.basis_sizes@, self.width(), a, basis, c),
                    self.rows@.len() as int,
                ),
                vector,
                a,
                basis,
                c,
                self.basis_sizes@[a] as int,
            ),
    {
        let n = self.rows@.len() as int;
        let entries = self.atom_blocks@[a]@;
        assert(self.lists_atom(a));
        if n == 0 {
            if entries.len() > 0 {
                assert(entries[0].0 < n);
            }
        } else {
            let last = self.rows@[n - 1].blocks@.len() as int;
            assert forall|e: int| 0 <= e < entries.len() implies before(
                #[trigger] entries[e],
                n - 1,
                last,
            ) by {
                assert(entries[e].1 < self.rows@[entries[e].0 as int].blocks@.len());
            }
            self.lemma_sweep_prefix(vector, a, basis, c, n - 1, last, entries.len() as int);
        }
    }
}

} // verus!
