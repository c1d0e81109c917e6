//! One decoder atom: its chart, its basis width, and its decoder block.
use crate::matrix::Matrix;
use vstd::prelude::*;

verus! {

/// The family an atom's chart belongs to.
#[derive(Clone, Copy, Debug, PartialEq, Eq, Structural)]
pub enum SaeAtomBasisKind {
    Linear,
    EuclideanPatch,
    Periodic,
    Torus,
    KleinBottle,
    Cylinder,
    Mobius,
    Sphere,
    ProjectivePlane,
}

impl SaeAtomBasisKind {
    /// Charts whose coordinate is squashed onto a whole period before use.
    pub open spec fn has_periodic_chart(self) -> bool {
        self is Periodic || self is Torus || self is KleinBottle
    }

    pub fn is_periodic_chart(self) -> (r: bool)
        ensures
            r == self.has_periodic_chart(),
    {
        match self {
            SaeAtomBasisKind::Periodic | SaeAtomBasisKind::Torus
            | SaeAtomBasisKind::KleinBottle => true,
            _ => false,
        }
    }
}

/// Why an atom, or a change to one, is refused.
#[derive(Clone, Copy, Debug, PartialEq, Eq, Structural)]
pub enum AtomError {
    /// The decoder's shape is not `basis width x output dimension`.
    DecoderShape { rows: usize, cols: usize, basis_width: usize, output_dim: usize },
    /// The roughness penalty is not square of the basis width.
    PenaltyShape { rows: usize, cols: usize, basis_width: usize },
}

/// An atom maps a chart coordinate to `basis_row(t) * decoder`.
#[derive(Debug)]
pub struct SaeManifoldAtom<S> {
    basis_kind: SaeAtomBasisKind,
    latent_dim: usize,
    /// How many basis functions the atom's evaluator produces.
    basis_width: usize,
    /// The atom has an evaluator for its basis row and jet.
    has_evaluator: bool,
    decoder: Matrix<S>,
    penalty: Matrix<S>,
}

impl<S> SaeManifoldAtom<S> {
    /// The chart's family.
    pub closed spec fn kind(&self) -> SaeAtomBasisKind {
        self.basis_kind
    }

    /// The number of chart axes.
    pub closed spec fn dim(&self) -> usize {
        self.latent_dim
    }

    /// The number of basis functions.
    pub closed spec fn m(&self) -> usize {
        self.basis_width
    }

    pub closed spec fn evaluated(&self) -> bool {
        self.has_evaluator
    }

    pub closed spec fn decoder(&self) -> Matrix<S> {
        self.decoder
    }

    pub closed spec fn penalty(&self) -> Matrix<S> {
        self.penalty
    }

    pub open spec fn width(&self) -> nat {
        self.decoder().ncols()
    }

    /// Both matrices hold as many entries as their shapes declare.
    pub open spec fn wf(&self) -> bool {
        self.decoder().wf() && self.penalty().wf()
    }

    /// The decoder and the penalty span the atom's own basis.
    pub open spec fn spans_basis(&self) -> bool {
        &&& self.decoder().nrows() == self.m()
        &&& self.penalty().nrows() == self.m()
        &&& self.penalty().ncols() == self.m()
    }

    /// The entry of the decoder for one basis function and channel.
    pub open spec fn coefficient(&self, basis: int, channel: int) -> S {
        self.decoder().at(basis, channel)
    }

    pub open spec fn roughness(&self, left: int, right: int) -> S {
        self.penalty().at(left, right)
    }

    /// Same chart, same shapes, same entries.
    pub open spec fn same_as(&self, other: &SaeManifoldAtom<S>) -> bool {
        &&& self.same_chart(other)
        &&& self.decoder().same_as(&other.decoder())
    }

    /// The same atom up to its decoder's entries.
    pub open spec fn same_chart(&self, other: &SaeManifoldAtom<S>) -> bool {
        &&& self.kind() == other.kind()
        &&& self.dim() == other.dim()
        &&& self.m() == other.m()
        &&& self.evaluated() == other.evaluated()
        &&& self.penalty().same_as(&other.penalty())
        &&& self.decoder().nrows() == other.decoder().nrows()
        &&& self.decoder().ncols() == other.decoder().ncols()
    }

    /// An atom with the given parts. The shapes are checked where a term
    /// admits the atom.
    pub fn new(
        basis_kind: SaeAtomBasisKind,
        latent_dim: usize,
        basis_width: usize,
        has_evaluator: bool,
        decoder: Matrix<S>,
        penalty: Matrix<S>,
    ) -> (r: SaeManifoldAtom<S>)
        requires
            decoder.wf(),
            penalty.wf(),
        ensures
            r.wf(),
            r.kind() == basis_kind,
            r.dim() == latent_dim,
            r.m() == basis_width,
            r.evaluated() == has_evaluator,
            r.decoder() == decoder,
            r.penalty() == penalty,
    {
        SaeManifoldAtom { basis_kind, latent_dim, basis_width, has_evaluator, decoder, penalty }
    }

    pub fn basis_kind(&self) -> (r: SaeAtomBasisKind)
        ensures
            r == self.kind(),
    {
        self.basis_kind
    }

    pub fn latent_dim(&self) -> (r: usize)
        ensures
            r == self.dim(),
    {
        self.latent_dim
    }

    pub fn basis_size(&self) -> (r: usize)
        ensures
            r == self.m(),
    {
        self.basis_width
    }

    pub fn has_basis_evaluator(&self) -> (r: bool)
        ensures
            r == self.evaluated(),
    {
        self.has_evaluator
    }

    pub fn output_dim(&self) -> (r: usize)
        ensures
            r == self.width(),
    {
        self.decoder.col_count()
    }

    pub fn decoder_coefficients(&self) -> (r: &Matrix<S>)
        ensures
            *r == self.decoder(),
    {
        &self.decoder
    }

    pub fn smooth_penalty(&self) -> (r: &Matrix<S>)
        ensures
            *r == self.penalty(),
    {
        &self.penalty
    }

    /// Which of the atom's matrices does not span its basis, if one does not.
    pub open spec fn shape_fault(&self) -> Option<AtomError> {
        if self.decoder().nrows() != self.m() {
            Some(
                AtomError::DecoderShape {
                    rows: self.decoder().nrows() as usize,
                    cols: self.decoder().ncols() as usize,
                    basis_width: self.m(),
                    output_dim: self.decoder().ncols() as usize,
                },
            )
        } else if self.penalty().nrows() != self.m() || self.penalty().ncols() != self.m() {
            Some(
                AtomError::PenaltyShape {
                    rows: self.penalty().nrows() as usize,
                    cols: self.penalty().ncols() as usize,
                    basis_width: self.m(),
                },
            )
        } else {
            None
        }
    }

    /// Refuses an atom whose decoder or penalty does not span its basis.
    pub fn validate_shape_contract(&self) -> (r: Result<(), AtomError>)
        ensures
            r is Ok <==> self.spans_basis(),
            match r {
                Ok(_) => self.shape_fault() is None,
                Err(e) => self.shape_fault() == Some(e),
            },
    {
        let rows: usize = self.decoder.row_count();
        let cols: usize = self.decoder.col_count();
        if rows != self.basis_width {
            return Err(
                AtomError::DecoderShape {
                    rows,
                    cols,
                    basis_width: self.basis_width,
                    output_dim: cols,
                },
            );
        }
        let rows: usize = self.penalty.row_count();
        let cols: usize = self.penalty.col_count();
        if rows != self.basis_width || cols != self.basis_width {
            return Err(AtomError::PenaltyShape { rows, cols, basis_width: self.basis_width });
        }
        Ok(())
    }

    /// Installs a decoder of the atom's own shape. Any other is refused, and the
    /// atom keeps the decoder it had.
    pub fn set_decoder_coefficients(&mut self, decoder: Matrix<S>) -> (r: Result<(), AtomError>)
        requires
            old(self).wf(),
            decoder.wf(),
        ensures
            final(self).wf(),
            r is Ok <==> decoder.nrows() == old(self).m() && decoder.ncols() == old(self).width(),
            r is Ok ==> final(self).decoder() == decoder,
            r matches Err(e) ==> {
                &&& *final(self) == *old(self)
                &&& decoder.nrows() <= usize::MAX && decoder.ncols() <= usize::MAX
                &&& e == (AtomError::DecoderShape {
                    rows: decoder.nrows() as usize,
                    cols: decoder.ncols() as usize,
                    basis_width: old(self).m(),
                    output_dim: old(self).width() as usize,
                })
            },
            final(self).kind() == old(self).kind(),
            final(self).dim() == old(self).dim(),
            final(self).m() == old(self).m(),
            final(self).evaluated() == old(self).evaluated(),
            final(self).penalty() == old(self).penalty(),
    {
        let rows: usize = decoder.row_count();
        let cols: usize = decoder.col_count();
        let output_dim: usize = self.decoder.col_count();
        if rows != self.basis_width || cols != output_dim {
            return Err(
                AtomError::DecoderShape { rows, cols, basis_width: self.basis_width, output_dim },
            );
        }
        self.decoder = decoder;
        Ok(())
    }
}

impl<S: Copy> SaeManifoldAtom<S> {
    /// A copy of the atom.
    pub fn copy(&self) -> (r: SaeManifoldAtom<S>)
        requires
            self.wf(),
        ensures
            r.wf(),
            r.same_as(self),
    {
        SaeManifoldAtom {
            basis_kind: self.basis_kind,
            latent_dim: self.latent_dim,
            basis_width: self.basis_width,
            has_evaluator: self.has_evaluator,
            decoder: self.decoder.copy(),
            penalty: self.penalty.copy(),
        }
    }
}

/// Copies of all the atoms.
pub fn copy_atoms<S: Copy>(atoms: &Vec<SaeManifoldAtom<S>>) -> (r: Vec<SaeManifoldAtom<S>>)
    requires
        forall|k: int| 0 <= k < atoms@.len() ==> (#[trigger] atoms@[k]).wf(),
    ensures
        r@.len() == atoms@.len(),
        forall|k: int|
            0 <= k < atoms@.len() ==> (#[trigger] r@[k]).wf() && r@[k].same_as(&atoms@[k]),
{
    let mut out: Vec<SaeManifoldAtom<S>> = Vec::new();
    for k in 0..atoms.len()
        invariant
            forall|j: int| 0 <= j < atoms@.len() ==> (#[trigger] atoms@[j]).wf(),
            out@.len() == k,
            forall|j: int|
                0 <= j < k ==> (#[trigger] out@[j]).wf() && out@[j].same_as(&atoms@[j]),
    {
        out.push(atoms[k].copy());
    }
    out
}

} // verus!
