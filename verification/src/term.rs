//! The support-sparse curved term: its construction and its state.
//!
//! Gates are hard and binary, so a row's only free parameters are the
//! coordinates of its active atoms. The term keeps, beside the routed state, the
//! inverse of the support: for each atom, the rows and slots that use it.
use crate::assignment::{AssignmentError, AssignmentMode, SaeAssignmentState};
use crate::atom::{AtomError, SaeManifoldAtom};
use crate::layout::{is_layout, is_layout_fault, layout_of, LayoutError};
use crate::matrix::Matrix;
use crate::scalar::contents;
use vstd::prelude::*;

verus! {

/// Why a term is not admitted.
#[derive(Clone, Copy, Debug, PartialEq, Eq, Structural)]
pub enum TermError {
    /// There are no atoms, or not as many as the routed state declares.
    AtomCount { atoms: usize, assigned: usize },
    /// The routed state is not hard top-k.
    NotTopK { mode: AssignmentMode },
    /// The decoders have no output channel.
    NoOutput,
    /// An atom's decoder or penalty does not span its basis.
    AtomShape { atom: usize, error: AtomError },
    /// An atom's decoder differs from the first one's in output channels.
    AtomOutput { atom: usize, found: usize, expected: usize },
    /// An atom's chart differs in axes from its coordinate block.
    AtomDim { atom: usize, found: usize, expected: usize },
    /// An atom has no basis evaluator.
    NoEvaluator { atom: usize },
    /// A row uses no atom, or more than the declared number.
    SupportWidth { row: usize, width: usize, top_k: usize },
}

/// How a term's decoder and router are to work.
#[derive(Clone, Copy, Debug)]
pub struct TermKnobs<S> {
    /// `Some(passes)` selects the accelerated decoder update.
    pub decoder_fista_passes: Option<usize>,
    /// Stop admitting a row's atoms once the priced gain is not positive.
    pub variable_priced_support: bool,
    /// Rank affine atoms at their optimal coordinate.
    pub exact_affine_ranking: bool,
    /// Amortise the admission charge over each atom's own use.
    pub admission_usage_amortized: bool,
    /// The noise level that arms priced admission.
    pub admission_dof_sigma2: Option<S>,
}

/// One hard top-k curved model.
#[derive(Debug)]
pub struct SaeSupportSparseTerm<S> {
    atoms: Vec<SaeManifoldAtom<S>>,
    assignment: SaeAssignmentState<S>,
    output_dim: usize,
    atom_rows: Vec<Vec<(usize, usize)>>,
    knobs: TermKnobs<S>,
}

/// The slots of one row's support, below `n`, that name atom `a`.
pub open spec fn uses_in_row(support: Seq<u32>, row: int, n: int, a: int) -> Seq<(usize, usize)>
    decreases n,
{
    if n <= 0 {
        Seq::empty()
    } else {
        let rest = uses_in_row(support, row, n - 1, a);
        if support[n - 1] == a {
            rest.push((row as usize, (n - 1) as usize))
        } else {
            rest
        }
    }
}

/// The rows and slots, among the first `n` rows, that use atom `a`, in order.
pub open spec fn uses_of(supports: Seq<Seq<u32>>, n: int, a: int) -> Seq<(usize, usize)>
    decreases n,
{
    if n <= 0 {
        Seq::empty()
    } else {
        uses_of(supports, n - 1, a) + uses_in_row(
            supports[n - 1],
            n - 1,
            supports[n - 1].len() as int,
            a,
        )
    }
}

/// The number of uses of the first `k` atoms.
pub open spec fn uses_below(uses: Seq<Seq<(usize, usize)>>, k: int) -> nat
    decreases k,
{
    if k <= 0 {
        0
    } else {
        uses_below(uses, k - 1) + uses[k - 1].len()
    }
}

/// The number of active pairs in the first `n` rows.
pub open spec fn pairs_below(supports: Seq<Seq<u32>>, n: int) -> nat
    decreases n,
{
    if n <= 0 {
        0
    } else {
        pairs_below(supports, n - 1) + supports[n - 1].len()
    }
}

/// Every entry of `uses_in_row` is a use of the atom in that row, entries
/// increase, and every use is an entry.
pub proof fn lemma_uses_in_row(support: Seq<u32>, row: int, n: int, a: int)
    requires
        0 <= n <= support.len() <= usize::MAX,
        0 <= row <= usize::MAX,
    ensures
        forall|e: int|
            0 <= e < uses_in_row(support, row, n, a).len() ==> {
                let entry = #[trigger] uses_in_row(support, row, n, a)[e];
                entry.0 == row && entry.1 < n && support[entry.1 as int] == a
            },
        forall|e: int, f: int|
            0 <= e < f < uses_in_row(support, row, n, a).len() ==> (#[trigger] uses_in_row(
                support,
                row,
                n,
                a,
            )[e]).1 < (#[trigger] uses_in_row(support, row, n, a)[f]).1,
        forall|slot: int|
            0 <= slot < n && #[trigger] support[slot] == a ==> uses_in_row(support, row, n, a).contains(
                (row as usize, slot as usize),
            ),
        uses_in_row(support, row, n, a).len() <= n,
    decreases n,
{
    if n > 0 {
        lemma_uses_in_row(support, row, n - 1, a);
        let rest = uses_in_row(support, row, n - 1, a);
        let all = uses_in_row(support, row, n, a);
        assert forall|slot: int| 0 <= slot < n && #[trigger] support[slot] == a implies all.contains(
            (row as usize, slot as usize),
        ) by {
            if slot == n - 1 {
                assert(all[all.len() - 1] == (row as usize, slot as usize));
            } else {
                assert(rest.contains((row as usize, slot as usize)));
                let e = choose|e: int| 0 <= e < rest.len() && rest[e] == (row as usize, slot as usize);
                assert(all[e] == rest[e]);
            }
        }
    }
}

/// The entry is a use of atom `a` in the first `n` rows.
pub open spec fn is_use(supports: Seq<Seq<u32>>, n: int, entry: (usize, usize), a: int) -> bool {
    entry.0 < n && entry.1 < supports[entry.0 as int].len() && supports[entry.0 as int][entry.1 as int]
        == a
}

/// Entries of `uses_of` are uses of the atom, they increase, and every use is
/// an entry.
pub proof fn law_uses_invert_the_support(supports: Seq<Seq<u32>>, n: int, a: int)
    requires
        0 <= n <= supports.len() <= usize::MAX,
        forall|r: int| 0 <= r < supports.len() ==> (#[trigger] supports[r]).len() <= usize::MAX,
    ensures
        forall|e: int|
            0 <= e < uses_of(supports, n, a).len() ==> is_use(
                supports,
                n,
                #[trigger] uses_of(supports, n, a)[e],
                a,
            ),
        forall|e: int, f: int|
            0 <= e < f < uses_of(supports, n, a).len() ==> crate::operator::before(
                #[trigger] uses_of(supports, n, a)[e],
                (#[trigger] uses_of(supports, n, a)[f]).0 as int,
                uses_of(supports, n, a)[f].1 as int,
            ),
        forall|row: int, slot: int|
            0 <= row < n && 0 <= slot < supports[row].len() && #[trigger] supports[row][slot] == a
                ==> uses_of(supports, n, a).contains((row as usize, slot as usize)),
    decreases n,
{
    if n > 0 {
        law_uses_invert_the_support(supports, n - 1, a);
        let last = supports[n - 1];
        lemma_uses_in_row(last, n - 1, last.len() as int, a);
        let rest = uses_of(supports, n - 1, a);
        let tail = uses_in_row(last, n - 1, last.len() as int, a);
        let all = uses_of(supports, n, a);
        assert(all == rest + tail);
        assert forall|e: int| 0 <= e < all.len() implies is_use(
            supports,
            n,
            #[trigger] all[e],
            a,
        ) by {
            if e < rest.len() {
                assert(is_use(supports, n - 1, rest[e], a));
            } else {
                assert(all[e] == tail[e - rest.len()]);
            }
        }
        assert forall|e: int, f: int| 0 <= e < f < all.len() implies crate::operator::before(
            #[trigger] all[e],
            (#[trigger] all[f]).0 as int,
            all[f].1 as int,
        ) by {
            if f < rest.len() {
                assert(all[e] == rest[e] && all[f] == rest[f]);
            } else if e < rest.len() {
                assert(is_use(supports, n - 1, rest[e], a));
                assert(all[f] == tail[f - rest.len()]);
            } else {
                assert(all[e] == tail[e - rest.len()]);
                assert(all[f] == tail[f - rest.len()]);
            }
        }
        assert forall|row: int, slot: int|
            0 <= row < n && 0 <= slot < supports[row].len() && #[trigger] supports[row][slot]
                == a implies all.contains((row as usize, slot as usize)) by {
            let entry = (row as usize, slot as usize);
            if row < n - 1 {
                assert(rest.contains(entry));
                let e = choose|e: int| 0 <= e < rest.len() && rest[e] == entry;
                assert(all[e] == entry);
            } else {
                assert(tail.contains(entry));
                let e = choose|e: int| 0 <= e < tail.len() && tail[e] == entry;
                assert(all[rest.len() + e] == entry);
            }
        }
    }
}

/// All the atoms' uses.
pub open spec fn all_uses(supports: Seq<Seq<u32>>, n: int, k: nat) -> Seq<Seq<(usize, usize)>> {
    Seq::new(k, |a: int| uses_of(supports, n, a))
}

/// Uses of the first `k` atoms in the first `s` slots of one row.
pub open spec fn row_uses(support: Seq<u32>, row: int, s: int, k: nat) -> Seq<Seq<(usize, usize)>> {
    Seq::new(k, |a: int| uses_in_row(support, row, s, a))
}

proof fn lemma_row_uses_count(support: Seq<u32>, row: int, s: int, total: nat, k: int)
    requires
        0 <= s <= support.len(),
        0 <= k <= total,
        forall|j: int| 0 <= j < s ==> #[trigger] support[j] < total,
    ensures
        s > 0 ==> uses_below(row_uses(support, row, s, total), k) == uses_below(
            row_uses(support, row, s - 1, total),
            k,
        ) + (if support[s - 1] < k {
            1nat
        } else {
            0nat
        }),
        s == 0 ==> uses_below(row_uses(support, row, s, total), k) == 0,
    decreases k,
{
    if k > 0 {
        lemma_row_uses_count(support, row, s, total, k - 1);
    }
}

proof fn lemma_row_uses_total(support: Seq<u32>, row: int, s: int, total: nat)
    requires
        0 <= s <= support.len(),
        forall|j: int| 0 <= j < s ==> #[trigger] support[j] < total,
    ensures
        uses_below(row_uses(support, row, s, total), total as int) == s,
    decreases s,
{
    lemma_row_uses_count(support, row, s, total, total as int);
    if s > 0 {
        lemma_row_uses_total(support, row, s - 1, total);
        assert(support[s - 1] < total);
    }
}

proof fn lemma_uses_below_adds(
    whole: Seq<Seq<(usize, usize)>>,
    left: Seq<Seq<(usize, usize)>>,
    right: Seq<Seq<(usize, usize)>>,
    k: int,
)
    requires
        0 <= k <= whole.len(),
        whole.len() == left.len() == right.len(),
        forall|a: int|
            0 <= a < whole.len() ==> (#[trigger] whole[a]).len() == left[a].len() + right[a].len(),
    ensures
        uses_below(whole, k) == uses_below(left, k) + uses_below(right, k),
    decreases k,
{
    if k > 0 {
        lemma_uses_below_adds(whole, left, right, k - 1);
        assert(whole[k - 1].len() == left[k - 1].len() + right[k - 1].len());
    }
}

/// The inverse of the support has exactly one entry per active pair: the
/// atoms' uses together number the rows' active atoms together.
pub proof fn law_one_entry_per_active_pair(supports: Seq<Seq<u32>>, n: int, k: nat)
    requires
        0 <= n <= supports.len(),
        forall|r: int, s: int|
            0 <= r < n && 0 <= s < supports[r].len() ==> #[trigger] supports[r][s] < k,
    ensures
        uses_below(all_uses(supports, n, k), k as int) == pairs_below(supports, n),
    decreases n,
{
    if n > 0 {
        law_one_entry_per_active_pair(supports, n - 1, k);
        let last = supports[n - 1];
        assert forall|j: int| 0 <= j < last.len() implies #[trigger] last[j] < k by {
            assert(supports[n - 1][j] < k);
        }
        lemma_row_uses_total(last, n - 1, last.len() as int, k);
        lemma_uses_below_adds(
            all_uses(supports, n, k),
            all_uses(supports, n - 1, k),
            row_uses(last, n - 1, last.len() as int, k),
            k as int,
        );
    } else {
        lemma_no_uses(all_uses(supports, n, k), k as int);
    }
}

proof fn lemma_no_uses(uses: Seq<Seq<(usize, usize)>>, k: int)
    requires
        0 <= k <= uses.len(),
        forall|a: int| 0 <= a < uses.len() ==> (#[trigger] uses[a]).len() == 0,
    ensures
        uses_below(uses, k) == 0,
    decreases k,
{
    if k > 0 {
        lemma_no_uses(uses, k - 1);
        assert(uses[k - 1].len() == 0);
    }
}

/// What is wrong with atom `k` as an atom of a term with `width` channels.
pub open spec fn atom_fault<S>(
    atoms: Seq<SaeManifoldAtom<S>>,
    state: &SaeAssignmentState<S>,
    width: nat,
    k: int,
) -> Option<TermError> {
    let atom = atoms[k];
    match atom.shape_fault() {
        Some(error) => Some(TermError::AtomShape { atom: k as usize, error }),
        None => if atom.width() != width {
            Some(
                TermError::AtomOutput {
                    atom: k as usize,
                    found: atom.width() as usize,
                    expected: width as usize,
                },
            )
        } else if atom.dim() != state.dims()[k] {
            Some(
                TermError::AtomDim { atom: k as usize, found: atom.dim(), expected: state.dims()[k] },
            )
        } else if !atom.evaluated() {
            Some(TermError::NoEvaluator { atom: k as usize })
        } else {
            None
        },
    }
}

/// The first fault among the atoms from `k` on.
pub open spec fn first_atom_fault<S>(
    atoms: Seq<SaeManifoldAtom<S>>,
    state: &SaeAssignmentState<S>,
    width: nat,
    k: int,
) -> Option<TermError>
    decreases atoms.len() - k,
{
    if k >= atoms.len() {
        None
    } else {
        match atom_fault(atoms, state, width, k) {
            Some(error) => Some(error),
            None => first_atom_fault(atoms, state, width, k + 1),
        }
    }
}

/// The first row from `r` on whose support is empty or too wide.
pub open spec fn first_width_fault(
    supports: Seq<Seq<u32>>,
    top_k: usize,
    r: int,
) -> Option<TermError>
    decreases supports.len() - r,
{
    if r >= supports.len() {
        None
    } else if supports[r].len() == 0 || supports[r].len() > top_k {
        Some(
            TermError::SupportWidth { row: r as usize, width: supports[r].len() as usize, top_k },
        )
    } else {
        first_width_fault(supports, top_k, r + 1)
    }
}

/// Why these atoms and this routed state do not form a term, if they do not.
pub open spec fn admission_fault<S>(
    atoms: Seq<SaeManifoldAtom<S>>,
    state: &SaeAssignmentState<S>,
) -> Option<TermError> {
    if atoms.len() == 0 || state.atoms() != atoms.len() {
        Some(TermError::AtomCount { atoms: atoms.len() as usize, assigned: state.atoms() as usize })
    } else {
        match state.mode_spec() {
            AssignmentMode::TopK { k } => if atoms[0].width() == 0 {
                Some(TermError::NoOutput)
            } else {
                match first_atom_fault(atoms, state, atoms[0].width(), 0) {
                    Some(error) => Some(error),
                    None => first_width_fault(state.supports(), k, 0),
                }
            },
            mode => Some(TermError::NotTopK { mode }),
        }
    }
}

proof fn lemma_no_atom_fault<S>(
    atoms: Seq<SaeManifoldAtom<S>>,
    state: &SaeAssignmentState<S>,
    width: nat,
    k: int,
    j: int,
)
    requires
        0 <= k <= j < atoms.len(),
        first_atom_fault(atoms, state, width, k) is None,
    ensures
        atom_fault(atoms, state, width, j) is None,
    decreases j - k,
{
    if k < j {
        lemma_no_atom_fault(atoms, state, width, k + 1, j);
    }
}

proof fn lemma_no_width_fault(supports: Seq<Seq<u32>>, top_k: usize, r: int, j: int)
    requires
        0 <= r <= j < supports.len(),
        first_width_fault(supports, top_k, r) is None,
    ensures
        1 <= supports[j].len() <= top_k,
    decreases j - r,
{
    if r < j {
        lemma_no_width_fault(supports, top_k, r + 1, j);
    }
}

impl<S> SaeSupportSparseTerm<S> {
    pub closed spec fn atom_seq(&self) -> Seq<SaeManifoldAtom<S>> {
        self.atoms@
    }

    pub closed spec fn state(&self) -> SaeAssignmentState<S> {
        self.assignment
    }

    pub closed spec fn width(&self) -> nat {
        self.output_dim as nat
    }

    /// For each atom, the rows and slots that use it.
    pub closed spec fn uses(&self) -> Seq<Seq<(usize, usize)>> {
        contents(self.atom_rows@)
    }

    pub closed spec fn knob_spec(&self) -> TermKnobs<S> {
        self.knobs
    }

    pub open spec fn rows(&self) -> nat {
        self.state().rows()
    }

    pub open spec fn k(&self) -> nat {
        self.atom_seq().len()
    }

    pub open spec fn support(&self, row: int) -> Seq<u32> {
        self.state().supports()[row]
    }

    /// The atom in slot `slot` of row `row`.
    pub open spec fn active(&self, row: int, slot: int) -> SaeManifoldAtom<S> {
        self.atom_seq()[self.support(row)[slot] as int]
    }

    pub open spec fn basis_sizes(&self) -> Seq<usize> {
        Seq::new(self.k(), |a: int| self.atom_seq()[a].m())
    }

    pub open spec fn atom_wf(&self, a: int) -> bool {
        let atom = self.atom_seq()[a];
        &&& atom.wf()
        &&& atom.spans_basis()
        &&& atom.width() == self.width()
        &&& atom.dim() == self.state().dims()[a]
        &&& atom.evaluated()
    }

    /// The state is routed, the atoms fit it and one another, and the kept
    /// inverse is the inverse of the support.
    pub open spec fn wf(&self) -> bool {
        &&& self.state().wf()
        &&& self.k() > 0
        &&& self.k() <= usize::MAX
        &&& self.k() == self.state().atoms()
        &&& 0 < self.width() <= usize::MAX
        &&& self.state().mode_spec() is TopK
        &&& forall|a: int| 0 <= a < self.k() ==> #[trigger] self.atom_wf(a)
        &&& forall|row: int|
            0 <= row < self.rows() ==> 1 <= (#[trigger] self.support(row)).len()
                <= self.state().mode_spec()->k
        &&& self.uses() == all_uses(self.state().supports(), self.rows() as int, self.k())
    }

    /// The slot's atom exists and is well formed.
    pub proof fn lemma_active(&self, row: int, slot: int)
        requires
            self.wf(),
            0 <= row < self.rows(),
            0 <= slot < self.support(row).len(),
        ensures
            self.support(row)[slot] < self.k(),
            self.atom_wf(self.support(row)[slot] as int),
            self.active(row, slot).dim() == self.state().slot_dim(row, slot),
    {
        assert(self.state().row_wf(row));
    }

    /// An atom's uses can be counted.
    pub proof fn lemma_uses_fit(&self, a: int)
        requires
            self.wf(),
            0 <= a < self.k(),
        ensures
            self.uses()[a].len() <= usize::MAX,
    {
        assert(self.uses().len() == self.k());
        assert(self.uses()[a].len() == self.atom_rows@[a].len());
    }

    /// A use of an atom is a slot that names it.
    pub proof fn lemma_use(&self, a: int, e: int)
        requires
            self.wf(),
            0 <= a < self.k(),
            0 <= e < self.uses()[a].len(),
        ensures
            self.uses()[a][e].0 < self.rows(),
            self.uses()[a][e].1 < self.support(self.uses()[a][e].0 as int).len(),
            self.support(self.uses()[a][e].0 as int)[self.uses()[a][e].1 as int] == a,
    {
        let supports = self.state().supports();
        assert forall|r: int| 0 <= r < supports.len() implies (#[trigger] supports[r]).len()
            <= usize::MAX by {
            assert(1 <= self.support(r).len() <= self.state().mode_spec()->k);
        }
        law_uses_invert_the_support(supports, self.rows() as int, a);
        assert(is_use(supports, self.rows() as int, self.uses()[a][e], a));
    }

    pub fn n_obs(&self) -> (r: usize)
        ensures
            r == self.rows(),
    {
        self.assignment.n_obs()
    }

    pub fn k_atoms(&self) -> (r: usize)
        ensures
            r == self.k(),
    {
        self.atoms.len()
    }

    pub fn output_dim(&self) -> (r: usize)
        ensures
            r == self.width(),
    {
        self.output_dim
    }

    /// The number of basis functions of one atom.
    pub fn atom_basis_size(&self, atom: usize) -> (r: usize)
        requires
            atom < self.k(),
        ensures
            r == self.atom_seq()[atom as int].m(),
    {
        self.atoms[atom].basis_size()
    }

    pub fn atom(&self, atom: usize) -> (r: &SaeManifoldAtom<S>)
        requires
            atom < self.k(),
        ensures
            *r == self.atom_seq()[atom as int],
    {
        &self.atoms[atom]
    }

    pub fn atoms(&self) -> (r: &Vec<SaeManifoldAtom<S>>)
        ensures
            r@ == self.atom_seq(),
    {
        &self.atoms
    }

    pub fn assignment(&self) -> (r: &SaeAssignmentState<S>)
        ensures
            *r == self.state(),
    {
        &self.assignment
    }

    /// The rows and slots that use an atom.
    pub fn rows_of_atom(&self, atom: usize) -> (r: &Vec<(usize, usize)>)
        requires
            self.wf(),
            atom < self.k(),
        ensures
            r@ == self.uses()[atom as int],
    {
        assert(self.uses().len() == self.k());
        &self.atom_rows[atom]
    }

    /// How many (row, atom) pairs are active.
    pub fn active_pair_count(&self) -> (r: usize)
        requires
            self.wf(),
            pairs_below(self.state().supports(), self.rows() as int) <= usize::MAX,
        ensures
            r == pairs_below(self.state().supports(), self.rows() as int),
    {
        let mut total: usize = 0;
        proof {
            let supports = self.state().supports();
            assert forall|r: int, s: int| 0 <= r < self.rows() && 0 <= s < supports[r].len() implies
                #[trigger] supports[r][s] < self.k() by {
                assert(self.state().row_wf(r));
            }
            law_one_entry_per_active_pair(supports, self.rows() as int, self.k());
        }
        assert(self.uses().len() == self.k());
        for a in 0..self.atom_rows.len()
            invariant
                self.wf(),
                uses_below(self.uses(), self.k() as int) <= usize::MAX,
                self.atom_rows@.len() == self.k(),
                total == uses_below(self.uses(), a as int),
        {
            proof {
                lemma_uses_below_monotone(self.uses(), a + 1, self.k() as int);
            }
            assert(self.uses()[a as int] == self.atom_rows@[a as int]@);
            total = total + self.atom_rows[a].len();
        }
        total
    }
}

proof fn lemma_uses_below_monotone(uses: Seq<Seq<(usize, usize)>>, a: int, b: int)
    requires
        0 <= a <= b,
    ensures
        uses_below(uses, a) <= uses_below(uses, b),
    decreases b,
{
    if a < b {
        lemma_uses_below_monotone(uses, a, b - 1);
    }
}

/// The inverse of a support over `k` atoms.
fn invert_support<S>(state: &SaeAssignmentState<S>, k: usize) -> (r: Vec<Vec<(usize, usize)>>)
    requires
        state.wf(),
        state.atoms() == k,
    ensures
        contents(r@) == all_uses(state.supports(), state.rows() as int, k as nat),
{
    let mut out: Vec<Vec<(usize, usize)>> = Vec::new();
    for a in 0..k
        invariant
            out@.len() == a,
            forall|b: int| 0 <= b < a ==> (#[trigger] out@[b])@.len() == 0,
    {
        out.push(Vec::new());
    }
    let ghost supports = state.supports();
    proof {
        assert forall|b: int| 0 <= b < k implies (#[trigger] out@[b])@ == uses_of(supports, 0, b) by {
            assert(out@[b]@ =~= uses_of(supports, 0, b));
        }
    }
    let n_obs: usize = state.n_obs();
    for row in 0..n_obs
        invariant
            n_obs == state.rows(),
            state.wf(),
            state.atoms() == k,
            supports == state.supports(),
            out@.len() == k,
            forall|b: int|
                0 <= b < k ==> (#[trigger] out@[b])@ == uses_of(supports, row as int, b),
    {
        let support: &Vec<u32> = state.support_indices(row);
        proof {
            assert(state.row_wf(row as int));
            assert forall|b: int| 0 <= b < k implies (#[trigger] out@[b])@ == uses_of(
                supports,
                row as int,
                b,
            ) + uses_in_row(support@, row as int, 0, b) by {
                assert(uses_of(supports, row as int, b) + uses_in_row(
                    support@,
                    row as int,
                    0,
                    b,
                ) =~= uses_of(supports, row as int, b));
            }
        }
        for slot in 0..support.len()
            invariant
                state.wf(),
                state.row_wf(row as int),
                state.atoms() == k,
                supports == state.supports(),
                support@ == supports[row as int],
                out@.len() == k,
                forall|b: int|
                    0 <= b < k ==> (#[trigger] out@[b])@ == uses_of(supports, row as int, b)
                        + uses_in_row(support@, row as int, slot as int, b),
        {
            assert(state.supports()[row as int][slot as int] < state.atoms());
            let atom: usize = support[slot] as usize;
            let ghost previous = out@;
            out[atom].push((row, slot));
            proof {
                assert forall|b: int| 0 <= b < k implies (#[trigger] out@[b])@ == uses_of(
                    supports,
                    row as int,
                    b,
                ) + uses_in_row(support@, row as int, slot + 1, b) by {
                    assert(previous[b]@ == uses_of(supports, row as int, b) + uses_in_row(
                        support@,
                        row as int,
                        slot as int,
                        b,
                    ));
                    assert(out@[b]@ =~= uses_of(supports, row as int, b) + uses_in_row(
                        support@,
                        row as int,
                        slot + 1,
                        b,
                    ));
                }
            }
        }
    }
    assert(contents(out@) =~= all_uses(supports, state.rows() as int, k as nat));
    out
}

impl<S> SaeSupportSparseTerm<S> {
    /// Admits atoms that fit one another and a hard top-k routed state, and
    /// inverts its support. The knobs start at rest.
    pub fn new(atoms: Vec<SaeManifoldAtom<S>>, assignment: SaeAssignmentState<S>) -> (r: Result<
        SaeSupportSparseTerm<S>,
        TermError,
    >)
        requires
            assignment.wf(),
            forall|k: int| 0 <= k < atoms@.len() ==> (#[trigger] atoms@[k]).wf(),
        ensures
            match r {
                Ok(term) => {
                    &&& admission_fault(atoms@, &assignment) is None
                    &&& term.wf()
                    &&& term.atom_seq() == atoms@
                    &&& term.state() == assignment
                    &&& term.width() == atoms@[0].width()
                    &&& term.knob_spec() == (TermKnobs::<S> {
                        decoder_fista_passes: None,
                        variable_priced_support: false,
                        exact_affine_ranking: false,
                        admission_usage_amortized: false,
                        admission_dof_sigma2: None,
                    })
                },
                Err(error) => admission_fault(atoms@, &assignment) == Some(error),
            },
    {
        let k_atoms: usize = atoms.len();
        let assigned: usize = assignment.k_atoms();
        if k_atoms == 0 || assigned != k_atoms {
            return Err(TermError::AtomCount { atoms: k_atoms, assigned });
        }
        let mode: AssignmentMode = assignment.mode();
        let support_k: usize = match mode {
            AssignmentMode::TopK { k } => k,
            _ => {
                return Err(TermError::NotTopK { mode });
            },
        };
        let output_dim: usize = atoms[0].output_dim();
        if output_dim == 0 {
            return Err(TermError::NoOutput);
        }
        for atom in 0..k_atoms
            invariant
                k_atoms == atoms@.len(),
                assignment.wf(),
                assignment.atoms() == k_atoms,
                output_dim == atoms@[0].width(),
                first_atom_fault(atoms@, &assignment, output_dim as nat, 0) == first_atom_fault(
                    atoms@,
                    &assignment,
                    output_dim as nat,
                    atom as int,
                ),
                atoms@.len() > 0,
                output_dim > 0,
                assignment.mode_spec() == (AssignmentMode::TopK { k: support_k }),
        {
            let template: &SaeManifoldAtom<S> = &atoms[atom];
            if let Err(error) = template.validate_shape_contract() {
                return Err(TermError::AtomShape { atom, error });
            }
            let found: usize = template.output_dim();
            if found != output_dim {
                return Err(TermError::AtomOutput { atom, found, expected: output_dim });
            }
            let expected: usize = assignment.atom_coord_dim(atom);
            if template.latent_dim() != expected {
                return Err(
                    TermError::AtomDim { atom, found: template.latent_dim(), expected },
                );
            }
            if !template.has_basis_evaluator() {
                return Err(TermError::NoEvaluator { atom });
            }
        }
        let n_obs: usize = assignment.n_obs();
        for row in 0..n_obs
            invariant
                n_obs == assignment.rows(),
                k_atoms == atoms@.len(),
                assignment.wf(),
                assignment.atoms() == k_atoms,
                first_atom_fault(atoms@, &assignment, output_dim as nat, 0) is None,
                first_width_fault(assignment.supports(), support_k, 0) == first_width_fault(
                    assignment.supports(),
                    support_k,
                    row as int,
                ),
                atoms@.len() > 0,
                output_dim == atoms@[0].width(),
                output_dim > 0,
                assignment.mode_spec() == (AssignmentMode::TopK { k: support_k }),
        {
            let width: usize = assignment.support_indices(row).len();
            if width > support_k || width == 0 {
                return Err(TermError::SupportWidth { row, width, top_k: support_k });
            }
        }
        let atom_rows: Vec<Vec<(usize, usize)>> = invert_support(&assignment, k_atoms);
        let knobs = TermKnobs {
            decoder_fista_passes: None,
            variable_priced_support: false,
            exact_affine_ranking: false,
            admission_usage_amortized: false,
            admission_dof_sigma2: None,
        };
        let term = SaeSupportSparseTerm { atoms, assignment, output_dim, atom_rows, knobs };
        proof {
            assert forall|a: int| 0 <= a < term.k() implies #[trigger] term.atom_wf(a) by {
                lemma_no_atom_fault(term.atoms@, &term.assignment, output_dim as nat, 0, a);
            }
            assert forall|row: int| 0 <= row < term.rows() implies 1 <= (#[trigger] term.support(
                row,
            )).len() <= support_k by {
                lemma_no_width_fault(term.assignment.supports(), support_k, 0, row);
            }
        }
        Ok(term)
    }

    /// Offsets of the atoms' blocks in the flat coefficient vector, and its
    /// length.
    pub fn beta_layout(&self) -> (r: Result<(Vec<usize>, usize), LayoutError>)
        requires
            self.wf(),
        ensures
            match r {
                Ok((offsets, total)) => is_layout(
                    offsets@,
                    self.basis_sizes(),
                    self.width(),
                    total as nat,
                ),
                Err(e) => is_layout_fault(self.basis_sizes(), self.width(), e),
            },
    {
        let sizes: Vec<usize> = self.basis_size_list();
        layout_of(&sizes, self.output_dim)
    }

    /// Every atom's number of basis functions.
    pub fn basis_size_list(&self) -> (r: Vec<usize>)
        ensures
            r@ == self.basis_sizes(),
    {
        let mut sizes: Vec<usize> = Vec::new();
        for a in 0..self.atoms.len()
            invariant
                sizes@ == self.basis_sizes().take(a as int),
        {
            sizes.push(self.atoms[a].basis_size());
            assert(sizes@ =~= self.basis_sizes().take(a + 1));
        }
        assert(self.basis_sizes().take(self.k() as int) =~= self.basis_sizes());
        sizes
    }
}

impl<S> SaeSupportSparseTerm<S> {
    /// Same atoms, routing and knobs; coordinates may differ.
    pub open spec fn same_but_coords(&self, other: &SaeSupportSparseTerm<S>) -> bool {
        &&& self.atom_seq() == other.atom_seq()
        &&& self.width() == other.width()
        &&& self.uses() == other.uses()
        &&& self.knob_spec() == other.knob_spec()
        &&& self.state().same_routing(&other.state())
    }

    pub fn knobs(&self) -> (r: &TermKnobs<S>)
        ensures
            *r == self.knob_spec(),
    {
        &self.knobs
    }

    /// Selects the accelerated decoder update, or with `None` the exact sweep.
    pub fn set_decoder_fista_passes(&mut self, passes: Option<usize>)
        ensures
            final(self).same_but_knobs(old(self)),
            final(self).knob_spec() == (TermKnobs {
                decoder_fista_passes: passes,
                ..old(self).knob_spec()
            }),
    {
        self.knobs.decoder_fista_passes = passes;
    }

    /// Arms priced admission with a noise level, or disarms it.
    pub fn set_admission_dof_pricing(&mut self, sigma2: Option<S>)
        ensures
            final(self).same_but_knobs(old(self)),
            final(self).knob_spec() == (TermKnobs {
                admission_dof_sigma2: sigma2,
                ..old(self).knob_spec()
            }),
    {
        self.knobs.admission_dof_sigma2 = sigma2;
    }

    pub fn set_variable_priced_support(&mut self, enabled: bool)
        ensures
            final(self).same_but_knobs(old(self)),
            final(self).knob_spec() == (TermKnobs {
                variable_priced_support: enabled,
                ..old(self).knob_spec()
            }),
    {
        self.knobs.variable_priced_support = enabled;
    }

    pub fn set_exact_affine_ranking(&mut self, enabled: bool)
        ensures
            final(self).same_but_knobs(old(self)),
            final(self).knob_spec() == (TermKnobs {
                exact_affine_ranking: enabled,
                ..old(self).knob_spec()
            }),
    {
        self.knobs.exact_affine_ranking = enabled;
    }

    pub fn set_admission_usage_amortization(&mut self, enabled: bool)
        ensures
            final(self).same_but_knobs(old(self)),
            final(self).knob_spec() == (TermKnobs {
                admission_usage_amortized: enabled,
                ..old(self).knob_spec()
            }),
    {
        self.knobs.admission_usage_amortized = enabled;
    }

    /// Same atoms, routing and coordinates; knobs may differ.
    pub open spec fn same_but_knobs(&self, other: &SaeSupportSparseTerm<S>) -> bool {
        &&& self.atom_seq() == other.atom_seq()
        &&& self.width() == other.width()
        &&& self.uses() == other.uses()
        &&& self.state() == other.state()
    }

    /// Installs one atom's decoder, if it has the atom's shape; otherwise
    /// nothing changes.
    pub fn set_decoder_coefficients(&mut self, atom: usize, decoder: Matrix<S>) -> (r: Result<
        (),
        AtomError,
    >)
        requires
            old(self).wf(),
            atom < old(self).k(),
            decoder.wf(),
        ensures
            final(self).wf(),
            final(self).same_but_decoders(old(self)),
            r is Ok <==> decoder.nrows() == old(self).atom_seq()[atom as int].m()
                && decoder.ncols() == old(self).width(),
            r is Ok ==> final(self).atom_seq()[atom as int].decoder() == decoder,
            r matches Err(e) ==> {
                &&& e == (AtomError::DecoderShape {
                    rows: decoder.nrows() as usize,
                    cols: decoder.ncols() as usize,
                    basis_width: old(self).atom_seq()[atom as int].m(),
                    output_dim: old(self).width() as usize,
                })
                &&& final(self).atom_seq() == old(self).atom_seq()
            },
            forall|a: int|
                0 <= a < old(self).k() && a != atom ==> final(self).atom_seq()[a]
                    == #[trigger] old(self).atom_seq()[a],
    {
        assert(self.atom_wf(atom as int));
        let ghost before = self.atoms@;
        let r = self.atoms[atom].set_decoder_coefficients(decoder);
        proof {
            assert(self.atoms@.len() == before.len());
            assert forall|a: int| 0 <= a < self.k() implies #[trigger] self.atom_wf(a) by {
                assert(old(self).atom_wf(a));
            }
            assert(self.atom_seq()[atom as int].same_chart(&before[atom as int]));
            assert forall|row: int| 0 <= row < self.rows() implies 1 <= (#[trigger] self.support(
                row,
            )).len() <= self.state().mode_spec()->k by {
                assert(1 <= old(self).support(row).len());
            }
            if r is Err {
                assert(self.atoms@ =~= before);
            }
        }
        r
    }

    /// Same routing, coordinates, knobs and charts; decoder entries may differ.
    pub open spec fn same_but_decoders(&self, other: &SaeSupportSparseTerm<S>) -> bool {
        &&& self.k() == other.k()
        &&& forall|a: int|
            0 <= a < self.k() ==> (#[trigger] self.atom_seq()[a]).same_chart(&other.atom_seq()[a])
        &&& self.width() == other.width()
        &&& self.uses() == other.uses()
        &&& self.knob_spec() == other.knob_spec()
        &&& self.state() == other.state()
    }
}

impl<S: Copy> SaeSupportSparseTerm<S> {
    /// Replaces one row's coordinates by as many others.
    pub fn set_row_coords(&mut self, row: usize, values: &Vec<S>) -> (r: Result<
        (),
        AssignmentError,
    >)
        requires
            old(self).wf(),
            row < old(self).rows(),
        ensures
            final(self).wf(),
            final(self).same_but_coords(old(self)),
            r is Ok <==> values@.len() == old(self).state().coord_rows()[row as int].len(),
            r is Ok ==> final(self).state().coord_rows()
                == old(self).state().coord_rows().update(row as int, values@),
            r matches Err(e) ==> {
                &&& e == (AssignmentError::CoordinateWidth { row })
                &&& final(self).state().coord_rows() == old(self).state().coord_rows()
            },
    {
        let r = self.assignment.set_row_coords(row, values);
        proof {
            assert forall|a: int| 0 <= a < self.k() implies #[trigger] self.atom_wf(a) by {
                assert(old(self).atom_wf(a));
            }
            assert forall|q: int| 0 <= q < self.rows() implies 1 <= (#[trigger] self.support(
                q,
            )).len() <= self.state().mode_spec()->k by {
                assert(1 <= old(self).support(q).len());
            }
        }
        r
    }

    /// Replaces one slot's coordinates by as many others.
    pub fn set_slot_coords(&mut self, row: usize, slot: usize, values: &Vec<S>) -> (r: Result<
        (),
        AssignmentError,
    >)
        requires
            old(self).wf(),
            row < old(self).rows(),
            slot < old(self).support(row as int).len(),
        ensures
            final(self).wf(),
            final(self).same_but_coords(old(self)),
            r is Ok <==> values@.len() == old(self).state().slot_dim(row as int, slot as int),
            r is Ok ==> final(self).state().has_slot_set(
                &old(self).state(),
                row as int,
                slot as int,
                values@,
            ),
            r matches Err(e) ==> {
                &&& e == (AssignmentError::CoordinateWidth { row })
                &&& final(self).state().coord_rows() == old(self).state().coord_rows()
            },
    {
        let r = self.assignment.set_slot_coords(row, slot, values);
        proof {
            assert forall|a: int| 0 <= a < self.k() implies #[trigger] self.atom_wf(a) by {
                assert(old(self).atom_wf(a));
            }
            assert forall|q: int| 0 <= q < self.rows() implies 1 <= (#[trigger] self.support(
                q,
            )).len() <= self.state().mode_spec()->k by {
                assert(1 <= old(self).support(q).len());
            }
        }
        r
    }

    /// The same term on another chart of atom `a`: that atom is `replacement`, on
    /// straight axes, and nothing else has changed.
    pub open spec fn is_straightened(
        &self,
        before: &SaeSupportSparseTerm<S>,
        a: int,
        replacement: SaeManifoldAtom<S>,
    ) -> bool {
        &&& self.atom_seq() == before.atom_seq().update(a, replacement)
        &&& self.width() == before.width()
        &&& self.uses() == before.uses()
        &&& self.knob_spec() == before.knob_spec()
        &&& self.state().mode_spec() == before.state().mode_spec()
        &&& self.state().dims() == before.state().dims()
        &&& self.state().supports() == before.state().supports()
        &&& self.state().gate_rows() == before.state().gate_rows()
        &&& forall|k: int|
            0 <= k < before.k() && k != a ==> #[trigger] self.state().periods(k)
                == before.state().periods(k)
        &&& self.state().periods(a) == Seq::new(
            before.state().dims()[a] as nat,
            |axis: int| None::<S>,
        )
    }

    /// Puts another atom of the same coordinate width in an atom's place, on
    /// straight axes.
    pub fn straighten_atom(&mut self, atom: usize, replacement: SaeManifoldAtom<S>)
        requires
            old(self).wf(),
            atom < old(self).k(),
            replacement.wf(),
            replacement.spans_basis(),
            replacement.width() == old(self).width(),
            replacement.dim() == old(self).state().dims()[atom as int],
            replacement.evaluated(),
        ensures
            final(self).wf(),
            final(self).is_straightened(old(self), atom as int, replacement),
            final(self).state().coord_rows() == old(self).state().coord_rows(),
    {
        assert(self.atom_wf(atom as int));
        self.atoms.set(atom, replacement);
        self.assignment.convert_atom_to_euclidean(atom);
        proof {
            assert forall|a: int| 0 <= a < self.k() implies #[trigger] self.atom_wf(a) by {
                assert(old(self).atom_wf(a));
            }
            assert forall|q: int| 0 <= q < self.rows() implies 1 <= (#[trigger] self.support(
                q,
            )).len() <= self.state().mode_spec()->k by {
                assert(1 <= old(self).support(q).len());
            }
        }
    }
}

} // verus!
