//! The flat layout of the decoder coefficients.
//!
//! Atom `k` owns a block of `basis_sizes[k] * output_dim` consecutive entries,
//! basis-major, and the blocks follow one another in atom order.
use crate::matrix::lemma_flat_index;
use vstd::prelude::*;

verus! {

/// Where atom `k`'s block starts: the total length of the blocks before it.
pub open spec fn beta_start(sizes: Seq<usize>, width: nat, k: int) -> nat
    decreases k,
{
    if k <= 0 {
        0
    } else {
        beta_start(sizes, width, k - 1) + sizes[k - 1] as nat * width
    }
}

/// Each offset is the start of its atom's block, and `total` is their length.
pub open spec fn is_layout(
    offsets: Seq<usize>,
    sizes: Seq<usize>,
    width: nat,
    total: nat,
) -> bool {
    &&& offsets.len() == sizes.len()
    &&& forall|k: int|
        0 <= k < sizes.len() ==> #[trigger] offsets[k] as nat == beta_start(sizes, width, k)
    &&& total == beta_start(sizes, width, sizes.len() as int)
}

/// The flat position of one coefficient.
pub open spec fn beta_index(sizes: Seq<usize>, width: nat, k: int, basis: int, channel: int) -> int {
    beta_start(sizes, width, k) + basis * width + channel
}

/// Blocks do not overlap: the block of `a` ends where or before that of a later
/// atom `b` starts.
pub proof fn law_blocks_follow_one_another(sizes: Seq<usize>, width: nat, a: int, b: int)
    requires
        0 <= a < b <= sizes.len(),
    ensures
        beta_start(sizes, width, a) + sizes[a] as nat * width <= beta_start(sizes, width, b),
    decreases b,
{
    if a < b - 1 {
        law_blocks_follow_one_another(sizes, width, a, b - 1);
        assert(0 <= sizes[b - 1] as nat * width) by (nonlinear_arith);
    }
}

/// A coefficient's flat position lies inside its atom's block and inside the
/// whole layout.
pub proof fn lemma_beta_index_in_block(
    sizes: Seq<usize>,
    width: nat,
    k: int,
    basis: int,
    channel: int,
)
    requires
        0 <= k < sizes.len(),
        0 <= basis < sizes[k],
        0 <= channel < width,
    ensures
        beta_start(sizes, width, k) <= beta_index(sizes, width, k, basis, channel),
        beta_index(sizes, width, k, basis, channel) < beta_start(sizes, width, k + 1),
        beta_index(sizes, width, k, basis, channel) < beta_start(
            sizes,
            width,
            sizes.len() as int,
        ),
{
    lemma_flat_index(sizes[k] as int, width as int, basis, channel);
    law_blocks_follow_one_another(sizes, width, k, sizes.len() as int);
}

/// Every flat position below the total belongs to one coefficient.
pub proof fn law_every_position_is_a_coefficient(
    sizes: Seq<usize>,
    width: nat,
    n: int,
    i: int,
) -> (place: (int, int, int))
    requires
        0 <= n <= sizes.len(),
        0 <= i < beta_start(sizes, width, n),
    ensures
        0 <= place.0 < n,
        0 <= place.1 < sizes[place.0],
        0 <= place.2 < width,
        i == beta_index(sizes, width, place.0, place.1, place.2),
    decreases n,
{
    let start = beta_start(sizes, width, n - 1);
    if i < start {
        law_every_position_is_a_coefficient(sizes, width, n - 1, i)
    } else {
        let local = i - start;
        let m = sizes[n - 1] as int;
        let w = width as int;
        assert(w > 0) by (nonlinear_arith)
            requires
                0 <= local < m * w,
                w >= 0,
        ;
        vstd::arithmetic::div_mod::lemma_fundamental_div_mod(local, w);
        assert(0 <= local / w < m) by (nonlinear_arith)
            requires
                0 <= local < m * w,
                w > 0,
                local == w * (local / w) + local % w,
                0 <= local % w < w,
        ;
        assert(w * (local / w) == (local / w) * w) by (nonlinear_arith);
        (n - 1, local / w, local % w)
    }
}

/// Distinct coefficients have distinct flat positions.
pub proof fn law_positions_are_distinct(
    sizes: Seq<usize>,
    width: nat,
    a: int,
    basis_a: int,
    channel_a: int,
    b: int,
    basis_b: int,
    channel_b: int,
)
    requires
        0 <= a < sizes.len(),
        0 <= b < sizes.len(),
        0 <= basis_a < sizes[a],
        0 <= basis_b < sizes[b],
        0 <= channel_a < width,
        0 <= channel_b < width,
        beta_index(sizes, width, a, basis_a, channel_a) == beta_index(
            sizes,
            width,
            b,
            basis_b,
            channel_b,
        ),
    ensures
        a == b,
        basis_a == basis_b,
        channel_a == channel_b,
{
    lemma_flat_index(sizes[a] as int, width as int, basis_a, channel_a);
    lemma_flat_index(sizes[b] as int, width as int, basis_b, channel_b);
    if a < b {
        law_blocks_follow_one_another(sizes, width, a, b);
    }
    if b < a {
        law_blocks_follow_one_another(sizes, width, b, a);
    }
    crate::matrix::lemma_flat_distinct(width as int, basis_a, channel_a, basis_b, channel_b);
}

/// Why a layout cannot be formed.
#[derive(Clone, Copy, Debug, PartialEq, Eq, Structural)]
pub enum LayoutError {
    /// One block alone has too many entries.
    BlockOverflow { atom: usize },
    /// The blocks together have too many entries.
    TotalOverflow { atom: usize },
}

/// `e` names the first atom at which a length can no longer be counted, and says
/// whether the atom's block is too long by itself.
pub open spec fn is_layout_fault(sizes: Seq<usize>, width: nat, e: LayoutError) -> bool {
    match e {
        LayoutError::BlockOverflow { atom } => {
            &&& atom < sizes.len()
            &&& beta_start(sizes, width, atom as int) <= usize::MAX
            &&& sizes[atom as int] as nat * width > usize::MAX
        },
        LayoutError::TotalOverflow { atom } => {
            &&& atom < sizes.len()
            &&& beta_start(sizes, width, atom as int) <= usize::MAX
            &&& sizes[atom as int] as nat * width <= usize::MAX
            &&& beta_start(sizes, width, atom + 1) > usize::MAX
        },
    }
}

/// Offsets of the atoms' blocks and their total length, or the first atom at
/// which a length exceeds what can be counted.
pub fn layout_of(sizes: &Vec<usize>, width: usize) -> (r: Result<(Vec<usize>, usize), LayoutError>)
    ensures
        match r {
            Ok((offsets, total)) => is_layout(offsets@, sizes@, width as nat, total as nat),
            Err(e) => is_layout_fault(sizes@, width as nat, e),
        },
{
    let mut offsets: Vec<usize> = Vec::new();
    let mut total: usize = 0;
    for k in 0..sizes.len()
        invariant
            offsets@.len() == k,
            forall|j: int|
                0 <= j < k ==> #[trigger] offsets@[j] as nat == beta_start(sizes@, width as nat, j),
            total as nat == beta_start(sizes@, width as nat, k as int),
    {
        offsets.push(total);
        let block: Option<usize> = sizes[k].checked_mul(width);
        match block {
            None => {
                return Err(LayoutError::BlockOverflow { atom: k });
            },
            Some(block) => {
                match total.checked_add(block) {
                    None => {
                        return Err(LayoutError::TotalOverflow { atom: k });
                    },
                    Some(next) => {
                        total = next;
                    },
                }
            },
        }
    }
    Ok((offsets, total))
}

} // verus!
