//! The quadratic forms of the Gauss-Newton system, in exact arithmetic.
//!
//! A row gathers channels from the coefficients and scatters channels back to
//! them; the two are adjoint. Everything else follows: the decoder block is
//! symmetric and a sum of squares, and the coupling's two products are adjoint.
use crate::exact::{
    combines, is_exact, lemma_exact_sum, lemma_scaled_combines, lemma_total_combines, lemma_total_exchange, lemma_total_ext, lemma_total_grid,
    lemma_total_minus, lemma_total_not_negative, lemma_total_plus, lemma_total_scaled,
    lemma_total2_exchange, lemma_total2_lines, lemma_total_split, lemma_total_window, total, total2,
};
use crate::layout::{
    beta_index, beta_start, law_blocks_follow_one_another, law_every_position_is_a_coefficient,
    lemma_beta_index_in_block,
};
use crate::operator::{
    covers, gather_block, gather_blocks, gathered, scatter_blocks, SupportBasisBlock,
    SupportBetaOperator, SupportLinearizedRow,
};
use crate::scalar::Scalar;
use vstd::prelude::*;

verus! {

/// What a block scatters to flat position `i`, as a real number.
pub open spec fn block_term<S: Scalar>(
    v: spec_fn(S) -> real,
    block: SupportBasisBlock<S>,
    slot: Seq<S>,
    width: int,
    i: int,
) -> real {
    if covers(block, width, i) {
        let local = i - block.beta_offset;
        v(block.phi@[local / width]) * v(slot[local % width])
    } else {
        0 as real
    }
}

/// What a block gathers for channel `c`, as a real number.
pub open spec fn block_gather<S: Scalar>(
    v: spec_fn(S) -> real,
    block: SupportBasisBlock<S>,
    x: Seq<S>,
    width: int,
    c: int,
) -> real {
    total(
        block.phi@.len() as int,
        |basis: int| v(block.phi@[basis]) * v(x[block.beta_offset + basis * width + c]),
    )
}

/// One block's scatter and gather are adjoint.
proof fn lemma_block_adjoint<S: Scalar>(
    v: spec_fn(S) -> real,
    block: SupportBasisBlock<S>,
    x: Seq<S>,
    slot: Seq<S>,
    width: int,
    dim: int,
)
    requires
        width > 0,
        block.beta_offset + block.phi@.len() * width <= dim,
    ensures
        total(dim, |i: int| v(x[i]) * block_term(v, block, slot, width, i)) == total(
            width,
            |c: int| v(slot[c]) * block_gather(v, block, x, width, c),
        ),
{
    let m = block.phi@.len() as int;
    let from = block.beta_offset as int;
    let g = |i: int| v(x[i]) * block_term(v, block, slot, width, i);
    assert(m * width >= 0) by (nonlinear_arith)
        requires
            m >= 0,
            width > 0,
    ;
    assert forall|i: int| 0 <= i < dim && !(from <= i < from + m * width) implies #[trigger] g(i)
        == 0 as real by {
        assert(!covers(block, width, i));
        let value = v(x[i]);
        assert(value * (0 as real) == 0 as real) by (nonlinear_arith);
    }
    lemma_total_window(dim, from, m * width, g);
    let h = |j: int| g(from + j);
    lemma_total_grid(m, width, h);
    let f = |b: int, c: int| v(slot[c]) * (v(block.phi@[b]) * v(x[from + b * width + c]));
    let lines = |b: int| total(width, |c: int| h(b * width + c));
    let flat = |b: int| total(width, |c: int| f(b, c));
    assert forall|b: int| 0 <= b < m implies #[trigger] lines(b) == flat(b) by {
        let p = |c: int| h(b * width + c);
        let q = |c: int| f(b, c);
        assert forall|c: int| 0 <= c < width implies #[trigger] p(c) == q(c) by {
            let local = b * width + c;
            assert(0 <= local < m * width) by (nonlinear_arith)
                requires
                    local == b * width + c,
                    0 <= b < m,
                    0 <= c < width,
            ;
            vstd::arithmetic::div_mod::lemma_fundamental_div_mod_converse(local, width, b, c);
            assert(covers(block, width, from + local));
            let u = v(x[from + local]);
            let phi = v(block.phi@[b]);
            let s = v(slot[c]);
            assert(u * (phi * s) == s * (phi * u)) by (nonlinear_arith);
        }
        lemma_total_ext(width, p, q);
    }
    lemma_total_ext(m, lines, flat);
    lemma_total_exchange(m, width, f);
    let columns = |c: int| total(m, |b: int| f(b, c));
    let gathers = |c: int| v(slot[c]) * block_gather(v, block, x, width, c);
    assert forall|c: int| 0 <= c < width implies #[trigger] columns(c) == gathers(c) by {
        let inner = |b: int| v(block.phi@[b]) * v(x[block.beta_offset + b * width + c]);
        lemma_total_scaled(m, v(slot[c]), inner);
        lemma_total_ext(m, |b: int| f(b, c), |b: int| v(slot[c]) * inner(b));
    }
    lemma_total_ext(width, columns, gathers);
}

/// What the first `n` blocks of a row scatter to position `i`.
pub open spec fn row_term<S: Scalar>(
    v: spec_fn(S) -> real,
    row: SupportLinearizedRow<S>,
    slot: Seq<S>,
    width: int,
    i: int,
    n: int,
) -> real {
    total(n, |b: int| block_term(v, row.blocks@[b], slot, width, i))
}

proof fn lemma_exact_scatter<S: Scalar>(
    v: spec_fn(S) -> real,
    start: S,
    row: SupportLinearizedRow<S>,
    slot: Seq<S>,
    width: int,
    i: int,
    n: int,
)
    requires
        is_exact(v),
    ensures
        v(scatter_blocks(start, row, slot, width, i, n)) == v(start) + row_term(
            v,
            row,
            slot,
            width,
            i,
            n,
        ),
    decreases n,
{
    if n > 0 {
        lemma_exact_scatter(v, start, row, slot, width, i, n - 1);
        lemma_row_term_step(v, row, slot, width, i, n);
    }
}

proof fn lemma_row_term_step<S: Scalar>(
    v: spec_fn(S) -> real,
    row: SupportLinearizedRow<S>,
    slot: Seq<S>,
    width: int,
    i: int,
    n: int,
)
    requires
        n > 0,
    ensures
        row_term(v, row, slot, width, i, n) == row_term(v, row, slot, width, i, n - 1)
            + block_term(v, row.blocks@[n - 1], slot, width, i),
{
}

proof fn lemma_exact_gather<S: Scalar>(
    v: spec_fn(S) -> real,
    row: SupportLinearizedRow<S>,
    x: Seq<S>,
    width: int,
    c: int,
    n: int,
)
    requires
        is_exact(v),
    ensures
        v(gather_blocks(row, x, width, c, n)) == total(
            n,
            |b: int| block_gather(v, row.blocks@[b], x, width, c),
        ),
    decreases n,
{
    if n > 0 {
        lemma_exact_gather(v, row, x, width, c, n - 1);
        let block = row.blocks@[n - 1];
        let m = block.phi@.len() as int;
        let f = |basis: int|
            block.phi@[basis].s_times(x[block.beta_offset + basis * width + c]);
        lemma_exact_sum(v, gather_blocks(row, x, width, c, n - 1), m, f);
        lemma_total_ext(
            m,
            |basis: int| v(f(basis)),
            |basis: int| v(block.phi@[basis]) * v(x[block.beta_offset + basis * width + c]),
        );
    }
}

/// A row's scatter and gather are adjoint.
proof fn lemma_row_adjoint<S: Scalar>(
    v: spec_fn(S) -> real,
    row: SupportLinearizedRow<S>,
    x: Seq<S>,
    slot: Seq<S>,
    width: int,
    dim: int,
    n: int,
)
    requires
        is_exact(v),
        width > 0,
        0 <= n <= row.blocks@.len(),
        forall|b: int|
            0 <= b < n ==> (#[trigger] row.blocks@[b]).beta_offset + row.blocks@[b].phi@.len()
                * width <= dim,
    ensures
        total(dim, |i: int| v(x[i]) * row_term(v, row, slot, width, i, n)) == total(
            width,
            |c: int| v(slot[c]) * v(gather_blocks(row, x, width, c, n)),
        ),
    decreases n,
{
    let left = |i: int| v(x[i]) * row_term(v, row, slot, width, i, n);
    let right = |c: int| v(slot[c]) * v(gather_blocks(row, x, width, c, n));
    if n == 0 {
        assert forall|i: int| 0 <= i < dim implies #[trigger] left(i) == 0 as real by {
            let value = v(x[i]);
            assert(value * (0 as real) == 0 as real) by (nonlinear_arith);
        }
        assert forall|c: int| 0 <= c < width implies #[trigger] right(c) == 0 as real by {
            let value = v(slot[c]);
            assert(value * (0 as real) == 0 as real) by (nonlinear_arith);
        }
        crate::exact::lemma_total_zero(dim, left);
        crate::exact::lemma_total_zero(width, right);
    } else {
        lemma_row_adjoint(v, row, x, slot, width, dim, n - 1);
        let block = row.blocks@[n - 1];
        lemma_block_adjoint(v, block, x, slot, width, dim);
        let before = |i: int| v(x[i]) * row_term(v, row, slot, width, i, n - 1);
        let last = |i: int| v(x[i]) * block_term(v, block, slot, width, i);
        assert forall|i: int| 0 <= i < dim implies #[trigger] left(i) == before(i) + last(i) by {
            lemma_row_term_step(v, row, slot, width, i, n);
            let u = v(x[i]);
            let p = row_term(v, row, slot, width, i, n - 1);
            let q = block_term(v, block, slot, width, i);
            assert(u * (p + q) == u * p + u * q) by (nonlinear_arith);
        }
        lemma_total_plus(dim, before, last);
        lemma_total_ext(dim, left, |i: int| before(i) + last(i));
        let earlier = |c: int| v(slot[c]) * v(gather_blocks(row, x, width, c, n - 1));
        let added = |c: int| v(slot[c]) * block_gather(v, block, x, width, c);
        assert forall|c: int| 0 <= c < width implies #[trigger] right(c) == earlier(c) + added(
            c,
        ) by {
            lemma_exact_gather(v, row, x, width, c, n);
            lemma_exact_gather(v, row, x, width, c, n - 1);
            let s = v(slot[c]);
            let p = v(gather_blocks(row, x, width, c, n - 1));
            let q = block_gather(v, block, x, width, c);
            assert(s * (p + q) == s * p + s * q) by (nonlinear_arith);
        }
        lemma_total_plus(width, earlier, added);
        lemma_total_ext(width, right, |c: int| earlier(c) + added(c));
    }
}

/// The two coupling products of a row are adjoint: for coefficients `x` and
/// coordinates `w`, what `w` sends back against `x` is what `x` sends forward
/// against `w`. `before` and `after` are the buffer that the product back adds to.
pub proof fn law_the_coupling_products_are_adjoint<S: Scalar>(
    v: spec_fn(S) -> real,
    op: &SupportBetaOperator<S>,
    row: int,
    x: Seq<S>,
    w: Seq<S>,
    before: Seq<S>,
    after: Seq<S>,
)
    requires
        is_exact(v),
        op.wf(),
        op.output_dim > 0,
        0 <= row < op.rows@.len(),
        forall|i: int|
            0 <= i < op.beta_dim ==> #[trigger] after[i] == scatter_blocks(
                before[i],
                op.rows@[row],
                op.row_pullbacks(w, row),
                op.output_dim as int,
                i,
                op.rows@[row].blocks@.len() as int,
            ),
    ensures
        total(op.beta_dim as int, |i: int| v(x[i]) * (v(after[i]) - v(before[i]))) == total(
            op.rows@[row].jacobian@.len() as int,
            |axis: int| v(w[axis]) * v(op.row_forward(x, row, axis, op.output_dim as int)),
        ),
{
    let line = op.rows@[row];
    let width = op.output_dim as int;
    let dim = op.beta_dim as int;
    let blocks = line.blocks@.len() as int;
    let axes = line.jacobian@.len() as int;
    let slot = op.row_pullbacks(w, row);
    assert forall|b: int| 0 <= b < blocks implies (#[trigger] line.blocks@[b]).beta_offset
        + line.blocks@[b].phi@.len() * width <= dim by {
        op.lemma_block_bounds(row, b);
    }
    lemma_row_adjoint(v, line, x, slot, width, dim, blocks);
    let moved = |i: int| v(x[i]) * (v(after[i]) - v(before[i]));
    let terms = |i: int| v(x[i]) * row_term(v, line, slot, width, i, blocks);
    assert forall|i: int| 0 <= i < dim implies #[trigger] moved(i) == terms(i) by {
        assert(after[i] == scatter_blocks(before[i], line, slot, width, i, blocks));
        lemma_exact_scatter(v, before[i], line, slot, width, i, blocks);
    }
    lemma_total_ext(dim, moved, terms);
    // The channels, read through the Jacobian both ways.
    let f = |c: int, axis: int| v(w[axis]) * (v(line.jacobian@[axis]@[c]) * v(op.slot(x, row, c)));
    let channels = |c: int| v(slot[c]) * v(gather_blocks(line, x, width, c, blocks));
    let by_channel = |c: int| total(axes, |axis: int| f(c, axis));
    assert forall|c: int| 0 <= c < width implies #[trigger] channels(c) == by_channel(c) by {
        let g = |axis: int| line.jacobian@[axis]@[c].s_times(w[axis]);
        lemma_exact_sum(v, S::s_zero(), axes, g);
        let s = v(op.slot(x, row, c));
        let back = |axis: int| v(g(axis));
        lemma_total_scaled(axes, s, back);
        assert forall|axis: int| 0 <= axis < axes implies #[trigger] f(c, axis) == s * back(
            axis,
        ) by {
            let j = v(line.jacobian@[axis]@[c]);
            let t = v(w[axis]);
            assert(t * (j * s) == s * (j * t)) by (nonlinear_arith);
        }
        lemma_total_ext(axes, |axis: int| f(c, axis), |axis: int| s * back(axis));
        let sum = total(axes, back);
        assert(v(slot[c]) == sum);
        assert(s * sum == sum * s) by (nonlinear_arith);
    }
    lemma_total_ext(width, channels, by_channel);
    lemma_total_exchange(width, axes, f);
    let by_axis = |axis: int| total(width, |c: int| f(c, axis));
    let forward = |axis: int| v(w[axis]) * v(op.row_forward(x, row, axis, width));
    assert forall|axis: int| 0 <= axis < axes implies #[trigger] by_axis(axis) == forward(axis) by {
        let g = |c: int| line.jacobian@[axis]@[c].s_times(op.slot(x, row, c));
        lemma_exact_sum(v, S::s_zero(), width, g);
        lemma_total_scaled(width, v(w[axis]), |c: int| v(g(c)));
        lemma_total_ext(width, |c: int| f(c, axis), |c: int| v(w[axis]) * (|k: int| v(g(k)))(c));
    }
    lemma_total_ext(axes, by_axis, forward);
}

/// A sum over all flat positions, atom by atom.
pub proof fn lemma_layout_total(sizes: Seq<usize>, width: nat, n: int, f: spec_fn(int) -> real)
    requires
        0 <= n <= sizes.len(),
    ensures
        total(beta_start(sizes, width, n) as int, f) == total(
            n,
            |a: int|
                total(
                    sizes[a] as int,
                    |b: int| total(width as int, |c: int| f(beta_index(sizes, width, a, b, c))),
                ),
        ),
    decreases n,
{
    if n > 0 {
        lemma_layout_total(sizes, width, n - 1, f);
        let start = beta_start(sizes, width, n - 1) as int;
        let m = sizes[n - 1] as int;
        let w = width as int;
        assert(m * w >= 0) by (nonlinear_arith)
            requires
                m >= 0,
                w >= 0,
        ;
        lemma_total_split(start, m * w, f);
        let g = |j: int| f(start + j);
        lemma_total_grid(m, w, g);
        let lines = |b: int| total(w, |c: int| g(b * w + c));
        let atoms = |a: int|
            total(
                sizes[a] as int,
                |b: int| total(width as int, |c: int| f(beta_index(sizes, width, a, b, c))),
            );
        let here = |b: int| total(w, |c: int| f(beta_index(sizes, width, n - 1, b, c)));
        assert forall|b: int| 0 <= b < m implies #[trigger] lines(b) == here(b) by {
            lemma_total_ext(
                w,
                |c: int| g(b * w + c),
                |c: int| f(beta_index(sizes, width, n - 1, b, c)),
            );
        }
        lemma_total_ext(m, lines, here);
        assert(atoms(n - 1) == total(m, here));
        assert(total(n, atoms) == total(n - 1, atoms) + atoms(n - 1));
    }
}

/// Coefficient `(b, c)` of atom `a` in a flat vector, as a real number.
pub open spec fn coefficient<S: Scalar>(
    v: spec_fn(S) -> real,
    op: &SupportBetaOperator<S>,
    x: Seq<S>,
    a: int,
    b: int,
    c: int,
) -> real {
    v(x[beta_index(op.basis_sizes@, op.width(), a, b, c)])
}

/// The rows' gathers of two vectors against one another.
pub open spec fn row_energy<S: Scalar>(
    v: spec_fn(S) -> real,
    op: &SupportBetaOperator<S>,
    x: Seq<S>,
    y: Seq<S>,
) -> real {
    total(
        op.rows@.len() as int,
        |r: int|
            total(op.output_dim as int, |c: int| v(op.slot(x, r, c)) * v(op.slot(y, r, c))),
    )
}

/// `z' P z` for two real vectors.
pub open spec fn bilinear(
    m: int,
    p: spec_fn(int, int) -> real,
    y: spec_fn(int) -> real,
    z: spec_fn(int) -> real,
) -> real {
    total2(m, m, |b: int, r: int| y(b) * (p(b, r) * z(r)))
}

/// No vector has a negative square.
pub open spec fn is_semidefinite(m: int, p: spec_fn(int, int) -> real) -> bool {
    forall|z: spec_fn(int) -> real| #[trigger] bilinear(m, p, z, z) >= 0 as real
}

/// The penalty of atom `a`, as a real matrix.
pub open spec fn penalty_value<S: Scalar>(
    v: spec_fn(S) -> real,
    op: &SupportBetaOperator<S>,
    a: int,
) -> spec_fn(int, int) -> real {
    |b: int, r: int| v(op.penalties@[a].at(b, r))
}

/// Channel `c` of atom `a`'s coefficients.
pub open spec fn channel_of<S: Scalar>(
    v: spec_fn(S) -> real,
    op: &SupportBetaOperator<S>,
    x: Seq<S>,
    a: int,
    c: int,
) -> spec_fn(int) -> real {
    |b: int| coefficient(v, op, x, a, b, c)
}

/// The atoms' roughness of two vectors against one another, each weighted with its
/// smoothing strength.
pub open spec fn roughness_energy<S: Scalar>(
    v: spec_fn(S) -> real,
    op: &SupportBetaOperator<S>,
    x: Seq<S>,
    y: Seq<S>,
) -> real {
    total(
        op.basis_sizes@.len() as int,
        |a: int|
            v(op.lambda_smooth@[a]) * total(
                op.output_dim as int,
                |c: int|
                    bilinear(
                        op.basis_sizes@[a] as int,
                        penalty_value(v, op, a),
                        channel_of(v, op, x, a, c),
                        channel_of(v, op, y, a, c),
                    ),
            ),
    )
}

/// What the smoothing adds to entry `(a, b, c)` of a product.
pub open spec fn smoothing_term<S: Scalar>(
    v: spec_fn(S) -> real,
    op: &SupportBetaOperator<S>,
    y: Seq<S>,
    a: int,
    b: int,
    c: int,
) -> real {
    total(op.basis_sizes@[a] as int, smoothing_line(v, op, y, a, b, c))
}

pub open spec fn smoothing_line<S: Scalar>(
    v: spec_fn(S) -> real,
    op: &SupportBetaOperator<S>,
    y: Seq<S>,
    a: int,
    b: int,
    c: int,
) -> spec_fn(int) -> real {
    |r: int|
        v(op.lambda_smooth@[a]) * v(op.penalties@[a].at(b, r)) * coefficient(v, op, y, a, r, c)
}

/// What the rows scatter to position `i`.
pub open spec fn data_term<S: Scalar>(
    v: spec_fn(S) -> real,
    op: &SupportBetaOperator<S>,
    y: Seq<S>,
    i: int,
) -> real {
    total(op.rows@.len() as int, data_line(v, op, y, i))
}

pub open spec fn data_line<S: Scalar>(
    v: spec_fn(S) -> real,
    op: &SupportBetaOperator<S>,
    y: Seq<S>,
    i: int,
) -> spec_fn(int) -> real {
    |r: int|
        row_term(
            v,
            op.rows@[r],
            op.slots(y)[r],
            op.output_dim as int,
            i,
            op.rows@[r].blocks@.len() as int,
        )
}

proof fn lemma_exact_swept<S: Scalar>(
    v: spec_fn(S) -> real,
    op: &SupportBetaOperator<S>,
    y: Seq<S>,
    i: int,
    n: int,
)
    requires
        is_exact(v),
        0 <= n <= op.rows@.len(),
    ensures
        v(op.swept(y, i, n)) == total(n, data_line(v, op, y, i)),
    decreases n,
{
    if n > 0 {
        lemma_exact_swept(v, op, y, i, n - 1);
        lemma_exact_scatter(
            v,
            op.swept(y, i, n - 1),
            op.rows@[n - 1],
            op.slots(y)[n - 1],
            op.output_dim as int,
            i,
            op.rows@[n - 1].blocks@.len() as int,
        );
    }
}

/// Entry `(a, b, c)` of a product, as a real number.
proof fn lemma_exact_product<S: Scalar>(
    v: spec_fn(S) -> real,
    op: &SupportBetaOperator<S>,
    y: Seq<S>,
    a: int,
    b: int,
    c: int,
)
    requires
        is_exact(v),
        op.wf(),
        0 <= a < op.basis_sizes@.len(),
        0 <= b < op.basis_sizes@[a],
        0 <= c < op.output_dim,
    ensures
        v(op.product(y, a, b, c)) == data_term(
            v,
            op,
            y,
            beta_index(op.basis_sizes@, op.width(), a, b, c),
        ) + smoothing_term(v, op, y, a, b, c),
{
    op.law_scatter_is_the_plain_sweep(y, a, b, c);
    let i = beta_index(op.basis_sizes@, op.width(), a, b, c);
    lemma_exact_swept(v, op, y, i, op.rows@.len() as int);
    let m = op.basis_sizes@[a] as int;
    let f = |right: int|
        op.lambda_smooth@[a].s_times(op.penalties@[a].at(b, right)).s_times(
            y[op.beta_offsets@[a] + right * op.output_dim + c],
        );
    lemma_exact_sum(v, op.swept(y, i, op.rows@.len() as int), m, f);
    let g = |r: int|
        v(op.lambda_smooth@[a]) * v(op.penalties@[a].at(b, r)) * coefficient(v, op, y, a, r, c);
    let h = |k: int| v(f(k));
    assert forall|r: int| 0 <= r < m implies #[trigger] h(r) == g(r) by {
        assert(op.beta_offsets@[a] as nat == beta_start(op.basis_sizes@, op.width(), a));
    }
    lemma_total_ext(m, h, g);
}

/// The decoder block is a sum of squares: its product with `y`, against `x`, is the
/// rows' gathers of the two against one another, plus the atoms' roughness.
pub proof fn law_the_decoder_block_is_a_form<S: Scalar>(
    v: spec_fn(S) -> real,
    op: &SupportBetaOperator<S>,
    x: Seq<S>,
    y: Seq<S>,
    out: Seq<S>,
)
    requires
        is_exact(v),
        op.wf(),
        op.output_dim > 0,
        op.is_product(y, out),
    ensures
        total(op.beta_dim as int, |i: int| v(x[i]) * v(out[i])) == row_energy(v, op, x, y)
            + roughness_energy(v, op, x, y),
{
    let dim = op.beta_dim as int;
    let width = op.output_dim as int;
    let sizes = op.basis_sizes@;
    let k = sizes.len() as int;
    let n = op.rows@.len() as int;
    let data = |i: int| v(x[i]) * data_term(v, op, y, i);
    let rest = |i: int| v(x[i]) * (v(out[i]) - data_term(v, op, y, i));
    let all = |i: int| v(x[i]) * v(out[i]);
    assert forall|i: int| 0 <= i < dim implies #[trigger] all(i) == data(i) + rest(i) by {
        let p = v(x[i]);
        let q = v(out[i]);
        let d = data_term(v, op, y, i);
        assert(p * q == p * d + p * (q - d)) by (nonlinear_arith);
    }
    lemma_total_plus(dim, data, rest);
    lemma_total_ext(dim, all, |i: int| data(i) + rest(i));
    lemma_data_form(v, op, x, y);
    // The smoothing, atom by atom.
    lemma_layout_total(sizes, op.width(), k, rest);
    let forms = |a: int|
        v(op.lambda_smooth@[a]) * total(
            width,
            |c: int|
                bilinear(
                    sizes[a] as int,
                    penalty_value(v, op, a),
                    channel_of(v, op, x, a, c),
                    channel_of(v, op, y, a, c),
                ),
        );
    let parts = |a: int|
        total(
            sizes[a] as int,
            |b: int|
                total(op.width() as int, |c: int| rest(beta_index(sizes, op.width(), a, b, c))),
        );
    assert forall|a: int| 0 <= a < k implies #[trigger] parts(a) == forms(a) by {
        let here = |b: int, c: int| rest(beta_index(sizes, op.width(), a, b, c));
        assert forall|b: int, c: int| 0 <= b < sizes[a] && 0 <= c < width implies #[trigger] here(
            b,
            c,
        ) == coefficient(v, op, x, a, b, c) * smoothing_term(v, op, y, a, b, c) by {
            let i = beta_index(sizes, op.width(), a, b, c);
            assert(out[i] == op.product(y, a, b, c));
            lemma_exact_product(v, op, y, a, b, c);
        }
        lemma_smoothing_form(v, op, x, y, here, a);
        let lines = |b: int|
            total(op.width() as int, |c: int| rest(beta_index(sizes, op.width(), a, b, c)));
        assert forall|b: int| 0 <= b < sizes[a] implies #[trigger] lines(b) == total(
            width,
            |c: int| here(b, c),
        ) by {
            lemma_total_ext(
                width,
                |c: int| rest(beta_index(sizes, op.width(), a, b, c)),
                |c: int| here(b, c),
            );
        }
        lemma_total2_lines(sizes[a] as int, width, here, lines);
    }
    lemma_total_ext(k, parts, forms);
}

proof fn lemma_data_form<S: Scalar>(
    v: spec_fn(S) -> real,
    op: &SupportBetaOperator<S>,
    x: Seq<S>,
    y: Seq<S>,
)
    requires
        is_exact(v),
        op.wf(),
        op.output_dim > 0,
    ensures
        total(op.beta_dim as int, |i: int| v(x[i]) * data_term(v, op, y, i)) == row_energy(
            v,
            op,
            x,
            y,
        ),
{
    let dim = op.beta_dim as int;
    let width = op.output_dim as int;
    let n = op.rows@.len() as int;
    let term = |r: int, i: int|
        row_term(v, op.rows@[r], op.slots(y)[r], width, i, op.rows@[r].blocks@.len() as int);
    let f = |i: int, r: int| v(x[i]) * term(r, i);
    let data = |i: int| v(x[i]) * data_term(v, op, y, i);
    let by_position = |i: int| total(n, |r: int| f(i, r));
    assert forall|i: int| 0 <= i < dim implies #[trigger] data(i) == by_position(i) by {
        let g = |r: int| term(r, i);
        lemma_total_scaled(n, v(x[i]), g);
        lemma_total_ext(n, |r: int| f(i, r), |r: int| v(x[i]) * g(r));
        lemma_total_ext(
            n,
            g,
            |r: int|
                row_term(
                    v,
                    op.rows@[r],
                    op.slots(y)[r],
                    op.output_dim as int,
                    i,
                    op.rows@[r].blocks@.len() as int,
                ),
        );
    }
    lemma_total_ext(dim, data, by_position);
    lemma_total_exchange(dim, n, f);
    let by_row = |r: int| total(dim, |i: int| f(i, r));
    let energies = |r: int| total(width, |c: int| v(op.slot(x, r, c)) * v(op.slot(y, r, c)));
    assert forall|r: int| 0 <= r < n implies #[trigger] by_row(r) == energies(r) by {
        let line = op.rows@[r];
        let blocks = line.blocks@.len() as int;
        let slot = op.slots(y)[r];
        assert forall|b: int| 0 <= b < blocks implies (#[trigger] line.blocks@[b]).beta_offset
            + line.blocks@[b].phi@.len() * width <= dim by {
            op.lemma_block_bounds(r, b);
        }
        lemma_row_adjoint(v, line, x, slot, width, dim, blocks);
        lemma_total_ext(
            dim,
            |i: int| f(i, r),
            |i: int| v(x[i]) * row_term(v, line, slot, width, i, blocks),
        );
        let p = |c: int| v(slot[c]) * v(gather_blocks(line, x, width, c, blocks));
        let q = |c: int| v(op.slot(x, r, c)) * v(op.slot(y, r, c));
        assert forall|c: int| 0 <= c < width implies #[trigger] p(c) == q(c) by {
            assert(slot[c] == op.slot(y, r, c));
            let s = v(op.slot(x, r, c));
            let t = v(op.slot(y, r, c));
            assert(t * s == s * t) by (nonlinear_arith);
        }
        lemma_total_ext(width, p, q);
    }
    lemma_total_ext(n, by_row, energies);
}

proof fn lemma_smoothing_form<S: Scalar>(
    v: spec_fn(S) -> real,
    op: &SupportBetaOperator<S>,
    x: Seq<S>,
    y: Seq<S>,
    rest: spec_fn(int, int) -> real,
    a: int,
)
    requires
        is_exact(v),
        op.wf(),
        0 <= a < op.basis_sizes@.len(),
        forall|b: int, c: int|
            0 <= b < op.basis_sizes@[a] && 0 <= c < op.output_dim ==> #[trigger] rest(b, c)
                == coefficient(v, op, x, a, b, c) * smoothing_term(v, op, y, a, b, c),
    ensures
        total2(op.basis_sizes@[a] as int, op.output_dim as int, rest) == v(op.lambda_smooth@[a])
            * total(
            op.output_dim as int,
            |c: int|
                bilinear(
                    op.basis_sizes@[a] as int,
                    penalty_value(v, op, a),
                    channel_of(v, op, x, a, c),
                    channel_of(v, op, y, a, c),
                ),
        ),
{
    let m = op.basis_sizes@[a] as int;
    let width = op.output_dim as int;
    let lambda = v(op.lambda_smooth@[a]);
    let p = penalty_value(v, op, a);
    let forms = |c: int| bilinear(m, p, channel_of(v, op, x, a, c), channel_of(v, op, y, a, c));
    let turned = |c: int, b: int| rest(b, c);
    lemma_total2_exchange(m, width, rest, turned);
    let weighted = |c: int| lambda * forms(c);
    assert forall|c: int| 0 <= c < width implies #[trigger] weighted(c) == total(
        m,
        |b: int| turned(c, b),
    ) by {
        let xc = channel_of(v, op, x, a, c);
        let yc = channel_of(v, op, y, a, c);
        let entry = |b: int, r: int| xc(b) * (p(b, r) * yc(r));
        let lines = |b: int| total(m, |r: int| entry(b, r));
        lemma_total2_lines(m, m, entry, lines);
        let one = |b: int| turned(c, b);
        let two = |b: int| lambda * lines(b);
        assert forall|b: int| 0 <= b < m implies #[trigger] one(b) == two(b) by {
            assert(rest(b, c) == coefficient(v, op, x, a, b, c) * smoothing_term(v, op, y, a, b, c));
            let u = xc(b);
            let inner = |r: int| entry(b, r);
            let terms = |r: int|
                v(op.lambda_smooth@[a]) * v(op.penalties@[a].at(b, r)) * coefficient(
                    v,
                    op,
                    y,
                    a,
                    r,
                    c,
                );
            lemma_total_scaled(m, u, terms);
            lemma_total_scaled(m, lambda, inner);
            let left = |r: int| u * terms(r);
            let right = |r: int| lambda * inner(r);
            assert forall|r: int| 0 <= r < m implies #[trigger] left(r) == right(r) by {
                let q = v(op.penalties@[a].at(b, r));
                let z = coefficient(v, op, y, a, r, c);
                assert(u * (lambda * q * z) == lambda * (u * (q * z))) by (nonlinear_arith);
            }
            lemma_total_ext(m, left, right);
            assert(smoothing_term(v, op, y, a, b, c) == total(m, terms));
            assert(lines(b) == total(m, inner));
        }
        lemma_total_ext(m, one, two);
        lemma_total_scaled(m, lambda, lines);
    }
    lemma_total2_lines(width, m, turned, weighted);
    lemma_total_scaled(width, lambda, forms);
}

/// A symmetric matrix gives a symmetric form.
pub proof fn lemma_bilinear_symmetric(
    m: int,
    p: spec_fn(int, int) -> real,
    y: spec_fn(int) -> real,
    z: spec_fn(int) -> real,
)
    requires
        forall|b: int, r: int| 0 <= b < m && 0 <= r < m ==> #[trigger] p(b, r) == p(r, b),
    ensures
        bilinear(m, p, y, z) == bilinear(m, p, z, y),
{
    let f = |b: int, r: int| y(b) * (p(b, r) * z(r));
    let g = |b: int, r: int| z(b) * (p(b, r) * y(r));
    assert forall|b: int, r: int| 0 <= b < m && 0 <= r < m implies #[trigger] g(r, b) == f(
        b,
        r,
    ) by {
        let s = y(b);
        let t = z(r);
        let q = p(b, r);
        assert(p(b, r) == p(r, b));
        assert(s * (q * t) == t * (q * s)) by (nonlinear_arith);
    }
    lemma_total2_exchange(m, m, f, g);
}

/// The decoder block is symmetric where the penalties are.
pub proof fn law_the_decoder_block_is_symmetric<S: Scalar>(
    v: spec_fn(S) -> real,
    op: &SupportBetaOperator<S>,
    x: Seq<S>,
    y: Seq<S>,
    out_x: Seq<S>,
    out_y: Seq<S>,
)
    requires
        is_exact(v),
        op.wf(),
        op.output_dim > 0,
        op.is_product(x, out_x),
        op.is_product(y, out_y),
        forall|a: int, b: int, r: int|
            0 <= a < op.basis_sizes@.len() && 0 <= b < op.basis_sizes@[a] && 0 <= r
                < op.basis_sizes@[a] ==> v(#[trigger] op.penalties@[a].at(b, r)) == v(
                op.penalties@[a].at(r, b),
            ),
    ensures
        total(op.beta_dim as int, |i: int| v(x[i]) * v(out_y[i])) == total(
            op.beta_dim as int,
            |i: int| v(y[i]) * v(out_x[i]),
        ),
{
    law_the_decoder_block_is_a_form(v, op, x, y, out_y);
    law_the_decoder_block_is_a_form(v, op, y, x, out_x);
    let n = op.rows@.len() as int;
    let width = op.output_dim as int;
    let k = op.basis_sizes@.len() as int;
    let one = |r: int| total(width, |c: int| v(op.slot(x, r, c)) * v(op.slot(y, r, c)));
    let two = |r: int| total(width, |c: int| v(op.slot(y, r, c)) * v(op.slot(x, r, c)));
    assert forall|r: int| 0 <= r < n implies #[trigger] one(r) == two(r) by {
        let p = |c: int| v(op.slot(x, r, c)) * v(op.slot(y, r, c));
        let q = |c: int| v(op.slot(y, r, c)) * v(op.slot(x, r, c));
        assert forall|c: int| 0 <= c < width implies #[trigger] p(c) == q(c) by {
            let s = v(op.slot(x, r, c));
            let t = v(op.slot(y, r, c));
            assert(s * t == t * s) by (nonlinear_arith);
        }
        lemma_total_ext(width, p, q);
    }
    lemma_total_ext(n, one, two);
    let here = |a: int|
        v(op.lambda_smooth@[a]) * total(
            width,
            |c: int|
                bilinear(
                    op.basis_sizes@[a] as int,
                    penalty_value(v, op, a),
                    channel_of(v, op, x, a, c),
                    channel_of(v, op, y, a, c),
                ),
        );
    let there = |a: int|
        v(op.lambda_smooth@[a]) * total(
            width,
            |c: int|
                bilinear(
                    op.basis_sizes@[a] as int,
                    penalty_value(v, op, a),
                    channel_of(v, op, y, a, c),
                    channel_of(v, op, x, a, c),
                ),
        );
    assert forall|a: int| 0 <= a < k implies #[trigger] here(a) == there(a) by {
        let m = op.basis_sizes@[a] as int;
        let p = penalty_value(v, op, a);
        let s = |c: int| bilinear(m, p, channel_of(v, op, x, a, c), channel_of(v, op, y, a, c));
        let t = |c: int| bilinear(m, p, channel_of(v, op, y, a, c), channel_of(v, op, x, a, c));
        assert forall|c: int| 0 <= c < width implies #[trigger] s(c) == t(c) by {
            assert forall|b: int, r: int| 0 <= b < m && 0 <= r < m implies #[trigger] p(b, r) == p(
                r,
                b,
            ) by {
                assert(v(op.penalties@[a].at(b, r)) == v(op.penalties@[a].at(r, b)));
            }
            lemma_bilinear_symmetric(
                m,
                p,
                channel_of(v, op, x, a, c),
                channel_of(v, op, y, a, c),
            );
        }
        lemma_total_ext(width, s, t);
    }
    lemma_total_ext(k, here, there);
}

/// The decoder block has no negative direction where the penalties have none and no
/// strength is negative.
pub proof fn law_the_decoder_block_is_semidefinite<S: Scalar>(
    v: spec_fn(S) -> real,
    op: &SupportBetaOperator<S>,
    x: Seq<S>,
    out: Seq<S>,
)
    requires
        is_exact(v),
        op.wf(),
        op.output_dim > 0,
        op.is_product(x, out),
        forall|a: int|
            0 <= a < op.basis_sizes@.len() ==> v(#[trigger] op.lambda_smooth@[a]) >= 0 as real,
        forall|a: int|
            0 <= a < op.basis_sizes@.len() ==> is_semidefinite(
                op.basis_sizes@[a] as int,
                #[trigger] penalty_value(v, op, a),
            ),
    ensures
        total(op.beta_dim as int, |i: int| v(x[i]) * v(out[i])) >= 0 as real,
{
    law_the_decoder_block_is_a_form(v, op, x, x, out);
    let n = op.rows@.len() as int;
    let width = op.output_dim as int;
    let k = op.basis_sizes@.len() as int;
    let energies = |r: int| total(width, |c: int| v(op.slot(x, r, c)) * v(op.slot(x, r, c)));
    assert forall|r: int| 0 <= r < n implies #[trigger] energies(r) >= 0 as real by {
        let p = |c: int| v(op.slot(x, r, c)) * v(op.slot(x, r, c));
        assert forall|c: int| 0 <= c < width implies #[trigger] p(c) >= 0 as real by {
            let s = v(op.slot(x, r, c));
            assert(s * s >= 0 as real) by (nonlinear_arith);
        }
        lemma_total_not_negative(width, p);
    }
    lemma_total_not_negative(n, energies);
    let forms = |a: int|
        v(op.lambda_smooth@[a]) * total(
            width,
            |c: int|
                bilinear(
                    op.basis_sizes@[a] as int,
                    penalty_value(v, op, a),
                    channel_of(v, op, x, a, c),
                    channel_of(v, op, x, a, c),
                ),
        );
    assert forall|a: int| 0 <= a < k implies #[trigger] forms(a) >= 0 as real by {
        let m = op.basis_sizes@[a] as int;
        let p = penalty_value(v, op, a);
        let s = |c: int| bilinear(m, p, channel_of(v, op, x, a, c), channel_of(v, op, x, a, c));
        assert forall|c: int| 0 <= c < width implies #[trigger] s(c) >= 0 as real by {
            assert(is_semidefinite(m, p));
        }
        lemma_total_not_negative(width, s);
        let lambda = v(op.lambda_smooth@[a]);
        let sum = total(width, s);
        assert(lambda * sum >= 0 as real) by (nonlinear_arith)
            requires
                lambda >= 0 as real,
                sum >= 0 as real,
        ;
    }
    lemma_total_not_negative(k, forms);
}

proof fn lemma_linear_slot<S: Scalar>(
    v: spec_fn(S) -> real,
    op: &SupportBetaOperator<S>,
    s: real,
    t: real,
    x: Seq<S>,
    y: Seq<S>,
    z: Seq<S>,
    r: int,
    c: int,
)
    requires
        is_exact(v),
        op.wf(),
        0 <= r < op.rows@.len(),
        0 <= c < op.output_dim,
        forall|i: int|
            0 <= i < op.beta_dim ==> combines(s, t, v(x[i]), v(y[i]), v(#[trigger] z[i])),
    ensures
        combines(s, t, v(op.slot(x, r, c)), v(op.slot(y, r, c)), v(op.slot(z, r, c))),
{
    let line = op.rows@[r];
    let width = op.output_dim as int;
    let blocks = line.blocks@.len() as int;
    lemma_exact_gather(v, line, x, width, c, blocks);
    lemma_exact_gather(v, line, y, width, c, blocks);
    lemma_exact_gather(v, line, z, width, c, blocks);
    let fx = |b: int| block_gather(v, line.blocks@[b], x, width, c);
    let fy = |b: int| block_gather(v, line.blocks@[b], y, width, c);
    let fz = |b: int| block_gather(v, line.blocks@[b], z, width, c);
    assert forall|b: int| 0 <= b < blocks implies combines(s, t, fx(b), fy(b), #[trigger] fz(b)) by {
        op.lemma_block_bounds(r, b);
        let block = line.blocks@[b];
        let m = block.phi@.len() as int;
        let gx = |k: int| v(block.phi@[k]) * v(x[block.beta_offset + k * width + c]);
        let gy = |k: int| v(block.phi@[k]) * v(y[block.beta_offset + k * width + c]);
        let gz = |k: int| v(block.phi@[k]) * v(z[block.beta_offset + k * width + c]);
        assert forall|k: int| 0 <= k < m implies combines(s, t, gx(k), gy(k), #[trigger] gz(k)) by {
            let i = block.beta_offset + k * width + c;
            assert(0 <= k * width && k * width + c < m * width) by (nonlinear_arith)
                requires
                    0 <= k < m,
                    0 <= c < width,
            ;
            assert(combines(s, t, v(x[i]), v(y[i]), v(z[i])));
            lemma_scaled_combines(v(block.phi@[k]), s, t, v(x[i]), v(y[i]), v(z[i]));
        }
        lemma_total_combines(m, s, t, gx, gy, gz);
    }
    lemma_total_combines(blocks, s, t, fx, fy, fz);
}

proof fn lemma_linear_data<S: Scalar>(
    v: spec_fn(S) -> real,
    op: &SupportBetaOperator<S>,
    s: real,
    t: real,
    x: Seq<S>,
    y: Seq<S>,
    z: Seq<S>,
    i: int,
)
    requires
        is_exact(v),
        op.wf(),
        op.output_dim > 0,
        forall|i: int|
            0 <= i < op.beta_dim ==> combines(s, t, v(x[i]), v(y[i]), v(#[trigger] z[i])),
    ensures
        combines(s, t, data_term(v, op, x, i), data_term(v, op, y, i), data_term(v, op, z, i)),
{
    let n = op.rows@.len() as int;
    let width = op.output_dim as int;
    let row = |w: Seq<S>, r: int|
        row_term(v, op.rows@[r], op.slots(w)[r], width, i, op.rows@[r].blocks@.len() as int);
    let fx = |r: int| row(x, r);
    let fy = |r: int| row(y, r);
    let fz = |r: int| row(z, r);
    assert forall|r: int| 0 <= r < n implies combines(s, t, fx(r), fy(r), #[trigger] fz(r)) by {
        let line = op.rows@[r];
        let blocks = line.blocks@.len() as int;
        let gx = |b: int| block_term(v, line.blocks@[b], op.slots(x)[r], width, i);
        let gy = |b: int| block_term(v, line.blocks@[b], op.slots(y)[r], width, i);
        let gz = |b: int| block_term(v, line.blocks@[b], op.slots(z)[r], width, i);
        assert forall|b: int| 0 <= b < blocks implies combines(s, t, gx(b), gy(b), #[trigger] gz(b)) by {
            let block = line.blocks@[b];
            if covers(block, width, i) {
                let local = i - block.beta_offset;
                let c = local % width;
                vstd::arithmetic::div_mod::lemma_mod_bound(local, width);
                lemma_linear_slot(v, op, s, t, x, y, z, r, c);
                assert(op.slots(x)[r][c] == op.slot(x, r, c));
                assert(op.slots(y)[r][c] == op.slot(y, r, c));
                assert(op.slots(z)[r][c] == op.slot(z, r, c));
                lemma_scaled_combines(
                    v(block.phi@[local / width]),
                    s,
                    t,
                    v(op.slot(x, r, c)),
                    v(op.slot(y, r, c)),
                    v(op.slot(z, r, c)),
                );
            } else {
                assert(s * (0 as real) + t * (0 as real) == 0 as real) by (nonlinear_arith);
            }
        }
        lemma_total_combines(blocks, s, t, gx, gy, gz);
    }
    lemma_total_combines(n, s, t, fx, fy, fz);
    lemma_total_ext(n, fx, data_line(v, op, x, i));
    lemma_total_ext(n, fy, data_line(v, op, y, i));
    lemma_total_ext(n, fz, data_line(v, op, z, i));
}

/// The decoder block is linear: the product with `s * x + t * y` is `s` times the
/// product with `x` plus `t` times the product with `y`.
pub proof fn law_the_decoder_block_is_linear<S: Scalar>(
    v: spec_fn(S) -> real,
    op: &SupportBetaOperator<S>,
    s: real,
    t: real,
    x: Seq<S>,
    y: Seq<S>,
    z: Seq<S>,
    out_x: Seq<S>,
    out_y: Seq<S>,
    out_z: Seq<S>,
)
    requires
        is_exact(v),
        op.wf(),
        op.output_dim > 0,
        op.is_product(x, out_x),
        op.is_product(y, out_y),
        op.is_product(z, out_z),
        forall|i: int|
            0 <= i < op.beta_dim ==> combines(s, t, v(x[i]), v(y[i]), v(#[trigger] z[i])),
    ensures
        forall|i: int|
            0 <= i < op.beta_dim ==> combines(
                s,
                t,
                v(out_x[i]),
                v(out_y[i]),
                v(#[trigger] out_z[i]),
            ),
{
    let sizes = op.basis_sizes@;
    assert forall|i: int| 0 <= i < op.beta_dim implies combines(
        s,
        t,
        v(out_x[i]),
        v(out_y[i]),
        v(#[trigger] out_z[i]),
    ) by {
        let (a, b, c) = law_every_position_is_a_coefficient(
            sizes,
            op.width(),
            sizes.len() as int,
            i,
        );
        assert(i == beta_index(sizes, op.width(), a, b, c));
        assert(out_x[i] == op.product(x, a, b, c));
        assert(out_y[i] == op.product(y, a, b, c));
        assert(out_z[i] == op.product(z, a, b, c));
        lemma_exact_product(v, op, x, a, b, c);
        lemma_exact_product(v, op, y, a, b, c);
        lemma_exact_product(v, op, z, a, b, c);
        lemma_linear_data(v, op, s, t, x, y, z, i);
        let m = sizes[a] as int;
        let weight = |r: int| v(op.lambda_smooth@[a]) * v(op.penalties@[a].at(b, r));
        let fx = |r: int| weight(r) * coefficient(v, op, x, a, r, c);
        let fy = |r: int| weight(r) * coefficient(v, op, y, a, r, c);
        let fz = |r: int| weight(r) * coefficient(v, op, z, a, r, c);
        assert forall|r: int| 0 <= r < m implies combines(s, t, fx(r), fy(r), #[trigger] fz(r)) by {
            lemma_beta_index_in_block(sizes, op.width(), a, r, c);
            let j = beta_index(sizes, op.width(), a, r, c);
            law_blocks_follow_one_another(sizes, op.width(), a, sizes.len() as int);
            assert(combines(s, t, v(x[j]), v(y[j]), v(z[j])));
            lemma_scaled_combines(weight(r), s, t, v(x[j]), v(y[j]), v(z[j]));
        }
        lemma_total_combines(m, s, t, fx, fy, fz);
        lemma_total_ext(m, fx, smoothing_line(v, op, x, a, b, c));
        lemma_total_ext(m, fy, smoothing_line(v, op, y, a, b, c));
        lemma_total_ext(m, fz, smoothing_line(v, op, z, a, b, c));
        let p = total(m, fx);
        let q = total(m, fy);
        let d = data_term(v, op, x, i);
        let e = data_term(v, op, y, i);
        assert(s * (d + p) + t * (e + q) == (s * d + t * e) + (s * p + t * q)) by (nonlinear_arith);
    }
}

} // verus!
