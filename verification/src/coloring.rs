//! Conflict classes of the decoder sweep.
//!
//! Two atoms conflict when some row uses both. Atoms of one class share no row,
//! so their exact block updates read and write disjoint rows and can be made
//! together.
use crate::scalar::Scalar;
use crate::term::{law_uses_invert_the_support, SaeSupportSparseTerm};
use vstd::prelude::*;

verus! {

/// Some row uses both atoms.
pub open spec fn conflict(supports: Seq<Seq<u32>>, a: int, b: int) -> bool {
    exists|r: int, s: int, t: int|
        #![trigger supports[r][s], supports[r][t]]
        0 <= r < supports.len() && 0 <= s < supports[r].len() && 0 <= t < supports[r].len()
            && supports[r][s] == a && supports[r][t] == b
}

/// Some atom below `n` that conflicts with `a` has colour `c`.
pub open spec fn is_taken(
    supports: Seq<Seq<u32>>,
    colors: Seq<usize>,
    a: int,
    n: int,
    c: int,
) -> bool {
    exists|b: int| 0 <= b < n && #[trigger] colors[b] == c && conflict(supports, a, b)
}

/// Atom `a` has the smallest colour that no earlier conflicting atom has.
pub open spec fn is_greedy(supports: Seq<Seq<u32>>, colors: Seq<usize>, a: int) -> bool {
    &&& !is_taken(supports, colors, a, a, colors[a] as int)
    &&& forall|c: int|
        0 <= c < colors[a] ==> #[trigger] is_taken(supports, colors, a, a, c)
}

/// Those of the first `n` atoms that have colour `c`, in order.
pub open spec fn members(colors: Seq<usize>, c: int, n: int) -> Seq<usize>
    decreases n,
{
    if n <= 0 {
        Seq::empty()
    } else if colors[n - 1] == c {
        members(colors, c, n - 1).push((n - 1) as usize)
    } else {
        members(colors, c, n - 1)
    }
}

/// The classes list the atoms by greedy colour.
pub open spec fn are_greedy_classes(
    supports: Seq<Seq<u32>>,
    k: nat,
    colors: Seq<usize>,
    classes: Seq<Vec<usize>>,
) -> bool {
    &&& colors.len() == k
    &&& forall|a: int| 0 <= a < k ==> is_greedy(supports, colors, a) && #[trigger] colors[a]
        < classes.len()
    &&& forall|c: int|
        0 <= c < classes.len() ==> (#[trigger] classes[c])@ == members(colors, c, k as int)
    &&& forall|c: int| 0 <= c < classes.len() ==> (#[trigger] classes[c])@.len() > 0
}

/// The members of a class are atoms of its colour in increasing order, and all
/// of them.
pub proof fn lemma_members(colors: Seq<usize>, c: int, n: int)
    requires
        0 <= n <= colors.len() <= usize::MAX,
    ensures
        forall|i: int|
            0 <= i < members(colors, c, n).len() ==> {
                let a = #[trigger] members(colors, c, n)[i];
                a < n && colors[a as int] == c
            },
        forall|i: int, j: int|
            0 <= i < j < members(colors, c, n).len() ==> #[trigger] members(colors, c, n)[i]
                < #[trigger] members(colors, c, n)[j],
        forall|a: int|
            0 <= a < n && #[trigger] colors[a] == c ==> members(colors, c, n).contains(a as usize),
    decreases n,
{
    if n > 0 {
        lemma_members(colors, c, n - 1);
        let rest = members(colors, c, n - 1);
        let all = members(colors, c, n);
        assert forall|a: int| 0 <= a < n && #[trigger] colors[a] == c implies all.contains(
            a as usize,
        ) by {
            if a == n - 1 {
                assert(all[all.len() - 1] == a as usize);
            } else {
                assert(rest.contains(a as usize));
                let i = choose|i: int| 0 <= i < rest.len() && rest[i] == a as usize;
                assert(all[i] == a as usize);
            }
        }
    }
}

/// Every atom is in the class of its colour and in no other.
pub proof fn law_classes_partition_the_atoms(
    supports: Seq<Seq<u32>>,
    k: nat,
    colors: Seq<usize>,
    classes: Seq<Vec<usize>>,
    a: int,
    c: int,
)
    requires
        are_greedy_classes(supports, k, colors, classes),
        k <= usize::MAX,
        0 <= a < k,
        0 <= c < classes.len(),
    ensures
        classes[c]@.contains(a as usize) <==> c == colors[a],
        classes[c]@.no_duplicates(),
{
    lemma_members(colors, c, k as int);
    assert(classes[c]@ == members(colors, c, k as int));
    if classes[c]@.contains(a as usize) {
        let i = choose|i: int| 0 <= i < classes[c]@.len() && classes[c]@[i] == a as usize;
        assert(colors[members(colors, c, k as int)[i] as int] == c);
    }
}

/// Two atoms of one class share no row.
pub proof fn law_a_class_is_row_disjoint(
    supports: Seq<Seq<u32>>,
    k: nat,
    colors: Seq<usize>,
    classes: Seq<Vec<usize>>,
    c: int,
    i: int,
    j: int,
)
    requires
        are_greedy_classes(supports, k, colors, classes),
        k <= usize::MAX,
        0 <= c < classes.len(),
        0 <= i < classes[c]@.len(),
        0 <= j < classes[c]@.len(),
        i != j,
    ensures
        !conflict(supports, classes[c]@[i] as int, classes[c]@[j] as int),
{
    lemma_members(colors, c, k as int);
    assert(classes[c]@ == members(colors, c, k as int));
    let a = classes[c]@[i] as int;
    let b = classes[c]@[j] as int;
    assert(colors[a] == c && colors[b] == c);
    if i < j {
        assert(a < b);
        assert(is_greedy(supports, colors, b));
        if conflict(supports, a, b) {
            lemma_conflict_symmetric(supports, a, b);
            assert(is_taken(supports, colors, b, b, c));
        }
    } else {
        assert(b < a);
        assert(is_greedy(supports, colors, a));
        if conflict(supports, a, b) {
            assert(is_taken(supports, colors, a, a, c));
        }
    }
}

pub proof fn lemma_conflict_symmetric(supports: Seq<Seq<u32>>, a: int, b: int)
    requires
        conflict(supports, a, b),
    ensures
        conflict(supports, b, a),
{
    let (r, s, t) = choose|r: int, s: int, t: int|
        #![trigger supports[r][s], supports[r][t]]
        0 <= r < supports.len() && 0 <= s < supports[r].len() && 0 <= t < supports[r].len()
            && supports[r][s] == a && supports[r][t] == b;
    assert(supports[r][t] == b && supports[r][s] == a);
}

impl<S: Scalar> SaeSupportSparseTerm<S> {
    /// Greedy colour classes of the atoms: in atom order, each atom joins the
    /// first class that holds no atom it shares a row with.
    pub fn decoder_conflict_colors(&self) -> (classes: Vec<Vec<usize>>)
        requires
            self.wf(),
        ensures
            exists|colors: Seq<usize>|
                are_greedy_classes(self.state().supports(), self.k(), colors, classes@),
    {
        let ghost supports = self.state().supports();
        let k_atoms: usize = self.k_atoms();
        let mut color_of: Vec<usize> = Vec::new();
        let mut classes: Vec<Vec<usize>> = Vec::new();
        for atom in 0..k_atoms
            invariant
                self.wf(),
                k_atoms == self.k(),
                supports == self.state().supports(),
                are_greedy_classes(supports, atom as nat, color_of@, classes@),
        {
            let color: usize = self.first_free_color(atom, &color_of, classes.len());
            let ghost colors = color_of@;
            let ghost previous = classes@;
            color_of.push(color);
            if color == classes.len() {
                classes.push(Vec::new());
            }
            let ghost widened = classes@;
            classes[color].push(atom);
            proof {
                assert forall|a: int| 0 <= a < atom + 1 implies is_greedy(supports, color_of@, a)
                    && #[trigger] color_of@[a] < classes@.len() by {
                    if a < atom {
                        assert(colors[a] < previous.len());
                    }
                    lemma_prefix_greedy(supports, colors, color_of@, a);
                }
                assert forall|c: int| 0 <= c < classes@.len() implies (#[trigger] classes@[c])@
                    == members(color_of@, c, atom + 1) && classes@[c]@.len() > 0 by {
                    lemma_members_prefix(colors, color_of@, c, atom as int);
                    if c < previous.len() {
                        assert(previous[c]@ == members(colors, c, atom as int));
                        assert(previous[c]@.len() > 0);
                        assert(widened[c] == previous[c]);
                    } else {
                        lemma_no_member(colors, c, atom as int);
                        assert(widened[c]@ =~= members(colors, c, atom as int));
                    }
                    if c == color {
                        assert(classes@[c]@ =~= widened[c]@.push(atom));
                    } else {
                        assert(classes@[c] == widened[c]);
                    }
                }
            }
        }
        assert(are_greedy_classes(supports, self.k(), color_of@, classes@));
        classes
    }

    /// The smallest colour that no earlier atom sharing a row has.
    fn first_free_color(&self, atom: usize, color_of: &Vec<usize>, classes: usize) -> (r: usize)
        requires
            self.wf(),
            atom < self.k(),
            color_of@.len() == atom,
            forall|b: int| 0 <= b < atom ==> #[trigger] color_of@[b] < classes,
        ensures
            r <= classes,
            !is_taken(
                self.state().supports(),
                color_of@,
                atom as int,
                atom as int,
                r as int,
            ),
            forall|c: int|
                0 <= c < r ==> #[trigger] is_taken(
                    self.state().supports(),
                    color_of@,
                    atom as int,
                    atom as int,
                    c,
                ),
    {
        let ghost supports = self.state().supports();
        let mut taken: Vec<bool> = Vec::new();
        for c in 0..classes
            invariant
                taken@.len() == c,
                forall|i: int| 0 <= i < c ==> !#[trigger] taken@[i],
        {
            taken.push(false);
        }
        let uses: &Vec<(usize, usize)> = self.rows_of_atom(atom);
        for e in 0..uses.len()
            invariant
                self.wf(),
                atom < self.k(),
                supports == self.state().supports(),
                uses@ == self.uses()[atom as int],
                color_of@.len() == atom,
                taken@.len() == classes,
                forall|b: int| 0 <= b < atom ==> #[trigger] color_of@[b] < classes,
                forall|c: int|
                    0 <= c < classes && #[trigger] taken@[c] ==> is_taken(
                        supports,
                        color_of@,
                        atom as int,
                        atom as int,
                        c,
                    ),
                forall|f: int, t: int|
                    #![trigger supports[uses@[f].0 as int][t]]
                    0 <= f < e && 0 <= t < supports[uses@[f].0 as int].len()
                        && supports[uses@[f].0 as int][t] < atom
                        ==> taken@[color_of@[supports[uses@[f].0 as int][t] as int] as int],
        {
            let (row, slot): (usize, usize) = uses[e];
            proof {
                self.lemma_use(atom as int, e as int);
            }
            let support: &Vec<u32> = self.assignment().support_indices(row);
            for t in 0..support.len()
                invariant
                    self.wf(),
                    atom < self.k(),
                    supports == self.state().supports(),
                    uses@ == self.uses()[atom as int],
                    e < uses@.len(),
                    uses@[e as int] == (row, slot),
                    row < supports.len(),
                    slot < supports[row as int].len(),
                    supports[row as int][slot as int] == atom,
                    support@ == supports[row as int],
                    color_of@.len() == atom,
                    taken@.len() == classes,
                    forall|b: int| 0 <= b < atom ==> #[trigger] color_of@[b] < classes,
                    forall|c: int|
                        0 <= c < classes && #[trigger] taken@[c] ==> is_taken(
                            supports,
                            color_of@,
                            atom as int,
                            atom as int,
                            c,
                        ),
                    forall|f: int, u: int|
                        #![trigger supports[uses@[f].0 as int][u]]
                        0 <= f <= e && 0 <= u < (if f < e {
                            supports[uses@[f].0 as int].len() as int
                        } else {
                            t as int
                        }) && supports[uses@[f].0 as int][u] < atom
                            ==> taken@[color_of@[supports[uses@[f].0 as int][u] as int] as int],
            {
                let other: usize = support[t] as usize;
                if other < atom {
                    let color: usize = color_of[other];
                    taken.set(color, true);
                    proof {
                        assert(supports[row as int][slot as int] == atom
                            && supports[row as int][t as int] == other);
                        assert(conflict(supports, atom as int, other as int));
                        assert(color_of@[other as int] == color);
                        assert(is_taken(
                            supports,
                            color_of@,
                            atom as int,
                            atom as int,
                            color as int,
                        ));
                    }
                }
            }
        }
        assert forall|c: int|
            0 <= c < classes && !#[trigger] taken@[c] implies !is_taken(
            supports,
            color_of@,
            atom as int,
            atom as int,
            c,
        ) by {
            if is_taken(supports, color_of@, atom as int, atom as int, c) {
                let b = choose|b: int|
                    0 <= b < atom && #[trigger] color_of@[b] == c && conflict(
                        supports,
                        atom as int,
                        b,
                    );
                let (r, s, t) = choose|r: int, s: int, t: int|
                    #![trigger supports[r][s], supports[r][t]]
                    0 <= r < supports.len() && 0 <= s < supports[r].len() && 0 <= t
                        < supports[r].len() && supports[r][s] == atom as int && supports[r][t]
                        == b;
                assert forall|q: int| 0 <= q < supports.len() implies (
                #[trigger] supports[q]).len() <= usize::MAX by {
                    assert(1 <= self.support(q).len() <= self.state().mode_spec()->k);
                }
                law_uses_invert_the_support(supports, self.rows() as int, atom as int);
                assert(supports[r][s] == atom);
                assert(self.uses()[atom as int].contains((r as usize, s as usize)));
                let f = choose|f: int|
                    0 <= f < uses@.len() && uses@[f] == (r as usize, s as usize);
                assert(supports[uses@[f].0 as int][t] == b);
            }
        }
        let mut color: usize = 0;
        while color < classes && taken[color]
            invariant
                color <= classes,
                taken@.len() == classes,
                forall|c: int| 0 <= c < color ==> #[trigger] taken@[c],
            decreases classes - color,
        {
            color = color + 1;
        }
        assert forall|c: int| 0 <= c < color implies #[trigger] is_taken(
            supports,
            color_of@,
            atom as int,
            atom as int,
            c,
        ) by {
            assert(taken@[c]);
        }
        color
    }
}

proof fn lemma_prefix_greedy(
    supports: Seq<Seq<u32>>,
    short: Seq<usize>,
    long: Seq<usize>,
    a: int,
)
    requires
        long.len() == short.len() + 1,
        forall|b: int| 0 <= b < short.len() ==> #[trigger] long[b] == short[b],
        0 <= a < long.len(),
        a < short.len() ==> is_greedy(supports, short, a),
        a == short.len() ==> !is_taken(supports, short, a, a, long[a] as int),
        a == short.len() ==> forall|c: int|
            0 <= c < long[a] ==> #[trigger] is_taken(supports, short, a, a, c),
    ensures
        is_greedy(supports, long, a),
{
    assert forall|c: int| #[trigger] is_taken(supports, long, a, a, c) == is_taken(
        supports,
        short,
        a,
        a,
        c,
    ) by {
        if is_taken(supports, long, a, a, c) {
            let b = choose|b: int|
                0 <= b < a && #[trigger] long[b] == c && conflict(supports, a, b);
            assert(short[b] == c);
        }
        if is_taken(supports, short, a, a, c) {
            let b = choose|b: int|
                0 <= b < a && #[trigger] short[b] == c && conflict(supports, a, b);
            assert(long[b] == c);
        }
    }
}

proof fn lemma_members_prefix(short: Seq<usize>, long: Seq<usize>, c: int, n: int)
    requires
        0 <= n <= short.len(),
        n <= long.len(),
        forall|b: int| 0 <= b < n ==> #[trigger] long[b] == short[b],
    ensures
        members(short, c, n) == members(long, c, n),
    decreases n,
{
    if n > 0 {
        lemma_members_prefix(short, long, c, n - 1);
        assert(long[n - 1] == short[n - 1]);
    }
}

proof fn lemma_no_member(colors: Seq<usize>, c: int, n: int)
    requires
        0 <= n <= colors.len(),
        forall|b: int| 0 <= b < n ==> #[trigger] colors[b] != c,
    ensures
        members(colors, c, n).len() == 0,
    decreases n,
{
    if n > 0 {
        lemma_no_member(colors, c, n - 1);
        assert(colors[n - 1] != c);
    }
}

} // verus!
