//! Cartesian-product expansion: the enumeration of every combination of the
//! per-token string sets, each combination concatenated in token order.

use vstd::prelude::*;
use crate::variable::{sets_view, StringSet};

verus! {

/// Each suffix prefixed with one value.
pub open spec fn prefix_each(v: Seq<char>, sfx: Seq<Seq<char>>) -> Seq<Seq<char>> {
    sfx.map_values(|s: Seq<char>| v + s)
}

/// Every value of `vals` paired with every suffix, values outermost.
pub open spec fn prefix_all(vals: Seq<Seq<char>>, sfx: Seq<Seq<char>>) -> Seq<Seq<char>>
    decreases vals.len(),
{
    if vals.len() == 0 {
        Seq::empty()
    } else {
        prefix_each(vals[0], sfx) + prefix_all(vals.drop_first(), sfx)
    }
}

/// Every combination of the sets from position `i` on, in order: the first
/// set varies slowest, and every combination appears exactly once.
pub open spec fn combos_from(sets: Seq<Seq<Seq<char>>>, i: int) -> Seq<Seq<char>>
    decreases sets.len() - i,
{
    if i < 0 || i >= sets.len() {
        seq![Seq::<char>::empty()]
    } else {
        prefix_all(sets[i], combos_from(sets, i + 1))
    }
}

/// The full enumeration of a template's combinations.  An empty template
/// expands to nothing, not to one empty string.
pub open spec fn spec_expansion(sets: Seq<Seq<Seq<char>>>) -> Seq<Seq<char>> {
    if sets.len() == 0 {
        Seq::empty()
    } else {
        combos_from(sets, 0)
    }
}

/// The product of the set sizes from position `i` on.
pub open spec fn prod_from(sets: Seq<Seq<Seq<char>>>, i: int) -> int
    decreases sets.len() - i,
{
    if i < 0 || i >= sets.len() {
        1
    } else {
        sets[i].len() * prod_from(sets, i + 1)
    }
}

/// Some set is empty.
pub open spec fn has_empty_set(sets: Seq<Seq<Seq<char>>>) -> bool {
    exists|i: int| 0 <= i < sets.len() && (#[trigger] sets[i]).len() == 0
}

proof fn lemma_prefix_all_len(vals: Seq<Seq<char>>, sfx: Seq<Seq<char>>)
    ensures
        prefix_all(vals, sfx).len() == vals.len() * sfx.len(),
    decreases vals.len(),
{
    if vals.len() == 0 {
        assert(vals.len() * sfx.len() == 0) by (nonlinear_arith)
            requires
                vals.len() == 0,
        ;
    } else {
        lemma_prefix_all_len(vals.drop_first(), sfx);
        assert((vals.len() - 1) * sfx.len() + sfx.len() == vals.len() * sfx.len())
            by (nonlinear_arith);
    }
}

/// How many combinations the enumeration holds: the product of the set
/// sizes, and zero as soon as one set is empty.
pub proof fn lemma_combos_len(sets: Seq<Seq<Seq<char>>>, i: int)
    ensures
        combos_from(sets, i).len() == prod_from(sets, i),
    decreases sets.len() - i,
{
    if 0 <= i < sets.len() {
        lemma_combos_len(sets, i + 1);
        lemma_prefix_all_len(sets[i], combos_from(sets, i + 1));
    }
}

/// A product with an empty factor is zero; all factors positive make it
/// positive.
pub proof fn lemma_prod_bounds(sets: Seq<Seq<Seq<char>>>, i: int)
    requires
        i >= 0,
    ensures
        (exists|j: int| i <= j < sets.len() && (#[trigger] sets[j]).len() == 0) ==> prod_from(
            sets,
            i,
        ) == 0,
        (forall|j: int| i <= j < sets.len() ==> (#[trigger] sets[j]).len() > 0) ==> prod_from(
            sets,
            i,
        ) > 0,
    decreases sets.len() - i,
{
    if 0 <= i < sets.len() {
        lemma_prod_bounds(sets, i + 1);
        if exists|j: int| i <= j < sets.len() && (#[trigger] sets[j]).len() == 0 {
            let j = choose|j: int| i <= j < sets.len() && (#[trigger] sets[j]).len() == 0;
            if j == i {
                assert(sets[i].len() * prod_from(sets, i + 1) == 0) by (nonlinear_arith)
                    requires
                        sets[i].len() == 0,
                ;
            } else {
                assert(sets[j].len() == 0);
                assert(exists|j2: int|
                    i + 1 <= j2 < sets.len() && (#[trigger] sets[j2]).len() == 0);
                assert(prod_from(sets, i + 1) == 0);
                assert(sets[i].len() * prod_from(sets, i + 1) == 0) by (nonlinear_arith)
                    requires
                        prod_from(sets, i + 1) == 0,
                ;
            }
        }
        if forall|j: int| i <= j < sets.len() ==> (#[trigger] sets[j]).len() > 0 {
            assert(sets[i].len() > 0);
            assert(prod_from(sets, i + 1) > 0);
            assert(sets[i].len() * prod_from(sets, i + 1) > 0) by (nonlinear_arith)
                requires
                    sets[i].len() > 0,
                    prod_from(sets, i + 1) > 0,
            ;
        }
    }
}

/// Cartesian completeness: expanding sets of sizes s1..sN yields exactly
/// s1 x ... x sN combinations, or zero when the template is empty or any set
/// is empty; `combos_from` lists each combination exactly once, in order.
pub proof fn lemma_expansion_count(sets: Seq<Seq<Seq<char>>>)
    ensures
        sets.len() == 0 ==> spec_expansion(sets).len() == 0,
        sets.len() > 0 ==> spec_expansion(sets).len() == prod_from(sets, 0),
        has_empty_set(sets) ==> spec_expansion(sets).len() == 0,
{
    if sets.len() > 0 {
        lemma_combos_len(sets, 0);
        lemma_prod_bounds(sets, 0);
    }
}

/// The digit vector: positions the iterator holds in each set.
pub open spec fn valid_digits(sets: Seq<Seq<Seq<char>>>, d: Seq<int>) -> bool {
    &&& d.len() == sets.len()
    &&& forall|i: int| 0 <= i < d.len() ==> 0 <= #[trigger] d[i] < sets[i].len()
}

/// All digits from position `i` on sit at their maximum.
pub open spec fn suffix_at_max(sets: Seq<Seq<Seq<char>>>, d: Seq<int>, i: int) -> bool {
    forall|j: int| i <= j < sets.len() ==> #[trigger] d[j] == sets[j].len() - 1
}

/// The combinations not yet enumerated from position `i` on: the current
/// value paired with what remains below, then all later values paired with
/// everything below.
pub open spec fn remaining_from(sets: Seq<Seq<Seq<char>>>, d: Seq<int>, i: int) -> Seq<Seq<char>>
    decreases sets.len() - i,
{
    if i < 0 || i >= sets.len() {
        seq![Seq::<char>::empty()]
    } else {
        prefix_each(sets[i][d[i]], remaining_from(sets, d, i + 1)) + prefix_all(
            sets[i].skip(d[i] + 1),
            combos_from(sets, i + 1),
        )
    }
}

/// The current combination: the digit-selected value of each set, in order.
pub open spec fn concat_from(sets: Seq<Seq<Seq<char>>>, d: Seq<int>, i: int) -> Seq<char>
    decreases sets.len() - i,
{
    if i < 0 || i >= sets.len() {
        Seq::empty()
    } else {
        sets[i][d[i]] + concat_from(sets, d, i + 1)
    }
}

/// The mixed-radix index of a digit vector: the position its combination
/// occupies in the enumeration, counting from position `i`.
pub open spec fn combo_index(sets: Seq<Seq<Seq<char>>>, d: Seq<int>, i: int) -> int
    decreases sets.len() - i,
{
    if i < 0 || i >= sets.len() {
        0
    } else {
        d[i] * prod_from(sets, i + 1) + combo_index(sets, d, i + 1)
    }
}

proof fn lemma_combo_index_range(sets: Seq<Seq<Seq<char>>>, d: Seq<int>, i: int)
    requires
        valid_digits(sets, d),
        0 <= i,
    ensures
        0 <= combo_index(sets, d, i) < prod_from(sets, i),
    decreases sets.len() - i,
{
    if i >= sets.len() {
    } else {
        lemma_combo_index_range(sets, d, i + 1);
        assert forall|j: int| i + 1 <= j < sets.len() implies (#[trigger] sets[j]).len() > 0 by {
            assert(0 <= d[j] < sets[j].len());
        }
        lemma_prod_bounds(sets, i + 1);
        let p = prod_from(sets, i + 1);
        let r = combo_index(sets, d, i + 1);
        let dd = d[i];
        let ln = sets[i].len() as int;
        assert(0 <= dd * p + r && dd * p + r < ln * p) by (nonlinear_arith)
            requires
                0 <= dd,
                dd < ln,
                0 <= r,
                r < p,
                p > 0,
        ;
        assert(prod_from(sets, i) == ln * p);
    }
}

proof fn lemma_prefix_all_index(vals: Seq<Seq<char>>, sfx: Seq<Seq<char>>, a: int, r: int)
    requires
        0 <= a < vals.len(),
        0 <= r < sfx.len(),
    ensures
        0 <= a * sfx.len() + r < prefix_all(vals, sfx).len(),
        prefix_all(vals, sfx)[a * sfx.len() + r] == vals[a] + sfx[r],
    decreases vals.len(),
{
    lemma_prefix_all_len(vals, sfx);
    let m = sfx.len() as int;
    assert(0 <= a * m + r && a * m + r < vals.len() * m) by (nonlinear_arith)
        requires
            0 <= a,
            a < vals.len(),
            0 <= r,
            r < m,
    ;
    if a == 0 {
        assert(prefix_all(vals, sfx)[r] == prefix_each(vals[0], sfx)[r]);
        assert(prefix_each(vals[0], sfx)[r] == vals[0] + sfx[r]);
    } else {
        lemma_prefix_all_index(vals.drop_first(), sfx, a - 1, r);
        assert(a * m + r - m == (a - 1) * m + r) by (nonlinear_arith);
        assert(prefix_each(vals[0], sfx).len() == m);
        assert(prefix_all(vals, sfx)[a * m + r] == prefix_all(vals.drop_first(), sfx)[(a - 1) * m
            + r]);
        assert(vals.drop_first()[a - 1] == vals[a]);
    }
}

proof fn lemma_combo_at_index(sets: Seq<Seq<Seq<char>>>, d: Seq<int>, i: int)
    requires
        valid_digits(sets, d),
        0 <= i,
    ensures
        0 <= combo_index(sets, d, i) < combos_from(sets, i).len(),
        combos_from(sets, i)[combo_index(sets, d, i)] == concat_from(sets, d, i),
    decreases sets.len() - i,
{
    lemma_combos_len(sets, i);
    lemma_combo_index_range(sets, d, i);
    if i >= sets.len() {
        assert(combos_from(sets, i)[0] == Seq::<char>::empty());
    } else {
        lemma_combo_at_index(sets, d, i + 1);
        lemma_combos_len(sets, i + 1);
        let c = combos_from(sets, i + 1);
        let r = combo_index(sets, d, i + 1);
        lemma_prefix_all_index(sets[i], c, d[i], r);
        assert(combo_index(sets, d, i) == d[i] * c.len() + r);
        assert(combos_from(sets, i)[combo_index(sets, d, i)] == sets[i][d[i]] + c[r]);
    }
}

proof fn lemma_combo_index_injective(sets: Seq<Seq<Seq<char>>>, d1: Seq<int>, d2: Seq<int>, i: int)
    requires
        valid_digits(sets, d1),
        valid_digits(sets, d2),
        0 <= i,
        combo_index(sets, d1, i) == combo_index(sets, d2, i),
    ensures
        forall|j: int| i <= j < sets.len() ==> d1[j] == d2[j],
    decreases sets.len() - i,
{
    if i < sets.len() {
        lemma_combo_index_range(sets, d1, i + 1);
        lemma_combo_index_range(sets, d2, i + 1);
        assert forall|j: int| i + 1 <= j < sets.len() implies (#[trigger] sets[j]).len() > 0 by {
            assert(0 <= d1[j] < sets[j].len());
        }
        lemma_prod_bounds(sets, i + 1);
        let p = prod_from(sets, i + 1);
        let r1 = combo_index(sets, d1, i + 1);
        let r2 = combo_index(sets, d2, i + 1);
        let a = d1[i];
        let b = d2[i];
        assert(a == b && r1 == r2) by (nonlinear_arith)
            requires
                a * p + r1 == b * p + r2,
                0 <= r1 < p,
                0 <= r2 < p,
        ;
        lemma_combo_index_injective(sets, d1, d2, i + 1);
        assert forall|j: int| i <= j < sets.len() implies d1[j] == d2[j] by {
            if j == i {
            }
        }
    }
}

/// Cartesian exactness: every combination — every choice of one member per
/// set, as a digit vector — occupies exactly one index of the enumeration,
/// its mixed-radix position: it is there, and no other combination shares
/// its index.  With [`lemma_expansion_count`] the enumeration is therefore a
/// bijection between combinations and positions: each appears exactly once,
/// counting tuple multiplicity.
pub proof fn lemma_expansion_exactly_once(sets: Seq<Seq<Seq<char>>>, d: Seq<int>)
    requires
        sets.len() > 0,
        valid_digits(sets, d),
    ensures
        0 <= combo_index(sets, d, 0) < spec_expansion(sets).len(),
        spec_expansion(sets)[combo_index(sets, d, 0)] == concat_from(sets, d, 0),
        forall|d2: Seq<int>|
            valid_digits(sets, d2) && combo_index(sets, d2, 0) == combo_index(sets, d, 0)
                ==> d2 =~= d,
{
    lemma_combo_at_index(sets, d, 0);
    assert forall|d2: Seq<int>|
        valid_digits(sets, d2) && combo_index(sets, d2, 0) == combo_index(sets, d, 0) implies d2
        =~= d by {
        lemma_combo_index_injective(sets, d, d2, 0);
    }
}

/// The digit vector after one increment that carries up to position `j`:
/// digit `j` steps forward and everything to its right wraps to zero.
pub open spec fn bump(d: Seq<int>, j: int) -> Seq<int> {
    Seq::new(
        d.len(),
        |k: int|
            if k < j {
                d[k]
            } else if k == j {
                d[j] + 1
            } else {
                0
            },
    )
}

/// What remains is never empty while the digits are valid, and it starts
/// with the current combination.
pub proof fn lemma_remaining_first(sets: Seq<Seq<Seq<char>>>, d: Seq<int>, i: int)
    requires
        valid_digits(sets, d),
    ensures
        remaining_from(sets, d, i).len() > 0,
        remaining_from(sets, d, i)[0] == concat_from(sets, d, i),
    decreases sets.len() - i,
{
    if 0 <= i < sets.len() {
        lemma_remaining_first(sets, d, i + 1);
        let pe = prefix_each(sets[i][d[i]], remaining_from(sets, d, i + 1));
        assert(pe.len() > 0);
        assert(pe[0] == sets[i][d[i]] + remaining_from(sets, d, i + 1)[0]);
        assert((pe + prefix_all(sets[i].skip(d[i] + 1), combos_from(sets, i + 1)))[0] == pe[0]);
    }
}

/// With every digit from `i` on at zero, everything is still remaining.
pub proof fn lemma_remaining_zero(sets: Seq<Seq<Seq<char>>>, d: Seq<int>, i: int)
    requires
        valid_digits(sets, d),
        forall|j: int| i <= j < d.len() ==> #[trigger] d[j] == 0,
    ensures
        remaining_from(sets, d, i) == combos_from(sets, i),
    decreases sets.len() - i,
{
    if 0 <= i < sets.len() {
        lemma_remaining_zero(sets, d, i + 1);
        assert(sets[i].skip(1) =~= sets[i].drop_first());
        assert(remaining_from(sets, d, i) == prefix_each(sets[i][0], combos_from(sets, i + 1))
            + prefix_all(sets[i].drop_first(), combos_from(sets, i + 1)));
        assert(combos_from(sets, i) == prefix_each(sets[i][0], combos_from(sets, i + 1))
            + prefix_all(sets[i].drop_first(), combos_from(sets, i + 1)));
    }
}

/// Unfolding `prefix_all` of a suffix of the values.
proof fn lemma_prefix_all_skip(vals: Seq<Seq<char>>, sfx: Seq<Seq<char>>, p: int)
    requires
        0 <= p < vals.len(),
    ensures
        prefix_all(vals.skip(p), sfx) == prefix_each(vals[p], sfx) + prefix_all(
            vals.skip(p + 1),
            sfx,
        ),
{
    assert(vals.skip(p).len() > 0);
    assert(vals.skip(p)[0] == vals[p]);
    assert(vals.skip(p).drop_first() =~= vals.skip(p + 1));
}

/// With every digit from `i` on at its maximum, only the current combination
/// remains.
pub proof fn lemma_remaining_last(sets: Seq<Seq<Seq<char>>>, d: Seq<int>, i: int)
    requires
        valid_digits(sets, d),
        suffix_at_max(sets, d, i),
    ensures
        remaining_from(sets, d, i) =~= seq![concat_from(sets, d, i)],
    decreases sets.len() - i,
{
    if 0 <= i < sets.len() {
        lemma_remaining_last(sets, d, i + 1);
        assert(sets[i].skip(d[i] + 1) =~= Seq::<Seq<char>>::empty());
        let pe = prefix_each(sets[i][d[i]], remaining_from(sets, d, i + 1));
        assert(pe.len() == 1);
        assert(pe[0] == sets[i][d[i]] + concat_from(sets, d, i + 1));
        assert(remaining_from(sets, d, i) =~= pe);
    }
}

proof fn lemma_prefix_each_drop(v: Seq<char>, sfx: Seq<Seq<char>>)
    requires
        sfx.len() > 0,
    ensures
        prefix_each(v, sfx).drop_first() =~= prefix_each(v, sfx.drop_first()),
{
    let a = prefix_each(v, sfx).drop_first();
    let b = prefix_each(v, sfx.drop_first());
    assert forall|k: int| 0 <= k < a.len() implies a[k] == b[k] by {
        assert(a[k] == prefix_each(v, sfx)[k + 1]);
        assert(prefix_each(v, sfx)[k + 1] == v + sfx[k + 1]);
        assert(b[k] == v + sfx.drop_first()[k]);
        assert(sfx.drop_first()[k] == sfx[k + 1]);
    }
}

/// Consuming the head of the remainder is one digit increment: digit `j`
/// steps forward, everything right of it wraps.
pub proof fn lemma_remaining_step(sets: Seq<Seq<Seq<char>>>, d: Seq<int>, i: int, j: int)
    requires
        valid_digits(sets, d),
        0 <= i <= j < sets.len(),
        d[j] + 1 < sets[j].len(),
        suffix_at_max(sets, d, j + 1),
    ensures
        remaining_from(sets, d, i).drop_first() =~= remaining_from(sets, bump(d, j), i),
    decreases j - i,
{
    let bd = bump(d, j);
    if i < j {
        lemma_remaining_step(sets, d, i + 1, j);
        lemma_remaining_first(sets, d, i + 1);
        let pe = prefix_each(sets[i][d[i]], remaining_from(sets, d, i + 1));
        let pa = prefix_all(sets[i].skip(d[i] + 1), combos_from(sets, i + 1));
        assert(pe.len() > 0);
        assert((pe + pa).drop_first() =~= pe.drop_first() + pa);
        lemma_prefix_each_drop(sets[i][d[i]], remaining_from(sets, d, i + 1));
        assert(pe.drop_first() =~= prefix_each(
            sets[i][d[i]],
            remaining_from(sets, d, i + 1).drop_first(),
        ));
        assert(bd[i] == d[i]);
        assert(remaining_from(sets, bd, i) == prefix_each(
            sets[i][bd[i]],
            remaining_from(sets, bd, i + 1),
        ) + prefix_all(sets[i].skip(bd[i] + 1), combos_from(sets, i + 1)));
        assert(remaining_from(sets, d, i).drop_first() =~= remaining_from(sets, bd, i));
    } else {
        // Level j itself: the tail below is exhausted, the next value of set
        // j starts afresh.
        lemma_remaining_last(sets, d, j + 1);
        let pe = prefix_each(sets[j][d[j]], remaining_from(sets, d, j + 1));
        let pa = prefix_all(sets[j].skip(d[j] + 1), combos_from(sets, j + 1));
        assert(pe.len() == 1);
        assert((pe + pa).drop_first() =~= pa);
        lemma_prefix_all_skip(sets[j], combos_from(sets, j + 1), d[j] + 1);
        assert(pa == prefix_each(sets[j][d[j] + 1], combos_from(sets, j + 1)) + prefix_all(
            sets[j].skip(d[j] + 2),
            combos_from(sets, j + 1),
        ));
        assert forall|k: int| j + 1 <= k < bd.len() implies #[trigger] bd[k] == 0 by {}
        assert(valid_digits(sets, bd)) by {
            assert forall|k: int| 0 <= k < bd.len() implies 0 <= #[trigger] bd[k]
                < sets[k].len() by {
                if k < j {
                } else if k == j {
                } else {
                    assert(d[k] == sets[k].len() - 1);
                    assert(sets[k].len() > 0);
                }
            }
        }
        lemma_remaining_zero(sets, bd, j + 1);
        assert(bd[j] == d[j] + 1);
        assert(remaining_from(sets, bd, j) == prefix_each(
            sets[j][d[j] + 1],
            combos_from(sets, j + 1),
        ) + prefix_all(sets[j].skip(d[j] + 2), combos_from(sets, j + 1)));
        assert(remaining_from(sets, d, j).drop_first() =~= remaining_from(sets, bd, j));
    }
}

/// One set's cursor: a position in the sorted members, wrapping to the start
/// when it passes the end.
pub struct SetIterReset {
    values: StringSet,
    pos: usize,
}

impl SetIterReset {
    /// The members iterated over.
    pub closed spec fn set(&self) -> Seq<Seq<char>> {
        self.values@
    }

    /// The current position.
    pub closed spec fn at(&self) -> int {
        self.pos as int
    }

    /// The position stays inside the members; an empty set pins it to zero.
    pub open spec fn wf(&self) -> bool {
        if self.set().len() == 0 {
            self.at() == 0
        } else {
            0 <= self.at() < self.set().len()
        }
    }

    /// A cursor at the start of `set`.
    pub fn new(set: &StringSet) -> (r: SetIterReset)
        ensures
            r.set() == set@,
            r.at() == 0,
            r.wf(),
    {
        SetIterReset { values: set.duplicate(), pos: 0 }
    }

    /// Moves the cursor back to the start.
    pub fn reset(&mut self)
        ensures
            final(self).set() == old(self).set(),
            final(self).at() == 0,
            final(self).wf(),
    {
        self.pos = 0;
    }

    fn size(&self) -> (n: usize)
        ensures
            n == self.set().len(),
    {
        self.values.len()
    }

    fn current(&self) -> (r: &String)
        requires
            0 <= self.at() < self.set().len(),
        ensures
            r@ == self.set()[self.at()],
    {
        self.values.get(self.pos)
    }

    fn advance(&mut self) -> (wrapped: bool)
        requires
            0 <= old(self).at() < old(self).set().len(),
        ensures
            final(self).set() == old(self).set(),
            wrapped == (old(self).at() + 1 == old(self).set().len()),
            !wrapped ==> final(self).at() == old(self).at() + 1,
            wrapped ==> final(self).at() == 0,
            final(self).wf(),
    {
        let len = self.values.len();
        self.pos = self.pos + 1;
        if self.pos == len {
            self.pos = 0;
            true
        } else {
            false
        }
    }
}

/// The sets behind a vector of cursors.
pub open spec fn iters_sets(v: Seq<SetIterReset>) -> Seq<Seq<Seq<char>>> {
    v.map_values(|s: SetIterReset| s.set())
}

/// The positions of a vector of cursors.
pub open spec fn iters_digits(v: Seq<SetIterReset>) -> Seq<int> {
    v.map_values(|s: SetIterReset| s.at())
}

/// Enumerates the Cartesian product of the sets, producing each combination
/// as one concatenated string, in the order [`combos_from`] lists them.
pub struct VecStringIterator {
    sets: Vec<SetIterReset>,
    is_final: bool,
}

impl VecStringIterator {
    /// The sets whose product is enumerated.
    pub closed spec fn sets_model(&self) -> Seq<Seq<Seq<char>>> {
        iters_sets(self.sets@)
    }

    /// The current digit vector.
    pub closed spec fn digits(&self) -> Seq<int> {
        iters_digits(self.sets@)
    }

    /// Every cursor stays in bounds.
    pub closed spec fn wf(&self) -> bool {
        forall|i: int| 0 <= i < self.sets@.len() ==> (#[trigger] self.sets@[i]).wf()
    }

    /// The combinations not yet returned.
    pub closed spec fn remaining(&self) -> Seq<Seq<char>> {
        if self.is_final || self.sets@.len() == 0 || has_empty_set(self.sets_model()) {
            Seq::empty()
        } else {
            remaining_from(self.sets_model(), self.digits(), 0)
        }
    }

    /// A fresh enumeration over `vec`, with everything remaining.
    pub fn new(vec: &Vec<StringSet>) -> (r: VecStringIterator)
        ensures
            r.wf(),
            r.sets_model() == sets_view(vec@),
            r.remaining() == spec_expansion(sets_view(vec@)),
    {
        let n = vec.len();
        let mut sets: Vec<SetIterReset> = Vec::new();
        let mut i: usize = 0;
        proof {
            assert(iters_sets(sets@) =~= sets_view(vec@).subrange(0, 0));
        }
        while i < n
            invariant
                i <= n,
                n == vec@.len(),
                sets@.len() == i,
                iters_sets(sets@) =~= sets_view(vec@).subrange(0, i as int),
                forall|j: int|
                    0 <= j < i ==> (#[trigger] sets@[j]).wf() && sets@[j].at() == 0,
            decreases n - i,
        {
            let ghost pre = sets@;
            sets.push(SetIterReset::new(&vec[i]));
            proof {
                assert forall|j: int| 0 <= j < i + 1 implies iters_sets(sets@)[j] == sets_view(
                    vec@,
                ).subrange(0, i + 1)[j] by {
                    if j < i {
                        assert(sets@[j] == pre[j]);
                        assert(iters_sets(sets@)[j] == iters_sets(pre)[j]);
                    } else {
                        assert(iters_sets(sets@)[j] == sets@[j].set());
                    }
                }
                assert(iters_sets(sets@) =~= sets_view(vec@).subrange(0, i + 1));
            }
            i = i + 1;
        }
        let r = VecStringIterator { sets, is_final: false };
        proof {
            assert(sets_view(vec@).subrange(0, n as int) =~= sets_view(vec@));
            let sm = r.sets_model();
            assert(sm == sets_view(vec@));
            if n == 0 {
                assert(r.remaining() =~= spec_expansion(sets_view(vec@)));
            } else if has_empty_set(sm) {
                lemma_combos_len(sm, 0);
                lemma_prod_bounds(sm, 0);
                let j = choose|j: int| 0 <= j < sm.len() && (#[trigger] sm[j]).len() == 0;
                assert(prod_from(sm, 0) == 0);
                assert(combos_from(sm, 0).len() == 0);
                assert(r.remaining() =~= spec_expansion(sets_view(vec@)));
            } else {
                assert forall|j: int| 0 <= j < r.digits().len() implies #[trigger] r.digits()[j]
                    == 0 by {
                    assert(r.digits()[j] == r.sets@[j].at());
                }
                assert(valid_digits(sm, r.digits())) by {
                    assert forall|j: int| 0 <= j < r.digits().len() implies 0 <= #[trigger] r.digits()[j]
                        < sm[j].len() by {
                        assert(sm[j].len() != 0);
                    }
                }
                lemma_remaining_zero(sm, r.digits(), 0);
            }
        }
        r
    }

    /// Returns the next combination, or nothing once every combination has
    /// been returned or some set is empty.
    pub fn next(&mut self) -> (r: Option<String>)
        requires
            old(self).wf(),
        ensures
            final(self).wf(),
            final(self).sets_model() == old(self).sets_model(),
            old(self).remaining().len() == 0 ==> r is None && final(self).remaining() == old(
                self,
            ).remaining(),
            old(self).remaining().len() > 0 ==> r is Some && r->0@ == old(self).remaining()[0]
                && final(self).remaining() == old(self).remaining().drop_first(),
    {
        if self.is_final {
            return None;
        }
        let n = self.sets.len();
        if n == 0 {
            self.is_final = true;
            proof {
                assert(self.sets_model() =~= old(self).sets_model());
            }
            return None;
        }
        let ghost sm = self.sets_model();
        let ghost dg = self.digits();
        // First pass: assemble the current combination, left to right.
        let mut out = String::new();
        let mut i: usize = 0;
        proof {
            assert(out@ + concat_from(sm, dg, 0) =~= concat_from(sm, dg, 0));
        }
        while i < n
            invariant
                i <= n,
                n == self.sets@.len(),
                self.sets@ == old(self).sets@,
                !self.is_final,
                sm == self.sets_model(),
                dg == self.digits(),
                old(self).wf(),
                forall|j: int| 0 <= j < i ==> (#[trigger] sm[j]).len() > 0,
                out@ + concat_from(sm, dg, i as int) == concat_from(sm, dg, 0),
            decreases n - i,
        {
            proof {
                assert(self.sets@[i as int].wf());
                assert(sm[i as int] == self.sets@[i as int].set());
                assert(dg[i as int] == self.sets@[i as int].at());
            }
            if self.sets[i].size() == 0 {
                proof {
                    assert(sm[i as int].len() == 0);
                    assert(has_empty_set(sm));
                }
                return None;
            }
            let cur = self.sets[i].current();
            let ghost pre_out = out@;
            out.append(cur.as_str());
            proof {
                assert(concat_from(sm, dg, i as int) == sm[i as int][dg[i as int]] + concat_from(
                    sm,
                    dg,
                    i + 1,
                ));
                assert(out@ + concat_from(sm, dg, i + 1) =~= pre_out + concat_from(
                    sm,
                    dg,
                    i as int,
                ));
            }
            i = i + 1;
        }
        proof {
            assert(concat_from(sm, dg, n as int) =~= Seq::<char>::empty());
            assert(out@ =~= concat_from(sm, dg, 0));
            assert(!has_empty_set(sm)) by {
                if has_empty_set(sm) {
                    let j = choose|j: int| 0 <= j < sm.len() && (#[trigger] sm[j]).len() == 0;
                    assert(false);
                }
            }
            assert(valid_digits(sm, dg)) by {
                assert forall|j: int| 0 <= j < dg.len() implies 0 <= #[trigger] dg[j]
                    < sm[j].len() by {
                    assert(self.sets@[j].wf());
                    assert(sm[j] == self.sets@[j].set());
                    assert(dg[j] == self.sets@[j].at());
                }
            }
            lemma_remaining_first(sm, dg, 0);
            assert(old(self).remaining()[0] == out@);
        }
        // Second pass: step the digit vector, carrying from the right.
        let mut j: usize = n;
        let mut carry = true;
        while carry && j > 0
            invariant
                j <= n,
                n == self.sets@.len(),
                !self.is_final,
                sm == self.sets_model(),
                valid_digits(sm, dg),
                forall|k: int| 0 <= k < n ==> (#[trigger] self.sets@[k]).wf(),
                forall|k: int| 0 <= k < n ==> (#[trigger] sm[k]).len() > 0,
                carry ==> suffix_at_max(sm, dg, j as int),
                carry ==> forall|k: int|
                    0 <= k < n ==> #[trigger] self.sets@[k].at() == (if k < j {
                        dg[k]
                    } else {
                        0
                    }),
                !carry ==> j < n && dg[j as int] + 1 < sm[j as int].len() && suffix_at_max(
                    sm,
                    dg,
                    j + 1,
                ) && iters_digits(self.sets@) =~= bump(dg, j as int),
            decreases j,
        {
            j = j - 1;
            let ghost pre = self.sets@;
            let mut it = self.sets.remove(j);
            proof {
                assert(it == pre[j as int]);
                assert(it.at() == dg[j as int]);
                assert(it.set() == sm[j as int]);
            }
            let wrapped = it.advance();
            self.sets.insert(j, it);
            proof {
                assert forall|k: int| 0 <= k < n implies #[trigger] self.sets@[k] == (if k
                    == j {
                    self.sets@[j as int]
                } else {
                    pre[k]
                }) by {
                    if k < j {
                        assert(self.sets@[k] == pre[k]);
                    } else if k > j {
                        assert(self.sets@[k] == pre[k]);
                    }
                }
                assert(sm =~= self.sets_model()) by {
                    assert forall|k: int| 0 <= k < n implies iters_sets(self.sets@)[k]
                        == sm[k] by {
                        if k != j {
                            assert(self.sets@[k] == pre[k]);
                        }
                    }
                }
            }
            if wrapped {
                proof {
                    assert(dg[j as int] == sm[j as int].len() - 1);
                    assert(suffix_at_max(sm, dg, j as int)) by {
                        assert forall|k: int| j <= k < sm.len() implies #[trigger] dg[k]
                            == sm[k].len() - 1 by {
                            if k > j {
                                assert(dg[k] == sm[k].len() - 1);
                            }
                        }
                    }
                }
            } else {
                carry = false;
                proof {
                    assert(iters_digits(self.sets@) =~= bump(dg, j as int)) by {
                        assert forall|k: int| 0 <= k < n implies iters_digits(self.sets@)[k]
                            == bump(dg, j as int)[k] by {
                            assert(iters_digits(self.sets@)[k] == self.sets@[k].at());
                            if k != j {
                                assert(self.sets@[k] == pre[k]);
                            }
                        }
                    }
                }
            }
        }
        if carry {
            self.is_final = true;
            proof {
                lemma_remaining_last(sm, dg, 0);
                assert(old(self).remaining().drop_first() =~= Seq::<Seq<char>>::empty());
            }
        } else {
            proof {
                assert(suffix_at_max(sm, dg, j + 1));
                lemma_remaining_step(sm, dg, 0, j as int);
                assert(self.remaining() == remaining_from(sm, bump(dg, j as int), 0));
            }
        }
        Some(out)
    }
}

} // verus!
