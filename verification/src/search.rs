//! Depth-first search for a set of candidates that adds up to a target.

use vstd::prelude::*;

verus! {

/// The sum of the values of `s`.
pub open spec fn sum(s: Seq<usize>) -> nat
    decreases s.len(),
{
    if s.len() == 0 {
        0
    } else {
        sum(s.drop_last()) + s.last() as nat
    }
}

/// Every value of `s` is smaller than the ones after it.
pub open spec fn ascending(s: Seq<usize>) -> bool {
    forall|i: int, j: int| 0 <= i < j < s.len() ==> s[i] < s[j]
}

/// `p` picks from the candidates `c`: its values are candidates, in ascending order.
pub open spec fn is_pick(c: Seq<usize>, p: Seq<usize>) -> bool {
    &&& ascending(p)
    &&& forall|k: int| 0 <= k < p.len() ==> c.contains(#[trigger] p[k])
}

/// `p` is a non-empty pick from `c` whose values add up to `target`.
pub open spec fn solves(c: Seq<usize>, target: int, p: Seq<usize>) -> bool {
    &&& p.len() > 0
    &&& is_pick(c, p)
    &&& sum(p) == target
}

/// Some non-empty pick from `c` adds up to `target`.
pub open spec fn solvable(c: Seq<usize>, target: int) -> bool {
    exists|p: Seq<usize>| solves(c, target, p)
}

/// The order in which the search meets the picks: `a` comes no later than `b`
/// when `a` is a prefix of `b`, or holds the smaller value at the first place
/// where the two differ.
pub open spec fn precedes(a: Seq<usize>, b: Seq<usize>) -> bool
    decreases a.len(),
{
    if a.len() == 0 {
        true
    } else if b.len() == 0 {
        false
    } else if a[0] != b[0] {
        a[0] < b[0]
    } else {
        precedes(a.drop_first(), b.drop_first())
    }
}

/// `p` adds up to `target`, and the search meets it before any other pick that does.
pub open spec fn is_first(c: Seq<usize>, target: int, p: Seq<usize>) -> bool {
    &&& solves(c, target, p)
    &&& forall|o: Seq<usize>| #[trigger] solves(c, target, o) ==> precedes(p, o)
}

/// The pick that the search returns for `target`, where there is one.
pub open spec fn first_pick(c: Seq<usize>, target: int) -> Seq<usize> {
    choose|p: Seq<usize>| is_first(c, target, p)
}

/// The values chosen so far, together with their sum.
pub struct VecTotal {
    /// The values, in the order in which they were chosen.
    pub values: Vec<usize>,
    /// Their sum.
    pub total: usize,
}

impl VecTotal {
    /// The running total is the sum of the chosen values.
    pub open spec fn wf(&self) -> bool {
        self.total == sum(self.values@)
    }

    /// An accumulator with nothing chosen.
    pub fn new() -> (acc: VecTotal)
        ensures
            acc.wf(),
            acc.values@ == Seq::<usize>::empty(),
            acc.total == 0,
    {
        VecTotal { values: Vec::new(), total: 0 }
    }

    /// Chooses `val`.
    pub fn push(&mut self, val: usize)
        requires
            old(self).wf(),
            old(self).total + val <= usize::MAX,
        ensures
            final(self).wf(),
            final(self).values@ == old(self).values@.push(val),
            final(self).total == old(self).total + val,
    {
        self.total += val;
        self.values.push(val);
        proof {
            assert(self.values@.drop_last() == old(self).values@);
        }
    }

    /// Takes back the value chosen last and returns it; 0 when nothing is chosen.
    pub fn pop(&mut self) -> (val: usize)
        requires
            old(self).wf(),
        ensures
            final(self).wf(),
            old(self).values@.len() > 0 ==> {
                &&& val == old(self).values@.last()
                &&& final(self).values@ == old(self).values@.drop_last()
                &&& final(self).total == old(self).total - val
            },
            old(self).values@.len() == 0 ==> {
                &&& val == 0
                &&& final(self).values@ == old(self).values@
                &&& final(self).total == old(self).total
            },
    {
        match self.values.pop() {
            Some(val) => {
                self.total -= val;
                val
            },
            None => 0,
        }
    }
}

/// Searches `slice` depth first for values that add up to what `target` exceeds
/// the running total by. Each candidate in turn is chosen, and the search goes
/// on among the candidates after it; a candidate that overshoots ends its
/// branch. On a hit the values found are left on `sumvec`, behind those that
/// were there; otherwise `sumvec` is as it was. A running total above
/// `target` is no hit.
pub fn check_slice(sumvec: &mut VecTotal, slice: &[usize], target: usize) -> (hit: bool)
    requires
        old(sumvec).wf(),
        ascending(slice@),
    ensures
        final(sumvec).wf(),
        hit == solvable(slice@, target - old(sumvec).total),
        hit ==> {
            &&& is_first(
                slice@,
                target - old(sumvec).total,
                first_pick(slice@, target - old(sumvec).total),
            )
            &&& final(sumvec).values@ == old(sumvec).values@ + first_pick(
                slice@,
                target - old(sumvec).total,
            )
        },
        !hit ==> final(sumvec).values@ == old(sumvec).values@,
    decreases slice.len(),
{
    if sumvec.total > target {
        return false;
    }
    let ghost kept = sumvec.values@;
    let ghost need: int = target - sumvec.total;
    let n = slice.len();
    let mut ii: usize = 0;
    assert(slice@.skip(0) == slice@);
    while ii < n
        invariant
            ii <= n,
            n == slice@.len(),
            ascending(slice@),
            sumvec.wf(),
            sumvec.values@ == kept,
            kept == old(sumvec).values@,
            sumvec.total <= target,
            need == target - sumvec.total,
            need == target - old(sumvec).total,
            forall|o: Seq<usize>| #[trigger]
                solves(slice@, need, o) ==> solves(slice@.skip(ii as int), need, o),
        decreases n - ii,
    {
        let val = slice[ii];
        if val > target - sumvec.total {
            proof {
                lemma_overshoot(slice@, ii as int, need);
            }
            return false;
        }
        let exact = val == target - sumvec.total;
        sumvec.push(val);
        if exact {
            proof {
                lemma_exact(slice@, ii as int, need);
                lemma_first_pick(slice@, need, seq![val]);
                assert(sumvec.values@ == kept + seq![val]);
            }
            return true;
        }
        let rest = &slice[ii + 1..n];
        if check_slice(sumvec, rest, target) {
            proof {
                let found = first_pick(rest@, need - val);
                lemma_found_below(slice@, ii as int, need, found);
                lemma_first_pick(slice@, need, seq![val] + found);
                assert(sumvec.values@ == kept + (seq![val] + found));
            }
            return true;
        }
        sumvec.pop();
        proof {
            assert(sumvec.values@ == kept);
            lemma_nothing_below(slice@, ii as int, need);
        }
        ii += 1;
    }
    proof {
        assert forall|o: Seq<usize>| !solves(slice@, need, o) by {
            if solves(slice@, need, o) {
                assert(slice@.skip(n as int).contains(o[0]));
            }
        }
    }
    false
}

/// A value of `c` from place `i` on is `c[i]` or larger, and is found after
/// place `i` if it is larger.
proof fn lemma_skip_contains(c: Seq<usize>, i: int, x: usize)
    requires
        ascending(c),
        0 <= i < c.len(),
        c.skip(i).contains(x),
    ensures
        c.contains(x),
        c[i] <= x,
        c[i] < x ==> c.skip(i + 1).contains(x),
{
    let j = choose|j: int| 0 <= j < c.skip(i).len() && c.skip(i)[j] == x;
    assert(c[i + j] == x);
    if c[i] < x {
        assert(c.skip(i + 1)[j - 1] == x);
    }
}

/// What a pick from place `i` on that adds up to `need` looks like: it starts
/// with `c[i]` and goes on with a pick from the later places, or it is itself
/// a pick from the later places.
proof fn lemma_split_pick(c: Seq<usize>, i: int, need: int, o: Seq<usize>)
    requires
        ascending(c),
        0 <= i < c.len(),
        solves(c.skip(i), need, o),
    ensures
        c[i] <= o[0],
        c[i] <= need,
        c[i] < o[0] ==> solves(c.skip(i + 1), need, o),
        c[i] == o[0] && o.len() == 1 ==> need == c[i],
        c[i] == o[0] && o.len() > 1 ==> c[i] < need && solves(
            c.skip(i + 1),
            need - c[i],
            o.drop_first(),
        ),
{
    lemma_skip_contains(c, i, o[0]);
    lemma_sum_bounds_each(o, 0);
    lemma_sum_first(o);
    if c[i] < o[0] {
        assert forall|k: int| 0 <= k < o.len() implies c.skip(i + 1).contains(
            #[trigger] o[k],
        ) by {
            lemma_skip_contains(c, i, o[k]);
        }
    } else if o.len() == 1 {
        assert(o.drop_first().len() == 0);
        assert(sum(o.drop_first()) == 0);
    } else {
        let tail = o.drop_first();
        assert forall|k: int| 0 <= k < tail.len() implies c.skip(i + 1).contains(
            #[trigger] tail[k],
        ) by {
            assert(tail[k] == o[k + 1]);
            lemma_skip_contains(c, i, o[k + 1]);
        }
        lemma_sum_bounds_each(tail, 0);
        assert(tail[0] == o[1]);
    }
}

/// Once a candidate overshoots, nothing from its place on adds up to `need`.
proof fn lemma_overshoot(c: Seq<usize>, i: int, need: int)
    requires
        ascending(c),
        0 <= i < c.len(),
        c[i] > need,
        forall|o: Seq<usize>| #[trigger] solves(c, need, o) ==> solves(c.skip(i), need, o),
    ensures
        !solvable(c, need),
{
    assert forall|o: Seq<usize>| !solves(c, need, o) by {
        if solves(c, need, o) {
            lemma_split_pick(c, i, need, o);
        }
    }
}

/// A candidate that is exactly `need` is by itself the first pick.
proof fn lemma_exact(c: Seq<usize>, i: int, need: int)
    requires
        ascending(c),
        0 <= i < c.len(),
        c[i] == need,
        forall|o: Seq<usize>| #[trigger] solves(c, need, o) ==> solves(c.skip(i), need, o),
    ensures
        is_first(c, need, seq![c[i]]),
        solvable(c, need),
{
    let p = seq![c[i]];
    assert(p.drop_last().len() == 0);
    assert(sum(p.drop_last()) == 0);
    assert(c.contains(c[i]));
    assert(solves(c, need, p));
    assert forall|o: Seq<usize>| #[trigger] solves(c, need, o) implies precedes(p, o) by {
        lemma_split_pick(c, i, need, o);
        assert(p.drop_first().len() == 0);
        assert(precedes(p.drop_first(), o.drop_first()));
    }
}

/// A first pick among the later candidates, put behind `c[i]`, is the first pick.
proof fn lemma_found_below(c: Seq<usize>, i: int, need: int, found: Seq<usize>)
    requires
        ascending(c),
        0 <= i < c.len(),
        c[i] < need,
        forall|o: Seq<usize>| #[trigger] solves(c, need, o) ==> solves(c.skip(i), need, o),
        is_first(c.subrange(i + 1, c.len() as int), need - c[i], found),
    ensures
        is_first(c, need, seq![c[i]] + found),
        solvable(c, need),
{
    let below = c.skip(i + 1);
    assert(below == c.subrange(i + 1, c.len() as int));
    let p = seq![c[i]] + found;
    assert(p.drop_first() == found);
    assert(p[0] == c[i]);
    lemma_sum_first(p);
    assert(c.contains(c[i]));
    assert forall|k: int| 0 <= k < p.len() implies c.contains(#[trigger] p[k]) by {
        if k > 0 {
            assert(p[k] == found[k - 1]);
            assert(below.contains(found[k - 1]));
            lemma_skip_contains(c, i + 1, p[k]);
        }
    }
    assert forall|a: int, b: int| 0 <= a < b < p.len() implies p[a] < p[b] by {
        assert(p[b] == found[b - 1]);
        assert(below.contains(found[b - 1]));
        let j = choose|j: int| 0 <= j < below.len() && below[j] == found[b - 1];
        assert(c[i + 1 + j] == p[b]);
        if a > 0 {
            assert(p[a] == found[a - 1]);
        }
    }
    assert(solves(c, need, p));
    assert forall|o: Seq<usize>| #[trigger] solves(c, need, o) implies precedes(p, o) by {
        lemma_split_pick(c, i, need, o);
        if c[i] == o[0] {
            assert(solves(below, need - c[i], o.drop_first()));
        }
    }
}

/// Where nothing among the later candidates completes `c[i]`, every pick that
/// adds up to `need` comes from the later candidates alone.
proof fn lemma_nothing_below(c: Seq<usize>, i: int, need: int)
    requires
        ascending(c),
        0 <= i < c.len(),
        c[i] < need,
        forall|o: Seq<usize>| #[trigger] solves(c, need, o) ==> solves(c.skip(i), need, o),
        !solvable(c.subrange(i + 1, c.len() as int), need - c[i]),
    ensures
        forall|o: Seq<usize>| #[trigger] solves(c, need, o) ==> solves(c.skip(i + 1), need, o),
{
    assert(c.skip(i + 1) == c.subrange(i + 1, c.len() as int));
    assert forall|o: Seq<usize>| #[trigger] solves(c, need, o) implies solves(
        c.skip(i + 1),
        need,
        o,
    ) by {
        lemma_split_pick(c, i, need, o);
        if c[i] == o[0] {
            assert(solves(c.skip(i + 1), need - c[i], o.drop_first()));
        }
    }
}

/// Goes through the candidates from place `i` on as the search does, and
/// hands back the first pick that adds up to `need`, or nothing where there
/// is none.
proof fn lemma_search_from(c: Seq<usize>, i: int, need: int) -> (found: Option<Seq<usize>>)
    requires
        ascending(c),
        0 <= i <= c.len(),
        forall|o: Seq<usize>| #[trigger] solves(c, need, o) ==> solves(c.skip(i), need, o),
    ensures
        found matches Some(p) ==> is_first(c, need, p),
        found is None ==> !solvable(c, need),
    decreases c.len(), c.len() - i,
{
    if i == c.len() {
        assert forall|o: Seq<usize>| !solves(c, need, o) by {
            if solves(c, need, o) {
                assert(c.skip(i).contains(o[0]));
            }
        }
        None
    } else if c[i] > need {
        lemma_overshoot(c, i, need);
        None
    } else if c[i] == need {
        lemma_exact(c, i, need);
        Some(seq![c[i]])
    } else {
        let below = c.subrange(i + 1, c.len() as int);
        assert(below.skip(0) == below);
        match lemma_search_from(below, 0, need - c[i]) {
            Some(q) => {
                lemma_found_below(c, i, need, q);
                Some(seq![c[i]] + q)
            },
            None => {
                lemma_nothing_below(c, i, need);
                lemma_search_from(c, i + 1, need)
            },
        }
    }
}

/// Where some pick from ascending candidates adds up to the target, one of
/// them is the first: `first_pick` names a pick that adds up to the target
/// and comes before every other one that does.
pub proof fn lemma_first_pick_exists(c: Seq<usize>, target: int)
    requires
        ascending(c),
        solvable(c, target),
    ensures
        is_first(c, target, first_pick(c, target)),
{
    assert(c.skip(0) == c);
    let found = lemma_search_from(c, 0, target);
    assert(found is Some);
    assert(is_first(c, target, found->0));
}

/// A sum splits over a concatenation.
pub proof fn lemma_sum_concat(a: Seq<usize>, b: Seq<usize>)
    ensures
        sum(a + b) == sum(a) + sum(b),
    decreases b.len(),
{
    if b.len() == 0 {
        assert(a + b == a);
    } else {
        assert((a + b).drop_last() == a + b.drop_last());
        lemma_sum_concat(a, b.drop_last());
    }
}

/// A sum is its first value plus the sum of the rest.
pub proof fn lemma_sum_first(p: Seq<usize>)
    requires
        p.len() > 0,
    ensures
        sum(p) == p[0] + sum(p.drop_first()),
{
    let head = seq![p[0]];
    assert(sum(head) == p[0]) by {
        assert(head.drop_last().len() == 0);
        assert(sum(head.drop_last()) == 0);
    }
    assert(head + p.drop_first() == p);
    lemma_sum_concat(head, p.drop_first());
}

/// No value of a sequence is larger than its sum.
pub proof fn lemma_sum_bounds_each(p: Seq<usize>, k: int)
    requires
        0 <= k < p.len(),
    ensures
        p[k] <= sum(p),
    decreases p.len(),
{
    if k < p.len() - 1 {
        lemma_sum_bounds_each(p.drop_last(), k);
    }
}

/// Two picks that each come no later than the other are the same pick.
pub proof fn lemma_precedes_antisymmetric(a: Seq<usize>, b: Seq<usize>)
    requires
        precedes(a, b),
        precedes(b, a),
    ensures
        a == b,
    decreases a.len(),
{
    if a.len() == 0 || b.len() == 0 {
        assert(a.len() == 0 && b.len() == 0);
        assert(a =~= b);
    } else {
        lemma_precedes_antisymmetric(a.drop_first(), b.drop_first());
        assert(a =~= seq![a[0]] + a.drop_first());
        assert(b =~= seq![b[0]] + b.drop_first());
    }
}

/// At most one pick is the first to add up to `target`.
pub proof fn lemma_first_is_unique(c: Seq<usize>, target: int, p: Seq<usize>, q: Seq<usize>)
    requires
        is_first(c, target, p),
        is_first(c, target, q),
    ensures
        p == q,
{
    lemma_precedes_antisymmetric(p, q);
}

/// The pick that the search meets first is the one that `first_pick` names.
pub proof fn lemma_first_pick(c: Seq<usize>, target: int, p: Seq<usize>)
    requires
        is_first(c, target, p),
    ensures
        first_pick(c, target) == p,
{
    lemma_first_is_unique(c, target, p, first_pick(c, target));
}

} // verus!
