use vstd::prelude::*;

use crate::randomized::random_bool;
use crate::randomized::random_index;

verus! {

broadcast use vstd::seq_lib::group_seq_properties;

/// The magnitude of a literal.
pub open spec fn abs_lit(l: int) -> int {
    if l < 0 {
        -l
    } else {
        l
    }
}

/// A clause holds under an interpretation if some of its literals is set.
pub open spec fn clause_satisfied(c: Seq<i32>, inter: Seq<i32>) -> bool {
    exists|j: int| 0 <= j < c.len() && inter.contains(#[trigger] c[j])
}

/// The largest literal magnitude in one clause.
pub open spec fn max_abs_in_clause(c: Seq<i32>) -> int
    decreases c.len(),
{
    if c.len() == 0 {
        0
    } else {
        let m = max_abs_in_clause(c.drop_last());
        let a = abs_lit(c.last() as int);
        if a > m {
            a
        } else {
            m
        }
    }
}

/// The largest literal magnitude over a list of clauses.
pub open spec fn max_var(cs: Seq<Seq<i32>>) -> int
    decreases cs.len(),
{
    if cs.len() == 0 {
        0
    } else {
        let m = max_var(cs.drop_last());
        let a = max_abs_in_clause(cs.last());
        if a > m {
            a
        } else {
            m
        }
    }
}

fn inter_contains(s: &Vec<i32>, x: i32) -> (r: bool)
    ensures
        r == s@.contains(x),
{
    let mut i: usize = 0;
    while i < s.len()
        invariant
            i <= s@.len(),
            forall|j: int| 0 <= j < i ==> s@[j] != x,
        decreases s@.len() - i,
    {
        if s[i] == x {
            return true;
        }
        i = i + 1;
    }
    false
}

/// A propositional formula in conjunctive normal form: each clause is a
/// list of non-zero literals, a positive number for a variable and a
/// negative one for its negation.
#[derive(Debug)]
pub struct CNF {
    pub clauses: Vec<Vec<i32>>,
}

impl CNF {
    /// Clauses are non-empty and hold no zero literal nor the one value
    /// whose magnitude cannot be taken.
    pub open spec fn wf(self) -> bool {
        &&& forall|i: int|
            0 <= i < self.clauses@.len() ==> (#[trigger] self.clauses@[i])@.len() > 0
        &&& forall|i: int, j: int|
            0 <= i < self.clauses@.len() && 0 <= j < self.clauses@[i]@.len() ==> (
            #[trigger] self.clauses@[i]@[j]) != 0 && self.clauses@[i]@[j] != i32::MIN
    }

    /// The whole formula holds under an interpretation.
    pub open spec fn satisfied(self, inter: Seq<i32>) -> bool {
        forall|i: int|
            0 <= i < self.clauses@.len() ==> clause_satisfied(
                (#[trigger] self.clauses@[i])@,
                inter,
            )
    }

    /// The number of variables: the largest magnitude among the literals.
    pub open spec fn var_count_spec(self) -> int {
        max_var(self.clauses@.map_values(|c: Vec<i32>| c@))
    }

    fn eval_clause(c: &Vec<i32>, inter: &Vec<i32>) -> (r: bool)
        ensures
            r == clause_satisfied(c@, inter@),
    {
        let mut j: usize = 0;
        while j < c.len()
            invariant
                j <= c@.len(),
                forall|x: int| 0 <= x < j ==> !inter@.contains(#[trigger] c@[x]),
            decreases c@.len() - j,
        {
            if inter_contains(inter, c[j]) {
                return true;
            }
            j = j + 1;
        }
        false
    }

    /// Evaluates the formula under the interpretation: true iff every
    /// clause holds.
    pub fn eval(&self, inter: &Vec<i32>) -> (r: bool)
        ensures
            r == self.satisfied(inter@),
    {
        let mut i: usize = 0;
        while i < self.clauses.len()
            invariant
                i <= self.clauses@.len(),
                forall|x: int|
                    0 <= x < i ==> clause_satisfied((#[trigger] self.clauses@[x])@, inter@),
            decreases self.clauses@.len() - i,
        {
            if !CNF::eval_clause(&self.clauses[i], inter) {
                return false;
            }
            i = i + 1;
        }
        true
    }

    fn var_count(&self) -> (r: i32)
        requires
            self.wf(),
        ensures
            r >= 0,
            r == self.var_count_spec(),
            forall|i: int, j: int|
                0 <= i < self.clauses@.len() && 0 <= j < self.clauses@[i]@.len() ==> abs_lit(
                    (#[trigger] self.clauses@[i]@[j]) as int,
                ) <= r,
    {
        let ghost cs = self.clauses@.map_values(|c: Vec<i32>| c@);
        let mut m: i32 = 0;
        let mut i: usize = 0;
        while i < self.clauses.len()
            invariant
                self.wf(),
                cs == self.clauses@.map_values(|c: Vec<i32>| c@),
                i <= self.clauses@.len(),
                m >= 0,
                m == max_var(cs.take(i as int)),
                forall|x: int, j: int|
                    0 <= x < i && 0 <= j < self.clauses@[x]@.len() ==> abs_lit(
                        (#[trigger] self.clauses@[x]@[j]) as int,
                    ) <= m,
            decreases self.clauses@.len() - i,
        {
            proof {
                assert(cs.take(i + 1).drop_last() =~= cs.take(i as int));
                assert(cs.take(i + 1).last() == cs[i as int]);
                assert(cs[i as int] == self.clauses@[i as int]@);
            }
            let c = &self.clauses[i];
            let mut mc: i32 = 0;
            let mut j: usize = 0;
            while j < c.len()
                invariant
                    self.wf(),
                    c@ == self.clauses@[i as int]@,
                    i < self.clauses@.len(),
                    j <= c@.len(),
                    mc >= 0,
                    mc == max_abs_in_clause(c@.take(j as int)),
                    forall|x: int|
                        0 <= x < j ==> abs_lit((#[trigger] c@[x]) as int) <= mc,
                decreases c@.len() - j,
            {
                proof {
                    assert(c@.take(j + 1).drop_last() =~= c@.take(j as int));
                    assert(c@.take(j + 1).last() == c@[j as int]);
                    assert(self.clauses@[i as int]@[j as int] != i32::MIN);
                }
                let l = c[j];
                let a = if l < 0 {
                    -l
                } else {
                    l
                };
                if a > mc {
                    mc = a;
                }
                j = j + 1;
            }
            proof {
                assert(c@.take(c@.len() as int) =~= c@);
            }
            if mc > m {
                m = mc;
            }
            i = i + 1;
        }
        proof {
            assert(cs.take(cs.len() as int) =~= cs);
        }
        m
    }

    /// A uniformly random interpretation: for each variable `1..=n` either
    /// the positive or the negative literal, in order.
    pub fn random_interpretation(&self) -> (r: Vec<i32>)
        requires
            self.wf(),
        ensures
            r@.len() == self.var_count_spec(),
            forall|j: int| 0 <= j < r@.len() ==> #[trigger] r@[j] == j + 1 || r@[j] == -(j + 1),
    {
        let n = self.var_count();
        let n_us = n as usize;
        let mut r: Vec<i32> = Vec::new();
        let mut idx: usize = 0;
        while idx < n_us
            invariant
                idx <= n_us,
                n_us <= i32::MAX,
                r@.len() == idx,
                forall|j: int|
                    0 <= j < idx ==> #[trigger] r@[j] == j + 1 || r@[j] == -(j + 1),
            decreases n_us - idx,
        {
            let lit = (idx as i32) + 1;
            if random_bool() {
                r.push(lit);
            } else {
                r.push(-lit);
            }
            idx = idx + 1;
        }
        r
    }

    /// Randomized local search: up to `tries` random restarts, each
    /// followed by a bounded run of single-variable flips drawn from
    /// unsatisfied clauses. `Some` carries an interpretation over all
    /// variables that satisfies the formula; `None` when the search gave
    /// up.
    pub fn random_3sat(&self, tries: usize) -> (r: Option<Vec<i32>>)
        requires
            self.wf(),
            3 * self.var_count_spec() <= i32::MAX,
        ensures
            match r {
                Some(inter) => self.satisfied(inter@) && inter@.len() == self.var_count_spec()
                    && forall|j: int|
                        0 <= j < inter@.len() ==> #[trigger] inter@[j] == j + 1 || inter@[j]
                            == -(j + 1),
                None => true,
            },
    {
        let n = self.var_count();
        let steps = 3 * n;
        let mut t: usize = 0;
        while t < tries
            invariant
                self.wf(),
                n == self.var_count_spec(),
                steps == 3 * n,
                forall|i: int, j: int|
                    0 <= i < self.clauses@.len() && 0 <= j < self.clauses@[i]@.len() ==> abs_lit(
                        (#[trigger] self.clauses@[i]@[j]) as int,
                    ) <= n,
            decreases tries - t,
        {
            let mut inter = self.random_interpretation();
            let mut s: i32 = 0;
            while s < steps
                invariant
                    self.wf(),
                    0 <= s <= steps,
                    n == self.var_count_spec(),
                    steps == 3 * n,
                    inter@.len() == n,
                    forall|j: int|
                        0 <= j < inter@.len() ==> #[trigger] inter@[j] == j + 1 || inter@[j] == -(
                        j + 1),
                    forall|i: int, j: int|
                        0 <= i < self.clauses@.len() && 0 <= j < self.clauses@[i]@.len()
                            ==> abs_lit((#[trigger] self.clauses@[i]@[j]) as int) <= n,
                decreases steps - s,
            {
                let mut unsat: Vec<usize> = Vec::new();
                let mut ci: usize = 0;
                while ci < self.clauses.len()
                    invariant
                        ci <= self.clauses@.len(),
                        forall|x: int|
                            0 <= x < unsat@.len() ==> (#[trigger] unsat@[x]) < ci,
                        forall|x: int|
                            0 <= x < unsat@.len() ==> !clause_satisfied(
                                self.clauses@[(#[trigger] unsat@[x]) as int]@,
                                inter@,
                            ),
                        forall|x: int|
                            0 <= x < ci && !clause_satisfied(
                                (#[trigger] self.clauses@[x])@,
                                inter@,
                            ) ==> unsat@.contains(x as usize),
                    decreases self.clauses@.len() - ci,
                {
                    let ghost un0 = unsat@;
                    if !CNF::eval_clause(&self.clauses[ci], &inter) {
                        unsat.push(ci);
                        proof {
                            assert(unsat@ == un0.push(ci));
                            assert forall|x: int|
                                0 <= x < ci + 1 && !clause_satisfied(
                                    (#[trigger] self.clauses@[x])@,
                                    inter@,
                                ) implies unsat@.contains(x as usize) by {
                                if x < ci {
                                    assert(un0.contains(x as usize));
                                } else {
                                    assert(unsat@[unsat@.len() - 1] == ci);
                                }
                            }
                        }
                    } else {
                        proof {
                            assert forall|x: int|
                                0 <= x < ci + 1 && !clause_satisfied(
                                    (#[trigger] self.clauses@[x])@,
                                    inter@,
                                ) implies unsat@.contains(x as usize) by {
                                assert(x < ci);
                            }
                        }
                    }
                    ci = ci + 1;
                }
                if unsat.len() == 0 {
                    proof {
                        assert forall|i: int|
                            0 <= i < self.clauses@.len() implies clause_satisfied(
                            (#[trigger] self.clauses@[i])@,
                            inter@,
                        ) by {
                            if !clause_satisfied(self.clauses@[i]@, inter@) {
                                assert(unsat@.contains(i as usize));
                            }
                        }
                    }
                    return Some(inter);
                }
                let pick = unsat[random_index(unsat.len())];
                let clause = &self.clauses[pick];
                let l = clause[random_index(clause.len())];
                let a = if l < 0 {
                    -l
                } else {
                    l
                };
                let var_us = (a - 1) as usize;
                let old_v = inter[var_us];
                let ghost inter0 = inter@;
                inter.remove(var_us);
                inter.insert(var_us, -old_v);
                proof {
                    assert(inter@ =~= inter0.update(var_us as int, (-old_v) as i32));
                }
                s = s + 1;
            }
            t = t + 1;
        }
        None
    }
}

} // verus!
