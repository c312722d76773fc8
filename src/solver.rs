//! The solver handle: variables, clauses, and solving under assumptions.

use vstd::prelude::*;
use crate::lit::{Lit, Var, MAX_VAR_INDEX};

verus! {

/// Assignment code of a variable that is false.
pub const VALUE_FALSE: u8 = 0;

/// Assignment code of a variable that is true.
pub const VALUE_TRUE: u8 = 1;

/// Assignment code of a variable whose value does not matter.
pub const VALUE_UNDEF: u8 = 2;

/// The code that makes literal `l` true.
pub open spec fn true_code(l: Lit) -> u8 {
    if l.negated() { VALUE_FALSE } else { VALUE_TRUE }
}

/// The code that makes literal `l` false.
pub open spec fn false_code(l: Lit) -> u8 {
    if l.negated() { VALUE_TRUE } else { VALUE_FALSE }
}

/// Under the partial assignment `a`, literal `l` is true.
pub open spec fn lit_true(l: Lit, a: Seq<u8>) -> bool {
    0 <= l.var_index() < a.len() && a[l.var_index()] == true_code(l)
}

/// Under the partial assignment `a`, literal `l` is false.
pub open spec fn lit_false(l: Lit, a: Seq<u8>) -> bool {
    0 <= l.var_index() < a.len() && a[l.var_index()] == false_code(l)
}

/// Some literal of `c` is true under `a`.
pub open spec fn clause_true(c: Seq<Lit>, a: Seq<u8>) -> bool {
    exists|i: int| 0 <= i < c.len() && #[trigger] lit_true(c[i], a)
}

/// Every literal of `c` is false under `a`.
pub open spec fn clause_false(c: Seq<Lit>, a: Seq<u8>) -> bool {
    forall|i: int| 0 <= i < c.len() ==> #[trigger] lit_false(c[i], a)
}

/// Every clause and every assumption is true under `a`.
pub open spec fn all_true(cs: Seq<Seq<Lit>>, assumps: Seq<Lit>, a: Seq<u8>) -> bool {
    &&& forall|j: int| 0 <= j < cs.len() ==> #[trigger] clause_true(cs[j], a)
    &&& forall|i: int| 0 <= i < assumps.len() ==> #[trigger] lit_true(assumps[i], a)
}

/// Some clause or some assumption is false under `a`.
pub open spec fn some_false(cs: Seq<Seq<Lit>>, assumps: Seq<Lit>, a: Seq<u8>) -> bool {
    ||| exists|j: int| 0 <= j < cs.len() && #[trigger] clause_false(cs[j], a)
    ||| exists|i: int| 0 <= i < assumps.len() && #[trigger] lit_false(assumps[i], a)
}

/// Under the total assignment `t`, literal `l` holds.
pub open spec fn holds(l: Lit, t: Seq<bool>) -> bool {
    t[l.var_index()] != l.negated()
}

/// Some literal of `c` holds under `t`.
pub open spec fn clause_holds(c: Seq<Lit>, t: Seq<bool>) -> bool {
    exists|i: int| 0 <= i < c.len() && #[trigger] holds(c[i], t)
}

/// Every clause and every assumption holds under `t`.
pub open spec fn all_hold(cs: Seq<Seq<Lit>>, assumps: Seq<Lit>, t: Seq<bool>) -> bool {
    &&& forall|j: int| 0 <= j < cs.len() ==> #[trigger] clause_holds(cs[j], t)
    &&& forall|i: int| 0 <= i < assumps.len() ==> #[trigger] holds(assumps[i], t)
}

/// Some assignment of `n` variables makes every clause and every
/// assumption true.
pub open spec fn satisfiable(cs: Seq<Seq<Lit>>, assumps: Seq<Lit>, n: nat) -> bool {
    exists|t: Seq<bool>| t.len() == n && #[trigger] all_hold(cs, assumps, t)
}

/// `l` is a literal over one of the first `n` variables.
pub open spec fn lit_in_range(l: Lit, n: nat) -> bool {
    l.valid() && l.var_index() < n
}

/// Every literal of `c` is over one of the first `n` variables.
pub open spec fn lits_in_range(c: Seq<Lit>, n: nat) -> bool {
    forall|i: int| 0 <= i < c.len() ==> #[trigger] lit_in_range(c[i], n)
}

/// Every clause of `cs` is over the first `n` variables.
pub open spec fn clauses_in_range(cs: Seq<Seq<Lit>>, n: nat) -> bool {
    forall|j: int| 0 <= j < cs.len() ==> #[trigger] lits_in_range(cs[j], n)
}

/// `a` holds a code for each variable, and decides exactly the first `k`.
pub open spec fn decided_below(a: Seq<u8>, k: int) -> bool {
    &&& forall|v: int| 0 <= v < k ==> #[trigger] a[v] == VALUE_FALSE || a[v] == VALUE_TRUE
    &&& forall|v: int| k <= v < a.len() ==> #[trigger] a[v] == VALUE_UNDEF
}

/// Every entry of `a` is one of the three codes.
pub open spec fn codes_ok(a: Seq<u8>) -> bool {
    forall|v: int| 0 <= v < a.len() ==> #[trigger] a[v] <= VALUE_UNDEF
}

/// The clauses of a database, as sequences of literals.
pub open spec fn db_view(cs: Seq<Vec<Lit>>) -> Seq<Seq<Lit>> {
    cs.map_values(|c: Vec<Lit>| c@)
}

/// The total assignment `t` agrees with `a` on the first `k` variables.
pub open spec fn agrees_below(t: Seq<bool>, a: Seq<u8>, k: int) -> bool {
    forall|v: int| 0 <= v < k ==> #[trigger] a[v] == if t[v] { VALUE_TRUE } else { VALUE_FALSE }
}

/// `m` lists literals over the first `n` variables, at most one per
/// variable, in increasing order of variable index.
pub open spec fn model_wf(m: Seq<Lit>, n: nat) -> bool {
    &&& forall|i: int| 0 <= i < m.len() ==> #[trigger] lit_in_range(m[i], n)
    &&& forall|i: int, j: int| 0 <= i < j < m.len() ==> #[trigger] m[i].var_index() < #[trigger] m[j].var_index()
}

/// `m` is the model read off the assignment `a`: for every decided
/// variable the literal that `a` makes true, and nothing for the others.
pub open spec fn model_of(m: Seq<Lit>, a: Seq<u8>) -> bool {
    &&& model_wf(m, a.len())
    &&& forall|l: Lit| l.valid() ==> (m.contains(l) <==> #[trigger] lit_true(l, a))
}

/// Some literal of `c` is in the model `m`.
pub open spec fn clause_in_model(c: Seq<Lit>, m: Seq<Lit>) -> bool {
    exists|i: int| 0 <= i < c.len() && m.contains(#[trigger] c[i])
}

/// The model `m` makes every clause of `cs` true, and contains every
/// assumption.
pub open spec fn model_satisfies(cs: Seq<Seq<Lit>>, assumps: Seq<Lit>, m: Seq<Lit>) -> bool {
    &&& forall|j: int| 0 <= j < cs.len() ==> #[trigger] clause_in_model(cs[j], m)
    &&& forall|i: int| 0 <= i < assumps.len() ==> m.contains(#[trigger] assumps[i])
}

/// Unsatisfiability is stable: where no assignment of `n` variables makes
/// the clauses `cs` and the assumptions true, none does after more clauses
/// are added or more variables created. With nothing added, a query that
/// found no model finds none when it is asked again.
pub proof fn lemma_unsat_stable(
    cs: Seq<Seq<Lit>>,
    extra: Seq<Seq<Lit>>,
    assumps: Seq<Lit>,
    n: nat,
    n2: nat,
)
    requires
        clauses_in_range(cs, n),
        lits_in_range(assumps, n),
        n <= n2,
        !satisfiable(cs, assumps, n),
    ensures
        !satisfiable(cs + extra, assumps, n2),
{
    if satisfiable(cs + extra, assumps, n2) {
        let t2 = choose|t2: Seq<bool>| t2.len() == n2 && #[trigger] all_hold(cs + extra, assumps, t2);
        let t = t2.take(n as int);
        assert forall|j: int| 0 <= j < cs.len() implies #[trigger] clause_holds(cs[j], t) by {
            assert((cs + extra)[j] == cs[j]);
            assert(clause_holds((cs + extra)[j], t2));
            assert(lits_in_range(cs[j], n));
            let i = choose|i: int| 0 <= i < cs[j].len() && #[trigger] holds(cs[j][i], t2);
            assert(lit_in_range(cs[j][i], n));
            assert(holds(cs[j][i], t));
        }
        assert forall|i: int| 0 <= i < assumps.len() implies #[trigger] holds(assumps[i], t) by {
            assert(holds(assumps[i], t2));
            assert(lit_in_range(assumps[i], n));
        }
        assert(all_hold(cs, assumps, t));
    }
}

/// The variable index of `l`, as an index into an assignment.
fn lit_index(l: Lit) -> (r: usize)
    requires
        l.valid(),
    ensures
        r == l.var_index(),
{
    let v = l.var();
    let i = i32::from(v);
    proof {
        Var::lemma_into_i32(v);
    }
    i as usize
}

/// Evaluates clause `c` under `a`: `VALUE_FALSE` when every literal is
/// false, `VALUE_TRUE` when some literal is true, `VALUE_UNDEF` otherwise.
fn clause_value(c: &Vec<Lit>, a: &Vec<u8>) -> (r: u8)
    requires
        lits_in_range(c@, a@.len() as nat),
    ensures
        r == VALUE_FALSE ==> clause_false(c@, a@),
        r == VALUE_TRUE ==> clause_true(c@, a@) && !clause_false(c@, a@),
        r == VALUE_UNDEF ==> !clause_false(c@, a@) && !clause_true(c@, a@),
        r <= VALUE_UNDEF,
{
    let mut all_false = true;
    let mut i: usize = 0;
    while i < c.len()
        invariant
            i <= c@.len(),
            lits_in_range(c@, a@.len() as nat),
            forall|j: int| 0 <= j < i ==> !#[trigger] lit_true(c@[j], a@),
            all_false <==> forall|j: int| 0 <= j < i ==> #[trigger] lit_false(c@[j], a@),
        decreases c@.len() - i,
    {
        let l = c[i];
        assert(lit_in_range(c@[i as int], a@.len() as nat));
        let x = lit_index(l);
        let neg = l.compl();
        let want = if neg { VALUE_FALSE } else { VALUE_TRUE };
        if a[x] == want {
            assert(lit_true(c@[i as int], a@));
            assert(!lit_false(c@[i as int], a@));
            return VALUE_TRUE;
        }
        if a[x] != (if neg { VALUE_TRUE } else { VALUE_FALSE }) {
            all_false = false;
            assert(!lit_false(c@[i as int], a@));
        } else {
            assert(lit_false(c@[i as int], a@));
        }
        assert(!lit_true(c@[i as int], a@));
        i = i + 1;
    }
    if all_false {
        VALUE_FALSE
    } else {
        VALUE_UNDEF
    }
}

/// Evaluates all clauses and assumptions under `a`: `VALUE_FALSE` when one
/// of them is false, `VALUE_TRUE` when all are true, `VALUE_UNDEF` otherwise.
fn formula_value(cs: &Vec<Vec<Lit>>, assumps: &[Lit], a: &Vec<u8>) -> (r: u8)
    requires
        clauses_in_range(db_view(cs@), a@.len() as nat),
        lits_in_range(assumps@, a@.len() as nat),
    ensures
        r == VALUE_FALSE ==> some_false(db_view(cs@), assumps@, a@),
        r == VALUE_TRUE ==> all_true(db_view(cs@), assumps@, a@),
        r == VALUE_UNDEF ==> !some_false(db_view(cs@), assumps@, a@)
            && !all_true(db_view(cs@), assumps@, a@),
        r <= VALUE_UNDEF,
{
    let ghost db = db_view(cs@);
    let mut all_sat = true;
    let mut j: usize = 0;
    while j < cs.len()
        invariant
            j <= cs@.len(),
            db == db_view(cs@),
            clauses_in_range(db, a@.len() as nat),
            forall|k: int| 0 <= k < j ==> !#[trigger] clause_false(db[k], a@),
            all_sat <==> forall|k: int| 0 <= k < j ==> #[trigger] clause_true(db[k], a@),
        decreases cs@.len() - j,
    {
        assert(db[j as int] == cs@[j as int]@);
        assert(lits_in_range(db[j as int], a@.len() as nat));
        let v = clause_value(&cs[j], a);
        assert(v == VALUE_UNDEF ==> !clause_true(db[j as int], a@));
        assert(v != VALUE_FALSE ==> !clause_false(db[j as int], a@));
        if v == VALUE_FALSE {
            assert(clause_false(db[j as int], a@));
            return VALUE_FALSE;
        }
        if v == VALUE_UNDEF {
            all_sat = false;
        }
        j = j + 1;
    }
    let mut i: usize = 0;
    while i < assumps.len()
        invariant
            i <= assumps@.len(),
            db == db_view(cs@),
            lits_in_range(assumps@, a@.len() as nat),
            forall|k: int| 0 <= k < cs@.len() ==> !#[trigger] clause_false(db[k], a@),
            forall|k: int| 0 <= k < i ==> !#[trigger] lit_false(assumps@[k], a@),
            all_sat <==> (forall|k: int| 0 <= k < cs@.len() ==> #[trigger] clause_true(db[k], a@))
                && (forall|k: int| 0 <= k < i ==> #[trigger] lit_true(assumps@[k], a@)),
        decreases assumps@.len() - i,
    {
        let l = assumps[i];
        assert(lit_in_range(assumps@[i as int], a@.len() as nat));
        let x = lit_index(l);
        let neg = l.compl();
        if a[x] == (if neg { VALUE_TRUE } else { VALUE_FALSE }) {
            assert(lit_false(assumps@[i as int], a@));
            return VALUE_FALSE;
        }
        if a[x] != (if neg { VALUE_FALSE } else { VALUE_TRUE }) {
            all_sat = false;
            assert(!lit_true(assumps@[i as int], a@));
        } else {
            assert(lit_true(assumps@[i as int], a@));
        }
        assert(!lit_false(assumps@[i as int], a@));
        i = i + 1;
    }
    if all_sat {
        VALUE_TRUE
    } else {
        VALUE_UNDEF
    }
}

/// A false literal is decided, so no total assignment that agrees with the
/// decided part makes it hold.
proof fn lemma_false_lit_fails(l: Lit, a: Seq<u8>, k: int, t: Seq<bool>)
    requires
        lit_false(l, a),
        decided_below(a, k),
        agrees_below(t, a, k),
    ensures
        !holds(l, t),
{
    let v = l.var_index();
    if v >= k {
        assert(a[v] == VALUE_UNDEF);
    }
    assert(a[v] == if t[v] { VALUE_TRUE } else { VALUE_FALSE });
}

/// Where something is false under the decided part of `a`, no total
/// assignment that agrees with it satisfies everything.
proof fn lemma_conflict_blocks(
    cs: Seq<Seq<Lit>>,
    assumps: Seq<Lit>,
    a: Seq<u8>,
    k: int,
    t: Seq<bool>,
)
    requires
        some_false(cs, assumps, a),
        decided_below(a, k),
        agrees_below(t, a, k),
    ensures
        !all_hold(cs, assumps, t),
{
    if exists|j: int| 0 <= j < cs.len() && #[trigger] clause_false(cs[j], a) {
        let j = choose|j: int| 0 <= j < cs.len() && #[trigger] clause_false(cs[j], a);
        assert forall|i: int| 0 <= i < cs[j].len() implies !#[trigger] holds(cs[j][i], t) by {
            assert(lit_false(cs[j][i], a));
            lemma_false_lit_fails(cs[j][i], a, k, t);
        }
        assert(!clause_holds(cs[j], t));
    } else {
        let i = choose|i: int| 0 <= i < assumps.len() && #[trigger] lit_false(assumps[i], a);
        lemma_false_lit_fails(assumps[i], a, k, t);
    }
}

/// With every variable decided, each literal is true or false, so either
/// everything is true or something is false.
proof fn lemma_fully_decided(cs: Seq<Seq<Lit>>, assumps: Seq<Lit>, a: Seq<u8>)
    requires
        decided_below(a, a.len() as int),
        clauses_in_range(cs, a.len() as nat),
        lits_in_range(assumps, a.len() as nat),
    ensures
        all_true(cs, assumps, a) || some_false(cs, assumps, a),
{
    if !some_false(cs, assumps, a) {
        assert forall|j: int| 0 <= j < cs.len() implies #[trigger] clause_true(cs[j], a) by {
            assert(lits_in_range(cs[j], a.len() as nat));
            assert(!clause_false(cs[j], a));
            let i = choose|i: int| 0 <= i < cs[j].len() && !#[trigger] lit_false(cs[j][i], a);
            assert(lit_in_range(cs[j][i], a.len() as nat));
            assert(lit_true(cs[j][i], a));
        }
        assert forall|i: int| 0 <= i < assumps.len() implies #[trigger] lit_true(assumps[i], a) by {
            assert(lit_in_range(assumps[i], a.len() as nat));
            assert(!lit_false(assumps[i], a));
        }
    }
}

/// Backtracking search over the variables from `k` on, with the first `k`
/// already decided in `a`. On success `a` makes everything true; on failure
/// `a` is left as it was and no total assignment that agrees with its
/// decided part satisfies everything.
fn search(cs: &Vec<Vec<Lit>>, assumps: &[Lit], a: &mut Vec<u8>, k: usize) -> (found: bool)
    requires
        k <= old(a)@.len(),
        decided_below(old(a)@, k as int),
        clauses_in_range(db_view(cs@), old(a)@.len() as nat),
        lits_in_range(assumps@, old(a)@.len() as nat),
    ensures
        final(a)@.len() == old(a)@.len(),
        found ==> codes_ok(final(a)@) && all_true(db_view(cs@), assumps@, final(a)@),
        !found ==> final(a)@ == old(a)@ && forall|t: Seq<bool>|
            t.len() == old(a)@.len() && agrees_below(t, old(a)@, k as int)
                ==> !#[trigger] all_hold(db_view(cs@), assumps@, t),
    decreases old(a)@.len() - k,
{
    let ghost db = db_view(cs@);
    let ghost a0 = a@;
    let n = a.len();
    let st = formula_value(cs, assumps, a);
    if st == VALUE_FALSE {
        assert forall|t: Seq<bool>| t.len() == n && agrees_below(t, a0, k as int)
            implies !#[trigger] all_hold(db, assumps@, t) by {
            lemma_conflict_blocks(db, assumps@, a0, k as int, t);
        }
        return false;
    }
    if st == VALUE_TRUE {
        return true;
    }
    if k == n {
        proof {
            lemma_fully_decided(db, assumps@, a0);
        }
        return false;
    }
    a.set(k, VALUE_FALSE);
    let ghost a_false = a@;
    if search(cs, assumps, a, k + 1) {
        return true;
    }
    a.set(k, VALUE_TRUE);
    let ghost a_true = a@;
    if search(cs, assumps, a, k + 1) {
        return true;
    }
    a.set(k, VALUE_UNDEF);
    assert(a@ =~= a0);
    assert forall|t: Seq<bool>| t.len() == n && agrees_below(t, a0, k as int)
        implies !#[trigger] all_hold(db, assumps@, t) by {
        if t[k as int] {
            assert(agrees_below(t, a_true, k + 1));
        } else {
            assert(agrees_below(t, a_false, k + 1));
        }
    }
    false
}

/// Clears `out` and fills it with the model read off `a`, in increasing
/// order of variable index, leaving out the variables whose value does not
/// matter.
fn extract_model(a: &Vec<u8>, out: &mut Vec<Lit>)
    requires
        codes_ok(a@),
        a@.len() <= MAX_VAR_INDEX + 1,
    ensures
        model_of(final(out)@, a@),
{
    out.clear();
    let mut i: usize = 0;
    while i < a.len()
        invariant
            i <= a@.len(),
            codes_ok(a@),
            a@.len() <= MAX_VAR_INDEX + 1,
            forall|p: int| 0 <= p < out@.len() ==> #[trigger] lit_in_range(out@[p], a@.len() as nat),
            forall|p: int| 0 <= p < out@.len() ==> #[trigger] out@[p].var_index() < i,
            forall|p: int, q: int| 0 <= p < q < out@.len() ==> #[trigger] out@[p].var_index() < #[trigger] out@[q].var_index(),
            forall|l: Lit| l.valid() ==> (out@.contains(l) <==> l.var_index() < i && #[trigger] lit_true(l, a@)),
        decreases a@.len() - i,
    {
        let c = a[i];
        if c != VALUE_UNDEF {
            let v = Var::from(i as i32);
            proof {
                Var::lemma_from_i32(i as i32);
            }
            let l = Lit::new(v, c == VALUE_FALSE);
            let ghost before = out@;
            out.push(l);
            assert forall|m: Lit| m.valid() implies (out@.contains(m) <==> m.var_index() < i + 1 && #[trigger] lit_true(m, a@)) by {
                if out@.contains(m) {
                    let p = choose|p: int| 0 <= p < out@.len() && out@[p] == m;
                    if p < before.len() {
                        assert(before.contains(m));
                    }
                }
                if m.var_index() < i + 1 && lit_true(m, a@) {
                    if m.var_index() == i {
                        Lit::lemma_from_parts(m);
                        assert(out@[before.len() as int] == m);
                    } else {
                        assert(before.contains(m));
                        let p = choose|p: int| 0 <= p < before.len() && before[p] == m;
                        assert(out@[p] == m);
                    }
                }
            }
        } else {
            assert forall|m: Lit| m.valid() implies (out@.contains(m) <==> m.var_index() < i + 1 && #[trigger] lit_true(m, a@)) by {
                if m.var_index() == i {
                    assert(!lit_true(m, a@));
                }
            }
        }
        i = i + 1;
    }
}

/// A solver handle: it owns the variables and clauses added so far, and the
/// model of the last satisfiable query.
#[derive(Debug)]
pub struct SimpSolver {
    num_vars: usize,
    clauses: Vec<Vec<Lit>>,
    cex: Vec<Lit>,
}

impl SimpSolver {
    /// The number of variables created so far.
    pub closed spec fn num_vars(&self) -> nat {
        self.num_vars as nat
    }

    /// The clauses added so far, in order.
    pub closed spec fn clauses(&self) -> Seq<Seq<Lit>> {
        db_view(self.clauses@)
    }

    /// The handle is well formed: the variable count stays encodable, and
    /// every clause is over variables that exist.
    pub closed spec fn wf(&self) -> bool {
        &&& self.num_vars <= MAX_VAR_INDEX + 1
        &&& clauses_in_range(db_view(self.clauses@), self.num_vars as nat)
    }

    /// A fresh handle, with no variables and no clauses.
    pub fn new() -> (r: SimpSolver)
        ensures
            r.wf(),
            r.num_vars() == 0,
            r.clauses() == Seq::<Seq<Lit>>::empty(),
    {
        let r = SimpSolver { num_vars: 0, clauses: Vec::new(), cex: Vec::new() };
        assert(db_view(r.clauses@) =~= Seq::<Seq<Lit>>::empty());
        r
    }

    /// Creates the next variable: its index is the number of variables
    /// created before it.
    pub fn new_var(&mut self) -> (r: Var)
        requires
            old(self).wf(),
            old(self).num_vars() <= MAX_VAR_INDEX,
        ensures
            final(self).wf(),
            r.index() == old(self).num_vars(),
            r.valid(),
            final(self).num_vars() == old(self).num_vars() + 1,
            final(self).clauses() == old(self).clauses(),
    {
        let n = self.num_vars;
        let r = Var::from(n as i32);
        self.num_vars = n + 1;
        proof {
            Var::lemma_from_i32(n as i32);
            let db = db_view(self.clauses@);
            let m = self.num_vars as nat;
            assert forall|j: int| 0 <= j < db.len() implies #[trigger] lits_in_range(db[j], m) by {
                assert(lits_in_range(db[j], n as nat));
                assert forall|i: int| 0 <= i < db[j].len() implies #[trigger] lit_in_range(db[j][i], m) by {
                    assert(lit_in_range(db[j][i], n as nat));
                }
            }
        }
        r
    }

    /// Creates `count` variables one after the other: their indices follow
    /// on from the variables already there, in order, each one new.
    pub fn new_vars(&mut self, count: usize) -> (r: Vec<Var>)
        requires
            old(self).wf(),
            old(self).num_vars() + count <= MAX_VAR_INDEX + 1,
        ensures
            final(self).wf(),
            final(self).num_vars() == old(self).num_vars() + count,
            final(self).clauses() == old(self).clauses(),
            r@.len() == count,
            forall|i: int| 0 <= i < count ==> (#[trigger] r@[i]).index() == old(self).num_vars() + i,
            forall|i: int, j: int| 0 <= i < j < count ==> #[trigger] r@[i] != #[trigger] r@[j],
    {
        let mut r: Vec<Var> = Vec::new();
        let ghost start = self.num_vars();
        let mut k: usize = 0;
        while k < count
            invariant
                k <= count,
                self.wf(),
                start + count <= MAX_VAR_INDEX + 1,
                self.num_vars() == start + k,
                self.clauses() == old(self).clauses(),
                start == old(self).num_vars(),
                r@.len() == k,
                forall|i: int| 0 <= i < k ==> (#[trigger] r@[i]).index() == start + i,
            decreases count - k,
        {
            let v = self.new_var();
            r.push(v);
            k = k + 1;
        }
        assert forall|i: int, j: int| 0 <= i < j < count implies #[trigger] r@[i] != #[trigger] r@[j] by {
            Var::lemma_index_injective(r@[i], r@[j]);
        }
        r
    }

    /// Adds a clause over existing variables. The clause is kept as given,
    /// in order; it stays for every later query.
    pub fn add_clause(&mut self, clause: &[Lit])
        requires
            old(self).wf(),
            lits_in_range(clause@, old(self).num_vars()),
        ensures
            final(self).wf(),
            final(self).num_vars() == old(self).num_vars(),
            final(self).clauses() == old(self).clauses().push(clause@),
    {
        let c = vstd::slice::slice_to_vec(clause);
        let ghost before = self.clauses@;
        self.clauses.push(c);
        proof {
            assert(db_view(self.clauses@) =~= db_view(before).push(clause@));
        }
    }

    /// Decides whether every clause, together with the assumptions of this
    /// query alone, can be true at once. When they can, returns a model: for
    /// each variable whose value matters, in increasing order of index, the
    /// literal that is true; it borrows the handle, so it cannot outlive the
    /// next change to it. The assumptions are not kept.
    pub fn solve(&mut self, assumptions: &[Lit]) -> (r: Option<&[Lit]>)
        requires
            old(self).wf(),
            lits_in_range(assumptions@, old(self).num_vars()),
        ensures
            final(self).wf(),
            final(self).num_vars() == old(self).num_vars(),
            final(self).clauses() == old(self).clauses(),
            r.is_some() <==> satisfiable(old(self).clauses(), assumptions@, old(self).num_vars()),
            r matches Some(m) ==> model_wf(m@, old(self).num_vars())
                && model_satisfies(old(self).clauses(), assumptions@, m@),
    {
        let n = self.num_vars;
        let ghost db = db_view(self.clauses@);
        let mut a: Vec<u8> = vec![VALUE_UNDEF; n];
        let ghost a0 = a@;
        assert(decided_below(a@, 0));
        let found = search(&self.clauses, assumptions, &mut a, 0);
        if found {
            extract_model(&a, &mut self.cex);
            proof {
                let t = Seq::new(n as nat, |v: int| a@[v] == VALUE_TRUE);
                assert forall|j: int| 0 <= j < db.len() implies #[trigger] clause_holds(db[j], t) by {
                    assert(clause_true(db[j], a@));
                    assert(lits_in_range(db[j], n as nat));
                    let i = choose|i: int| 0 <= i < db[j].len() && #[trigger] lit_true(db[j][i], a@);
                    assert(lit_in_range(db[j][i], n as nat));
                    assert(holds(db[j][i], t));
                    assert(self.cex@.contains(db[j][i]));
                }
                assert forall|j: int| 0 <= j < db.len() implies #[trigger] clause_in_model(db[j], self.cex@) by {
                    assert(clause_true(db[j], a@));
                    assert(lits_in_range(db[j], n as nat));
                    let i = choose|i: int| 0 <= i < db[j].len() && #[trigger] lit_true(db[j][i], a@);
                    assert(lit_in_range(db[j][i], n as nat));
                    assert(holds(db[j][i], t));
                    assert(self.cex@.contains(db[j][i]));
                }
                assert forall|i: int| 0 <= i < assumptions@.len() implies #[trigger] holds(assumptions@[i], t) by {
                    assert(lit_true(assumptions@[i], a@));
                    assert(lit_in_range(assumptions@[i], n as nat));
                }
                assert forall|i: int| 0 <= i < assumptions@.len() implies self.cex@.contains(#[trigger] assumptions@[i]) by {
                    assert(lit_true(assumptions@[i], a@));
                    assert(lit_in_range(assumptions@[i], n as nat));
                }
                assert(all_hold(db, assumptions@, t));
                assert(model_satisfies(db, assumptions@, self.cex@));
            }
            let m = self.cex.as_slice();
            assert(m@ == self.cex@);
            Some(m)
        } else {
            assert forall|t: Seq<bool>| t.len() == n implies !#[trigger] all_hold(db, assumptions@, t) by {
                assert(agrees_below(t, a0, 0));
            }
            None
        }
    }
}

} // verus!
