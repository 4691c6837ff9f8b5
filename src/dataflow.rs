//! A generic fixpoint solver for dataflow analyses over a function body,
//! parameterized by direction, lattice and transfer function.
use vstd::prelude::*;

use crate::mir::{successors, Body, Terminator};

verus! {

/// The direction in which facts flow along control-flow edges.
#[derive(Clone, Copy, Debug, PartialEq, Eq, Structural)]
pub enum Direction {
    /// From a block to its successors; a block's state is taken at its start.
    Forward,
    /// From a block to its predecessors; a block's state is taken at its end.
    Backward,
}

/// A dataflow analysis: a join semilattice of facts, modelled by `Fact`, and a
/// monotone transfer function for each block.
pub trait Analysis: Sized {
    /// The executable lattice value.
    type Domain;
    /// The mathematical value that a `Domain` stands for.
    type Fact;

    spec fn dir(&self) -> Direction;

    /// The analysis was built for `body` (its place universe covers it).
    spec fn ready(&self, body: &Body) -> bool;

    spec fn model(&self, d: &Self::Domain) -> Self::Fact;

    /// An executable value is well formed and its fact stays within the
    /// analysis' finite universe.
    spec fn valid(&self, d: &Self::Domain) -> bool;

    spec fn bounded(&self, f: Self::Fact) -> bool;

    /// The lattice order.
    spec fn le(&self, a: Self::Fact, b: Self::Fact) -> bool;

    spec fn join_spec(&self, a: Self::Fact, b: Self::Fact) -> Self::Fact;

    spec fn bottom_fact(&self) -> Self::Fact;

    /// The fact at the start of the entry block (forward analyses).
    spec fn start_fact(&self) -> Self::Fact;

    /// The effect of a whole block, in the analysis' direction.
    spec fn transfer(&self, body: &Body, b: int, f: Self::Fact) -> Self::Fact;

    /// How far a fact has climbed the lattice.
    spec fn height(&self, f: Self::Fact) -> nat;

    spec fn max_height(&self) -> nat;

    fn direction(&self) -> (r: Direction)
        ensures
            r == self.dir(),
    ;

    fn bottom(&self, body: &Body) -> (r: Self::Domain)
        requires
            self.ready(body),
        ensures
            self.valid(&r),
            self.model(&r) == self.bottom_fact(),
    ;

    fn initialize_start_block(&self, body: &Body, d: &mut Self::Domain)
        requires
            self.ready(body),
        ensures
            self.valid(final(d)),
            self.model(final(d)) == self.start_fact(),
    ;

    fn copy_state(&self, d: &Self::Domain) -> (r: Self::Domain)
        requires
            self.valid(d),
        ensures
            self.valid(&r),
            self.model(&r) == self.model(d),
    ;

    /// Joins `other` into `d`; returns whether `d` changed.
    fn join(&self, d: &mut Self::Domain, other: &Self::Domain) -> (changed: bool)
        requires
            self.valid(old(d)),
            self.valid(other),
        ensures
            self.valid(final(d)),
            self.model(final(d)) == self.join_spec(self.model(old(d)), self.model(other)),
            changed == (self.model(final(d)) != self.model(old(d))),
    ;

    fn apply_block(&self, body: &Body, b: usize, d: &mut Self::Domain)
        requires
            body.wf(),
            self.ready(body),
            b < body.n_blocks(),
            self.valid(old(d)),
        ensures
            self.valid(final(d)),
            self.model(final(d)) == self.transfer(body, b as int, self.model(old(d))),
    ;

    proof fn lemma_valid_bounded(&self, d: &Self::Domain)
        requires
            self.valid(d),
        ensures
            self.bounded(self.model(d)),
    ;

    proof fn lemma_le_refl(&self, a: Self::Fact)
        ensures
            self.le(a, a),
    ;

    proof fn lemma_le_trans(&self, a: Self::Fact, b: Self::Fact, c: Self::Fact)
        requires
            self.le(a, b),
            self.le(b, c),
        ensures
            self.le(a, c),
    ;

    proof fn lemma_bottom_least(&self, a: Self::Fact)
        ensures
            self.le(self.bottom_fact(), a),
    ;

    /// The join is the least upper bound.
    proof fn lemma_join_lub(&self, a: Self::Fact, b: Self::Fact, c: Self::Fact)
        ensures
            self.le(a, self.join_spec(a, b)),
            self.le(b, self.join_spec(a, b)),
            self.le(a, c) && self.le(b, c) ==> self.le(self.join_spec(a, b), c),
    ;

    /// Each block's transfer function is monotone.
    proof fn lemma_transfer_monotone(&self, body: &Body, b: int, x: Self::Fact, y: Self::Fact)
        requires
            body.wf(),
            0 <= b < body.n_blocks(),
            self.le(x, y),
        ensures
            self.le(self.transfer(body, b, x), self.transfer(body, b, y)),
    ;

    proof fn lemma_height_bounded(&self, a: Self::Fact)
        requires
            self.bounded(a),
        ensures
            self.height(a) <= self.max_height(),
    ;

    /// A join that changes a value climbs strictly.
    proof fn lemma_join_climbs(&self, a: Self::Fact, b: Self::Fact)
        requires
            self.bounded(a),
            self.bounded(b),
            self.join_spec(a, b) != a,
        ensures
            self.height(self.join_spec(a, b)) > self.height(a),
    ;
}

/// The source and target of the `k`-th edge out of block `b`, in the order
/// in which facts flow along it.
pub open spec fn flow_edge(dir: Direction, body: &Body, b: int, k: int) -> (int, int) {
    match dir {
        Direction::Forward => (b, body.succs(b)[k] as int),
        Direction::Backward => (body.succs(b)[k] as int, b),
    }
}

/// The fact that flows along edge `(b, k)` reaches its target.
pub open spec fn edge_holds<A: Analysis>(a: &A, body: &Body, s: Seq<A::Fact>, b: int, k: int) -> bool {
    let (src, dst) = flow_edge(a.dir(), body, b, k);
    a.le(a.transfer(body, src, s[src]), s[dst])
}

/// `s` gives each block a state (at its start when forward, at its end when
/// backward) that is consistent with every control-flow edge and with the
/// entry fact.
pub open spec fn is_fixpoint<A: Analysis>(a: &A, body: &Body, s: Seq<A::Fact>) -> bool {
    &&& s.len() == body.n_blocks()
    &&& a.le(a.start_fact(), s[0])
    &&& forall|b: int, k: int|
        0 <= b < body.n_blocks() && 0 <= k < body.succs(b).len() ==> edge_holds(
            a,
            body,
            s,
            b,
            k,
        )
}

pub open spec fn below<A: Analysis>(a: &A, s: Seq<A::Fact>, t: Seq<A::Fact>) -> bool {
    forall|b: int| 0 <= b < s.len() ==> a.le(#[trigger] s[b], t[b])
}

/// `s` is the least solution of the dataflow equations.
pub open spec fn is_least_fixpoint<A: Analysis>(a: &A, body: &Body, s: Seq<A::Fact>) -> bool {
    &&& is_fixpoint(a, body, s)
    &&& forall|t: Seq<A::Fact>| is_fixpoint(a, body, t) ==> below(a, s, t)
}

pub open spec fn models<A: Analysis>(a: &A, s: Seq<A::Domain>) -> Seq<A::Fact> {
    Seq::new(s.len(), |i: int| a.model(&s[i]))
}

pub open spec fn all_valid<A: Analysis>(a: &A, s: Seq<A::Domain>) -> bool {
    forall|i: int| 0 <= i < s.len() ==> a.valid(&#[trigger] s[i])
}

/// The sum of the heights of the first `n` facts.
pub open spec fn total_height<A: Analysis>(a: &A, s: Seq<A::Fact>, n: int) -> nat
    decreases n,
{
    if n <= 0 {
        0
    } else {
        total_height(a, s, n - 1) + a.height(s[n - 1])
    }
}

proof fn lemma_total_height_bounded<A: Analysis>(a: &A, s: Seq<A::Fact>, n: int)
    requires
        0 <= n <= s.len(),
        forall|i: int| 0 <= i < s.len() ==> a.bounded(#[trigger] s[i]),
    ensures
        total_height(a, s, n) <= n * a.max_height(),
    decreases n,
{
    if n > 0 {
        lemma_total_height_bounded(a, s, n - 1);
        a.lemma_height_bounded(s[n - 1]);
        assert(n * a.max_height() == (n - 1) * a.max_height() + a.max_height()) by (nonlinear_arith);
    }
}

proof fn lemma_total_height_update<A: Analysis>(a: &A, s: Seq<A::Fact>, i: int, f: A::Fact, n: int)
    requires
        0 <= i < s.len(),
        0 <= n <= s.len(),
        a.height(f) >= a.height(s[i]),
    ensures
        total_height(a, s.update(i, f), n) >= total_height(a, s, n),
        i < n ==> total_height(a, s.update(i, f), n) == total_height(a, s, n) + a.height(f) - a.height(s[i]),
        i >= n ==> total_height(a, s.update(i, f), n) == total_height(a, s, n),
    decreases n,
{
    if n > 0 {
        lemma_total_height_update(a, s, i, f, n - 1);
        if i == n - 1 {
            assert(s.update(i, f)[n - 1] == f);
        } else {
            assert(s.update(i, f)[n - 1] == s[n - 1]);
        }
    }
}

/// The number of control-flow edges out of block `b`.
pub fn n_successors(body: &Body, b: usize) -> (r: usize)
    requires
        b < body.n_blocks(),
    ensures
        r == body.succs(b as int).len(),
{
    match &body.blocks[b].terminator {
        Terminator::Goto(_) => 1,
        Terminator::SwitchInt(bs) => bs.len(),
        Terminator::Call(bs) => bs.len(),
        Terminator::Other(bs) => bs.len(),
        Terminator::Return => 0,
        Terminator::Unreachable => 0,
    }
}

/// The target of the `k`-th edge out of block `b`.
pub fn successor(body: &Body, b: usize, k: usize) -> (r: usize)
    requires
        b < body.n_blocks(),
        k < body.succs(b as int).len(),
    ensures
        r == body.succs(b as int)[k as int],
{
    match &body.blocks[b].terminator {
        Terminator::Goto(t) => *t,
        Terminator::SwitchInt(bs) => bs[k],
        Terminator::Call(bs) => bs[k],
        Terminator::Other(bs) => bs[k],
        Terminator::Return => 0,
        Terminator::Unreachable => 0,
    }
}

/// Lets the fact that flows along edge `(b, k)` into its target: the target's
/// state becomes its join with the source's state after the source block.
fn relax_edge<A: Analysis>(a: &A, body: &Body, dir: Direction, states: &mut Vec<A::Domain>, b: usize, k: usize) -> (changed: bool)
    requires
        body.wf(),
        a.ready(body),
        dir == a.dir(),
        b < body.n_blocks(),
        k < body.succs(b as int).len(),
        old(states).len() == body.n_blocks(),
        all_valid(a, old(states)@),
        forall|t: Seq<A::Fact>| is_fixpoint(a, body, t) ==> below(a, models(a, old(states)@), t),
    ensures
        final(states).len() == body.n_blocks(),
        all_valid(a, final(states)@),
        forall|t: Seq<A::Fact>| is_fixpoint(a, body, t) ==> below(a, models(a, final(states)@), t),
        below(a, models(a, old(states)@), models(a, final(states)@)),
        total_height(a, models(a, final(states)@), body.n_blocks() as int) >= total_height(a, models(a, old(states)@), body.n_blocks() as int),
        changed ==> total_height(a, models(a, final(states)@), body.n_blocks() as int) > total_height(a, models(a, old(states)@), body.n_blocks() as int),
        !changed ==> models(a, final(states)@) == models(a, old(states)@),
        !changed ==> edge_holds(a, body, models(a, final(states)@), b as int, k as int),
{
    let ghost n = body.n_blocks() as int;
    let ghost m0 = models(a, states@);
    let target = successor(body, b, k);
    let (src, dst) = match dir {
        Direction::Forward => (b, target),
        Direction::Backward => (target, b),
    };
    assert((src as int, dst as int) == flow_edge(a.dir(), body, b as int, k as int));
    let mut out = a.copy_state(&states[src]);
    a.apply_block(body, src, &mut out);
    let mut cur = a.copy_state(&states[dst]);
    let changed = a.join(&mut cur, &out);
    let ghost fsrc = m0[src as int];
    let ghost fdst = m0[dst as int];
    let ghost fout = a.transfer(body, src as int, fsrc);
    proof {
        assert(m0[src as int] == a.model(&states@[src as int]));
        assert(m0[dst as int] == a.model(&states@[dst as int]));
        a.lemma_join_lub(fdst, fout, fdst);
        assert forall|t: Seq<A::Fact>| is_fixpoint(a, body, t) implies a.le(a.model(&cur), t[dst as int]) by {
            assert(below(a, m0, t));
            assert(a.le(m0[src as int], t[src as int]));
            assert(a.le(m0[dst as int], t[dst as int]));
            assert(edge_holds(a, body, t, b as int, k as int));
            a.lemma_transfer_monotone(body, src as int, fsrc, t[src as int]);
            a.lemma_le_trans(fout, a.transfer(body, src as int, t[src as int]), t[dst as int]);
            a.lemma_join_lub(fdst, fout, t[dst as int]);
        }
    }
    if changed {
        states.set(dst, cur);
        proof {
            let m1 = models(a, states@);
            assert(m1 =~= m0.update(dst as int, a.model(&cur)));
            a.lemma_valid_bounded(&old(states)@[dst as int]);
            a.lemma_valid_bounded(&out);
            a.lemma_join_climbs(fdst, fout);
            lemma_total_height_update(a, m0, dst as int, a.model(&cur), n);
            assert forall|i: int| 0 <= i < n implies a.le(#[trigger] m0[i], m1[i]) by {
                a.lemma_le_refl(m0[i]);
            }
            assert forall|t: Seq<A::Fact>| is_fixpoint(a, body, t) implies below(a, m1, t) by {
                assert(below(a, m0, t));
            }
        }
    } else {
        proof {
            assert forall|i: int| 0 <= i < n implies a.le(#[trigger] m0[i], m0[i]) by {
                a.lemma_le_refl(m0[i]);
            }
        }
    }
    changed
}

/// One round over every edge of the body, block by block.
fn relax_all<A: Analysis>(a: &A, body: &Body, dir: Direction, states: &mut Vec<A::Domain>) -> (changed: bool)
    requires
        body.wf(),
        a.ready(body),
        dir == a.dir(),
        old(states).len() == body.n_blocks(),
        all_valid(a, old(states)@),
        forall|t: Seq<A::Fact>| is_fixpoint(a, body, t) ==> below(a, models(a, old(states)@), t),
    ensures
        final(states).len() == body.n_blocks(),
        all_valid(a, final(states)@),
        forall|t: Seq<A::Fact>| is_fixpoint(a, body, t) ==> below(a, models(a, final(states)@), t),
        below(a, models(a, old(states)@), models(a, final(states)@)),
        total_height(a, models(a, final(states)@), body.n_blocks() as int) >= total_height(a, models(a, old(states)@), body.n_blocks() as int),
        changed ==> total_height(a, models(a, final(states)@), body.n_blocks() as int) > total_height(a, models(a, old(states)@), body.n_blocks() as int),
        !changed ==> models(a, final(states)@) == models(a, old(states)@),
        !changed ==> forall|b: int, k: int|
            0 <= b < body.n_blocks() && 0 <= k < body.succs(b).len() ==> edge_holds(a, body, models(a, final(states)@), b, k),
{
    let ghost n = body.n_blocks() as int;
    let ghost m0 = models(a, states@);
    let mut changed = false;
    let mut b: usize = 0;
    proof {
        assert forall|i: int| 0 <= i < n implies a.le(#[trigger] m0[i], m0[i]) by {
            a.lemma_le_refl(m0[i]);
        }
    }
    while b < body.blocks.len()
        invariant
            body.wf(),
            a.ready(body),
            dir == a.dir(),
            n == body.n_blocks(),
            b <= n,
            m0 == models(a, old(states)@),
            m0.len() == n,
            states.len() == n,
            all_valid(a, states@),
            forall|t: Seq<A::Fact>| is_fixpoint(a, body, t) ==> below(a, models(a, states@), t),
            below(a, m0, models(a, states@)),
            total_height(a, models(a, states@), n) >= total_height(a, m0, n),
            changed ==> total_height(a, models(a, states@), n) > total_height(a, m0, n),
            !changed ==> models(a, states@) == m0,
            !changed ==> forall|bb: int, k: int|
                0 <= bb < b && 0 <= k < body.succs(bb).len() ==> edge_holds(a, body, models(a, states@), bb, k),
        decreases n - b,
    {
        let m = n_successors(body, b);
        let mut k: usize = 0;
        while k < m
            invariant
                body.wf(),
                a.ready(body),
                dir == a.dir(),
                n == body.n_blocks(),
                b < n,
                k <= m,
                m == body.succs(b as int).len(),
                m0 == models(a, old(states)@),
                m0.len() == n,
                states.len() == n,
                all_valid(a, states@),
                forall|t: Seq<A::Fact>| is_fixpoint(a, body, t) ==> below(a, models(a, states@), t),
                below(a, m0, models(a, states@)),
                total_height(a, models(a, states@), n) >= total_height(a, m0, n),
                changed ==> total_height(a, models(a, states@), n) > total_height(a, m0, n),
                !changed ==> models(a, states@) == m0,
                !changed ==> forall|bb: int, kk: int|
                    0 <= bb < b && 0 <= kk < body.succs(bb).len() ==> edge_holds(a, body, models(a, states@), bb, kk),
                !changed ==> forall|kk: int| 0 <= kk < k ==> edge_holds(a, body, models(a, states@), b as int, kk),
            decreases m - k,
        {
            let ghost prev = models(a, states@);
            let c = relax_edge(a, body, dir, states, b, k);
            proof {
                let cur = models(a, states@);
                assert(prev.len() == n && cur.len() == n);
                assert forall|i: int| 0 <= i < n implies a.le(#[trigger] m0[i], cur[i]) by {
                    assert(a.le(m0[i], prev[i]));
                    assert(a.le(prev[i], cur[i]));
                    a.lemma_le_trans(m0[i], prev[i], cur[i]);
                }
            }
            changed = changed || c;
            k = k + 1;
        }
        b = b + 1;
    }
    changed
}

/// Computes, for every block, the least solution of the analysis' dataflow
/// equations by rounds of edge relaxation, starting from the bottom value
/// everywhere but the entry block. The ghost result counts the rounds: one
/// more than the number of strict climbs, so at most the block count times
/// the lattice height, plus one.
pub fn iterate_to_fixpoint<A: Analysis>(a: &A, body: &Body) -> (r: (Vec<A::Domain>, Ghost<nat>))
    requires
        body.wf(),
        a.ready(body),
    ensures
        all_valid(a, r.0@),
        is_least_fixpoint(a, body, models(a, r.0@)),
        r.1@ <= body.n_blocks() * a.max_height() + 1,
{
    let n = body.blocks.len();
    let dir = a.direction();
    let mut states: Vec<A::Domain> = Vec::new();
    let mut i: usize = 0;
    while i < n
        invariant
            i <= n,
            n == body.n_blocks(),
            a.ready(body),
            states.len() == i,
            all_valid(a, states@),
            forall|j: int| 0 <= j < i ==> a.model(&#[trigger] states@[j]) == a.bottom_fact(),
        decreases n - i,
    {
        states.push(a.bottom(body));
        i = i + 1;
    }
    let mut entry = a.bottom(body);
    a.initialize_start_block(body, &mut entry);
    states.set(0, entry);
    proof {
        let m = models(a, states@);
        assert forall|t: Seq<A::Fact>| is_fixpoint(a, body, t) implies below(a, m, t) by {
            assert forall|j: int| 0 <= j < m.len() implies a.le(#[trigger] m[j], t[j]) by {
                if j == 0 {
                } else {
                    a.lemma_bottom_least(t[j]);
                }
            }
        }
        a.lemma_le_refl(a.start_fact());
    }
    let ghost mut rounds: nat = 0;
    let mut done = false;
    while !done
        invariant
            body.wf(),
            a.ready(body),
            dir == a.dir(),
            n == body.n_blocks(),
            states.len() == n,
            all_valid(a, states@),
            forall|t: Seq<A::Fact>| is_fixpoint(a, body, t) ==> below(a, models(a, states@), t),
            a.le(a.start_fact(), models(a, states@)[0]),
            !done ==> rounds <= total_height(a, models(a, states@), n as int),
            done ==> rounds <= total_height(a, models(a, states@), n as int) + 1,
            done ==> forall|b: int, k: int|
                0 <= b < n && 0 <= k < body.succs(b).len() ==> edge_holds(a, body, models(a, states@), b, k),
        decreases n * a.max_height() - total_height(a, models(a, states@), n as int), if done { 0int } else { 1int },
    {
        let ghost before = models(a, states@);
        proof {
            assert forall|j: int| 0 <= j < n implies a.bounded(#[trigger] before[j]) by {
                a.lemma_valid_bounded(&states@[j]);
            }
            lemma_total_height_bounded(a, before, n as int);
        }
        let changed = relax_all(a, body, dir, &mut states);
        proof {
            let after = models(a, states@);
            assert(a.le(before[0], after[0]));
            a.lemma_le_trans(a.start_fact(), before[0], after[0]);
            assert forall|j: int| 0 <= j < n implies a.bounded(#[trigger] after[j]) by {
                a.lemma_valid_bounded(&states@[j]);
            }
            lemma_total_height_bounded(a, after, n as int);
            rounds = rounds + 1;
        }
        if !changed {
            done = true;
        }
    }
    proof {
        let m = models(a, states@);
        assert forall|j: int| 0 <= j < n implies a.bounded(#[trigger] m[j]) by {
            a.lemma_valid_bounded(&states@[j]);
        }
        lemma_total_height_bounded(a, m, n as int);
        assert(is_fixpoint(a, body, m));
    }
    (states, Ghost(rounds))
}

} // verus!
