//! The classifier: combines the write collector with the two analyses to
//! split a function's output-parameter candidates into must-write and
//! may-write places.
use vstd::prelude::*;

use crate::analysis::{
    collect_writes, mentioned_places, read_block, rvalue_to_places, write_block, written_places, ReadAnalysis,
    WriteAnalysis,
};
use crate::dataflow::{
    all_valid, below, edge_holds, is_fixpoint, is_least_fixpoint, iterate_to_fixpoint, models, n_successors,
    successor, Analysis,
};
use crate::lattice::{must_join, must_le, MustPlaceSet};
use crate::mir::{place_wf, rvalue_places, statement_wf, Body, Place, PlaceView, ProjectionElem, Statement, Terminator};
use crate::place_set::PlaceSet;

verus! {

/// The reads-before-write analysis as a mathematical object; its equations
/// do not depend on the universe it carries.
pub open spec fn read_analysis() -> ReadAnalysis {
    ReadAnalysis { universe: Ghost(Set::empty()) }
}

/// The must-write analysis as a mathematical object.
pub open spec fn write_analysis() -> WriteAnalysis {
    WriteAnalysis { universe: Ghost(Set::empty()) }
}

/// The least solution of the reads-before-write equations: for each block,
/// the read demand at its end.
pub open spec fn read_solution(body: &Body) -> Seq<Set<PlaceView>> {
    choose|s: Seq<Set<PlaceView>>| is_least_fixpoint(&read_analysis(), body, s)
}

/// The least solution of the must-write equations: for each block, the
/// must-write fact at its start.
pub open spec fn write_solution(body: &Body) -> Seq<Option<Set<PlaceView>>> {
    choose|s: Seq<Option<Set<PlaceView>>>| is_least_fixpoint(&write_analysis(), body, s)
}

/// The places read through a pointer before being written, on some path
/// from the function's entry.
pub open spec fn entry_reads(body: &Body) -> Set<PlaceView> {
    read_block(body.stmts(0), read_solution(body)[0])
}

/// The join of the must-write facts at the returns among the first `n` blocks.
pub open spec fn returns_meet(body: &Body, s: Seq<Option<Set<PlaceView>>>, n: int) -> Option<Set<PlaceView>>
    decreases n,
{
    if n <= 0 {
        None
    } else {
        let rest = returns_meet(body, s, n - 1);
        if body.blocks@[n - 1].terminator is Return {
            must_join(rest, write_block(body.stmts(n - 1), s[n - 1]))
        } else {
            rest
        }
    }
}

/// The places written on every path to every reachable return; empty when no
/// return is reachable.
pub open spec fn return_must_writes(body: &Body) -> Set<PlaceView> {
    match returns_meet(body, write_solution(body), body.n_blocks() as int) {
        None => Set::empty(),
        Some(x) => x,
    }
}

/// The written places rooted at a parameter and never read before written.
pub open spec fn candidate_writes(body: &Body) -> Set<PlaceView> {
    written_places(body).filter(|p: PlaceView| 0 < p.0 <= body.arg_count && !entry_reads(body).contains(p))
}

pub open spec fn must_writes_of(body: &Body) -> Set<PlaceView> {
    return_must_writes(body).intersect(candidate_writes(body))
}

pub open spec fn may_writes_of(body: &Body) -> Set<PlaceView> {
    candidate_writes(body).difference(must_writes_of(body))
}

proof fn lemma_read_solution(body: &Body, a: ReadAnalysis, m: Seq<Set<PlaceView>>)
    requires
        is_least_fixpoint(&a, body, m),
    ensures
        read_solution(body) == m,
{
    let r = read_analysis();
    assert forall|t: Seq<Set<PlaceView>>| is_fixpoint(&a, body, t) == is_fixpoint(&r, body, t) by {
        if is_fixpoint(&a, body, t) {
            assert forall|b: int, k: int| 0 <= b < body.n_blocks() && 0 <= k < body.succs(b).len() implies
                #[trigger] edge_holds(&r, body, t, b, k) by {
                assert(edge_holds(&a, body, t, b, k));
            }
        }
        if is_fixpoint(&r, body, t) {
            assert forall|b: int, k: int| 0 <= b < body.n_blocks() && 0 <= k < body.succs(b).len() implies
                #[trigger] edge_holds(&a, body, t, b, k) by {
                assert(edge_holds(&r, body, t, b, k));
            }
        }
    }
    assert(is_least_fixpoint(&r, body, m));
    let s = read_solution(body);
    assert(below(&r, s, m));
    assert(below(&r, m, s));
    assert forall|b: int| 0 <= b < s.len() implies s[b] == m[b] by {
        assert(s[b].subset_of(m[b]));
        assert(m[b].subset_of(s[b]));
        assert(s[b] =~= m[b]);
    }
    assert(s =~= m);
}

proof fn lemma_write_solution(body: &Body, a: WriteAnalysis, m: Seq<Option<Set<PlaceView>>>)
    requires
        is_least_fixpoint(&a, body, m),
    ensures
        write_solution(body) == m,
{
    let r = write_analysis();
    assert forall|t: Seq<Option<Set<PlaceView>>>| is_fixpoint(&a, body, t) == is_fixpoint(&r, body, t) by {
        if is_fixpoint(&a, body, t) {
            assert forall|b: int, k: int| 0 <= b < body.n_blocks() && 0 <= k < body.succs(b).len() implies
                #[trigger] edge_holds(&r, body, t, b, k) by {
                assert(edge_holds(&a, body, t, b, k));
            }
        }
        if is_fixpoint(&r, body, t) {
            assert forall|b: int, k: int| 0 <= b < body.n_blocks() && 0 <= k < body.succs(b).len() implies
                #[trigger] edge_holds(&a, body, t, b, k) by {
                assert(edge_holds(&r, body, t, b, k));
            }
        }
    }
    assert(is_least_fixpoint(&r, body, m));
    let s = write_solution(body);
    assert(below(&r, s, m));
    assert(below(&r, m, s));
    assert forall|b: int| 0 <= b < s.len() implies s[b] == m[b] by {
        assert(must_le(s[b], m[b]));
        assert(must_le(m[b], s[b]));
        if let (Some(x), Some(y)) = (s[b], m[b]) {
            assert(x =~= y);
        }
    }
    assert(s =~= m);
}

/// The places read through a pointer before being written, on some path
/// from the entry: the reads-before-write fact at the start of block 0.
pub fn reads_before_write(body: &Body) -> (r: PlaceSet)
    requires
        body.wf(),
    ensures
        r.wf(),
        r@ == entry_reads(body),
{
    let universe = mentioned_places(body);
    proof {
        universe.lemma_finite();
    }
    let a = ReadAnalysis { universe: Ghost(universe@) };
    let (states, _) = iterate_to_fixpoint(&a, body);
    proof {
        lemma_read_solution(body, a, models(&a, states@));
    }
    assert(a.valid(&states@[0]));
    let mut r = a.copy_state(&states[0]);
    a.apply_block(body, 0, &mut r);
    r
}

/// The places written on every path to every return, from the must-write
/// facts; empty when there is no return.
pub fn must_writes_at_returns(body: &Body) -> (r: PlaceSet)
    requires
        body.wf(),
    ensures
        r.wf(),
        r@ == return_must_writes(body),
{
    let universe = mentioned_places(body);
    proof {
        universe.lemma_finite();
    }
    let a = WriteAnalysis { universe: Ghost(universe@) };
    let (states, _) = iterate_to_fixpoint(&a, body);
    let ghost m = models(&a, states@);
    proof {
        lemma_write_solution(body, a, m);
    }
    let mut acc = MustPlaceSet::top();
    let mut b: usize = 0;
    while b < body.blocks.len()
        invariant
            body.wf(),
            a.ready(body),
            states@.len() == body.n_blocks(),
            all_valid(&a, states@),
            m == models(&a, states@),
            b <= body.n_blocks(),
            acc.wf(),
            acc@ == returns_meet(body, m, b as int),
        decreases body.n_blocks() - b,
    {
        if let Terminator::Return = &body.blocks[b].terminator {
            let mut out = a.copy_state(&states[b]);
            a.apply_block(body, b, &mut out);
            acc.join(&out);
        }
        b = b + 1;
    }
    match acc.into_set() {
        None => PlaceSet::new(),
        Some(s) => s,
    }
}

fn place_ok(p: &Place, n_locals: usize) -> (r: bool)
    ensures
        r == place_wf(p@, n_locals as nat),
{
    if p.local >= n_locals {
        return false;
    }
    let mut k: usize = 0;
    while k < p.projection.len()
        invariant
            k <= p.projection@.len(),
            forall|j: int| 0 <= j < k ==> match #[trigger] p.projection@[j] {
                ProjectionElem::Index(l) => l < n_locals,
                _ => true,
            },
        decreases p.projection.len() - k,
    {
        if let ProjectionElem::Index(l) = p.projection[k] {
            if l >= n_locals {
                return false;
            }
        }
        k = k + 1;
    }
    true
}

fn statement_ok(s: &Statement, n_locals: usize) -> (r: bool)
    ensures
        r == statement_wf(*s, n_locals as nat),
{
    match s {
        Statement::Assign(lhs, rhs) => {
            if !place_ok(lhs, n_locals) {
                return false;
            }
            let places = rvalue_to_places(rhs);
            let ghost vs = places@.map_values(|p: Place| p@);
            let mut i: usize = 0;
            while i < places.len()
                invariant
                    i <= places@.len(),
                    vs == places@.map_values(|p: Place| p@),
                    vs == rvalue_places(*rhs),
                    *s == Statement::Assign(*lhs, *rhs),
                    place_wf(lhs@, n_locals as nat),
                    forall|j: int| 0 <= j < i ==> place_wf(#[trigger] vs[j], n_locals as nat),
                decreases places.len() - i,
            {
                assert(vs[i as int] == places@[i as int]@);
                if !place_ok(&places[i], n_locals) {
                    assert(i < rvalue_places(*rhs).len());
                    assert(!place_wf(rvalue_places(*rhs)[i as int], n_locals as nat));
                    assert(!statement_wf(*s, n_locals as nat));
                    return false;
                }
                i = i + 1;
            }
            true
        },
        Statement::Nop => true,
    }
}

/// Whether the body is well formed: it has an entry block, its edges lead to
/// its blocks, its places name declared locals, and its parameters are
/// declared. A malformed body is not analysed.
pub fn check(body: &Body) -> (r: bool)
    ensures
        r == body.wf(),
{
    let n = body.blocks.len();
    let n_locals = body.local_decls.len();
    if n == 0 || body.arg_count >= n_locals {
        return false;
    }
    let mut b: usize = 0;
    while b < n
        invariant
            n == body.n_blocks(),
            n_locals == body.local_decls@.len(),
            b <= n,
            forall|bb: int, k: int|
                0 <= bb < b && 0 <= k < body.succs(bb).len() ==> #[trigger] body.succs(bb)[k] < n,
            forall|bb: int, i: int|
                0 <= bb < b && 0 <= i < body.stmts(bb).len() ==> statement_wf(#[trigger] body.stmts(bb)[i], n_locals as nat),
        decreases n - b,
    {
        let m = n_successors(body, b);
        let mut k: usize = 0;
        while k < m
            invariant
                n == body.n_blocks(),
                b < n,
                m == body.succs(b as int).len(),
                k <= m,
                forall|bb: int, kk: int|
                    0 <= bb < b && 0 <= kk < body.succs(bb).len() ==> #[trigger] body.succs(bb)[kk] < n,
                forall|kk: int| 0 <= kk < k ==> #[trigger] body.succs(b as int)[kk] < n,
            decreases m - k,
        {
            if successor(body, b, k) >= n {
                return false;
            }
            k = k + 1;
        }
        let stmts = &body.blocks[b].statements;
        let mut i: usize = 0;
        while i < stmts.len()
            invariant
                n == body.n_blocks(),
                n_locals == body.local_decls@.len(),
                b < n,
                stmts@ == body.stmts(b as int),
                i <= stmts@.len(),
                forall|bb: int, j: int|
                    0 <= bb < b && 0 <= j < body.stmts(bb).len() ==> statement_wf(#[trigger] body.stmts(bb)[j], n_locals as nat),
                forall|j: int| 0 <= j < i ==> statement_wf(#[trigger] stmts@[j], n_locals as nat),
            decreases stmts.len() - i,
        {
            if !statement_ok(&stmts[i], n_locals) {
                return false;
            }
            i = i + 1;
        }
        b = b + 1;
    }
    true
}

/// The written places rooted at a parameter (not the return slot) that are
/// not read before written.
fn restrict_to_params(writes: &PlaceSet, reads: &PlaceSet, arg_count: usize) -> (r: PlaceSet)
    requires
        writes.wf(),
    ensures
        r.wf(),
        r@ == writes@.filter(|p: PlaceView| 0 < p.0 <= arg_count && !reads@.contains(p)),
{
    let items = writes.to_vec();
    let ghost vs = items@.map_values(|p: Place| p@);
    let ghost f = |p: PlaceView| 0 < p.0 <= arg_count && !reads@.contains(p);
    let mut r = PlaceSet::new();
    let mut i: usize = 0;
    while i < items.len()
        invariant
            i <= items@.len(),
            vs == items@.map_values(|p: Place| p@),
            f == (|p: PlaceView| 0 < p.0 <= arg_count && !reads@.contains(p)),
            r.wf(),
            r@ == vs.subrange(0, i as int).to_set().filter(f),
        decreases items.len() - i,
    {
        assert(vs[i as int] == items@[i as int]@);
        proof {
            vs.subrange(0, i as int).lemma_push_to_set_commute(vs[i as int]);
        }
        assert(vs.subrange(0, i + 1) =~= vs.subrange(0, i as int).push(vs[i as int]));
        let p = &items[i];
        if 0 < p.local && p.local <= arg_count && !reads.contains(p) {
            r.insert(p);
            assert(r@ =~= vs.subrange(0, i + 1).to_set().filter(f));
        } else {
            assert(r@ =~= vs.subrange(0, i + 1).to_set().filter(f));
        }
        i = i + 1;
    }
    assert(vs.subrange(0, i as int) =~= vs);
    r
}

/// Why a function could not be analysed.
#[derive(Clone, Copy, Debug, PartialEq, Eq, Structural)]
pub enum AnalysisError {
    /// The body names a block or a local that it does not have.
    MalformedInput,
}

/// The output-parameter places of one function.
#[derive(Debug)]
pub struct Classification {
    /// Written before every return and never read before written.
    pub must_writes: PlaceSet,
    /// Written on some path, never read before written, but not on every path.
    pub may_writes: PlaceSet,
}

/// `c` is the classification of `body`.
pub open spec fn classified(body: &Body, c: Classification) -> bool {
    &&& c.must_writes.wf()
    &&& c.may_writes.wf()
    &&& c.must_writes@ == must_writes_of(body)
    &&& c.may_writes@ == may_writes_of(body)
}

/// Splits the places that the body writes through its parameters, and never
/// reads before writing, into those written before every return and the rest.
pub fn classify(body: &Body) -> (r: Result<Classification, AnalysisError>)
    ensures
        r is Err <==> !body.wf(),
        r matches Ok(c) ==> classified(body, c),
{
    if !check(body) {
        return Err(AnalysisError::MalformedInput);
    }
    let writes = collect_writes(body);
    let reads = reads_before_write(body);
    let candidates = restrict_to_params(&writes, &reads, body.arg_count);
    assert(candidates@ =~= candidate_writes(body));
    if candidates.len() == 0 {
        proof {
            candidates.lemma_finite();
            candidates@.lemma_len0_is_empty();
        }
        assert(must_writes_of(body) =~= Set::<PlaceView>::empty());
        assert(may_writes_of(body) =~= Set::<PlaceView>::empty());
        return Ok(Classification { must_writes: PlaceSet::new(), may_writes: PlaceSet::new() });
    }
    let mut must_writes = must_writes_at_returns(body);
    must_writes.intersect_with(&candidates);
    let mut may_writes = candidates.duplicate();
    may_writes.subtract(&must_writes);
    Ok(Classification { must_writes, may_writes })
}

/// The classification partitions the candidates: every must-write place is a
/// candidate, no place is both must-write and may-write, and together they
/// are all the candidates.
pub proof fn lemma_partition(body: &Body)
    ensures
        must_writes_of(body).subset_of(candidate_writes(body)),
        must_writes_of(body).disjoint(may_writes_of(body)),
        must_writes_of(body).union(may_writes_of(body)) == candidate_writes(body),
{
    assert(must_writes_of(body).union(may_writes_of(body)) =~= candidate_writes(body));
}

/// Classifying an unchanged body again gives the same places.
pub proof fn lemma_classification_idempotent(body: &Body, first: Classification, second: Classification)
    requires
        classified(body, first),
        classified(body, second),
    ensures
        first.must_writes@ == second.must_writes@,
        first.may_writes@ == second.may_writes@,
{
}

} // verus!
