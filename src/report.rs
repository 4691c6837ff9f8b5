//! Classification of every function of a program, in the form handed to
//! the rewriting and reporting side.
use vstd::prelude::*;

use crate::classify::{candidate_writes, classified, classify, lemma_partition, may_writes_of, must_writes_of, Classification};
use crate::mir::{Body, FieldDef, LocalTy, PlaceView};
use crate::place_set::PlaceSet;

verus! {

/// One function of the program, as the front end lowered it.
#[derive(Debug)]
pub struct FunctionItem {
    /// The function's qualified name.
    pub name: String,
    /// The source file that defines it.
    pub file: String,
    pub body: Body,
}

/// The fields of the aggregate that a candidate parameter points to.
#[derive(Debug)]
pub struct ParamFields {
    /// The parameter's index, from 1.
    pub index: usize,
    pub fields: Vec<FieldDef>,
}

/// The output parameters found in one function.
#[derive(Debug)]
pub struct FunctionReport {
    pub name: String,
    pub file: String,
    pub must_writes: PlaceSet,
    pub may_writes: PlaceSet,
    /// For each candidate parameter that points to a named aggregate, in
    /// increasing index order, that aggregate's fields.
    pub aggregates: Vec<ParamFields>,
}

/// A function is reported when it has parameters, its body is well formed,
/// and some place is a candidate output.
pub open spec fn is_reported(item: FunctionItem) -> bool {
    &&& item.body.arg_count > 0
    &&& item.body.wf()
    &&& candidate_writes(&item.body) != Set::<PlaceView>::empty()
}

/// The items that are reported, in order.
pub open spec fn reported_items(items: Seq<FunctionItem>) -> Seq<FunctionItem>
    decreases items.len(),
{
    if items.len() == 0 {
        Seq::empty()
    } else if is_reported(items.last()) {
        reported_items(items.drop_last()).push(items.last())
    } else {
        reported_items(items.drop_last())
    }
}

/// The parameter has a candidate place and points to a named aggregate.
pub open spec fn is_aggregate_candidate(body: &Body, i: int) -> bool {
    &&& 0 < i <= body.arg_count
    &&& body.local_decls@[i] is PtrToAggregate
    &&& exists|p: PlaceView| candidate_writes(body).contains(p) && p.0 == i
}

/// The aggregate candidates among parameters `1..n`, in increasing order.
pub open spec fn aggregate_candidates(body: &Body, n: int) -> Seq<int>
    decreases n,
{
    if n <= 1 {
        Seq::empty()
    } else if is_aggregate_candidate(body, n - 1) {
        aggregate_candidates(body, n - 1).push(n - 1)
    } else {
        aggregate_candidates(body, n - 1)
    }
}

/// The fields that a local's type points to, if it points to an aggregate.
pub open spec fn fields_of(t: LocalTy) -> Seq<FieldDef> {
    match t {
        LocalTy::PtrToAggregate(fs) => fs@,
        LocalTy::Other => Seq::empty(),
    }
}

/// `a` lists the fields of each aggregate candidate of `body`.
pub open spec fn describes_aggregates(body: &Body, a: Seq<ParamFields>) -> bool {
    let idx = aggregate_candidates(body, body.arg_count + 1);
    &&& a.len() == idx.len()
    &&& forall|j: int| 0 <= j < a.len() ==> #[trigger] a[j].index == idx[j]
    &&& forall|j: int| 0 <= j < a.len() ==> fields_of(body.local_decls@[#[trigger] a[j].index as int]) == a[j].fields@
}

/// `r` is the report of `item`.
pub open spec fn describes(r: FunctionReport, item: FunctionItem) -> bool {
    &&& r.name == item.name
    &&& r.file == item.file
    &&& r.must_writes.wf()
    &&& r.may_writes.wf()
    &&& r.must_writes@ == must_writes_of(&item.body)
    &&& r.may_writes@ == may_writes_of(&item.body)
    &&& describes_aggregates(&item.body, r.aggregates@)
}

fn copy_fields(fields: &Vec<FieldDef>) -> (r: Vec<FieldDef>)
    ensures
        r@ == fields@,
{
    let mut r: Vec<FieldDef> = Vec::new();
    let mut i: usize = 0;
    while i < fields.len()
        invariant
            i <= fields@.len(),
            r@ == fields@.subrange(0, i as int),
        decreases fields.len() - i,
    {
        let f = &fields[i];
        r.push(FieldDef { name: f.name.clone(), ty: f.ty.clone() });
        assert(fields@.subrange(0, i + 1) =~= fields@.subrange(0, i as int).push(fields@[i as int]));
        i = i + 1;
    }
    assert(fields@.subrange(0, i as int) =~= fields@);
    r
}

/// The fields of each parameter that has a candidate place and points to a
/// named aggregate.
fn candidate_aggregates(body: &Body, c: &Classification) -> (r: Vec<ParamFields>)
    requires
        body.wf(),
        classified(body, *c),
    ensures
        describes_aggregates(body, r@),
{
    let mut r: Vec<ParamFields> = Vec::new();
    let mut i: usize = 1;
    let n_locals = body.local_decls.len();
    proof {
        lemma_partition(body);
    }
    while i <= body.arg_count
        invariant
            body.wf(),
            n_locals == body.local_decls@.len(),
            classified(body, *c),
            must_writes_of(body).union(may_writes_of(body)) == candidate_writes(body),
            1 <= i <= body.arg_count + 1,
            r@.len() == aggregate_candidates(body, i as int).len(),
            forall|j: int| 0 <= j < r@.len() ==> #[trigger] r@[j].index == aggregate_candidates(body, i as int)[j],
            forall|j: int| 0 <= j < r@.len() ==> fields_of(body.local_decls@[#[trigger] r@[j].index as int]) == r@[j].fields@,
        decreases body.arg_count + 1 - i,
    {
        let ghost before = aggregate_candidates(body, i as int);
        let ghost old_r = r@;
        if let LocalTy::PtrToAggregate(fields) = &body.local_decls[i] {
            let in_must = c.must_writes.has_root(i);
            if in_must || c.may_writes.has_root(i) {
                proof {
                    let v = if in_must {
                        choose|v: PlaceView| c.must_writes@.contains(v) && v.0 == i
                    } else {
                        choose|v: PlaceView| c.may_writes@.contains(v) && v.0 == i
                    };
                    assert(candidate_writes(body).contains(v));
                }
                r.push(ParamFields { index: i, fields: copy_fields(fields) });
                assert(is_aggregate_candidate(body, i as int));
                assert(aggregate_candidates(body, i + 1) == before.push(i as int));
            } else {
                proof {
                    if exists|p: PlaceView| candidate_writes(body).contains(p) && p.0 == i {
                        let p = choose|p: PlaceView| candidate_writes(body).contains(p) && p.0 == i;
                        assert(must_writes_of(body).union(may_writes_of(body)).contains(p));
                    }
                    assert(!is_aggregate_candidate(body, i as int));
                    assert(aggregate_candidates(body, i + 1) == before);
                    assert(r@ == old_r);
                }
            }
        } else {
            assert(!is_aggregate_candidate(body, i as int));
            assert(aggregate_candidates(body, i + 1) == before);
            assert(r@ == old_r);
        }
        i = i + 1;
    }
    r
}

/// Classifies every function of the program and reports, in order, each one
/// that has parameters, a well-formed body and candidate output places.
/// Functions that are malformed or have no candidate are left unchanged and
/// not reported.
pub fn run_code(items: &Vec<FunctionItem>) -> (r: Vec<FunctionReport>)
    ensures
        r@.len() == reported_items(items@).len(),
        forall|j: int| 0 <= j < r@.len() ==> describes(#[trigger] r@[j], reported_items(items@)[j]),
{
    let mut r: Vec<FunctionReport> = Vec::new();
    let mut i: usize = 0;
    while i < items.len()
        invariant
            i <= items@.len(),
            r@.len() == reported_items(items@.subrange(0, i as int)).len(),
            forall|j: int| 0 <= j < r@.len() ==> describes(#[trigger] r@[j], reported_items(items@.subrange(0, i as int))[j]),
        decreases items.len() - i,
    {
        let item = &items[i];
        let ghost prefix = items@.subrange(0, i as int);
        assert(items@.subrange(0, i + 1).drop_last() =~= prefix);
        assert(items@.subrange(0, i + 1).last() == *item);
        if item.body.arg_count > 0 {
            match classify(&item.body) {
                Ok(c) => {
                    proof {
                        lemma_partition(&item.body);
                    }
                    if c.must_writes.len() > 0 || c.may_writes.len() > 0 {
                        proof {
                            if candidate_writes(&item.body) == Set::<PlaceView>::empty() {
                                assert(c.must_writes@ =~= Set::<PlaceView>::empty());
                                assert(c.may_writes@ =~= Set::<PlaceView>::empty());
                            }
                        }
                        let aggregates = candidate_aggregates(&item.body, &c);
                        r.push(FunctionReport {
                            name: item.name.clone(),
                            file: item.file.clone(),
                            must_writes: c.must_writes,
                            may_writes: c.may_writes,
                            aggregates,
                        });
                    } else {
                        proof {
                            c.must_writes.lemma_finite();
                            c.may_writes.lemma_finite();
                            c.must_writes@.lemma_len0_is_empty();
                            c.may_writes@.lemma_len0_is_empty();
                            assert(candidate_writes(&item.body) =~= Set::<PlaceView>::empty());
                        }
                    }
                },
                Err(_) => {},
            }
        }
        i = i + 1;
    }
    assert(items@.subrange(0, i as int) =~= items@);
    r
}

} // verus!
