use nopcrat::analysis::{collect_writes, rvalue_to_places};
use nopcrat::lattice::MustPlaceSet;
use nopcrat::mir::{BasicBlockData, Body, FieldDef, LocalTy, Operand, Place, ProjectionElem, Rvalue, Statement, Terminator};
use nopcrat::place_set::PlaceSet;
use nopcrat::report::{run_code, FunctionItem};

fn p(local: usize, projection: Vec<ProjectionElem>) -> Place {
    Place { local, projection }
}

fn d(local: usize) -> Place {
    p(local, vec![ProjectionElem::Deref])
}

fn views(places: &[Place]) -> Vec<(usize, Vec<ProjectionElem>)> {
    let mut v: Vec<(usize, Vec<ProjectionElem>)> =
        places.iter().map(|q| (q.local, q.projection.clone())).collect();
    v.sort_by(|a, b| a.0.cmp(&b.0).then(a.1.len().cmp(&b.1.len())));
    v
}

fn set_of(places: Vec<Place>) -> PlaceSet {
    let mut s = PlaceSet::new();
    for q in &places {
        s.insert(q);
    }
    s
}

#[test]
fn place_equality_is_structural() {
    assert!(d(1).same_as(&d(1)));
    assert!(!d(1).same_as(&d(2)));
    assert!(!d(1).same_as(&p(1, vec![])));
    assert!(!p(1, vec![ProjectionElem::Deref, ProjectionElem::Downcast(0)])
        .same_as(&p(1, vec![ProjectionElem::Deref, ProjectionElem::Downcast(1)])));
    assert!(p(1, vec![ProjectionElem::ConstantIndex { offset: 2, from_end: false }])
        .same_as(&p(1, vec![ProjectionElem::ConstantIndex { offset: 2, from_end: false }])));
    assert!(!p(1, vec![ProjectionElem::Subslice { from: 0, to: 1, from_end: true }])
        .same_as(&p(1, vec![ProjectionElem::Subslice { from: 0, to: 1, from_end: false }])));
    assert!(!p(1, vec![ProjectionElem::Deref, ProjectionElem::Field(0)])
        .same_as(&p(1, vec![ProjectionElem::Deref, ProjectionElem::Field(1)])));
    let copy = p(3, vec![ProjectionElem::Deref, ProjectionElem::Index(2)]).duplicate();
    assert_eq!(copy.local, 3);
    assert_eq!(copy.projection, vec![ProjectionElem::Deref, ProjectionElem::Index(2)]);
}

#[test]
fn indirect_first_projection() {
    assert!(d(1).is_indirect_first_projection());
    assert!(p(1, vec![ProjectionElem::Deref, ProjectionElem::Field(2)]).is_indirect_first_projection());
    assert!(!p(1, vec![]).is_indirect_first_projection());
    assert!(!p(1, vec![ProjectionElem::Field(0), ProjectionElem::Deref]).is_indirect_first_projection());
}

#[test]
fn place_set_insert_and_remove() {
    let mut s = PlaceSet::new();
    assert_eq!(s.len(), 0);
    assert!(s.insert(&d(1)));
    assert!(!s.insert(&d(1)));
    assert!(s.insert(&d(2)));
    assert_eq!(s.len(), 2);
    assert!(s.contains(&d(1)));
    s.remove(&d(1));
    assert!(!s.contains(&d(1)));
    assert!(s.contains(&d(2)));
    assert_eq!(s.len(), 1);
    s.remove(&d(5));
    assert_eq!(s.len(), 1);
}

#[test]
fn place_set_union_and_intersection() {
    let mut a = set_of(vec![d(1), d(2)]);
    let b = set_of(vec![d(2), d(3)]);
    assert!(a.union_with(&b));
    assert_eq!(views(&a.to_vec()), vec![(1, vec![ProjectionElem::Deref]), (2, vec![ProjectionElem::Deref]), (3, vec![ProjectionElem::Deref])]);
    assert!(!a.union_with(&b));
    let mut c = set_of(vec![d(1), d(2)]);
    assert!(c.intersect_with(&b));
    assert_eq!(views(&c.to_vec()), vec![(2, vec![ProjectionElem::Deref])]);
    assert!(!c.intersect_with(&b));
    let mut e = set_of(vec![d(1), d(2)]);
    e.subtract(&b);
    assert_eq!(views(&e.to_vec()), vec![(1, vec![ProjectionElem::Deref])]);
    assert!(e.has_root(1));
    assert!(!e.has_root(2));
}

#[test]
fn must_set_top_is_join_identity() {
    let mut top = MustPlaceSet::top();
    let empty = MustPlaceSet::empty();
    assert!(!top.duplicate().join(&MustPlaceSet::top()));
    assert!(top.join(&empty));
    assert_eq!(top.into_set().map(|s| s.len()), Some(0));

    let mut x = MustPlaceSet::empty();
    x.gen(&d(1));
    x.gen(&d(2));
    assert!(!x.join(&MustPlaceSet::top()));
    let mut y = MustPlaceSet::empty();
    y.gen(&d(2));
    y.gen(&d(3));
    assert!(x.join(&y));
    let s = x.into_set().unwrap();
    assert_eq!(views(&s.to_vec()), vec![(2, vec![ProjectionElem::Deref])]);

    let mut t = MustPlaceSet::top();
    t.gen(&d(1));
    assert!(t.into_set().is_none());
}

#[test]
fn rvalue_places_by_shape() {
    let r = Rvalue::BinaryOp(Operand::Copy(d(1)), Operand::Move(p(2, vec![])));
    assert_eq!(views(&rvalue_to_places(&r)), vec![(1, vec![ProjectionElem::Deref]), (2, vec![])]);
    let r = Rvalue::Aggregate(vec![Operand::Constant, Operand::Copy(d(4)), Operand::Move(d(3))]);
    let places = rvalue_to_places(&r);
    assert_eq!(places.len(), 2);
    assert_eq!(places[0].local, 4);
    assert_eq!(places[1].local, 3);
    assert!(rvalue_to_places(&Rvalue::Use(Operand::Constant)).is_empty());
    assert_eq!(rvalue_to_places(&Rvalue::Repeat(Operand::Copy(d(1)))).len(), 1);
    assert_eq!(rvalue_to_places(&Rvalue::Cast(Operand::Copy(d(1)))).len(), 1);
    assert_eq!(rvalue_to_places(&Rvalue::UnaryOp(Operand::Copy(d(1)))).len(), 1);
    assert_eq!(rvalue_to_places(&Rvalue::ShallowInitBox(Operand::Copy(d(1)))).len(), 1);
    assert_eq!(rvalue_to_places(&Rvalue::CopyForDeref(d(1))).len(), 1);
    assert!(rvalue_to_places(&Rvalue::Ref(d(1))).is_empty());
    assert!(rvalue_to_places(&Rvalue::AddressOf(d(1))).is_empty());
    assert!(rvalue_to_places(&Rvalue::Len(d(1))).is_empty());
    assert!(rvalue_to_places(&Rvalue::Discriminant(d(1))).is_empty());
    assert!(rvalue_to_places(&Rvalue::NullaryOp).is_empty());
    assert!(rvalue_to_places(&Rvalue::ThreadLocalRef).is_empty());
}

#[test]
fn write_collector_is_flow_insensitive() {
    let body = Body {
        blocks: vec![
            BasicBlockData {
                statements: vec![
                    Statement::Assign(d(1), Rvalue::Use(Operand::Constant)),
                    Statement::Nop,
                    Statement::Assign(p(2, vec![]), Rvalue::Use(Operand::Copy(d(3)))),
                ],
                terminator: Terminator::SwitchInt(vec![1]),
            },
            BasicBlockData {
                statements: vec![
                    Statement::Assign(d(3), Rvalue::Use(Operand::Constant)),
                    Statement::Assign(d(1), Rvalue::Use(Operand::Constant)),
                ],
                terminator: Terminator::Unreachable,
            },
        ],
        local_decls: vec![LocalTy::Other, LocalTy::Other, LocalTy::Other, LocalTy::Other],
        arg_count: 3,
    };
    let w = collect_writes(&body);
    assert_eq!(views(&w.to_vec()), vec![(1, vec![ProjectionElem::Deref]), (3, vec![ProjectionElem::Deref])]);
}

fn item(name: &str, body: Body) -> FunctionItem {
    FunctionItem { name: name.to_string(), file: "lib.rs".to_string(), body }
}

fn one_block(statements: Vec<Statement>, local_decls: Vec<LocalTy>, arg_count: usize) -> Body {
    Body {
        blocks: vec![BasicBlockData { statements, terminator: Terminator::Return }],
        local_decls,
        arg_count,
    }
}

#[test]
fn run_code_reports_functions_with_candidates() {
    let fields = vec![
        FieldDef { name: "x".to_string(), ty: "i32".to_string() },
        FieldDef { name: "y".to_string(), ty: "u8".to_string() },
    ];
    let items = vec![
        // No parameters: skipped.
        item("noargs", one_block(vec![], vec![LocalTy::Other], 0)),
        // Writes through an aggregate pointer.
        item(
            "out",
            one_block(
                vec![
                    Statement::Assign(p(1, vec![ProjectionElem::Deref, ProjectionElem::Field(0)]), Rvalue::Use(Operand::Constant)),
                    Statement::Assign(d(2), Rvalue::Use(Operand::Constant)),
                ],
                vec![LocalTy::Other, LocalTy::PtrToAggregate(fields), LocalTy::Other, LocalTy::PtrToAggregate(vec![])],
                3,
            ),
        ),
        // Malformed: skipped.
        item("broken", one_block(vec![Statement::Assign(d(9), Rvalue::Use(Operand::Constant))], vec![LocalTy::Other, LocalTy::Other], 1)),
        // No candidate: skipped.
        item("reader", one_block(vec![Statement::Assign(p(2, vec![]), Rvalue::Use(Operand::Copy(d(1))))], vec![LocalTy::Other, LocalTy::Other, LocalTy::Other], 1)),
    ];
    let reports = run_code(&items);
    assert_eq!(reports.len(), 1);
    let r = &reports[0];
    assert_eq!(r.name, "out");
    assert_eq!(r.file, "lib.rs");
    assert_eq!(
        views(&r.must_writes.to_vec()),
        vec![(1, vec![ProjectionElem::Deref, ProjectionElem::Field(0)]), (2, vec![ProjectionElem::Deref])]
    );
    assert!(r.may_writes.to_vec().is_empty());
    assert_eq!(r.aggregates.len(), 1);
    assert_eq!(r.aggregates[0].index, 1);
    assert_eq!(r.aggregates[0].fields.len(), 2);
    assert_eq!(r.aggregates[0].fields[0].name, "x");
    assert_eq!(r.aggregates[0].fields[1].ty, "u8");
}

#[test]
fn run_code_on_empty_program() {
    assert!(run_code(&vec![]).is_empty());
}
