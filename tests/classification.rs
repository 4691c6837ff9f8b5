use nopcrat::classify::{check, classify, reads_before_write, AnalysisError};
use nopcrat::mir::{BasicBlockData, Body, LocalTy, Operand, Place, ProjectionElem, Rvalue, Statement, Terminator};
use nopcrat::place_set::PlaceSet;

fn local(l: usize) -> Place {
    Place { local: l, projection: vec![] }
}

fn deref(l: usize) -> Place {
    Place { local: l, projection: vec![ProjectionElem::Deref] }
}

fn deref_field(l: usize, f: usize) -> Place {
    Place { local: l, projection: vec![ProjectionElem::Deref, ProjectionElem::Field(f)] }
}

fn assign(lhs: Place, rhs: Rvalue) -> Statement {
    Statement::Assign(lhs, rhs)
}

fn write_const(lhs: Place) -> Statement {
    assign(lhs, Rvalue::Use(Operand::Constant))
}

fn block(statements: Vec<Statement>, terminator: Terminator) -> BasicBlockData {
    BasicBlockData { statements, terminator }
}

fn body(blocks: Vec<BasicBlockData>, n_locals: usize, arg_count: usize) -> Body {
    let mut local_decls = Vec::new();
    for _ in 0..n_locals {
        local_decls.push(LocalTy::Other);
    }
    Body { blocks, local_decls, arg_count }
}

fn sorted(set: &PlaceSet) -> Vec<(usize, Vec<ProjectionElem>)> {
    let mut v: Vec<(usize, Vec<ProjectionElem>)> =
        set.to_vec().into_iter().map(|p| (p.local, p.projection)).collect();
    v.sort_by(|a, b| a.0.cmp(&b.0).then(a.1.len().cmp(&b.1.len())));
    v
}

fn deref_view(l: usize) -> (usize, Vec<ProjectionElem>) {
    (l, vec![ProjectionElem::Deref])
}

#[test]
fn straight_line_write_is_must() {
    // fn f(p) { *p = 1; }
    let b = body(vec![block(vec![write_const(deref(1))], Terminator::Return)], 2, 1);
    let c = classify(&b).unwrap();
    assert_eq!(sorted(&c.must_writes), vec![deref_view(1)]);
    assert!(sorted(&c.may_writes).is_empty());
}

#[test]
fn conditional_write_is_may() {
    // fn f(p, c) { if c { *p = 1; } }
    let b = body(
        vec![
            block(vec![], Terminator::SwitchInt(vec![1, 2])),
            block(vec![write_const(deref(1))], Terminator::Goto(2)),
            block(vec![], Terminator::Return),
        ],
        3,
        2,
    );
    let c = classify(&b).unwrap();
    assert!(sorted(&c.must_writes).is_empty());
    assert_eq!(sorted(&c.may_writes), vec![deref_view(1)]);
}

#[test]
fn read_before_write_is_excluded() {
    // fn f(p) { let x = *p; *p = x + 1; }
    let b = body(
        vec![block(
            vec![
                assign(local(2), Rvalue::Use(Operand::Copy(deref(1)))),
                assign(local(3), Rvalue::BinaryOp(Operand::Copy(local(2)), Operand::Constant)),
                assign(deref(1), Rvalue::Use(Operand::Move(local(3)))),
            ],
            Terminator::Return,
        )],
        4,
        1,
    );
    let c = classify(&b).unwrap();
    assert!(sorted(&c.must_writes).is_empty());
    assert!(sorted(&c.may_writes).is_empty());
    assert_eq!(sorted(&reads_before_write(&b)), vec![deref_view(1)]);
}

#[test]
fn multiple_returns_both_writing_is_must() {
    // fn f(p, c) { if c { *p = 1; return; } *p = 2; }
    let b = body(
        vec![
            block(vec![], Terminator::SwitchInt(vec![1, 2])),
            block(vec![write_const(deref(1))], Terminator::Return),
            block(vec![write_const(deref(1))], Terminator::Return),
        ],
        3,
        2,
    );
    let c = classify(&b).unwrap();
    assert_eq!(sorted(&c.must_writes), vec![deref_view(1)]);
    assert!(sorted(&c.may_writes).is_empty());
}

#[test]
fn one_return_missing_the_write_gives_may() {
    // fn f(p, c) { if c { return; } *p = 2; }
    let b = body(
        vec![
            block(vec![], Terminator::SwitchInt(vec![1, 2])),
            block(vec![], Terminator::Return),
            block(vec![write_const(deref(1))], Terminator::Return),
        ],
        3,
        2,
    );
    let c = classify(&b).unwrap();
    assert!(sorted(&c.must_writes).is_empty());
    assert_eq!(sorted(&c.may_writes), vec![deref_view(1)]);
}

#[test]
fn loop_reaches_fixpoint() {
    // fn f(p, c) { loop { *p = 1; if c { break; } } }
    let b = body(
        vec![
            block(vec![], Terminator::Goto(1)),
            block(vec![write_const(deref(1))], Terminator::SwitchInt(vec![1, 2])),
            block(vec![], Terminator::Return),
        ],
        3,
        2,
    );
    let c = classify(&b).unwrap();
    assert_eq!(sorted(&c.must_writes), vec![deref_view(1)]);
    assert!(sorted(&c.may_writes).is_empty());
}

#[test]
fn read_in_loop_after_write_is_excluded() {
    // fn f(p, c) { loop { if c { break; } let x = *p; *p = x; } }
    let b = body(
        vec![
            block(vec![], Terminator::SwitchInt(vec![2, 1])),
            block(
                vec![
                    assign(local(3), Rvalue::Use(Operand::Copy(deref(1)))),
                    assign(deref(1), Rvalue::Use(Operand::Copy(local(3)))),
                ],
                Terminator::Goto(0),
            ),
            block(vec![], Terminator::Return),
        ],
        4,
        2,
    );
    let c = classify(&b).unwrap();
    assert!(sorted(&c.must_writes).is_empty());
    assert!(sorted(&c.may_writes).is_empty());
}

#[test]
fn write_then_read_is_kept() {
    // fn f(p) { *p = 1; let x = *p; }
    let b = body(
        vec![block(
            vec![write_const(deref(1)), assign(local(2), Rvalue::Use(Operand::Copy(deref(1))))],
            Terminator::Return,
        )],
        3,
        1,
    );
    let c = classify(&b).unwrap();
    assert_eq!(sorted(&c.must_writes), vec![deref_view(1)]);
    assert!(sorted(&reads_before_write(&b)).is_empty());
}

#[test]
fn no_return_gives_no_must_writes() {
    // fn f(p) -> ! { *p = 1; loop {} }
    let b = body(
        vec![block(vec![write_const(deref(1))], Terminator::Goto(1)), block(vec![], Terminator::Goto(1))],
        2,
        1,
    );
    let c = classify(&b).unwrap();
    assert!(sorted(&c.must_writes).is_empty());
    assert_eq!(sorted(&c.may_writes), vec![deref_view(1)]);
}

#[test]
fn unreachable_return_is_ignored() {
    // Block 2 returns without writing but cannot be reached.
    let b = body(
        vec![
            block(vec![write_const(deref(1))], Terminator::Goto(1)),
            block(vec![], Terminator::Return),
            block(vec![], Terminator::Return),
        ],
        2,
        1,
    );
    let c = classify(&b).unwrap();
    assert_eq!(sorted(&c.must_writes), vec![deref_view(1)]);
}

#[test]
fn return_slot_and_locals_are_not_candidates() {
    // *_0 = 1; *_2 = 1 where _2 is a local, not a parameter.
    let b = body(
        vec![block(vec![write_const(deref(0)), write_const(deref(2))], Terminator::Return)],
        3,
        1,
    );
    let c = classify(&b).unwrap();
    assert!(sorted(&c.must_writes).is_empty());
    assert!(sorted(&c.may_writes).is_empty());
}

#[test]
fn direct_local_write_is_not_through_pointer() {
    let b = body(vec![block(vec![write_const(local(1))], Terminator::Return)], 2, 1);
    let c = classify(&b).unwrap();
    assert!(sorted(&c.must_writes).is_empty());
    assert!(sorted(&c.may_writes).is_empty());
}

#[test]
fn field_writes_are_separate_places() {
    // (*p).0 = 1; if c { (*p).1 = 2; }
    let b = body(
        vec![
            block(vec![write_const(deref_field(1, 0))], Terminator::SwitchInt(vec![1, 2])),
            block(vec![write_const(deref_field(1, 1))], Terminator::Goto(2)),
            block(vec![], Terminator::Return),
        ],
        3,
        2,
    );
    let c = classify(&b).unwrap();
    assert_eq!(
        sorted(&c.must_writes),
        vec![(1, vec![ProjectionElem::Deref, ProjectionElem::Field(0)])]
    );
    assert_eq!(
        sorted(&c.may_writes),
        vec![(1, vec![ProjectionElem::Deref, ProjectionElem::Field(1)])]
    );
}

#[test]
fn taking_a_reference_is_not_a_read() {
    // let r = &*p; *p = 1;
    let b = body(
        vec![block(
            vec![assign(local(2), Rvalue::Ref(deref(1))), write_const(deref(1))],
            Terminator::Return,
        )],
        3,
        1,
    );
    let c = classify(&b).unwrap();
    assert_eq!(sorted(&c.must_writes), vec![deref_view(1)]);
}

#[test]
fn aggregate_operand_is_a_read() {
    // let t = (0, *p); *p = 1;
    let b = body(
        vec![block(
            vec![
                assign(local(2), Rvalue::Aggregate(vec![Operand::Constant, Operand::Copy(deref(1))])),
                write_const(deref(1)),
            ],
            Terminator::Return,
        )],
        3,
        1,
    );
    let c = classify(&b).unwrap();
    assert!(sorted(&c.must_writes).is_empty());
    assert!(sorted(&c.may_writes).is_empty());
}

#[test]
fn read_on_one_branch_excludes() {
    // if c { let x = *p; } *p = 1;
    let b = body(
        vec![
            block(vec![], Terminator::SwitchInt(vec![1, 2])),
            block(vec![assign(local(3), Rvalue::CopyForDeref(deref(1)))], Terminator::Goto(2)),
            block(vec![write_const(deref(1))], Terminator::Return),
        ],
        4,
        2,
    );
    let c = classify(&b).unwrap();
    assert!(sorted(&c.must_writes).is_empty());
    assert!(sorted(&c.may_writes).is_empty());
}

#[test]
fn self_read_write_is_read_first() {
    // *p = *p + 1 reads *p before writing it.
    let b = body(
        vec![block(
            vec![assign(deref(1), Rvalue::CheckedBinaryOp(Operand::Copy(deref(1)), Operand::Constant))],
            Terminator::Return,
        )],
        2,
        1,
    );
    let c = classify(&b).unwrap();
    assert!(sorted(&c.must_writes).is_empty());
    assert!(sorted(&c.may_writes).is_empty());
}

#[test]
fn classification_is_idempotent() {
    let b = body(
        vec![
            block(vec![], Terminator::SwitchInt(vec![1, 2])),
            block(vec![write_const(deref(1)), write_const(deref(2))], Terminator::Goto(2)),
            block(vec![write_const(deref(1))], Terminator::Return),
        ],
        4,
        3,
    );
    let first = classify(&b).unwrap();
    let second = classify(&b).unwrap();
    assert_eq!(sorted(&first.must_writes), sorted(&second.must_writes));
    assert_eq!(sorted(&first.may_writes), sorted(&second.may_writes));
    assert_eq!(sorted(&first.must_writes), vec![deref_view(1)]);
    assert_eq!(sorted(&first.may_writes), vec![deref_view(2)]);
}

#[test]
fn partition_of_candidates() {
    let b = body(
        vec![
            block(vec![write_const(deref(3))], Terminator::SwitchInt(vec![1, 2])),
            block(vec![write_const(deref(1))], Terminator::Goto(2)),
            block(vec![write_const(deref(2))], Terminator::Return),
        ],
        4,
        3,
    );
    let c = classify(&b).unwrap();
    let must = sorted(&c.must_writes);
    let may = sorted(&c.may_writes);
    assert_eq!(must, vec![deref_view(2), deref_view(3)]);
    assert_eq!(may, vec![deref_view(1)]);
    for p in &must {
        assert!(!may.contains(p));
    }
}

#[test]
fn malformed_successor_is_rejected() {
    let b = body(vec![block(vec![], Terminator::Goto(5))], 2, 1);
    assert!(!check(&b));
    assert_eq!(classify(&b).unwrap_err(), AnalysisError::MalformedInput);
}

#[test]
fn malformed_place_is_rejected() {
    let b = body(vec![block(vec![write_const(deref(7))], Terminator::Return)], 2, 1);
    assert!(!check(&b));
    assert_eq!(classify(&b).unwrap_err(), AnalysisError::MalformedInput);
}

#[test]
fn malformed_index_local_is_rejected() {
    let p = Place { local: 1, projection: vec![ProjectionElem::Deref, ProjectionElem::Index(9)] };
    let b = body(vec![block(vec![write_const(p)], Terminator::Return)], 2, 1);
    assert!(!check(&b));
}

#[test]
fn empty_body_is_rejected() {
    let b = body(vec![], 2, 1);
    assert!(!check(&b));
    assert!(classify(&b).is_err());
}

#[test]
fn undeclared_parameter_is_rejected() {
    let b = body(vec![block(vec![], Terminator::Return)], 2, 2);
    assert!(!check(&b));
}

#[test]
fn well_formed_body_passes_check() {
    let b = body(
        vec![
            block(vec![], Terminator::Call(vec![1])),
            block(vec![write_const(deref(1))], Terminator::Other(vec![2])),
            block(vec![], Terminator::Return),
        ],
        2,
        1,
    );
    assert!(check(&b));
    let c = classify(&b).unwrap();
    assert_eq!(sorted(&c.must_writes), vec![deref_view(1)]);
}

#[test]
fn nested_loops_converge() {
    // Two nested loops; *p written in the inner one, *q written before both,
    // *r written only after a read in the outer loop.
    let b = body(
        vec![
            block(vec![write_const(deref(2))], Terminator::Goto(1)),
            block(vec![], Terminator::SwitchInt(vec![2, 5])),
            block(vec![write_const(deref(1))], Terminator::SwitchInt(vec![2, 3])),
            block(
                vec![assign(local(5), Rvalue::Use(Operand::Copy(deref(3)))), write_const(deref(3))],
                Terminator::Goto(4),
            ),
            block(vec![], Terminator::Goto(1)),
            block(vec![], Terminator::Return),
        ],
        6,
        4,
    );
    let c = classify(&b).unwrap();
    assert_eq!(sorted(&c.must_writes), vec![deref_view(2)]);
    assert_eq!(sorted(&c.may_writes), vec![deref_view(1)]);
}
