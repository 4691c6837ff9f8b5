//! The control-flow representation of one function body that the analyses
//! consume: places, right-hand sides, statements, terminators and blocks.
use vstd::prelude::*;

verus! {

/// One step of a place's access path.
#[derive(Clone, Copy, Debug, PartialEq, Eq, Structural)]
pub enum ProjectionElem {
    /// A dereference of the pointer held so far.
    Deref,
    /// A field of the aggregate held so far, by position.
    Field(usize),
    /// An element of the array held so far, indexed by a local.
    Index(usize),
    /// An element at a fixed offset from the start or from the end.
    ConstantIndex { offset: u64, from_end: bool },
    /// A subslice between fixed offsets.
    Subslice { from: u64, to: u64, from_end: bool },
    /// A variant of the enum held so far, by position.
    Downcast(usize),
    /// A change of the static type that keeps the location.
    Cast,
}

/// The abstract value of a place: its root local and its projections.
pub type PlaceView = (usize, Seq<ProjectionElem>);

/// A storage location: a root local followed by projections.
#[derive(Debug)]
pub struct Place {
    pub local: usize,
    pub projection: Vec<ProjectionElem>,
}

impl View for Place {
    type V = PlaceView;

    open spec fn view(&self) -> PlaceView {
        (self.local, self.projection@)
    }
}

/// A place is an indirect first projection when its first access is a
/// dereference of the root local (`*p`, `(*p).f`, ...).
pub open spec fn indirect_first(p: PlaceView) -> bool {
    p.1.len() > 0 && p.1[0] == ProjectionElem::Deref
}

impl Place {
    /// Whether the place starts with a dereference of its root local.
    pub fn is_indirect_first_projection(&self) -> (r: bool)
        ensures
            r == indirect_first(self@),
    {
        self.projection.len() > 0 && self.projection[0] == ProjectionElem::Deref
    }

    /// A structurally equal copy of the place.
    pub fn duplicate(&self) -> (r: Place)
        ensures
            r@ == self@,
    {
        let mut projection: Vec<ProjectionElem> = Vec::new();
        let mut i: usize = 0;
        while i < self.projection.len()
            invariant
                i <= self.projection.len(),
                projection@ == self.projection@.subrange(0, i as int),
            decreases self.projection.len() - i,
        {
            projection.push(self.projection[i]);
            i = i + 1;
        }
        assert(projection@ =~= self.projection@);
        Place { local: self.local, projection }
    }

    /// Structural equality of two places.
    pub fn same_as(&self, other: &Place) -> (r: bool)
        ensures
            r == (self@ == other@),
    {
        if self.local != other.local || self.projection.len() != other.projection.len() {
            return false;
        }
        let mut i: usize = 0;
        while i < self.projection.len()
            invariant
                i <= self.projection.len(),
                self.projection.len() == other.projection.len(),
                self.projection@.subrange(0, i as int) =~= other.projection@.subrange(0, i as int),
            decreases self.projection.len() - i,
        {
            if self.projection[i] != other.projection[i] {
                return false;
            }
            assert(self.projection@.subrange(0, i + 1) =~= self.projection@.subrange(0, i as int).push(self.projection@[i as int]));
            assert(other.projection@.subrange(0, i + 1) =~= other.projection@.subrange(0, i as int).push(other.projection@[i as int]));
            i = i + 1;
        }
        assert(self.projection@ =~= self.projection@.subrange(0, i as int));
        assert(other.projection@ =~= other.projection@.subrange(0, i as int));
        true
    }
}

/// An operand of a right-hand side.
#[derive(Debug)]
pub enum Operand {
    Copy(Place),
    Move(Place),
    Constant,
}

/// The place an operand reads, if any.
pub open spec fn operand_place(o: Operand) -> Seq<PlaceView> {
    match o {
        Operand::Copy(p) => seq![p@],
        Operand::Move(p) => seq![p@],
        Operand::Constant => Seq::empty(),
    }
}

/// The right-hand side of an assignment. Operator kinds, types and
/// constants play no part in the analyses and are not represented.
#[derive(Debug)]
pub enum Rvalue {
    Use(Operand),
    Repeat(Operand),
    Cast(Operand),
    UnaryOp(Operand),
    ShallowInitBox(Operand),
    BinaryOp(Operand, Operand),
    CheckedBinaryOp(Operand, Operand),
    Aggregate(Vec<Operand>),
    CopyForDeref(Place),
    Ref(Place),
    ThreadLocalRef,
    AddressOf(Place),
    Len(Place),
    NullaryOp,
    Discriminant(Place),
}

/// The places that a right-hand side reads through its operands, in order.
pub open spec fn operands_places(os: Seq<Operand>) -> Seq<PlaceView>
    decreases os.len(),
{
    if os.len() == 0 {
        Seq::empty()
    } else {
        operands_places(os.drop_last()) + operand_place(os.last())
    }
}

/// The places that a right-hand side reads: one per place operand for the
/// operand-based shapes, the place itself for a copy for dereference, and
/// none for references, addresses, lengths, discriminants and nullary or
/// thread-local values.
pub open spec fn rvalue_places(r: Rvalue) -> Seq<PlaceView> {
    match r {
        Rvalue::Use(o) => operand_place(o),
        Rvalue::Repeat(o) => operand_place(o),
        Rvalue::Cast(o) => operand_place(o),
        Rvalue::UnaryOp(o) => operand_place(o),
        Rvalue::ShallowInitBox(o) => operand_place(o),
        Rvalue::BinaryOp(a, b) => operand_place(a) + operand_place(b),
        Rvalue::CheckedBinaryOp(a, b) => operand_place(a) + operand_place(b),
        Rvalue::Aggregate(os) => operands_places(os@),
        Rvalue::CopyForDeref(p) => seq![p@],
        _ => Seq::empty(),
    }
}

/// A statement of a basic block.
#[derive(Debug)]
pub enum Statement {
    /// `lhs = rhs`.
    Assign(Place, Rvalue),
    /// Any statement that neither reads nor writes a place
    /// (storage markers, no-ops).
    Nop,
}

/// How a basic block ends, with its successor edges.
#[derive(Debug)]
pub enum Terminator {
    Goto(usize),
    /// A branch on a value to one of several blocks.
    SwitchInt(Vec<usize>),
    /// A call that continues at the given blocks (return target, cleanup).
    Call(Vec<usize>),
    /// Any other terminator with the given successors (drop, assert).
    Other(Vec<usize>),
    Return,
    Unreachable,
}

/// The successors of a terminator.
pub open spec fn successors(t: Terminator) -> Seq<usize> {
    match t {
        Terminator::Goto(b) => seq![b],
        Terminator::SwitchInt(bs) => bs@,
        Terminator::Call(bs) => bs@,
        Terminator::Other(bs) => bs@,
        Terminator::Return => Seq::empty(),
        Terminator::Unreachable => Seq::empty(),
    }
}

/// A basic block: a statement sequence and a terminator.
#[derive(Debug)]
pub struct BasicBlockData {
    pub statements: Vec<Statement>,
    pub terminator: Terminator,
}

/// A field of an aggregate type: its name and its declared type, as text.
#[derive(Debug)]
pub struct FieldDef {
    pub name: String,
    pub ty: String,
}

/// What the analyses need of a local's static type.
#[derive(Debug)]
pub enum LocalTy {
    /// A pointer to a named aggregate with the given fields.
    PtrToAggregate(Vec<FieldDef>),
    Other,
}

/// The body of one function. Local 0 is the return slot, locals
/// `1..=arg_count` are the parameters, and block 0 is the entry block.
#[derive(Debug)]
pub struct Body {
    pub blocks: Vec<BasicBlockData>,
    pub local_decls: Vec<LocalTy>,
    pub arg_count: usize,
}

pub open spec fn place_wf(p: PlaceView, n_locals: nat) -> bool {
    &&& p.0 < n_locals
    &&& forall|k: int| 0 <= k < p.1.len() ==> match #[trigger] p.1[k] {
        ProjectionElem::Index(l) => l < n_locals,
        _ => true,
    }
}

pub open spec fn statement_wf(s: Statement, n_locals: nat) -> bool {
    match s {
        Statement::Assign(lhs, rhs) => place_wf(lhs@, n_locals) && forall|k: int|
            0 <= k < rvalue_places(rhs).len() ==> place_wf(#[trigger] rvalue_places(rhs)[k], n_locals),
        Statement::Nop => true,
    }
}

impl Body {
    pub open spec fn n_blocks(&self) -> nat {
        self.blocks@.len()
    }

    pub open spec fn succs(&self, b: int) -> Seq<usize> {
        successors(self.blocks@[b].terminator)
    }

    pub open spec fn stmts(&self, b: int) -> Seq<Statement> {
        self.blocks@[b].statements@
    }

    /// The body has an entry block, every edge leads to a block of the body,
    /// every place names a declared local, and every parameter is declared.
    pub open spec fn wf(&self) -> bool {
        &&& self.blocks@.len() > 0
        &&& self.arg_count < self.local_decls@.len()
        &&& forall|b: int, k: int|
            0 <= b < self.n_blocks() && 0 <= k < self.succs(b).len() ==> #[trigger] self.succs(b)[k]
                < self.n_blocks()
        &&& forall|b: int, i: int|
            0 <= b < self.n_blocks() && 0 <= i < self.stmts(b).len() ==> statement_wf(
                #[trigger] self.stmts(b)[i],
                self.local_decls@.len(),
            )
    }
}

} // verus!
