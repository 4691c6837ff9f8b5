//! The write collector and the two dataflow analyses: reads before write
//! (backward, may) and must-write (forward).
use vstd::prelude::*;

use crate::dataflow::{Analysis, Direction};
use crate::lattice::{must_join, must_le, MustPlaceSet};
use crate::mir::{indirect_first, operand_place, operands_places, rvalue_places, Body, Operand, Place, PlaceView, Rvalue, Statement};
use crate::place_set::PlaceSet;

verus! {

/// The place that a statement writes through a pointer, if it does.
pub open spec fn stmt_writes(s: Statement) -> Set<PlaceView> {
    match s {
        Statement::Assign(lhs, _) => if indirect_first(lhs@) {
            set![lhs@]
        } else {
            Set::empty()
        },
        Statement::Nop => Set::empty(),
    }
}

/// The places that a statement reads through a pointer.
pub open spec fn stmt_reads(s: Statement) -> Set<PlaceView> {
    match s {
        Statement::Assign(_, rhs) => rvalue_places(rhs).to_set().filter(|p: PlaceView| indirect_first(p)),
        Statement::Nop => Set::empty(),
    }
}

/// Every place that the body writes through a pointer, on any path.
pub open spec fn written_places(body: &Body) -> Set<PlaceView> {
    Set::new(|p: PlaceView| exists|b: int, i: int|
        0 <= b < body.n_blocks() && 0 <= i < body.stmts(b).len() && #[trigger] stmt_writes(body.stmts(b)[i]).contains(p))
}

/// `u` holds every place that the body reads or writes through a pointer.
pub open spec fn covers(body: &Body, u: Set<PlaceView>) -> bool {
    forall|b: int, i: int| 0 <= b < body.n_blocks() && 0 <= i < body.stmts(b).len() ==> {
        &&& stmt_writes(#[trigger] body.stmts(b)[i]).subset_of(u)
        &&& stmt_reads(body.stmts(b)[i]).subset_of(u)
    }
}

/// Read demand before a statement, given the demand after it: a write
/// clears the demand for its place, then the places read are demanded.
pub open spec fn read_effect(s: Statement, f: Set<PlaceView>) -> Set<PlaceView> {
    f.difference(stmt_writes(s)).union(stmt_reads(s))
}

/// Read demand at the start of a statement sequence, given the demand at
/// its end.
pub open spec fn read_block(stmts: Seq<Statement>, f: Set<PlaceView>) -> Set<PlaceView>
    decreases stmts.len(),
{
    if stmts.len() == 0 {
        f
    } else {
        read_effect(stmts[0], read_block(stmts.drop_first(), f))
    }
}

/// Must-write fact after a statement, given the fact before it.
pub open spec fn write_effect(s: Statement, f: Option<Set<PlaceView>>) -> Option<Set<PlaceView>> {
    match f {
        None => None,
        Some(x) => Some(x.union(stmt_writes(s))),
    }
}

/// Must-write fact at the end of a statement sequence, given the fact at its
/// start.
pub open spec fn write_block(stmts: Seq<Statement>, f: Option<Set<PlaceView>>) -> Option<Set<PlaceView>>
    decreases stmts.len(),
{
    if stmts.len() == 0 {
        f
    } else {
        write_effect(stmts.last(), write_block(stmts.drop_last(), f))
    }
}

/// The reads-before-write transfer function of a block is monotone: more
/// demand at the block's end gives at least as much at its start.
pub proof fn lemma_read_block_monotone(stmts: Seq<Statement>, x: Set<PlaceView>, y: Set<PlaceView>)
    requires
        x.subset_of(y),
    ensures
        read_block(stmts, x).subset_of(read_block(stmts, y)),
    decreases stmts.len(),
{
    if stmts.len() > 0 {
        lemma_read_block_monotone(stmts.drop_first(), x, y);
    }
}

/// The must-write transfer function of a block is monotone in the
/// must-write order.
pub proof fn lemma_write_block_monotone(stmts: Seq<Statement>, x: Option<Set<PlaceView>>, y: Option<Set<PlaceView>>)
    requires
        must_le(x, y),
    ensures
        must_le(write_block(stmts, x), write_block(stmts, y)),
    decreases stmts.len(),
{
    if stmts.len() > 0 {
        lemma_write_block_monotone(stmts.drop_last(), x, y);
    }
}

fn push_operand_place(places: &mut Vec<Place>, o: &Operand)
    ensures
        final(places)@.map_values(|p: Place| p@) == old(places)@.map_values(|p: Place| p@) + operand_place(*o),
{
    match o {
        Operand::Copy(p) | Operand::Move(p) => {
            places.push(p.duplicate());
            assert(places@.map_values(|p: Place| p@) =~= old(places)@.map_values(|p: Place| p@) + operand_place(*o));
        },
        Operand::Constant => {
            assert(places@.map_values(|p: Place| p@) =~= old(places)@.map_values(|p: Place| p@) + operand_place(*o));
        },
    }
}

/// The places that a right-hand side reads, in operand order.
pub fn rvalue_to_places(rvalue: &Rvalue) -> (r: Vec<Place>)
    ensures
        r@.map_values(|p: Place| p@) == rvalue_places(*rvalue),
{
    let mut places: Vec<Place> = Vec::new();
    assert(places@.map_values(|p: Place| p@) =~= Seq::<PlaceView>::empty());
    match rvalue {
        Rvalue::Use(o) | Rvalue::Repeat(o) | Rvalue::Cast(o) | Rvalue::UnaryOp(o) | Rvalue::ShallowInitBox(o) => {
            push_operand_place(&mut places, o);
            assert(places@.map_values(|p: Place| p@) =~= rvalue_places(*rvalue));
        },
        Rvalue::BinaryOp(o1, o2) | Rvalue::CheckedBinaryOp(o1, o2) => {
            push_operand_place(&mut places, o1);
            push_operand_place(&mut places, o2);
            assert(places@.map_values(|p: Place| p@) =~= rvalue_places(*rvalue));
        },
        Rvalue::Aggregate(os) => {
            let mut i: usize = 0;
            while i < os.len()
                invariant
                    i <= os@.len(),
                    places@.map_values(|p: Place| p@) == operands_places(os@.subrange(0, i as int)),
                decreases os.len() - i,
            {
                push_operand_place(&mut places, &os[i]);
                assert(os@.subrange(0, i + 1).drop_last() =~= os@.subrange(0, i as int));
                i = i + 1;
            }
            assert(os@.subrange(0, i as int) =~= os@);
        },
        Rvalue::CopyForDeref(p) => {
            places.push(p.duplicate());
            assert(places@.map_values(|p: Place| p@) =~= rvalue_places(*rvalue));
        },
        Rvalue::Ref(_) | Rvalue::ThreadLocalRef | Rvalue::AddressOf(_) | Rvalue::Len(_)
        | Rvalue::NullaryOp | Rvalue::Discriminant(_) => {},
    }
    places
}

/// The places that a statement reads through a pointer.
fn statement_reads(s: &Statement) -> (r: PlaceSet)
    ensures
        r.wf(),
        r@ == stmt_reads(*s),
{
    let mut r = PlaceSet::new();
    match s {
        Statement::Assign(_, rhs) => {
            let places = rvalue_to_places(rhs);
            let ghost vs = places@.map_values(|p: Place| p@);
            let mut i: usize = 0;
            while i < places.len()
                invariant
                    i <= places@.len(),
                    vs == places@.map_values(|p: Place| p@),
                    vs == rvalue_places(*rhs),
                    r.wf(),
                    r@ == vs.subrange(0, i as int).to_set().filter(|p: PlaceView| indirect_first(p)),
                decreases places.len() - i,
            {
                assert(vs[i as int] == places@[i as int]@);
                proof { vs.subrange(0, i as int).lemma_push_to_set_commute(vs[i as int]); }
                assert(vs.subrange(0, i + 1) =~= vs.subrange(0, i as int).push(vs[i as int]));
                if places[i].is_indirect_first_projection() {
                    r.insert(&places[i]);
                    assert(r@ =~= vs.subrange(0, i + 1).to_set().filter(|p: PlaceView| indirect_first(p)));
                } else {
                    assert(r@ =~= vs.subrange(0, i + 1).to_set().filter(|p: PlaceView| indirect_first(p)));
                }
                i = i + 1;
            }
            assert(vs.subrange(0, i as int) =~= vs);
        },
        Statement::Nop => {},
    }
    r
}

/// Read demand before `s`, from the demand after it.
fn apply_read_statement(state: &mut PlaceSet, s: &Statement)
    requires
        old(state).wf(),
    ensures
        final(state).wf(),
        final(state)@ == read_effect(*s, old(state)@),
{
    if let Statement::Assign(lhs, _) = s {
        if lhs.is_indirect_first_projection() {
            state.remove(lhs);
        }
    }
    assert(state@ =~= old(state)@.difference(stmt_writes(*s)));
    let reads = statement_reads(s);
    state.union_with(&reads);
}

/// Must-write fact after `s`, from the fact before it.
fn apply_write_statement(state: &mut MustPlaceSet, s: &Statement)
    requires
        old(state).wf(),
    ensures
        final(state).wf(),
        final(state)@ == write_effect(*s, old(state)@),
{
    if let Statement::Assign(lhs, _) = s {
        if lhs.is_indirect_first_projection() {
            state.gen(lhs);
        }
    }
    proof {
        if let Some(x) = old(state)@ {
            assert(state@->Some_0 =~= x.union(stmt_writes(*s)));
        }
    }
}

/// Collects every place that the body writes through a pointer, on any path.
pub fn collect_writes(body: &Body) -> (r: PlaceSet)
    ensures
        r.wf(),
        r@ == written_places(body),
{
    let mut r = PlaceSet::new();
    let mut b: usize = 0;
    while b < body.blocks.len()
        invariant
            b <= body.n_blocks(),
            r.wf(),
            r@ == Set::new(|p: PlaceView| exists|bb: int, i: int|
                0 <= bb < b && 0 <= i < body.stmts(bb).len() && #[trigger] stmt_writes(body.stmts(bb)[i]).contains(p)),
        decreases body.n_blocks() - b,
    {
        let stmts = &body.blocks[b].statements;
        let ghost before = r@;
        let mut i: usize = 0;
        while i < stmts.len()
            invariant
                b < body.n_blocks(),
                stmts@ == body.stmts(b as int),
                i <= stmts@.len(),
                r.wf(),
                r@ == before + Set::new(|p: PlaceView| exists|j: int| 0 <= j < i && #[trigger] stmt_writes(stmts@[j]).contains(p)),
            decreases stmts.len() - i,
        {
            let ghost prev = r@;
            if let Statement::Assign(lhs, _) = &stmts[i] {
                if lhs.is_indirect_first_projection() {
                    r.insert(lhs);
                }
            }
            assert(r@ =~= prev + stmt_writes(stmts@[i as int]));
            assert(r@ =~= before + Set::new(|p: PlaceView| exists|j: int| 0 <= j < i + 1 && #[trigger] stmt_writes(stmts@[j]).contains(p))) by {
                assert forall|p: PlaceView| (exists|j: int| 0 <= j < i + 1 && #[trigger] stmt_writes(stmts@[j]).contains(p)) implies
                    (exists|j: int| 0 <= j < i && #[trigger] stmt_writes(stmts@[j]).contains(p)) || stmt_writes(stmts@[i as int]).contains(p) by {
                    let j = choose|j: int| 0 <= j < i + 1 && #[trigger] stmt_writes(stmts@[j]).contains(p);
                    if j < i {
                    }
                }
            }
            i = i + 1;
        }
        assert(r@ =~= Set::new(|p: PlaceView| exists|bb: int, i: int|
            0 <= bb < b + 1 && 0 <= i < body.stmts(bb).len() && #[trigger] stmt_writes(body.stmts(bb)[i]).contains(p))) by {
            assert forall|p: PlaceView| (exists|bb: int, j: int|
                0 <= bb < b + 1 && 0 <= j < body.stmts(bb).len() && #[trigger] stmt_writes(body.stmts(bb)[j]).contains(p)) implies r@.contains(p) by {
                let (bb, j) = choose|bb: int, j: int|
                    0 <= bb < b + 1 && 0 <= j < body.stmts(bb).len() && #[trigger] stmt_writes(body.stmts(bb)[j]).contains(p);
                if bb == b {
                    assert(stmt_writes(stmts@[j]).contains(p));
                }
            }
        }
        b = b + 1;
    }
    assert(r@ =~= written_places(body));
    r
}

/// Collects every place that the body reads or writes through a pointer;
/// these bound the height of both analyses' lattices.
pub(crate) fn mentioned_places(body: &Body) -> (r: PlaceSet)
    ensures
        r.wf(),
        covers(body, r@),
{
    let mut r = PlaceSet::new();
    let mut b: usize = 0;
    while b < body.blocks.len()
        invariant
            b <= body.n_blocks(),
            r.wf(),
            forall|bb: int, i: int| 0 <= bb < b && 0 <= i < body.stmts(bb).len() ==> {
                &&& stmt_writes(#[trigger] body.stmts(bb)[i]).subset_of(r@)
                &&& stmt_reads(body.stmts(bb)[i]).subset_of(r@)
            },
        decreases body.n_blocks() - b,
    {
        let stmts = &body.blocks[b].statements;
        let mut i: usize = 0;
        while i < stmts.len()
            invariant
                b < body.n_blocks(),
                stmts@ == body.stmts(b as int),
                i <= stmts@.len(),
                r.wf(),
                forall|bb: int, j: int| 0 <= bb < b && 0 <= j < body.stmts(bb).len() ==> {
                    &&& stmt_writes(#[trigger] body.stmts(bb)[j]).subset_of(r@)
                    &&& stmt_reads(body.stmts(bb)[j]).subset_of(r@)
                },
                forall|j: int| 0 <= j < i ==> {
                    &&& stmt_writes(#[trigger] stmts@[j]).subset_of(r@)
                    &&& stmt_reads(stmts@[j]).subset_of(r@)
                },
            decreases stmts.len() - i,
        {
            if let Statement::Assign(lhs, _) = &stmts[i] {
                if lhs.is_indirect_first_projection() {
                    r.insert(lhs);
                }
            }
            let reads = statement_reads(&stmts[i]);
            r.union_with(&reads);
            i = i + 1;
        }
        b = b + 1;
    }
    r
}

/// Reads before write: a backward may-analysis whose state at a point holds
/// the places read through a pointer on some path from that point before
/// being written again.
pub struct ReadAnalysis {
    /// A finite set of places holding every place the body reads or writes
    /// through a pointer.
    pub universe: Ghost<Set<PlaceView>>,
}

impl Analysis for ReadAnalysis {
    type Domain = PlaceSet;
    type Fact = Set<PlaceView>;

    open spec fn dir(&self) -> Direction {
        Direction::Backward
    }

    open spec fn ready(&self, body: &Body) -> bool {
        self.universe@.finite() && covers(body, self.universe@)
    }

    open spec fn model(&self, d: &PlaceSet) -> Set<PlaceView> {
        d@
    }

    open spec fn valid(&self, d: &PlaceSet) -> bool {
        d.wf() && self.bounded(d@)
    }

    open spec fn bounded(&self, f: Set<PlaceView>) -> bool {
        self.universe@.finite() && f.subset_of(self.universe@)
    }

    open spec fn le(&self, a: Set<PlaceView>, b: Set<PlaceView>) -> bool {
        a.subset_of(b)
    }

    open spec fn join_spec(&self, a: Set<PlaceView>, b: Set<PlaceView>) -> Set<PlaceView> {
        a.union(b)
    }

    open spec fn bottom_fact(&self) -> Set<PlaceView> {
        Set::empty()
    }

    open spec fn start_fact(&self) -> Set<PlaceView> {
        Set::empty()
    }

    open spec fn transfer(&self, body: &Body, b: int, f: Set<PlaceView>) -> Set<PlaceView> {
        read_block(body.stmts(b), f)
    }

    open spec fn height(&self, f: Set<PlaceView>) -> nat {
        f.len()
    }

    open spec fn max_height(&self) -> nat {
        self.universe@.len()
    }

    fn direction(&self) -> (r: Direction) {
        Direction::Backward
    }

    fn bottom(&self, body: &Body) -> (r: PlaceSet) {
        PlaceSet::new()
    }

    fn initialize_start_block(&self, body: &Body, d: &mut PlaceSet) {
        *d = PlaceSet::new();
    }

    fn copy_state(&self, d: &PlaceSet) -> (r: PlaceSet) {
        d.duplicate()
    }

    fn join(&self, d: &mut PlaceSet, other: &PlaceSet) -> (changed: bool) {
        d.union_with(other)
    }

    fn apply_block(&self, body: &Body, b: usize, d: &mut PlaceSet) {
        let stmts = &body.blocks[b].statements;
        let ghost f0 = d@;
        let mut i: usize = stmts.len();
        assert(stmts@.subrange(i as int, stmts@.len() as int).len() == 0);
        while i > 0
            invariant
                body.wf(),
                self.ready(body),
                b < body.n_blocks(),
                stmts@ == body.stmts(b as int),
                i <= stmts@.len(),
                d.wf(),
                self.bounded(d@),
                d@ == read_block(stmts@.subrange(i as int, stmts@.len() as int), f0),
            decreases i,
        {
            i = i - 1;
            apply_read_statement(d, &stmts[i]);
            assert(stmts@.subrange(i as int, stmts@.len() as int).drop_first() =~= stmts@.subrange(i + 1, stmts@.len() as int));
            assert(stmts@.subrange(i as int, stmts@.len() as int)[0] == stmts@[i as int]);
            assert(stmt_reads(body.stmts(b as int)[i as int]).subset_of(self.universe@));
        }
        assert(stmts@.subrange(0, stmts@.len() as int) =~= stmts@);
    }

    proof fn lemma_valid_bounded(&self, d: &PlaceSet) {
    }

    proof fn lemma_le_refl(&self, a: Set<PlaceView>) {
    }

    proof fn lemma_le_trans(&self, a: Set<PlaceView>, b: Set<PlaceView>, c: Set<PlaceView>) {
    }

    proof fn lemma_bottom_least(&self, a: Set<PlaceView>) {
    }

    proof fn lemma_join_lub(&self, a: Set<PlaceView>, b: Set<PlaceView>, c: Set<PlaceView>) {
    }

    proof fn lemma_transfer_monotone(&self, body: &Body, b: int, x: Set<PlaceView>, y: Set<PlaceView>) {
        lemma_read_block_monotone(body.stmts(b), x, y);
    }

    proof fn lemma_height_bounded(&self, a: Set<PlaceView>) {
        vstd::set_lib::lemma_len_subset(a, self.universe@);
    }

    proof fn lemma_join_climbs(&self, a: Set<PlaceView>, b: Set<PlaceView>) {
        let j = a.union(b);
        assert(exists|x: PlaceView| j.contains(x) && !a.contains(x)) by {
            if !(exists|x: PlaceView| j.contains(x) && !a.contains(x)) {
                assert(j =~= a);
            }
        }
        let x = choose|x: PlaceView| j.contains(x) && !a.contains(x);
        vstd::set_lib::lemma_set_subset_finite(self.universe@, j);
        vstd::set_lib::lemma_len_subset(a, j.remove(x));
    }
}

/// Must-write: a forward analysis whose state at a point holds the places
/// written through a pointer on every path from the entry to that point,
/// or `Top` where no path reaches it.
pub struct WriteAnalysis {
    /// A finite set of places holding every place the body writes through a
    /// pointer.
    pub universe: Ghost<Set<PlaceView>>,
}

impl Analysis for WriteAnalysis {
    type Domain = MustPlaceSet;
    type Fact = Option<Set<PlaceView>>;

    open spec fn dir(&self) -> Direction {
        Direction::Forward
    }

    open spec fn ready(&self, body: &Body) -> bool {
        self.universe@.finite() && covers(body, self.universe@)
    }

    open spec fn model(&self, d: &MustPlaceSet) -> Option<Set<PlaceView>> {
        d@
    }

    open spec fn valid(&self, d: &MustPlaceSet) -> bool {
        d.wf() && self.bounded(d@)
    }

    open spec fn bounded(&self, f: Option<Set<PlaceView>>) -> bool {
        &&& self.universe@.finite()
        &&& f matches Some(x) ==> x.subset_of(self.universe@)
    }

    open spec fn le(&self, a: Option<Set<PlaceView>>, b: Option<Set<PlaceView>>) -> bool {
        must_le(a, b)
    }

    open spec fn join_spec(&self, a: Option<Set<PlaceView>>, b: Option<Set<PlaceView>>) -> Option<Set<PlaceView>> {
        must_join(a, b)
    }

    open spec fn bottom_fact(&self) -> Option<Set<PlaceView>> {
        None
    }

    open spec fn start_fact(&self) -> Option<Set<PlaceView>> {
        Some(Set::empty())
    }

    open spec fn transfer(&self, body: &Body, b: int, f: Option<Set<PlaceView>>) -> Option<Set<PlaceView>> {
        write_block(body.stmts(b), f)
    }

    open spec fn height(&self, f: Option<Set<PlaceView>>) -> nat {
        match f {
            None => 0,
            Some(x) => (self.universe@.len() + 1 - x.len()) as nat,
        }
    }

    open spec fn max_height(&self) -> nat {
        self.universe@.len() + 1
    }

    fn direction(&self) -> (r: Direction) {
        Direction::Forward
    }

    fn bottom(&self, body: &Body) -> (r: MustPlaceSet) {
        MustPlaceSet::top()
    }

    fn initialize_start_block(&self, body: &Body, d: &mut MustPlaceSet) {
        *d = MustPlaceSet::empty();
    }

    fn copy_state(&self, d: &MustPlaceSet) -> (r: MustPlaceSet) {
        d.duplicate()
    }

    fn join(&self, d: &mut MustPlaceSet, other: &MustPlaceSet) -> (changed: bool) {
        d.join(other)
    }

    fn apply_block(&self, body: &Body, b: usize, d: &mut MustPlaceSet) {
        let stmts = &body.blocks[b].statements;
        let ghost f0 = d@;
        let mut i: usize = 0;
        assert(stmts@.subrange(0, 0).len() == 0);
        while i < stmts.len()
            invariant
                body.wf(),
                self.ready(body),
                b < body.n_blocks(),
                stmts@ == body.stmts(b as int),
                i <= stmts@.len(),
                d.wf(),
                self.bounded(d@),
                d@ == write_block(stmts@.subrange(0, i as int), f0),
            decreases stmts.len() - i,
        {
            apply_write_statement(d, &stmts[i]);
            assert(stmts@.subrange(0, i + 1).drop_last() =~= stmts@.subrange(0, i as int));
            assert(stmt_writes(body.stmts(b as int)[i as int]).subset_of(self.universe@));
            i = i + 1;
        }
        assert(stmts@.subrange(0, stmts@.len() as int) =~= stmts@);
    }

    proof fn lemma_valid_bounded(&self, d: &MustPlaceSet) {
    }

    proof fn lemma_le_refl(&self, a: Option<Set<PlaceView>>) {
    }

    proof fn lemma_le_trans(&self, a: Option<Set<PlaceView>>, b: Option<Set<PlaceView>>, c: Option<Set<PlaceView>>) {
    }

    proof fn lemma_bottom_least(&self, a: Option<Set<PlaceView>>) {
    }

    proof fn lemma_join_lub(&self, a: Option<Set<PlaceView>>, b: Option<Set<PlaceView>>, c: Option<Set<PlaceView>>) {
    }

    proof fn lemma_transfer_monotone(&self, body: &Body, b: int, x: Option<Set<PlaceView>>, y: Option<Set<PlaceView>>) {
        lemma_write_block_monotone(body.stmts(b), x, y);
    }

    proof fn lemma_height_bounded(&self, a: Option<Set<PlaceView>>) {
        if let Some(x) = a {
            vstd::set_lib::lemma_len_subset(x, self.universe@);
        }
    }

    proof fn lemma_join_climbs(&self, a: Option<Set<PlaceView>>, b: Option<Set<PlaceView>>) {
        if let (Some(x), Some(y)) = (a, b) {
            let j = x.intersect(y);
            assert(exists|e: PlaceView| x.contains(e) && !j.contains(e)) by {
                if !(exists|e: PlaceView| x.contains(e) && !j.contains(e)) {
                    assert(j =~= x);
                }
            }
            let e = choose|e: PlaceView| x.contains(e) && !j.contains(e);
            vstd::set_lib::lemma_set_subset_finite(self.universe@, x);
            vstd::set_lib::lemma_len_subset(j, x.remove(e));
            vstd::set_lib::lemma_len_subset(x, self.universe@);
        } else if let (None, Some(y)) = (a, b) {
            vstd::set_lib::lemma_len_subset(y, self.universe@);
        }
    }
}

} // verus!
