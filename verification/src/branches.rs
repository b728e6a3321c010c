//! The bookkeeping of alternative branches in a layout stream.  A choice
//! between `n` alternatives is written as a balanced tree of two-way
//! branches: each branch starts with an entry mark that holds the length of
//! its first part, and its first part ends with an exit mark that holds the
//! length of the second part.  The marks are written as placeholders first
//! and filled in once the lengths are known.
use vstd::prelude::*;

verus! {

/// What the branch bookkeeping sees of the layout stream: its own marks,
/// and everything else.
#[derive(Debug, Clone, Copy, PartialEq, Eq, Structural)]
pub enum Mark {
    BranchEntry(usize),
    BranchExit(usize),
    Other,
}

/// How far one two-way branch is written.
#[derive(Debug, Clone, Copy, PartialEq, Eq, Structural)]
pub enum BranchState {
    /// Nothing written yet.
    Pre,
    /// The entry mark is written at `entry_pos`; the first part follows.
    A { entry_pos: usize },
    /// The first part is done and the exit mark is at `exit_pos`; the
    /// second part follows.
    B { exit_pos: usize },
    /// Both parts are done.
    Post,
}

/// The state after a step of a branch, and the stream after it.
pub open spec fn state_step(state: BranchState, stream: Seq<Mark>) -> (BranchState, Seq<Mark>) {
    let pos = stream.len();
    match state {
        BranchState::Pre => (BranchState::A { entry_pos: pos as usize }, stream.push(Mark::BranchEntry(0))),
        BranchState::A { entry_pos } => (
            BranchState::B { exit_pos: pos as usize },
            stream.push(Mark::BranchEntry(0)).update(entry_pos as int, Mark::BranchEntry((pos - entry_pos) as usize)),
        ),
        BranchState::B { exit_pos } => (
            BranchState::Post,
            stream.update(exit_pos as int, Mark::BranchExit((pos - exit_pos - 1) as usize)),
        ),
        BranchState::Post => (state, stream),
    }
}

/// The shape a two-way branch leaves in the stream: after the stream `s`,
/// an entry mark holding the length of the first part plus one, the first
/// part `a`, an exit mark holding the length of the second part, and the
/// second part `b`; the branch is then done.
pub proof fn lemma_two_way_shape(s: Seq<Mark>, a: Seq<Mark>, b: Seq<Mark>)
    requires
        s.len() + a.len() + b.len() + 2 < usize::MAX,
    ensures
        ({
            let (st1, s1) = state_step(BranchState::Pre, s);
            let (st2, s2) = state_step(st1, s1 + a);
            let (st3, s3) = state_step(st2, s2 + b);
            &&& st3 == BranchState::Post
            &&& s3 == s + seq![Mark::BranchEntry((a.len() + 1) as usize)] + a + seq![Mark::BranchExit(b.len() as usize)] + b
        }),
{
    let p = s.len();
    let (st1, s1) = state_step(BranchState::Pre, s);
    assert(s1 == s.push(Mark::BranchEntry(0)));
    let (st2, s2) = state_step(st1, s1 + a);
    assert(st2 == BranchState::B { exit_pos: (p + 1 + a.len()) as usize });
    assert(s2 =~= s + seq![Mark::BranchEntry((a.len() + 1) as usize)] + a + seq![Mark::BranchEntry(0)]);
    let (st3, s3) = state_step(st2, s2 + b);
    assert(s3 =~= s + seq![Mark::BranchEntry((a.len() + 1) as usize)] + a + seq![Mark::BranchExit(b.len() as usize)] + b);
}

/// A step may be made: the branch is not done, and its marks are in the
/// stream (which has room for one more).
pub open spec fn state_fits(state: BranchState, stream: Seq<Mark>) -> bool {
    &&& stream.len() < usize::MAX
    &&& match state {
        BranchState::Pre => true,
        BranchState::A { entry_pos } => entry_pos < stream.len(),
        BranchState::B { exit_pos } => exit_pos < stream.len(),
        BranchState::Post => false,
    }
}

impl BranchState {
    /// Moves the branch one step on: writes the entry placeholder; or
    /// writes the exit placeholder and fills in the length of the first
    /// part; or fills in the length of the second part.
    pub fn step(&mut self, stream: &mut Vec<Mark>)
        requires
            state_fits(*old(self), old(stream)@),
        ensures
            (*final(self), final(stream)@) == state_step(*old(self), old(stream)@),
    {
        let pos = stream.len();
        *self = match *self {
            BranchState::Pre => {
                stream.push(Mark::BranchEntry(0));
                BranchState::A { entry_pos: pos }
            },
            BranchState::A { entry_pos } => {
                stream.push(Mark::BranchEntry(0));
                let len_a = pos - entry_pos;
                stream.set(entry_pos, Mark::BranchEntry(len_a));
                BranchState::B { exit_pos: pos }
            },
            BranchState::B { exit_pos } => {
                let len_b = pos - exit_pos - 1;
                stream.set(exit_pos, Mark::BranchExit(len_b));
                BranchState::Post
            },
            BranchState::Post => BranchState::Post,
        };
    }
}

/// A two-way branch over `size` alternatives (at least two).
#[derive(Debug, Clone, Copy, PartialEq, Eq, Structural)]
pub struct Branch {
    pub size: usize,
    pub state: BranchState,
}

/// The branches being written, the innermost last.
#[derive(Debug, Clone)]
pub struct BranchStack {
    items: Vec<Branch>,
}

/// The stack after the branches whose second part is done were finished
/// and dropped, innermost first.
pub open spec fn popped(items: Seq<Branch>, stream: Seq<Mark>) -> (Seq<Branch>, Seq<Mark>)
    decreases items.len(),
{
    if items.len() > 0 && items.last().state is B {
        let (_, s) = state_step(items.last().state, stream);
        popped(items.drop_last(), s)
    } else {
        (items, stream)
    }
}

/// The stack after the innermost branch was stepped into its next part,
/// and branches for that part were opened as long as it has more than one
/// alternative.
pub open spec fn descended(items: Seq<Branch>, stream: Seq<Mark>) -> (Seq<Branch>, Seq<Mark>)
    decreases (if items.len() > 0 { items.last().size as int } else { 0 }),
{
    if items.len() == 0 {
        (items, stream)
    } else {
        let top = items.last();
        let (st, s) = state_step(top.state, stream);
        let items2 = items.drop_last().push(Branch { size: top.size, state: st });
        if top.size <= 2 {
            (items2, s)
        } else {
            let half = top.size / 2;
            let bs: usize = if st is A { half } else { (top.size - half) as usize };
            if bs <= 1 {
                (items2, s)
            } else {
                descended(items2.push(Branch { size: bs, state: BranchState::Pre }), s)
            }
        }
    }
}

/// The stack after one step: finish what is done, then step into the next
/// alternative.
pub open spec fn stack_step(items: Seq<Branch>, stream: Seq<Mark>) -> (Seq<Branch>, Seq<Mark>) {
    let (i1, s1) = popped(items, stream);
    descended(i1, s1)
}

/// The branches can be stepped: each is over at least two alternatives,
/// is not done, and its marks are in the stream.
pub open spec fn stack_fits(items: Seq<Branch>, stream: Seq<Mark>) -> bool {
    forall|i: int| 0 <= i < items.len() ==> #[trigger] stack_fits_at(items, stream, i)
}

/// The branch at `i` can be stepped (see `stack_fits`).
pub open spec fn stack_fits_at(items: Seq<Branch>, stream: Seq<Mark>, i: int) -> bool {
    &&& items[i].size >= 2
    &&& match items[i].state {
        BranchState::Pre => true,
        BranchState::A { entry_pos } => entry_pos < stream.len(),
        BranchState::B { exit_pos } => exit_pos < stream.len(),
        BranchState::Post => false,
    }
}

/// The stream has room for a mark per alternative of any branch.
pub open spec fn stack_room(items: Seq<Branch>, stream: Seq<Mark>) -> bool {
    forall|i: int| 0 <= i < items.len() ==> stream.len() + (#[trigger] items[i]).size < usize::MAX
}

/// Whether the innermost branch has its first part done.
fn top_is_done_with_first(items: &Vec<Branch>) -> (r: bool)
    ensures
        r == (items@.len() > 0 && items@.last().state is B),
{
    if items.len() == 0 {
        false
    } else {
        match items[items.len() - 1].state {
            BranchState::B { .. } => true,
            _ => false,
        }
    }
}

impl BranchStack {
    pub closed spec fn branches(&self) -> Seq<Branch> {
        self.items@
    }

    /// An empty stack.
    pub fn new() -> (r: BranchStack)
        ensures
            r.branches() == Seq::<Branch>::empty(),
    {
        BranchStack { items: Vec::new() }
    }

    /// Moves to the next alternative: finishes the branches whose second
    /// part is done, steps the innermost branch into its next part, and
    /// opens branches for that part down to a single alternative.
    pub fn step(&mut self, stream: &mut Vec<Mark>)
        requires
            stack_fits(old(self).branches(), old(stream)@),
            stack_room(old(self).branches(), old(stream)@),
        ensures
            (final(self).branches(), final(stream)@) == stack_step(old(self).branches(), old(stream)@),
            stack_fits(final(self).branches(), final(stream)@),
    {
        let ghost i0 = self.items@;
        let ghost s0 = stream@;
        while top_is_done_with_first(&self.items)
            invariant
                popped(self.items@, stream@) == popped(i0, s0),
                stack_fits(self.items@, stream@),
                stack_room(i0, s0),
                stream@.len() == s0.len(),
                forall|i: int| 0 <= i < self.items@.len() ==> #[trigger] self.items@[i] == i0[i],
                self.items@.len() <= i0.len(),
            decreases self.items@.len(),
        {
            let ghost before = self.items@;
            let mut last = self.items.pop().unwrap();
            proof {
                assert(self.items@ =~= before.drop_last());
                assert(before[before.len() - 1] == last);
                assert forall|i: int| 0 <= i < self.items@.len() implies stack_fits_at(self.items@, stream@, i) by {
                    assert(self.items@[i] == before[i]);
                    assert(stack_fits_at(before, stream@, i));
                }
                assert(stack_fits_at(before, stream@, before.len() - 1));
                assert(before[before.len() - 1] == i0[before.len() - 1]);
            }
            let ghost sb = stream@;
            let ghost kept = self.items@;
            last.state.step(stream);
            proof {
                assert forall|i: int| 0 <= i < self.items@.len() implies stack_fits_at(self.items@, stream@, i) by {
                    assert(stack_fits_at(kept, sb, i));
                }
            }
        }
        let ghost i1 = self.items@;
        let ghost s1 = stream@;
        assert(popped(i1, s1) == (i1, s1));
        if self.items.len() == 0 {
            return;
        }
        proof {
            assert(i1.last() == i0[i1.len() - 1]);
        }
        loop
            invariant
                self.items@.len() > 0,
                descended(self.items@, stream@) == descended(i1, s1),
                stack_step(i0, s0) == descended(i1, s1),
                i0 == old(self).items@,
                s0 == old(stream)@,
                stack_fits(self.items@, stream@),
                !(self.items@.last().state is B),
                stream@.len() + self.items@.last().size < usize::MAX,
            decreases self.items@.last().size,
        {
            let ghost before = self.items@;
            let ghost sb = stream@;
            let mut top = self.items.pop().unwrap();
            proof {
                assert(self.items@ =~= before.drop_last());
                assert(before[before.len() - 1] == top);
                assert(stack_fits_at(before, sb, before.len() - 1));
            }
            top.state.step(stream);
            let size = top.size;
            let st = top.state;
            self.items.push(top);
            proof {
                assert(self.items@ =~= before.drop_last().push(Branch { size, state: st }));
                assert forall|i: int| 0 <= i < self.items@.len() implies stack_fits_at(self.items@, stream@, i) by {
                    if i < before.len() - 1 {
                        assert(self.items@[i] == before[i]);
                        assert(stack_fits_at(before, sb, i));
                    }
                }
            }
            if size == 2 {
                return;
            }
            let half = size / 2;
            let branch_size = match st {
                BranchState::A { .. } => half,
                _ => size - half,
            };
            if branch_size == 1 {
                return;
            }
            let ghost mid = self.items@;
            self.items.push(Branch { size: branch_size, state: BranchState::Pre });
            proof {
                assert forall|i: int| 0 <= i < self.items@.len() implies stack_fits_at(self.items@, stream@, i) by {
                    if i < mid.len() {
                        assert(self.items@[i] == mid[i]);
                        assert(stack_fits_at(mid, stream@, i));
                    }
                }
            }
        }
    }

    /// The last step of a choice: after it no branch is open.
    pub fn finish(&mut self, stream: &mut Vec<Mark>)
        requires
            stack_fits(old(self).branches(), old(stream)@),
            stack_room(old(self).branches(), old(stream)@),
            stack_step(old(self).branches(), old(stream)@).0.len() == 0,
        ensures
            (final(self).branches(), final(stream)@) == stack_step(old(self).branches(), old(stream)@),
            final(self).branches().len() == 0,
    {
        self.step(stream);
    }

    /// Starts a choice between `n` alternatives: one branch where there are
    /// two or more, nothing otherwise.
    pub fn init(&mut self, n: usize)
        ensures
            final(self).branches() == (if n > 1 {
                seq![Branch { size: n, state: BranchState::Pre }]
            } else {
                Seq::<Branch>::empty()
            }),
    {
        self.items.clear();
        if n > 1 {
            self.items.push(Branch { size: n, state: BranchState::Pre });
        }
        proof {
            if n <= 1 {
                assert(self.items@ =~= Seq::<Branch>::empty());
            } else {
                assert(self.items@ =~= seq![Branch { size: n, state: BranchState::Pre }]);
            }
        }
    }
}

impl Default for BranchStack {
    fn default() -> (r: BranchStack)
        ensures
            r.branches() == Seq::<Branch>::empty(),
    {
        BranchStack::new()
    }
}

/// The alternatives of a branch not yet entered: all of them before it is
/// entered, those of its second part while the first is written.
pub open spec fn left_of(b: Branch) -> int {
    match b.state {
        BranchState::Pre => b.size as int,
        BranchState::A { .. } => b.size - b.size / 2,
        _ => 0,
    }
}

/// The alternatives of the open branches not yet entered.
pub open spec fn left(items: Seq<Branch>) -> int
    decreases items.len(),
{
    if items.len() == 0 {
        0
    } else {
        left(items.drop_last()) + left_of(items.last())
    }
}

/// The shape of a stack as steps leave it: every branch is over two
/// alternatives or more and not done, and only the innermost may not be
/// entered yet.
pub open spec fn shape_ok(items: Seq<Branch>) -> bool {
    forall|i: int| 0 <= i < items.len() ==> {
        &&& (#[trigger] items[i]).size >= 2
        &&& !(items[i].state is Post)
        &&& (i < items.len() - 1 ==> !(items[i].state is Pre))
    }
}

/// The stack after `m` steps.
pub open spec fn steps(items: Seq<Branch>, stream: Seq<Mark>, m: nat) -> (Seq<Branch>, Seq<Mark>)
    decreases m,
{
    if m == 0 {
        (items, stream)
    } else {
        let (i, s) = stack_step(items, stream);
        steps(i, s, (m - 1) as nat)
    }
}

proof fn lemma_left_push(items: Seq<Branch>, b: Branch)
    ensures
        left(items.push(b)) == left(items) + left_of(b),
{
    assert(items.push(b).drop_last() =~= items);
}

proof fn lemma_left_nonneg(items: Seq<Branch>)
    requires
        shape_ok(items),
    ensures
        left(items) >= 0,
        left(items) == 0 ==> forall|i: int| 0 <= i < items.len() ==> (#[trigger] items[i]).state is B,
    decreases items.len(),
{
    if items.len() > 0 {
        assert(shape_ok(items.drop_last())) by {
            assert forall|i: int| 0 <= i < items.drop_last().len() implies #[trigger] items.drop_last()[i].size >= 2
                && !(items.drop_last()[i].state is Post) && (i < items.drop_last().len() - 1 ==> !(items.drop_last()[i].state is Pre)) by {
                assert(items.drop_last()[i] == items[i]);
            }
        }
        lemma_left_nonneg(items.drop_last());
        assert(items[items.len() - 1] == items.last());
        assert forall|i: int| 0 <= i < items.len() && left(items) == 0 implies (#[trigger] items[i]).state is B by {
            if i < items.len() - 1 {
                assert(items.drop_last()[i] == items[i]);
            }
        }
    }
}

/// Finishing the done branches keeps what is left and the shape, and
/// leaves no done branch innermost.
proof fn lemma_popped(items: Seq<Branch>, stream: Seq<Mark>)
    requires
        shape_ok(items),
    ensures
        left(popped(items, stream).0) == left(items),
        shape_ok(popped(items, stream).0),
        popped(items, stream).0.len() > 0 ==> !(popped(items, stream).0.last().state is B),
        popped(items, stream).0.len() == 0 ==> left(items) == 0,
    decreases items.len(),
{
    if items.len() > 0 && items.last().state is B {
        let (_, s) = state_step(items.last().state, stream);
        assert(items.drop_last().push(items.last()) =~= items);
        lemma_left_push(items.drop_last(), items.last());
        assert(shape_ok(items.drop_last())) by {
            assert forall|i: int| 0 <= i < items.drop_last().len() implies #[trigger] items.drop_last()[i].size >= 2
                && !(items.drop_last()[i].state is Post) && (i < items.drop_last().len() - 1 ==> !(items.drop_last()[i].state is Pre)) by {
                assert(items.drop_last()[i] == items[i]);
                assert(items[items.len() - 1] == items.last());
            }
        }
        lemma_popped(items.drop_last(), s);
    }
}

/// Stepping into the next alternative enters exactly one of them.
proof fn lemma_descended(items: Seq<Branch>, stream: Seq<Mark>)
    requires
        shape_ok(items),
        items.len() > 0,
        !(items.last().state is B),
    ensures
        left(descended(items, stream).0) == left(items) - 1,
        shape_ok(descended(items, stream).0),
        descended(items, stream).0.len() > 0,
        !(descended(items, stream).0.last().state is Pre),
    decreases items.last().size,
{
    let top = items.last();
    let n = items.len();
    assert(items[n - 1] == top);
    let (st, s) = state_step(top.state, stream);
    let rest = items.drop_last();
    let items2 = rest.push(Branch { size: top.size, state: st });
    assert(rest.push(top) =~= items);
    lemma_left_push(rest, top);
    lemma_left_push(rest, Branch { size: top.size, state: st });
    assert(shape_ok(items2)) by {
        assert forall|i: int| 0 <= i < items2.len() implies #[trigger] items2[i].size >= 2 && !(items2[i].state is Post)
            && (i < items2.len() - 1 ==> !(items2[i].state is Pre)) by {
            if i < n - 1 {
                assert(items2[i] == items[i]);
            }
        }
    }
    if top.size > 2 {
        let half = top.size / 2;
        let bs: usize = if st is A { half } else { (top.size - half) as usize };
        if bs > 1 {
            let items3 = items2.push(Branch { size: bs, state: BranchState::Pre });
            lemma_left_push(items2, Branch { size: bs, state: BranchState::Pre });
            assert(shape_ok(items3)) by {
                assert forall|i: int| 0 <= i < items3.len() implies #[trigger] items3[i].size >= 2 && !(items3[i].state is Post)
                    && (i < items3.len() - 1 ==> !(items3[i].state is Pre)) by {
                    if i < items2.len() {
                        assert(items3[i] == items2[i]);
                    }
                }
            }
            assert(items3.last() == Branch { size: bs, state: BranchState::Pre });
            lemma_descended(items3, s);
        }
    }
}

/// A step of a stack of this shape with alternatives left enters one of
/// them and keeps the stack open; with none left, it closes the stack.
pub proof fn lemma_step_left(items: Seq<Branch>, stream: Seq<Mark>)
    requires
        shape_ok(items),
    ensures
        shape_ok(stack_step(items, stream).0),
        left(items) > 0 ==> left(stack_step(items, stream).0) == left(items) - 1 && stack_step(items, stream).0.len() > 0,
        left(items) == 0 ==> stack_step(items, stream).0.len() == 0,
{
    lemma_popped(items, stream);
    lemma_left_nonneg(items);
    let (i1, s1) = popped(items, stream);
    if i1.len() > 0 {
        lemma_descended(i1, s1);
        lemma_left_nonneg(i1);
        if left(i1) == 0 {
            assert(i1[i1.len() - 1] == i1.last());
        }
    }
}

/// A choice between `n` alternatives: after the step before each of them
/// the choice stays open, and the step after the last closes it.
pub proof fn lemma_choice_closes(n: usize, stream: Seq<Mark>)
    requires
        n >= 2,
    ensures
        forall|m: nat| 1 <= m <= n ==> (#[trigger] steps(seq![Branch { size: n, state: BranchState::Pre }], stream, m)).0.len() > 0,
        steps(seq![Branch { size: n, state: BranchState::Pre }], stream, (n + 1) as nat).0.len() == 0,
{
    let start = seq![Branch { size: n, state: BranchState::Pre }];
    assert(start.drop_last() =~= Seq::<Branch>::empty());
    assert(left(Seq::<Branch>::empty()) == 0);
    assert(start.last() == Branch { size: n, state: BranchState::Pre });
    assert(left(start) == n);
    assert(shape_ok(start));
    lemma_steps_left(start, stream, (n + 1) as nat);
}

/// After `m` steps of a stack of this shape with `k >= m` alternatives
/// left, `k - m` are left; the step after the last alternative closes it.
proof fn lemma_steps_left(items: Seq<Branch>, stream: Seq<Mark>, m: nat)
    requires
        shape_ok(items),
        left(items) + 1 >= m,
    ensures
        forall|j: nat| 1 <= j <= m && j <= left(items) ==> (#[trigger] steps(items, stream, j)).0.len() > 0,
        m == left(items) + 1 ==> steps(items, stream, m).0.len() == 0,
    decreases m,
{
    lemma_left_nonneg(items);
    if m > 0 {
        lemma_step_left(items, stream);
        let (i, s) = stack_step(items, stream);
        assert(steps(items, stream, m) == steps(i, s, (m - 1) as nat));
        if left(items) > 0 {
            lemma_steps_left(i, s, (m - 1) as nat);
            assert forall|j: nat| 1 <= j <= m && j <= left(items) implies (#[trigger] steps(items, stream, j)).0.len() > 0 by {
                assert(steps(items, stream, j) == steps(i, s, (j - 1) as nat));
                if j >= 2 {
                } else {
                    assert(steps(i, s, 0) == (i, s));
                }
            }
        } else {
            assert(steps(i, s, 0) == (i, s));
        }
    }
}

} // verus!
