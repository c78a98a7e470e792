//! The tracker: a stack of the reports of the scopes that are open, from the
//! permanent root down to the innermost scope.

use vstd::prelude::*;
pub use crate::report::{Report, ReportValues};
use crate::report::{
    lemma_counted_rollup, lemma_merge_rollup, lemma_total_covers, lemma_total_last_two,
    lemma_total_prefix, lemma_total_push, lemma_total_single, total_of, views_of, Counts,
    ReportView,
};

verus! {

/// The name of the root report, which is never closed.
pub const GLOBAL_SUMMARY: &'static str = "Global Summary";

/// The stack of a tracker on which nothing has happened yet: the root alone.
pub open spec fn initial() -> Seq<ReportView> {
    seq![ReportView::fresh(GLOBAL_SUMMARY@)]
}

/// `stack` after a scope `name` was opened.
pub open spec fn opened(stack: Seq<ReportView>, name: Seq<char>) -> Seq<ReportView> {
    stack.push(ReportView::fresh(name))
}

/// `stack` after its innermost scope was closed into the one around it.
pub open spec fn closed(stack: Seq<ReportView>) -> Seq<ReportView>
    recommends
        stack.len() >= 2,
{
    let n = stack.len() as int;
    stack.subrange(0, n - 2).push(stack[n - 2].merge(stack[n - 1]))
}

/// `stack` after `delta` more operations were counted on its innermost scope.
pub open spec fn charged(stack: Seq<ReportView>, delta: Counts) -> Seq<ReportView>
    recommends
        stack.len() >= 1,
{
    stack.update(stack.len() - 1, stack.last().counted(delta))
}

/// One call on a tracker.
pub enum Op {
    /// `start` with this name.
    Start(Seq<char>),
    /// `end`.
    End,
    /// `update_add`.
    Add,
    /// `update_sub`.
    Sub,
    /// `update_mul`.
    Mul,
    /// `update_inv`.
    Inv,
    /// `summary`.
    Summary,
    /// `reset`.
    Reset,
}

/// `op` may be called on a tracker whose stack is `stack`: there is a scope to
/// close, or room in the counter to count once more.
pub open spec fn can_apply(stack: Seq<ReportView>, op: Op) -> bool {
    match op {
        Op::End => stack.len() >= 2,
        Op::Add => total_of(stack).add < usize::MAX,
        Op::Sub => total_of(stack).sub < usize::MAX,
        Op::Mul => total_of(stack).mul < usize::MAX,
        Op::Inv => total_of(stack).inv < usize::MAX,
        _ => true,
    }
}

/// The stack that `op` leaves when it is called on a tracker whose stack is
/// `stack`. `summary` borrows the tracker shared and so leaves the stack as it
/// is.
pub open spec fn apply(stack: Seq<ReportView>, op: Op) -> Seq<ReportView> {
    match op {
        Op::Start(name) => opened(stack, name),
        Op::End => closed(stack),
        Op::Add => charged(stack, Counts::one_add()),
        Op::Sub => charged(stack, Counts::one_sub()),
        Op::Mul => charged(stack, Counts::one_mul()),
        Op::Inv => charged(stack, Counts::one_inv()),
        Op::Summary => stack,
        Op::Reset => initial(),
    }
}

/// The report that is left of `stack` once every open scope has been closed,
/// innermost first.
pub open spec fn folded(stack: Seq<ReportView>) -> ReportView
    recommends
        stack.len() >= 1,
    decreases stack.len(),
{
    if stack.len() <= 1 {
        stack[0]
    } else {
        folded(closed(stack))
    }
}

/// What a tracker's stack always satisfies: the root is there and carries its
/// name, every report on it is rolled up, and all counts together fit the
/// counters.
pub open spec fn well_formed(stack: Seq<ReportView>) -> bool {
    &&& stack.len() >= 1
    &&& stack[0].name == GLOBAL_SUMMARY@
    &&& forall|i: int| 0 <= i < stack.len() ==> (#[trigger] stack[i]).rolled_up()
    &&& total_of(stack).fits()
}

/// The two innermost reports of a stack whose counts fit can be merged.
pub proof fn lemma_last_two_fit(stack: Seq<ReportView>)
    requires
        stack.len() >= 2,
        total_of(stack).fits(),
    ensures
        stack[stack.len() - 2].values.plus(stack[stack.len() - 1].values).fits(),
{
    lemma_total_last_two(stack);
}

/// Closing the innermost scope moves counts, it neither adds nor loses any.
pub proof fn lemma_closed_total(stack: Seq<ReportView>)
    requires
        stack.len() >= 2,
    ensures
        total_of(closed(stack)) == total_of(stack),
        closed(stack).len() == stack.len() - 1,
{
    let n = stack.len() as int;
    lemma_total_last_two(stack);
    lemma_total_push(stack.subrange(0, n - 2), stack[n - 2].merge(stack[n - 1]));
}

/// Closing the innermost scope keeps the stack well formed.
pub proof fn lemma_closed_well_formed(stack: Seq<ReportView>)
    requires
        well_formed(stack),
        stack.len() >= 2,
    ensures
        well_formed(closed(stack)),
{
    let n = stack.len() as int;
    lemma_closed_total(stack);
    lemma_merge_rollup(stack[n - 2], stack[n - 1]);
    assert forall|i: int| 0 <= i < closed(stack).len() implies (#[trigger] closed(
        stack,
    )[i]).rolled_up() by {
        if i < n - 2 {
            assert(closed(stack)[i] == stack[i]);
        }
    }
}

/// Counting on the innermost scope adds exactly what was counted.
pub proof fn lemma_charged_total(stack: Seq<ReportView>, delta: Counts)
    requires
        stack.len() >= 1,
    ensures
        total_of(charged(stack, delta)) == total_of(stack).plus(delta),
        charged(stack, delta).len() == stack.len(),
{
    assert(charged(stack, delta).drop_last() =~= stack.drop_last());
}

/// Counting on the innermost scope keeps the stack well formed, as long as
/// the counts still fit.
pub proof fn lemma_charged_well_formed(stack: Seq<ReportView>, delta: Counts)
    requires
        well_formed(stack),
        total_of(stack).plus(delta).fits(),
    ensures
        well_formed(charged(stack, delta)),
        stack.last().values.plus(delta).fits(),
{
    lemma_charged_total(stack, delta);
    lemma_counted_rollup(stack.last(), delta);
    lemma_total_covers(stack, stack.len() - 1);
}

/// Folding a stack gives the root's name, all the counts on the stack, and,
/// of a well-formed stack, a rolled-up report.
pub proof fn lemma_folded(stack: Seq<ReportView>)
    requires
        stack.len() >= 1,
    ensures
        folded(stack).name == stack[0].name,
        folded(stack).values == total_of(stack),
        well_formed(stack) ==> folded(stack).rolled_up(),
    decreases stack.len(),
{
    if stack.len() == 1 {
        assert(stack =~= seq![stack[0]]);
        lemma_total_single(stack[0]);
    } else {
        lemma_closed_total(stack);
        if well_formed(stack) {
            lemma_closed_well_formed(stack);
        }
        lemma_folded(closed(stack));
    }
}

/// What folding gives, seen from the root: the root's report with, as its
/// last child, what folding the open scopes by themselves gives.
pub proof fn lemma_folded_nests(stack: Seq<ReportView>)
    requires
        stack.len() >= 2,
    ensures
        folded(stack) == stack[0].merge(folded(stack.subrange(1, stack.len() as int))),
    decreases stack.len(),
{
    let n = stack.len() as int;
    let open = stack.subrange(1, n);
    if n == 2 {
        assert(closed(stack) =~= seq![stack[0].merge(stack[1])]);
        assert(folded(closed(stack)) == closed(stack)[0]);
        assert(folded(open) == stack[1]);
    } else {
        lemma_folded_nests(closed(stack));
        assert(closed(stack).subrange(1, n - 1) =~= closed(open));
        assert(folded(open) == folded(closed(open)));
    }
}

/// Closing the innermost scope does not change what folding the stack gives.
pub proof fn lemma_closed_folded(stack: Seq<ReportView>)
    requires
        stack.len() >= 2,
    ensures
        folded(closed(stack)) == folded(stack),
{
}

/// The operation that cannot be carried out.
#[derive(Debug, PartialEq, Eq, Clone, Copy)]
pub enum ScopeError {
    /// A scope was to be closed while only the root was left on the stack.
    Unbalanced,
}

impl ScopeError {
    /// What went wrong, in words.
    pub fn message(&self) -> (text: &'static str)
        ensures
            text@ == "Tracking not Started"@,
    {
        "Tracking not Started"
    }
}

/// Counts the operations of nested, named scopes.
#[derive(Debug)]
pub struct Tracker {
    stack: Vec<Report>,
}

impl View for Tracker {
    type V = Seq<ReportView>;

    /// The reports of the open scopes, the root first, the innermost last.
    closed spec fn view(&self) -> Seq<ReportView> {
        views_of(self.stack@)
    }
}

impl Tracker {
    /// The invariant of every tracker: see [`well_formed`].
    pub open spec fn wf(&self) -> bool {
        well_formed(self@)
    }

    /// A tracker with no scope open and nothing counted.
    pub fn new() -> (tracker: Self)
        ensures
            tracker.wf(),
            tracker@ == initial(),
            tracker@.len() == 1,
            total_of(tracker@) == Counts::zero(),
    {
        let mut stack: Vec<Report> = Vec::new();
        stack.push(Report::new(GLOBAL_SUMMARY));
        let tracker = Tracker { stack };
        proof {
            assert(tracker@ =~= initial());
            lemma_total_single(ReportView::fresh(GLOBAL_SUMMARY@));
        }
        tracker
    }

    /// The number of reports on the stack: one more than there are open scopes.
    pub fn depth(&self) -> (depth: usize)
        ensures
            depth == self@.len(),
    {
        self.stack.len()
    }

    /// Opens a scope `name` inside the innermost open scope; what is counted
    /// from now on is counted on it.
    pub fn start(&mut self, name: &'static str)
        requires
            old(self).wf(),
        ensures
            final(self).wf(),
            final(self)@ == opened(old(self)@, name@),
            final(self)@ == apply(old(self)@, Op::Start(name@)),
            final(self)@.len() == old(self)@.len() + 1,
            total_of(final(self)@) == total_of(old(self)@),
    {
        let ghost before = self.stack@;
        self.stack.push(Report::new(name));
        proof {
            assert(views_of(self.stack@) =~= views_of(before).push(ReportView::fresh(name@)));
            lemma_total_push(views_of(before), ReportView::fresh(name@));
        }
    }

    /// Closes the innermost open scope: its report is merged into the report
    /// of the scope around it.
    pub fn end(&mut self)
        requires
            old(self).wf(),
            old(self)@.len() >= 2,
        ensures
            final(self).wf(),
            final(self)@ == closed(old(self)@),
            final(self)@ == apply(old(self)@, Op::End),
            final(self)@.len() == old(self)@.len() - 1,
            total_of(final(self)@) == total_of(old(self)@),
            folded(final(self)@) == folded(old(self)@),
    {
        let ghost before = self.stack@;
        proof {
            lemma_closed_total(views_of(before));
            lemma_closed_well_formed(views_of(before));
            lemma_last_two_fit(views_of(before));
        }
        let child = self.stack.pop().unwrap();
        let last = self.stack.len() - 1;
        self.stack[last].merge(child);
        proof {
            assert(views_of(self.stack@) =~= closed(views_of(before)));
        }
    }

    /// Closes the innermost open scope if there is one, and says so if there
    /// is none: then the tracker is left as it was.
    pub fn try_end(&mut self) -> (result: Result<(), ScopeError>)
        requires
            old(self).wf(),
        ensures
            final(self).wf(),
            result is Ok <==> old(self)@.len() >= 2,
            result is Ok ==> final(self)@ == closed(old(self)@),
            result is Err ==> result == Err::<(), ScopeError>(ScopeError::Unbalanced),
            result is Err ==> final(self)@ == old(self)@,
            total_of(final(self)@) == total_of(old(self)@),
            folded(final(self)@) == folded(old(self)@),
    {
        if self.stack.len() <= 1 {
            Err(ScopeError::Unbalanced)
        } else {
            self.end();
            Ok(())
        }
    }

    /// The complete picture as if every open scope were closed now: the root
    /// report with all counts rolled up into it. The tracker itself is not
    /// changed, and no scope is closed.
    pub fn summary(&self) -> (report: Report)
        requires
            self.wf(),
        ensures
            report@ == folded(self@),
            report@.name == GLOBAL_SUMMARY@,
            report@.values == total_of(self@),
            report@.rolled_up(),
    {
        let mut copy = self.stack.clone();
        proof {
            assert forall|i: int| 0 <= i < copy.len() implies (#[trigger] copy[i])@
                == self.stack[i]@ by {
                assert(cloned(self.stack[i], copy[i]));
            }
            assert(views_of(copy@) =~= views_of(self.stack@));
        }
        while copy.len() >= 2
            invariant
                well_formed(views_of(copy@)),
                folded(views_of(copy@)) == folded(self@),
            decreases copy.len(),
        {
            let ghost before = copy@;
            proof {
                lemma_closed_well_formed(views_of(before));
                lemma_last_two_fit(views_of(before));
            }
            let child = copy.pop().unwrap();
            let last = copy.len() - 1;
            copy[last].merge(child);
            proof {
                assert(views_of(copy@) =~= closed(views_of(before)));
            }
        }
        proof {
            lemma_folded(self@);
        }
        copy.pop().unwrap()
    }

    /// All that has been counted since the tracker was new or last reset,
    /// whatever the scope: what a summary would show as its values. A
    /// counter that stands at `usize::MAX` here has no room for one more
    /// operation of its kind.
    pub fn totals(&self) -> (values: ReportValues)
        requires
            self.wf(),
        ensures
            values@ == total_of(self@),
    {
        let mut values = ReportValues::default();
        let mut i: usize = 0;
        while i < self.stack.len()
            invariant
                i <= self.stack.len(),
                total_of(views_of(self.stack@)).fits(),
                values@ == total_of(views_of(self.stack@).take(i as int)),
            decreases self.stack.len() - i,
        {
            proof {
                let stack = views_of(self.stack@);
                assert(stack.take(i + 1).drop_last() =~= stack.take(i as int));
                lemma_total_prefix(stack, i + 1);
            }
            values.add += self.stack[i].values.add;
            values.sub += self.stack[i].values.sub;
            values.mul += self.stack[i].values.mul;
            values.inv += self.stack[i].values.inv;
            i += 1;
        }
        assert(views_of(self.stack@).take(i as int) =~= views_of(self.stack@));
        values
    }

    /// Discards everything: the tracker is again as [`Tracker::new`] makes it.
    pub fn reset(&mut self)
        ensures
            final(self).wf(),
            final(self)@ == initial(),
            final(self)@ == apply(old(self)@, Op::Reset),
            final(self)@.len() == 1,
            total_of(final(self)@) == Counts::zero(),
            folded(final(self)@) == ReportView::fresh(GLOBAL_SUMMARY@),
    {
        *self = Tracker::new();
    }
}

/// Counts one addition on the innermost open scope.
pub fn update_add(tracker: &mut Tracker)
    requires
        old(tracker).wf(),
        total_of(old(tracker)@).add < usize::MAX,
    ensures
        final(tracker).wf(),
        final(tracker)@ == charged(old(tracker)@, Counts::one_add()),
        final(tracker)@ == apply(old(tracker)@, Op::Add),
        final(tracker)@.len() == old(tracker)@.len(),
        total_of(final(tracker)@) == total_of(old(tracker)@).plus(Counts::one_add()),
{
    let ghost before = tracker.stack@;
    proof {
        lemma_charged_total(views_of(before), Counts::one_add());
        lemma_charged_well_formed(views_of(before), Counts::one_add());
    }
    let last = tracker.stack.len() - 1;
    tracker.stack[last].values.add += 1;
    proof {
        assert(views_of(tracker.stack@) =~= charged(views_of(before), Counts::one_add()));
    }
}

/// Counts one subtraction on the innermost open scope.
pub fn update_sub(tracker: &mut Tracker)
    requires
        old(tracker).wf(),
        total_of(old(tracker)@).sub < usize::MAX,
    ensures
        final(tracker).wf(),
        final(tracker)@ == charged(old(tracker)@, Counts::one_sub()),
        final(tracker)@ == apply(old(tracker)@, Op::Sub),
        final(tracker)@.len() == old(tracker)@.len(),
        total_of(final(tracker)@) == total_of(old(tracker)@).plus(Counts::one_sub()),
{
    let ghost before = tracker.stack@;
    proof {
        lemma_charged_total(views_of(before), Counts::one_sub());
        lemma_charged_well_formed(views_of(before), Counts::one_sub());
    }
    let last = tracker.stack.len() - 1;
    tracker.stack[last].values.sub += 1;
    proof {
        assert(views_of(tracker.stack@) =~= charged(views_of(before), Counts::one_sub()));
    }
}

/// Counts one multiplication on the innermost open scope.
pub fn update_mul(tracker: &mut Tracker)
    requires
        old(tracker).wf(),
        total_of(old(tracker)@).mul < usize::MAX,
    ensures
        final(tracker).wf(),
        final(tracker)@ == charged(old(tracker)@, Counts::one_mul()),
        final(tracker)@ == apply(old(tracker)@, Op::Mul),
        final(tracker)@.len() == old(tracker)@.len(),
        total_of(final(tracker)@) == total_of(old(tracker)@).plus(Counts::one_mul()),
{
    let ghost before = tracker.stack@;
    proof {
        lemma_charged_total(views_of(before), Counts::one_mul());
        lemma_charged_well_formed(views_of(before), Counts::one_mul());
    }
    let last = tracker.stack.len() - 1;
    tracker.stack[last].values.mul += 1;
    proof {
        assert(views_of(tracker.stack@) =~= charged(views_of(before), Counts::one_mul()));
    }
}

/// Counts one inversion on the innermost open scope.
pub fn update_inv(tracker: &mut Tracker)
    requires
        old(tracker).wf(),
        total_of(old(tracker)@).inv < usize::MAX,
    ensures
        final(tracker).wf(),
        final(tracker)@ == charged(old(tracker)@, Counts::one_inv()),
        final(tracker)@ == apply(old(tracker)@, Op::Inv),
        final(tracker)@.len() == old(tracker)@.len(),
        total_of(final(tracker)@) == total_of(old(tracker)@).plus(Counts::one_inv()),
{
    let ghost before = tracker.stack@;
    proof {
        lemma_charged_total(views_of(before), Counts::one_inv());
        lemma_charged_well_formed(views_of(before), Counts::one_inv());
    }
    let last = tracker.stack.len() - 1;
    tracker.stack[last].values.inv += 1;
    proof {
        assert(views_of(tracker.stack@) =~= charged(views_of(before), Counts::one_inv()));
    }
}

} // verus!
