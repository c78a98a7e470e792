//! Sequences of operations on a tracker, and what holds of every one of them.

use vstd::prelude::*;
use crate::report::{
    lemma_counted_rollup, lemma_fresh_rollup, lemma_merge_rollup, lemma_total_push,
    lemma_total_single, total_of, Counts, Report, ReportView,
};
use crate::tracker::{
    apply, can_apply, closed, folded, initial, lemma_charged_total, lemma_charged_well_formed,
    lemma_closed_total, lemma_closed_well_formed, well_formed, Op, Tracker, GLOBAL_SUMMARY,
};

verus! {

/// The stack after `ops`, carried out in order from `stack`.
pub open spec fn run(stack: Seq<ReportView>, ops: Seq<Op>) -> Seq<ReportView>
    decreases ops.len(),
{
    if ops.len() == 0 {
        stack
    } else {
        apply(run(stack, ops.drop_last()), ops.last())
    }
}

/// Each of `ops` may be called when its turn comes, starting from `stack`.
pub open spec fn feasible(stack: Seq<ReportView>, ops: Seq<Op>) -> bool
    decreases ops.len(),
{
    ops.len() == 0 || (feasible(stack, ops.drop_last()) && can_apply(
        run(stack, ops.drop_last()),
        ops.last(),
    ))
}

/// How many of `ops` open a scope.
pub open spec fn starts(ops: Seq<Op>) -> nat
    decreases ops.len(),
{
    if ops.len() == 0 {
        0
    } else {
        starts(ops.drop_last()) + if ops.last() is Start { 1nat } else { 0nat }
    }
}

/// How many of `ops` close a scope.
pub open spec fn ends(ops: Seq<Op>) -> nat
    decreases ops.len(),
{
    if ops.len() == 0 {
        0
    } else {
        ends(ops.drop_last()) + if ops.last() is End { 1nat } else { 0nat }
    }
}

/// Each reset among `ops`, carried out from `stack`, comes when no scope is
/// open.
pub open spec fn resets_at_root(stack: Seq<ReportView>, ops: Seq<Op>) -> bool
    decreases ops.len(),
{
    ops.len() == 0 || (resets_at_root(stack, ops.drop_last()) && (ops.last() is Reset ==> run(
        stack,
        ops.drop_last(),
    ).len() == 1))
}

/// `ops` with every summary left out.
pub open spec fn without_summaries(ops: Seq<Op>) -> Seq<Op> {
    ops.filter(|op: Op| !(op is Summary))
}

/// Each operation keeps a well-formed stack well formed; in particular the
/// root never leaves it.
pub proof fn lemma_apply_well_formed(stack: Seq<ReportView>, op: Op)
    requires
        well_formed(stack),
        can_apply(stack, op),
    ensures
        well_formed(apply(stack, op)),
        apply(stack, op).len() >= 1,
{
    match op {
        Op::Start(name) => {
            lemma_total_push(stack, ReportView::fresh(name));
            lemma_fresh_rollup(name);
        },
        Op::End => {
            lemma_closed_well_formed(stack);
        },
        Op::Add => {
            lemma_charged_total(stack, Counts::one_add());
            lemma_charged_well_formed(stack, Counts::one_add());
        },
        Op::Sub => {
            lemma_charged_total(stack, Counts::one_sub());
            lemma_charged_well_formed(stack, Counts::one_sub());
        },
        Op::Mul => {
            lemma_charged_total(stack, Counts::one_mul());
            lemma_charged_well_formed(stack, Counts::one_mul());
        },
        Op::Inv => {
            lemma_charged_total(stack, Counts::one_inv());
            lemma_charged_well_formed(stack, Counts::one_inv());
        },
        Op::Summary => {},
        Op::Reset => {
            lemma_total_single(ReportView::fresh(GLOBAL_SUMMARY@));
        },
    }
}

/// Whatever is called on a tracker, in whatever order, as long as each call
/// is allowed when it is made: the stack stays well formed, and so is never
/// empty.
pub proof fn lemma_run_well_formed(stack: Seq<ReportView>, ops: Seq<Op>)
    requires
        well_formed(stack),
        feasible(stack, ops),
    ensures
        well_formed(run(stack, ops)),
        run(stack, ops).len() >= 1,
    decreases ops.len(),
{
    if ops.len() > 0 {
        lemma_run_well_formed(stack, ops.drop_last());
        lemma_apply_well_formed(run(stack, ops.drop_last()), ops.last());
    }
}

/// What may be called in full may be called up to any point.
pub proof fn lemma_feasible_prefix(stack: Seq<ReportView>, ops: Seq<Op>, k: int)
    requires
        feasible(stack, ops),
        0 <= k <= ops.len(),
    ensures
        feasible(stack, ops.take(k)),
        resets_at_root(stack, ops) ==> resets_at_root(stack, ops.take(k)),
    decreases ops.len(),
{
    if k == ops.len() {
        assert(ops.take(k) =~= ops);
    } else {
        lemma_feasible_prefix(stack, ops.drop_last(), k);
        assert(ops.drop_last().take(k) =~= ops.take(k));
    }
}

/// The stack is never empty: not at the end of `ops`, and at no point on the
/// way.
pub proof fn lemma_never_empty(stack: Seq<ReportView>, ops: Seq<Op>)
    requires
        well_formed(stack),
        feasible(stack, ops),
    ensures
        forall|k: int| 0 <= k <= ops.len() ==> (#[trigger] run(stack, ops.take(k))).len() >= 1,
{
    assert forall|k: int| 0 <= k <= ops.len() implies (#[trigger] run(stack, ops.take(k))).len()
        >= 1 by {
        lemma_feasible_prefix(stack, ops, k);
        lemma_run_well_formed(stack, ops.take(k));
    }
}

/// Balance: as long as every reset comes when no scope is open, the stack
/// has grown by one report for each scope opened and shrunk by one for each
/// scope closed.
pub proof fn lemma_depth(stack: Seq<ReportView>, ops: Seq<Op>)
    requires
        stack.len() >= 1,
        feasible(stack, ops),
        resets_at_root(stack, ops),
    ensures
        run(stack, ops).len() == stack.len() + starts(ops) - ends(ops),
        run(stack, ops).len() >= 1,
    decreases ops.len(),
{
    if ops.len() > 0 {
        lemma_depth(stack, ops.drop_last());
    }
}

/// Balance from a new tracker: the stack is never empty, and only the root is
/// left on it exactly when as many scopes were closed as were opened.
pub proof fn lemma_balanced(ops: Seq<Op>)
    requires
        feasible(initial(), ops),
        resets_at_root(initial(), ops),
    ensures
        run(initial(), ops).len() == 1 + starts(ops) - ends(ops),
        run(initial(), ops).len() >= 1,
        run(initial(), ops).len() == 1 <==> starts(ops) == ends(ops),
        ends(ops) <= starts(ops),
{
    lemma_depth(initial(), ops);
}

/// Counts only grow: but for a reset, no operation lowers a counter of a
/// report that stays on the stack, nor the counts of the stack as a whole.
pub proof fn lemma_counts_grow(stack: Seq<ReportView>, op: Op)
    requires
        stack.len() >= 1,
        can_apply(stack, op),
        !(op is Reset),
    ensures
        total_of(apply(stack, op)).covers(total_of(stack)),
        forall|i: int|
            0 <= i < stack.len() && i < apply(stack, op).len() ==> (#[trigger] apply(
                stack,
                op,
            )[i]).values.covers(stack[i].values),
{
    match op {
        Op::Start(name) => {
            lemma_total_push(stack, ReportView::fresh(name));
        },
        Op::End => {
            lemma_closed_total(stack);
        },
        Op::Add => {
            lemma_charged_total(stack, Counts::one_add());
        },
        Op::Sub => {
            lemma_charged_total(stack, Counts::one_sub());
        },
        Op::Mul => {
            lemma_charged_total(stack, Counts::one_mul());
        },
        Op::Inv => {
            lemma_charged_total(stack, Counts::one_inv());
        },
        _ => {},
    }
}

/// What each operation does to the counts taken directly on a scope: a new
/// scope has none; counting raises those of the innermost scope by the one
/// operation counted; closing a scope leaves those of the scope around it as
/// they were, and makes the closed report, unchanged, the last child of it.
/// The reports further out are not touched.
pub proof fn lemma_direct_counts(stack: Seq<ReportView>, op: Op)
    requires
        well_formed(stack),
        can_apply(stack, op),
    ensures
        match op {
            Op::Start(name) => {
                &&& apply(stack, op).last().direct() == Counts::zero()
                &&& apply(stack, op).drop_last() == stack
            },
            Op::End => {
                &&& apply(stack, op).last().direct() == stack[stack.len() - 2].direct()
                &&& apply(stack, op).last().kids().last() == stack.last()
                &&& apply(stack, op).drop_last() == stack.drop_last().drop_last()
            },
            Op::Add => {
                &&& apply(stack, op).last().direct() == stack.last().direct().plus(Counts::one_add())
                &&& apply(stack, op).last().children == stack.last().children
                &&& apply(stack, op).drop_last() == stack.drop_last()
            },
            Op::Sub => {
                &&& apply(stack, op).last().direct() == stack.last().direct().plus(Counts::one_sub())
                &&& apply(stack, op).last().children == stack.last().children
                &&& apply(stack, op).drop_last() == stack.drop_last()
            },
            Op::Mul => {
                &&& apply(stack, op).last().direct() == stack.last().direct().plus(Counts::one_mul())
                &&& apply(stack, op).last().children == stack.last().children
                &&& apply(stack, op).drop_last() == stack.drop_last()
            },
            Op::Inv => {
                &&& apply(stack, op).last().direct() == stack.last().direct().plus(Counts::one_inv())
                &&& apply(stack, op).last().children == stack.last().children
                &&& apply(stack, op).drop_last() == stack.drop_last()
            },
            Op::Summary => apply(stack, op) == stack,
            Op::Reset => apply(stack, op) == initial(),
        },
{
    match op {
        Op::Start(name) => {
            lemma_fresh_rollup(name);
            assert(apply(stack, op).drop_last() =~= stack);
        },
        Op::End => {
            let n = stack.len() as int;
            lemma_merge_rollup(stack[n - 2], stack[n - 1]);
            assert(apply(stack, op).drop_last() =~= stack.drop_last().drop_last());
        },
        Op::Add => {
            lemma_counted_rollup(stack.last(), Counts::one_add());
            assert(apply(stack, op).drop_last() =~= stack.drop_last());
        },
        Op::Sub => {
            lemma_counted_rollup(stack.last(), Counts::one_sub());
            assert(apply(stack, op).drop_last() =~= stack.drop_last());
        },
        Op::Mul => {
            lemma_counted_rollup(stack.last(), Counts::one_mul());
            assert(apply(stack, op).drop_last() =~= stack.drop_last());
        },
        Op::Inv => {
            lemma_counted_rollup(stack.last(), Counts::one_inv());
            assert(apply(stack, op).drop_last() =~= stack.drop_last());
        },
        _ => {},
    }
}

/// Carrying out `op` and then `ops` is carrying out `ops` from what `op`
/// leaves.
pub proof fn lemma_run_first(stack: Seq<ReportView>, op: Op, ops: Seq<Op>)
    ensures
        run(stack, seq![op] + ops) == run(apply(stack, op), ops),
        feasible(stack, seq![op] + ops) == (can_apply(stack, op) && feasible(
            apply(stack, op),
            ops,
        )),
    decreases ops.len(),
{
    let all = seq![op] + ops;
    if ops.len() == 0 {
        assert(all.drop_last() =~= Seq::<Op>::empty());
        assert(run(stack, all.drop_last()) == stack);
        assert(feasible(stack, all.drop_last()));
    } else {
        lemma_run_first(stack, op, ops.drop_last());
        assert(all.drop_last() =~= seq![op] + ops.drop_last());
    }
}

/// `count` times `end`.
pub open spec fn closing(count: nat) -> Seq<Op> {
    Seq::new(count, |i: int| Op::End)
}

/// A summary shows the tracker as if every open scope were closed: closing
/// them all, one after the other, is allowed and leaves the root alone on the
/// stack, and the root is then what folding the stack gave before.
pub proof fn lemma_folded_is_closing_all(stack: Seq<ReportView>)
    requires
        stack.len() >= 1,
    ensures
        feasible(stack, closing((stack.len() - 1) as nat)),
        run(stack, closing((stack.len() - 1) as nat)) == seq![folded(stack)],
    decreases stack.len(),
{
    let count = (stack.len() - 1) as nat;
    if count == 0 {
        assert(stack =~= seq![stack[0]]);
    } else {
        lemma_folded_is_closing_all(closed(stack));
        assert(closing(count) =~= seq![Op::End] + closing((count - 1) as nat));
        lemma_run_first(stack, Op::End, closing((count - 1) as nat));
    }
}

/// Summaries leave no trace: however many are taken, and wherever among the
/// other calls, every call is allowed exactly when it would be without
/// them, and the stack ends up the same.
pub proof fn lemma_summaries_leave_no_trace(stack: Seq<ReportView>, ops: Seq<Op>)
    ensures
        run(stack, without_summaries(ops)) == run(stack, ops),
        feasible(stack, without_summaries(ops)) == feasible(stack, ops),
    decreases ops.len(),
{
    reveal(Seq::filter);
    if ops.len() > 0 {
        let before = ops.drop_last();
        lemma_summaries_leave_no_trace(stack, before);
        if !(ops.last() is Summary) {
            let kept = without_summaries(before);
            assert(without_summaries(ops) == kept.push(ops.last()));
            assert(kept.push(ops.last()).drop_last() =~= kept);
        }
    }
}

/// Any two summaries taken of one tracker are the same report.
pub proof fn lemma_summary_repeatable(tracker: Tracker, first: Report, second: Report)
    requires
        tracker.wf(),
        call_ensures(Tracker::summary, (&tracker,), first),
        call_ensures(Tracker::summary, (&tracker,), second),
    ensures
        first@ == second@,
{
}

} // verus!
