//! Reports: the counts recorded for one scope together with the reports of
//! the scopes that were closed inside it.

use vstd::prelude::*;

verus! {

/// Operation counts as unbounded naturals: the value a [`ReportValues`] stands for.
pub struct Counts {
    /// Additions.
    pub add: nat,
    /// Subtractions.
    pub sub: nat,
    /// Multiplications.
    pub mul: nat,
    /// Inversions.
    pub inv: nat,
}

impl Counts {
    /// No operation of any kind.
    pub open spec fn zero() -> Counts {
        Counts { add: 0, sub: 0, mul: 0, inv: 0 }
    }

    /// A single addition.
    pub open spec fn one_add() -> Counts {
        Counts { add: 1, sub: 0, mul: 0, inv: 0 }
    }

    /// A single subtraction.
    pub open spec fn one_sub() -> Counts {
        Counts { add: 0, sub: 1, mul: 0, inv: 0 }
    }

    /// A single multiplication.
    pub open spec fn one_mul() -> Counts {
        Counts { add: 0, sub: 0, mul: 1, inv: 0 }
    }

    /// A single inversion.
    pub open spec fn one_inv() -> Counts {
        Counts { add: 0, sub: 0, mul: 0, inv: 1 }
    }

    /// Kind by kind sum.
    pub open spec fn plus(self, other: Counts) -> Counts {
        Counts {
            add: self.add + other.add,
            sub: self.sub + other.sub,
            mul: self.mul + other.mul,
            inv: self.inv + other.inv,
        }
    }

    /// Every kind of `self` is at least the same kind of `other`.
    pub open spec fn covers(self, other: Counts) -> bool {
        &&& self.add >= other.add
        &&& self.sub >= other.sub
        &&& self.mul >= other.mul
        &&& self.inv >= other.inv
    }

    /// Kind by kind difference; meaningful where `self.covers(other)`.
    pub open spec fn less(self, other: Counts) -> Counts
        recommends
            self.covers(other),
    {
        Counts {
            add: (self.add - other.add) as nat,
            sub: (self.sub - other.sub) as nat,
            mul: (self.mul - other.mul) as nat,
            inv: (self.inv - other.inv) as nat,
        }
    }

    /// Every kind can be held in a `usize`.
    pub open spec fn fits(self) -> bool {
        &&& self.add <= usize::MAX
        &&& self.sub <= usize::MAX
        &&& self.mul <= usize::MAX
        &&& self.inv <= usize::MAX
    }
}

/// The counters of one scope, one per kind of operation.
#[derive(Debug, PartialEq)]
pub struct ReportValues {
    /// Additions.
    pub add: usize,
    /// Subtractions.
    pub sub: usize,
    /// Multiplications.
    pub mul: usize,
    /// Inversions.
    pub inv: usize,
}

impl View for ReportValues {
    type V = Counts;

    open spec fn view(&self) -> Counts {
        Counts {
            add: self.add as nat,
            sub: self.sub as nat,
            mul: self.mul as nat,
            inv: self.inv as nat,
        }
    }
}

impl Default for ReportValues {
    /// All counters at zero.
    fn default() -> (values: Self)
        ensures
            values@ == Counts::zero(),
    {
        ReportValues { add: 0, sub: 0, mul: 0, inv: 0 }
    }
}

impl Clone for ReportValues {
    fn clone(&self) -> (copy: Self)
        ensures
            copy == *self,
    {
        ReportValues { add: self.add, sub: self.sub, mul: self.mul, inv: self.inv }
    }
}

/// The mathematical value of a [`Report`]: a finite tree whose nodes carry a
/// name and counts.
pub struct ReportView {
    /// The name of the scope.
    pub name: Seq<char>,
    /// What was counted in the scope and in every scope closed inside it.
    pub values: Counts,
    /// The scopes closed inside it, oldest first; `None` until the first one
    /// is closed.
    pub children: Option<Seq<ReportView>>,
}

/// Kind by kind sum of the values of `reports`.
pub open spec fn total_of(reports: Seq<ReportView>) -> Counts
    decreases reports.len(),
{
    if reports.len() == 0 {
        Counts::zero()
    } else {
        total_of(reports.drop_last()).plus(reports.last().values)
    }
}

impl ReportView {
    /// The report of a scope that has just been opened.
    pub open spec fn fresh(name: Seq<char>) -> ReportView {
        ReportView { name, values: Counts::zero(), children: None }
    }

    /// The child reports in the order in which they were merged; empty where
    /// there are none yet.
    pub open spec fn kids(self) -> Seq<ReportView> {
        match self.children {
            Some(kids) => kids,
            None => Seq::empty(),
        }
    }

    /// The report after `delta` more operations were counted on it directly.
    pub open spec fn counted(self, delta: Counts) -> ReportView {
        ReportView { values: self.values.plus(delta), ..self }
    }

    /// The report after `child` was closed into it: the counts of `child` are
    /// added, and `child` becomes the last of the children, whole.
    pub open spec fn merge(self, child: ReportView) -> ReportView {
        ReportView {
            name: self.name,
            values: self.values.plus(child.values),
            children: Some(self.kids().push(child)),
        }
    }

    /// What the children account for, kind by kind.
    pub open spec fn children_total(self) -> Counts {
        total_of(self.kids())
    }

    /// What was counted on this report while its scope was the innermost one:
    /// its values without what the children account for.
    pub open spec fn direct(self) -> Counts {
        self.values.less(self.children_total())
    }

    /// At this node and at every node below it, the values cover the sum of
    /// the children's values.
    pub open spec fn rolled_up(self) -> bool
        decreases self,
    {
        match self.children {
            None => true,
            Some(kids) => {
                &&& self.values.covers(total_of(kids))
                &&& forall|i: int| 0 <= i < kids.len() ==> (#[trigger] kids[i]).rolled_up()
            },
        }
    }

    /// The node reached from `self` along `path`, a sequence of positions
    /// among the children, outermost first.
    pub open spec fn descendant(self, path: Seq<int>) -> ReportView
        decreases path.len(),
    {
        if path.len() == 0 {
            self
        } else {
            self.kids()[path[0]].descendant(path.drop_first())
        }
    }

    /// `path` leads to a node of `self`.
    pub open spec fn has_descendant(self, path: Seq<int>) -> bool
        decreases path.len(),
    {
        path.len() == 0 || (0 <= path[0] < self.kids().len() && self.kids()[path[0]].has_descendant(
            path.drop_first(),
        ))
    }
}

/// Adding counts is commutative and associative, and zero changes nothing.
pub proof fn lemma_plus(a: Counts, b: Counts, c: Counts)
    ensures
        a.plus(b) == b.plus(a),
        a.plus(b).plus(c) == a.plus(b.plus(c)),
        a.plus(Counts::zero()) == a,
{
}

/// The order in which two children are merged shows in the list of
/// children, not in the values.
pub proof fn lemma_merge_order(parent: ReportView, first: ReportView, second: ReportView)
    ensures
        parent.merge(first).merge(second).values == parent.merge(second).merge(first).values,
        parent.merge(first).merge(second).kids() == parent.kids().push(first).push(second),
{
}

/// Summing one more report adds its values.
pub proof fn lemma_total_push(reports: Seq<ReportView>, last: ReportView)
    ensures
        total_of(reports.push(last)) == total_of(reports).plus(last.values),
{
    assert(reports.push(last).drop_last() =~= reports);
}

/// A sum covers each of its terms.
pub proof fn lemma_total_covers(reports: Seq<ReportView>, i: int)
    requires
        0 <= i < reports.len(),
    ensures
        total_of(reports).covers(reports[i].values),
    decreases reports.len(),
{
    if i < reports.len() - 1 {
        lemma_total_covers(reports.drop_last(), i);
    }
}

/// The sum over a single report is its values.
pub proof fn lemma_total_single(report: ReportView)
    ensures
        total_of(seq![report]) == report.values,
{
    assert(seq![report].drop_last() =~= Seq::<ReportView>::empty());
    assert(total_of(Seq::<ReportView>::empty()) == Counts::zero());
}

/// A sum with its last two terms set apart.
pub proof fn lemma_total_last_two(reports: Seq<ReportView>)
    requires
        reports.len() >= 2,
    ensures
        total_of(reports) == total_of(reports.subrange(0, reports.len() - 2)).plus(
            reports[reports.len() - 2].values,
        ).plus(reports[reports.len() - 1].values),
{
    let n = reports.len() as int;
    let outer = reports.drop_last();
    assert(total_of(outer) == total_of(outer.drop_last()).plus(outer.last().values));
    assert(outer.drop_last() =~= reports.subrange(0, n - 2));
}

/// A sum covers the sum of each leading part of its terms.
pub proof fn lemma_total_prefix(reports: Seq<ReportView>, n: int)
    requires
        0 <= n <= reports.len(),
    ensures
        total_of(reports).covers(total_of(reports.take(n))),
    decreases reports.len(),
{
    if n < reports.len() {
        lemma_total_prefix(reports.drop_last(), n);
        assert(reports.drop_last().take(n) =~= reports.take(n));
    } else {
        assert(reports.take(n) =~= reports);
    }
}

/// A report that was just opened is rolled up, with nothing counted on it.
pub proof fn lemma_fresh_rollup(name: Seq<char>)
    ensures
        ReportView::fresh(name).rolled_up(),
        ReportView::fresh(name).direct() == Counts::zero(),
{
}

/// Counting on a report raises what was counted on it directly by as much,
/// and touches nothing below it.
pub proof fn lemma_counted_rollup(report: ReportView, delta: Counts)
    requires
        report.rolled_up(),
    ensures
        report.counted(delta).rolled_up(),
        report.counted(delta).direct() == report.direct().plus(delta),
        report.counted(delta).children == report.children,
{
}

/// Closing a child into a report keeps it rolled up and leaves what was
/// counted on it directly as it was: the values grow by exactly what the new
/// child accounts for.
pub proof fn lemma_merge_rollup(parent: ReportView, child: ReportView)
    requires
        parent.rolled_up(),
        child.rolled_up(),
    ensures
        parent.merge(child).rolled_up(),
        parent.merge(child).direct() == parent.direct(),
        parent.merge(child).children_total() == parent.children_total().plus(child.values),
{
    lemma_total_push(parent.kids(), child);
}

/// Rollup: in a rolled-up report the values are what was counted on it
/// directly plus the values of its children, and each child is rolled up.
pub proof fn lemma_rollup(report: ReportView)
    requires
        report.rolled_up(),
    ensures
        report.values.covers(report.children_total()),
        report.values == report.direct().plus(report.children_total()),
        forall|i: int| 0 <= i < report.kids().len() ==> (#[trigger] report.kids()[i]).rolled_up(),
{
}

/// Rollup holds at every node of a rolled-up report, however deep.
pub proof fn lemma_rollup_everywhere(report: ReportView, path: Seq<int>)
    requires
        report.rolled_up(),
        report.has_descendant(path),
    ensures
        report.descendant(path).rolled_up(),
        report.descendant(path).values == report.descendant(path).direct().plus(
            report.descendant(path).children_total(),
        ),
    decreases path.len(),
{
    if path.len() > 0 {
        lemma_rollup(report);
        lemma_rollup_everywhere(report.kids()[path[0]], path.drop_first());
    }
}

/// The statistics of one scope: its name, its counts with those of every
/// scope closed inside it, and the reports of those scopes, oldest first.
#[derive(Debug, PartialEq)]
pub struct Report {
    /// The name of the scope; scopes side by side may share one.
    pub name: &'static str,
    /// What was counted in the scope and in every scope closed inside it.
    pub values: ReportValues,
    /// The reports of the scopes closed inside it, oldest first; `None`
    /// until the first one is closed.
    pub children: Option<Vec<Report>>,
}

/// The values of `reports`, one for one.
pub open spec fn views_of(reports: Seq<Report>) -> Seq<ReportView>
    decreases reports, 0nat,
{
    Seq::new(
        reports.len(),
        |i: int|
            if 0 <= i < reports.len() {
                reports[i].view()
            } else {
                arbitrary()
            },
    )
}

impl View for Report {
    type V = ReportView;

    open spec fn view(&self) -> ReportView
        decreases self, 1nat,
    {
        ReportView {
            name: self.name@,
            values: self.values@,
            children: match self.children {
                None => None,
                Some(kids) => Some(views_of(kids@)),
            },
        }
    }
}

/// The value of a sequence of reports has the value of each at its place.
pub proof fn lemma_views_of(reports: Seq<Report>)
    ensures
        views_of(reports).len() == reports.len(),
        forall|i: int|
            #![trigger views_of(reports)[i]]
            #![trigger reports[i]@]
            0 <= i < reports.len() ==> views_of(reports)[i] == reports[i]@,
{
}

impl Report {
    /// An empty report for the scope `name`: all counts zero, no children.
    pub fn new(name: &'static str) -> (report: Self)
        ensures
            report@ == ReportView::fresh(name@),
            report.name == name,
    {
        Report { name, values: ReportValues::default(), children: None }
    }

    /// Closes `child_report` into this report: adds its counts, kind by kind,
    /// and appends it, whole, to the children.
    pub fn merge(&mut self, child_report: Report)
        requires
            old(self)@.values.plus(child_report@.values).fits(),
        ensures
            final(self)@ == old(self)@.merge(child_report@),
            final(self)@.values == old(self)@.values.plus(child_report@.values),
            final(self)@.kids() == old(self)@.kids().push(child_report@),
            final(self).name == old(self).name,
    {
        self.values.add += child_report.values.add;
        self.values.sub += child_report.values.sub;
        self.values.mul += child_report.values.mul;
        self.values.inv += child_report.values.inv;
        match &mut self.children {
            Some(children) => {
                children.push(child_report);
            },
            None => {
                let mut children: Vec<Report> = Vec::new();
                children.push(child_report);
                self.children = Some(children);
            },
        }
        proof {
            let kids = self.children->0@;
            if old(self).children is Some {
                assert(views_of(kids) =~= views_of(old(self).children->0@).push(child_report@));
            } else {
                assert(views_of(kids) =~= Seq::<ReportView>::empty().push(child_report@));
            }
        }
    }
}

impl Clone for Report {
    /// A structural copy: the same tree, node for node.
    fn clone(&self) -> (copy: Self)
        ensures
            copy@ == self@,
        decreases self,
    {
        let children = match &self.children {
            None => None,
            Some(kids) => {
                let mut copies: Vec<Report> = Vec::new();
                let mut i: usize = 0;
                while i < kids.len()
                    invariant
                        self.children == Some(*kids),
                        i <= kids.len(),
                        copies.len() == i,
                        forall|j: int| 0 <= j < i ==> (#[trigger] copies[j])@ == kids[j]@,
                    decreases kids.len() - i,
                {
                    assert(decreases_to!(self.children => self.children->0));
                    assert(decreases_to!(*kids => kids[i as int]));
                    let copy = kids[i].clone();
                    copies.push(copy);
                    i += 1;
                }
                Some(copies)
            },
        };
        proof {
            if self.children is Some {
                assert(views_of(children->0@) =~= views_of(self.children->0@));
            }
        }
        Report { name: self.name, values: self.values.clone(), children }
    }
}

} // verus!
