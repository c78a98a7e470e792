//! Reports as text: an indented listing, and a tree drawn with branches.

use num_format::{Locale, ToFormattedString};
use treeline::Tree;
use vstd::prelude::*;
use vstd::string::*;
use crate::report::{views_of, Counts, Report, ReportValues, ReportView};

verus! {

/// The text that `num_format` gives for `n` in the locale `en`: its decimal
/// digits in groups. Nothing is stated of it but that it depends on `n` alone.
pub uninterp spec fn en_grouped(n: nat) -> Seq<char>;

/// Calls `num_format::ToFormattedString::to_formatted_string` on `n` with
/// `Locale::en`. Nothing is claimed of the text but that it is the one that
/// belongs to `n`.
#[verifier::external_body]
fn group_digits(n: usize) -> (text: String)
    ensures
        text@ == en_grouped(n as nat),
{
    n.to_formatted_string(&Locale::en)
}

/// The line that shows four rendered counts.
pub open spec fn line_of(add: Seq<char>, sub: Seq<char>, mul: Seq<char>, inv: Seq<char>) -> Seq<
    char,
> {
    "add: "@ + add + ", sub: "@ + sub + ", mul: "@ + mul + ", inv: "@ + inv
}

impl Counts {
    /// The line that shows these counts, each with its digits grouped.
    pub open spec fn line(self) -> Seq<char> {
        line_of(
            en_grouped(self.add),
            en_grouped(self.sub),
            en_grouped(self.mul),
            en_grouped(self.inv),
        )
    }
}

/// Puts four rendered counts on one line, each behind its label.
pub fn counts_line(add: &str, sub: &str, mul: &str, inv: &str) -> (line: String)
    ensures
        line@ == line_of(add@, sub@, mul@, inv@),
{
    let mut line = String::from_str("add: ");
    line.append(add);
    line.append(", sub: ");
    line.append(sub);
    line.append(", mul: ");
    line.append(mul);
    line.append(", inv: ");
    line.append(inv);
    line
}

impl ReportValues {
    /// The counts on one line, each with its digits grouped.
    pub fn to_string(&self) -> (line: String)
        ensures
            line@ == self@.line(),
    {
        let add = group_digits(self.add);
        let sub = group_digits(self.sub);
        let mul = group_digits(self.mul);
        let inv = group_digits(self.inv);
        counts_line(add.as_str(), sub.as_str(), mul.as_str(), inv.as_str())
    }
}

/// The two lines that head the listing of a scope: its name, then its counts,
/// both behind the padding `pad`.
pub open spec fn header(pad: Seq<char>, name: Seq<char>, line: Seq<char>) -> Seq<char> {
    "\n"@ + pad + name + "\n"@ + " "@ + pad + line + "\n"@
}

/// Padding for a scope `tab_count` levels deep: two spaces for each level.
pub open spec fn indent(tab_count: nat) -> Seq<char>
    decreases tab_count,
{
    if tab_count == 0 {
        Seq::empty()
    } else {
        indent((tab_count - 1) as nat) + "  "@
    }
}

/// The listings of `reports`, one after the other, each behind `pad`.
pub open spec fn listings_of(reports: Seq<ReportView>, pad: Seq<char>) -> Seq<char>
    decreases reports,
{
    if reports.len() == 0 {
        Seq::empty()
    } else {
        listings_of(reports.drop_last(), pad) + reports.last().listing_behind(pad)
    }
}

impl ReportView {
    /// The listing of this report behind the padding `pad`: its header, then
    /// the listings of its children, oldest first, two spaces further in.
    pub open spec fn listing_behind(self, pad: Seq<char>) -> Seq<char>
        decreases self,
    {
        header(pad, self.name, self.values.line()) + match self.children {
            None => Seq::empty(),
            Some(kids) => listings_of(kids, pad + "  "@),
        }
    }

    /// The listing of this report `tab_count` levels deep.
    pub open spec fn listing(self, tab_count: nat) -> Seq<char> {
        self.listing_behind(indent(tab_count))
    }
}

/// Heads the listing of a scope: a line with its name and a line with its
/// counts, both behind `pad`.
pub fn scope_header(pad: &str, name: &str, line: &str) -> (text: String)
    ensures
        text@ == header(pad@, name@, line@),
{
    let mut text = String::from_str("\n");
    text.append(pad);
    text.append(name);
    text.append("\n");
    text.append(" ");
    text.append(pad);
    text.append(line);
    text.append("\n");
    text
}

/// Two spaces for each of `tab_count` levels.
pub fn indentation(tab_count: usize) -> (pad: String)
    ensures
        pad@ == indent(tab_count as nat),
{
    let mut pad = String::new();
    let mut level: usize = 0;
    while level < tab_count
        invariant
            level <= tab_count,
            pad@ == indent(level as nat),
        decreases tab_count - level,
    {
        pad.append("  ");
        level += 1;
    }
    pad
}

impl Report {
    /// The listing of this report behind the padding `pad`.
    fn listing_behind(&self, pad: &str) -> (text: String)
        ensures
            text@ == self@.listing_behind(pad@),
        decreases self,
    {
        let line = self.values.to_string();
        let mut output = scope_header(pad, self.name, line.as_str());
        match &self.children {
            None => {},
            Some(children) => {
                let mut deeper = String::from_str(pad);
                deeper.append("  ");
                let ghost head = output@;
                let mut i: usize = 0;
                while i < children.len()
                    invariant
                        self.children == Some(*children),
                        i <= children.len(),
                        deeper@ == pad@ + "  "@,
                        output@ == head + listings_of(views_of(children@).take(i as int), deeper@),
                    decreases children.len() - i,
                {
                    assert(decreases_to!(self.children => self.children->0));
                    assert(decreases_to!(*children => children[i as int]));
                    let child = children[i].listing_behind(deeper.as_str());
                    output.append(child.as_str());
                    proof {
                        let kids = views_of(children@);
                        assert(kids.take(i + 1).drop_last() =~= kids.take(i as int));
                    }
                    i += 1;
                }
                assert(views_of(children@).take(i as int) =~= views_of(children@));
            },
        }
        output
    }

    /// This report and everything below it as an indented listing, starting
    /// `tab_count` levels deep. Each scope shows its name and its counts;
    /// the scopes closed inside it follow, oldest first, one level deeper.
    pub fn to_string(&self, tab_count: usize) -> (text: String)
        ensures
            text@ == self@.listing(tab_count as nat),
    {
        let pad = indentation(tab_count);
        self.listing_behind(pad.as_str())
    }
}

/// `treeline::Tree`: a label with a list of trees below it. Nothing inside it
/// is visible here; what it holds goes by the name `tree_outline`.
#[verifier::external_type_specification]
#[verifier::external_body]
#[verifier::reject_recursive_types(D)]
pub struct ExTree<D: std::fmt::Display>(Tree<D>);

/// What a `treeline::Tree` of strings holds: its labels from the top down,
/// each label before the labels of the trees below it, and with each label
/// its depth. The root is at depth 0.
pub uninterp spec fn tree_outline(tree: Tree<String>) -> Seq<(nat, Seq<char>)>;

/// The text that `treeline` draws for the tree that holds `outline`. Nothing
/// is stated of it but that it depends on what the tree holds alone.
pub uninterp spec fn outline_text(outline: Seq<(nat, Seq<char>)>) -> Seq<char>;

/// `outline` one level further down.
pub open spec fn lowered(outline: Seq<(nat, Seq<char>)>) -> Seq<(nat, Seq<char>)> {
    outline.map_values(|entry: (nat, Seq<char>)| ((entry.0 + 1) as nat, entry.1))
}

/// Calls `treeline::Tree::root`, which makes a tree of the one label with
/// nothing below it: the contract says that the tree holds just that.
#[verifier::external_body]
fn tree_root(label: String) -> (tree: Tree<String>)
    ensures
        tree_outline(tree) == seq![(0nat, label@)],
{
    Tree::root(label)
}

/// Calls `treeline::Tree::push`, which puts `leaf` below the root of `tree`,
/// behind the trees that are there already: the contract says that what
/// `tree` held is followed by what `leaf` holds, one level down.
#[verifier::external_body]
fn tree_push(tree: &mut Tree<String>, leaf: Tree<String>)
    ensures
        tree_outline(*final(tree)) == tree_outline(*old(tree)) + lowered(tree_outline(leaf)),
{
    tree.push(leaf);
}

/// Formats `tree` through the `Display` that `treeline` implements for it.
/// Nothing is claimed of the text but that it is the one that belongs to what
/// the tree holds.
#[verifier::external_body]
fn tree_text(tree: &Tree<String>) -> (text: String)
    ensures
        text@ == outline_text(tree_outline(*tree)),
{
    format!("{}", tree)
}

/// The outlines of `reports`, one after the other, each one level down.
pub open spec fn outlines_of(reports: Seq<ReportView>) -> Seq<(nat, Seq<char>)>
    decreases reports,
{
    if reports.len() == 0 {
        Seq::empty()
    } else {
        outlines_of(reports.drop_last()) + lowered(reports.last().outline())
    }
}

impl ReportView {
    /// The tree that is drawn for this report: its name on top; below it
    /// first the line with its counts, then the tree of each child, oldest
    /// first.
    pub open spec fn outline(self) -> Seq<(nat, Seq<char>)>
        decreases self,
    {
        seq![(0nat, self.name), (1nat, self.values.line())] + match self.children {
            None => Seq::empty(),
            Some(kids) => outlines_of(kids),
        }
    }
}

impl Report {
    /// The tree that is drawn for this report.
    fn build_tree(&self) -> (tree: Tree<String>)
        ensures
            tree_outline(tree) == self@.outline(),
        decreases self,
    {
        let mut res = tree_root(String::from_str(self.name));
        let values = tree_root(self.values.to_string());
        proof {
            assert(lowered(tree_outline(values)) =~= seq![(1nat, self@.values.line())]);
        }
        tree_push(&mut res, values);
        match &self.children {
            None => {},
            Some(children) => {
                let ghost head = tree_outline(res);
                let mut i: usize = 0;
                while i < children.len()
                    invariant
                        self.children == Some(*children),
                        i <= children.len(),
                        tree_outline(res) == head + outlines_of(
                            views_of(children@).take(i as int),
                        ),
                    decreases children.len() - i,
                {
                    assert(decreases_to!(self.children => self.children->0));
                    assert(decreases_to!(*children => children[i as int]));
                    let child = children[i].build_tree();
                    tree_push(&mut res, child);
                    proof {
                        let kids = views_of(children@);
                        assert(kids.take(i + 1).drop_last() =~= kids.take(i as int));
                    }
                    i += 1;
                }
                assert(views_of(children@).take(i as int) =~= views_of(children@));
            },
        }
        res
    }

    /// This report and everything below it drawn as a tree: under the name
    /// of each scope its counts and then the scopes closed inside it.
    pub fn display(&self) -> (text: String)
        ensures
            text@ == outline_text(self@.outline()),
    {
        let tree = self.build_tree();
        tree_text(&tree)
    }
}

} // verus!
