//! Setting two directories side by side: which names are in one, in the
//! other or in both, and where files of the same name differ in length.

use crate::entry::{Entry, EntryKind};
use crate::name::{compare_names, order_of, NameOrder};
use crate::text::{append_radix, chars_of, radix_digits};
use vstd::prelude::*;

verus! {

// ---------------------------------------------------------------------
// Entries in the order of their names
// ---------------------------------------------------------------------
/// `order` with position `k` put in after every position whose entry is
/// named like that of `k` or comes before it.
pub open spec fn placed(order: Seq<usize>, children: Seq<Entry>, k: usize) -> Seq<usize>
    decreases order.len(),
{
    if order.len() == 0 {
        seq![k]
    } else if order_of(children[order.last() as int].name@, children[k as int].name@) is After {
        placed(order.drop_last(), children, k).push(order.last())
    } else {
        order.push(k)
    }
}

/// The positions of the first `count` of `children` in the order of
/// their names; entries of the same name keep the order of the listing.
pub open spec fn by_name(children: Seq<Entry>, count: nat) -> Seq<usize>
    decreases count,
{
    if count == 0 || count > children.len() || count > usize::MAX {
        Seq::empty()
    } else {
        placed(by_name(children, (count - 1) as nat), children, (count - 1) as usize)
    }
}

/// Whether `order` holds positions of `children` only, with names in
/// ascending order.
pub open spec fn ascending(order: Seq<usize>, children: Seq<Entry>) -> bool {
    &&& forall|i: int| 0 <= i < order.len() ==> #[trigger] order[i] < children.len()
    &&& forall|i: int, j: int|
        0 <= i < j < order.len() ==> !(order_of(
            children[#[trigger] order[i] as int].name@,
            children[#[trigger] order[j] as int].name@,
        ) is After)
}

/// Where the positions after `cut` all hold entries that come after
/// that of `k`, position `k` is put in among those up to `cut`.
pub proof fn lemma_placed_before(order: Seq<usize>, children: Seq<Entry>, k: usize, cut: int)
    requires
        0 <= cut <= order.len(),
        forall|j: int|
            cut <= j < order.len() ==> order_of(
                children[#[trigger] order[j] as int].name@,
                children[k as int].name@,
            ) is After,
    ensures
        placed(order, children, k) == placed(order.take(cut), children, k) + order.skip(cut),
    decreases order.len() - cut,
{
    if cut == order.len() {
        assert(order.take(cut) =~= order);
        assert(placed(order, children, k) + order.skip(cut) =~= placed(order, children, k));
    } else {
        let init = order.drop_last();
        assert(order_of(children[order[order.len() - 1] as int].name@, children[k as int].name@)
            is After);
        lemma_placed_before(init, children, k, cut);
        assert(init.take(cut) =~= order.take(cut));
        assert((placed(init.take(cut), children, k) + init.skip(cut)).push(order.last())
            =~= placed(order.take(cut), children, k) + order.skip(cut));
    }
}

/// Putting a position in keeps the names in ascending order.
pub proof fn lemma_placed_ascending(order: Seq<usize>, children: Seq<Entry>, k: usize)
    requires
        ascending(order, children),
        k < children.len(),
    ensures
        ascending(placed(order, children, k), children),
        placed(order, children, k).len() == order.len() + 1,
        placed(order, children, k).to_multiset() == order.to_multiset().insert(k),
    decreases order.len(),
{
    broadcast use vstd::seq_lib::group_to_multiset_ensures;

    let name = children[k as int].name@;
    if order.len() == 0 {
        assert(order =~= Seq::<usize>::empty());
        assert(seq![k] =~= order.push(k));
    } else if order_of(children[order.last() as int].name@, name) is After {
        let init = order.drop_last();
        let last = order.last();
        assert(ascending(init, children)) by {
            assert forall|i: int| 0 <= i < init.len() implies #[trigger] init[i]
                < children.len() by {
                assert(init[i] == order[i]);
            }
            assert forall|i: int, j: int| 0 <= i < j < init.len() implies !(order_of(
                children[#[trigger] init[i] as int].name@,
                children[#[trigger] init[j] as int].name@,
            ) is After) by {
                assert(init[i] == order[i]);
                assert(init[j] == order[j]);
            }
        }
        lemma_placed_ascending(init, children, k);
        let inner = placed(init, children, k);
        let result = inner.push(last);
        assert(order =~= init.push(last));
        assert(result.to_multiset() == order.to_multiset().insert(k)) by {
            assert(inner.to_multiset().insert(last) =~= init.to_multiset().insert(last).insert(k));
        }
        assert forall|i: int| 0 <= i < result.len() implies #[trigger] result[i]
            < children.len() by {
            if i < inner.len() {
                assert(result[i] == inner[i]);
            } else {
                assert(result[i] == order[order.len() - 1]);
            }
        }
        assert forall|i: int, j: int| 0 <= i < j < result.len() implies !(order_of(
            children[#[trigger] result[i] as int].name@,
            children[#[trigger] result[j] as int].name@,
        ) is After) by {
            if j < inner.len() {
                assert(result[i] == inner[i]);
                assert(result[j] == inner[j]);
            } else {
                assert(result[i] == inner[i]);
                // Every position in `inner` is `k` or one of `init`, and
                // both come no later than `last`.
                assert(inner.to_multiset().count(inner[i]) > 0);
                if inner[i] == k {
                    crate::name::lemma_order_of_turned(children[last as int].name@, name);
                } else {
                    assert(init.to_multiset().count(inner[i]) > 0);
                    assert(init.contains(inner[i]));
                    let at = choose|at: int| 0 <= at < init.len() && init[at] == inner[i];
                    assert(order[at] == inner[i]);
                    assert(order[order.len() - 1] == last);
                }
            }
        }
    } else {
        let result = order.push(k);
        assert forall|i: int| 0 <= i < result.len() implies #[trigger] result[i]
            < children.len() by {
            if i < order.len() {
                assert(result[i] == order[i]);
            }
        }
        assert forall|i: int, j: int| 0 <= i < j < result.len() implies !(order_of(
            children[#[trigger] result[i] as int].name@,
            children[#[trigger] result[j] as int].name@,
        ) is After) by {
            assert(result[i] == order[i]);
            if j < order.len() {
                assert(result[j] == order[j]);
            } else {
                assert(order[order.len() - 1] == order.last());
                if i < order.len() - 1 {
                    crate::name::lemma_order_of_transitive(
                        children[order[i] as int].name@,
                        children[order.last() as int].name@,
                        name,
                    );
                }
            }
        }
    }
}

/// The order of names holds each position of the listing once, and the
/// names it leads through ascend.
pub proof fn lemma_by_name_ascending(children: Seq<Entry>, count: nat)
    requires
        count <= children.len(),
        count <= usize::MAX,
    ensures
        ascending(by_name(children, count), children),
        by_name(children, count).len() == count,
        forall|k: usize|
            by_name(children, count).to_multiset().count(k) == if k < count {
                1nat
            } else {
                0nat
            },
    decreases count,
{
    broadcast use vstd::seq_lib::group_to_multiset_ensures;

    if count == 0 {
        assert(by_name(children, count) =~= Seq::<usize>::empty());
    } else {
        lemma_by_name_ascending(children, (count - 1) as nat);
        lemma_placed_ascending(
            by_name(children, (count - 1) as nat),
            children,
            (count - 1) as usize,
        );
    }
}

/// The names of `children`, as characters.
pub open spec fn name_chars(names: Seq<Vec<char>>, children: Seq<Entry>) -> bool {
    &&& names.len() == children.len()
    &&& forall|i: int| 0 <= i < names.len() ==> (#[trigger] names[i])@ == children[i].name@
}

fn names_of_children(children: &Vec<Entry>) -> (names: Vec<Vec<char>>)
    ensures
        name_chars(names@, children@),
{
    let mut names: Vec<Vec<char>> = Vec::new();
    let mut i: usize = 0;
    while i < children.len()
        invariant
            i <= children@.len(),
            names@.len() == i,
            forall|k: int| 0 <= k < i ==> (#[trigger] names@[k])@ == children@[k].name@,
        decreases children@.len() - i,
    {
        names.push(chars_of(children[i].name.as_str()));
        i = i + 1;
    }
    names
}

/// Puts the positions of `children` in the order of their names.
pub fn order_by_name(children: &Vec<Entry>) -> (order: Vec<usize>)
    ensures
        order@ == by_name(children@, children@.len()),
        ascending(order@, children@),
        order@.len() == children@.len(),
{
    let names = names_of_children(children);
    let mut order: Vec<usize> = Vec::new();
    let mut k: usize = 0;
    while k < children.len()
        invariant
            k <= children@.len(),
            name_chars(names@, children@),
            order@ == by_name(children@, k as nat),
            order@.len() == k,
            ascending(order@, children@),
        decreases children@.len() - k,
    {
        let mut at: usize = order.len();
        while at > 0 && compare_names(&names[order[at - 1]], &names[k]) == NameOrder::After
            invariant
                at <= order@.len(),
                k < children@.len(),
                name_chars(names@, children@),
                ascending(order@, children@),
                forall|j: int|
                    at <= j < order@.len() ==> order_of(
                        children@[#[trigger] order@[j] as int].name@,
                        children@[k as int].name@,
                    ) is After,
            decreases at,
        {
            at = at - 1;
        }
        proof {
            lemma_placed_before(order@, children@, k, at as int);
            lemma_placed_ascending(order@, children@, k);
            let head = order@.take(at as int);
            if at > 0 {
                assert(head.last() == order@[at - 1]);
                assert(head.drop_last().push(head.last()) =~= head);
            }
            assert(placed(head, children@, k) =~= head.push(k));
            assert(head.push(k) + order@.skip(at as int) =~= order@.insert(at as int, k));
        }
        order.insert(at, k);
        k = k + 1;
    }
    order
}

// ---------------------------------------------------------------------
// The comparison
// ---------------------------------------------------------------------
/// What a line of the comparison says of a name.
#[derive(Clone, Copy, Debug, PartialEq, Eq, Structural)]
pub enum DiffKind {
    /// A directory on both sides; what is in it follows.
    Nested,
    /// A file on both sides, of the same length.
    Same,
    /// A file on both sides, of different lengths.
    Changed,
    /// A file on one side, a directory on the other.
    KindMismatch,
    /// On the first side only.
    OnlyInFirst,
    /// On the second side only.
    OnlyInSecond,
}

/// One line of the comparison, in the parts that a caller may want to
/// decorate separately.
#[derive(Debug, PartialEq, Eq)]
pub struct DiffLine {
    pub kind: DiffKind,
    /// Indentation and sign.
    pub lead: String,
    pub name: String,
    /// What is said after the name, if anything.
    pub detail: String,
}

/// A line of the comparison as plain sequences of characters.
pub struct DiffLineView {
    pub kind: DiffKind,
    pub lead: Seq<char>,
    pub name: Seq<char>,
    pub detail: Seq<char>,
}

impl View for DiffLine {
    type V = DiffLineView;

    open spec fn view(&self) -> DiffLineView {
        DiffLineView {
            kind: self.kind,
            lead: self.lead@,
            name: self.name@,
            detail: self.detail@,
        }
    }
}

impl DiffLineView {
    /// The line as it is written out.
    pub open spec fn text(self) -> Seq<char> {
        self.lead + self.name + self.detail
    }
}

/// The views of a vector of lines.
pub open spec fn diff_views(lines: Seq<DiffLine>) -> Seq<DiffLineView> {
    Seq::new(lines.len(), |i: int| lines[i]@)
}

impl DiffLine {
    /// Writes the line out, with `shown_name` in the place of its name.
    pub fn decorated(&self, shown_name: &str) -> (text: String)
        ensures
            text@ == self@.lead + shown_name@ + self@.detail,
    {
        let mut text = self.lead.clone();
        text.append(shown_name);
        text.append(self.detail.as_str());
        text
    }

    /// Writes the line out.
    pub fn text(&self) -> (text: String)
        ensures
            text@ == self@.text(),
    {
        self.decorated(self.name.as_str())
    }
}

/// The path of the entry `name` in the directory `path`.
pub open spec fn joined(path: Seq<char>, name: Seq<char>) -> Seq<char> {
    if name.len() > 0 && name[0] == '/' {
        name
    } else if path.len() == 0 || path.last() == '/' {
        path + name
    } else {
        path + seq!['/'] + name
    }
}

/// The sign in front of a name.
pub open spec fn sign(kind: DiffKind) -> Seq<char> {
    match kind {
        DiffKind::Nested => Seq::empty(),
        DiffKind::Same => "= "@,
        DiffKind::Changed => "~ "@,
        DiffKind::KindMismatch => Seq::empty(),
        DiffKind::OnlyInFirst => "- "@,
        DiffKind::OnlyInSecond => "+ "@,
    }
}

/// What is said of two files of different lengths.
pub open spec fn lengths_note(
    first: u64,
    second: u64,
    path1: Seq<char>,
    path2: Seq<char>,
) -> Seq<char> {
    " ("@ + radix_digits(first as nat, 10) + " bytes in "@ + path1 + ", "@ + radix_digits(
        second as nat,
        10,
    ) + " bytes in "@ + path2 + ")"@
}

/// A line without detail.
pub open spec fn plain_line(kind: DiffKind, indent: Seq<char>, name: Seq<char>) -> DiffLineView {
    DiffLineView { kind, lead: indent + sign(kind), name, detail: Seq::empty() }
}

/// The line for a name that both sides hold as something other than two
/// directories; none where the lengths of two files are to be compared
/// and one is unknown.
pub open spec fn pair_line(
    x: Entry,
    y: Entry,
    indent: Seq<char>,
    path1: Seq<char>,
    path2: Seq<char>,
) -> Option<DiffLineView> {
    if x.kind is File && y.kind is File {
        match (x.size, y.size) {
            (Some(first), Some(second)) => if first == second {
                Some(plain_line(DiffKind::Same, indent, x.name@))
            } else {
                Some(
                    DiffLineView {
                        kind: DiffKind::Changed,
                        lead: indent + sign(DiffKind::Changed),
                        name: x.name@,
                        detail: lengths_note(first, second, path1, path2),
                    },
                )
            },
            _ => None,
        }
    } else {
        Some(
            DiffLineView {
                kind: DiffKind::KindMismatch,
                lead: indent,
                name: x.name@,
                detail: " (one is a file, the other is a directory)"@,
            },
        )
    }
}

/// One run of lines after another, where there are both.
pub open spec fn followed_by(
    first: Option<Seq<DiffLineView>>,
    rest: Option<Seq<DiffLineView>>,
) -> Option<Seq<DiffLineView>> {
    match (first, rest) {
        (Some(a), Some(b)) => Some(a + b),
        _ => None,
    }
}

/// The comparison of two directories: their entries are gone through
/// in the order of their names, and what is inside two directories of
/// the same name follows their line, indented by two blanks more.
pub open spec fn directory_diff(
    x: Entry,
    y: Entry,
    indent: Seq<char>,
    path1: Seq<char>,
    path2: Seq<char>,
) -> Option<Seq<DiffLineView>>
    decreases x, 0nat, 0nat,
{
    level_diff(x.children@, y.children@, 0, 0, indent, path1, path2)
}

/// The comparison of two listings from position `i` of the one and
/// position `j` of the other on, both counted in the order of names.
pub open spec fn level_diff(
    a: Seq<Entry>,
    b: Seq<Entry>,
    i: nat,
    j: nat,
    indent: Seq<char>,
    path1: Seq<char>,
    path2: Seq<char>,
) -> Option<Seq<DiffLineView>>
    decreases a, 1nat, (a.len() - i) + (b.len() - j),
{
    let first = by_name(a, a.len());
    let second = by_name(b, b.len());
    if first.len() != a.len() || second.len() != b.len() || i > a.len() || j > b.len() {
        // Beyond the ends, or listings longer than any that can be held.
        Some(Seq::empty())
    } else if i < a.len() && j < b.len() {
        proof {
            lemma_by_name_ascending(a, a.len());
        }
        let x = a[first[i as int] as int];
        let y = b[second[j as int] as int];
        match order_of(x.name@, y.name@) {
            NameOrder::Same => followed_by(
                if x.kind is Directory && y.kind is Directory {
                    followed_by(
                        Some(seq![plain_line(DiffKind::Nested, indent, x.name@)]),
                        directory_diff(
                            x,
                            y,
                            indent + "  "@,
                            joined(path1, x.name@),
                            joined(path2, y.name@),
                        ),
                    )
                } else {
                    match pair_line(x, y, indent, path1, path2) {
                        Some(line) => Some(seq![line]),
                        None => None,
                    }
                },
                level_diff(a, b, i + 1, j + 1, indent, path1, path2),
            ),
            NameOrder::Before => followed_by(
                Some(seq![plain_line(DiffKind::OnlyInFirst, indent, x.name@)]),
                level_diff(a, b, i + 1, j, indent, path1, path2),
            ),
            NameOrder::After => followed_by(
                Some(seq![plain_line(DiffKind::OnlyInSecond, indent, y.name@)]),
                level_diff(a, b, i, j + 1, indent, path1, path2),
            ),
        }
    } else if i < a.len() {
        followed_by(
            Some(seq![plain_line(DiffKind::OnlyInFirst, indent, a[first[i as int] as int].name@)]),
            level_diff(a, b, i + 1, j, indent, path1, path2),
        )
    } else if j < b.len() {
        followed_by(
            Some(
                seq![plain_line(DiffKind::OnlyInSecond, indent, b[second[j as int] as int].name@)],
            ),
            level_diff(a, b, i, j + 1, indent, path1, path2),
        )
    } else {
        Some(Seq::empty())
    }
}

/// The comparison of two entries, which must both be directories.
pub open spec fn comparison(
    dir1: Entry,
    dir2: Entry,
    path1: Seq<char>,
    path2: Seq<char>,
) -> Option<Seq<DiffLineView>> {
    if dir1.kind is Directory && dir2.kind is Directory {
        directory_diff(dir1, dir2, Seq::empty(), path1, path2)
    } else {
        None
    }
}

fn sign_of(kind: DiffKind) -> (text: &'static str)
    ensures
        text@ == sign(kind),
{
    proof {
        reveal_strlit("");
    }
    let text = match kind {
        DiffKind::Nested => "",
        DiffKind::Same => "= ",
        DiffKind::Changed => "~ ",
        DiffKind::KindMismatch => "",
        DiffKind::OnlyInFirst => "- ",
        DiffKind::OnlyInSecond => "+ ",
    };
    assert(text@ =~= sign(kind));
    text
}

fn line_of(kind: DiffKind, indent: &str, name: &String) -> (line: DiffLine)
    ensures
        line@ == plain_line(kind, indent@, name@),
{
    let mut lead = String::from_str(indent);
    lead.append(sign_of(kind));
    DiffLine { kind, lead, name: name.clone(), detail: String::new() }
}

fn line_of_pair(x: &Entry, y: &Entry, indent: &str, path1: &str, path2: &str) -> (line: Option<
    DiffLine,
>)
    ensures
        match pair_line(*x, *y, indent@, path1@, path2@) {
            Some(view) => line matches Some(l) && l@ == view,
            None => line is None,
        },
{
    let both_files = match (x.kind, y.kind) {
        (EntryKind::File, EntryKind::File) => true,
        _ => false,
    };
    if both_files {
        match (x.size, y.size) {
            (Some(first), Some(second)) => {
                if first == second {
                    Some(line_of(DiffKind::Same, indent, &x.name))
                } else {
                    let mut lead = String::from_str(indent);
                    lead.append(sign_of(DiffKind::Changed));
                    let mut detail = String::from_str(" (");
                    append_radix(&mut detail, first, 10);
                    detail.append(" bytes in ");
                    detail.append(path1);
                    detail.append(", ");
                    append_radix(&mut detail, second, 10);
                    detail.append(" bytes in ");
                    detail.append(path2);
                    detail.append(")");
                    Some(DiffLine { kind: DiffKind::Changed, lead, name: x.name.clone(), detail })
                }
            },
            _ => None,
        }
    } else {
        Some(
            DiffLine {
                kind: DiffKind::KindMismatch,
                lead: String::from_str(indent),
                name: x.name.clone(),
                detail: String::from_str(" (one is a file, the other is a directory)"),
            },
        )
    }
}

/// Forms the path of the entry `name` in the directory `path`.
pub fn join_path(path: &str, name: &str) -> (whole: String)
    ensures
        whole@ == joined(path@, name@),
{
    let head = chars_of(path);
    let tail = chars_of(name);
    if tail.len() > 0 && tail[0] == '/' {
        return String::from_str(name);
    }
    let mut whole = String::from_str(path);
    if head.len() > 0 && head[head.len() - 1] != '/' {
        proof {
            reveal_strlit("/");
        }
        whole.append("/");
        assert(whole@ =~= path@ + seq!['/']);
    }
    whole.append(name);
    whole
}

fn compare_below(
    x: &Entry,
    y: &Entry,
    indent: &str,
    path1: &str,
    path2: &str,
    out: &mut Vec<DiffLine>,
) -> (known: bool)
    ensures
        match directory_diff(*x, *y, indent@, path1@, path2@) {
            Some(lines) => known && diff_views(final(out)@) == diff_views(old(out)@) + lines,
            None => !known,
        },
    decreases *x,
{
    let a = &x.children;
    let b = &y.children;
    let first = order_by_name(a);
    let second = order_by_name(b);
    let names1 = names_of_children(a);
    let names2 = names_of_children(b);
    let ghost start = diff_views(out@);
    let ghost whole = level_diff(a@, b@, 0, 0, indent@, path1@, path2@);
    let ghost mut done: Seq<DiffLineView> = Seq::empty();
    let mut i: usize = 0;
    let mut j: usize = 0;
    assert(start + done =~= start);
    assert(whole == followed_by(Some(done), whole)) by {
        if whole is Some {
            assert(done + whole->0 =~= whole->0);
        }
    }
    while i < a.len() || j < b.len()
        invariant
            i <= a@.len(),
            j <= b@.len(),
            a == &x.children,
            b == &y.children,
            first@ == by_name(a@, a@.len()),
            second@ == by_name(b@, b@.len()),
            first@.len() == a@.len(),
            second@.len() == b@.len(),
            ascending(first@, a@),
            ascending(second@, b@),
            name_chars(names1@, a@),
            name_chars(names2@, b@),
            diff_views(out@) == start + done,
            whole == directory_diff(*x, *y, indent@, path1@, path2@),
            whole == followed_by(
                Some(done),
                level_diff(a@, b@, i as nat, j as nat, indent@, path1@, path2@),
            ),
        decreases (a@.len() - i) + (b@.len() - j),
    {
        let ghost before = diff_views(out@);
        let ghost here = level_diff(a@, b@, i as nat, j as nat, indent@, path1@, path2@);
        let ghost mut added: Seq<DiffLineView> = Seq::empty();
        let ghost rest: Option<Seq<DiffLineView>>;
        let order = if i < a.len() && j < b.len() {
            assert(first@[i as int] < a@.len());
            assert(second@[j as int] < b@.len());
            compare_names(&names1[first[i]], &names2[second[j]])
        } else if i < a.len() {
            NameOrder::Before
        } else {
            NameOrder::After
        };
        match order {
            NameOrder::Same => {
                assert(first@[i as int] < a@.len());
                assert(second@[j as int] < b@.len());
                let left = &a[first[i]];
                let right = &b[second[j]];
                let both_directories = match (left.kind, right.kind) {
                    (EntryKind::Directory, EntryKind::Directory) => true,
                    _ => false,
                };
                proof {
                    rest =
                    level_diff(
                        a@,
                        b@,
                        (i + 1) as nat,
                        (j + 1) as nat,
                        indent@,
                        path1@,
                        path2@,
                    );
                }
                if both_directories {
                    let line = line_of(DiffKind::Nested, indent, &left.name);
                    proof {
                        added = seq![line@];
                    }
                    out.push(line);
                    assert(diff_views(out@) =~= before + added);
                    let mut inner = String::from_str(indent);
                    inner.append("  ");
                    let below1 = join_path(path1, left.name.as_str());
                    let below2 = join_path(path2, right.name.as_str());
                    let ghost sub = directory_diff(*left, *right, inner@, below1@, below2@);
                    if !compare_below(
                        left,
                        right,
                        inner.as_str(),
                        below1.as_str(),
                        below2.as_str(),
                        out,
                    ) {
                        assert(here is None);
                        return false;
                    }
                    proof {
                        added = added + sub->0;
                        assert(diff_views(out@) =~= before + added);
                        assert(here == followed_by(Some(added), rest));
                    }
                } else {
                    match line_of_pair(left, right, indent, path1, path2) {
                        Some(line) => {
                            proof {
                                added = seq![line@];
                            }
                            out.push(line);
                            assert(diff_views(out@) =~= before + added);
                            assert(here == followed_by(Some(added), rest));
                        },
                        None => {
                            assert(here is None);
                            return false;
                        },
                    }
                }
                i = i + 1;
                j = j + 1;
            },
            NameOrder::Before => {
                assert(first@[i as int] < a@.len());
                let line = line_of(DiffKind::OnlyInFirst, indent, &a[first[i]].name);
                proof {
                    added = seq![line@];
                    rest =
                    level_diff(a@, b@, (i + 1) as nat, j as nat, indent@, path1@, path2@);
                }
                out.push(line);
                assert(diff_views(out@) =~= before + added);
                assert(here == followed_by(Some(added), rest));
                i = i + 1;
            },
            NameOrder::After => {
                assert(second@[j as int] < b@.len());
                let line = line_of(DiffKind::OnlyInSecond, indent, &b[second[j]].name);
                proof {
                    added = seq![line@];
                    rest =
                    level_diff(a@, b@, i as nat, (j + 1) as nat, indent@, path1@, path2@);
                }
                out.push(line);
                assert(diff_views(out@) =~= before + added);
                assert(here == followed_by(Some(added), rest));
                j = j + 1;
            },
        }
        proof {
            if rest is Some {
                assert((done + added) + rest->0 =~= done + (added + rest->0));
            }
            assert(start + (done + added) =~= (start + done) + added);
            done = done + added;
        }
    }
    proof {
        assert(done + Seq::<DiffLineView>::empty() =~= done);
    }
    true
}

/// Compares two directories: goes through the entries of both in the
/// order of their names and says of each name whether it is on one side
/// only, or on both and how the two differ. Directories of the same
/// name are compared in turn. There is no answer where one of the two
/// is not a directory, or where two files of the same name are met and
/// the length of one is unknown.
pub fn compare_directories(dir1: &Entry, dir2: &Entry, path1: &str, path2: &str) -> (lines: Option<
    Vec<DiffLine>,
>)
    ensures
        match comparison(*dir1, *dir2, path1@, path2@) {
            Some(views) => lines matches Some(l) && diff_views(l@) == views,
            None => lines is None,
        },
{
    let both_directories = match (dir1.kind, dir2.kind) {
        (EntryKind::Directory, EntryKind::Directory) => true,
        _ => false,
    };
    if !both_directories {
        return None;
    }
    let mut lines: Vec<DiffLine> = Vec::new();
    proof {
        reveal_strlit("");
        assert(""@ =~= Seq::<char>::empty());
        assert(diff_views(lines@) =~= Seq::<DiffLineView>::empty());
    }
    if compare_below(dir1, dir2, "", path1, path2, &mut lines) {
        proof {
            let views = comparison(*dir1, *dir2, path1@, path2@)->0;
            assert(Seq::<DiffLineView>::empty() + views =~= views);
        }
        Some(lines)
    } else {
        None
    }
}

} // verus!
