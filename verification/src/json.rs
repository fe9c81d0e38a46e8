//! Building the tree of records that is written out as JSON.

use crate::date::{get_human_readable_date, readable_date};
use crate::entry::{
    directory_bytes, get_directory_size, lemma_children_bytes_monotonic, Entry, EntryKind,
};
use crate::filter::{passes, FilterConfig};
use crate::generate::{levels_left, levels_of, lower, raised, visibility};
use crate::text::{append_kib, append_radix, kib_text, radix_digits};
use vstd::prelude::*;

verus! {

/// One entry of the tree with what is reported of it, and the entries
/// below it that pass the filters.
#[derive(Debug, PartialEq, Eq)]
pub struct TreeNode {
    pub name: String,
    /// The size in kibibytes, or a notice that it is unknown.
    pub size: String,
    /// `Directory` or `File`.
    pub node_type: String,
    /// The permission bits in octal, or a notice that they are unknown.
    pub permission: String,
    pub last_modification_date: String,
    pub children: Vec<TreeNode>,
}

/// A node as plain sequences of characters.
pub struct TreeNodeView {
    pub name: Seq<char>,
    pub size: Seq<char>,
    pub node_type: Seq<char>,
    pub permission: Seq<char>,
    pub last_modification_date: Seq<char>,
    pub children: Seq<TreeNodeView>,
}

/// The view of a node: its texts as characters, its children as views.
pub open spec fn view_of(node: TreeNode) -> TreeNodeView
    decreases node, 0nat,
{
    TreeNodeView {
        name: node.name@,
        size: node.size@,
        node_type: node.node_type@,
        permission: node.permission@,
        last_modification_date: node.last_modification_date@,
        children: views_of(node.children@, node.children@.len()),
    }
}

/// The views of the first `count` of `nodes`.
pub open spec fn views_of(nodes: Seq<TreeNode>, count: nat) -> Seq<TreeNodeView>
    decreases nodes, count,
{
    if count == 0 || count > nodes.len() {
        Seq::empty()
    } else {
        views_of(nodes, (count - 1) as nat).push(view_of(nodes[count - 1]))
    }
}

impl View for TreeNode {
    type V = TreeNodeView;

    open spec fn view(&self) -> TreeNodeView {
        view_of(*self)
    }
}

/// The views of a vector of nodes.
pub open spec fn node_views(nodes: Seq<TreeNode>) -> Seq<TreeNodeView> {
    views_of(nodes, nodes.len())
}

/// `views_of` holds the view of each of the nodes it covers, in order.
pub proof fn lemma_views_of(nodes: Seq<TreeNode>, count: nat)
    requires
        count <= nodes.len(),
    ensures
        views_of(nodes, count).len() == count,
        forall|i: int| 0 <= i < count ==> #[trigger] views_of(nodes, count)[i] == nodes[i]@,
    decreases count,
{
    if count > 0 {
        lemma_views_of(nodes, (count - 1) as nat);
    }
}

/// The views of a vector with one more node at its end.
pub proof fn lemma_node_views_push(nodes: Seq<TreeNode>, node: TreeNode)
    ensures
        node_views(nodes.push(node)) == node_views(nodes).push(node@),
{
    let longer = nodes.push(node);
    lemma_views_of(nodes, nodes.len());
    lemma_views_of(longer, longer.len());
    assert forall|i: int| 0 <= i < longer.len() implies node_views(longer)[i] == node_views(
        nodes,
    ).push(node@)[i] by {
        if i < nodes.len() {
            assert(longer[i] == nodes[i]);
        }
    }
    assert(node_views(longer) =~= node_views(nodes).push(node@));
}

/// The size reported of an entry: a directory reports the sum of all
/// files below it, whether they pass the filters or not.
pub open spec fn size_text(e: Entry) -> Seq<char> {
    match e.kind {
        EntryKind::Directory => kib_text(directory_bytes(e)) + " KB"@,
        EntryKind::File => match e.size {
            Some(len) => kib_text(len as nat) + " KB"@,
            None => "size unknown"@,
        },
    }
}

/// The permission bits in octal, or a notice that they are unknown.
pub open spec fn permission_text(mode: Option<u32>) -> Seq<char> {
    match mode {
        Some(bits) => radix_digits(bits as nat, 8),
        None => "permission unknown"@,
    }
}

/// The label of an entry's kind.
pub open spec fn kind_label(kind: EntryKind) -> Seq<char> {
    match kind {
        EntryKind::Directory => "Directory"@,
        EntryKind::File => "File"@,
    }
}

/// The name reported of an entry: its own, or `root_name` where it has
/// none.
pub open spec fn reported_name(e: Entry, root_name: Seq<char>) -> Seq<char> {
    if e.name@.len() == 0 {
        root_name
    } else {
        e.name@
    }
}

/// The node for `e`, with the entries below it down to `levels` levels
/// where that is a number.
pub open spec fn node_of(e: Entry, levels: Option<nat>, config: FilterConfig) -> TreeNodeView
    decreases e, 0nat,
{
    TreeNodeView {
        name: e.name@,
        size: size_text(e),
        node_type: kind_label(e.kind),
        permission: permission_text(e.mode),
        last_modification_date: readable_date(e.modified),
        children: if e.kind is Directory && levels != Some(0nat) {
            nodes_of(e.children@, 0, lower(levels), config)
        } else {
            Seq::empty()
        },
    }
}

/// The nodes for those of `children` from position `from` on that pass
/// the filters.
pub open spec fn nodes_of(
    children: Seq<Entry>,
    from: nat,
    levels: Option<nat>,
    config: FilterConfig,
) -> Seq<TreeNodeView>
    decreases children, children.len() - from,
{
    if from >= children.len() {
        Seq::empty()
    } else {
        let rest = nodes_of(children, (from + 1) as nat, levels, config);
        if passes(children[from as int], config) {
            seq![node_of(children[from as int], levels, config)] + rest
        } else {
            rest
        }
    }
}

/// The tree of records for `e`, whose children are at depth `depth`.
/// Where `e` has no name, the tree goes by `root_name`.
pub open spec fn json_tree(
    e: Entry,
    root_name: Seq<char>,
    depth: nat,
    max_depth: Option<usize>,
    config: FilterConfig,
) -> TreeNodeView {
    let node = node_of(e, levels_left(depth, max_depth), config);
    TreeNodeView {
        name: reported_name(e, root_name),
        size: node.size,
        node_type: node.node_type,
        permission: node.permission,
        last_modification_date: node.last_modification_date,
        children: node.children,
    }
}

fn size_of(e: &Entry) -> (text: String)
    requires
        directory_bytes(*e) <= u64::MAX,
    ensures
        text@ == size_text(*e),
{
    let bytes = match e.kind {
        EntryKind::Directory => get_directory_size(e),
        EntryKind::File => match e.size {
            Some(len) => len,
            None => {
                return String::from_str("size unknown");
            },
        },
    };
    let mut text = String::new();
    append_kib(&mut text, bytes);
    text.append(" KB");
    text
}

fn permission_of(mode: Option<u32>) -> (text: String)
    ensures
        text@ == permission_text(mode),
{
    match mode {
        Some(bits) => {
            let mut text = String::new();
            append_radix(&mut text, bits as u64, 8);
            text
        },
        None => String::from_str("permission unknown"),
    }
}

/// The levels that `with_children` and `further` stand for: none, or
/// one more than `further`.
pub open spec fn levels_for(with_children: bool, further: Option<usize>) -> Option<nat> {
    if with_children {
        raised(further)
    } else {
        Some(0nat)
    }
}

fn build_node(
    e: &Entry,
    with_children: bool,
    further: Option<usize>,
    config: &FilterConfig,
) -> (node: TreeNode)
    requires
        directory_bytes(*e) <= u64::MAX,
    ensures
        node@ == node_of(*e, levels_for(with_children, further), *config),
    decreases *e,
{
    let node_type = match e.kind {
        EntryKind::Directory => String::from_str("Directory"),
        EntryKind::File => String::from_str("File"),
    };
    let mut nodes: Vec<TreeNode> = Vec::new();
    let ghost levels = levels_of(further);
    proof {
        assert(node_views(nodes@) =~= Seq::<TreeNodeView>::empty());
    }
    let is_dir = match e.kind {
        EntryKind::Directory => true,
        EntryKind::File => false,
    };
    if is_dir && with_children {
        let children = &e.children;
        let flags = visibility(children, config);
        let ghost whole = nodes_of(children@, 0, levels, *config);
        let (inner_children, inner_further) = match further {
            Some(0) => (false, None),
            Some(n) => (true, Some((n - 1) as usize)),
            None => (true, None),
        };
        assert(levels_for(inner_children, inner_further) == levels);
        let mut i: usize = 0;
        assert(whole =~= node_views(nodes@) + whole);
        while i < children.len()
            invariant
                i <= children@.len(),
                children == &e.children,
                e.kind is Directory,
                directory_bytes(*e) <= u64::MAX,
                levels_for(inner_children, inner_further) == levels,
                flags@.len() == children@.len(),
                forall|k: int|
                    0 <= k < children@.len() ==> flags@[k] == passes(
                        #[trigger] children@[k],
                        *config,
                    ),
                whole == node_views(nodes@) + nodes_of(children@, i as nat, levels, *config),
            decreases children@.len() - i,
        {
            let ghost before = node_views(nodes@);
            let ghost rest = nodes_of(children@, (i + 1) as nat, levels, *config);
            if flags[i] {
                proof {
                    lemma_children_bytes_monotonic(children@, i as nat, children@.len());
                }
                let child = build_node(&children[i], inner_children, inner_further, config);
                proof {
                    lemma_node_views_push(nodes@, child);
                }
                nodes.push(child);
                assert(node_views(nodes@) == before.push(child@));
                assert(before + (seq![child@] + rest) =~= before.push(child@) + rest);
            }
            i = i + 1;
        }
        assert(node_views(nodes@) + Seq::<TreeNodeView>::empty() =~= node_views(nodes@));
    }
    let node = TreeNode {
        name: e.name.clone(),
        size: size_of(e),
        node_type,
        permission: permission_of(e.mode),
        last_modification_date: get_human_readable_date(e.modified),
        children: nodes,
    };
    node
}

/// Builds the tree of records for `entry`: the entry itself and, below
/// it, the entries that pass the filters. `depth` is the level of the
/// entries directly in `entry`; nothing deeper than `max_depth` is
/// taken in. An entry without a name is reported as `root_dir_name`.
pub fn generate_json_tree(
    entry: &Entry,
    root_dir_name: &str,
    depth: usize,
    max_depth: Option<usize>,
    config: &FilterConfig,
) -> (node: TreeNode)
    requires
        directory_bytes(*entry) <= u64::MAX,
    ensures
        node@ == json_tree(*entry, root_dir_name@, depth as nat, max_depth, *config),
{
    let mut node = match max_depth {
        Some(max) => {
            if depth <= max {
                build_node(entry, true, Some(max - depth), config)
            } else {
                build_node(entry, false, None, config)
            }
        },
        None => build_node(entry, true, None, config),
    };
    if entry.name.as_str().is_empty() {
        node.name = String::from_str(root_dir_name);
    }
    node
}

} // verus!

