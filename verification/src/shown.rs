//! Which entries of a tree are shown, and what the drawing and the tree
//! of records have in common.

use crate::entry::{Entry, EntryKind, TextLine};
use crate::filter::{
    extension_matches, has_matching_descendant, leads_to_match, passes, DateFilter, FilterConfig,
};
use crate::generate::{
    directory_lines, entry_line, level_lines, levels_left, lower, preview, preview_from,
    shown_from, subtree_lines, tree_lines, LineKind, LineView, RenderOptions,
};
use crate::json::{json_tree, node_of, nodes_of, TreeNodeView};
use crate::name::is_hidden;
use vstd::prelude::*;

verus! {

// ---------------------------------------------------------------------
// The entries that are shown
// ---------------------------------------------------------------------
/// The entries below `dir` that are shown, down to `levels` levels where
/// that is a number: each entry that passes the filters, followed by
/// what is shown below it. Nothing below an entry that does not pass is
/// shown.
pub open spec fn shown_below(dir: Entry, levels: Option<nat>, config: FilterConfig) -> Seq<Entry>
    decreases dir, 0nat,
{
    if dir.kind is Directory && levels != Some(0nat) {
        shown_in(dir.children@, 0, lower(levels), config)
    } else {
        Seq::empty()
    }
}

/// What is shown of `children` from position `from` on, and below them.
pub open spec fn shown_in(
    children: Seq<Entry>,
    from: nat,
    levels: Option<nat>,
    config: FilterConfig,
) -> Seq<Entry>
    decreases children, children.len() - from,
{
    if from >= children.len() {
        Seq::empty()
    } else {
        let rest = shown_in(children, (from + 1) as nat, levels, config);
        if passes(children[from as int], config) {
            seq![children[from as int]] + shown_below(children[from as int], levels, config)
                + rest
        } else {
            rest
        }
    }
}

/// Whether `e` is found below `dir`, at most `levels` levels down where
/// that is a number.
pub open spec fn lies_below(e: Entry, dir: Entry, levels: Option<nat>) -> bool
    decreases dir, 0nat,
{
    dir.kind is Directory && levels != Some(0nat) && exists|i: int|
        0 <= i < dir.children@.len() && is_or_holds(#[trigger] dir.children@[i], e, lower(levels))
}

/// Whether `e` is `child` or is found below it.
pub open spec fn is_or_holds(child: Entry, e: Entry, levels: Option<nat>) -> bool
    decreases child, 1nat,
{
    child == e || lies_below(e, child, levels)
}

/// The names of a sequence of entries.
pub open spec fn names_of(entries: Seq<Entry>) -> Seq<Seq<char>> {
    Seq::new(entries.len(), |i: int| entries[i].name@)
}

/// The names on those lines of a drawing that stand for entries.
pub open spec fn entry_names(lines: Seq<LineView>) -> Seq<Seq<char>>
    decreases lines.len(),
{
    if lines.len() == 0 {
        Seq::empty()
    } else {
        let rest = entry_names(lines.drop_first());
        if lines[0].kind is Preview {
            rest
        } else {
            seq![lines[0].name] + rest
        }
    }
}

/// The names in `nodes` from position `from` on, each followed by the
/// names below it.
pub open spec fn names_in(nodes: Seq<TreeNodeView>, from: nat) -> Seq<Seq<char>>
    decreases nodes, nodes.len() - from,
{
    if from >= nodes.len() {
        Seq::empty()
    } else {
        seq![nodes[from as int].name] + names_in(nodes[from as int].children, 0) + names_in(
            nodes,
            (from + 1) as nat,
        )
    }
}

// ---------------------------------------------------------------------
// Names in a drawing
// ---------------------------------------------------------------------
/// The names in two runs of lines, one after the other.
pub proof fn lemma_entry_names_add(a: Seq<LineView>, b: Seq<LineView>)
    ensures
        entry_names(a + b) == entry_names(a) + entry_names(b),
    decreases a.len(),
{
    if a.len() == 0 {
        assert(a + b =~= b);
        assert(entry_names(a) + entry_names(b) =~= entry_names(b));
    } else {
        lemma_entry_names_add(a.drop_first(), b);
        assert((a + b).drop_first() =~= a.drop_first() + b);
        assert((a + b)[0] == a[0]);
        if !(a[0].kind is Preview) {
            assert(seq![a[0].name] + (entry_names(a.drop_first()) + entry_names(b)) =~= (seq![
                a[0].name,
            ] + entry_names(a.drop_first())) + entry_names(b));
        }
    }
}

/// The names of two runs of entries, one after the other.
pub proof fn lemma_names_of_add(a: Seq<Entry>, b: Seq<Entry>)
    ensures
        names_of(a + b) == names_of(a) + names_of(b),
{
    assert(names_of(a + b) =~= names_of(a) + names_of(b));
}

/// A preview holds no line that stands for an entry.
pub proof fn lemma_preview_names(lines: Seq<TextLine>, at: nat, limit: nat, lead: Seq<char>)
    ensures
        entry_names(preview_from(lines, at, limit, lead)) == Seq::<Seq<char>>::empty(),
    decreases lines.len() - at,
{
    let shown = preview_from(lines, at, limit, lead);
    if at >= lines.len() || at >= limit {
    } else {
        match lines[at as int] {
            TextLine::Text(text) => {
                lemma_preview_names(lines, at + 1, limit, lead);
                assert(shown.drop_first() =~= preview_from(lines, at + 1, limit, lead));
                assert(shown[0].kind is Preview);
            },
            TextLine::Undecodable => {
                assert(shown.drop_first() =~= Seq::<LineView>::empty());
                assert(entry_names(Seq::<LineView>::empty()) =~= Seq::<Seq<char>>::empty());
                assert(shown[0].kind is Preview);
            },
        }
    }
}

/// The entries named in the drawing of a level are those that are shown
/// of it, in the same order.
pub proof fn lemma_level_names(
    children: Seq<Entry>,
    from: nat,
    prefix: Seq<char>,
    levels: Option<nat>,
    config: FilterConfig,
    options: RenderOptions,
)
    ensures
        entry_names(level_lines(children, from, prefix, levels, config, options)) == names_of(
            shown_in(children, from, levels, config),
        ),
    decreases children, children.len() - from,
{
    if from >= children.len() {
        assert(names_of(Seq::<Entry>::empty()) =~= Seq::<Seq<char>>::empty());
    } else {
        let e = children[from as int];
        let rest_lines = level_lines(children, (from + 1) as nat, prefix, levels, config, options);
        let rest_shown = shown_in(children, (from + 1) as nat, levels, config);
        lemma_level_names(children, (from + 1) as nat, prefix, levels, config, options);
        if passes(e, config) {
            let last = !shown_from(children, (from + 1) as int, config);
            let line = entry_line(e, last, prefix, options);
            let under_lines = match e.kind {
                EntryKind::File => preview(e, last, prefix, options),
                EntryKind::Directory => directory_lines(
                    e,
                    prefix + crate::generate::continuation(options.branch_style, last),
                    levels,
                    config,
                    options,
                ),
            };
            let under_shown = shown_below(e, levels, config);
            assert(entry_names(under_lines) == names_of(under_shown)) by {
                match e.kind {
                    EntryKind::File => {
                        match (options.preview_lines, e.content) {
                            (Some(limit), Some(lines)) => {
                                lemma_preview_names(
                                    lines@,
                                    0,
                                    limit as nat,
                                    prefix + crate::generate::preview_indent(last),
                                );
                            },
                            _ => {},
                        }
                        assert(names_of(under_shown) =~= Seq::<Seq<char>>::empty());
                    },
                    EntryKind::Directory => {
                        lemma_directory_names(
                            e,
                            prefix + crate::generate::continuation(options.branch_style, last),
                            levels,
                            config,
                            options,
                        );
                    },
                }
            }
            let subtree = subtree_lines(e, last, prefix, levels, config, options);
            assert(subtree == seq![line] + under_lines);
            assert(entry_names(subtree) == seq![e.name@] + names_of(under_shown)) by {
                assert(subtree.drop_first() =~= under_lines);
                assert(subtree[0] == line);
            }
            lemma_entry_names_add(subtree, rest_lines);
            lemma_names_of_add(seq![e] + under_shown, rest_shown);
            lemma_names_of_add(seq![e], under_shown);
            assert(names_of(seq![e]) =~= seq![e.name@]);
        }
    }
}

/// The entries named in the drawing of what lies below a directory are
/// those that are shown below it, in the same order.
pub proof fn lemma_directory_names(
    dir: Entry,
    prefix: Seq<char>,
    levels: Option<nat>,
    config: FilterConfig,
    options: RenderOptions,
)
    ensures
        entry_names(directory_lines(dir, prefix, levels, config, options)) == names_of(
            shown_below(dir, levels, config),
        ),
    decreases dir, 0nat,
{
    if dir.kind is Directory && levels != Some(0nat) {
        lemma_level_names(dir.children@, 0, prefix, lower(levels), config, options);
    } else {
        assert(names_of(Seq::<Entry>::empty()) =~= Seq::<Seq<char>>::empty());
    }
}

// ---------------------------------------------------------------------
// Names in a tree of records
// ---------------------------------------------------------------------
/// The names in a sequence of nodes that has one more node in front are
/// those of the sequence itself, one position on.
pub proof fn lemma_names_in_shift(first: TreeNodeView, rest: Seq<TreeNodeView>, from: nat)
    ensures
        names_in(seq![first] + rest, from + 1) == names_in(rest, from),
    decreases rest.len() - from,
{
    let all = seq![first] + rest;
    if from < rest.len() {
        lemma_names_in_shift(first, rest, from + 1);
        assert(all[from as int + 1] == rest[from as int]);
    }
}

/// The entries named in the nodes of a level are those that are shown
/// of it, in the same order.
pub proof fn lemma_nodes_names(
    children: Seq<Entry>,
    from: nat,
    levels: Option<nat>,
    config: FilterConfig,
)
    ensures
        names_in(nodes_of(children, from, levels, config), 0) == names_of(
            shown_in(children, from, levels, config),
        ),
    decreases children, children.len() - from,
{
    if from >= children.len() {
        assert(names_of(Seq::<Entry>::empty()) =~= Seq::<Seq<char>>::empty());
    } else {
        let e = children[from as int];
        let rest_nodes = nodes_of(children, (from + 1) as nat, levels, config);
        let rest_shown = shown_in(children, (from + 1) as nat, levels, config);
        lemma_nodes_names(children, (from + 1) as nat, levels, config);
        if passes(e, config) {
            let node = node_of(e, levels, config);
            let under_shown = shown_below(e, levels, config);
            lemma_node_names(e, levels, config);
            lemma_names_in_shift(node, rest_nodes, 0);
            let all = seq![node] + rest_nodes;
            assert(all[0] == node);
            lemma_names_of_add(seq![e] + under_shown, rest_shown);
            lemma_names_of_add(seq![e], under_shown);
            assert(names_of(seq![e]) =~= seq![e.name@]);
        }
    }
}

/// The entries named below the node of an entry are those that are
/// shown below the entry, in the same order.
pub proof fn lemma_node_names(e: Entry, levels: Option<nat>, config: FilterConfig)
    ensures
        names_in(node_of(e, levels, config).children, 0) == names_of(
            shown_below(e, levels, config),
        ),
    decreases e, 0nat,
{
    if e.kind is Directory && levels != Some(0nat) {
        lemma_nodes_names(e.children@, 0, lower(levels), config);
    } else {
        assert(names_of(Seq::<Entry>::empty()) =~= Seq::<Seq<char>>::empty());
    }
}

/// The drawing and the tree of records agree: under the same filters
/// and the same depth limit, the entries named in the drawing of what
/// lies below `dir` are the entries named below the root of the tree of
/// records, in the same order.
pub proof fn lemma_drawing_and_records_agree(
    dir: Entry,
    prefix: Seq<char>,
    root_name: Seq<char>,
    depth: nat,
    config: FilterConfig,
    options: RenderOptions,
)
    ensures
        entry_names(tree_lines(dir, prefix, depth, config, options)) == names_in(
            json_tree(dir, root_name, depth, options.max_depth, config).children,
            0,
        ),
{
    let levels = levels_left(depth, options.max_depth);
    lemma_directory_names(dir, prefix, levels, config, options);
    lemma_node_names(dir, levels, config);
}

// ---------------------------------------------------------------------
// What is shown passes the filters
// ---------------------------------------------------------------------
/// Every entry that is shown of a level passes the filters, and is one
/// of the children or lies below one, within the levels allowed.
pub proof fn lemma_shown_in_sound(
    children: Seq<Entry>,
    from: nat,
    levels: Option<nat>,
    config: FilterConfig,
)
    ensures
        forall|k: int|
            0 <= k < shown_in(children, from, levels, config).len() ==> {
                let e = #[trigger] shown_in(children, from, levels, config)[k];
                &&& passes(e, config)
                &&& exists|i: int|
                    from <= i < children.len() && is_or_holds(#[trigger] children[i], e, levels)
            },
    decreases children, children.len() - from,
{
    if from < children.len() {
        let c = children[from as int];
        let rest = shown_in(children, (from + 1) as nat, levels, config);
        lemma_shown_in_sound(children, (from + 1) as nat, levels, config);
        let shown = shown_in(children, from, levels, config);
        if passes(c, config) {
            let under = shown_below(c, levels, config);
            lemma_shown_below_sound(c, levels, config);
            assert forall|k: int| 0 <= k < shown.len() implies {
                let e = #[trigger] shown[k];
                &&& passes(e, config)
                &&& exists|i: int|
                    from <= i < children.len() && is_or_holds(#[trigger] children[i], e, levels)
            } by {
                let e = shown[k];
                if k == 0 {
                    assert(e == c);
                    assert(is_or_holds(children[from as int], e, levels));
                } else if k < 1 + under.len() {
                    assert(e == under[k - 1]);
                    assert(is_or_holds(children[from as int], e, levels));
                } else {
                    assert(e == rest[k - 1 - under.len()]);
                    let i = choose|i: int|
                        from + 1 <= i < children.len() && is_or_holds(
                            #[trigger] children[i],
                            e,
                            levels,
                        );
                    assert(is_or_holds(children[i], e, levels));
                }
            }
        } else {
            assert forall|k: int| 0 <= k < shown.len() implies {
                let e = #[trigger] shown[k];
                &&& passes(e, config)
                &&& exists|i: int|
                    from <= i < children.len() && is_or_holds(#[trigger] children[i], e, levels)
            } by {
                let e = shown[k];
                assert(e == rest[k]);
                let i = choose|i: int|
                    from + 1 <= i < children.len() && is_or_holds(
                        #[trigger] children[i],
                        e,
                        levels,
                    );
                assert(is_or_holds(children[i], e, levels));
            }
        }
    }
}

/// Soundness: every entry that is shown below `dir` passes the filters,
/// and lies below `dir` within the levels allowed.
pub proof fn lemma_shown_below_sound(dir: Entry, levels: Option<nat>, config: FilterConfig)
    ensures
        forall|k: int|
            0 <= k < shown_below(dir, levels, config).len() ==> {
                let e = #[trigger] shown_below(dir, levels, config)[k];
                passes(e, config) && lies_below(e, dir, levels)
            },
    decreases dir, 0nat,
{
    if dir.kind is Directory && levels != Some(0nat) {
        lemma_shown_in_sound(dir.children@, 0, lower(levels), config);
        let shown = shown_below(dir, levels, config);
        assert forall|k: int| 0 <= k < shown.len() implies {
            let e = #[trigger] shown[k];
            passes(e, config) && lies_below(e, dir, levels)
        } by {
            let e = shown[k];
            let i = choose|i: int|
                0 <= i < dir.children@.len() && is_or_holds(
                    #[trigger] dir.children@[i],
                    e,
                    lower(levels),
                );
            assert(is_or_holds(dir.children@[i], e, lower(levels)));
        }
    }
}

/// With hidden entries ignored, no entry with a hidden name is shown.
pub proof fn lemma_hidden_never_shown(dir: Entry, levels: Option<nat>, config: FilterConfig)
    requires
        config.ignore_hidden,
    ensures
        forall|k: int|
            0 <= k < shown_below(dir, levels, config).len() ==> !is_hidden(
                (#[trigger] shown_below(dir, levels, config)[k]).name@,
            ),
{
    lemma_shown_below_sound(dir, levels, config);
}

// ---------------------------------------------------------------------
// The depth limit
// ---------------------------------------------------------------------
/// Beyond the depth limit nothing is drawn, and the tree of records is
/// its root alone.
pub proof fn lemma_nothing_beyond_max_depth(
    dir: Entry,
    prefix: Seq<char>,
    root_name: Seq<char>,
    depth: nat,
    config: FilterConfig,
    options: RenderOptions,
)
    requires
        options.max_depth matches Some(max) && depth > max,
    ensures
        tree_lines(dir, prefix, depth, config, options) == Seq::<LineView>::empty(),
        json_tree(dir, root_name, depth, options.max_depth, config).children == Seq::<
            TreeNodeView,
        >::empty(),
        shown_below(dir, levels_left(depth, options.max_depth), config) == Seq::<Entry>::empty(),
{
}

/// At the depth limit only the entries directly in `dir` are shown:
/// every entry that is shown is one of the children of `dir`, and no
/// node below the root of the tree of records has children.
pub proof fn lemma_only_children_at_max_depth(
    dir: Entry,
    root_name: Seq<char>,
    depth: nat,
    max_depth: Option<usize>,
    config: FilterConfig,
)
    requires
        max_depth matches Some(max) && max == depth,
    ensures
        forall|k: int|
            0 <= k < shown_below(dir, levels_left(depth, max_depth), config).len() ==> exists|
                i: int,
            |
                0 <= i < dir.children@.len() && #[trigger] dir.children@[i] == #[trigger] shown_below(
                    dir,
                    levels_left(depth, max_depth),
                    config,
                )[k],
        forall|j: int|
            0 <= j < json_tree(dir, root_name, depth, max_depth, config).children.len() ==> (
            #[trigger] json_tree(dir, root_name, depth, max_depth, config).children[j]).children
                == Seq::<TreeNodeView>::empty(),
{
    let levels = levels_left(depth, max_depth);
    assert(levels == Some(1nat));
    lemma_shown_below_sound(dir, levels, config);
    let shown = shown_below(dir, levels, config);
    assert forall|k: int| 0 <= k < shown.len() implies exists|i: int|
        0 <= i < dir.children@.len() && #[trigger] dir.children@[i] == #[trigger] shown[k] by {
        let e = shown[k];
        assert(lies_below(e, dir, levels));
        let i = choose|i: int|
            0 <= i < dir.children@.len() && is_or_holds(
                #[trigger] dir.children@[i],
                e,
                lower(levels),
            );
        assert(is_or_holds(dir.children@[i], e, Some(0nat)));
        assert(!lies_below(e, dir.children@[i], Some(0nat)));
        assert(dir.children@[i] == shown[k]);
    }
    let below = json_tree(dir, root_name, depth, max_depth, config).children;
    if dir.kind is Directory {
        lemma_leaf_nodes(dir.children@, 0, config);
        assert(lower(levels) == Some(0nat));
        assert(below == nodes_of(dir.children@, 0, Some(0nat), config));
    } else {
        assert(below == Seq::<TreeNodeView>::empty());
    }
}

/// With no level left below them, the nodes of a level have no children.
pub proof fn lemma_leaf_nodes(children: Seq<Entry>, from: nat, config: FilterConfig)
    ensures
        forall|j: int|
            0 <= j < nodes_of(children, from, Some(0nat), config).len() ==> (#[trigger] nodes_of(
                children,
                from,
                Some(0nat),
                config,
            )[j]).children == Seq::<TreeNodeView>::empty(),
    decreases children.len() - from,
{
    if from < children.len() {
        lemma_leaf_nodes(children, (from + 1) as nat, config);
        let nodes = nodes_of(children, from, Some(0nat), config);
        let rest = nodes_of(children, (from + 1) as nat, Some(0nat), config);
        assert forall|j: int| 0 <= j < nodes.len() implies (#[trigger] nodes[j]).children == Seq::<
            TreeNodeView,
        >::empty() by {
            if passes(children[from as int], config) {
                if j > 0 {
                    assert(nodes[j] == rest[j - 1]);
                } else {
                    assert(nodes[j] == node_of(children[from as int], Some(0nat), config));
                }
            } else {
                assert(nodes[j] == rest[j]);
            }
        }
    }
}

/// A node has children only where its entry is a directory and at
/// least one entry directly in it passes the filters.
pub proof fn lemma_children_need_a_shown_entry(
    e: Entry,
    levels: Option<nat>,
    config: FilterConfig,
)
    requires
        node_of(e, levels, config).children.len() > 0,
    ensures
        e.kind is Directory,
        shown_from(e.children@, 0, config),
{
    lemma_nodes_need_a_shown_entry(e.children@, 0, lower(levels), config);
}

/// A level has nodes only where one of its entries passes the filters.
pub proof fn lemma_nodes_need_a_shown_entry(
    children: Seq<Entry>,
    from: nat,
    levels: Option<nat>,
    config: FilterConfig,
)
    requires
        nodes_of(children, from, levels, config).len() > 0,
    ensures
        shown_from(children, from as int, config),
    decreases children.len() - from,
{
    if from < children.len() {
        if passes(children[from as int], config) {
        } else {
            lemma_nodes_need_a_shown_entry(children, (from + 1) as nat, levels, config);
            let j = choose|j: int|
                from + 1 <= j < children.len() && passes(#[trigger] children[j], config);
            assert(passes(children[j], config));
        }
    }
}

// ---------------------------------------------------------------------
// Directories that lead to a match
// ---------------------------------------------------------------------
/// Whether `config` filters by extension and hidden names alone.
pub open spec fn by_extension_alone(config: FilterConfig) -> bool {
    &&& config.extension is Some
    &&& config.size_min is None
    &&& config.size_max is None
    &&& config.include_pattern is None
    &&& config.exclude_pattern is None
    &&& config.date_filter == DateFilter::Any
}

/// Whether `e` is a file with the extension that `config` asks for.
pub open spec fn is_matching_file(e: Entry, config: FilterConfig) -> bool {
    e.kind is File && extension_matches(e.name@, config.wanted_extension())
}

/// Under an extension filter, a directory that leads to a matching file
/// is pruned by nothing but its own hidden name or its own date, while
/// the files in it with another extension, and the directories in it
/// that lead to no match, are pruned.
pub proof fn lemma_directory_with_match_is_kept(dir: Entry, config: FilterConfig)
    requires
        dir.kind is Directory,
        config.extension is Some,
        has_matching_descendant(dir, config.wanted_extension(), config.ignore_hidden),
    ensures
        passes(dir, config) <==> !(config.ignore_hidden && is_hidden(dir.name@))
            && config.date_filter.admits(dir.modified),
        forall|i: int|
            0 <= i < dir.children@.len() && !leads_to_match(
                #[trigger] dir.children@[i],
                config.wanted_extension(),
                config.ignore_hidden,
            ) ==> !passes(dir.children@[i], config),
{
}

/// An entry of a level that passes the filters is shown, and what is
/// shown below it follows it directly.
pub proof fn lemma_shown_in_holds(
    children: Seq<Entry>,
    from: nat,
    at: int,
    levels: Option<nat>,
    config: FilterConfig,
) -> (position: int)
    requires
        from <= at < children.len(),
        passes(children[at], config),
    ensures
        0 <= position,
        position + 1 + shown_below(children[at], levels, config).len() <= shown_in(
            children,
            from,
            levels,
            config,
        ).len(),
        shown_in(children, from, levels, config)[position] == children[at],
        forall|q: int|
            0 <= q < shown_below(children[at], levels, config).len() ==> shown_in(
                children,
                from,
                levels,
                config,
            )[position + 1 + q] == #[trigger] shown_below(children[at], levels, config)[q],
    decreases at - from,
{
    let rest = shown_in(children, (from + 1) as nat, levels, config);
    let first = children[from as int];
    if at == from {
        0
    } else {
        let inner = lemma_shown_in_holds(children, (from + 1) as nat, at, levels, config);
        if passes(first, config) {
            let lead = seq![first] + shown_below(first, levels, config);
            assert(shown_in(children, from, levels, config) == lead + rest);
            lead.len() + inner
        } else {
            inner
        }
    }
}

/// Where the extension is the only filter and there is no depth limit,
/// a directory that leads to a matching file has a matching file shown
/// below it.
pub proof fn lemma_matching_descendant_is_shown(dir: Entry, config: FilterConfig) -> (position: int)
    requires
        by_extension_alone(config),
        has_matching_descendant(dir, config.wanted_extension(), config.ignore_hidden),
    ensures
        0 <= position < shown_below(dir, None, config).len(),
        is_matching_file(shown_below(dir, None, config)[position], config),
    decreases dir,
{
    let i = choose|i: int|
        0 <= i < dir.children@.len() && leads_to_match(
            #[trigger] dir.children@[i],
            config.wanted_extension(),
            config.ignore_hidden,
        );
    let child = dir.children@[i];
    assert(passes(child, config));
    let at = lemma_shown_in_holds(dir.children@, 0, i, None, config);
    match child.kind {
        EntryKind::File => at,
        EntryKind::Directory => {
            let below = lemma_matching_descendant_is_shown(child, config);
            at + 1 + below
        },
    }
}

} // verus!
