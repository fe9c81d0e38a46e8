//! Drawing a tree of entries as lines of text.

use crate::entry::{
    directory_bytes, get_directory_size, lemma_children_bytes_monotonic, Entry, EntryKind,
    TextLine,
};
use crate::filter::{passes, passes_filters, FilterConfig};
use crate::text::{append_kib, kib_text};
use vstd::prelude::*;

verus! {

// ---------------------------------------------------------------------
// Options and lines
// ---------------------------------------------------------------------
/// The characters that draw the branches of the tree.
#[derive(Clone, Copy, Debug, PartialEq, Eq, Structural)]
pub enum BranchStyle {
    /// `|-- `, `` `-- `` and `|   `.
    Ascii,
    /// Box-drawing characters.
    Unicode,
}

/// How a tree is drawn.
#[derive(Clone, Copy, Debug)]
pub struct RenderOptions {
    /// The deepest level that is still drawn; the entries directly in
    /// the root are level 1 when drawing starts at depth 1.
    pub max_depth: Option<usize>,
    /// Whether each entry is followed by its size.
    pub show_size: bool,
    pub branch_style: BranchStyle,
    /// How many lines of each file are shown under it, if any.
    pub preview_lines: Option<usize>,
}

/// What a line of the drawing shows.
#[derive(Clone, Copy, Debug, PartialEq, Eq, Structural)]
pub enum LineKind {
    File,
    Directory,
    /// A line of a file's content.
    Preview,
}

/// One line of the drawing, in the parts that a caller may want to
/// decorate separately.
#[derive(Debug, PartialEq, Eq)]
pub struct Line {
    pub kind: LineKind,
    /// Indentation and branch.
    pub lead: String,
    /// The entry's name, or the text of a preview line.
    pub name: String,
    /// The size annotation; empty where none is shown.
    pub size: String,
}

/// A line as plain sequences of characters.
pub struct LineView {
    pub kind: LineKind,
    pub lead: Seq<char>,
    pub name: Seq<char>,
    pub size: Seq<char>,
}

impl View for Line {
    type V = LineView;

    open spec fn view(&self) -> LineView {
        LineView { kind: self.kind, lead: self.lead@, name: self.name@, size: self.size@ }
    }
}

impl LineView {
    /// The line as it is written out: lead, name and size in a row.
    pub open spec fn text(self) -> Seq<char> {
        self.lead + self.name + self.size
    }
}

/// The views of a vector of lines.
pub open spec fn line_views(lines: Seq<Line>) -> Seq<LineView> {
    Seq::new(lines.len(), |i: int| lines[i]@)
}

impl Line {
    /// Writes the line out, with `shown_name` in the place of its name.
    pub fn decorated(&self, shown_name: &str) -> (text: String)
        ensures
            text@ == self@.lead + shown_name@ + self@.size,
    {
        let mut text = self.lead.clone();
        text.append(shown_name);
        text.append(self.size.as_str());
        text
    }

    /// Writes the line out.
    pub fn text(&self) -> (text: String)
        ensures
            text@ == self@.text(),
    {
        self.decorated(self.name.as_str())
    }
}

/// The branch drawn in front of an entry.
pub open spec fn branch_glyph(style: BranchStyle, last: bool) -> Seq<char> {
    match style {
        BranchStyle::Ascii => if last {
            "`-- "@
        } else {
            "|-- "@
        },
        BranchStyle::Unicode => if last {
            "└── "@
        } else {
            "├── "@
        },
    }
}

/// What the entries inside a directory are indented with, beyond the
/// directory's own indentation.
pub open spec fn continuation(style: BranchStyle, last: bool) -> Seq<char> {
    if last {
        "    "@
    } else {
        match style {
            BranchStyle::Ascii => "|   "@,
            BranchStyle::Unicode => "│   "@,
        }
    }
}

/// What the preview lines of a file are indented with, beyond the
/// file's own indentation.
pub open spec fn preview_indent(last: bool) -> Seq<char> {
    if last {
        "     "@
    } else {
        "|    "@
    }
}

impl BranchStyle {
    /// The style of that name: `ascii`, or else the box-drawing one.
    pub fn from_name(name: Option<&str>) -> (style: BranchStyle)
        ensures
            style == if name matches Some(n) && n@ == "ascii"@ {
                BranchStyle::Ascii
            } else {
                BranchStyle::Unicode
            },
    {
        match name {
            Some(n) => {
                let given = crate::text::chars_of(n);
                let ascii = crate::text::chars_of("ascii");
                if crate::text::same_chars(&given, &ascii) {
                    BranchStyle::Ascii
                } else {
                    BranchStyle::Unicode
                }
            },
            None => BranchStyle::Unicode,
        }
    }

    fn branch(self, last: bool) -> (glyph: &'static str)
        ensures
            glyph@ == branch_glyph(self, last),
    {
        match self {
            BranchStyle::Ascii => if last {
                "`-- "
            } else {
                "|-- "
            },
            BranchStyle::Unicode => if last {
                "└── "
            } else {
                "├── "
            },
        }
    }

    fn inner_indent(self, last: bool) -> (indent: &'static str)
        ensures
            indent@ == continuation(self, last),
    {
        if last {
            "    "
        } else {
            match self {
                BranchStyle::Ascii => "|   ",
                BranchStyle::Unicode => "│   ",
            }
        }
    }
}

// ---------------------------------------------------------------------
// What the drawing holds
// ---------------------------------------------------------------------
/// The size annotation of an entry in the drawing: a directory shows
/// the sum of all files below it, whether shown or not.
pub open spec fn size_note(e: Entry) -> Seq<char> {
    match e.kind {
        EntryKind::Directory => " ("@ + kib_text(directory_bytes(e)) + " KB)"@,
        EntryKind::File => match e.size {
            Some(len) => " ("@ + kib_text(len as nat) + " KB)"@,
            None => " (size unknown)"@,
        },
    }
}

/// The kind of line that stands for an entry.
pub open spec fn line_kind(kind: EntryKind) -> LineKind {
    match kind {
        EntryKind::File => LineKind::File,
        EntryKind::Directory => LineKind::Directory,
    }
}

/// The line that stands for `e`.
pub open spec fn entry_line(e: Entry, last: bool, prefix: Seq<char>, options: RenderOptions)
    -> LineView {
    LineView {
        kind: line_kind(e.kind),
        lead: prefix + branch_glyph(options.branch_style, last),
        name: e.name@,
        size: if options.show_size {
            size_note(e)
        } else {
            Seq::empty()
        },
    }
}

/// A preview line with the given text.
pub open spec fn preview_line(lead: Seq<char>, text: Seq<char>) -> LineView {
    LineView { kind: LineKind::Preview, lead, name: text, size: Seq::empty() }
}

/// The preview of a file from its line `at` on: at most `limit` lines
/// of the file are looked at, and a line that cannot be decoded ends
/// the preview with a notice.
pub open spec fn preview_from(lines: Seq<TextLine>, at: nat, limit: nat, lead: Seq<char>) -> Seq<
    LineView,
>
    decreases lines.len() - at,
{
    if at >= lines.len() || at >= limit {
        Seq::empty()
    } else {
        match lines[at as int] {
            TextLine::Text(text) => seq![preview_line(lead, text@)] + preview_from(
                lines,
                at + 1,
                limit,
                lead,
            ),
            TextLine::Undecodable => seq![
                preview_line(lead, "Cannot display preview: non-UTF-8 content"@),
            ],
        }
    }
}

/// The preview lines under a file; none where no preview is asked for
/// or the file could not be opened.
pub open spec fn preview(e: Entry, last: bool, prefix: Seq<char>, options: RenderOptions) -> Seq<
    LineView,
> {
    match (options.preview_lines, e.content) {
        (Some(limit), Some(lines)) => preview_from(
            lines@,
            0,
            limit as nat,
            prefix + preview_indent(last),
        ),
        _ => Seq::empty(),
    }
}

/// Whether any of `children` from position `from` on is shown.
pub open spec fn shown_from(children: Seq<Entry>, from: int, config: FilterConfig) -> bool {
    exists|j: int| from <= j < children.len() && passes(#[trigger] children[j], config)
}

/// One level less; no limit stays no limit.
pub open spec fn lower(levels: Option<nat>) -> Option<nat> {
    match levels {
        Some(n) => Some((n - 1) as nat),
        None => None,
    }
}

/// The lines for everything below `dir`, down to `levels` levels where
/// that is a number. Anything but a directory has nothing below it.
pub open spec fn directory_lines(
    dir: Entry,
    prefix: Seq<char>,
    levels: Option<nat>,
    config: FilterConfig,
    options: RenderOptions,
) -> Seq<LineView>
    decreases dir, 0nat,
{
    if dir.kind is Directory && levels != Some(0nat) {
        level_lines(dir.children@, 0, prefix, lower(levels), config, options)
    } else {
        Seq::empty()
    }
}

/// The lines for those of `children` from position `from` on that pass
/// the filters, each followed by what belongs under it. The last child
/// that is shown is drawn as the last.
pub open spec fn level_lines(
    children: Seq<Entry>,
    from: nat,
    prefix: Seq<char>,
    levels: Option<nat>,
    config: FilterConfig,
    options: RenderOptions,
) -> Seq<LineView>
    decreases children, children.len() - from,
{
    if from >= children.len() {
        Seq::empty()
    } else {
        let rest = level_lines(children, (from + 1) as nat, prefix, levels, config, options);
        if passes(children[from as int], config) {
            subtree_lines(
                children[from as int],
                !shown_from(children, (from + 1) as int, config),
                prefix,
                levels,
                config,
                options,
            ) + rest
        } else {
            rest
        }
    }
}

/// The line for `e` and the lines under it: the preview of a file, the
/// content of a directory.
pub open spec fn subtree_lines(
    e: Entry,
    last: bool,
    prefix: Seq<char>,
    levels: Option<nat>,
    config: FilterConfig,
    options: RenderOptions,
) -> Seq<LineView>
    decreases e, 1nat,
{
    seq![entry_line(e, last, prefix, options)] + match e.kind {
        EntryKind::File => preview(e, last, prefix, options),
        EntryKind::Directory => directory_lines(
            e,
            prefix + continuation(options.branch_style, last),
            levels,
            config,
            options,
        ),
    }
}

/// How many levels are drawn from `depth` on under a depth limit: none
/// beyond the limit.
pub open spec fn levels_left(depth: nat, max_depth: Option<usize>) -> Option<nat> {
    match max_depth {
        Some(max) => if depth > max {
            Some(0nat)
        } else {
            Some((max - depth + 1) as nat)
        },
        None => None,
    }
}

/// The drawing of what lies below `dir`, when `dir` itself is at depth
/// `depth - 1`.
pub open spec fn tree_lines(
    dir: Entry,
    prefix: Seq<char>,
    depth: nat,
    config: FilterConfig,
    options: RenderOptions,
) -> Seq<LineView> {
    directory_lines(dir, prefix, levels_left(depth, options.max_depth), config, options)
}

// ---------------------------------------------------------------------
// Drawing
// ---------------------------------------------------------------------
/// Tells, for each of `children`, whether it passes the filters.
pub fn visibility(children: &Vec<Entry>, config: &FilterConfig) -> (flags: Vec<bool>)
    ensures
        flags@.len() == children@.len(),
        forall|i: int|
            0 <= i < children@.len() ==> flags@[i] == passes(#[trigger] children@[i], *config),
{
    let mut flags: Vec<bool> = Vec::new();
    let mut i: usize = 0;
    while i < children.len()
        invariant
            i <= children@.len(),
            flags@.len() == i,
            forall|k: int| 0 <= k < i ==> flags@[k] == passes(#[trigger] children@[k], *config),
        decreases children@.len() - i,
    {
        flags.push(passes_filters(&children[i], config));
        i = i + 1;
    }
    flags
}

/// One more than the position of the last flag that is set; zero where
/// none is.
fn end_of_shown(flags: &Vec<bool>) -> (end: usize)
    ensures
        end <= flags@.len(),
        end > 0 ==> flags@[end - 1],
        forall|j: int| end <= j < flags@.len() ==> !flags@[j],
{
    let mut end: usize = flags.len();
    while end > 0 && !flags[end - 1]
        invariant
            end <= flags@.len(),
            forall|j: int| end <= j < flags@.len() ==> !flags@[j],
        decreases end,
    {
        end = end - 1;
    }
    end
}

fn size_annotation(e: &Entry) -> (note: String)
    requires
        directory_bytes(*e) <= u64::MAX,
    ensures
        note@ == size_note(*e),
{
    let bytes = match e.kind {
        EntryKind::Directory => get_directory_size(e),
        EntryKind::File => match e.size {
            Some(len) => len,
            None => {
                return String::from_str(" (size unknown)");
            },
        },
    };
    let mut note = String::from_str(" (");
    append_kib(&mut note, bytes);
    note.append(" KB)");
    note
}

fn line_for(e: &Entry, last: bool, prefix: &str, options: &RenderOptions) -> (line: Line)
    requires
        options.show_size ==> directory_bytes(*e) <= u64::MAX,
    ensures
        line@ == entry_line(*e, last, prefix@, *options),
{
    let mut lead = String::from_str(prefix);
    lead.append(options.branch_style.branch(last));
    let size = if options.show_size {
        size_annotation(e)
    } else {
        String::new()
    };
    let kind = match e.kind {
        EntryKind::File => LineKind::File,
        EntryKind::Directory => LineKind::Directory,
    };
    Line { kind, lead, name: e.name.clone(), size }
}

fn push_preview(
    e: &Entry,
    last: bool,
    prefix: &str,
    options: &RenderOptions,
    out: &mut Vec<Line>,
)
    ensures
        line_views(final(out)@) == line_views(old(out)@) + preview(*e, last, prefix@, *options),
{
    let ghost start = line_views(out@);
    let limit = match options.preview_lines {
        Some(limit) => limit,
        None => {
            assert(start + Seq::<LineView>::empty() =~= start);
            return ;
        },
    };
    let lines = match &e.content {
        Some(lines) => lines,
        None => {
            assert(start + Seq::<LineView>::empty() =~= start);
            return ;
        },
    };
    let mut lead = String::from_str(prefix);
    lead.append(if last {
        "     "
    } else {
        "|    "
    });
    let ghost whole = preview_from(lines@, 0, limit as nat, lead@);
    let mut i: usize = 0;
    assert(start + whole =~= line_views(out@) + preview_from(lines@, i as nat, limit as nat, lead@));
    while i < lines.len() && i < limit
        invariant_except_break
            start + whole == line_views(out@) + preview_from(
                lines@,
                i as nat,
                limit as nat,
                lead@,
            ),
        invariant
            i <= lines@.len(),
        ensures
            line_views(out@) == start + whole,
        decreases lines@.len() - i,
    {
        let ghost before = line_views(out@);
        let ghost rest = preview_from(lines@, (i + 1) as nat, limit as nat, lead@);
        match &lines[i] {
            TextLine::Text(text) => {
                let line = Line {
                    kind: LineKind::Preview,
                    lead: lead.clone(),
                    name: text.clone(),
                    size: String::new(),
                };
                out.push(line);
                assert(line_views(out@) =~= before.push(line@));
                assert(before + (seq![line@] + rest) =~= before.push(line@) + rest);
            },
            TextLine::Undecodable => {
                let line = Line {
                    kind: LineKind::Preview,
                    lead: lead.clone(),
                    name: String::from_str("Cannot display preview: non-UTF-8 content"),
                    size: String::new(),
                };
                out.push(line);
                assert(line_views(out@) =~= before.push(line@));
                assert(before + seq![line@] =~= before.push(line@));
                break ;
            },
        }
        i = i + 1;
    }
}

/// One level more; no limit stays no limit.
pub open spec fn raised(further: Option<usize>) -> Option<nat> {
    match further {
        Some(n) => Some((n + 1) as nat),
        None => None,
    }
}

/// No number of levels, or that number.
pub open spec fn levels_of(further: Option<usize>) -> Option<nat> {
    match further {
        Some(n) => Some(n as nat),
        None => None,
    }
}

fn draw_below(
    dir: &Entry,
    prefix: &str,
    further: Option<usize>,
    config: &FilterConfig,
    options: &RenderOptions,
    out: &mut Vec<Line>,
)
    requires
        options.show_size ==> directory_bytes(*dir) <= u64::MAX,
    ensures
        line_views(final(out)@) == line_views(old(out)@) + directory_lines(
            *dir,
            prefix@,
            raised(further),
            *config,
            *options,
        ),
    decreases *dir,
{
    let ghost start = line_views(out@);
    let ghost levels = levels_of(further);
    assert(lower(raised(further)) == levels);
    match dir.kind {
        EntryKind::File => {
            assert(start + Seq::<LineView>::empty() =~= start);
            return ;
        },
        EntryKind::Directory => {},
    }
    let children = &dir.children;
    let flags = visibility(children, config);
    let end = end_of_shown(&flags);
    let ghost whole = level_lines(children@, 0, prefix@, levels, *config, *options);
    let mut i: usize = 0;
    assert(start + whole =~= line_views(out@) + whole);
    while i < children.len()
        invariant
            i <= children@.len(),
            children == &dir.children,
            dir.kind is Directory,
            levels == levels_of(further),
            options.show_size ==> directory_bytes(*dir) <= u64::MAX,
            flags@.len() == children@.len(),
            forall|k: int|
                0 <= k < children@.len() ==> flags@[k] == passes(#[trigger] children@[k], *config),
            end <= flags@.len(),
            end > 0 ==> flags@[end - 1],
            forall|j: int| end <= j < flags@.len() ==> !flags@[j],
            start + whole == line_views(out@) + level_lines(
                children@,
                i as nat,
                prefix@,
                levels,
                *config,
                *options,
            ),
        decreases children@.len() - i,
    {
        let ghost before = line_views(out@);
        let ghost rest = level_lines(
            children@,
            (i + 1) as nat,
            prefix@,
            levels,
            *config,
            *options,
        );
        let child = &children[i];
        if flags[i] {
            let last = i + 1 == end;
            proof {
                if last {
                    assert(!shown_from(children@, i + 1, *config));
                } else {
                    assert(passes(children@[end - 1], *config));
                    assert(shown_from(children@, i + 1, *config));
                }
                lemma_children_bytes_monotonic(children@, i as nat, children@.len());
            }
            let line = line_for(child, last, prefix, options);
            out.push(line);
            assert(line_views(out@) =~= before.push(line@));
            let ghost under: Seq<LineView>;
            match child.kind {
                EntryKind::File => {
                    push_preview(child, last, prefix, options, out);
                    proof {
                        under = preview(*child, last, prefix@, *options);
                    }
                },
                EntryKind::Directory => {
                    let mut inner = String::from_str(prefix);
                    inner.append(options.branch_style.inner_indent(last));
                    proof {
                        under =
                        directory_lines(*child, inner@, levels, *config, *options);
                    }
                    match further {
                        Some(0) => {
                            assert(under =~= Seq::<LineView>::empty());
                            assert(line_views(out@) + under =~= line_views(out@));
                        },
                        Some(n) => {
                            draw_below(child, inner.as_str(), Some(n - 1), config, options, out);
                        },
                        None => {
                            draw_below(child, inner.as_str(), None, config, options, out);
                        },
                    }
                },
            }
            assert(line_views(out@) == before.push(line@) + under);
            assert(subtree_lines(*child, last, prefix@, levels, *config, *options) == seq![line@]
                + under);
            assert(before + ((seq![line@] + under) + rest) =~= (before.push(line@) + under) + rest);
        }
        i = i + 1;
    }
    assert(line_views(out@) + Seq::<LineView>::empty() =~= line_views(out@));
}

/// Draws what lies below `dir` as a tree: one line for each entry that
/// passes the filters, in listing order, each followed by what lies
/// below it. `depth` is the level of the entries directly in `dir`;
/// nothing deeper than `options.max_depth` is drawn.
pub fn generate_tree(
    dir: &Entry,
    prefix: &str,
    depth: usize,
    config: &FilterConfig,
    options: &RenderOptions,
) -> (lines: Vec<Line>)
    requires
        options.show_size ==> directory_bytes(*dir) <= u64::MAX,
    ensures
        line_views(lines@) == tree_lines(*dir, prefix@, depth as nat, *config, *options),
{
    let mut lines: Vec<Line> = Vec::new();
    assert(line_views(lines@) =~= Seq::<LineView>::empty());
    match options.max_depth {
        Some(max) => {
            if depth <= max {
                draw_below(dir, prefix, Some(max - depth), config, options, &mut lines);
            }
        },
        None => {
            draw_below(dir, prefix, None, config, options, &mut lines);
        },
    }
    assert(Seq::<LineView>::empty() + tree_lines(
        *dir,
        prefix@,
        depth as nat,
        *config,
        *options,
    ) =~= tree_lines(*dir, prefix@, depth as nat, *config, *options));
    lines
}

} // verus!
