//! The filters that decide which entries of a tree are shown.

use crate::date::{date_seconds, lemma_date_seconds_bound, parse_date_chars, DateError};
use crate::entry::{Entry, EntryKind};
use crate::name::{extension_of, has_extension, is_hidden, name_is_hidden};
use crate::pattern::{pattern_compiles, pattern_matches, Pattern};
use crate::text::chars_of;
use vstd::prelude::*;

verus! {

// ---------------------------------------------------------------------
// Date windows
// ---------------------------------------------------------------------
/// A window of modification times; its bounds are exclusive.
#[derive(Clone, Copy, Debug, PartialEq, Eq, Structural)]
pub enum DateFilter {
    /// Times strictly before the bound.
    Before(u64),
    /// Times strictly after the bound.
    After(u64),
    /// Times strictly between the two bounds.
    Between(u64, u64),
    /// Every time.
    Any,
}

impl DateFilter {
    /// Whether an entry with the given modification time passes. An
    /// entry whose time is unknown always does.
    pub open spec fn admits(self, modified: Option<u64>) -> bool {
        match modified {
            None => true,
            Some(time) => match self {
                DateFilter::Before(bound) => time < bound,
                DateFilter::After(bound) => time > bound,
                DateFilter::Between(low, high) => low < time < high,
                DateFilter::Any => true,
            },
        }
    }

    /// Tells whether an entry with the given modification time passes.
    pub fn allows(&self, modified: Option<u64>) -> (pass: bool)
        ensures
            pass == self.admits(modified),
    {
        match modified {
            None => true,
            Some(time) => match *self {
                DateFilter::Before(bound) => time < bound,
                DateFilter::After(bound) => time > bound,
                DateFilter::Between(low, high) => low < time && time < high,
                DateFilter::Any => true,
            },
        }
    }
}

/// Whether `c` is white space as Unicode defines it.
pub open spec fn is_space(c: char) -> bool {
    let n = c as u32;
    ||| 0x09 <= n <= 0x0d
    ||| n == 0x20
    ||| n == 0x85
    ||| n == 0xa0
    ||| n == 0x1680
    ||| 0x2000 <= n <= 0x200a
    ||| n == 0x2028
    ||| n == 0x2029
    ||| n == 0x202f
    ||| n == 0x205f
    ||| n == 0x3000
}

/// The words of `s`: its maximal runs of characters that are not white
/// space, in order.
pub open spec fn words(s: Seq<char>) -> Seq<Seq<char>>
    decreases s.len(),
{
    if s.len() == 0 {
        Seq::empty()
    } else {
        let before = words(s.drop_last());
        if is_space(s.last()) {
            before
        } else if s.len() >= 2 && !is_space(s[s.len() - 2]) {
            before.drop_last().push(before.last().push(s.last()))
        } else {
            before.push(seq![s.last()])
        }
    }
}

/// No word is empty, and no word holds white space.
pub proof fn lemma_words_hold_no_space(s: Seq<char>)
    ensures
        forall|i: int| 0 <= i < words(s).len() ==> (#[trigger] words(s)[i]).len() > 0,
        forall|i: int, k: int|
            0 <= i < words(s).len() && 0 <= k < words(s)[i].len() ==> !is_space(words(s)[i][k]),
        s.len() > 0 && !is_space(s.last()) ==> words(s).len() > 0,
    decreases s.len(),
{
    let list = words(s);
    if s.len() > 0 {
        let before = words(s.drop_last());
        lemma_words_hold_no_space(s.drop_last());
        if is_space(s.last()) {
        } else if s.len() >= 2 && !is_space(s[s.len() - 2]) {
            assert(s.drop_last().last() == s[s.len() - 2]);
            assert forall|i: int| 0 <= i < list.len() implies (#[trigger] list[i]).len() > 0 by {
                if i < list.len() - 1 {
                    assert(list[i] == before[i]);
                }
            }
            assert forall|i: int, k: int|
                0 <= i < list.len() && 0 <= k < list[i].len() implies !is_space(list[i][k]) by {
                if i < list.len() - 1 {
                    assert(list[i] == before[i]);
                } else if k < before.last().len() {
                    assert(list[i][k] == before[before.len() - 1][k]);
                }
            }
        } else {
            assert forall|i: int| 0 <= i < list.len() implies (#[trigger] list[i]).len() > 0 by {
                if i < list.len() - 1 {
                    assert(list[i] == before[i]);
                }
            }
            assert forall|i: int, k: int|
                0 <= i < list.len() && 0 <= k < list[i].len() implies !is_space(list[i][k]) by {
                if i < list.len() - 1 {
                    assert(list[i] == before[i]);
                }
            }
        }
    }
}

/// The window that a bound given as a date opens, or the reason why the
/// date cannot be read.
pub open spec fn bounded_by(
    date: Seq<char>,
    window: spec_fn(u64) -> DateFilter,
) -> Result<DateFilter, DateError> {
    match date_seconds(date) {
        Ok(bound) => Ok(window(bound as u64)),
        Err(e) => Err(e),
    }
}

/// What a date filter expression means: `before <date>`, `after <date>`
/// or `between <date> <date>`. An expression of any other shape filters
/// nothing. A date that cannot be read is an error; of two such dates
/// the first is reported.
pub open spec fn date_filter_of(expr: Seq<char>) -> Result<DateFilter, DateError> {
    let w = words(expr);
    if w.len() == 2 && w[0] == "before"@ {
        bounded_by(w[1], |bound: u64| DateFilter::Before(bound))
    } else if w.len() == 2 && w[0] == "after"@ {
        bounded_by(w[1], |bound: u64| DateFilter::After(bound))
    } else if w.len() == 3 && w[0] == "between"@ {
        match date_seconds(w[1]) {
            Ok(low) => bounded_by(w[2], |high: u64| DateFilter::Between(low as u64, high)),
            Err(e) => Err(e),
        }
    } else {
        Ok(DateFilter::Any)
    }
}

/// A filter written `after <date>` admits the times strictly after
/// midnight of that date, and no others.
pub proof fn lemma_after_is_strict(expr: Seq<char>, date: Seq<char>, time: u64)
    requires
        words(expr) == seq!["after"@, date],
    ensures
        match date_seconds(date) {
            Ok(bound) => date_filter_of(expr) matches Ok(window) && (window.admits(Some(time))
                <==> time > bound),
            Err(e) => date_filter_of(expr) == Err::<DateFilter, DateError>(e),
        },
{
    reveal_strlit("after");
    reveal_strlit("before");
    lemma_date_seconds_bound(date);
    assert("after"@ != "before"@) by {
        assert("after"@.len() != "before"@.len());
    }
}

/// A filter written `before <date>` admits the times strictly before
/// midnight of that date, and no others.
pub proof fn lemma_before_is_strict(expr: Seq<char>, date: Seq<char>, time: u64)
    requires
        words(expr) == seq!["before"@, date],
    ensures
        match date_seconds(date) {
            Ok(bound) => date_filter_of(expr) matches Ok(window) && (window.admits(Some(time))
                <==> time < bound),
            Err(e) => date_filter_of(expr) == Err::<DateFilter, DateError>(e),
        },
{
    lemma_date_seconds_bound(date);
}

/// A filter written `between <date> <date>` admits the times strictly
/// between midnight of the one date and midnight of the other, and no
/// others.
pub proof fn lemma_between_is_strict(expr: Seq<char>, low: Seq<char>, high: Seq<char>, time: u64)
    requires
        words(expr) == seq!["between"@, low, high],
    ensures
        match (date_seconds(low), date_seconds(high)) {
            (Ok(after), Ok(before)) => date_filter_of(expr) matches Ok(window) && (window.admits(
                Some(time),
            ) <==> after < time < before),
            (Err(e), _) => date_filter_of(expr) == Err::<DateFilter, DateError>(e),
            (Ok(_), Err(e)) => date_filter_of(expr) == Err::<DateFilter, DateError>(e),
        },
{
    lemma_date_seconds_bound(low);
    lemma_date_seconds_bound(high);
}

/// An entry whose modification time is unknown passes every window.
pub proof fn lemma_unknown_time_passes(window: DateFilter)
    ensures
        window.admits(None),
{
}

/// Tells whether `c` is white space.
pub fn char_is_space(c: char) -> (space: bool)
    ensures
        space == is_space(c),
{
    let n = c as u32;
    (0x09 <= n && n <= 0x0d) || n == 0x20 || n == 0x85 || n == 0xa0 || n == 0x1680 || (0x2000 <= n
        && n <= 0x200a) || n == 0x2028 || n == 0x2029 || n == 0x202f || n == 0x205f || n == 0x3000
}

/// The views of a vector of words.
pub open spec fn word_views(list: Seq<Vec<char>>) -> Seq<Seq<char>> {
    Seq::new(list.len(), |i: int| list[i]@)
}

/// Cuts `text` into its words.
pub fn split_words(text: &Vec<char>) -> (list: Vec<Vec<char>>)
    ensures
        word_views(list@) == words(text@),
{
    let mut list: Vec<Vec<char>> = Vec::new();
    let mut current: Vec<char> = Vec::new();
    let mut in_word = false;
    let mut i: usize = 0;
    assert(text@.take(0) =~= Seq::<char>::empty());
    assert(word_views(list@) =~= words(text@.take(0)));
    while i < text.len()
        invariant
            i <= text@.len(),
            in_word == (i > 0 && !is_space(text@[i - 1])),
            in_word ==> word_views(list@).push(current@) == words(text@.take(i as int)),
            !in_word ==> word_views(list@) == words(text@.take(i as int)),
            !in_word ==> current@.len() == 0,
        decreases text@.len() - i,
    {
        let c = text[i];
        let ghost before = words(text@.take(i as int));
        let ghost next = text@.take(i + 1);
        assert(next.drop_last() =~= text@.take(i as int));
        assert(next.last() == c);
        assert(i > 0 ==> next[next.len() - 2] == text@[i - 1]);
        if char_is_space(c) {
            if in_word {
                list.push(current);
                current = Vec::new();
                in_word = false;
                assert(word_views(list@) =~= before);
            }
        } else {
            if in_word {
                assert(before.drop_last() =~= word_views(list@));
                assert(before.last() == current@);
            }
            current.push(c);
            if !in_word {
                assert(current@ =~= seq![c]);
            }
            in_word = true;
        }
        i = i + 1;
    }
    assert(text@.take(text@.len() as int) =~= text@);
    if in_word {
        list.push(current);
        assert(word_views(list@) =~= words(text@));
    }
    list
}

/// Tells whether `word` spells `literal`.
fn spells(word: &Vec<char>, literal: &str) -> (same: bool)
    ensures
        same == (word@ == literal@),
{
    let wanted = chars_of(literal);
    if word.len() != wanted.len() {
        return false;
    }
    let mut i: usize = 0;
    while i < word.len()
        invariant
            i <= word@.len(),
            word@.len() == wanted@.len(),
            wanted@ == literal@,
            forall|k: int| 0 <= k < i ==> word@[k] == wanted@[k],
        decreases word@.len() - i,
    {
        if word[i] != wanted[i] {
            return false;
        }
        i = i + 1;
    }
    assert(word@ =~= wanted@);
    true
}

/// Reads a date filter expression.
pub fn parse_date_filter(expr: &str) -> (filter: Result<DateFilter, DateError>)
    ensures
        filter == date_filter_of(expr@),
{
    let text = chars_of(expr);
    let list = split_words(&text);
    proof {
        assert forall|i: int| 0 <= i < list@.len() implies word_views(list@)[i] == list@[i]@ by {}
    }
    if list.len() == 2 && spells(&list[0], "before") {
        assert(word_views(list@)[0] == list@[0]@);
        assert(word_views(list@)[1] == list@[1]@);
        match parse_date_chars(&list[1]) {
            Ok(bound) => Ok(DateFilter::Before(bound)),
            Err(e) => Err(e),
        }
    } else if list.len() == 2 && spells(&list[0], "after") {
        assert(word_views(list@)[0] == list@[0]@);
        assert(word_views(list@)[1] == list@[1]@);
        match parse_date_chars(&list[1]) {
            Ok(bound) => Ok(DateFilter::After(bound)),
            Err(e) => Err(e),
        }
    } else if list.len() == 3 && spells(&list[0], "between") {
        assert(word_views(list@)[0] == list@[0]@);
        assert(word_views(list@)[1] == list@[1]@);
        assert(word_views(list@)[2] == list@[2]@);
        match parse_date_chars(&list[1]) {
            Ok(low) => match parse_date_chars(&list[2]) {
                Ok(high) => Ok(DateFilter::Between(low, high)),
                Err(e) => Err(e),
            },
            Err(e) => Err(e),
        }
    } else {
        if list.len() > 0 {
            assert(word_views(list@)[0] == list@[0]@);
        }
        Ok(DateFilter::Any)
    }
}

/// Decides whether an entry with the given modification time passes the
/// date filter that `filter` spells out.
pub fn apply_date_filter(modified: Option<u64>, filter: &str) -> (pass: Result<bool, DateError>)
    ensures
        pass == match date_filter_of(filter@) {
            Ok(window) => Ok::<bool, DateError>(window.admits(modified)),
            Err(e) => Err(e),
        },
{
    match parse_date_filter(filter) {
        Ok(window) => Ok(window.allows(modified)),
        Err(e) => Err(e),
    }
}

// ---------------------------------------------------------------------
// Looking below a directory
// ---------------------------------------------------------------------
/// Whether a file of this name satisfies the extension filter. Without
/// a filter every file does.
pub open spec fn extension_matches(name: Seq<char>, extension: Option<Seq<char>>) -> bool {
    match extension {
        Some(wanted) => extension_of(name) == Some(wanted),
        None => true,
    }
}

/// Whether some file below `dir`, at any depth, satisfies the extension
/// filter. With `ignore_hidden`, hidden files do not count and hidden
/// directories are not looked into.
pub open spec fn has_matching_descendant(
    dir: Entry,
    extension: Option<Seq<char>>,
    ignore_hidden: bool,
) -> bool
    decreases dir, 0nat,
{
    dir.kind is Directory && exists|i: int|
        0 <= i < dir.children@.len() && leads_to_match(
            #[trigger] dir.children@[i],
            extension,
            ignore_hidden,
        )
}

/// Whether `e` is a matching file or a directory with a matching file
/// below it, and not left out as hidden.
pub open spec fn leads_to_match(e: Entry, extension: Option<Seq<char>>, ignore_hidden: bool) -> bool
    decreases e, 1nat,
{
    !(ignore_hidden && is_hidden(e.name@)) && match e.kind {
        EntryKind::File => extension_matches(e.name@, extension),
        EntryKind::Directory => has_matching_descendant(e, extension, ignore_hidden),
    }
}

/// The characters of an optional string.
fn optional_chars(text: Option<&String>) -> (chars: Option<Vec<char>>)
    ensures
        chars is Some == text is Some,
        text matches Some(t) ==> chars->0@ == t@,
{
    match text {
        Some(t) => Some(chars_of(t.as_str())),
        None => None,
    }
}

/// The view of an optional extension.
pub open spec fn wanted_view(wanted: Option<Vec<char>>) -> Option<Seq<char>> {
    match wanted {
        Some(w) => Some(w@),
        None => None,
    }
}

fn file_matches(name: &Vec<char>, wanted: &Option<Vec<char>>) -> (matches: bool)
    ensures
        matches == extension_matches(name@, wanted_view(*wanted)),
{
    match wanted {
        Some(w) => has_extension(name, w),
        None => true,
    }
}

fn probe(dir: &Entry, wanted: &Option<Vec<char>>, ignore_hidden: bool) -> (found: bool)
    ensures
        found == has_matching_descendant(*dir, wanted_view(*wanted), ignore_hidden),
    decreases *dir,
{
    match dir.kind {
        EntryKind::File => false,
        EntryKind::Directory => {
            let mut i: usize = 0;
            while i < dir.children.len()
                invariant
                    i <= dir.children@.len(),
                    dir.kind is Directory,
                    forall|k: int|
                        0 <= k < i ==> !leads_to_match(
                            #[trigger] dir.children@[k],
                            wanted_view(*wanted),
                            ignore_hidden,
                        ),
                decreases dir.children@.len() - i,
            {
                let child = &dir.children[i];
                let name = chars_of(child.name.as_str());
                if !(ignore_hidden && name_is_hidden(&name)) {
                    let leads = match child.kind {
                        EntryKind::File => file_matches(&name, wanted),
                        EntryKind::Directory => probe(child, wanted, ignore_hidden),
                    };
                    if leads {
                        assert(leads_to_match(
                            dir.children@[i as int],
                            wanted_view(*wanted),
                            ignore_hidden,
                        ));
                        return true;
                    }
                }
                i = i + 1;
            }
            false
        },
    }
}

/// Checks whether a directory holds, at any depth, a file with the given
/// extension; without an extension, whether it holds any file at all.
pub fn contains_matching_files_extension(
    dir: &Entry,
    file_extension: Option<&String>,
    ignore_hidden: bool,
) -> (found: bool)
    ensures
        found == has_matching_descendant(
            *dir,
            match file_extension {
                Some(ext) => Some(ext@),
                None => None,
            },
            ignore_hidden,
        ),
{
    let wanted = optional_chars(file_extension);
    probe(dir, &wanted, ignore_hidden)
}

// ---------------------------------------------------------------------
// The filter set
// ---------------------------------------------------------------------
/// Why a set of filters was refused.
#[derive(Clone, Copy, Debug, PartialEq, Eq, Structural)]
pub enum ConfigError {
    /// The pattern that files must match, or the one that they must not
    /// match, is not a regular expression.
    InvalidPattern,
    /// The date filter names a date that cannot be read.
    InvalidDate(DateError),
}

/// The filters of one traversal. They do not change while it runs.
pub struct FilterConfig {
    /// Show only files with this extension, written without its dot, and
    /// the directories that lead to one.
    pub extension: Option<String>,
    /// Show only files of at least this many bytes.
    pub size_min: Option<u64>,
    /// Show only files of at most this many bytes.
    pub size_max: Option<u64>,
    /// Show only entries modified inside this window.
    pub date_filter: DateFilter,
    /// Show only files whose name matches.
    pub include_pattern: Option<Pattern>,
    /// Show no file whose name matches.
    pub exclude_pattern: Option<Pattern>,
    /// Show no entry whose name begins with a dot.
    pub ignore_hidden: bool,
}

/// Whether a file of this length lies within the bounds. A file of
/// unknown length always does.
pub open spec fn size_within(size: Option<u64>, min: Option<u64>, max: Option<u64>) -> bool {
    match size {
        Some(len) => (min matches Some(least) ==> len >= least) && (max matches Some(most) ==> len
            <= most),
        None => true,
    }
}

impl FilterConfig {
    /// The extension filter, as characters.
    pub open spec fn wanted_extension(self) -> Option<Seq<char>> {
        match self.extension {
            Some(ext) => Some(ext@),
            None => None,
        }
    }

    /// Whether `name` matches the pattern that files must match, if there
    /// is one.
    pub open spec fn includes(self, name: Seq<char>) -> bool {
        match self.include_pattern {
            Some(p) => pattern_matches(p@, name),
            None => true,
        }
    }

    /// Whether `name` matches the pattern that files must not match, if
    /// there is one.
    pub open spec fn excludes(self, name: Seq<char>) -> bool {
        match self.exclude_pattern {
            Some(p) => pattern_matches(p@, name),
            None => false,
        }
    }

    /// The set that filters nothing.
    pub fn unfiltered() -> (config: FilterConfig)
        ensures
            config.extension is None,
            config.size_min is None,
            config.size_max is None,
            config.date_filter == DateFilter::Any,
            config.include_pattern is None,
            config.exclude_pattern is None,
            !config.ignore_hidden,
    {
        FilterConfig {
            extension: None,
            size_min: None,
            size_max: None,
            date_filter: DateFilter::Any,
            include_pattern: None,
            exclude_pattern: None,
            ignore_hidden: false,
        }
    }
}

/// The characters of an optional string.
pub open spec fn optional_view(text: Option<String>) -> Option<Seq<char>> {
    match text {
        Some(t) => Some(t@),
        None => None,
    }
}

/// The text of an optional pattern.
pub open spec fn pattern_view(pattern: Option<Pattern>) -> Option<Seq<char>> {
    match pattern {
        Some(p) => Some(p@),
        None => None,
    }
}

/// Whether an optional pattern, where it is given, compiles.
pub open spec fn usable(pattern: Option<Seq<char>>) -> bool {
    match pattern {
        Some(p) => pattern_compiles(p),
        None => true,
    }
}

/// The window that an optional date filter expression opens.
pub open spec fn window_of(date_filter: Option<Seq<char>>) -> Result<DateFilter, DateError> {
    match date_filter {
        Some(expr) => date_filter_of(expr),
        None => Ok(DateFilter::Any),
    }
}

/// What is wrong with a set of filters, if anything: a pattern that
/// does not compile counts before a date that cannot be read.
pub open spec fn config_error(
    date_filter: Option<Seq<char>>,
    must_match: Option<Seq<char>>,
    must_not_match: Option<Seq<char>>,
) -> Option<ConfigError> {
    if !usable(must_match) || !usable(must_not_match) {
        Some(ConfigError::InvalidPattern)
    } else {
        match window_of(date_filter) {
            Ok(_) => None,
            Err(e) => Some(ConfigError::InvalidDate(e)),
        }
    }
}

fn checked_pattern(source: Option<String>) -> (pattern: Result<Option<Pattern>, ConfigError>)
    ensures
        match pattern {
            Ok(p) => usable(optional_view(source)) && pattern_view(p) == optional_view(source),
            Err(e) => !usable(optional_view(source)) && e == ConfigError::InvalidPattern,
        },
{
    match source {
        None => Ok(None),
        Some(text) => match Pattern::new(text) {
            Some(p) => Ok(Some(p)),
            None => Err(ConfigError::InvalidPattern),
        },
    }
}

impl FilterConfig {
    /// Checks a set of filters and puts it together: the patterns must
    /// be regular expressions, and the dates in the date filter
    /// expression must be readable.
    pub fn new(
        extension: Option<String>,
        size_min: Option<u64>,
        size_max: Option<u64>,
        date_filter: Option<String>,
        include_pattern: Option<String>,
        exclude_pattern: Option<String>,
        ignore_hidden: bool,
    ) -> (config: Result<FilterConfig, ConfigError>)
        ensures
            match config {
                Ok(c) => {
                    &&& config_error(
                        optional_view(date_filter),
                        optional_view(include_pattern),
                        optional_view(exclude_pattern),
                    ) is None
                    &&& c.wanted_extension() == optional_view(extension)
                    &&& c.size_min == size_min
                    &&& c.size_max == size_max
                    &&& Ok::<DateFilter, DateError>(c.date_filter) == window_of(
                        optional_view(date_filter),
                    )
                    &&& pattern_view(c.include_pattern) == optional_view(include_pattern)
                    &&& pattern_view(c.exclude_pattern) == optional_view(exclude_pattern)
                    &&& c.ignore_hidden == ignore_hidden
                },
                Err(e) => config_error(
                    optional_view(date_filter),
                    optional_view(include_pattern),
                    optional_view(exclude_pattern),
                ) == Some(e),
            },
    {
        let must_match = match checked_pattern(include_pattern) {
            Ok(p) => p,
            Err(e) => {
                return Err(e);
            },
        };
        let must_not_match = match checked_pattern(exclude_pattern) {
            Ok(p) => p,
            Err(e) => {
                return Err(e);
            },
        };
        let window = match &date_filter {
            None => DateFilter::Any,
            Some(expr) => match parse_date_filter(expr.as_str()) {
                Ok(w) => w,
                Err(e) => {
                    return Err(ConfigError::InvalidDate(e));
                },
            },
        };
        Ok(
            FilterConfig {
                extension,
                size_min,
                size_max,
                date_filter: window,
                include_pattern: must_match,
                exclude_pattern: must_not_match,
                ignore_hidden,
            },
        )
    }
}

/// Whether `e` is shown under `config`. The filters apply in this order:
/// hidden names; the extension, which a file must carry and a directory
/// must lead to; for files, the size bounds, the pattern to match and the
/// pattern not to match; the date window.
pub open spec fn passes(e: Entry, config: FilterConfig) -> bool {
    &&& !(config.ignore_hidden && is_hidden(e.name@))
    &&& match e.kind {
        EntryKind::File => {
            &&& extension_matches(e.name@, config.wanted_extension())
            &&& size_within(e.size, config.size_min, config.size_max)
            &&& config.includes(e.name@)
            &&& !config.excludes(e.name@)
        },
        EntryKind::Directory => config.extension is Some ==> has_matching_descendant(
            e,
            config.wanted_extension(),
            config.ignore_hidden,
        ),
    }
    &&& config.date_filter.admits(e.modified)
}

/// Decides whether `entry` is shown under `config`.
pub fn passes_filters(entry: &Entry, config: &FilterConfig) -> (pass: bool)
    ensures
        pass == passes(*entry, *config),
{
    let name = chars_of(entry.name.as_str());
    if config.ignore_hidden && name_is_hidden(&name) {
        return false;
    }
    let wanted = optional_chars(config.extension.as_ref());
    assert(wanted_view(wanted) == config.wanted_extension());
    match entry.kind {
        EntryKind::File => {
            if !file_matches(&name, &wanted) {
                return false;
            }
            if let Some(len) = entry.size {
                if let Some(least) = config.size_min {
                    if len < least {
                        return false;
                    }
                }
                if let Some(most) = config.size_max {
                    if len > most {
                        return false;
                    }
                }
            }
            if let Some(pattern) = &config.include_pattern {
                if !pattern.is_match(entry.name.as_str()) {
                    return false;
                }
            }
            if let Some(pattern) = &config.exclude_pattern {
                if pattern.is_match(entry.name.as_str()) {
                    return false;
                }
            }
        },
        EntryKind::Directory => {
            if wanted.is_some() && !probe(entry, &wanted, config.ignore_hidden) {
                return false;
            }
        },
    }
    config.date_filter.allows(entry.modified)
}

} // verus!

