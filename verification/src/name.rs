//! What a file name says about an entry: whether it is hidden, and which
//! extension it carries.

use vstd::prelude::*;

verus! {

/// A name is hidden when it begins with a dot.
pub open spec fn is_hidden(name: Seq<char>) -> bool {
    name.len() > 0 && name[0] == '.'
}

/// The position of the last `c` in `s`, or -1 where `s` holds none.
pub open spec fn last_index_of(s: Seq<char>, c: char) -> int
    decreases s.len(),
{
    if s.len() == 0 {
        -1
    } else if s.last() == c {
        s.len() - 1
    } else {
        last_index_of(s.drop_last(), c)
    }
}

/// The extension of a file name: what follows its last dot. A name
/// without a dot has none, nor has one whose only dot comes first, nor
/// the name `..`. A name that ends in a dot has the empty extension.
pub open spec fn extension_of(name: Seq<char>) -> Option<Seq<char>> {
    let dot = last_index_of(name, '.');
    if dot <= 0 || name == seq!['.', '.'] {
        None
    } else {
        Some(name.subrange(dot + 1, name.len() as int))
    }
}

/// `last_index_of` finds a position that holds `c`, after which no `c`
/// follows; it finds none only where `s` holds no `c` at all.
pub proof fn lemma_last_index_of(s: Seq<char>, c: char)
    ensures
        -1 <= last_index_of(s, c) < s.len(),
        last_index_of(s, c) >= 0 ==> s[last_index_of(s, c)] == c,
        forall|i: int| last_index_of(s, c) < i < s.len() ==> s[i] != c,
    decreases s.len(),
{
    if s.len() > 0 && s.last() != c {
        let init = s.drop_last();
        lemma_last_index_of(init, c);
        assert forall|i: int| last_index_of(s, c) < i < s.len() implies s[i] != c by {
            if i < init.len() {
                assert(init[i] == s[i]);
            }
        }
    }
}

/// A position that holds `c` and is followed by no other `c` is the one
/// that `last_index_of` finds.
pub proof fn lemma_last_index_of_unique(s: Seq<char>, c: char, at: int)
    requires
        -1 <= at < s.len(),
        at >= 0 ==> s[at] == c,
        forall|i: int| at < i < s.len() ==> s[i] != c,
    ensures
        last_index_of(s, c) == at,
{
    lemma_last_index_of(s, c);
}

/// Tells whether `name` is hidden.
pub fn name_is_hidden(name: &Vec<char>) -> (hidden: bool)
    ensures
        hidden == is_hidden(name@),
{
    name.len() > 0 && name[0] == '.'
}

/// Tells whether the extension of `name` is exactly `wanted`.
pub fn has_extension(name: &Vec<char>, wanted: &Vec<char>) -> (same: bool)
    ensures
        same == (extension_of(name@) == Some(wanted@)),
{
    let len = name.len();
    let mut dot: usize = len;
    while dot > 0 && name[dot - 1] != '.'
        invariant
            dot <= len,
            len == name@.len(),
            forall|i: int| dot <= i < len ==> name@[i] != '.',
        decreases dot,
    {
        dot = dot - 1;
    }
    proof {
        lemma_last_index_of_unique(name@, '.', dot as int - 1);
    }
    // `dot` is one past the last dot, or zero where there is none.
    if dot <= 1 {
        return false;
    }
    if len == 2 && name[0] == '.' {
        assert(name@ =~= seq!['.', '.']);
        return false;
    }
    assert(name@ != seq!['.', '.']) by {
        if name@ == seq!['.', '.'] {
            assert(name@.len() == 2);
            assert(name@[0] == seq!['.', '.'][0]);
        }
    }
    let ghost tail = name@.subrange(dot as int, len as int);
    assert(extension_of(name@) == Some(tail));
    if len - dot != wanted.len() {
        assert(tail.len() != wanted@.len());
        return false;
    }
    let mut k: usize = 0;
    while k < wanted.len()
        invariant
            k <= wanted@.len(),
            dot + wanted@.len() == len,
            len == name@.len(),
            tail == name@.subrange(dot as int, len as int),
            extension_of(name@) == Some(tail),
            forall|i: int| 0 <= i < k ==> name@[dot + i] == wanted@[i],
        decreases wanted@.len() - k,
    {
        if name[dot + k] != wanted[k] {
            assert(tail[k as int] == name@[dot + k]);
            assert(tail != wanted@);
            return false;
        }
        k = k + 1;
    }
    assert(tail =~= wanted@);
    true
}

// ---------------------------------------------------------------------
// The order of names
// ---------------------------------------------------------------------
/// How one name stands to another in the order of names.
#[derive(Clone, Copy, Debug, PartialEq, Eq, Structural)]
pub enum NameOrder {
    Before,
    Same,
    After,
}

/// How `a` stands to `b`: names are ordered character by character, and
/// a name comes before every longer name that begins with it.
pub open spec fn order_of(a: Seq<char>, b: Seq<char>) -> NameOrder
    decreases a.len(),
{
    if a.len() == 0 {
        if b.len() == 0 {
            NameOrder::Same
        } else {
            NameOrder::Before
        }
    } else if b.len() == 0 {
        NameOrder::After
    } else if a[0] == b[0] {
        order_of(a.drop_first(), b.drop_first())
    } else if a[0] < b[0] {
        NameOrder::Before
    } else {
        NameOrder::After
    }
}

/// Names that begin alike stand to each other as what follows the
/// common beginning.
pub proof fn lemma_order_of_skip(a: Seq<char>, b: Seq<char>, common: int)
    requires
        0 <= common <= a.len(),
        common <= b.len(),
        forall|k: int| 0 <= k < common ==> a[k] == b[k],
    ensures
        order_of(a, b) == order_of(a.skip(common), b.skip(common)),
    decreases common,
{
    if common == 0 {
        assert(a.skip(0) =~= a);
        assert(b.skip(0) =~= b);
    } else {
        assert(a[0] == b[0]);
        let a1 = a.drop_first();
        let b1 = b.drop_first();
        assert forall|k: int| 0 <= k < common - 1 implies a1[k] == b1[k] by {
            assert(a1[k] == a[k + 1]);
            assert(b1[k] == b[k + 1]);
        }
        lemma_order_of_skip(a1, b1, common - 1);
        assert(a1.skip(common - 1) =~= a.skip(common));
        assert(b1.skip(common - 1) =~= b.skip(common));
    }
}

/// Two names stand as `Same` exactly when they are the same name.
pub proof fn lemma_order_of_same(a: Seq<char>, b: Seq<char>)
    ensures
        order_of(a, b) is Same <==> a == b,
    decreases a.len(),
{
    if a.len() > 0 && b.len() > 0 {
        lemma_order_of_same(a.drop_first(), b.drop_first());
        if a[0] == b[0] && a.drop_first() == b.drop_first() {
            assert(a =~= seq![a[0]] + a.drop_first());
            assert(b =~= seq![b[0]] + b.drop_first());
        }
    } else if a.len() == 0 && b.len() == 0 {
        assert(a =~= b);
    }
}

/// Turning two names round turns their order round.
pub proof fn lemma_order_of_turned(a: Seq<char>, b: Seq<char>)
    ensures
        order_of(a, b) is Before <==> order_of(b, a) is After,
        order_of(a, b) is Same <==> order_of(b, a) is Same,
    decreases a.len(),
{
    if a.len() > 0 && b.len() > 0 {
        lemma_order_of_turned(a.drop_first(), b.drop_first());
    }
}

/// The order of names is transitive.
pub proof fn lemma_order_of_transitive(a: Seq<char>, b: Seq<char>, c: Seq<char>)
    requires
        !(order_of(a, b) is After),
        !(order_of(b, c) is After),
    ensures
        !(order_of(a, c) is After),
        order_of(a, b) is Before || order_of(b, c) is Before ==> order_of(a, c) is Before,
    decreases a.len(),
{
    if a.len() > 0 && b.len() > 0 && c.len() > 0 {
        if a[0] == b[0] && b[0] == c[0] {
            lemma_order_of_transitive(a.drop_first(), b.drop_first(), c.drop_first());
        }
    }
}

/// Tells how `a` stands to `b` in the order of names.
pub fn compare_names(a: &Vec<char>, b: &Vec<char>) -> (order: NameOrder)
    ensures
        order == order_of(a@, b@),
{
    let mut i: usize = 0;
    while i < a.len() && i < b.len()
        invariant
            i <= a@.len(),
            i <= b@.len(),
            forall|k: int| 0 <= k < i ==> a@[k] == b@[k],
        decreases a@.len() - i,
    {
        if a[i] != b[i] {
            proof {
                lemma_order_of_skip(a@, b@, i as int);
            }
            return if a[i] < b[i] {
                NameOrder::Before
            } else {
                NameOrder::After
            };
        }
        i = i + 1;
    }
    proof {
        lemma_order_of_skip(a@, b@, i as int);
    }
    if i < b.len() {
        NameOrder::Before
    } else if i < a.len() {
        NameOrder::After
    } else {
        NameOrder::Same
    }
}

} // verus!
