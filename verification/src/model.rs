//! The mathematical model of the value tree: the ghost mirror type, the
//! model of a concrete value, structural equivalence, and well-formedness.
//! Every contract in the engine is stated over this model.

use vstd::prelude::*;

use crate::value::{Num, Value};

verus! {

/// The mathematical model of a [`Value`]: the same shape, with text as a
/// sequence of characters and containers as ghost sequences.
#[verifier::ext_equal]
pub enum Tree {
    Null,
    Bool(bool),
    Number(Num),
    Text(Seq<char>),
    Sequence(Seq<Tree>),
    Mapping(Seq<(Tree, Tree)>),
}

/// The model of a concrete value.
pub open spec fn tree_of(v: Value) -> Tree
    decreases v,
{
    match v {
        Value::Null => Tree::Null,
        Value::Bool(b) => Tree::Bool(b),
        Value::Number(n) => Tree::Number(n),
        Value::Text(s) => Tree::Text(s@),
        Value::Sequence(items) => Tree::Sequence(trees_of(items@)),
        Value::Mapping(entries) => Tree::Mapping(entry_trees_of(entries@)),
    }
}

/// The models of the elements of a sequence, in order.
pub open spec fn trees_of(s: Seq<Value>) -> Seq<Tree>
    decreases s,
{
    if s.len() == 0 {
        Seq::empty()
    } else {
        seq![tree_of(s[0])] + trees_of(s.drop_first())
    }
}

/// The models of the entries of a mapping, in order.
pub open spec fn entry_trees_of(s: Seq<(Value, Value)>) -> Seq<(Tree, Tree)>
    decreases s,
{
    if s.len() == 0 {
        Seq::empty()
    } else {
        seq![(tree_of(s[0].0), tree_of(s[0].1))] + entry_trees_of(s.drop_first())
    }
}

pub broadcast proof fn lemma_trees_of_len(s: Seq<Value>)
    ensures
        (#[trigger] trees_of(s)).len() == s.len(),
    decreases s.len(),
{
    if s.len() > 0 {
        lemma_trees_of_len(s.drop_first());
    }
}

pub broadcast proof fn lemma_trees_of_index(s: Seq<Value>, i: int)
    requires
        0 <= i < s.len(),
    ensures
        #[trigger] trees_of(s)[i] == tree_of(s[i]),
    decreases s.len(),
{
    lemma_trees_of_len(s);
    if i > 0 {
        lemma_trees_of_index(s.drop_first(), i - 1);
    }
}

pub broadcast proof fn lemma_entry_trees_of_len(s: Seq<(Value, Value)>)
    ensures
        (#[trigger] entry_trees_of(s)).len() == s.len(),
    decreases s.len(),
{
    if s.len() > 0 {
        lemma_entry_trees_of_len(s.drop_first());
    }
}

pub broadcast proof fn lemma_entry_trees_of_index(s: Seq<(Value, Value)>, i: int)
    requires
        0 <= i < s.len(),
    ensures
        #[trigger] entry_trees_of(s)[i] == (tree_of(s[i].0), tree_of(s[i].1)),
    decreases s.len(),
{
    lemma_entry_trees_of_len(s);
    if i > 0 {
        lemma_entry_trees_of_index(s.drop_first(), i - 1);
    }
}

pub broadcast proof fn lemma_trees_of_push(s: Seq<Value>, v: Value)
    ensures
        #[trigger] trees_of(s.push(v)) == trees_of(s) + seq![tree_of(v)],
{
    lemma_trees_of_len(s);
    lemma_trees_of_len(s.push(v));
    assert forall|i: int| 0 <= i < s.push(v).len() implies trees_of(s.push(v))[i] == (trees_of(s)
        + seq![tree_of(v)])[i] by {
        lemma_trees_of_index(s.push(v), i);
        if i < s.len() {
            lemma_trees_of_index(s, i);
        }
    }
    assert(trees_of(s.push(v)) =~= trees_of(s) + seq![tree_of(v)]);
}

pub broadcast proof fn lemma_entry_trees_of_push(s: Seq<(Value, Value)>, p: (Value, Value))
    ensures
        #[trigger] entry_trees_of(s.push(p)) == entry_trees_of(s) + seq![
            (tree_of(p.0), tree_of(p.1)),
        ],
{
    lemma_entry_trees_of_len(s);
    lemma_entry_trees_of_len(s.push(p));
    assert forall|i: int| 0 <= i < s.push(p).len() implies entry_trees_of(s.push(p))[i] == (
    entry_trees_of(s) + seq![(tree_of(p.0), tree_of(p.1))])[i] by {
        lemma_entry_trees_of_index(s.push(p), i);
        if i < s.len() {
            lemma_entry_trees_of_index(s, i);
        }
    }
    assert(entry_trees_of(s.push(p)) =~= entry_trees_of(s) + seq![(tree_of(p.0), tree_of(p.1))]);
}

pub broadcast proof fn lemma_trees_of_update(s: Seq<Value>, i: int, v: Value)
    requires
        0 <= i < s.len(),
    ensures
        #[trigger] trees_of(s.update(i, v)) == trees_of(s).update(i, tree_of(v)),
{
    lemma_trees_of_len(s);
    lemma_trees_of_len(s.update(i, v));
    assert forall|j: int| 0 <= j < s.len() implies trees_of(s.update(i, v))[j] == trees_of(
        s,
    ).update(i, tree_of(v))[j] by {
        lemma_trees_of_index(s.update(i, v), j);
        lemma_trees_of_index(s, j);
    }
    assert(trees_of(s.update(i, v)) =~= trees_of(s).update(i, tree_of(v)));
}

pub broadcast proof fn lemma_entry_trees_of_update(s: Seq<(Value, Value)>, i: int, p: (Value, Value))
    requires
        0 <= i < s.len(),
    ensures
        #[trigger] entry_trees_of(s.update(i, p)) == entry_trees_of(s).update(
            i,
            (tree_of(p.0), tree_of(p.1)),
        ),
{
    lemma_entry_trees_of_len(s);
    lemma_entry_trees_of_len(s.update(i, p));
    assert forall|j: int| 0 <= j < s.len() implies entry_trees_of(s.update(i, p))[j]
        == entry_trees_of(s).update(i, (tree_of(p.0), tree_of(p.1)))[j] by {
        lemma_entry_trees_of_index(s.update(i, p), j);
        lemma_entry_trees_of_index(s, j);
    }
    assert(entry_trees_of(s.update(i, p)) =~= entry_trees_of(s).update(
        i,
        (tree_of(p.0), tree_of(p.1)),
    ));
}

pub broadcast proof fn lemma_trees_of_remove(s: Seq<Value>, i: int)
    requires
        0 <= i < s.len(),
    ensures
        #[trigger] trees_of(s.remove(i)) == trees_of(s).remove(i),
{
    lemma_trees_of_len(s);
    lemma_trees_of_len(s.remove(i));
    s.remove_ensures(i);
    trees_of(s).remove_ensures(i);
    assert forall|j: int| 0 <= j < s.len() - 1 implies trees_of(s.remove(i))[j] == trees_of(
        s,
    ).remove(i)[j] by {
        lemma_trees_of_index(s.remove(i), j);
        if j < i {
            lemma_trees_of_index(s, j);
        } else {
            lemma_trees_of_index(s, j + 1);
        }
    }
    assert(trees_of(s.remove(i)) =~= trees_of(s).remove(i));
}

pub broadcast proof fn lemma_entry_trees_of_remove(s: Seq<(Value, Value)>, i: int)
    requires
        0 <= i < s.len(),
    ensures
        #[trigger] entry_trees_of(s.remove(i)) == entry_trees_of(s).remove(i),
{
    lemma_entry_trees_of_len(s);
    lemma_entry_trees_of_len(s.remove(i));
    s.remove_ensures(i);
    entry_trees_of(s).remove_ensures(i);
    assert forall|j: int| 0 <= j < s.len() - 1 implies entry_trees_of(s.remove(i))[j]
        == entry_trees_of(s).remove(i)[j] by {
        lemma_entry_trees_of_index(s.remove(i), j);
        if j < i {
            lemma_entry_trees_of_index(s, j);
        } else {
            lemma_entry_trees_of_index(s, j + 1);
        }
    }
    assert(entry_trees_of(s.remove(i)) =~= entry_trees_of(s).remove(i));
}

/// Whether two nodes carry the same variant tag, regardless of content.
pub open spec fn same_variant(a: Tree, b: Tree) -> bool {
    match a {
        Tree::Null => b is Null,
        Tree::Bool(_) => b is Bool,
        Tree::Number(_) => b is Number,
        Tree::Text(_) => b is Text,
        Tree::Sequence(_) => b is Sequence,
        Tree::Mapping(_) => b is Mapping,
    }
}

/// Structural equality of two trees, insensitive to the order of mapping
/// entries: scalars must be equal, sequences must match element by element
/// in order, and mappings must have the same entries up to reordering.
///
/// The quantifier-free recursion here is unfolded into the usual pointwise
/// and exists/forall readings by [`lemma_equiv_seqs_char`],
/// [`lemma_all_found_char`], [`lemma_entry_found_char`],
/// [`lemma_all_matched_char`] and [`lemma_some_matches_char`].
pub open spec fn equiv(a: Tree, b: Tree) -> bool
    decreases a, b,
{
    match a {
        Tree::Null => b is Null,
        Tree::Bool(x) => b matches Tree::Bool(y) && x == y,
        Tree::Number(x) => b matches Tree::Number(y) && x == y,
        Tree::Text(x) => b matches Tree::Text(y) && x == y,
        Tree::Sequence(x) => b matches Tree::Sequence(y) && equiv_seqs(x, y),
        Tree::Mapping(x) => b matches Tree::Mapping(y) && x.len() == y.len() && all_found(x, y)
            && all_matched(x, y),
    }
}

/// Element-by-element equivalence of two sequences of equal length.
pub open spec fn equiv_seqs(x: Seq<Tree>, y: Seq<Tree>) -> bool
    decreases x, y,
{
    if x.len() != y.len() {
        false
    } else if x.len() == 0 {
        true
    } else {
        equiv(x[0], y[0]) && equiv_seqs(x.drop_first(), y.drop_first())
    }
}

/// One mapping entry matched against another: equivalent key and
/// equivalent value.
pub open spec fn entry_equiv(e: (Tree, Tree), f: (Tree, Tree)) -> bool
    decreases e, f,
{
    equiv(e.0, f.0) && equiv(e.1, f.1)
}

/// Some entry of `ys` matches `e` (with `e` on the left of the comparison).
pub open spec fn entry_found(e: (Tree, Tree), ys: Seq<(Tree, Tree)>) -> bool
    decreases e, ys,
{
    if ys.len() == 0 {
        false
    } else {
        entry_equiv(e, ys[0]) || entry_found(e, ys.drop_first())
    }
}

/// Every entry of `xs` has a matching entry in `ys`.
pub open spec fn all_found(xs: Seq<(Tree, Tree)>, ys: Seq<(Tree, Tree)>) -> bool
    decreases xs, ys,
{
    if xs.len() == 0 {
        true
    } else {
        entry_found(xs[0], ys) && all_found(xs.drop_first(), ys)
    }
}

/// Some entry of `xs` matches `f` (with the `xs` entry on the left).
pub open spec fn some_matches(xs: Seq<(Tree, Tree)>, f: (Tree, Tree)) -> bool
    decreases xs, f,
{
    if xs.len() == 0 {
        false
    } else {
        entry_equiv(xs[0], f) || some_matches(xs.drop_first(), f)
    }
}

/// Every entry of `ys` is matched by some entry of `xs`.
pub open spec fn all_matched(xs: Seq<(Tree, Tree)>, ys: Seq<(Tree, Tree)>) -> bool
    decreases xs, ys,
{
    if ys.len() == 0 {
        true
    } else {
        some_matches(xs, ys[0]) && all_matched(xs, ys.drop_first())
    }
}

/// The defining equation of [`equiv`], restated so that every module can
/// unfold applications of it.
pub broadcast proof fn lemma_equiv_unfold(a: Tree, b: Tree)
    ensures
        #[trigger] equiv(a, b) == (match a {
            Tree::Null => b is Null,
            Tree::Bool(x) => b matches Tree::Bool(y) && x == y,
            Tree::Number(x) => b matches Tree::Number(y) && x == y,
            Tree::Text(x) => b matches Tree::Text(y) && x == y,
            Tree::Sequence(x) => b matches Tree::Sequence(y) && equiv_seqs(x, y),
            Tree::Mapping(x) => b matches Tree::Mapping(y) && x.len() == y.len() && all_found(
                x,
                y,
            ) && all_matched(x, y),
        }),
{
}

/// [`equiv_seqs`] read pointwise.
pub proof fn lemma_equiv_seqs_char(x: Seq<Tree>, y: Seq<Tree>)
    ensures
        equiv_seqs(x, y) <==> (x.len() == y.len() && forall|i: int|
            0 <= i < x.len() ==> #[trigger] equiv(x[i], y[i])),
    decreases x.len(),
{
    if x.len() == y.len() && x.len() > 0 {
        lemma_equiv_seqs_char(x.drop_first(), y.drop_first());
        if equiv_seqs(x, y) {
            assert forall|i: int| 0 <= i < x.len() implies #[trigger] equiv(x[i], y[i]) by {
                if i > 0 {
                    assert(equiv(x.drop_first()[i - 1], y.drop_first()[i - 1]));
                }
            }
        } else {
            if equiv(x[0], y[0]) && (forall|i: int|
                0 <= i < x.len() ==> #[trigger] equiv(x[i], y[i])) {
                assert forall|i: int|
                    0 <= i < x.drop_first().len() implies #[trigger] equiv(
                    x.drop_first()[i],
                    y.drop_first()[i],
                ) by {
                    assert(equiv(x[i + 1], y[i + 1]));
                }
                assert(equiv_seqs(x.drop_first(), y.drop_first()));
            }
        }
    }
}

/// [`entry_found`] read as an existential.
pub proof fn lemma_entry_found_char(e: (Tree, Tree), ys: Seq<(Tree, Tree)>)
    ensures
        entry_found(e, ys) <==> exists|j: int|
            0 <= j < ys.len() && #[trigger] entry_equiv(e, ys[j]),
    decreases ys.len(),
{
    if ys.len() > 0 {
        lemma_entry_found_char(e, ys.drop_first());
        if entry_found(e, ys) {
            if entry_equiv(e, ys[0]) {
            } else {
                let j = choose|j: int|
                    0 <= j < ys.drop_first().len() && #[trigger] entry_equiv(
                        e,
                        ys.drop_first()[j],
                    );
                assert(entry_equiv(e, ys[j + 1]));
            }
        } else {
            if exists|j: int| 0 <= j < ys.len() && #[trigger] entry_equiv(e, ys[j]) {
                let j = choose|j: int| 0 <= j < ys.len() && #[trigger] entry_equiv(e, ys[j]);
                assert(j > 0);
                assert(entry_equiv(e, ys.drop_first()[j - 1]));
            }
        }
    }
}

/// [`all_found`] read as a universal over the left-hand entries.
pub proof fn lemma_all_found_char(xs: Seq<(Tree, Tree)>, ys: Seq<(Tree, Tree)>)
    ensures
        all_found(xs, ys) <==> forall|i: int|
            0 <= i < xs.len() ==> #[trigger] entry_found(xs[i], ys),
    decreases xs.len(),
{
    if xs.len() > 0 {
        lemma_all_found_char(xs.drop_first(), ys);
        if all_found(xs, ys) {
            assert forall|i: int| 0 <= i < xs.len() implies #[trigger] entry_found(xs[i], ys) by {
                if i > 0 {
                    assert(entry_found(xs.drop_first()[i - 1], ys));
                }
            }
        } else {
            if entry_found(xs[0], ys) && (forall|i: int|
                0 <= i < xs.len() ==> #[trigger] entry_found(xs[i], ys)) {
                assert forall|i: int|
                    0 <= i < xs.drop_first().len() implies #[trigger] entry_found(
                    xs.drop_first()[i],
                    ys,
                ) by {
                    assert(entry_found(xs[i + 1], ys));
                }
            }
        }
    }
}

/// [`some_matches`] read as an existential.
pub proof fn lemma_some_matches_char(xs: Seq<(Tree, Tree)>, f: (Tree, Tree))
    ensures
        some_matches(xs, f) <==> exists|i: int|
            0 <= i < xs.len() && #[trigger] entry_equiv(xs[i], f),
    decreases xs.len(),
{
    if xs.len() > 0 {
        lemma_some_matches_char(xs.drop_first(), f);
        if some_matches(xs, f) {
            if entry_equiv(xs[0], f) {
            } else {
                let i = choose|i: int|
                    0 <= i < xs.drop_first().len() && #[trigger] entry_equiv(
                        xs.drop_first()[i],
                        f,
                    );
                assert(entry_equiv(xs[i + 1], f));
            }
        } else {
            if exists|i: int| 0 <= i < xs.len() && #[trigger] entry_equiv(xs[i], f) {
                let i = choose|i: int| 0 <= i < xs.len() && #[trigger] entry_equiv(xs[i], f);
                assert(i > 0);
                assert(entry_equiv(xs.drop_first()[i - 1], f));
            }
        }
    }
}

/// [`all_matched`] read as a universal over the right-hand entries.
pub proof fn lemma_all_matched_char(xs: Seq<(Tree, Tree)>, ys: Seq<(Tree, Tree)>)
    ensures
        all_matched(xs, ys) <==> forall|j: int|
            0 <= j < ys.len() ==> #[trigger] some_matches(xs, ys[j]),
    decreases ys.len(),
{
    if ys.len() > 0 {
        lemma_all_matched_char(xs, ys.drop_first());
        if all_matched(xs, ys) {
            assert forall|j: int| 0 <= j < ys.len() implies #[trigger] some_matches(xs, ys[j]) by {
                if j > 0 {
                    assert(some_matches(xs, ys.drop_first()[j - 1]));
                }
            }
        } else {
            if some_matches(xs, ys[0]) && (forall|j: int|
                0 <= j < ys.len() ==> #[trigger] some_matches(xs, ys[j])) {
                assert forall|j: int|
                    0 <= j < ys.drop_first().len() implies #[trigger] some_matches(
                    xs,
                    ys.drop_first()[j],
                ) by {
                    assert(some_matches(xs, ys[j + 1]));
                }
            }
        }
    }
}

/// The model of a value carries the same variant tag as the value.
pub proof fn lemma_tree_of_variant(v: Value)
    ensures
        (tree_of(v) is Null) == (v is Null),
        (tree_of(v) is Bool) == (v is Bool),
        (tree_of(v) is Number) == (v is Number),
        (tree_of(v) is Text) == (v is Text),
        (tree_of(v) is Sequence) == (v is Sequence),
        (tree_of(v) is Mapping) == (v is Mapping),
{
}

/// Equivalent trees always carry the same variant tag.
pub proof fn lemma_equiv_same_variant(a: Tree, b: Tree)
    ensures
        equiv(a, b) ==> same_variant(a, b),
{
}

/// Equivalence is reflexive.
pub proof fn lemma_equiv_reflexive(a: Tree)
    ensures
        equiv(a, a),
    decreases a,
{
    match a {
        Tree::Sequence(x) => {
            assert forall|i: int| 0 <= i < x.len() implies #[trigger] equiv(x[i], x[i]) by {
                lemma_equiv_reflexive(x[i]);
            }
            lemma_equiv_seqs_char(x, x);
        },
        Tree::Mapping(x) => {
            assert forall|i: int| 0 <= i < x.len() implies #[trigger] entry_found(x[i], x) by {
                lemma_equiv_reflexive(x[i].0);
                lemma_equiv_reflexive(x[i].1);
                assert(entry_equiv(x[i], x[i]));
                lemma_entry_found_char(x[i], x);
            }
            lemma_all_found_char(x, x);
            assert forall|j: int| 0 <= j < x.len() implies #[trigger] some_matches(x, x[j]) by {
                lemma_equiv_reflexive(x[j].0);
                lemma_equiv_reflexive(x[j].1);
                assert(entry_equiv(x[j], x[j]));
                lemma_some_matches_char(x, x[j]);
            }
            lemma_all_matched_char(x, x);
        },
        _ => {},
    }
}

/// The index of the first entry of `es` whose key is equivalent to `k`,
/// or `-1` when no entry has such a key.
pub open spec fn key_idx(es: Seq<(Tree, Tree)>, k: Tree) -> int
    decreases es.len(),
{
    if es.len() == 0 {
        -1
    } else if equiv(es[0].0, k) {
        0
    } else {
        let r = key_idx(es.drop_first(), k);
        if r == -1 {
            -1
        } else {
            r + 1
        }
    }
}

/// Whether some entry of `es` has a key equivalent to `k`.
pub open spec fn has_key(es: Seq<(Tree, Tree)>, k: Tree) -> bool {
    key_idx(es, k) >= 0
}

/// The value stored under the first key of `es` equivalent to `k`
/// (meaningful only when [`has_key`] holds).
pub open spec fn map_get(es: Seq<(Tree, Tree)>, k: Tree) -> Tree {
    es[key_idx(es, k)].1
}

/// What [`key_idx`] finds: the first matching position, if any.
pub proof fn lemma_key_idx_char(es: Seq<(Tree, Tree)>, k: Tree)
    ensures
        key_idx(es, k) == -1 ==> (forall|j: int|
            0 <= j < es.len() ==> !equiv(#[trigger] es[j].0, k)),
        key_idx(es, k) != -1 ==> 0 <= key_idx(es, k) < es.len() && equiv(es[key_idx(es, k)].0, k)
            && (forall|j: int| 0 <= j < key_idx(es, k) ==> !equiv(#[trigger] es[j].0, k)),
    decreases es.len(),
{
    if es.len() > 0 && !equiv(es[0].0, k) {
        lemma_key_idx_char(es.drop_first(), k);
        let r = key_idx(es.drop_first(), k);
        if r == -1 {
            assert forall|j: int| 0 <= j < es.len() implies !equiv(#[trigger] es[j].0, k) by {
                if j > 0 {
                    assert(!equiv(es.drop_first()[j - 1].0, k));
                }
            }
        } else {
            assert(es.drop_first()[r] == es[r + 1]);
            assert forall|j: int| 0 <= j < r + 1 implies !equiv(#[trigger] es[j].0, k) by {
                if j > 0 {
                    assert(!equiv(es.drop_first()[j - 1].0, k));
                }
            }
        }
    }
}

/// [`key_idx`] looks only at keys: entry values play no part.
pub proof fn lemma_key_idx_same_keys(x: Seq<(Tree, Tree)>, y: Seq<(Tree, Tree)>, k: Tree)
    requires
        x.len() == y.len(),
        forall|j: int| 0 <= j < x.len() ==> (#[trigger] y[j]).0 == x[j].0,
    ensures
        key_idx(y, k) == key_idx(x, k),
    decreases x.len(),
{
    if x.len() > 0 {
        assert(y[0].0 == x[0].0);
        assert forall|j: int| 0 <= j < x.drop_first().len() implies (#[trigger] y.drop_first()[j]).0
            == x.drop_first()[j].0 by {
            assert(y[j + 1].0 == x[j + 1].0);
        }
        lemma_key_idx_same_keys(x.drop_first(), y.drop_first(), k);
    }
}

/// Under distinct keys on both sides, the key matching between two
/// mappings pairs entries up uniquely: following a key from `nm` into
/// `om` and back lands on the same entry.
pub proof fn lemma_key_match_unique(om: Seq<(Tree, Tree)>, nm: Seq<(Tree, Tree)>, j: int)
    requires
        keys_distinct(om),
        keys_distinct(nm),
        0 <= j < nm.len(),
        has_key(om, nm[j].0),
    ensures
        0 <= key_idx(om, nm[j].0) < om.len(),
        key_idx(nm, om[key_idx(om, nm[j].0)].0) == j,
{
    lemma_key_idx_char(om, nm[j].0);
    let x0 = key_idx(om, nm[j].0);
    assert(equiv(om[x0].0, nm[j].0));
    lemma_key_idx_char(nm, om[x0].0);
    lemma_keys_distinct_char(nm);
    let jp = key_idx(nm, om[x0].0);
    if jp == -1 {
        lemma_equiv_symmetric(om[x0].0, nm[j].0);
        assert(!equiv(nm[j].0, om[x0].0));
        assert(false);
    }
    if jp != j {
        assert(equiv(nm[jp].0, om[x0].0));
        lemma_equiv_transitive(nm[jp].0, om[x0].0, nm[j].0);
        assert(equiv(nm[jp].0, nm[j].0));
        if jp < j {
            assert(!equiv(nm[j].0, nm[jp].0));
            lemma_equiv_symmetric(nm[jp].0, nm[j].0);
        } else {
            assert(!equiv(nm[jp].0, nm[j].0));
        }
        assert(false);
    }
}

/// The text stored under the key named `name`, when the first entry with
/// that key holds text.
pub open spec fn str_field(es: Seq<(Tree, Tree)>, name: Seq<char>) -> Option<Seq<char>> {
    let i = key_idx(es, Tree::Text(name));
    if i >= 0 && es[i].1 is Text {
        Option::Some(es[i].1->Text_0)
    } else {
        Option::None
    }
}

/// The identity of a sequence element: the text under its `name` field,
/// or, failing that, the text under its `key` field. Elements that are not
/// mappings, and mappings with neither field, have no identity.
pub open spec fn identity_of(t: Tree) -> Option<Seq<char>> {
    match t {
        Tree::Mapping(es) => match str_field(es, "name"@) {
            Option::Some(s) => Option::Some(s),
            Option::None => str_field(es, "key"@),
        },
        _ => Option::None,
    }
}

/// The index of the first element of `s` whose identity is `n`, or `-1`
/// when no element has that identity.
pub open spec fn seq_ident_idx(s: Seq<Tree>, n: Seq<char>) -> int
    decreases s.len(),
{
    if s.len() == 0 {
        -1
    } else if identity_of(s[0]) == Option::Some(n) {
        0
    } else {
        let r = seq_ident_idx(s.drop_first(), n);
        if r == -1 {
            -1
        } else {
            r + 1
        }
    }
}

/// Whether some element of `s` has identity `n`.
pub open spec fn has_ident(s: Seq<Tree>, n: Seq<char>) -> bool {
    seq_ident_idx(s, n) >= 0
}

/// What [`seq_ident_idx`] finds: the first element with that identity.
pub proof fn lemma_seq_ident_idx_char(s: Seq<Tree>, n: Seq<char>)
    ensures
        seq_ident_idx(s, n) == -1 ==> (forall|j: int|
            0 <= j < s.len() ==> identity_of(#[trigger] s[j]) != Option::Some(n)),
        seq_ident_idx(s, n) != -1 ==> 0 <= seq_ident_idx(s, n) < s.len() && identity_of(
            s[seq_ident_idx(s, n)],
        ) == Option::Some(n) && (forall|j: int|
            0 <= j < seq_ident_idx(s, n) ==> identity_of(#[trigger] s[j]) != Option::Some(n)),
    decreases s.len(),
{
    if s.len() > 0 && identity_of(s[0]) != Option::Some(n) {
        lemma_seq_ident_idx_char(s.drop_first(), n);
        let r = seq_ident_idx(s.drop_first(), n);
        if r == -1 {
            assert forall|j: int| 0 <= j < s.len() implies identity_of(#[trigger] s[j])
                != Option::Some(n) by {
                if j > 0 {
                    assert(identity_of(s.drop_first()[j - 1]) != Option::Some(n));
                }
            }
        } else {
            assert(s.drop_first()[r] == s[r + 1]);
            assert forall|j: int| 0 <= j < r + 1 implies identity_of(#[trigger] s[j])
                != Option::Some(n) by {
                if j > 0 {
                    assert(identity_of(s.drop_first()[j - 1]) != Option::Some(n));
                }
            }
        }
    }
}

/// Equivalence is transitive.
pub proof fn lemma_equiv_transitive(a: Tree, b: Tree, c: Tree)
    requires
        equiv(a, b),
        equiv(b, c),
    ensures
        equiv(a, c),
    decreases a,
{
    match a {
        Tree::Sequence(x) => {
            let y = b->Sequence_0;
            let z = c->Sequence_0;
            lemma_equiv_seqs_char(x, y);
            lemma_equiv_seqs_char(y, z);
            lemma_equiv_seqs_char(x, z);
            assert forall|i: int| 0 <= i < x.len() implies #[trigger] equiv(x[i], z[i]) by {
                assert(equiv(x[i], y[i]));
                assert(equiv(y[i], z[i]));
                lemma_equiv_transitive(x[i], y[i], z[i]);
            }
        },
        Tree::Mapping(x) => {
            let y = b->Mapping_0;
            let z = c->Mapping_0;
            lemma_all_found_char(x, y);
            lemma_all_found_char(y, z);
            lemma_all_found_char(x, z);
            lemma_all_matched_char(x, y);
            lemma_all_matched_char(y, z);
            lemma_all_matched_char(x, z);
            assert forall|i: int| 0 <= i < x.len() implies #[trigger] entry_found(x[i], z) by {
                assert(entry_found(x[i], y));
                lemma_entry_found_char(x[i], y);
                let j = choose|j: int| 0 <= j < y.len() && #[trigger] entry_equiv(x[i], y[j]);
                assert(entry_found(y[j], z));
                lemma_entry_found_char(y[j], z);
                let w = choose|w: int| 0 <= w < z.len() && #[trigger] entry_equiv(y[j], z[w]);
                lemma_equiv_transitive(x[i].0, y[j].0, z[w].0);
                lemma_equiv_transitive(x[i].1, y[j].1, z[w].1);
                assert(entry_equiv(x[i], z[w]));
                lemma_entry_found_char(x[i], z);
            }
            assert forall|w: int| 0 <= w < z.len() implies #[trigger] some_matches(x, z[w]) by {
                assert(some_matches(y, z[w]));
                lemma_some_matches_char(y, z[w]);
                let j = choose|j: int| 0 <= j < y.len() && #[trigger] entry_equiv(y[j], z[w]);
                assert(some_matches(x, y[j]));
                lemma_some_matches_char(x, y[j]);
                let i = choose|i: int| 0 <= i < x.len() && #[trigger] entry_equiv(x[i], y[j]);
                lemma_equiv_transitive(x[i].0, y[j].0, z[w].0);
                lemma_equiv_transitive(x[i].1, y[j].1, z[w].1);
                assert(entry_equiv(x[i], z[w]));
                lemma_some_matches_char(x, z[w]);
            }
        },
        _ => {},
    }
}

/// Well-formedness: within every mapping of the tree, no two entries have
/// equivalent keys. Insertion order is free; key duplication is not.
pub open spec fn wf(t: Tree) -> bool
    decreases t,
{
    match t {
        Tree::Sequence(s) => wf_elems(s),
        Tree::Mapping(es) => keys_distinct(es) && wf_entries(es),
        _ => true,
    }
}

/// Every element of `s` is well-formed.
pub open spec fn wf_elems(s: Seq<Tree>) -> bool
    decreases s,
{
    if s.len() == 0 {
        true
    } else {
        wf(s[0]) && wf_elems(s.drop_first())
    }
}

/// Every key and value of `es` is well-formed.
pub open spec fn wf_entries(es: Seq<(Tree, Tree)>) -> bool
    decreases es,
{
    if es.len() == 0 {
        true
    } else {
        wf(es[0].0) && wf(es[0].1) && wf_entries(es.drop_first())
    }
}

/// No two entries of `es` carry equivalent keys.
pub open spec fn keys_distinct(es: Seq<(Tree, Tree)>) -> bool
    decreases es.len(),
{
    if es.len() == 0 {
        true
    } else {
        !has_key(es.drop_first(), es[0].0) && keys_distinct(es.drop_first())
    }
}

/// [`wf_elems`] read pointwise.
pub proof fn lemma_wf_elems_char(s: Seq<Tree>)
    ensures
        wf_elems(s) <==> forall|i: int| 0 <= i < s.len() ==> #[trigger] wf(s[i]),
    decreases s.len(),
{
    if s.len() > 0 {
        lemma_wf_elems_char(s.drop_first());
        if wf_elems(s) {
            assert forall|i: int| 0 <= i < s.len() implies #[trigger] wf(s[i]) by {
                if i > 0 {
                    assert(wf(s.drop_first()[i - 1]));
                }
            }
        } else {
            if wf(s[0]) && (forall|i: int| 0 <= i < s.len() ==> #[trigger] wf(s[i])) {
                assert forall|i: int| 0 <= i < s.drop_first().len() implies #[trigger] wf(
                    s.drop_first()[i],
                ) by {
                    assert(wf(s[i + 1]));
                }
            }
        }
    }
}

/// [`wf_entries`] read pointwise.
pub proof fn lemma_wf_entries_char(es: Seq<(Tree, Tree)>)
    ensures
        wf_entries(es) <==> forall|i: int|
            0 <= i < es.len() ==> wf((#[trigger] es[i]).0) && wf(es[i].1),
    decreases es.len(),
{
    if es.len() > 0 {
        lemma_wf_entries_char(es.drop_first());
        if wf_entries(es) {
            assert forall|i: int| 0 <= i < es.len() implies wf((#[trigger] es[i]).0) && wf(
                es[i].1,
            ) by {
                if i > 0 {
                    assert(es.drop_first()[i - 1] == es[i]);
                    assert(wf(es.drop_first()[i - 1].0) && wf(es.drop_first()[i - 1].1));
                }
            }
        } else {
            if wf(es[0].0) && wf(es[0].1) && (forall|i: int|
                0 <= i < es.len() ==> wf((#[trigger] es[i]).0) && wf(es[i].1)) {
                assert forall|i: int| 0 <= i < es.drop_first().len() implies wf(
                    (#[trigger] es.drop_first()[i]).0,
                ) && wf(es.drop_first()[i].1) by {
                    assert(es.drop_first()[i] == es[i + 1]);
                    assert(wf(es[i + 1].0) && wf(es[i + 1].1));
                }
            }
        }
    }
}

/// [`keys_distinct`] read pairwise: no later entry repeats an earlier key.
pub proof fn lemma_keys_distinct_char(es: Seq<(Tree, Tree)>)
    ensures
        keys_distinct(es) <==> forall|i: int, j: int|
            0 <= i < j < es.len() ==> !equiv((#[trigger] es[j]).0, (#[trigger] es[i]).0),
    decreases es.len(),
{
    if es.len() > 0 {
        lemma_keys_distinct_char(es.drop_first());
        lemma_key_idx_char(es.drop_first(), es[0].0);
        if keys_distinct(es) {
            assert forall|i: int, j: int| 0 <= i < j < es.len() implies !equiv(
                (#[trigger] es[j]).0,
                (#[trigger] es[i]).0,
            ) by {
                if i == 0 {
                    assert(!equiv(es.drop_first()[j - 1].0, es[0].0));
                } else {
                    assert(es.drop_first()[i - 1] == es[i]);
                    assert(es.drop_first()[j - 1] == es[j]);
                    assert(!equiv(es.drop_first()[j - 1].0, es.drop_first()[i - 1].0));
                }
            }
        } else {
            if forall|i: int, j: int|
                0 <= i < j < es.len() ==> !equiv((#[trigger] es[j]).0, (#[trigger] es[i]).0) {
                assert forall|i: int, j: int|
                    0 <= i < j < es.drop_first().len() implies !equiv(
                    (#[trigger] es.drop_first()[j]).0,
                    (#[trigger] es.drop_first()[i]).0,
                ) by {
                    assert(es.drop_first()[i] == es[i + 1]);
                    assert(es.drop_first()[j] == es[j + 1]);
                    assert(!equiv(es[j + 1].0, es[i + 1].0));
                }
                assert forall|j: int| 0 <= j < es.drop_first().len() implies !equiv(
                    (#[trigger] es.drop_first()[j]).0,
                    es[0].0,
                ) by {
                    assert(es.drop_first()[j] == es[j + 1]);
                    assert(!equiv(es[j + 1].0, es[0].0));
                }
                if has_key(es.drop_first(), es[0].0) {
                    let r = key_idx(es.drop_first(), es[0].0);
                    assert(equiv(es.drop_first()[r].0, es[0].0));
                }
            }
        }
    }
}

/// No two elements of `s` that carry identities carry the same one.
pub open spec fn idents_distinct(s: Seq<Tree>) -> bool
    decreases s.len(),
{
    if s.len() == 0 {
        true
    } else {
        (match identity_of(s[0]) {
            Option::Some(n) => !has_ident(s.drop_first(), n),
            Option::None => true,
        }) && idents_distinct(s.drop_first())
    }
}

/// [`idents_distinct`] read pairwise.
pub proof fn lemma_idents_distinct_char(s: Seq<Tree>)
    ensures
        idents_distinct(s) <==> forall|i: int, j: int|
            0 <= i < j < s.len() ==> !(identity_of(#[trigger] s[i]) is Some && identity_of(s[i])
                == identity_of(#[trigger] s[j])),
    decreases s.len(),
{
    if s.len() > 0 {
        lemma_idents_distinct_char(s.drop_first());
        if identity_of(s[0]) is Some {
            lemma_seq_ident_idx_char(s.drop_first(), identity_of(s[0])->0);
        }
        if idents_distinct(s) {
            assert forall|i: int, j: int| 0 <= i < j < s.len() implies !(identity_of(
                #[trigger] s[i],
            ) is Some && identity_of(s[i]) == identity_of(#[trigger] s[j])) by {
                if i == 0 {
                    if identity_of(s[0]) is Some && identity_of(s[0]) == identity_of(s[j]) {
                        assert(identity_of(s.drop_first()[j - 1]) == Option::Some(
                            identity_of(s[0])->0,
                        ));
                        assert(has_ident(s.drop_first(), identity_of(s[0])->0)) by {
                            lemma_seq_ident_idx_char(s.drop_first(), identity_of(s[0])->0);
                        }
                    }
                } else {
                    assert(s.drop_first()[i - 1] == s[i]);
                    assert(s.drop_first()[j - 1] == s[j]);
                }
            }
        } else {
            if forall|i: int, j: int|
                0 <= i < j < s.len() ==> !(identity_of(#[trigger] s[i]) is Some && identity_of(
                    s[i],
                ) == identity_of(#[trigger] s[j])) {
                assert forall|i: int, j: int|
                    0 <= i < j < s.drop_first().len() implies !(identity_of(
                    #[trigger] s.drop_first()[i],
                ) is Some && identity_of(s.drop_first()[i]) == identity_of(
                    #[trigger] s.drop_first()[j],
                )) by {
                    assert(s.drop_first()[i] == s[i + 1]);
                    assert(s.drop_first()[j] == s[j + 1]);
                    assert(!(identity_of(s[i + 1]) is Some && identity_of(s[i + 1]) == identity_of(
                        s[j + 1],
                    )));
                }
                match identity_of(s[0]) {
                    Option::Some(n) => {
                        if has_ident(s.drop_first(), n) {
                            let r = seq_ident_idx(s.drop_first(), n);
                            lemma_seq_ident_idx_char(s.drop_first(), n);
                            assert(s.drop_first()[r] == s[r + 1]);
                            assert(!(identity_of(s[0]) is Some && identity_of(s[0])
                                == identity_of(s[r + 1])));
                        }
                    },
                    Option::None => {},
                }
            }
        }
    }
}

/// Identities of sequence elements are pairwise distinct, everywhere in
/// the tree.
pub open spec fn distinct_identities(t: Tree) -> bool
    decreases t,
{
    match t {
        Tree::Sequence(s) => idents_distinct(s) && di_elems(s),
        Tree::Mapping(es) => di_entries(es),
        _ => true,
    }
}

/// Every element of `s` has distinct identities inside it.
pub open spec fn di_elems(s: Seq<Tree>) -> bool
    decreases s,
{
    if s.len() == 0 {
        true
    } else {
        distinct_identities(s[0]) && di_elems(s.drop_first())
    }
}

/// Every key and value of `es` has distinct identities inside it.
pub open spec fn di_entries(es: Seq<(Tree, Tree)>) -> bool
    decreases es,
{
    if es.len() == 0 {
        true
    } else {
        distinct_identities(es[0].0) && distinct_identities(es[0].1) && di_entries(
            es.drop_first(),
        )
    }
}

/// [`di_elems`] read pointwise.
pub proof fn lemma_di_elems_char(s: Seq<Tree>)
    ensures
        di_elems(s) <==> forall|i: int| 0 <= i < s.len() ==> #[trigger] distinct_identities(s[i]),
    decreases s.len(),
{
    if s.len() > 0 {
        lemma_di_elems_char(s.drop_first());
        if di_elems(s) {
            assert forall|i: int| 0 <= i < s.len() implies #[trigger] distinct_identities(
                s[i],
            ) by {
                if i > 0 {
                    assert(distinct_identities(s.drop_first()[i - 1]));
                }
            }
        } else {
            if distinct_identities(s[0]) && (forall|i: int|
                0 <= i < s.len() ==> #[trigger] distinct_identities(s[i])) {
                assert forall|i: int|
                    0 <= i < s.drop_first().len() implies #[trigger] distinct_identities(
                    s.drop_first()[i],
                ) by {
                    assert(distinct_identities(s[i + 1]));
                }
            }
        }
    }
}

/// [`di_entries`] read pointwise.
pub proof fn lemma_di_entries_char(es: Seq<(Tree, Tree)>)
    ensures
        di_entries(es) <==> forall|i: int|
            0 <= i < es.len() ==> distinct_identities((#[trigger] es[i]).0)
                && distinct_identities(es[i].1),
    decreases es.len(),
{
    if es.len() > 0 {
        lemma_di_entries_char(es.drop_first());
        if di_entries(es) {
            assert forall|i: int| 0 <= i < es.len() implies distinct_identities(
                (#[trigger] es[i]).0,
            ) && distinct_identities(es[i].1) by {
                if i > 0 {
                    assert(es.drop_first()[i - 1] == es[i]);
                    assert(distinct_identities(es.drop_first()[i - 1].0) && distinct_identities(
                        es.drop_first()[i - 1].1,
                    ));
                }
            }
        } else {
            if distinct_identities(es[0].0) && distinct_identities(es[0].1) && (forall|i: int|
                0 <= i < es.len() ==> distinct_identities((#[trigger] es[i]).0)
                    && distinct_identities(es[i].1)) {
                assert forall|i: int| 0 <= i < es.drop_first().len() implies distinct_identities(
                    (#[trigger] es.drop_first()[i]).0,
                ) && distinct_identities(es.drop_first()[i].1) by {
                    assert(es.drop_first()[i] == es[i + 1]);
                    assert(distinct_identities(es[i + 1].0) && distinct_identities(es[i + 1].1));
                }
            }
        }
    }
}

/// Equivalence is symmetric.
pub proof fn lemma_equiv_symmetric(a: Tree, b: Tree)
    ensures
        equiv(a, b) == equiv(b, a),
    decreases a,
{
    match a {
        Tree::Sequence(x) => {
            if b is Sequence {
                let y = b->Sequence_0;
                lemma_equiv_seqs_char(x, y);
                lemma_equiv_seqs_char(y, x);
                if equiv_seqs(x, y) {
                    assert forall|i: int| 0 <= i < y.len() implies #[trigger] equiv(
                        y[i],
                        x[i],
                    ) by {
                        assert(equiv(x[i], y[i]));
                        lemma_equiv_symmetric(x[i], y[i]);
                    }
                }
                if equiv_seqs(y, x) {
                    assert forall|i: int| 0 <= i < x.len() implies #[trigger] equiv(
                        x[i],
                        y[i],
                    ) by {
                        assert(equiv(y[i], x[i]));
                        lemma_equiv_symmetric(x[i], y[i]);
                    }
                }
            }
        },
        Tree::Mapping(x) => {
            if b is Mapping {
                let y = b->Mapping_0;
                if x.len() == y.len() {
                    assert forall|i: int, j: int|
                        0 <= i < x.len() && 0 <= j < y.len() implies (#[trigger] entry_equiv(
                        x[i],
                        y[j],
                    )) == entry_equiv(y[j], x[i]) by {
                        lemma_equiv_symmetric(x[i].0, y[j].0);
                        lemma_equiv_symmetric(x[i].1, y[j].1);
                    }
                    lemma_all_found_char(x, y);
                    lemma_all_found_char(y, x);
                    lemma_all_matched_char(x, y);
                    lemma_all_matched_char(y, x);
                    if all_found(x, y) && all_matched(x, y) {
                        assert forall|i: int| 0 <= i < y.len() implies #[trigger] entry_found(
                            y[i],
                            x,
                        ) by {
                            lemma_some_matches_char(x, y[i]);
                            let w = choose|w: int|
                                0 <= w < x.len() && #[trigger] entry_equiv(x[w], y[i]);
                            lemma_entry_found_char(y[i], x);
                            assert(entry_equiv(y[i], x[w]));
                        }
                        assert forall|j: int| 0 <= j < x.len() implies #[trigger] some_matches(
                            y,
                            x[j],
                        ) by {
                            lemma_entry_found_char(x[j], y);
                            let w = choose|w: int|
                                0 <= w < y.len() && #[trigger] entry_equiv(x[j], y[w]);
                            lemma_some_matches_char(y, x[j]);
                            assert(entry_equiv(y[w], x[j]));
                        }
                    }
                    if all_found(y, x) && all_matched(y, x) {
                        assert forall|i: int| 0 <= i < x.len() implies #[trigger] entry_found(
                            x[i],
                            y,
                        ) by {
                            lemma_some_matches_char(y, x[i]);
                            let w = choose|w: int|
                                0 <= w < y.len() && #[trigger] entry_equiv(y[w], x[i]);
                            lemma_entry_found_char(x[i], y);
                            assert(entry_equiv(x[i], y[w]));
                        }
                        assert forall|j: int| 0 <= j < y.len() implies #[trigger] some_matches(
                            x,
                            y[j],
                        ) by {
                            lemma_entry_found_char(y[j], x);
                            let w = choose|w: int|
                                0 <= w < x.len() && #[trigger] entry_equiv(y[j], x[w]);
                            lemma_some_matches_char(x, y[j]);
                            assert(entry_equiv(x[w], y[j]));
                        }
                    }
                }
            }
        },
        _ => {},
    }
}

} // verus!
