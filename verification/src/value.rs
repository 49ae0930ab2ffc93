//! The value-tree data model: the concrete tagged union covering null,
//! booleans, numbers, text, ordered sequences and key-ordered mappings,
//! with the structural-equality decision procedure and deep copying.

use vstd::prelude::*;

use crate::model::{
    all_found, all_matched, entry_equiv, entry_found, entry_trees_of, equiv, equiv_seqs, lemma_all_found_char,
    lemma_all_matched_char, lemma_entry_found_char, lemma_entry_trees_of_index,
    lemma_entry_trees_of_len, lemma_equiv_same_variant, lemma_equiv_seqs_char, lemma_tree_of_variant,
    lemma_some_matches_char, lemma_trees_of_index, lemma_trees_of_len, some_matches, tree_of,
    trees_of, Tree,
};
use crate::model::{key_idx, lemma_equiv_unfold, lemma_key_idx_char};

verus! {

broadcast use lemma_trees_of_len, lemma_trees_of_index, lemma_entry_trees_of_len, lemma_entry_trees_of_index;

/// A scalar number. The engine never computes with numbers; it only
/// compares and copies them, so a number is kept as the exact machine
/// representation it arrived in: a signed integer, an unsigned integer,
/// or the raw bit pattern of a binary64 floating-point value.
#[derive(Clone, Copy, Debug, PartialEq, Eq, Structural)]
pub enum Num {
    Int(i64),
    Uint(u64),
    FloatBits(u64),
}

/// One node of a document tree.
///
/// A `Mapping` holds its entries in insertion order; the order is kept for
/// output but carries no meaning, and a well-formed mapping never holds two
/// entries whose keys are structurally equal (see [`crate::model::wf`]).
#[derive(Debug, PartialEq)]
pub enum Value {
    Null,
    Bool(bool),
    Number(Num),
    Text(String),
    Sequence(Vec<Value>),
    Mapping(Vec<(Value, Value)>),
}

impl View for Value {
    type V = Tree;

    open spec fn view(&self) -> Tree {
        tree_of(*self)
    }
}

impl Value {
    /// Whether this node is a mapping.
    pub fn is_mapping(&self) -> (r: bool)
        ensures
            r == (self@ is Mapping),
    {
        proof {
            crate::model::lemma_tree_of_variant(*self);
        }
        match self {
            Value::Mapping(_) => true,
            _ => false,
        }
    }

    /// Whether this node is a sequence.
    pub fn is_sequence(&self) -> (r: bool)
        ensures
            r == (self@ is Sequence),
    {
        proof {
            crate::model::lemma_tree_of_variant(*self);
        }
        match self {
            Value::Sequence(_) => true,
            _ => false,
        }
    }

    /// The entries of a mapping node, or nothing for any other shape.
    pub fn as_mapping(&self) -> (r: Option<&Vec<(Value, Value)>>)
        ensures
            match r {
                Some(es) => self@ == Tree::Mapping(entry_trees_of(es@)),
                None => !(self@ is Mapping),
            },
    {
        proof {
            crate::model::lemma_tree_of_variant(*self);
        }
        match self {
            Value::Mapping(es) => Some(es),
            _ => None,
        }
    }

    /// The elements of a sequence node, or nothing for any other shape.
    pub fn as_sequence(&self) -> (r: Option<&Vec<Value>>)
        ensures
            match r {
                Some(items) => self@ == Tree::Sequence(trees_of(items@)),
                None => !(self@ is Sequence),
            },
    {
        proof {
            crate::model::lemma_tree_of_variant(*self);
        }
        match self {
            Value::Sequence(items) => Some(items),
            _ => None,
        }
    }

    /// The text of a text node, or nothing for any other shape.
    pub fn as_str(&self) -> (r: Option<&String>)
        ensures
            match r {
                Some(s) => self@ == Tree::Text(s@),
                None => !(self@ is Text),
            },
    {
        proof {
            crate::model::lemma_tree_of_variant(*self);
        }
        match self {
            Value::Text(s) => Some(s),
            _ => None,
        }
    }

    /// The value of a boolean node, or nothing for any other shape.
    pub fn as_bool(&self) -> (r: Option<bool>)
        ensures
            match r {
                Some(b) => self@ == Tree::Bool(b),
                None => !(self@ is Bool),
            },
    {
        proof {
            crate::model::lemma_tree_of_variant(*self);
        }
        match self {
            Value::Bool(b) => Some(*b),
            _ => None,
        }
    }
}

/// Decides [`equiv`] on concrete values.
///
/// This is the engine's notion of "the two subtrees are logically equal":
/// presentation-only differences, namely the order of mapping entries, are
/// ignored.
#[verifier::loop_isolation(false)]
pub fn value_eq(a: &Value, b: &Value) -> (r: bool)
    ensures
        r == equiv(a@, b@),
    decreases *a,
{
    proof {
        lemma_equiv_unfold(a@, b@);
    }
    match (a, b) {
        (Value::Null, Value::Null) => true,
        (Value::Bool(x), Value::Bool(y)) => x == y,
        (Value::Number(x), Value::Number(y)) => x == y,
        (Value::Text(x), Value::Text(y)) => *x == *y,
        (Value::Sequence(x), Value::Sequence(y)) => {
            if x.len() != y.len() {
                proof {
                    lemma_equiv_seqs_char(trees_of(x@), trees_of(y@));
                }
                return false;
            }
            let n = x.len();
            let mut i: usize = 0;
            while i < n
                invariant
                    n == x@.len() == y@.len(),
                    i <= n,
                    forall|k: int|
                        0 <= k < i ==> #[trigger] equiv(trees_of(x@)[k], trees_of(y@)[k]),
                decreases n - i,
            {
                if !value_eq(&x[i], &y[i]) {
                    proof {
                        assert(!equiv(trees_of(x@)[i as int], trees_of(y@)[i as int]));
                        lemma_equiv_seqs_char(trees_of(x@), trees_of(y@));
                    }
                    return false;
                }
                i += 1;
            }
            proof {
                assert(trees_of(x@).len() == x@.len());
                assert(trees_of(y@).len() == y@.len());
                lemma_equiv_seqs_char(trees_of(x@), trees_of(y@));
                assert(equiv_seqs(trees_of(x@), trees_of(y@)));
            }
            true
        },
        (Value::Mapping(x), Value::Mapping(y)) => {
            if x.len() != y.len() {
                proof {
                    assert(entry_trees_of(x@).len() == x@.len());
                    assert(entry_trees_of(y@).len() == y@.len());
                }
                return false;
            }
            let n = x.len();
            let mut i: usize = 0;
            while i < n
                invariant
                    n == x@.len() == y@.len(),
                    i <= n,
                    forall|k: int|
                        0 <= k < i ==> #[trigger] entry_found(
                            entry_trees_of(x@)[k],
                            entry_trees_of(y@),
                        ),
                decreases n - i,
            {
                if !entry_in(&x[i], y) {
                    proof {
                        assert(!entry_found(entry_trees_of(x@)[i as int], entry_trees_of(y@)));
                        lemma_all_found_char(entry_trees_of(x@), entry_trees_of(y@));
                    }
                    return false;
                }
                i += 1;
            }
            let mut j: usize = 0;
            while j < n
                invariant
                    n == x@.len() == y@.len(),
                    j <= n,
                    forall|k: int|
                        0 <= k < i ==> #[trigger] entry_found(
                            entry_trees_of(x@)[k],
                            entry_trees_of(y@),
                        ),
                    forall|k: int|
                        0 <= k < j ==> #[trigger] some_matches(
                            entry_trees_of(x@),
                            entry_trees_of(y@)[k],
                        ),
                decreases n - j,
            {
                if !any_entry_matches(x, &y[j]) {
                    proof {
                        assert(!some_matches(entry_trees_of(x@), entry_trees_of(y@)[j as int]));
                        lemma_all_matched_char(entry_trees_of(x@), entry_trees_of(y@));
                    }
                    return false;
                }
                j += 1;
            }
            proof {
                assert(entry_trees_of(x@).len() == x@.len());
                assert(entry_trees_of(y@).len() == y@.len());
                lemma_all_found_char(entry_trees_of(x@), entry_trees_of(y@));
                lemma_all_matched_char(entry_trees_of(x@), entry_trees_of(y@));
                assert(all_found(entry_trees_of(x@), entry_trees_of(y@)));
                assert(all_matched(entry_trees_of(x@), entry_trees_of(y@)));
            }
            true
        },
        _ => {
            proof {
                lemma_tree_of_variant(*a);
                lemma_tree_of_variant(*b);
                lemma_equiv_same_variant(a@, b@);
                assert(!equiv(a@, b@));
            }
            false
        },
    }
}

/// Whether some entry of `ys` matches `entry`, key and value both
/// equivalent, with `entry` on the left of the comparison.
#[verifier::loop_isolation(false)]
fn entry_in(entry: &(Value, Value), ys: &Vec<(Value, Value)>) -> (r: bool)
    ensures
        r == entry_found((tree_of(entry.0), tree_of(entry.1)), entry_trees_of(ys@)),
    decreases *entry,
{
    let n = ys.len();
    let mut j: usize = 0;
    while j < n
        invariant
            n == ys@.len(),
            j <= n,
            forall|k: int|
                0 <= k < j ==> !(#[trigger] entry_equiv(
                    (tree_of(entry.0), tree_of(entry.1)),
                    entry_trees_of(ys@)[k],
                )),
        decreases n - j,
    {
        if value_eq(&entry.0, &ys[j].0) && value_eq(&entry.1, &ys[j].1) {
            proof {
                assert(entry_equiv(
                    (tree_of(entry.0), tree_of(entry.1)),
                    entry_trees_of(ys@)[j as int],
                ));
                lemma_entry_found_char((tree_of(entry.0), tree_of(entry.1)), entry_trees_of(ys@));
            }
            return true;
        }
        proof {
            assert(!entry_equiv(
                (tree_of(entry.0), tree_of(entry.1)),
                entry_trees_of(ys@)[j as int],
            ));
        }
        j += 1;
    }
    proof {
        lemma_entry_found_char((tree_of(entry.0), tree_of(entry.1)), entry_trees_of(ys@));
    }
    false
}

/// Whether some entry of `xs` matches `y_entry`, key and value both
/// equivalent, with the `xs` entry on the left of the comparison.
#[verifier::loop_isolation(false)]
fn any_entry_matches(xs: &Vec<(Value, Value)>, y_entry: &(Value, Value)) -> (r: bool)
    ensures
        r == some_matches(entry_trees_of(xs@), (tree_of(y_entry.0), tree_of(y_entry.1))),
    decreases *xs,
{
    let n = xs.len();
    let mut i: usize = 0;
    while i < n
        invariant
            n == xs@.len(),
            i <= n,
            forall|k: int|
                0 <= k < i ==> !(#[trigger] entry_equiv(
                    entry_trees_of(xs@)[k],
                    (tree_of(y_entry.0), tree_of(y_entry.1)),
                )),
        decreases n - i,
    {
        if value_eq(&xs[i].0, &y_entry.0) && value_eq(&xs[i].1, &y_entry.1) {
            proof {
                assert(entry_equiv(
                    entry_trees_of(xs@)[i as int],
                    (tree_of(y_entry.0), tree_of(y_entry.1)),
                ));
                lemma_some_matches_char(
                    entry_trees_of(xs@),
                    (tree_of(y_entry.0), tree_of(y_entry.1)),
                );
            }
            return true;
        }
        proof {
            assert(!entry_equiv(
                entry_trees_of(xs@)[i as int],
                (tree_of(y_entry.0), tree_of(y_entry.1)),
            ));
        }
        i += 1;
    }
    proof {
        lemma_some_matches_char(entry_trees_of(xs@), (tree_of(y_entry.0), tree_of(y_entry.1)));
    }
    false
}

/// The position of the first entry of `es` whose key is structurally
/// equal to `k`, if any.
#[verifier::loop_isolation(false)]
pub fn find_key(es: &Vec<(Value, Value)>, k: &Value) -> (r: Option<usize>)
    ensures
        match r {
            Some(i) => i == key_idx(entry_trees_of(es@), k@),
            None => key_idx(entry_trees_of(es@), k@) == -1,
        },
{
    let n = es.len();
    let mut i: usize = 0;
    while i < n
        invariant
            n == es@.len(),
            i <= n,
            forall|j: int| 0 <= j < i ==> !equiv((#[trigger] entry_trees_of(es@)[j]).0, k@),
        decreases n - i,
    {
        if value_eq(&es[i].0, k) {
            proof {
                assert(equiv(entry_trees_of(es@)[i as int].0, k@));
                lemma_key_idx_char(entry_trees_of(es@), k@);
            }
            return Some(i);
        }
        proof {
            assert(!equiv(entry_trees_of(es@)[i as int].0, k@));
        }
        i += 1;
    }
    proof {
        lemma_key_idx_char(entry_trees_of(es@), k@);
    }
    None
}

/// A structural copy of every element of a sequence, in order.
#[verifier::loop_isolation(false)]
pub fn deep_copy_items(items: &Vec<Value>) -> (r: Vec<Value>)
    ensures
        trees_of(r@) == trees_of(items@),
{
    let n = items.len();
    let mut out: Vec<Value> = Vec::new();
    let mut i: usize = 0;
    while i < n
        invariant
            n == items@.len(),
            i <= n,
            out@.len() == i,
            forall|k: int| 0 <= k < i ==> #[trigger] tree_of(out@[k]) == tree_of(items@[k]),
        decreases n - i,
    {
        let c = deep_copy(&items[i]);
        out.push(c);
        i += 1;
    }
    proof {
        assert(trees_of(out@) =~= trees_of(items@));
    }
    out
}

/// A full structural copy: the engine never mutates its inputs, so every
/// top-level operation works on a copy made here.
#[verifier::loop_isolation(false)]
pub fn deep_copy(v: &Value) -> (r: Value)
    ensures
        r@ == v@,
    decreases *v,
{
    match v {
        Value::Null => Value::Null,
        Value::Bool(b) => Value::Bool(*b),
        Value::Number(n) => Value::Number(*n),
        Value::Text(s) => Value::Text(s.clone()),
        Value::Sequence(items) => {
            let n = items.len();
            let mut out: Vec<Value> = Vec::new();
            let mut i: usize = 0;
            while i < n
                invariant
                    n == items@.len(),
                    i <= n,
                    out@.len() == i,
                    forall|k: int| 0 <= k < i ==> #[trigger] tree_of(out@[k]) == tree_of(items@[k]),
                decreases n - i,
            {
                let c = deep_copy(&items[i]);
                out.push(c);
                i += 1;
            }
            let r = Value::Sequence(out);
            proof {
                assert(trees_of(r.arrow_Sequence_0()@) =~= trees_of(items@));
            }
            r
        },
        Value::Mapping(entries) => {
            let n = entries.len();
            let mut out: Vec<(Value, Value)> = Vec::new();
            let mut i: usize = 0;
            while i < n
                invariant
                    n == entries@.len(),
                    i <= n,
                    out@.len() == i,
                    forall|k: int|
                        0 <= k < i ==> #[trigger] tree_of(out@[k].0) == tree_of(entries@[k].0)
                            && tree_of(out@[k].1) == tree_of(entries@[k].1),
                decreases n - i,
            {
                let ck = deep_copy(&entries[i].0);
                let cv = deep_copy(&entries[i].1);
                out.push((ck, cv));
                i += 1;
            }
            let r = Value::Mapping(out);
            proof {
                assert(entry_trees_of(r.arrow_Mapping_0()@) =~= entry_trees_of(entries@));
            }
            r
        },
    }
}

} // verus!
