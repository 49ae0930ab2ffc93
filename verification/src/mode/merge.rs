//! The merge engine: folds one document's values into another's shape,
//! without producing an operation list.
//!
//! Variant mismatches are settled in favour of the new tree; mappings are
//! merged key by key, inserting keys the old tree lacks; named sequences
//! (the first element of either side has an identity) are reconciled
//! element by element through the identity resolver, and deliberately
//! never extended with elements only the new tree has; positional
//! sequences are replaced outright.

use vstd::prelude::*;

use crate::ident::{find_by_identity, identity};
use crate::model::{
    distinct_identities, entry_trees_of, has_ident, has_key, identity_of, idents_distinct,
    equiv, key_idx, keys_distinct, lemma_di_elems_char, lemma_di_entries_char, lemma_entry_trees_of_index,
    lemma_entry_trees_of_len, lemma_entry_trees_of_push, lemma_equiv_reflexive,
    lemma_equiv_symmetric, lemma_idents_distinct_char, lemma_key_idx_char,
    lemma_keys_distinct_char, lemma_seq_ident_idx_char, lemma_tree_of_variant,
    lemma_trees_of_index, lemma_trees_of_len, lemma_trees_of_push, lemma_wf_elems_char,
    lemma_wf_entries_char, map_get, same_variant, seq_ident_idx, tree_of, trees_of, wf, Tree,
};
use crate::value::{deep_copy, deep_copy_items, find_key, Value};

verus! {

broadcast use lemma_trees_of_len, lemma_trees_of_index, lemma_entry_trees_of_len, lemma_entry_trees_of_index, lemma_trees_of_push, lemma_entry_trees_of_push;

/// What [`Data::merge_yaml`] returns.
///
/// A variant mismatch is settled in favour of `new`. Two mappings merge
/// entry by entry: entries of `old` whose key also occurs in `new` carry
/// the recursive merge of the two values, other entries of `old` are kept,
/// and entries of `new` under fresh keys are appended. Two sequences merge
/// only when both are non-empty and either one leads with an element
/// that has an identity; otherwise the new sequence (or, when it is
/// empty, the old one) is taken as a whole.
pub open spec fn spec_merge(old: Tree, new: Tree) -> Tree
    decreases old, new,
{
    if !same_variant(old, new) {
        new
    } else {
        match old {
            Tree::Mapping(om) => Tree::Mapping(
                merge_entries(om, new->Mapping_0) + missing_entries(om, new->Mapping_0),
            ),
            Tree::Sequence(os) => {
                let ns = new->Sequence_0;
                if os.len() == 0 {
                    new
                } else if ns.len() == 0 {
                    old
                } else if identity_of(os[0]) is None && identity_of(ns[0]) is None {
                    new
                } else {
                    Tree::Sequence(merge_elems(os, ns))
                }
            },
            _ => new,
        }
    }
}

/// The entries of `om`, with the value of each entry whose key also
/// occurs in `nm` replaced by the recursive merge of the two values.
pub open spec fn merge_entries(om: Seq<(Tree, Tree)>, nm: Seq<(Tree, Tree)>) -> Seq<(Tree, Tree)>
    decreases om, nm,
{
    if om.len() == 0 {
        Seq::empty()
    } else {
        let e = om[0];
        let merged = if has_key(nm, e.0) {
            (e.0, spec_merge(e.1, map_get(nm, e.0)))
        } else {
            e
        };
        seq![merged] + merge_entries(om.drop_first(), nm)
    }
}

/// The entries of `nm` whose keys do not occur in `om`, in order.
pub open spec fn missing_entries(om: Seq<(Tree, Tree)>, nm: Seq<(Tree, Tree)>) -> Seq<(Tree, Tree)>
    decreases nm.len(),
{
    if nm.len() == 0 {
        Seq::empty()
    } else if has_key(om, nm[0].0) {
        missing_entries(om, nm.drop_first())
    } else {
        seq![nm[0]] + missing_entries(om, nm.drop_first())
    }
}

/// The elements of `os`, with each element whose identity also occurs in
/// `ns` replaced by the recursive merge of the two versions. Elements of
/// `ns` with fresh identities are not appended.
pub open spec fn merge_elems(os: Seq<Tree>, ns: Seq<Tree>) -> Seq<Tree>
    decreases os, ns,
{
    if os.len() == 0 {
        Seq::empty()
    } else {
        let m = match identity_of(os[0]) {
            Option::Some(n) => if has_ident(ns, n) {
                spec_merge(os[0], ns[seq_ident_idx(ns, n)])
            } else {
                os[0]
            },
            Option::None => os[0],
        };
        seq![m] + merge_elems(os.drop_first(), ns)
    }
}

/// The merge engine's state; merging needs none.
pub struct Data {}

impl Data {
    /// Whether the two values carry the same variant tag.
    pub fn variant_eq(a: &Value, b: &Value) -> (r: bool)
        ensures
            r == same_variant(a@, b@),
    {
        proof {
            lemma_tree_of_variant(*a);
            lemma_tree_of_variant(*b);
        }
        match (a, b) {
            (Value::Null, Value::Null) => true,
            (Value::Bool(_), Value::Bool(_)) => true,
            (Value::Number(_), Value::Number(_)) => true,
            (Value::Text(_), Value::Text(_)) => true,
            (Value::Sequence(_), Value::Sequence(_)) => true,
            (Value::Mapping(_), Value::Mapping(_)) => true,
            _ => false,
        }
    }

    /// Merges two sequences element by element, as [`spec_merge`] reads
    /// a pair of sequence nodes.
    #[verifier::loop_isolation(false)]
    pub fn merge_sequence(old: &Vec<Value>, new: &Vec<Value>) -> (r: Vec<Value>)
        ensures
            trees_of(r@) == (if old@.len() == 0 {
                trees_of(new@)
            } else if new@.len() == 0 {
                trees_of(old@)
            } else if identity_of(trees_of(old@)[0]) is None && identity_of(
                trees_of(new@)[0],
            ) is None {
                trees_of(new@)
            } else {
                merge_elems(trees_of(old@), trees_of(new@))
            }),
        decreases *old,
    {
        if old.len() == 0 {
            return deep_copy_items(new);
        }
        if new.len() == 0 {
            return deep_copy_items(old);
        }
        let mut named = match identity(&old[0]) {
            Some(_) => true,
            None => false,
        };
        if !named {
            named = match identity(&new[0]) {
                Some(_) => true,
                None => false,
            };
        }
        if !named {
            return deep_copy_items(new);
        }
        let ghost os = trees_of(old@);
        let ghost ns = trees_of(new@);
        let n = old.len();
        let mut out: Vec<Value> = Vec::new();
        let mut i: usize = 0;
        proof {
            assert(trees_of(out@) =~= Seq::<Tree>::empty());
            assert(os.skip(0) =~= os);
            assert(trees_of(out@) + merge_elems(os.skip(0), ns) =~= merge_elems(os, ns));
        }
        while i < n
            invariant
                n == old@.len(),
                i <= n,
                trees_of(out@) + merge_elems(os.skip(i as int), ns) == merge_elems(os, ns),
            decreases n - i,
        {
            proof {
                assert(os.skip(i as int)[0] == os[i as int]);
                assert(os.skip(i as int).drop_first() =~= os.skip(i as int + 1));
            }
            let merged: Value = match identity(&old[i]) {
                Some(name) => {
                    match find_by_identity(new, name) {
                        Some(j) => {
                            proof {
                                lemma_seq_ident_idx_char(ns, name@);
                            }
                            Data::merge_yaml(&old[i], &new[j])
                        },
                        None => deep_copy(&old[i]),
                    }
                },
                None => deep_copy(&old[i]),
            };
            out.push(merged);
            proof {
                assert(trees_of(out@) + merge_elems(os.skip(i as int + 1), ns) =~= merge_elems(
                    os,
                    ns,
                ));
            }
            i += 1;
        }
        proof {
            assert(os.skip(n as int) =~= Seq::<Tree>::empty());
            assert(trees_of(out@) =~= merge_elems(os, ns));
        }
        out
    }

    /// Merges `new` into `old` and returns the combined tree; neither
    /// input is changed.
    #[verifier::loop_isolation(false)]
    pub fn merge_yaml(old: &Value, new: &Value) -> (r: Value)
        ensures
            r@ == spec_merge(old@, new@),
        decreases *old,
    {
        proof {
            lemma_tree_of_variant(*old);
            lemma_tree_of_variant(*new);
        }
        if !Data::variant_eq(old, new) {
            return deep_copy(new);
        }
        match (old, new) {
            (Value::Sequence(os_v), Value::Sequence(ns_v)) => {
                let merged = Data::merge_sequence(os_v, ns_v);
                Value::Sequence(merged)
            },
            (Value::Mapping(om), Value::Mapping(nm)) => {
                let ghost ets_om = entry_trees_of(om@);
                let ghost ets_nm = entry_trees_of(nm@);
                let n = om.len();
                let mut out: Vec<(Value, Value)> = Vec::new();
                let mut i: usize = 0;
                proof {
                    assert(entry_trees_of(out@) =~= Seq::<(Tree, Tree)>::empty());
                    assert(ets_om.skip(0) =~= ets_om);
                    assert(entry_trees_of(out@) + merge_entries(ets_om.skip(0), ets_nm)
                        =~= merge_entries(ets_om, ets_nm));
                }
                while i < n
                    invariant
                        n == om@.len(),
                        i <= n,
                        entry_trees_of(out@) + merge_entries(ets_om.skip(i as int), ets_nm)
                            == merge_entries(ets_om, ets_nm),
                    decreases n - i,
                {
                    proof {
                        assert(ets_om.skip(i as int)[0] == ets_om[i as int]);
                        assert(ets_om.skip(i as int).drop_first() =~= ets_om.skip(i as int + 1));
                    }
                    let k = deep_copy(&om[i].0);
                    let merged_v: Value = match find_key(nm, &om[i].0) {
                        Some(j) => {
                            proof {
                                lemma_key_idx_char(ets_nm, ets_om[i as int].0);
                            }
                            Data::merge_yaml(&om[i].1, &nm[j].1)
                        },
                        None => deep_copy(&om[i].1),
                    };
                    out.push((k, merged_v));
                    proof {
                        assert(entry_trees_of(out@) + merge_entries(
                            ets_om.skip(i as int + 1),
                            ets_nm,
                        ) =~= merge_entries(ets_om, ets_nm));
                    }
                    i += 1;
                }
                proof {
                    assert(ets_om.skip(n as int) =~= Seq::<(Tree, Tree)>::empty());
                    assert(entry_trees_of(out@) =~= merge_entries(ets_om, ets_nm));
                }
                let ghost merged_prefix = entry_trees_of(out@);
                let m = nm.len();
                let mut j: usize = 0;
                proof {
                    assert(ets_nm.skip(0) =~= ets_nm);
                }
                while j < m
                    invariant
                        m == nm@.len(),
                        j <= m,
                        entry_trees_of(out@) + missing_entries(ets_om, ets_nm.skip(j as int))
                            == merged_prefix + missing_entries(ets_om, ets_nm),
                    decreases m - j,
                {
                    proof {
                        assert(ets_nm.skip(j as int)[0] == ets_nm[j as int]);
                        assert(ets_nm.skip(j as int).drop_first() =~= ets_nm.skip(j as int + 1));
                    }
                    match find_key(om, &nm[j].0) {
                        Some(_) => {
                            proof {
                                assert(has_key(ets_om, ets_nm[j as int].0));
                            }
                        },
                        None => {
                            let k2 = deep_copy(&nm[j].0);
                            let v2 = deep_copy(&nm[j].1);
                            out.push((k2, v2));
                            proof {
                                assert(entry_trees_of(out@) + missing_entries(
                                    ets_om,
                                    ets_nm.skip(j as int + 1),
                                ) =~= merged_prefix + missing_entries(ets_om, ets_nm));
                            }
                        },
                    }
                    j += 1;
                }
                proof {
                    assert(ets_nm.skip(m as int) =~= Seq::<(Tree, Tree)>::empty());
                    assert(entry_trees_of(out@) =~= merged_prefix + missing_entries(
                        ets_om,
                        ets_nm,
                    ));
                }
                Value::Mapping(out)
            },
            _ => deep_copy(new),
        }
    }
}

/// The elements of a suffix of `full`, merged against `full` itself, are
/// unchanged, provided each element merges into itself and each element's
/// identity leads back to its own position.
proof fn lemma_merge_elems_diag(full: Seq<Tree>, k: int)
    requires
        0 <= k <= full.len(),
        forall|i: int| k <= i < full.len() ==> #[trigger] spec_merge(full[i], full[i]) == full[i],
        forall|i: int|
            k <= i < full.len() ==> match identity_of(#[trigger] full[i]) {
                Option::Some(n) => seq_ident_idx(full, n) == i,
                Option::None => true,
            },
    ensures
        merge_elems(full.skip(k), full) == full.skip(k),
    decreases full.len() - k,
{
    if k < full.len() {
        lemma_merge_elems_diag(full, k + 1);
        assert(full.skip(k)[0] == full[k]);
        assert(full.skip(k).drop_first() =~= full.skip(k + 1));
        assert(spec_merge(full[k], full[k]) == full[k]);
        match identity_of(full[k]) {
            Option::Some(n) => {
                assert(seq_ident_idx(full, n) == k);
                assert(has_ident(full, n));
                assert(full[seq_ident_idx(full, n)] == full[k]);
            },
            Option::None => {},
        }
        assert(merge_elems(full.skip(k), full) =~= full.skip(k));
    } else {
        assert(full.skip(k).len() == 0);
        assert(merge_elems(full.skip(k), full) =~= full.skip(k));
    }
}

/// The entries of a suffix of `full`, merged against `full` itself, are
/// unchanged, provided each value merges into itself and each key leads
/// back to its own entry.
proof fn lemma_merge_entries_diag(full: Seq<(Tree, Tree)>, k: int)
    requires
        0 <= k <= full.len(),
        forall|i: int|
            k <= i < full.len() ==> #[trigger] spec_merge(full[i].1, full[i].1) == full[i].1,
        forall|i: int| k <= i < full.len() ==> key_idx(full, (#[trigger] full[i]).0) == i,
    ensures
        merge_entries(full.skip(k), full) == full.skip(k),
    decreases full.len() - k,
{
    if k < full.len() {
        lemma_merge_entries_diag(full, k + 1);
        assert(full.skip(k)[0] == full[k]);
        assert(full.skip(k).drop_first() =~= full.skip(k + 1));
        assert(key_idx(full, full[k].0) == k);
        assert(has_key(full, full[k].0));
        assert(map_get(full, full[k].0) == full[k].1);
        assert(spec_merge(full[k].1, full[k].1) == full[k].1);
        assert(merge_entries(full.skip(k), full) =~= full.skip(k));
    } else {
        assert(merge_entries(full.skip(k), full) =~= full.skip(k));
    }
}

/// No entry of a suffix of `full` is missing from `full` itself.
proof fn lemma_missing_entries_diag(full: Seq<(Tree, Tree)>, k: int)
    requires
        0 <= k <= full.len(),
    ensures
        missing_entries(full, full.skip(k)) == Seq::<(Tree, Tree)>::empty(),
    decreases full.len() - k,
{
    if k < full.len() {
        lemma_missing_entries_diag(full, k + 1);
        assert(full.skip(k)[0] == full[k]);
        assert(full.skip(k).drop_first() =~= full.skip(k + 1));
        lemma_equiv_reflexive(full[k].0);
        lemma_key_idx_char(full, full[k].0);
        if key_idx(full, full[k].0) == -1 {
            assert(!equiv(full[k].0, full[k].0));
        }
        assert(has_key(full, full[k].0));
    }
}

/// Merging a tree into itself gives the tree back, for every well-formed
/// tree whose sequences never repeat an identity.
pub proof fn lemma_merge_identity(a: Tree)
    requires
        wf(a),
        distinct_identities(a),
    ensures
        spec_merge(a, a) == a,
    decreases a,
{
    match a {
        Tree::Sequence(s) => {
            lemma_wf_elems_char(s);
            lemma_di_elems_char(s);
            lemma_idents_distinct_char(s);
            if s.len() > 0 && identity_of(s[0]) is Some {
                assert forall|i: int| 0 <= i < s.len() implies #[trigger] spec_merge(s[i], s[i])
                    == s[i] by {
                    lemma_merge_identity(s[i]);
                }
                assert forall|i: int|
                    0 <= i < s.len() implies match identity_of(#[trigger] s[i]) {
                    Option::Some(n) => seq_ident_idx(s, n) == i,
                    Option::None => true,
                } by {
                    match identity_of(s[i]) {
                        Option::Some(n) => {
                            lemma_seq_ident_idx_char(s, n);
                            let r = seq_ident_idx(s, n);
                            if r == -1 {
                                assert(identity_of(s[i]) != Option::Some(n));
                            } else if r < i {
                                assert(identity_of(s[r]) == Option::Some(n));
                                assert(!(identity_of(s[r]) is Some && identity_of(s[r])
                                    == identity_of(s[i])));
                            } else if r > i {
                                assert(identity_of(s[i]) != Option::Some(n));
                            }
                        },
                        Option::None => {},
                    }
                }
                lemma_merge_elems_diag(s, 0);
                assert(s.skip(0) =~= s);
                assert(merge_elems(s, s) == s);
            }
        },
        Tree::Mapping(es) => {
            lemma_wf_entries_char(es);
            lemma_di_entries_char(es);
            lemma_keys_distinct_char(es);
            assert forall|i: int| 0 <= i < es.len() implies #[trigger] spec_merge(
                es[i].1,
                es[i].1,
            ) == es[i].1 by {
                lemma_merge_identity(es[i].1);
            }
            assert forall|i: int| 0 <= i < es.len() implies key_idx(es, (#[trigger] es[i]).0)
                == i by {
                lemma_equiv_reflexive(es[i].0);
                lemma_key_idx_char(es, es[i].0);
                let r = key_idx(es, es[i].0);
                if r == -1 {
                    assert(!equiv(es[i].0, es[i].0));
                } else if r < i {
                    assert(equiv(es[r].0, es[i].0));
                    lemma_equiv_symmetric(es[r].0, es[i].0);
                    assert(!equiv(es[i].0, es[r].0));
                } else if r > i {
                    assert(!equiv(es[i].0, es[i].0));
                }
            }
            lemma_merge_entries_diag(es, 0);
            lemma_missing_entries_diag(es, 0);
            assert(es.skip(0) =~= es);
            assert(merge_entries(es, es) + missing_entries(es, es) =~= es);
        },
        _ => {},
    }
}

} // verus!
