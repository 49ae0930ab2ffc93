//! The edit engine: captures the difference between two trees as an
//! ordered list of path-addressed operations, and replays such a list
//! against a tree.
//!
//! Paths address mapping entries by key, positional sequence elements by
//! index, and named sequence elements by identity. Whether a sequence is
//! diffed by identity or by position is decided once per sequence, from
//! the first element on either side that has an identity.

use vstd::prelude::*;

use crate::ident::{find_by_identity, identity};
use crate::model::{
    entry_equiv, entry_found, entry_trees_of, equiv, has_ident, has_key, identity_of, key_idx,
    keys_distinct, lemma_entry_trees_of_index, lemma_equiv_seqs_char, lemma_equiv_symmetric,
    lemma_equiv_transitive, lemma_key_idx_same_keys, lemma_key_match_unique,
    lemma_keys_distinct_char, some_matches, wf,
    lemma_entry_trees_of_len, lemma_entry_trees_of_push, lemma_equiv_reflexive,
    lemma_equiv_unfold, lemma_key_idx_char, lemma_seq_ident_idx_char, lemma_tree_of_variant,
    lemma_trees_of_index, lemma_trees_of_len, lemma_trees_of_push, map_get, same_variant,
    seq_ident_idx, tree_of, trees_of, Tree,
};
use crate::value::{deep_copy, find_key, value_eq, Value};

verus! {

broadcast use lemma_trees_of_len, lemma_trees_of_index, lemma_entry_trees_of_len, lemma_entry_trees_of_index, lemma_trees_of_push, lemma_entry_trees_of_push;

/// One step of descent into a tree: a mapping entry picked by key, a
/// sequence element picked by position, or a sequence element picked by
/// its identity.
#[derive(Debug, PartialEq)]
pub enum PathKey {
    Key(Value),
    Index(usize),
    NameIndex(String),
}

/// The model of a [`PathKey`].
pub enum PathKeyT {
    Key(Tree),
    Index(int),
    NameIndex(Seq<char>),
}

/// The model of a concrete path step.
pub open spec fn path_key_of(k: PathKey) -> PathKeyT {
    match k {
        PathKey::Key(v) => PathKeyT::Key(tree_of(v)),
        PathKey::Index(i) => PathKeyT::Index(i as int),
        PathKey::NameIndex(s) => PathKeyT::NameIndex(s@),
    }
}

impl View for PathKey {
    type V = PathKeyT;

    open spec fn view(&self) -> PathKeyT {
        path_key_of(*self)
    }
}

/// The models of the steps of a path, in order.
pub open spec fn path_of(p: Seq<PathKey>) -> Seq<PathKeyT> {
    Seq::new(p.len(), |i: int| path_key_of(p[i]))
}

/// One structural change, addressed by a root-relative path: write a new
/// subtree (`Add` for locations the tree did not have, `Mod` for ones it
/// had), or delete the addressed location (`Del` carries the deleted
/// subtree for reference).
#[derive(Debug, PartialEq)]
pub enum Operation {
    Add(Vec<PathKey>, Value),
    Mod(Vec<PathKey>, Value),
    Del(Vec<PathKey>, Value),
}

/// The model of an [`Operation`].
pub enum OpT {
    Add(Seq<PathKeyT>, Tree),
    Mod(Seq<PathKeyT>, Tree),
    Del(Seq<PathKeyT>, Tree),
}

/// The model of a concrete operation.
pub open spec fn op_of(o: Operation) -> OpT {
    match o {
        Operation::Add(p, v) => OpT::Add(path_of(p@), tree_of(v)),
        Operation::Mod(p, v) => OpT::Mod(path_of(p@), tree_of(v)),
        Operation::Del(p, v) => OpT::Del(path_of(p@), tree_of(v)),
    }
}

impl View for Operation {
    type V = OpT;

    open spec fn view(&self) -> OpT {
        op_of(*self)
    }
}

/// The models of a list of operations, in order.
pub open spec fn ops_of(s: Seq<Operation>) -> Seq<OpT> {
    Seq::new(s.len(), |i: int| op_of(s[i]))
}

/// `op`, readdressed one step deeper: `k` is prefixed to its path.
pub open spec fn prepend_one(k: PathKeyT, op: OpT) -> OpT {
    match op {
        OpT::Add(p, v) => OpT::Add(seq![k] + p, v),
        OpT::Mod(p, v) => OpT::Mod(seq![k] + p, v),
        OpT::Del(p, v) => OpT::Del(seq![k] + p, v),
    }
}

/// Every operation of `ops`, readdressed one step deeper under `k`.
pub open spec fn prepend(k: PathKeyT, ops: Seq<OpT>) -> Seq<OpT> {
    Seq::new(ops.len(), |i: int| prepend_one(k, ops[i]))
}

/// `op`, readdressed below the path `p`.
pub open spec fn prepend_path_one(p: Seq<PathKeyT>, op: OpT) -> OpT {
    match op {
        OpT::Add(q, v) => OpT::Add(p + q, v),
        OpT::Mod(q, v) => OpT::Mod(p + q, v),
        OpT::Del(q, v) => OpT::Del(p + q, v),
    }
}

/// Every operation of `ops`, readdressed below the path `p`.
pub open spec fn prepend_path(p: Seq<PathKeyT>, ops: Seq<OpT>) -> Seq<OpT> {
    Seq::new(ops.len(), |i: int| prepend_path_one(p, ops[i]))
}

/// Dropping the step just pushed restores the path's model.
pub proof fn lemma_path_of_drop_last(s: Seq<PathKey>, p: Seq<PathKeyT>, k: PathKeyT)
    requires
        path_of(s) == p.push(k),
    ensures
        path_of(s.drop_last()) == p,
{
    assert(path_of(s).len() == s.len());
    assert(s.len() == p.len() + 1);
    assert forall|i: int| 0 <= i < p.len() implies path_of(s.drop_last())[i] == p[i] by {
        assert(path_of(s)[i] == p.push(k)[i]);
        assert(s.drop_last()[i] == s[i]);
    }
    assert(path_of(s.drop_last()) =~= p);
}

pub proof fn lemma_prepend_path_empty(ops: Seq<OpT>)
    ensures
        prepend_path(Seq::empty(), ops) == ops,
{
    assert forall|i: int| 0 <= i < ops.len() implies prepend_path(Seq::empty(), ops)[i]
        == ops[i] by {
        match ops[i] {
            OpT::Add(q, v) => {
                assert(Seq::<PathKeyT>::empty() + q =~= q);
            },
            OpT::Mod(q, v) => {
                assert(Seq::<PathKeyT>::empty() + q =~= q);
            },
            OpT::Del(q, v) => {
                assert(Seq::<PathKeyT>::empty() + q =~= q);
            },
        }
    }
    assert(prepend_path(Seq::empty(), ops) =~= ops);
}

pub proof fn lemma_prepend_path_concat(p: Seq<PathKeyT>, a: Seq<OpT>, b: Seq<OpT>)
    ensures
        prepend_path(p, a + b) == prepend_path(p, a) + prepend_path(p, b),
{
    assert forall|i: int| 0 <= i < a.len() + b.len() implies prepend_path(p, a + b)[i] == (
    prepend_path(p, a) + prepend_path(p, b))[i] by {
        if i < a.len() {
            assert((a + b)[i] == a[i]);
        } else {
            assert((a + b)[i] == b[i - a.len()]);
        }
    }
    assert(prepend_path(p, a + b) =~= prepend_path(p, a) + prepend_path(p, b));
}

/// Readdressing under `p` and then one step `k` deeper is readdressing
/// under `p` extended with `k`.
pub proof fn lemma_prepend_path_push(p: Seq<PathKeyT>, k: PathKeyT, ops: Seq<OpT>)
    ensures
        prepend_path(p, prepend(k, ops)) == prepend_path(p.push(k), ops),
{
    assert forall|i: int| 0 <= i < ops.len() implies prepend_path(p, prepend(k, ops))[i]
        == prepend_path(p.push(k), ops)[i] by {
        match ops[i] {
            OpT::Add(q, v) => {
                assert(p + (seq![k] + q) =~= p.push(k) + q);
            },
            OpT::Mod(q, v) => {
                assert(p + (seq![k] + q) =~= p.push(k) + q);
            },
            OpT::Del(q, v) => {
                assert(p + (seq![k] + q) =~= p.push(k) + q);
            },
        }
    }
    assert(prepend_path(p, prepend(k, ops)) =~= prepend_path(p.push(k), ops));
}

/// What [`Data::diff`] emits for a pair of trees, with paths relative to
/// the pair: a variant change or a scalar change is one whole-subtree
/// `Mod`; equivalent subtrees emit nothing; mappings diff key by key, new
/// keys as `Add` and vanished keys as `Del`; sequences diff by identity
/// when the leading element of either side has one, and by position,
/// highest index first, otherwise.
pub open spec fn spec_diff(old: Tree, new: Tree) -> Seq<OpT>
    decreases old, new, 0int,
{
    if !same_variant(old, new) {
        seq![OpT::Mod(Seq::empty(), new)]
    } else if equiv(old, new) {
        Seq::empty()
    } else {
        match old {
            Tree::Mapping(om) => diff_map_news(om, new->Mapping_0) + diff_map_dels(
                om,
                new->Mapping_0,
            ),
            Tree::Sequence(os) => {
                let ns = new->Sequence_0;
                let named = (os.len() > 0 && identity_of(os[0]) is Some) || (ns.len() > 0
                    && identity_of(ns[0]) is Some);
                if named {
                    diff_named_news(os, ns) + diff_named_dels(os, ns)
                } else {
                    diff_pos(os, ns, if os.len() >= ns.len() {
                        os.len() as int
                    } else {
                        ns.len() as int
                    })
                }
            },
            _ => seq![OpT::Mod(Seq::empty(), new)],
        }
    }
}

/// The operations for the entries of `nm`, in order: recurse under the
/// key for entries `om` also has, emit an `Add` for entries it lacks.
pub open spec fn diff_map_news(om: Seq<(Tree, Tree)>, nm: Seq<(Tree, Tree)>) -> Seq<OpT>
    decreases om, nm, 0int,
{
    if nm.len() == 0 {
        Seq::empty()
    } else {
        let k = nm[0].0;
        if has_key(om, k) {
            proof {
                lemma_key_idx_char(om, k);
            }
            prepend(PathKeyT::Key(k), spec_diff(map_get(om, k), nm[0].1)) + diff_map_news(
                om,
                nm.drop_first(),
            )
        } else {
            seq![OpT::Add(seq![PathKeyT::Key(k)], nm[0].1)] + diff_map_news(om, nm.drop_first())
        }
    }
}

/// A `Del` for every entry of `om` whose key `nm` lacks, in order.
pub open spec fn diff_map_dels(om: Seq<(Tree, Tree)>, nm: Seq<(Tree, Tree)>) -> Seq<OpT>
    decreases om.len(),
{
    if om.len() == 0 {
        Seq::empty()
    } else {
        let here: Seq<OpT> = if !has_key(nm, om[0].0) {
            seq![OpT::Del(seq![PathKeyT::Key(om[0].0)], om[0].1)]
        } else {
            Seq::empty()
        };
        here + diff_map_dels(om.drop_first(), nm)
    }
}

/// The operations for the elements of `ns` in a named sequence, in order:
/// recurse under the identity when `os` has an element of that identity,
/// emit an `Add` when it has none, and pass over elements of `ns` without
/// an identity (a reportable condition, not a failure).
pub open spec fn diff_named_news(os: Seq<Tree>, ns: Seq<Tree>) -> Seq<OpT>
    decreases os, ns, 0int,
{
    if ns.len() == 0 {
        Seq::empty()
    } else {
        match identity_of(ns[0]) {
            Option::Some(n) => if has_ident(os, n) {
                proof {
                    lemma_seq_ident_idx_char(os, n);
                }
                prepend(PathKeyT::NameIndex(n), spec_diff(os[seq_ident_idx(os, n)], ns[0]))
                    + diff_named_news(os, ns.drop_first())
            } else {
                seq![OpT::Add(seq![PathKeyT::NameIndex(n)], ns[0])] + diff_named_news(
                    os,
                    ns.drop_first(),
                )
            },
            Option::None => diff_named_news(os, ns.drop_first()),
        }
    }
}

/// A `Del` for every element of `os` whose identity `ns` lacks, in order;
/// elements of `os` without an identity are passed over.
pub open spec fn diff_named_dels(os: Seq<Tree>, ns: Seq<Tree>) -> Seq<OpT>
    decreases os.len(),
{
    if os.len() == 0 {
        Seq::empty()
    } else {
        let here: Seq<OpT> = match identity_of(os[0]) {
            Option::Some(n) => if !has_ident(ns, n) {
                seq![OpT::Del(seq![PathKeyT::NameIndex(n)], os[0])]
            } else {
                Seq::empty()
            },
            Option::None => Seq::empty(),
        };
        here + diff_named_dels(os.drop_first(), ns)
    }
}

/// The operations for positions `0 .. hi` of a positional sequence, in
/// descending order of position: an `Add` beyond the old length, a `Del`
/// beyond the new length, and a recursive diff where both sides have the
/// position. Descending order keeps the later deletions from shifting the
/// earlier positions when the list is replayed.
pub open spec fn diff_pos(os: Seq<Tree>, ns: Seq<Tree>, hi: int) -> Seq<OpT>
    decreases os, ns, hi,
{
    if hi <= 0 {
        Seq::empty()
    } else {
        let j = hi - 1;
        let here: Seq<OpT> = if j >= os.len() {
            seq![OpT::Add(seq![PathKeyT::Index(j)], ns[j])]
        } else if j >= ns.len() {
            seq![OpT::Del(seq![PathKeyT::Index(j)], os[j])]
        } else {
            prepend(PathKeyT::Index(j), spec_diff(os[j], ns[j]))
        };
        here + diff_pos(os, ns, j)
    }
}


/// What replay makes of a compatible pair: the tree the captured diff
/// turns `o` into (meaningful when the replay goes through).
pub open spec fn rt_val(o: Tree, n: Tree) -> Tree {
    spec_apply(o, spec_diff(o, n))->Ok_0
}

/// The inputs for which the round-trip law is proved here: pairs that
/// differ in variant, pairs already equivalent, scalar pairs, positional
/// sequence pairs whose shared positions are again such pairs, and
/// mapping pairs that keep the key set (every key of either side occurs
/// on the other, same entry count) with such pairs under the shared
/// keys. Named sequence pairs, and mapping pairs that add or drop keys,
/// are not covered: a named sequence that is reordered between the two
/// trees is replayed in the old order, so the law as stated does not
/// hold of it.
pub open spec fn rt_compat(a: Tree, b: Tree) -> bool
    decreases a, b, 1int,
{
    if !same_variant(a, b) {
        true
    } else if equiv(a, b) {
        true
    } else {
        match a {
            Tree::Sequence(os) => {
                let ns = b->Sequence_0;
                !seqs_named(os, ns) && rt_compat_pos(os, ns, if os.len() <= ns.len() {
                    os.len() as int
                } else {
                    ns.len() as int
                })
            },
            Tree::Mapping(om) => {
                let nm = b->Mapping_0;
                om.len() == nm.len() && keys_covered(om, nm, om.len() as int)
                    && rt_compat_entries(om, nm, nm.len() as int)
            },
            _ => true,
        }
    }
}

/// Every key among the first `x` entries of `om` occurs in `nm`.
pub open spec fn keys_covered(om: Seq<(Tree, Tree)>, nm: Seq<(Tree, Tree)>, x: int) -> bool
    decreases x,
{
    if x <= 0 {
        true
    } else {
        (x - 1 < om.len() ==> has_key(nm, om[x - 1].0)) && keys_covered(om, nm, x - 1)
    }
}

/// [`keys_covered`] read pointwise.
pub proof fn lemma_keys_covered_char(om: Seq<(Tree, Tree)>, nm: Seq<(Tree, Tree)>, x: int)
    requires
        keys_covered(om, nm, x),
    ensures
        forall|y: int| 0 <= y < x && y < om.len() ==> has_key(nm, (#[trigger] om[y]).0),
    decreases x,
{
    if x > 0 {
        lemma_keys_covered_char(om, nm, x - 1);
    }
}

/// Every key among the first `j` entries of `nm` occurs in `om`, and the
/// values under each such shared key are again compatible.
pub open spec fn rt_compat_entries(om: Seq<(Tree, Tree)>, nm: Seq<(Tree, Tree)>, j: int) -> bool
    decreases om, nm, j,
{
    if j <= 0 {
        true
    } else if j - 1 < nm.len() {
        has_key(om, nm[j - 1].0) && ({
            proof {
                lemma_key_idx_char(om, nm[j - 1].0);
            }
            has_key(om, nm[j - 1].0) ==> rt_compat(map_get(om, nm[j - 1].0), nm[j - 1].1)
        }) && rt_compat_entries(om, nm, j - 1)
    } else {
        rt_compat_entries(om, nm, j - 1)
    }
}

/// [`rt_compat_entries`] read pointwise.
pub proof fn lemma_rt_compat_entries_char(om: Seq<(Tree, Tree)>, nm: Seq<(Tree, Tree)>, j: int)
    requires
        rt_compat_entries(om, nm, j),
    ensures
        forall|y: int|
            0 <= y < j && y < nm.len() ==> has_key(om, (#[trigger] nm[y]).0) && rt_compat(
                map_get(om, nm[y].0),
                nm[y].1,
            ),
    decreases j,
{
    if j > 0 {
        lemma_rt_compat_entries_char(om, nm, j - 1);
    }
}

/// When every key of `om` also occurs in `nm`, the diff deletes nothing.
pub proof fn lemma_diff_map_dels_empty(om: Seq<(Tree, Tree)>, nm: Seq<(Tree, Tree)>)
    requires
        forall|y: int| 0 <= y < om.len() ==> has_key(nm, (#[trigger] om[y]).0),
    ensures
        diff_map_dels(om, nm) == Seq::<OpT>::empty(),
    decreases om.len(),
{
    if om.len() > 0 {
        assert forall|y: int| 0 <= y < om.drop_first().len() implies has_key(
            nm,
            (#[trigger] om.drop_first()[y]).0,
        ) by {
            assert(om.drop_first()[y] == om[y + 1]);
            assert(has_key(nm, om[y + 1].0));
        }
        lemma_diff_map_dels_empty(om.drop_first(), nm);
        assert(has_key(nm, om[0].0));
        assert(diff_map_dels(om, nm) =~= Seq::<OpT>::empty());
    }
}

/// The mapping part way through replaying a keyed diff: entries whose
/// key occurs among the first `j` entries of `nm` already carry their
/// final values, the rest still carry the old ones.
pub open spec fn map_state(om: Seq<(Tree, Tree)>, nm: Seq<(Tree, Tree)>, j: int) -> Seq<
    (Tree, Tree),
> {
    Seq::new(
        om.len(),
        |x: int|
            if has_key(nm.take(j), om[x].0) {
                (om[x].0, rt_val(om[x].1, map_get(nm, om[x].0)))
            } else {
                om[x]
            },
    )
}


/// [`rt_compat`] at every shared position below `k`.
pub open spec fn rt_compat_pos(os: Seq<Tree>, ns: Seq<Tree>, k: int) -> bool
    decreases os, ns, k,
{
    if k <= 0 {
        true
    } else if k - 1 < os.len() && k - 1 < ns.len() {
        rt_compat(os[k - 1], ns[k - 1]) && rt_compat_pos(os, ns, k - 1)
    } else {
        rt_compat_pos(os, ns, k - 1)
    }
}

/// [`rt_compat_pos`] read pointwise.
pub proof fn lemma_rt_compat_pos_char(os: Seq<Tree>, ns: Seq<Tree>, k: int)
    requires
        rt_compat_pos(os, ns, k),
    ensures
        forall|x: int|
            0 <= x < k && x < os.len() && x < ns.len() ==> rt_compat(#[trigger] os[x], ns[x]),
    decreases k,
{
    if k > 0 {
        lemma_rt_compat_pos_char(os, ns, k - 1);
    }
}

/// Replaying operations readdressed below position `i` acts on the
/// element at `i` alone.
pub proof fn lemma_apply_under_index(s: Seq<Tree>, i: int, ops: Seq<OpT>, c: Tree)
    requires
        0 <= i < s.len(),
        spec_apply(s[i], ops) == Result::<Tree, (int, ErrT)>::Ok(c),
    ensures
        spec_apply(Tree::Sequence(s), prepend(PathKeyT::Index(i), ops)) == Result::<
            Tree,
            (int, ErrT),
        >::Ok(Tree::Sequence(s.update(i, c))),
    decreases ops.len(),
{
    if ops.len() == 0 {
        assert(prepend(PathKeyT::Index(i), ops) =~= Seq::<OpT>::empty());
        assert(c == s[i]);
        assert(s.update(i, c) =~= s);
    } else {
        let op0 = ops[0];
        let pre = prepend(PathKeyT::Index(i), ops);
        assert(pre[0] == prepend_one(PathKeyT::Index(i), op0));
        assert(pre.drop_first() =~= prepend(PathKeyT::Index(i), ops.drop_first()));
        match op0 {
            OpT::Add(p, v) => {
                let step = spec_set(s[i], p, v);
                assert(step matches Result::Ok(_));
                let c1 = step->Ok_0;
                assert(((seq![PathKeyT::Index(i)] + p)[0]) == PathKeyT::Index(i));
                assert((seq![PathKeyT::Index(i)] + p).drop_first() =~= p);
                assert(spec_set(Tree::Sequence(s), seq![PathKeyT::Index(i)] + p, v) == Result::<
                    Tree,
                    ErrT,
                >::Ok(Tree::Sequence(s.update(i, c1))));
                assert(spec_apply(c1, ops.drop_first()) == Result::<Tree, (int, ErrT)>::Ok(c));
                lemma_apply_under_index(s.update(i, c1), i, ops.drop_first(), c);
                assert(s.update(i, c1).update(i, c) =~= s.update(i, c));
            },
            OpT::Mod(p, v) => {
                let step = spec_set(s[i], p, v);
                assert(step matches Result::Ok(_));
                let c1 = step->Ok_0;
                assert(((seq![PathKeyT::Index(i)] + p)[0]) == PathKeyT::Index(i));
                assert((seq![PathKeyT::Index(i)] + p).drop_first() =~= p);
                assert(spec_set(Tree::Sequence(s), seq![PathKeyT::Index(i)] + p, v) == Result::<
                    Tree,
                    ErrT,
                >::Ok(Tree::Sequence(s.update(i, c1))));
                assert(spec_apply(c1, ops.drop_first()) == Result::<Tree, (int, ErrT)>::Ok(c));
                lemma_apply_under_index(s.update(i, c1), i, ops.drop_first(), c);
                assert(s.update(i, c1).update(i, c) =~= s.update(i, c));
            },
            OpT::Del(p, v) => {
                let step = spec_remove(s[i], p);
                assert(step matches Result::Ok(_));
                assert(p.len() >= 1);
                let c1 = step->Ok_0;
                assert(((seq![PathKeyT::Index(i)] + p)[0]) == PathKeyT::Index(i));
                assert((seq![PathKeyT::Index(i)] + p).drop_first() =~= p);
                assert((seq![PathKeyT::Index(i)] + p).len() >= 2);
                assert(spec_remove(Tree::Sequence(s), seq![PathKeyT::Index(i)] + p) == Result::<
                    Tree,
                    ErrT,
                >::Ok(Tree::Sequence(s.update(i, c1))));
                assert(spec_apply(c1, ops.drop_first()) == Result::<Tree, (int, ErrT)>::Ok(c));
                lemma_apply_under_index(s.update(i, c1), i, ops.drop_first(), c);
                assert(s.update(i, c1).update(i, c) =~= s.update(i, c));
            },
        }
    }
}

/// The tree part way through replaying a positional diff: positions `i`
/// and above already carry their final values, positions below still
/// carry the old ones.
pub open spec fn pos_state(os: Seq<Tree>, ns: Seq<Tree>, i: int) -> Seq<Tree> {
    if i >= ns.len() {
        os.take(if i <= os.len() {
            i
        } else {
            os.len() as int
        })
    } else {
        Seq::new(
            ns.len(),
            |x: int|
                if x < i {
                    if x < os.len() {
                        os[x]
                    } else {
                        Tree::Null
                    }
                } else {
                    if x < os.len() {
                        rt_val(os[x], ns[x])
                    } else {
                        ns[x]
                    }
                },
        )
    }
}

/// Replaying the positional diff for positions below `i` takes the part
/// way state the rest of the way.
#[verifier::rlimit(100)]
pub proof fn lemma_rt_pos(os: Seq<Tree>, ns: Seq<Tree>, i: int)
    requires
        0 <= i,
        i <= os.len() || i <= ns.len(),
        forall|x: int|
            0 <= x < os.len() && x < ns.len() ==> ((#[trigger] spec_apply(
                os[x],
                spec_diff(os[x], ns[x]),
            )) matches Result::Ok(c2) && c2 == rt_val(os[x], ns[x])),
    ensures
        spec_apply(Tree::Sequence(pos_state(os, ns, i)), diff_pos(os, ns, i)) == Result::<
            Tree,
            (int, ErrT),
        >::Ok(Tree::Sequence(pos_state(os, ns, 0))),
    decreases i,
{
    if i <= 0 {
        assert(pos_state(os, ns, i) == pos_state(os, ns, 0));
    } else {
        let j = i - 1;
        lemma_rt_pos(os, ns, j);
        let si = pos_state(os, ns, i);
        let sj = pos_state(os, ns, j);
        let rest = diff_pos(os, ns, j);
        if j >= os.len() {
            let here = seq![OpT::Add(seq![PathKeyT::Index(j)], ns[j])];
            assert(diff_pos(os, ns, i) == here + rest);
            assert(here[0] == OpT::Add(seq![PathKeyT::Index(j)], ns[j]));
            assert(here.drop_first() =~= Seq::<OpT>::empty());
            assert((seq![PathKeyT::Index(j)])[0] == PathKeyT::Index(j));
            assert((seq![PathKeyT::Index(j)]).drop_first() =~= Seq::<PathKeyT>::empty());
            if i >= ns.len() {
                assert(si == os.take(os.len() as int));
                assert(si =~= os);
                assert(j >= si.len());
                lemma_set_root(Tree::Null, ns[j]);
                assert(spec_set(Tree::Sequence(si), seq![PathKeyT::Index(j)], ns[j]) == Result::<
                    Tree,
                    ErrT,
                >::Ok(
                    Tree::Sequence(
                        si + Seq::new((j - si.len()) as nat, |x: int| Tree::Null) + seq![ns[j]],
                    ),
                ));
                assert(si + Seq::new((j - si.len()) as nat, |x: int| Tree::Null) + seq![ns[j]]
                    =~= sj);
            } else {
                assert(si.len() == ns.len());
                assert(0 <= j < si.len());
                lemma_set_root(si[j], ns[j]);
                assert(spec_set(Tree::Sequence(si), seq![PathKeyT::Index(j)], ns[j]) == Result::<
                    Tree,
                    ErrT,
                >::Ok(Tree::Sequence(si.update(j, ns[j]))));
                assert(si.update(j, ns[j]) =~= sj);
            }
            lemma_apply_empty(Tree::Sequence(sj));
            assert(spec_apply(Tree::Sequence(si), here) == Result::<Tree, (int, ErrT)>::Ok(
                Tree::Sequence(sj),
            ));
            lemma_apply_concat_ok(Tree::Sequence(si), here, rest, Tree::Sequence(sj));
        } else if j >= ns.len() {
            let here = seq![OpT::Del(seq![PathKeyT::Index(j)], os[j])];
            assert(diff_pos(os, ns, i) == here + rest);
            assert(here[0] == OpT::Del(seq![PathKeyT::Index(j)], os[j]));
            assert(here.drop_first() =~= Seq::<OpT>::empty());
            assert(si == os.take(j + 1));
            assert(si.len() == j + 1);
            assert((seq![PathKeyT::Index(j)]).len() == 1);
            assert((seq![PathKeyT::Index(j)])[0] == PathKeyT::Index(j));
            assert(spec_remove(Tree::Sequence(si), seq![PathKeyT::Index(j)]) == Result::<
                Tree,
                ErrT,
            >::Ok(Tree::Sequence(si.remove(j))));
            assert(si.remove(j) =~= os.take(j));
            assert(sj == os.take(j));
            lemma_apply_empty(Tree::Sequence(sj));
            assert(spec_apply(Tree::Sequence(si), here) == Result::<Tree, (int, ErrT)>::Ok(
                Tree::Sequence(sj),
            ));
            lemma_apply_concat_ok(Tree::Sequence(si), here, rest, Tree::Sequence(sj));
        } else {
            let sub = spec_diff(os[j], ns[j]);
            let here = prepend(PathKeyT::Index(j), sub);
            assert(diff_pos(os, ns, i) == here + rest);
            assert((spec_apply(os[j], sub) matches Result::Ok(c2) && c2 == rt_val(os[j], ns[j])));
            if i >= ns.len() {
                assert(i == ns.len());
                assert(si == os.take(i));
                assert(si.len() == i);
                assert(si[j] == os[j]);
                lemma_apply_under_index(si, j, sub, rt_val(os[j], ns[j]));
                assert(si.update(j, rt_val(os[j], ns[j])) =~= sj);
            } else {
                assert(si.len() == ns.len());
                assert(si[j] == os[j]);
                lemma_apply_under_index(si, j, sub, rt_val(os[j], ns[j]));
                assert(si.update(j, rt_val(os[j], ns[j])) =~= sj);
            }
            assert(spec_apply(Tree::Sequence(si), here) == Result::<Tree, (int, ErrT)>::Ok(
                Tree::Sequence(sj),
            ));
            lemma_apply_concat_ok(Tree::Sequence(si), here, rest, Tree::Sequence(sj));
        }
    }
}


/// Replaying the keyed diff for the entries of `nm` from `j` on takes
/// the part way state the rest of the way.
#[verifier::rlimit(100)]
pub proof fn lemma_rt_map_news(om: Seq<(Tree, Tree)>, nm: Seq<(Tree, Tree)>, j: int)
    requires
        0 <= j <= nm.len(),
        keys_distinct(om),
        keys_distinct(nm),
        forall|y: int| 0 <= y < nm.len() ==> has_key(om, (#[trigger] nm[y]).0),
        forall|y: int|
            0 <= y < nm.len() ==> ((#[trigger] spec_apply(
                map_get(om, nm[y].0),
                spec_diff(map_get(om, nm[y].0), nm[y].1),
            )) matches Result::Ok(c2) && c2 == rt_val(map_get(om, nm[y].0), nm[y].1)),
    ensures
        spec_apply(Tree::Mapping(map_state(om, nm, j)), diff_map_news(om, nm.skip(j)))
            == Result::<Tree, (int, ErrT)>::Ok(Tree::Mapping(map_state(om, nm, nm.len() as int))),
    decreases nm.len() - j,
{
    lemma_keys_distinct_char(om);
    lemma_keys_distinct_char(nm);
    let sj = map_state(om, nm, j);
    if j == nm.len() {
        assert(nm.skip(j) =~= Seq::<(Tree, Tree)>::empty());
        assert(diff_map_news(om, nm.skip(j)) == Seq::<OpT>::empty());
        lemma_apply_empty(Tree::Mapping(sj));
    } else {
        lemma_rt_map_news(om, nm, j + 1);
        let k = nm[j].0;
        assert(nm.skip(j)[0] == nm[j]);
        assert(nm.skip(j).drop_first() =~= nm.skip(j + 1));
        assert(has_key(om, k));
        lemma_key_idx_char(om, k);
        let x0 = key_idx(om, k);
        let sub = spec_diff(map_get(om, k), nm[j].1);
        let here = prepend(PathKeyT::Key(k), sub);
        let rest = diff_map_news(om, nm.skip(j + 1));
        assert(diff_map_news(om, nm.skip(j)) == here + rest);
        assert(sj.len() == om.len());
        assert forall|x: int| 0 <= x < om.len() implies (#[trigger] sj[x]).0 == om[x].0 by {}
        lemma_key_idx_same_keys(om, sj, k);
        assert(key_idx(sj, k) == x0);
        assert(has_key(sj, k));
        // the entry for this key is still untouched
        lemma_key_idx_char(nm.take(j), om[x0].0);
        if has_key(nm.take(j), om[x0].0) {
            let jp = key_idx(nm.take(j), om[x0].0);
            assert(nm.take(j)[jp] == nm[jp]);
            assert(equiv(nm[jp].0, om[x0].0));
            lemma_equiv_transitive(nm[jp].0, om[x0].0, nm[j].0);
            assert(!equiv(nm[j].0, nm[jp].0));
            lemma_equiv_symmetric(nm[jp].0, nm[j].0);
            assert(false);
        }
        assert(sj[x0].1 == om[x0].1);
        assert(map_get(om, k) == om[x0].1);
        assert((spec_apply(om[x0].1, sub) matches Result::Ok(c2) && c2 == rt_val(
            om[x0].1,
            nm[j].1,
        )));
        lemma_apply_under_key(sj, k, sub, rt_val(om[x0].1, nm[j].1));
        lemma_key_match_unique(om, nm, j);
        assert(key_idx(nm, om[x0].0) == j);
        assert(map_get(nm, om[x0].0) == nm[j].1);
        let updated = sj.update(x0, (sj[x0].0, rt_val(om[x0].1, nm[j].1)));
        assert forall|x: int| 0 <= x < om.len() implies updated[x] == map_state(
            om,
            nm,
            j + 1,
        )[x] by {
            lemma_key_idx_char(nm.take(j + 1), om[x].0);
            lemma_key_idx_char(nm.take(j), om[x].0);
            if x == x0 {
                if !has_key(nm.take(j + 1), om[x0].0) {
                    assert(forall|y: int|
                        0 <= y < j + 1 ==> !equiv((#[trigger] nm.take(j + 1)[y]).0, om[x0].0));
                    assert(nm.take(j + 1)[j] == nm[j]);
                    lemma_equiv_symmetric(om[x0].0, nm[j].0);
                    assert(false);
                }
            } else {
                if has_key(nm.take(j + 1), om[x].0) != has_key(nm.take(j), om[x].0) {
                    // the only fresh candidate is the entry at j itself
                    let idx = key_idx(nm.take(j + 1), om[x].0);
                    assert(0 <= idx < j + 1);
                    assert(nm.take(j + 1)[idx] == nm[idx]);
                    assert(equiv(nm[idx].0, om[x].0));
                    if idx < j {
                        assert(nm.take(j)[idx] == nm[idx]);
                        assert(!equiv(nm.take(j)[idx].0, om[x].0));
                        assert(false);
                    }
                    assert(idx == j);
                    lemma_equiv_symmetric(nm[j].0, om[x].0);
                    lemma_equiv_symmetric(om[x0].0, nm[j].0);
                    lemma_equiv_transitive(om[x].0, nm[j].0, om[x0].0);
                    assert(equiv(om[x].0, om[x0].0));
                    if x < x0 {
                        lemma_equiv_symmetric(om[x].0, om[x0].0);
                        assert(!equiv(om[x0].0, om[x].0));
                    } else {
                        assert(!equiv(om[x].0, om[x0].0));
                    }
                    assert(false);
                }
            }
        }
        assert(updated =~= map_state(om, nm, j + 1));
        lemma_apply_concat_ok(
            Tree::Mapping(sj),
            here,
            rest,
            Tree::Mapping(map_state(om, nm, j + 1)),
        );
    }
}


/// Replaying operations readdressed below the key `k` acts on the entry
/// with that key alone.
pub proof fn lemma_apply_under_key(es: Seq<(Tree, Tree)>, k: Tree, ops: Seq<OpT>, c: Tree)
    requires
        has_key(es, k),
        spec_apply(es[key_idx(es, k)].1, ops) == Result::<Tree, (int, ErrT)>::Ok(c),
    ensures
        spec_apply(Tree::Mapping(es), prepend(PathKeyT::Key(k), ops)) == Result::<
            Tree,
            (int, ErrT),
        >::Ok(Tree::Mapping(es.update(key_idx(es, k), (es[key_idx(es, k)].0, c)))),
    decreases ops.len(),
{
    let i = key_idx(es, k);
    lemma_key_idx_char(es, k);
    if ops.len() == 0 {
        assert(prepend(PathKeyT::Key(k), ops) =~= Seq::<OpT>::empty());
        assert(c == es[i].1);
        assert(es.update(i, (es[i].0, c)) =~= es);
    } else {
        let op0 = ops[0];
        let pre = prepend(PathKeyT::Key(k), ops);
        assert(pre[0] == prepend_one(PathKeyT::Key(k), op0));
        assert(pre.drop_first() =~= prepend(PathKeyT::Key(k), ops.drop_first()));
        match op0 {
            OpT::Add(p, v) => {
                let step = spec_set(es[i].1, p, v);
                assert(step matches Result::Ok(_));
                let c1 = step->Ok_0;
                assert(((seq![PathKeyT::Key(k)] + p)[0]) == PathKeyT::Key(k));
                assert((seq![PathKeyT::Key(k)] + p).drop_first() =~= p);
                assert(spec_set(Tree::Mapping(es), seq![PathKeyT::Key(k)] + p, v) == Result::<
                    Tree,
                    ErrT,
                >::Ok(Tree::Mapping(es.update(i, (es[i].0, c1)))));
                assert(spec_apply(c1, ops.drop_first()) == Result::<Tree, (int, ErrT)>::Ok(c));
                let es1 = es.update(i, (es[i].0, c1));
                assert forall|x: int| 0 <= x < es.len() implies (#[trigger] es1[x]).0
                    == es[x].0 by {}
                lemma_key_idx_same_keys(es, es1, k);
                assert(es1[i].1 == c1);
                lemma_apply_under_key(es1, k, ops.drop_first(), c);
                assert(es1.update(i, (es1[i].0, c)) =~= es.update(i, (es[i].0, c)));
            },
            OpT::Mod(p, v) => {
                let step = spec_set(es[i].1, p, v);
                assert(step matches Result::Ok(_));
                let c1 = step->Ok_0;
                assert(((seq![PathKeyT::Key(k)] + p)[0]) == PathKeyT::Key(k));
                assert((seq![PathKeyT::Key(k)] + p).drop_first() =~= p);
                assert(spec_set(Tree::Mapping(es), seq![PathKeyT::Key(k)] + p, v) == Result::<
                    Tree,
                    ErrT,
                >::Ok(Tree::Mapping(es.update(i, (es[i].0, c1)))));
                assert(spec_apply(c1, ops.drop_first()) == Result::<Tree, (int, ErrT)>::Ok(c));
                let es1 = es.update(i, (es[i].0, c1));
                assert forall|x: int| 0 <= x < es.len() implies (#[trigger] es1[x]).0
                    == es[x].0 by {}
                lemma_key_idx_same_keys(es, es1, k);
                assert(es1[i].1 == c1);
                lemma_apply_under_key(es1, k, ops.drop_first(), c);
                assert(es1.update(i, (es1[i].0, c)) =~= es.update(i, (es[i].0, c)));
            },
            OpT::Del(p, v) => {
                let step = spec_remove(es[i].1, p);
                assert(step matches Result::Ok(_));
                assert(p.len() >= 1);
                let c1 = step->Ok_0;
                assert(((seq![PathKeyT::Key(k)] + p)[0]) == PathKeyT::Key(k));
                assert((seq![PathKeyT::Key(k)] + p).drop_first() =~= p);
                assert((seq![PathKeyT::Key(k)] + p).len() >= 2);
                assert(spec_remove(Tree::Mapping(es), seq![PathKeyT::Key(k)] + p) == Result::<
                    Tree,
                    ErrT,
                >::Ok(Tree::Mapping(es.update(i, (es[i].0, c1)))));
                assert(spec_apply(c1, ops.drop_first()) == Result::<Tree, (int, ErrT)>::Ok(c));
                let es1 = es.update(i, (es[i].0, c1));
                assert forall|x: int| 0 <= x < es.len() implies (#[trigger] es1[x]).0
                    == es[x].0 by {}
                lemma_key_idx_same_keys(es, es1, k);
                assert(es1[i].1 == c1);
                lemma_apply_under_key(es1, k, ops.drop_first(), c);
                assert(es1.update(i, (es1[i].0, c)) =~= es.update(i, (es[i].0, c)));
            },
        }
    }
}

/// Replaying the positional diff against the finished state changes
/// nothing: writes rewrite the values already there, and deletions find
/// their targets already gone.
#[verifier::rlimit(100)]
pub proof fn lemma_rt_pos_idem(os: Seq<Tree>, ns: Seq<Tree>, i: int)
    requires
        0 <= i,
        i <= os.len() || i <= ns.len(),
        forall|x: int|
            0 <= x < os.len() && x < ns.len() ==> ((#[trigger] spec_apply(
                os[x],
                spec_diff(os[x], ns[x]),
            )) matches Result::Ok(c2) && c2 == rt_val(os[x], ns[x])),
        forall|x: int|
            0 <= x < os.len() && x < ns.len() ==> spec_apply(
                rt_val(os[x], ns[x]),
                #[trigger] spec_diff(os[x], ns[x]),
            ) == Result::<Tree, (int, ErrT)>::Ok(rt_val(os[x], ns[x])),
    ensures
        spec_apply(Tree::Sequence(pos_state(os, ns, 0)), diff_pos(os, ns, i)) == Result::<
            Tree,
            (int, ErrT),
        >::Ok(Tree::Sequence(pos_state(os, ns, 0))),
    decreases i,
{
    let fin = pos_state(os, ns, 0);
    if i > 0 {
        let j = i - 1;
        lemma_rt_pos_idem(os, ns, j);
        let rest = diff_pos(os, ns, j);
        if j >= os.len() {
            let here = seq![OpT::Add(seq![PathKeyT::Index(j)], ns[j])];
            assert(diff_pos(os, ns, i) == here + rest);
            assert(here[0] == OpT::Add(seq![PathKeyT::Index(j)], ns[j]));
            assert(here.drop_first() =~= Seq::<OpT>::empty());
            assert((seq![PathKeyT::Index(j)]).len() == 1);
            assert((seq![PathKeyT::Index(j)])[0] == PathKeyT::Index(j));
            assert((seq![PathKeyT::Index(j)]).drop_first() =~= Seq::<PathKeyT>::empty());
            assert(j < ns.len());
            assert(fin.len() == ns.len());
            assert(fin[j] == ns[j]);
            lemma_set_root(fin[j], ns[j]);
            assert(spec_set(Tree::Sequence(fin), seq![PathKeyT::Index(j)], ns[j]) == Result::<
                Tree,
                ErrT,
            >::Ok(Tree::Sequence(fin.update(j, ns[j]))));
            assert(fin.update(j, ns[j]) =~= fin);
            lemma_apply_empty(Tree::Sequence(fin));
            assert(spec_apply(Tree::Sequence(fin), here) == Result::<Tree, (int, ErrT)>::Ok(
                Tree::Sequence(fin),
            ));
            lemma_apply_concat_ok(Tree::Sequence(fin), here, rest, Tree::Sequence(fin));
        } else if j >= ns.len() {
            let here = seq![OpT::Del(seq![PathKeyT::Index(j)], os[j])];
            assert(diff_pos(os, ns, i) == here + rest);
            assert(here[0] == OpT::Del(seq![PathKeyT::Index(j)], os[j]));
            assert(here.drop_first() =~= Seq::<OpT>::empty());
            assert((seq![PathKeyT::Index(j)]).len() == 1);
            assert((seq![PathKeyT::Index(j)])[0] == PathKeyT::Index(j));
            assert(fin.len() <= j);
            assert(spec_remove(Tree::Sequence(fin), seq![PathKeyT::Index(j)]) == Result::<
                Tree,
                ErrT,
            >::Ok(Tree::Sequence(fin)));
            lemma_apply_empty(Tree::Sequence(fin));
            assert(spec_apply(Tree::Sequence(fin), here) == Result::<Tree, (int, ErrT)>::Ok(
                Tree::Sequence(fin),
            ));
            lemma_apply_concat_ok(Tree::Sequence(fin), here, rest, Tree::Sequence(fin));
        } else {
            let sub = spec_diff(os[j], ns[j]);
            let here = prepend(PathKeyT::Index(j), sub);
            assert(diff_pos(os, ns, i) == here + rest);
            assert(fin.len() == ns.len());
            assert(fin[j] == rt_val(os[j], ns[j]));
            assert(spec_apply(rt_val(os[j], ns[j]), sub) == Result::<Tree, (int, ErrT)>::Ok(
                rt_val(os[j], ns[j]),
            ));
            lemma_apply_under_index(fin, j, sub, rt_val(os[j], ns[j]));
            assert(fin.update(j, rt_val(os[j], ns[j])) =~= fin);
            assert(spec_apply(Tree::Sequence(fin), here) == Result::<Tree, (int, ErrT)>::Ok(
                Tree::Sequence(fin),
            ));
            lemma_apply_concat_ok(Tree::Sequence(fin), here, rest, Tree::Sequence(fin));
        }
    }
}

/// The round-trip law for the inputs [`rt_compat`] allows: replaying the
/// captured diff against the old well-formed tree yields a tree
/// equivalent to the new one.
#[verifier::rlimit(100)]
pub proof fn lemma_round_trip(a: Tree, b: Tree)
    requires
        wf(a),
        wf(b),
        rt_compat(a, b),
    ensures
        spec_apply(a, spec_diff(a, b)) matches Result::Ok(c) && equiv(c, b),
    decreases a,
{
    if !same_variant(a, b) || equiv(a, b) || (!(a is Mapping) && !(a is Sequence)) {
        lemma_round_trip_whole_subtree(a, b);
    } else if a is Sequence {
        let os = a->Sequence_0;
        let ns = b->Sequence_0;
        crate::model::lemma_wf_elems_char(os);
        crate::model::lemma_wf_elems_char(ns);
        let top: int = if os.len() <= ns.len() {
            ns.len() as int
        } else {
            os.len() as int
        };
        let kmin: int = if os.len() <= ns.len() {
            os.len() as int
        } else {
            ns.len() as int
        };
        lemma_rt_compat_pos_char(os, ns, kmin);
        assert forall|x: int|
            0 <= x < os.len() && x < ns.len() implies ((#[trigger] spec_apply(
            os[x],
            spec_diff(os[x], ns[x]),
        )) matches Result::Ok(c2) && c2 == rt_val(os[x], ns[x])) by {
            assert(rt_compat(os[x], ns[x]));
            assert(wf(os[x]) && wf(ns[x]));
            lemma_round_trip(os[x], ns[x]);
        }
        lemma_rt_pos(os, ns, top);
        assert(pos_state(os, ns, top) =~= os);
        assert(spec_diff(a, b) == diff_pos(os, ns, top));
        let fin = pos_state(os, ns, 0);
        assert(spec_apply(a, spec_diff(a, b)) == Result::<Tree, (int, ErrT)>::Ok(
            Tree::Sequence(fin),
        ));
        assert forall|x: int| 0 <= x < fin.len() implies #[trigger] equiv(fin[x], ns[x]) by {
            if x < os.len() {
                assert((spec_apply(os[x], spec_diff(os[x], ns[x])) matches Result::Ok(c2) && c2
                    == rt_val(os[x], ns[x])));
                assert(rt_compat(os[x], ns[x]));
                assert(wf(os[x]) && wf(ns[x]));
                lemma_round_trip(os[x], ns[x]);
            } else {
                lemma_equiv_reflexive(ns[x]);
            }
        }
        lemma_equiv_seqs_char(fin, ns);
        assert(equiv(Tree::Sequence(fin), b));
    } else {
        let om = a->Mapping_0;
        let nm = b->Mapping_0;
        crate::model::lemma_wf_entries_char(om);
        crate::model::lemma_wf_entries_char(nm);
        lemma_keys_distinct_char(om);
        lemma_keys_distinct_char(nm);
        lemma_keys_covered_char(om, nm, om.len() as int);
        lemma_rt_compat_entries_char(om, nm, nm.len() as int);
        assert forall|y: int|
            0 <= y < nm.len() implies ((#[trigger] spec_apply(
            map_get(om, nm[y].0),
            spec_diff(map_get(om, nm[y].0), nm[y].1),
        )) matches Result::Ok(c2) && c2 == rt_val(map_get(om, nm[y].0), nm[y].1)) by {
            assert(has_key(om, nm[y].0) && rt_compat(map_get(om, nm[y].0), nm[y].1));
            lemma_key_idx_char(om, nm[y].0);
            assert(wf(map_get(om, nm[y].0)));
            assert(wf(nm[y].1));
            lemma_round_trip(map_get(om, nm[y].0), nm[y].1);
        }
        lemma_rt_map_news(om, nm, 0);
        assert(nm.skip(0) =~= nm);
        assert(map_state(om, nm, 0) =~= om) by {
            assert forall|x: int| 0 <= x < om.len() implies map_state(om, nm, 0)[x] == om[x] by {
                assert(nm.take(0) =~= Seq::<(Tree, Tree)>::empty());
                lemma_key_idx_char(nm.take(0), om[x].0);
                if has_key(nm.take(0), om[x].0) {
                    assert(false);
                }
            }
        }
        lemma_diff_map_dels_empty(om, nm);
        assert(spec_diff(a, b) == diff_map_news(om, nm) + diff_map_dels(om, nm));
        assert(spec_diff(a, b) =~= diff_map_news(om, nm));
        let fin = map_state(om, nm, nm.len() as int);
        assert(spec_apply(a, spec_diff(a, b)) == Result::<Tree, (int, ErrT)>::Ok(
            Tree::Mapping(fin),
        ));
        assert(nm.take(nm.len() as int) =~= nm);
        assert forall|x: int| 0 <= x < om.len() implies #[trigger] entry_found(fin[x], nm) by {
            assert(has_key(nm, om[x].0));
            assert(fin[x] == (om[x].0, rt_val(om[x].1, map_get(nm, om[x].0))));
            lemma_key_idx_char(nm, om[x].0);
            let js = key_idx(nm, om[x].0);
            assert(equiv(nm[js].0, om[x].0));
            lemma_equiv_symmetric(nm[js].0, om[x].0);
            lemma_key_match_unique(nm, om, x);
            assert(key_idx(om, nm[js].0) == x);
            assert(map_get(om, nm[js].0) == om[x].1);
            assert((spec_apply(om[x].1, spec_diff(om[x].1, nm[js].1)) matches Result::Ok(c2) && c2
                == rt_val(om[x].1, nm[js].1)));
            assert(rt_compat(map_get(om, nm[js].0), nm[js].1));
            lemma_round_trip(map_get(om, nm[js].0), nm[js].1);
            assert(equiv(rt_val(om[x].1, map_get(nm, om[x].0)), nm[js].1));
            assert(entry_equiv(fin[x], nm[js]));
            crate::model::lemma_entry_found_char(fin[x], nm);
        }
        crate::model::lemma_all_found_char(fin, nm);
        assert forall|y: int| 0 <= y < nm.len() implies #[trigger] some_matches(fin, nm[y]) by {
            lemma_key_idx_char(om, nm[y].0);
            let x0 = key_idx(om, nm[y].0);
            assert(equiv(om[x0].0, nm[y].0));
            lemma_key_match_unique(om, nm, y);
            assert(key_idx(nm, om[x0].0) == y);
            assert(map_get(nm, om[x0].0) == nm[y].1);
            assert(has_key(nm, om[x0].0));
            assert(fin[x0] == (om[x0].0, rt_val(om[x0].1, nm[y].1)));
            assert(map_get(om, nm[y].0) == om[x0].1);
            assert((spec_apply(om[x0].1, spec_diff(om[x0].1, nm[y].1)) matches Result::Ok(c2)
                && c2 == rt_val(om[x0].1, nm[y].1)));
            assert(rt_compat(map_get(om, nm[y].0), nm[y].1));
            lemma_round_trip(map_get(om, nm[y].0), nm[y].1);
            assert(equiv(rt_val(om[x0].1, nm[y].1), nm[y].1));
            assert(entry_equiv(fin[x0], nm[y]));
            crate::model::lemma_some_matches_char(fin, nm[y]);
        }
        crate::model::lemma_all_matched_char(fin, nm);
        assert(fin.len() == nm.len());
        assert(equiv(Tree::Mapping(fin), b));
    }
}


/// Replaying the keyed diff against the finished state changes nothing:
/// every write rewrites the value already there.
#[verifier::rlimit(100)]
pub proof fn lemma_rt_map_idem(om: Seq<(Tree, Tree)>, nm: Seq<(Tree, Tree)>, j: int)
    requires
        0 <= j <= nm.len(),
        keys_distinct(om),
        keys_distinct(nm),
        forall|y: int| 0 <= y < nm.len() ==> has_key(om, (#[trigger] nm[y]).0),
        forall|y: int|
            0 <= y < nm.len() ==> ((#[trigger] spec_apply(
                map_get(om, nm[y].0),
                spec_diff(map_get(om, nm[y].0), nm[y].1),
            )) matches Result::Ok(c2) && c2 == rt_val(map_get(om, nm[y].0), nm[y].1)),
        forall|y: int|
            0 <= y < nm.len() ==> spec_apply(
                rt_val(map_get(om, nm[y].0), nm[y].1),
                #[trigger] spec_diff(map_get(om, nm[y].0), nm[y].1),
            ) == Result::<Tree, (int, ErrT)>::Ok(rt_val(map_get(om, nm[y].0), nm[y].1)),
    ensures
        spec_apply(
            Tree::Mapping(map_state(om, nm, nm.len() as int)),
            diff_map_news(om, nm.skip(j)),
        ) == Result::<Tree, (int, ErrT)>::Ok(Tree::Mapping(map_state(om, nm, nm.len() as int))),
    decreases nm.len() - j,
{
    lemma_keys_distinct_char(om);
    lemma_keys_distinct_char(nm);
    let fin = map_state(om, nm, nm.len() as int);
    if j == nm.len() {
        assert(nm.skip(j) =~= Seq::<(Tree, Tree)>::empty());
        assert(diff_map_news(om, nm.skip(j)) == Seq::<OpT>::empty());
        lemma_apply_empty(Tree::Mapping(fin));
    } else {
        lemma_rt_map_idem(om, nm, j + 1);
        let k = nm[j].0;
        assert(nm.skip(j)[0] == nm[j]);
        assert(nm.skip(j).drop_first() =~= nm.skip(j + 1));
        assert(has_key(om, k));
        lemma_key_idx_char(om, k);
        let x0 = key_idx(om, k);
        let sub = spec_diff(map_get(om, k), nm[j].1);
        let here = prepend(PathKeyT::Key(k), sub);
        let rest = diff_map_news(om, nm.skip(j + 1));
        assert(diff_map_news(om, nm.skip(j)) == here + rest);
        assert(fin.len() == om.len());
        assert forall|x: int| 0 <= x < om.len() implies (#[trigger] fin[x]).0 == om[x].0 by {}
        lemma_key_idx_same_keys(om, fin, k);
        assert(key_idx(fin, k) == x0);
        lemma_key_match_unique(om, nm, j);
        assert(key_idx(nm, om[x0].0) == j);
        assert(map_get(nm, om[x0].0) == nm[j].1);
        assert(nm.take(nm.len() as int) =~= nm);
        assert(has_key(nm, om[x0].0));
        assert(fin[x0] == (om[x0].0, rt_val(om[x0].1, nm[j].1)));
        assert(map_get(om, k) == om[x0].1);
        assert(spec_apply(rt_val(om[x0].1, nm[j].1), sub) == Result::<Tree, (int, ErrT)>::Ok(
            rt_val(om[x0].1, nm[j].1),
        ));
        lemma_apply_under_key(fin, k, sub, rt_val(om[x0].1, nm[j].1));
        assert(fin.update(x0, (fin[x0].0, rt_val(om[x0].1, nm[j].1))) =~= fin);
        lemma_apply_concat_ok(Tree::Mapping(fin), here, rest, Tree::Mapping(fin));
    }
}

/// Idempotence of replay for the inputs [`rt_compat`] allows: replaying
/// the captured list a second time, against the tree the first replay
/// produced, reproduces that tree unchanged.
#[verifier::rlimit(100)]
pub proof fn lemma_replay_idempotent(a: Tree, b: Tree)
    requires
        wf(a),
        wf(b),
        rt_compat(a, b),
    ensures
        spec_apply(a, spec_diff(a, b)) matches Result::Ok(c) && spec_apply(c, spec_diff(a, b))
            == Result::<Tree, (int, ErrT)>::Ok(c),
    decreases a,
{
    if !same_variant(a, b) || equiv(a, b) || (!(a is Mapping) && !(a is Sequence)) {
        lemma_replay_idempotent_whole_subtree(a, b);
    } else if a is Sequence {
        let os = a->Sequence_0;
        let ns = b->Sequence_0;
        crate::model::lemma_wf_elems_char(os);
        crate::model::lemma_wf_elems_char(ns);
        let top: int = if os.len() <= ns.len() {
            ns.len() as int
        } else {
            os.len() as int
        };
        let kmin: int = if os.len() <= ns.len() {
            os.len() as int
        } else {
            ns.len() as int
        };
        lemma_rt_compat_pos_char(os, ns, kmin);
        assert forall|x: int|
            0 <= x < os.len() && x < ns.len() implies ((#[trigger] spec_apply(
            os[x],
            spec_diff(os[x], ns[x]),
        )) matches Result::Ok(c2) && c2 == rt_val(os[x], ns[x])) by {
            assert(rt_compat(os[x], ns[x]));
            assert(wf(os[x]) && wf(ns[x]));
            lemma_round_trip(os[x], ns[x]);
        }
        assert forall|x: int| 0 <= x < os.len() && x < ns.len() implies spec_apply(
            rt_val(os[x], ns[x]),
            #[trigger] spec_diff(os[x], ns[x]),
        ) == Result::<Tree, (int, ErrT)>::Ok(rt_val(os[x], ns[x])) by {
            assert(rt_compat(os[x], ns[x]));
            assert(wf(os[x]) && wf(ns[x]));
            lemma_replay_idempotent(os[x], ns[x]);
        }
        lemma_rt_pos(os, ns, top);
        lemma_rt_pos_idem(os, ns, top);
        assert(pos_state(os, ns, top) =~= os);
        assert(spec_diff(a, b) == diff_pos(os, ns, top));
    } else {
        let om = a->Mapping_0;
        let nm = b->Mapping_0;
        crate::model::lemma_wf_entries_char(om);
        crate::model::lemma_wf_entries_char(nm);
        lemma_keys_distinct_char(om);
        lemma_keys_distinct_char(nm);
        lemma_keys_covered_char(om, nm, om.len() as int);
        lemma_rt_compat_entries_char(om, nm, nm.len() as int);
        assert forall|y: int|
            0 <= y < nm.len() implies ((#[trigger] spec_apply(
            map_get(om, nm[y].0),
            spec_diff(map_get(om, nm[y].0), nm[y].1),
        )) matches Result::Ok(c2) && c2 == rt_val(map_get(om, nm[y].0), nm[y].1)) by {
            assert(has_key(om, nm[y].0) && rt_compat(map_get(om, nm[y].0), nm[y].1));
            lemma_key_idx_char(om, nm[y].0);
            assert(wf(map_get(om, nm[y].0)));
            assert(wf(nm[y].1));
            lemma_round_trip(map_get(om, nm[y].0), nm[y].1);
        }
        assert forall|y: int| 0 <= y < nm.len() implies spec_apply(
            rt_val(map_get(om, nm[y].0), nm[y].1),
            #[trigger] spec_diff(map_get(om, nm[y].0), nm[y].1),
        ) == Result::<Tree, (int, ErrT)>::Ok(rt_val(map_get(om, nm[y].0), nm[y].1)) by {
            assert(has_key(om, nm[y].0) && rt_compat(map_get(om, nm[y].0), nm[y].1));
            lemma_key_idx_char(om, nm[y].0);
            assert(wf(map_get(om, nm[y].0)));
            assert(wf(nm[y].1));
            lemma_replay_idempotent(map_get(om, nm[y].0), nm[y].1);
        }
        lemma_rt_map_news(om, nm, 0);
        lemma_rt_map_idem(om, nm, 0);
        assert(nm.skip(0) =~= nm);
        assert(map_state(om, nm, 0) =~= om) by {
            assert forall|x: int| 0 <= x < om.len() implies map_state(om, nm, 0)[x] == om[x] by {
                assert(nm.take(0) =~= Seq::<(Tree, Tree)>::empty());
                lemma_key_idx_char(nm.take(0), om[x].0);
                if has_key(nm.take(0), om[x].0) {
                    assert(false);
                }
            }
        }
        lemma_diff_map_dels_empty(om, nm);
        assert(spec_diff(a, b) == diff_map_news(om, nm) + diff_map_dels(om, nm));
        assert(spec_diff(a, b) =~= diff_map_news(om, nm));
    }
}

/// An owned copy of one path step.
pub fn clone_path_key(k: &PathKey) -> (r: PathKey)
    ensures
        r@ == k@,
{
    match k {
        PathKey::Key(v) => PathKey::Key(deep_copy(v)),
        PathKey::Index(i) => PathKey::Index(*i),
        PathKey::NameIndex(s) => PathKey::NameIndex(s.clone()),
    }
}

/// An owned copy of a path.
#[verifier::loop_isolation(false)]
pub fn clone_path(p: &Vec<PathKey>) -> (r: Vec<PathKey>)
    ensures
        path_of(r@) == path_of(p@),
{
    let n = p.len();
    let mut out: Vec<PathKey> = Vec::new();
    let mut i: usize = 0;
    while i < n
        invariant
            n == p@.len(),
            i <= n,
            out@.len() == i,
            forall|k: int| 0 <= k < i ==> (#[trigger] out@[k])@ == p@[k]@,
        decreases n - i,
    {
        let c = clone_path_key(&p[i]);
        out.push(c);
        i += 1;
    }
    proof {
        assert(path_of(out@) =~= path_of(p@));
    }
    out
}

/// The edit engine's state: the operation list captured from the last
/// edit, kept so the same change can be replayed on the next document.
pub struct Data {
    pub diff: Option<Vec<Operation>>,
}

impl Data {
    /// Fresh edit state, with no change captured yet.
    pub fn new() -> (r: Data)
        ensures
            r.diff is None,
    {
        Data { diff: None }
    }

    /// Walks `old` and `new` in lockstep below `path`, appending the
    /// operations that turn `old` into `new` to `diff`; `path` is used as
    /// scratch space and handed back as it came.
    #[verifier::loop_isolation(false)]
    fn recurse_diff(
        before: &Value,
        after: &Value,
        path: &mut Vec<PathKey>,
        diff: &mut Vec<Operation>,
    )
        ensures
            path_of(final(path)@) == path_of(old(path)@),
            ops_of(final(diff)@) == ops_of(old(diff)@) + prepend_path(
                path_of(old(path)@),
                spec_diff(before@, after@),
            ),
        decreases *before,
    {
        proof {
            lemma_tree_of_variant(*before);
            lemma_tree_of_variant(*after);
        }
        let ghost p = path_of(path@);
        let ghost ops0 = ops_of(diff@);
        if !crate::mode::merge::Data::variant_eq(before, after) {
            let ap = clone_path(path);
            diff.push(Operation::Mod(ap, deep_copy(after)));
            proof {
                assert(p + Seq::<PathKeyT>::empty() =~= p);
                assert(prepend_path(p, seq![OpT::Mod(Seq::empty(), after@)]) =~= seq![
                    OpT::Mod(p, after@),
                ]);
                assert(ops_of(diff@) =~= ops0 + seq![OpT::Mod(p, after@)]);
            }
            return;
        }
        if value_eq(before, after) {
            proof {
                assert(prepend_path(p, spec_diff(before@, after@)) =~= Seq::<OpT>::empty());
                assert(ops_of(diff@) =~= ops0 + prepend_path(p, spec_diff(before@, after@)));
            }
            return;
        }
        match (before, after) {
            (Value::Mapping(om), Value::Mapping(nm)) => {
                let ghost ets_om = entry_trees_of(om@);
                let ghost ets_nm = entry_trees_of(nm@);
                let nlen = nm.len();
                let mut j: usize = 0;
                proof {
                    assert(ets_nm.skip(0) =~= ets_nm);
                }
                while j < nlen
                    invariant
                        nlen == nm@.len(),
                        j <= nlen,
                        path_of(path@) == p,
                        ops_of(diff@) + prepend_path(p, diff_map_news(ets_om, ets_nm.skip(j as int)))
                            == ops0 + prepend_path(p, diff_map_news(ets_om, ets_nm)),
                    decreases nlen - j,
                {
                    proof {
                        assert(ets_nm.skip(j as int)[0] == ets_nm[j as int]);
                        assert(ets_nm.skip(j as int).drop_first() =~= ets_nm.skip(j as int + 1));
                    }
                    let ghost ops_here = ops_of(diff@);
                    match find_key(om, &nm[j].0) {
                        Some(i) => {
                            proof {
                                lemma_key_idx_char(ets_om, ets_nm[j as int].0);
                            }
                            let pk = PathKey::Key(deep_copy(&nm[j].0));
                            path.push(pk);
                            proof {
                                assert(path_of(path@) =~= p.push(PathKeyT::Key(
                                    ets_nm[j as int].0,
                                )));
                            }
                            Data::recurse_diff(&om[i].1, &nm[j].1, path, diff);
                            let ghost full = path@;
                            path.pop();
                            proof {
                                lemma_path_of_drop_last(
                                    full,
                                    p,
                                    PathKeyT::Key(ets_nm[j as int].0),
                                );
                                assert(path@ == full.drop_last());
                                assert(path_of(path@) == p);
                                lemma_prepend_path_push(
                                    p,
                                    PathKeyT::Key(ets_nm[j as int].0),
                                    spec_diff(ets_om[i as int].1, ets_nm[j as int].1),
                                );
                                lemma_prepend_path_concat(
                                    p,
                                    prepend(
                                        PathKeyT::Key(ets_nm[j as int].0),
                                        spec_diff(ets_om[i as int].1, ets_nm[j as int].1),
                                    ),
                                    diff_map_news(ets_om, ets_nm.skip(j as int + 1)),
                                );
                                assert(ops_of(diff@) + prepend_path(
                                    p,
                                    diff_map_news(ets_om, ets_nm.skip(j as int + 1)),
                                ) =~= ops0 + prepend_path(p, diff_map_news(ets_om, ets_nm)));
                            }
                        },
                        None => {
                            let mut ap = clone_path(path);
                            ap.push(PathKey::Key(deep_copy(&nm[j].0)));
                            diff.push(Operation::Add(ap, deep_copy(&nm[j].1)));
                            proof {
                                assert(path_of(ap@) =~= p + seq![PathKeyT::Key(
                                    ets_nm[j as int].0,
                                )]);
                                assert(prepend_path(
                                    p,
                                    seq![
                                        OpT::Add(
                                            seq![PathKeyT::Key(ets_nm[j as int].0)],
                                            ets_nm[j as int].1,
                                        ),
                                    ],
                                ) =~= seq![
                                    OpT::Add(
                                        p + seq![PathKeyT::Key(ets_nm[j as int].0)],
                                        ets_nm[j as int].1,
                                    ),
                                ]);
                                lemma_prepend_path_concat(
                                    p,
                                    seq![
                                        OpT::Add(
                                            seq![PathKeyT::Key(ets_nm[j as int].0)],
                                            ets_nm[j as int].1,
                                        ),
                                    ],
                                    diff_map_news(ets_om, ets_nm.skip(j as int + 1)),
                                );
                                assert(ops_of(diff@) =~= ops_here + seq![
                                    OpT::Add(
                                        p + seq![PathKeyT::Key(ets_nm[j as int].0)],
                                        ets_nm[j as int].1,
                                    ),
                                ]);
                                assert(ops_of(diff@) + prepend_path(
                                    p,
                                    diff_map_news(ets_om, ets_nm.skip(j as int + 1)),
                                ) =~= ops0 + prepend_path(p, diff_map_news(ets_om, ets_nm)));
                            }
                        },
                    }
                    j += 1;
                }
                proof {
                    assert(ets_nm.skip(nlen as int) =~= Seq::<(Tree, Tree)>::empty());
                    assert(prepend_path(p, diff_map_news(ets_om, ets_nm.skip(nlen as int)))
                        =~= Seq::<OpT>::empty());
                    assert(ops_of(diff@) =~= ops0 + prepend_path(
                        p,
                        diff_map_news(ets_om, ets_nm),
                    ));
                }
                let ghost ops1 = ops_of(diff@);
                let olen = om.len();
                let mut i: usize = 0;
                proof {
                    assert(ets_om.skip(0) =~= ets_om);
                }
                while i < olen
                    invariant
                        olen == om@.len(),
                        i <= olen,
                        path_of(path@) == p,
                        ops_of(diff@) + prepend_path(p, diff_map_dels(ets_om.skip(i as int), ets_nm))
                            == ops1 + prepend_path(p, diff_map_dels(ets_om, ets_nm)),
                    decreases olen - i,
                {
                    proof {
                        assert(ets_om.skip(i as int)[0] == ets_om[i as int]);
                        assert(ets_om.skip(i as int).drop_first() =~= ets_om.skip(i as int + 1));
                    }
                    let ghost ops_here = ops_of(diff@);
                    match find_key(nm, &om[i].0) {
                        Some(_) => {
                            proof {
                                assert(has_key(ets_nm, ets_om[i as int].0));
                                assert(ops_of(diff@) + prepend_path(
                                    p,
                                    diff_map_dels(ets_om.skip(i as int + 1), ets_nm),
                                ) =~= ops1 + prepend_path(p, diff_map_dels(ets_om, ets_nm)));
                            }
                        },
                        None => {
                            let mut ap = clone_path(path);
                            ap.push(PathKey::Key(deep_copy(&om[i].0)));
                            diff.push(Operation::Del(ap, deep_copy(&om[i].1)));
                            proof {
                                assert(path_of(ap@) =~= p + seq![PathKeyT::Key(
                                    ets_om[i as int].0,
                                )]);
                                assert(prepend_path(
                                    p,
                                    seq![
                                        OpT::Del(
                                            seq![PathKeyT::Key(ets_om[i as int].0)],
                                            ets_om[i as int].1,
                                        ),
                                    ],
                                ) =~= seq![
                                    OpT::Del(
                                        p + seq![PathKeyT::Key(ets_om[i as int].0)],
                                        ets_om[i as int].1,
                                    ),
                                ]);
                                lemma_prepend_path_concat(
                                    p,
                                    seq![
                                        OpT::Del(
                                            seq![PathKeyT::Key(ets_om[i as int].0)],
                                            ets_om[i as int].1,
                                        ),
                                    ],
                                    diff_map_dels(ets_om.skip(i as int + 1), ets_nm),
                                );
                                assert(ops_of(diff@) =~= ops_here + seq![
                                    OpT::Del(
                                        p + seq![PathKeyT::Key(ets_om[i as int].0)],
                                        ets_om[i as int].1,
                                    ),
                                ]);
                                assert(ops_of(diff@) + prepend_path(
                                    p,
                                    diff_map_dels(ets_om.skip(i as int + 1), ets_nm),
                                ) =~= ops1 + prepend_path(p, diff_map_dels(ets_om, ets_nm)));
                            }
                        },
                    }
                    i += 1;
                }
                proof {
                    assert(ets_om.skip(olen as int) =~= Seq::<(Tree, Tree)>::empty());
                    assert(prepend_path(p, diff_map_dels(ets_om.skip(olen as int), ets_nm))
                        =~= Seq::<OpT>::empty());
                    lemma_prepend_path_concat(
                        p,
                        diff_map_news(ets_om, ets_nm),
                        diff_map_dels(ets_om, ets_nm),
                    );
                    assert(ops_of(diff@) =~= ops0 + prepend_path(p, spec_diff(before@, after@)));
                }
            },
            (Value::Sequence(osv), Value::Sequence(nsv)) => {
                Data::recurse_diff_seq(osv, nsv, path, diff);
            },
            _ => {
                let ap = clone_path(path);
                diff.push(Operation::Mod(ap, deep_copy(after)));
                proof {
                    assert(spec_diff(before@, after@) == seq![
                        OpT::Mod(Seq::<PathKeyT>::empty(), after@),
                    ]);
                    assert(p + Seq::<PathKeyT>::empty() =~= p);
                    assert(prepend_path(p, seq![OpT::Mod(Seq::empty(), after@)]) =~= seq![
                        OpT::Mod(p, after@),
                    ]);
                    assert(ops_of(diff@) =~= ops0 + seq![OpT::Mod(p, after@)]);
                }
            },
        }
    }
}

/// Whether a pair of sequences is diffed by identity: decided once per
/// sequence, from the first element on either side that has one.
pub open spec fn seqs_named(os: Seq<Tree>, ns: Seq<Tree>) -> bool {
    (os.len() > 0 && identity_of(os[0]) is Some) || (ns.len() > 0 && identity_of(ns[0]) is Some)
}

impl Data {
    /// The sequence half of the diff walk: by identity for named
    /// sequences, by position, highest index first, otherwise.
    #[verifier::loop_isolation(false)]
    #[verifier::rlimit(100)]
    fn recurse_diff_seq(
        os: &Vec<Value>,
        ns: &Vec<Value>,
        path: &mut Vec<PathKey>,
        diff: &mut Vec<Operation>,
    )
        ensures
            path_of(final(path)@) == path_of(old(path)@),
            ops_of(final(diff)@) == ops_of(old(diff)@) + prepend_path(
                path_of(old(path)@),
                if seqs_named(trees_of(os@), trees_of(ns@)) {
                    diff_named_news(trees_of(os@), trees_of(ns@)) + diff_named_dels(
                        trees_of(os@),
                        trees_of(ns@),
                    )
                } else {
                    diff_pos(trees_of(os@), trees_of(ns@), if os@.len() >= ns@.len() {
                        os@.len() as int
                    } else {
                        ns@.len() as int
                    })
                },
            ),
        decreases *os,
    {
        let ghost p = path_of(path@);
        let ghost tos = trees_of(os@);
        let ghost tns = trees_of(ns@);
        let ghost ops0 = ops_of(diff@);
        let mut named = false;
        if os.len() > 0 {
            named = match identity(&os[0]) {
                Some(_) => true,
                None => false,
            };
        }
        if !named && ns.len() > 0 {
            named = match identity(&ns[0]) {
                Some(_) => true,
                None => false,
            };
        }
        proof {
            assert(named == seqs_named(tos, tns));
        }
        if named {
            let nlen = ns.len();
            let mut j: usize = 0;
            proof {
                assert(tns.skip(0) =~= tns);
            }
            while j < nlen
                invariant
                    nlen == ns@.len(),
                    j <= nlen,
                    path_of(path@) == p,
                    ops_of(diff@) + prepend_path(p, diff_named_news(tos, tns.skip(j as int)))
                        == ops0 + prepend_path(p, diff_named_news(tos, tns)),
                decreases nlen - j,
            {
                proof {
                    assert(tns.skip(j as int)[0] == tns[j as int]);
                    assert(tns.skip(j as int).drop_first() =~= tns.skip(j as int + 1));
                }
                let ghost ops_here = ops_of(diff@);
                match identity(&ns[j]) {
                    Some(name) => {
                        match find_by_identity(os, name) {
                            Some(i) => {
                                proof {
                                    lemma_seq_ident_idx_char(tos, name@);
                                }
                                let pk = PathKey::NameIndex(name.clone());
                                path.push(pk);
                                proof {
                                    assert(path_of(path@) =~= p.push(PathKeyT::NameIndex(name@)));
                                }
                                Data::recurse_diff(&os[i], &ns[j], path, diff);
                                let ghost full = path@;
                                path.pop();
                                proof {
                                    lemma_path_of_drop_last(
                                        full,
                                        p,
                                        PathKeyT::NameIndex(name@),
                                    );
                                    assert(path@ == full.drop_last());
                                    assert(path_of(path@) == p);
                                    lemma_prepend_path_push(
                                        p,
                                        PathKeyT::NameIndex(name@),
                                        spec_diff(tos[i as int], tns[j as int]),
                                    );
                                    lemma_prepend_path_concat(
                                        p,
                                        prepend(
                                            PathKeyT::NameIndex(name@),
                                            spec_diff(tos[i as int], tns[j as int]),
                                        ),
                                        diff_named_news(tos, tns.skip(j as int + 1)),
                                    );
                                    assert(ops_of(diff@) + prepend_path(
                                        p,
                                        diff_named_news(tos, tns.skip(j as int + 1)),
                                    ) =~= ops0 + prepend_path(p, diff_named_news(tos, tns)));
                                }
                            },
                            None => {
                                let mut ap = clone_path(path);
                                ap.push(PathKey::NameIndex(name.clone()));
                                diff.push(Operation::Add(ap, deep_copy(&ns[j])));
                                proof {
                                    assert(path_of(ap@) =~= p + seq![PathKeyT::NameIndex(name@)]);
                                    assert(prepend_path(
                                        p,
                                        seq![
                                            OpT::Add(
                                                seq![PathKeyT::NameIndex(name@)],
                                                tns[j as int],
                                            ),
                                        ],
                                    ) =~= seq![
                                        OpT::Add(
                                            p + seq![PathKeyT::NameIndex(name@)],
                                            tns[j as int],
                                        ),
                                    ]);
                                    lemma_prepend_path_concat(
                                        p,
                                        seq![
                                            OpT::Add(
                                                seq![PathKeyT::NameIndex(name@)],
                                                tns[j as int],
                                            ),
                                        ],
                                        diff_named_news(tos, tns.skip(j as int + 1)),
                                    );
                                    assert(ops_of(diff@) =~= ops_here + seq![
                                        OpT::Add(
                                            p + seq![PathKeyT::NameIndex(name@)],
                                            tns[j as int],
                                        ),
                                    ]);
                                    assert(ops_of(diff@) + prepend_path(
                                        p,
                                        diff_named_news(tos, tns.skip(j as int + 1)),
                                    ) =~= ops0 + prepend_path(p, diff_named_news(tos, tns)));
                                }
                            },
                        }
                    },
                    None => {
                        proof {
                            assert(ops_of(diff@) + prepend_path(
                                p,
                                diff_named_news(tos, tns.skip(j as int + 1)),
                            ) =~= ops0 + prepend_path(p, diff_named_news(tos, tns)));
                        }
                    },
                }
                j += 1;
            }
            proof {
                assert(tns.skip(nlen as int) =~= Seq::<Tree>::empty());
                assert(prepend_path(p, diff_named_news(tos, tns.skip(nlen as int))) =~= Seq::<
                    OpT,
                >::empty());
                assert(ops_of(diff@) =~= ops0 + prepend_path(p, diff_named_news(tos, tns)));
            }
            let ghost ops1 = ops_of(diff@);
            let olen = os.len();
            let mut i: usize = 0;
            proof {
                assert(tos.skip(0) =~= tos);
            }
            while i < olen
                invariant
                    olen == os@.len(),
                    i <= olen,
                    path_of(path@) == p,
                    ops_of(diff@) + prepend_path(p, diff_named_dels(tos.skip(i as int), tns))
                        == ops1 + prepend_path(p, diff_named_dels(tos, tns)),
                decreases olen - i,
            {
                proof {
                    assert(tos.skip(i as int)[0] == tos[i as int]);
                    assert(tos.skip(i as int).drop_first() =~= tos.skip(i as int + 1));
                }
                let ghost ops_here = ops_of(diff@);
                match identity(&os[i]) {
                    Some(name) => {
                        match find_by_identity(ns, name) {
                            Some(_) => {
                                proof {
                                    assert(has_ident(tns, name@));
                                    assert(ops_of(diff@) + prepend_path(
                                        p,
                                        diff_named_dels(tos.skip(i as int + 1), tns),
                                    ) =~= ops1 + prepend_path(p, diff_named_dels(tos, tns)));
                                }
                            },
                            None => {
                                let mut ap = clone_path(path);
                                ap.push(PathKey::NameIndex(name.clone()));
                                diff.push(Operation::Del(ap, deep_copy(&os[i])));
                                proof {
                                    assert(path_of(ap@) =~= p + seq![PathKeyT::NameIndex(name@)]);
                                    assert(prepend_path(
                                        p,
                                        seq![
                                            OpT::Del(
                                                seq![PathKeyT::NameIndex(name@)],
                                                tos[i as int],
                                            ),
                                        ],
                                    ) =~= seq![
                                        OpT::Del(
                                            p + seq![PathKeyT::NameIndex(name@)],
                                            tos[i as int],
                                        ),
                                    ]);
                                    lemma_prepend_path_concat(
                                        p,
                                        seq![
                                            OpT::Del(
                                                seq![PathKeyT::NameIndex(name@)],
                                                tos[i as int],
                                            ),
                                        ],
                                        diff_named_dels(tos.skip(i as int + 1), tns),
                                    );
                                    assert(ops_of(diff@) =~= ops_here + seq![
                                        OpT::Del(
                                            p + seq![PathKeyT::NameIndex(name@)],
                                            tos[i as int],
                                        ),
                                    ]);
                                    assert(ops_of(diff@) + prepend_path(
                                        p,
                                        diff_named_dels(tos.skip(i as int + 1), tns),
                                    ) =~= ops1 + prepend_path(p, diff_named_dels(tos, tns)));
                                }
                            },
                        }
                    },
                    None => {
                        proof {
                            assert(ops_of(diff@) + prepend_path(
                                p,
                                diff_named_dels(tos.skip(i as int + 1), tns),
                            ) =~= ops1 + prepend_path(p, diff_named_dels(tos, tns)));
                        }
                    },
                }
                i += 1;
            }
            proof {
                assert(tos.skip(olen as int) =~= Seq::<Tree>::empty());
                assert(prepend_path(p, diff_named_dels(tos.skip(olen as int), tns)) =~= Seq::<
                    OpT,
                >::empty());
                lemma_prepend_path_concat(
                    p,
                    diff_named_news(tos, tns),
                    diff_named_dels(tos, tns),
                );
                assert(ops_of(diff@) =~= ops0 + prepend_path(
                    p,
                    diff_named_news(tos, tns) + diff_named_dels(tos, tns),
                ));
            }
        } else {
            let top = if os.len() >= ns.len() {
                os.len()
            } else {
                ns.len()
            };
            let mut i: usize = top;
            while i > 0
                invariant
                    i <= top,
                    top == (if os@.len() >= ns@.len() {
                        os@.len()
                    } else {
                        ns@.len()
                    }),
                    path_of(path@) == p,
                    ops_of(diff@) + prepend_path(p, diff_pos(tos, tns, i as int)) == ops0
                        + prepend_path(p, diff_pos(tos, tns, top as int)),
                decreases i,
            {
                let j = i - 1;
                let ghost ops_here = ops_of(diff@);
                if j >= os.len() {
                    let mut ap = clone_path(path);
                    ap.push(PathKey::Index(j));
                    diff.push(Operation::Add(ap, deep_copy(&ns[j])));
                    proof {
                        assert(path_of(ap@) =~= p + seq![PathKeyT::Index(j as int)]);
                        assert(prepend_path(
                            p,
                            seq![OpT::Add(seq![PathKeyT::Index(j as int)], tns[j as int])],
                        ) =~= seq![
                            OpT::Add(p + seq![PathKeyT::Index(j as int)], tns[j as int]),
                        ]);
                        lemma_prepend_path_concat(
                            p,
                            seq![OpT::Add(seq![PathKeyT::Index(j as int)], tns[j as int])],
                            diff_pos(tos, tns, j as int),
                        );
                        assert(ops_of(diff@) =~= ops_here + seq![
                            OpT::Add(p + seq![PathKeyT::Index(j as int)], tns[j as int]),
                        ]);
                        assert(ops_of(diff@) + prepend_path(p, diff_pos(tos, tns, j as int))
                            =~= ops0 + prepend_path(p, diff_pos(tos, tns, top as int)));
                    }
                } else if j >= ns.len() {
                    let mut ap = clone_path(path);
                    ap.push(PathKey::Index(j));
                    diff.push(Operation::Del(ap, deep_copy(&os[j])));
                    proof {
                        assert(path_of(ap@) =~= p + seq![PathKeyT::Index(j as int)]);
                        assert(prepend_path(
                            p,
                            seq![OpT::Del(seq![PathKeyT::Index(j as int)], tos[j as int])],
                        ) =~= seq![
                            OpT::Del(p + seq![PathKeyT::Index(j as int)], tos[j as int]),
                        ]);
                        lemma_prepend_path_concat(
                            p,
                            seq![OpT::Del(seq![PathKeyT::Index(j as int)], tos[j as int])],
                            diff_pos(tos, tns, j as int),
                        );
                        assert(ops_of(diff@) =~= ops_here + seq![
                            OpT::Del(p + seq![PathKeyT::Index(j as int)], tos[j as int]),
                        ]);
                        assert(ops_of(diff@) + prepend_path(p, diff_pos(tos, tns, j as int))
                            =~= ops0 + prepend_path(p, diff_pos(tos, tns, top as int)));
                    }
                } else {
                    path.push(PathKey::Index(j));
                    proof {
                        assert(path_of(path@) =~= p.push(PathKeyT::Index(j as int)));
                    }
                    Data::recurse_diff(&os[j], &ns[j], path, diff);
                    let ghost full = path@;
                    path.pop();
                    proof {
                        lemma_path_of_drop_last(full, p, PathKeyT::Index(j as int));
                        assert(path@ == full.drop_last());
                        assert(path_of(path@) == p);
                        lemma_prepend_path_push(
                            p,
                            PathKeyT::Index(j as int),
                            spec_diff(tos[j as int], tns[j as int]),
                        );
                        lemma_prepend_path_concat(
                            p,
                            prepend(
                                PathKeyT::Index(j as int),
                                spec_diff(tos[j as int], tns[j as int]),
                            ),
                            diff_pos(tos, tns, j as int),
                        );
                        assert(ops_of(diff@) + prepend_path(p, diff_pos(tos, tns, j as int))
                            =~= ops0 + prepend_path(p, diff_pos(tos, tns, top as int)));
                    }
                }
                i = j;
            }
            proof {
                assert(prepend_path(p, diff_pos(tos, tns, 0)) =~= Seq::<OpT>::empty());
                assert(ops_of(diff@) =~= ops0 + prepend_path(p, diff_pos(tos, tns, top as int)));
            }
        }
    }

    /// Captures the difference between `old` and `new` as an ordered
    /// operation list; capture itself always succeeds.
    pub fn diff(old: &Value, new: &Value) -> (r: Result<Vec<Operation>, ApplyError>)
        ensures
            r matches Ok(ops) && ops_of(ops@) == spec_diff(old@, new@),
    {
        let mut path: Vec<PathKey> = Vec::new();
        let mut out: Vec<Operation> = Vec::new();
        Data::recurse_diff(old, new, &mut path, &mut out);
        proof {
            assert(path_of(Seq::<PathKey>::empty()) =~= Seq::<PathKeyT>::empty());
            assert(ops_of(Seq::<Operation>::empty()) =~= Seq::<OpT>::empty());
            lemma_prepend_path_empty(spec_diff(old@, new@));
            assert(ops_of(out@) =~= spec_diff(old@, new@));
        }
        Ok(out)
    }
}


/// The elements that [`spec_diff`] passes over without diffing them: in
/// a sequence pair diffed by identity, the elements of either side that
/// carry no identity. This is the reportable condition of the failure
/// semantics: the rest of the pair still diffs, and a caller that wants
/// to surface the condition reads it off here. Elements of the new side
/// come first, in order, then those of the old side, as the walk meets
/// them.
pub open spec fn spec_unnamed(old: Tree, new: Tree) -> Seq<Tree>
    decreases old, new, 1int,
{
    if !same_variant(old, new) {
        Seq::empty()
    } else if equiv(old, new) {
        Seq::empty()
    } else {
        match old {
            Tree::Mapping(om) => unnamed_entries(om, new->Mapping_0),
            Tree::Sequence(os) => {
                let ns = new->Sequence_0;
                if seqs_named(os, ns) {
                    unnamed_news(os, ns) + unnamed_dels(os, ns)
                } else {
                    unnamed_pos(os, ns, 0)
                }
            },
            _ => Seq::empty(),
        }
    }
}

/// The passed-over elements below the entries of `nm` that `om` shares.
pub open spec fn unnamed_entries(om: Seq<(Tree, Tree)>, nm: Seq<(Tree, Tree)>) -> Seq<Tree>
    decreases om, nm, 0int,
{
    if nm.len() == 0 {
        Seq::empty()
    } else if has_key(om, nm[0].0) {
        proof {
            lemma_key_idx_char(om, nm[0].0);
        }
        spec_unnamed(map_get(om, nm[0].0), nm[0].1) + unnamed_entries(om, nm.drop_first())
    } else {
        unnamed_entries(om, nm.drop_first())
    }
}

/// The passed-over elements met while walking the new side of a named
/// sequence pair: the identity-less elements of `ns` themselves, and
/// whatever lies below the matched pairs.
pub open spec fn unnamed_news(os: Seq<Tree>, ns: Seq<Tree>) -> Seq<Tree>
    decreases os, ns, 0int,
{
    if ns.len() == 0 {
        Seq::empty()
    } else {
        match identity_of(ns[0]) {
            Option::Some(n) => if has_ident(os, n) {
                proof {
                    lemma_seq_ident_idx_char(os, n);
                }
                spec_unnamed(os[seq_ident_idx(os, n)], ns[0]) + unnamed_news(os, ns.drop_first())
            } else {
                unnamed_news(os, ns.drop_first())
            },
            Option::None => seq![ns[0]] + unnamed_news(os, ns.drop_first()),
        }
    }
}

/// The identity-less elements of the old side of a named sequence pair.
pub open spec fn unnamed_dels(os: Seq<Tree>, ns: Seq<Tree>) -> Seq<Tree>
    decreases os.len(),
{
    if os.len() == 0 {
        Seq::empty()
    } else {
        match identity_of(os[0]) {
            Option::Some(n) => unnamed_dels(os.drop_first(), ns),
            Option::None => seq![os[0]] + unnamed_dels(os.drop_first(), ns),
        }
    }
}

/// The passed-over elements below the shared positions of a positional
/// sequence pair, from position `x` on.
pub open spec fn unnamed_pos(os: Seq<Tree>, ns: Seq<Tree>, x: int) -> Seq<Tree>
    decreases os, ns, (if os.len() <= ns.len() {
        os.len() as int
    } else {
        ns.len() as int
    }) - x,
{
    let m = if os.len() <= ns.len() {
        os.len() as int
    } else {
        ns.len() as int
    };
    if x < 0 || x >= m {
        Seq::empty()
    } else {
        spec_unnamed(os[x], ns[x]) + unnamed_pos(os, ns, x + 1)
    }
}

impl Data {
    /// The collecting walk behind [`Data::unnamed`].
    #[verifier::loop_isolation(false)]
    #[verifier::rlimit(100)]
    fn recurse_unnamed(before: &Value, after: &Value, out: &mut Vec<Value>)
        ensures
            trees_of(final(out)@) == trees_of(old(out)@) + spec_unnamed(before@, after@),
        decreases *before,
    {
        proof {
            lemma_tree_of_variant(*before);
            lemma_tree_of_variant(*after);
        }
        let ghost out0 = trees_of(out@);
        if !crate::mode::merge::Data::variant_eq(before, after) {
            proof {
                assert(trees_of(out@) =~= out0 + spec_unnamed(before@, after@));
            }
            return;
        }
        if value_eq(before, after) {
            proof {
                assert(trees_of(out@) =~= out0 + spec_unnamed(before@, after@));
            }
            return;
        }
        match (before, after) {
            (Value::Mapping(om), Value::Mapping(nm)) => {
                let ghost ets_om = entry_trees_of(om@);
                let ghost ets_nm = entry_trees_of(nm@);
                let nlen = nm.len();
                let mut j: usize = 0;
                proof {
                    assert(ets_nm.skip(0) =~= ets_nm);
                }
                while j < nlen
                    invariant
                        nlen == nm@.len(),
                        j <= nlen,
                        trees_of(out@) + unnamed_entries(ets_om, ets_nm.skip(j as int)) == out0
                            + unnamed_entries(ets_om, ets_nm),
                    decreases nlen - j,
                {
                    proof {
                        assert(ets_nm.skip(j as int)[0] == ets_nm[j as int]);
                        assert(ets_nm.skip(j as int).drop_first() =~= ets_nm.skip(j as int + 1));
                    }
                    match find_key(om, &nm[j].0) {
                        Some(i) => {
                            proof {
                                lemma_key_idx_char(ets_om, ets_nm[j as int].0);
                            }
                            Data::recurse_unnamed(&om[i].1, &nm[j].1, out);
                        },
                        None => {},
                    }
                    j += 1;
                }
                proof {
                    assert(ets_nm.skip(nlen as int) =~= Seq::<(Tree, Tree)>::empty());
                    assert(trees_of(out@) =~= out0 + spec_unnamed(before@, after@));
                }
            },
            (Value::Sequence(osv), Value::Sequence(nsv)) => {
                let ghost tos = trees_of(osv@);
                let ghost tns = trees_of(nsv@);
                let mut named = false;
                if osv.len() > 0 {
                    named = match identity(&osv[0]) {
                        Some(_) => true,
                        None => false,
                    };
                }
                if !named && nsv.len() > 0 {
                    named = match identity(&nsv[0]) {
                        Some(_) => true,
                        None => false,
                    };
                }
                proof {
                    assert(named == seqs_named(tos, tns));
                }
                if named {
                    let nlen = nsv.len();
                    let mut j: usize = 0;
                    proof {
                        assert(tns.skip(0) =~= tns);
                    }
                    while j < nlen
                        invariant
                            nlen == nsv@.len(),
                            j <= nlen,
                            trees_of(out@) + unnamed_news(tos, tns.skip(j as int)) == out0
                                + unnamed_news(tos, tns),
                        decreases nlen - j,
                    {
                        proof {
                            assert(tns.skip(j as int)[0] == tns[j as int]);
                            assert(tns.skip(j as int).drop_first() =~= tns.skip(j as int + 1));
                        }
                        match identity(&nsv[j]) {
                            Some(name) => {
                                match find_by_identity(osv, name) {
                                    Some(i) => {
                                        proof {
                                            lemma_seq_ident_idx_char(tos, name@);
                                        }
                                        Data::recurse_unnamed(&osv[i], &nsv[j], out);
                                    },
                                    None => {},
                                }
                            },
                            None => {
                                out.push(deep_copy(&nsv[j]));
                            },
                        }
                        j += 1;
                    }
                    proof {
                        assert(tns.skip(nlen as int) =~= Seq::<Tree>::empty());
                        assert(trees_of(out@) =~= out0 + unnamed_news(tos, tns));
                    }
                    let ghost out1 = trees_of(out@);
                    let olen = osv.len();
                    let mut i: usize = 0;
                    proof {
                        assert(tos.skip(0) =~= tos);
                    }
                    while i < olen
                        invariant
                            olen == osv@.len(),
                            i <= olen,
                            trees_of(out@) + unnamed_dels(tos.skip(i as int), tns) == out1
                                + unnamed_dels(tos, tns),
                        decreases olen - i,
                    {
                        proof {
                            assert(tos.skip(i as int)[0] == tos[i as int]);
                            assert(tos.skip(i as int).drop_first() =~= tos.skip(i as int + 1));
                        }
                        match identity(&osv[i]) {
                            Some(_) => {},
                            None => {
                                out.push(deep_copy(&osv[i]));
                            },
                        }
                        i += 1;
                    }
                    proof {
                        assert(tos.skip(olen as int) =~= Seq::<Tree>::empty());
                        assert(trees_of(out@) =~= out0 + (unnamed_news(tos, tns) + unnamed_dels(
                            tos,
                            tns,
                        )));
                        assert(trees_of(out@) =~= out0 + spec_unnamed(before@, after@));
                    }
                } else {
                    let m = if osv.len() <= nsv.len() {
                        osv.len()
                    } else {
                        nsv.len()
                    };
                    let mut x: usize = 0;
                    while x < m
                        invariant
                            m == (if osv@.len() <= nsv@.len() {
                                osv@.len()
                            } else {
                                nsv@.len()
                            }),
                            x <= m,
                            trees_of(out@) + unnamed_pos(tos, tns, x as int) == out0
                                + unnamed_pos(tos, tns, 0),
                        decreases m - x,
                    {
                        Data::recurse_unnamed(&osv[x], &nsv[x], out);
                        x += 1;
                    }
                    proof {
                        assert(unnamed_pos(tos, tns, m as int) =~= Seq::<Tree>::empty());
                        assert(trees_of(out@) =~= out0 + spec_unnamed(before@, after@));
                    }
                }
            },
            _ => {
                proof {
                    assert(trees_of(out@) =~= out0 + spec_unnamed(before@, after@));
                }
            },
        }
    }

    /// The elements the diff walk passes over for this pair of trees:
    /// elements without an identity met in sequence pairs diffed by
    /// identity, new side first. An empty result means the capture left
    /// nothing unaddressed; a caller that wants the original's log line
    /// per passed-over element reads them off here.
    pub fn unnamed(old: &Value, new: &Value) -> (r: Vec<Value>)
        ensures
            trees_of(r@) == spec_unnamed(old@, new@),
    {
        let mut out: Vec<Value> = Vec::new();
        proof {
            assert(trees_of(Seq::<Value>::empty()) =~= Seq::<Tree>::empty());
        }
        Data::recurse_unnamed(old, new, &mut out);
        proof {
            assert(trees_of(out@) =~= spec_unnamed(old@, new@));
        }
        out
    }

    /// Captures the difference between `old` and `new` together with the
    /// report of what the walk passed over.
    pub fn diff_reported(old: &Value, new: &Value) -> (r: Result<
        (Vec<Operation>, Vec<Value>),
        ApplyError,
    >)
        ensures
            r matches Ok(p) && ops_of(p.0@) == spec_diff(old@, new@) && trees_of(p.1@)
                == spec_unnamed(old@, new@),
    {
        match Data::diff(old, new) {
            Ok(ops) => Ok((ops, Data::unnamed(old, new))),
            Err(e) => Err(e),
        }
    }
}

/// Why a replay failed: the operation that failed, how many path steps
/// were resolved before the failure, and the path step that could not be
/// resolved, when the operation had one.
#[derive(Debug)]
pub struct ApplyError {
    pub op_index: usize,
    pub depth: usize,
    pub segment: Option<PathKey>,
}

/// A failed path resolution at the model level: how many steps resolved
/// before the failure, and the step that could not be resolved, when the
/// operation had one.
pub struct ErrT {
    pub depth: int,
    pub segment: Option<PathKeyT>,
}

/// The same failure, one resolved step deeper.
pub open spec fn deeper(e: ErrT) -> ErrT {
    ErrT { depth: e.depth + 1, segment: e.segment }
}

/// Every element of `s` has an identity.
pub open spec fn all_idents(s: Seq<Tree>) -> bool
    decreases s.len(),
{
    if s.len() == 0 {
        true
    } else {
        identity_of(s[0]) is Some && all_idents(s.drop_first())
    }
}

/// [`all_idents`] read pointwise.
pub proof fn lemma_all_idents_char(s: Seq<Tree>)
    ensures
        all_idents(s) <==> forall|i: int| 0 <= i < s.len() ==> identity_of(#[trigger] s[i]) is Some,
    decreases s.len(),
{
    if s.len() > 0 {
        lemma_all_idents_char(s.drop_first());
        if all_idents(s) {
            assert forall|i: int| 0 <= i < s.len() implies identity_of(#[trigger] s[i]) is Some by {
                if i > 0 {
                    assert(identity_of(s.drop_first()[i - 1]) is Some);
                }
            }
        } else {
            if identity_of(s[0]) is Some && (forall|i: int|
                0 <= i < s.len() ==> identity_of(#[trigger] s[i]) is Some) {
                assert forall|i: int| 0 <= i < s.drop_first().len() implies identity_of(
                    #[trigger] s.drop_first()[i],
                ) is Some by {
                    assert(identity_of(s[i + 1]) is Some);
                }
            }
        }
    }
}

/// The elements of `s` whose identity is not `n`, in order.
pub open spec fn retain_ident(s: Seq<Tree>, n: Seq<char>) -> Seq<Tree>
    decreases s.len(),
{
    if s.len() == 0 {
        Seq::empty()
    } else if identity_of(s[0]) == Option::Some(n) {
        retain_ident(s.drop_first(), n)
    } else {
        seq![s[0]] + retain_ident(s.drop_first(), n)
    }
}

/// What the path navigator does for a write: walk `path` into `t`,
/// creating missing structure on the way, and put `v` at the location the
/// path ends at. A `Key` step descends into the mapping entry with that
/// key, creating it (and turning a null into a mapping) when absent; an
/// `Index` step descends into that position, extending the sequence with
/// nulls when the position is beyond its length; a `NameIndex` step
/// descends into the first element of that identity, appending a fresh
/// element when there is none. A step that meets a node of the wrong
/// shape fails, naming the step.
pub open spec fn spec_set(t: Tree, path: Seq<PathKeyT>, v: Tree) -> Result<Tree, ErrT>
    decreases path.len(),
{
    if path.len() == 0 {
        Result::Ok(v)
    } else {
        match path[0] {
            PathKeyT::Key(k) => match t {
                Tree::Mapping(es) => if has_key(es, k) {
                    match spec_set(es[key_idx(es, k)].1, path.drop_first(), v) {
                        Result::Ok(sub) => Result::Ok(
                            Tree::Mapping(es.update(key_idx(es, k), (es[key_idx(es, k)].0, sub))),
                        ),
                        Result::Err(e) => Result::Err(deeper(e)),
                    }
                } else {
                    match spec_set(Tree::Null, path.drop_first(), v) {
                        Result::Ok(sub) => Result::Ok(Tree::Mapping(es.push((k, sub)))),
                        Result::Err(e) => Result::Err(deeper(e)),
                    }
                },
                Tree::Null => match spec_set(Tree::Null, path.drop_first(), v) {
                    Result::Ok(sub) => Result::Ok(Tree::Mapping(seq![(k, sub)])),
                    Result::Err(e) => Result::Err(deeper(e)),
                },
                _ => Result::Err(ErrT { depth: 0, segment: Option::Some(path[0]) }),
            },
            PathKeyT::Index(i) => match t {
                Tree::Sequence(s) => if 0 <= i < s.len() {
                    match spec_set(s[i], path.drop_first(), v) {
                        Result::Ok(sub) => Result::Ok(Tree::Sequence(s.update(i, sub))),
                        Result::Err(e) => Result::Err(deeper(e)),
                    }
                } else if i >= s.len() {
                    match spec_set(Tree::Null, path.drop_first(), v) {
                        Result::Ok(sub) => Result::Ok(
                            Tree::Sequence(
                                s + Seq::new((i - s.len()) as nat, |x: int| Tree::Null) + seq![sub],
                            ),
                        ),
                        Result::Err(e) => Result::Err(deeper(e)),
                    }
                } else {
                    Result::Err(ErrT { depth: 0, segment: Option::Some(path[0]) })
                },
                _ => Result::Err(ErrT { depth: 0, segment: Option::Some(path[0]) }),
            },
            PathKeyT::NameIndex(n) => match t {
                Tree::Sequence(s) => if has_ident(s, n) {
                    match spec_set(s[seq_ident_idx(s, n)], path.drop_first(), v) {
                        Result::Ok(sub) => Result::Ok(
                            Tree::Sequence(s.update(seq_ident_idx(s, n), sub)),
                        ),
                        Result::Err(e) => Result::Err(deeper(e)),
                    }
                } else {
                    match spec_set(Tree::Mapping(Seq::empty()), path.drop_first(), v) {
                        Result::Ok(sub) => Result::Ok(Tree::Sequence(s.push(sub))),
                        Result::Err(e) => Result::Err(deeper(e)),
                    }
                },
                _ => Result::Err(ErrT { depth: 0, segment: Option::Some(path[0]) }),
            },
        }
    }
}

/// What the path navigator does for a deletion: walk all but the last
/// step of `path` into `t` as [`spec_set`] does, then take the last step
/// out of the node reached: a `Key` removes that mapping entry, an
/// `Index` removes that position, a `NameIndex` removes every element of
/// that identity, and each is a harmless no-op when the entry, position
/// or identity is already absent. Deleting by identity from a sequence in
/// which some element has no identity fails rather than guessing; an
/// empty path names no location and fails.
pub open spec fn spec_remove(t: Tree, path: Seq<PathKeyT>) -> Result<Tree, ErrT>
    decreases path.len(),
{
    if path.len() == 0 {
        Result::Err(ErrT { depth: 0, segment: Option::None })
    } else if path.len() == 1 {
        match path[0] {
            PathKeyT::Key(k) => match t {
                Tree::Mapping(es) => if has_key(es, k) {
                    Result::Ok(Tree::Mapping(es.remove(key_idx(es, k))))
                } else {
                    Result::Ok(t)
                },
                _ => Result::Err(ErrT { depth: 0, segment: Option::Some(path[0]) }),
            },
            PathKeyT::Index(i) => match t {
                Tree::Sequence(s) => if 0 <= i < s.len() {
                    Result::Ok(Tree::Sequence(s.remove(i)))
                } else {
                    Result::Ok(t)
                },
                _ => Result::Err(ErrT { depth: 0, segment: Option::Some(path[0]) }),
            },
            PathKeyT::NameIndex(n) => match t {
                Tree::Sequence(s) => if all_idents(s) {
                    Result::Ok(Tree::Sequence(retain_ident(s, n)))
                } else {
                    Result::Err(ErrT { depth: 0, segment: Option::Some(path[0]) })
                },
                _ => Result::Err(ErrT { depth: 0, segment: Option::Some(path[0]) }),
            },
        }
    } else {
        match path[0] {
            PathKeyT::Key(k) => match t {
                Tree::Mapping(es) => if has_key(es, k) {
                    match spec_remove(es[key_idx(es, k)].1, path.drop_first()) {
                        Result::Ok(sub) => Result::Ok(
                            Tree::Mapping(es.update(key_idx(es, k), (es[key_idx(es, k)].0, sub))),
                        ),
                        Result::Err(e) => Result::Err(deeper(e)),
                    }
                } else {
                    match spec_remove(Tree::Null, path.drop_first()) {
                        Result::Ok(sub) => Result::Ok(Tree::Mapping(es.push((k, sub)))),
                        Result::Err(e) => Result::Err(deeper(e)),
                    }
                },
                Tree::Null => match spec_remove(Tree::Null, path.drop_first()) {
                    Result::Ok(sub) => Result::Ok(Tree::Mapping(seq![(k, sub)])),
                    Result::Err(e) => Result::Err(deeper(e)),
                },
                _ => Result::Err(ErrT { depth: 0, segment: Option::Some(path[0]) }),
            },
            PathKeyT::Index(i) => match t {
                Tree::Sequence(s) => if 0 <= i < s.len() {
                    match spec_remove(s[i], path.drop_first()) {
                        Result::Ok(sub) => Result::Ok(Tree::Sequence(s.update(i, sub))),
                        Result::Err(e) => Result::Err(deeper(e)),
                    }
                } else {
                    Result::Err(ErrT { depth: 0, segment: Option::Some(path[0]) })
                },
                _ => Result::Err(ErrT { depth: 0, segment: Option::Some(path[0]) }),
            },
            PathKeyT::NameIndex(n) => match t {
                Tree::Sequence(s) => if has_ident(s, n) {
                    match spec_remove(s[seq_ident_idx(s, n)], path.drop_first()) {
                        Result::Ok(sub) => Result::Ok(
                            Tree::Sequence(s.update(seq_ident_idx(s, n), sub)),
                        ),
                        Result::Err(e) => Result::Err(deeper(e)),
                    }
                } else {
                    match spec_remove(Tree::Mapping(Seq::empty()), path.drop_first()) {
                        Result::Ok(sub) => Result::Ok(Tree::Sequence(s.push(sub))),
                        Result::Err(e) => Result::Err(deeper(e)),
                    }
                },
                _ => Result::Err(ErrT { depth: 0, segment: Option::Some(path[0]) }),
            },
        }
    }
}

/// The same replay outcome with the failing operation's position moved
/// `n` places later.
pub open spec fn shift_err(n: int, r: Result<Tree, (int, ErrT)>) -> Result<Tree, (int, ErrT)> {
    match r {
        Result::Ok(t) => Result::Ok(t),
        Result::Err((i, e)) => Result::Err((i + n, e)),
    }
}

/// What [`Data::apply`] computes: the operations replayed in list order,
/// `Add` and `Mod` each writing their subtree at their path and `Del`
/// removing its path's last step, stopping at the first operation whose
/// path cannot be resolved.
pub open spec fn spec_apply(t: Tree, ops: Seq<OpT>) -> Result<Tree, (int, ErrT)>
    decreases ops.len(),
{
    if ops.len() == 0 {
        Result::Ok(t)
    } else {
        let step = match ops[0] {
            OpT::Add(p, v) => spec_set(t, p, v),
            OpT::Mod(p, v) => spec_set(t, p, v),
            OpT::Del(p, v) => spec_remove(t, p),
        };
        match step {
            Result::Ok(t2) => shift_err(1, spec_apply(t2, ops.drop_first())),
            Result::Err(e) => Result::Err((0, e)),
        }
    }
}


/// A failed path resolution while replaying one operation: how many
/// steps resolved before the failure, and the step that could not be.
struct SeekErr {
    depth: usize,
    segment: PathKey,
}

impl Data {
    /// Walks `path` from its `at`-th step into `t`, creating missing
    /// structure on the way, and writes `v` at the location the path ends
    /// at, as [`spec_set`] describes.
    #[verifier::loop_isolation(false)]
    fn set_at(t: Value, path: &Vec<PathKey>, at: usize, v: Value) -> (r: Result<Value, SeekErr>)
        requires
            at <= path@.len(),
        ensures
            match r {
                Ok(out) => spec_set(t@, path_of(path@).skip(at as int), v@) == Result::<
                    Tree,
                    ErrT,
                >::Ok(out@),
                Err(e) => ({
                    &&& spec_set(t@, path_of(path@).skip(at as int), v@) matches Result::Err(et)
                        && et.depth == e.depth && et.segment == Option::Some(e.segment@)
                    &&& at + e.depth < path@.len()
                }),
            },
        decreases path@.len() - at,
    {
        let ghost t0 = t@;
        let ghost sp = path_of(path@).skip(at as int);
        if at == path.len() {
            proof {
                assert(sp.len() == 0);
            }
            return Ok(v);
        }
        proof {
            lemma_tree_of_variant(t);
            assert(sp[0] == path_of(path@)[at as int]);
            assert(sp[0] == path@[at as int]@);
            assert(sp.drop_first() =~= path_of(path@).skip(at as int + 1));
        }
        match &path[at] {
            PathKey::Key(k) => {
                match t {
                    Value::Mapping(mut es) => {
                        let ghost es0 = es@;
                        match find_key(&es, k) {
                            Some(i) => {
                                proof {
                                    lemma_key_idx_char(entry_trees_of(es0), k@);
                                }
                                let entry = es.remove(i);
                                match Data::set_at(entry.1, path, at + 1, v) {
                                    Ok(sub) => {
                                        es.insert(i, (entry.0, sub));
                                        let outv = Value::Mapping(es);
                                        proof {
                                            let esf = outv.arrow_Mapping_0()@;
                                            assert(esf =~= es0.update(
                                                i as int,
                                                (entry.0, esf[i as int].1),
                                            ));
                                            crate::model::lemma_entry_trees_of_update(
                                                es0,
                                                i as int,
                                                (entry.0, esf[i as int].1),
                                            );
                                            assert(esf[i as int].1 == sub);
                                            assert(tree_of(entry.0) == entry_trees_of(
                                                es0,
                                            )[i as int].0);
                                            assert(spec_set(t0, sp, v@) == Result::<
                                                Tree,
                                                ErrT,
                                            >::Ok(outv@));
                                        }
                                        Ok(outv)
                                    },
                                    Err(e) => Err(
                                        SeekErr { depth: e.depth + 1, segment: e.segment },
                                    ),
                                }
                            },
                            None => {
                                match Data::set_at(Value::Null, path, at + 1, v) {
                                    Ok(sub) => {
                                        es.push((deep_copy(k), sub));
                                        let outv = Value::Mapping(es);
                                        proof {
                                            assert(entry_trees_of(outv.arrow_Mapping_0()@)
                                                =~= entry_trees_of(es0).push((k@, sub@)));
                                            assert(spec_set(t0, sp, v@) == Result::<
                                                Tree,
                                                ErrT,
                                            >::Ok(outv@));
                                        }
                                        Ok(outv)
                                    },
                                    Err(e) => Err(
                                        SeekErr { depth: e.depth + 1, segment: e.segment },
                                    ),
                                }
                            },
                        }
                    },
                    Value::Null => {
                        match Data::set_at(Value::Null, path, at + 1, v) {
                            Ok(sub) => {
                                let mut es: Vec<(Value, Value)> = Vec::new();
                                es.push((deep_copy(k), sub));
                                let outv = Value::Mapping(es);
                                proof {
                                    assert(entry_trees_of(Seq::<(Value, Value)>::empty())
                                        =~= Seq::<(Tree, Tree)>::empty());
                                    assert(entry_trees_of(outv.arrow_Mapping_0()@) =~= seq![
                                        (k@, sub@),
                                    ]);
                                    assert(spec_set(t0, sp, v@) == Result::<Tree, ErrT>::Ok(
                                        outv@,
                                    ));
                                }
                                Ok(outv)
                            },
                            Err(e) => Err(SeekErr { depth: e.depth + 1, segment: e.segment }),
                        }
                    },
                    _ => Err(SeekErr { depth: 0, segment: clone_path_key(&path[at]) }),
                }
            },
            PathKey::Index(ix) => {
                let idx = *ix;
                match t {
                    Value::Sequence(mut s) => {
                        let ghost s0 = s@;
                        if idx < s.len() {
                            let el = s.remove(idx);
                            match Data::set_at(el, path, at + 1, v) {
                                Ok(sub) => {
                                    s.insert(idx, sub);
                                    let outv = Value::Sequence(s);
                                    proof {
                                        let sf = outv.arrow_Sequence_0()@;
                                        assert(sf =~= s0.update(idx as int, sf[idx as int]));
                                        crate::model::lemma_trees_of_update(
                                            s0,
                                            idx as int,
                                            sf[idx as int],
                                        );
                                        assert(sf[idx as int] == sub);
                                        assert(spec_set(t0, sp, v@) == Result::<Tree, ErrT>::Ok(
                                            outv@,
                                        ));
                                    }
                                    Ok(outv)
                                },
                                Err(e) => Err(SeekErr { depth: e.depth + 1, segment: e.segment }),
                            }
                        } else {
                            match Data::set_at(Value::Null, path, at + 1, v) {
                                Ok(sub) => {
                                    let ghost len0 = s0.len();
                                    while s.len() < idx
                                        invariant
                                            len0 <= s@.len() <= idx,
                                            trees_of(s@) == trees_of(s0) + Seq::new(
                                                (s@.len() - len0) as nat,
                                                |x: int| Tree::Null,
                                            ),
                                        decreases idx - s.len(),
                                    {
                                        s.push(Value::Null);
                                        proof {
                                            assert(trees_of(s@) =~= trees_of(s0) + Seq::new(
                                                (s@.len() - len0) as nat,
                                                |x: int| Tree::Null,
                                            ));
                                        }
                                    }
                                    s.push(sub);
                                    let outv = Value::Sequence(s);
                                    proof {
                                        let sf = outv.arrow_Sequence_0()@;
                                        assert(trees_of(sf) =~= trees_of(s0) + Seq::new(
                                            (idx - len0) as nat,
                                            |x: int| Tree::Null,
                                        ) + seq![sub@]);
                                        assert(spec_set(t0, sp, v@) == Result::<Tree, ErrT>::Ok(
                                            outv@,
                                        ));
                                    }
                                    Ok(outv)
                                },
                                Err(e) => Err(SeekErr { depth: e.depth + 1, segment: e.segment }),
                            }
                        }
                    },
                    _ => Err(SeekErr { depth: 0, segment: clone_path_key(&path[at]) }),
                }
            },
            PathKey::NameIndex(n) => {
                match t {
                    Value::Sequence(mut s) => {
                        let ghost s0 = s@;
                        match find_by_identity(&s, n) {
                            Some(j) => {
                                proof {
                                    lemma_seq_ident_idx_char(trees_of(s0), n@);
                                }
                                let el = s.remove(j);
                                match Data::set_at(el, path, at + 1, v) {
                                    Ok(sub) => {
                                        s.insert(j, sub);
                                        let outv = Value::Sequence(s);
                                        proof {
                                            let sf = outv.arrow_Sequence_0()@;
                                            assert(sf =~= s0.update(j as int, sf[j as int]));
                                            crate::model::lemma_trees_of_update(
                                                s0,
                                                j as int,
                                                sf[j as int],
                                            );
                                            assert(sf[j as int] == sub);
                                            assert(spec_set(t0, sp, v@) == Result::<
                                                Tree,
                                                ErrT,
                                            >::Ok(outv@));
                                        }
                                        Ok(outv)
                                    },
                                    Err(e) => Err(
                                        SeekErr { depth: e.depth + 1, segment: e.segment },
                                    ),
                                }
                            },
                            None => {
                                let fresh: Vec<(Value, Value)> = Vec::new();
                                match Data::set_at(Value::Mapping(fresh), path, at + 1, v) {
                                    Ok(sub) => {
                                        s.push(sub);
                                        let outv = Value::Sequence(s);
                                        proof {
                                            assert(entry_trees_of(Seq::<(Value, Value)>::empty())
                                                =~= Seq::<(Tree, Tree)>::empty());
                                            assert(trees_of(outv.arrow_Sequence_0()@)
                                                =~= trees_of(s0).push(sub@));
                                            assert(spec_set(t0, sp, v@) == Result::<
                                                Tree,
                                                ErrT,
                                            >::Ok(outv@));
                                        }
                                        Ok(outv)
                                    },
                                    Err(e) => Err(
                                        SeekErr { depth: e.depth + 1, segment: e.segment },
                                    ),
                                }
                            },
                        }
                    },
                    _ => Err(SeekErr { depth: 0, segment: clone_path_key(&path[at]) }),
                }
            },
        }
    }

    /// Walks all but the last step of `path` from its `at`-th step into
    /// `t`, then takes the last step out of the node reached, as
    /// [`spec_remove`] describes.
    #[verifier::loop_isolation(false)]
    #[verifier::rlimit(100)]
    fn remove_at(t: Value, path: &Vec<PathKey>, at: usize) -> (r: Result<Value, SeekErr>)
        requires
            at < path@.len(),
        ensures
            match r {
                Ok(out) => spec_remove(t@, path_of(path@).skip(at as int)) == Result::<
                    Tree,
                    ErrT,
                >::Ok(out@),
                Err(e) => ({
                    &&& spec_remove(t@, path_of(path@).skip(at as int)) matches Result::Err(et)
                        && et.depth == e.depth && et.segment == Option::Some(e.segment@)
                    &&& at + e.depth < path@.len()
                }),
            },
        decreases path@.len() - at,
    {
        let ghost t0 = t@;
        let ghost sp = path_of(path@).skip(at as int);
        let plen = path.len();
        proof {
            lemma_tree_of_variant(t);
            assert(sp[0] == path_of(path@)[at as int]);
            assert(sp[0] == path@[at as int]@);
            assert(sp.drop_first() =~= path_of(path@).skip(at as int + 1));
        }
        if at + 1 == plen {
            proof {
                assert(sp.len() == 1);
            }
            match &path[at] {
                PathKey::Key(k) => {
                    match t {
                        Value::Mapping(mut es) => {
                            let ghost es0 = es@;
                            match find_key(&es, k) {
                                Some(i) => {
                                    proof {
                                        lemma_key_idx_char(entry_trees_of(es0), k@);
                                    }
                                    es.remove(i);
                                    let outv = Value::Mapping(es);
                                    proof {
                                        crate::model::lemma_entry_trees_of_remove(es0, i as int);
                                        assert(spec_remove(t0, sp) == Result::<Tree, ErrT>::Ok(
                                            outv@,
                                        ));
                                    }
                                    Ok(outv)
                                },
                                None => {
                                    let outv = Value::Mapping(es);
                                    proof {
                                        assert(outv@ == t0);
                                        assert(spec_remove(t0, sp) == Result::<Tree, ErrT>::Ok(
                                            outv@,
                                        ));
                                    }
                                    Ok(outv)
                                },
                            }
                        },
                        _ => Err(SeekErr { depth: 0, segment: clone_path_key(&path[at]) }),
                    }
                },
                PathKey::Index(ix) => {
                    let idx = *ix;
                    match t {
                        Value::Sequence(mut s) => {
                            let ghost s0 = s@;
                            if idx < s.len() {
                                s.remove(idx);
                                let outv = Value::Sequence(s);
                                proof {
                                    crate::model::lemma_trees_of_remove(s0, idx as int);
                                    assert(spec_remove(t0, sp) == Result::<Tree, ErrT>::Ok(
                                        outv@,
                                    ));
                                }
                                Ok(outv)
                            } else {
                                let outv = Value::Sequence(s);
                                proof {
                                    assert(outv@ == t0);
                                    assert(spec_remove(t0, sp) == Result::<Tree, ErrT>::Ok(
                                        outv@,
                                    ));
                                }
                                Ok(outv)
                            }
                        },
                        _ => Err(SeekErr { depth: 0, segment: clone_path_key(&path[at]) }),
                    }
                },
                PathKey::NameIndex(n) => {
                    match t {
                        Value::Sequence(s) => {
                            let ghost ts = trees_of(s@);
                            let len = s.len();
                            let mut out: Vec<Value> = Vec::new();
                            let mut x: usize = 0;
                            proof {
                                assert(trees_of(out@) =~= Seq::<Tree>::empty());
                                assert(ts.skip(0) =~= ts);
                            }
                            while x < len
                                invariant
                                    x <= len,
                                    len == s@.len(),
                                    forall|j: int|
                                        0 <= j < x ==> identity_of(#[trigger] ts[j]) is Some,
                                    trees_of(out@) + retain_ident(ts.skip(x as int), n@)
                                        == retain_ident(ts, n@),
                                decreases len - x,
                            {
                                proof {
                                    assert(ts.skip(x as int)[0] == ts[x as int]);
                                    assert(ts.skip(x as int).drop_first() =~= ts.skip(
                                        x as int + 1,
                                    ));
                                }
                                match identity(&s[x]) {
                                    None => {
                                        proof {
                                            lemma_all_idents_char(ts);
                                        }
                                        return Err(
                                            SeekErr {
                                                depth: 0,
                                                segment: clone_path_key(&path[at]),
                                            },
                                        );
                                    },
                                    Some(nm) => {
                                        if !(*nm == *n) {
                                            out.push(deep_copy(&s[x]));
                                            proof {
                                                assert(trees_of(out@) + retain_ident(
                                                    ts.skip(x as int + 1),
                                                    n@,
                                                ) =~= retain_ident(ts, n@));
                                            }
                                        } else {
                                            proof {
                                                assert(trees_of(out@) + retain_ident(
                                                    ts.skip(x as int + 1),
                                                    n@,
                                                ) =~= retain_ident(ts, n@));
                                            }
                                        }
                                    },
                                }
                                x += 1;
                            }
                            let outv = Value::Sequence(out);
                            proof {
                                lemma_all_idents_char(ts);
                                assert(all_idents(ts));
                                assert(ts.skip(len as int) =~= Seq::<Tree>::empty());
                                assert(trees_of(outv.arrow_Sequence_0()@) =~= retain_ident(
                                    ts,
                                    n@,
                                ));
                                assert(spec_remove(t0, sp) == Result::<Tree, ErrT>::Ok(outv@));
                            }
                            Ok(outv)
                        },
                        _ => Err(SeekErr { depth: 0, segment: clone_path_key(&path[at]) }),
                    }
                },
            }
        } else {
            match &path[at] {
                PathKey::Key(k) => {
                    match t {
                        Value::Mapping(mut es) => {
                            let ghost es0 = es@;
                            match find_key(&es, k) {
                                Some(i) => {
                                    proof {
                                        lemma_key_idx_char(entry_trees_of(es0), k@);
                                    }
                                    let entry = es.remove(i);
                                    match Data::remove_at(entry.1, path, at + 1) {
                                        Ok(sub) => {
                                            es.insert(i, (entry.0, sub));
                                            let outv = Value::Mapping(es);
                                            proof {
                                                let esf = outv.arrow_Mapping_0()@;
                                                assert(esf =~= es0.update(
                                                    i as int,
                                                    (entry.0, esf[i as int].1),
                                                ));
                                                crate::model::lemma_entry_trees_of_update(
                                                    es0,
                                                    i as int,
                                                    (entry.0, esf[i as int].1),
                                                );
                                                assert(esf[i as int].1 == sub);
                                                assert(tree_of(entry.0) == entry_trees_of(
                                                    es0,
                                                )[i as int].0);
                                                assert(spec_remove(t0, sp) == Result::<
                                                    Tree,
                                                    ErrT,
                                                >::Ok(outv@));
                                            }
                                            Ok(outv)
                                        },
                                        Err(e) => Err(
                                            SeekErr { depth: e.depth + 1, segment: e.segment },
                                        ),
                                    }
                                },
                                None => {
                                    match Data::remove_at(Value::Null, path, at + 1) {
                                        Ok(sub) => {
                                            es.push((deep_copy(k), sub));
                                            let outv = Value::Mapping(es);
                                            proof {
                                                assert(entry_trees_of(outv.arrow_Mapping_0()@)
                                                    =~= entry_trees_of(es0).push((k@, sub@)));
                                                assert(spec_remove(t0, sp) == Result::<
                                                    Tree,
                                                    ErrT,
                                                >::Ok(outv@));
                                            }
                                            Ok(outv)
                                        },
                                        Err(e) => Err(
                                            SeekErr { depth: e.depth + 1, segment: e.segment },
                                        ),
                                    }
                                },
                            }
                        },
                        Value::Null => {
                            match Data::remove_at(Value::Null, path, at + 1) {
                                Ok(sub) => {
                                    let mut es: Vec<(Value, Value)> = Vec::new();
                                    es.push((deep_copy(k), sub));
                                    let outv = Value::Mapping(es);
                                    proof {
                                        assert(entry_trees_of(Seq::<(Value, Value)>::empty())
                                            =~= Seq::<(Tree, Tree)>::empty());
                                        assert(entry_trees_of(outv.arrow_Mapping_0()@) =~= seq![
                                            (k@, sub@),
                                        ]);
                                        assert(spec_remove(t0, sp) == Result::<Tree, ErrT>::Ok(
                                            outv@,
                                        ));
                                    }
                                    Ok(outv)
                                },
                                Err(e) => Err(SeekErr { depth: e.depth + 1, segment: e.segment }),
                            }
                        },
                        _ => Err(SeekErr { depth: 0, segment: clone_path_key(&path[at]) }),
                    }
                },
                PathKey::Index(ix) => {
                    let idx = *ix;
                    match t {
                        Value::Sequence(mut s) => {
                            let ghost s0 = s@;
                            if idx < s.len() {
                                let el = s.remove(idx);
                                match Data::remove_at(el, path, at + 1) {
                                    Ok(sub) => {
                                        s.insert(idx, sub);
                                        let outv = Value::Sequence(s);
                                        proof {
                                            let sf = outv.arrow_Sequence_0()@;
                                            assert(sf =~= s0.update(idx as int, sf[idx as int]));
                                            crate::model::lemma_trees_of_update(
                                                s0,
                                                idx as int,
                                                sf[idx as int],
                                            );
                                            assert(sf[idx as int] == sub);
                                            assert(spec_remove(t0, sp) == Result::<
                                                Tree,
                                                ErrT,
                                            >::Ok(outv@));
                                        }
                                        Ok(outv)
                                    },
                                    Err(e) => Err(
                                        SeekErr { depth: e.depth + 1, segment: e.segment },
                                    ),
                                }
                            } else {
                                Err(SeekErr { depth: 0, segment: clone_path_key(&path[at]) })
                            }
                        },
                        _ => Err(SeekErr { depth: 0, segment: clone_path_key(&path[at]) }),
                    }
                },
                PathKey::NameIndex(n) => {
                    match t {
                        Value::Sequence(mut s) => {
                            let ghost s0 = s@;
                            match find_by_identity(&s, n) {
                                Some(j) => {
                                    proof {
                                        lemma_seq_ident_idx_char(trees_of(s0), n@);
                                    }
                                    let el = s.remove(j);
                                    match Data::remove_at(el, path, at + 1) {
                                        Ok(sub) => {
                                            s.insert(j, sub);
                                            let outv = Value::Sequence(s);
                                            proof {
                                                let sf = outv.arrow_Sequence_0()@;
                                                assert(sf =~= s0.update(j as int, sf[j as int]));
                                                crate::model::lemma_trees_of_update(
                                                    s0,
                                                    j as int,
                                                    sf[j as int],
                                                );
                                                assert(sf[j as int] == sub);
                                                assert(spec_remove(t0, sp) == Result::<
                                                    Tree,
                                                    ErrT,
                                                >::Ok(outv@));
                                            }
                                            Ok(outv)
                                        },
                                        Err(e) => Err(
                                            SeekErr { depth: e.depth + 1, segment: e.segment },
                                        ),
                                    }
                                },
                                None => {
                                    let fresh: Vec<(Value, Value)> = Vec::new();
                                    match Data::remove_at(Value::Mapping(fresh), path, at + 1) {
                                        Ok(sub) => {
                                            s.push(sub);
                                            let outv = Value::Sequence(s);
                                            proof {
                                                assert(entry_trees_of(
                                                    Seq::<(Value, Value)>::empty(),
                                                ) =~= Seq::<(Tree, Tree)>::empty());
                                                assert(trees_of(outv.arrow_Sequence_0()@)
                                                    =~= trees_of(s0).push(sub@));
                                                assert(spec_remove(t0, sp) == Result::<
                                                    Tree,
                                                    ErrT,
                                                >::Ok(outv@));
                                            }
                                            Ok(outv)
                                        },
                                        Err(e) => Err(
                                            SeekErr { depth: e.depth + 1, segment: e.segment },
                                        ),
                                    }
                                },
                            }
                        },
                        _ => Err(SeekErr { depth: 0, segment: clone_path_key(&path[at]) }),
                    }
                },
            }
        }
    }

    /// Replays an operation list against a copy of `yaml`, in list order,
    /// and returns the resulting tree; the first operation whose path
    /// cannot be resolved fails the whole call, naming the operation and
    /// the offending path step. Neither input is changed.
    #[verifier::loop_isolation(false)]
    pub fn apply(yaml: &Value, operations: &Vec<Operation>) -> (r: Result<Value, ApplyError>)
        ensures
            match r {
                Ok(out) => spec_apply(yaml@, ops_of(operations@)) == Result::<
                    Tree,
                    (int, ErrT),
                >::Ok(out@),
                Err(e) => ({
                    spec_apply(yaml@, ops_of(operations@)) matches Result::Err(ie) && ie.0
                        == e.op_index && ie.1.depth == e.depth && (match e.segment {
                        Some(pk) => ie.1.segment == Option::Some(pk@),
                        None => ie.1.segment is None,
                    })
                }),
            },
    {
        let ghost all_ops = ops_of(operations@);
        let mut cur = deep_copy(yaml);
        let m = operations.len();
        let mut idx: usize = 0;
        proof {
            assert(all_ops.skip(0) =~= all_ops);
        }
        while idx < m
            invariant
                idx <= m,
                m == operations@.len(),
                spec_apply(yaml@, all_ops) == shift_err(
                    idx as int,
                    spec_apply(cur@, all_ops.skip(idx as int)),
                ),
            decreases m - idx,
        {
            proof {
                assert(all_ops.skip(idx as int)[0] == all_ops[idx as int]);
                assert(all_ops.skip(idx as int).drop_first() =~= all_ops.skip(idx as int + 1));
            }
            match &operations[idx] {
                Operation::Add(p, val) => {
                    proof {
                        assert(path_of(p@).skip(0) =~= path_of(p@));
                    }
                    match Data::set_at(cur, p, 0, deep_copy(val)) {
                        Ok(nc) => {
                            cur = nc;
                        },
                        Err(e) => {
                            return Err(
                                ApplyError {
                                    op_index: idx,
                                    depth: e.depth,
                                    segment: Some(e.segment),
                                },
                            );
                        },
                    }
                },
                Operation::Mod(p, val) => {
                    proof {
                        assert(path_of(p@).skip(0) =~= path_of(p@));
                    }
                    match Data::set_at(cur, p, 0, deep_copy(val)) {
                        Ok(nc) => {
                            cur = nc;
                        },
                        Err(e) => {
                            return Err(
                                ApplyError {
                                    op_index: idx,
                                    depth: e.depth,
                                    segment: Some(e.segment),
                                },
                            );
                        },
                    }
                },
                Operation::Del(p, _) => {
                    if p.len() == 0 {
                        proof {
                            assert(path_of(p@).len() == 0);
                        }
                        return Err(ApplyError { op_index: idx, depth: 0, segment: None });
                    }
                    proof {
                        assert(path_of(p@).skip(0) =~= path_of(p@));
                    }
                    match Data::remove_at(cur, p, 0) {
                        Ok(nc) => {
                            cur = nc;
                        },
                        Err(e) => {
                            return Err(
                                ApplyError {
                                    op_index: idx,
                                    depth: e.depth,
                                    segment: Some(e.segment),
                                },
                            );
                        },
                    }
                },
            }
            idx += 1;
        }
        proof {
            assert(all_ops.skip(m as int) =~= Seq::<OpT>::empty());
        }
        Ok(cur)
    }
}

/// Equivalent trees produce an empty diff: nothing to replay.
pub proof fn lemma_diff_equiv_empty(a: Tree, b: Tree)
    requires
        equiv(a, b),
    ensures
        spec_diff(a, b) == Seq::<OpT>::empty(),
{
    crate::model::lemma_equiv_same_variant(a, b);
}

/// A tree diffed against itself produces an empty diff.
pub proof fn lemma_diff_self_empty(a: Tree)
    ensures
        spec_diff(a, a) == Seq::<OpT>::empty(),
{
    lemma_equiv_reflexive(a);
    lemma_diff_equiv_empty(a, a);
}

/// Replaying an empty operation list changes nothing.
pub proof fn lemma_apply_empty(t: Tree)
    ensures
        spec_apply(t, Seq::empty()) == Result::<Tree, (int, ErrT)>::Ok(t),
{
}

/// Writing at the empty path replaces the whole tree.
pub proof fn lemma_set_root(t: Tree, v: Tree)
    ensures
        spec_set(t, Seq::empty(), v) == Result::<Tree, ErrT>::Ok(v),
{
}

/// Replaying a concatenation is replaying the first list and then the
/// second, when the first list goes through.
pub proof fn lemma_apply_concat_ok(t: Tree, a: Seq<OpT>, b: Seq<OpT>, t1: Tree)
    requires
        spec_apply(t, a) == Result::<Tree, (int, ErrT)>::Ok(t1),
    ensures
        spec_apply(t, a + b) == shift_err(a.len() as int, spec_apply(t1, b)),
    decreases a.len(),
{
    if a.len() == 0 {
        assert(a + b =~= b);
        assert(t1 == t);
        match spec_apply(t, b) {
            Result::Ok(_) => {},
            Result::Err(_) => {},
        }
    } else {
        assert((a + b)[0] == a[0]);
        assert((a + b).drop_first() =~= a.drop_first() + b);
        let step = match a[0] {
            OpT::Add(p, v) => spec_set(t, p, v),
            OpT::Mod(p, v) => spec_set(t, p, v),
            OpT::Del(p, v) => spec_remove(t, p),
        };
        match step {
            Result::Ok(t2) => {
                lemma_apply_concat_ok(t2, a.drop_first(), b, t1);
                match spec_apply(t1, b) {
                    Result::Ok(_) => {},
                    Result::Err(_) => {},
                }
            },
            Result::Err(e) => {
                assert(false);
            },
        }
    }
}

/// The round-trip law in its whole-subtree cases: when the old and new
/// trees differ in variant, when the old tree is a scalar, or when the
/// two are already equivalent, replaying the captured diff against the
/// old tree yields a tree equivalent to the new one. (For mappings and
/// sequences of the same variant the diff descends instead; those cases
/// are exercised by tests, not proved here.)
pub proof fn lemma_round_trip_whole_subtree(a: Tree, b: Tree)
    requires
        !same_variant(a, b) || equiv(a, b) || (!(a is Mapping) && !(a is Sequence)),
    ensures
        spec_apply(a, spec_diff(a, b)) matches Result::Ok(c) && equiv(c, b),
{
    if equiv(a, b) {
        lemma_diff_equiv_empty(a, b);
        assert(spec_apply(a, spec_diff(a, b)) == Result::<Tree, (int, ErrT)>::Ok(a));
    } else {
        let ops = seq![OpT::Mod(Seq::<PathKeyT>::empty(), b)];
        assert(spec_diff(a, b) == ops);
        assert(ops[0] == OpT::Mod(Seq::<PathKeyT>::empty(), b));
        assert(ops.drop_first() =~= Seq::<OpT>::empty());
        lemma_set_root(a, b);
        lemma_apply_empty(b);
        assert(spec_apply(a, ops) == Result::<Tree, (int, ErrT)>::Ok(b));
        lemma_equiv_reflexive(b);
    }
}

/// Idempotence of replay in the same whole-subtree cases: replaying the
/// captured list a second time, against the tree the first replay
/// produced, reproduces that tree unchanged.
pub proof fn lemma_replay_idempotent_whole_subtree(a: Tree, b: Tree)
    requires
        !same_variant(a, b) || equiv(a, b) || (!(a is Mapping) && !(a is Sequence)),
    ensures
        spec_apply(a, spec_diff(a, b)) matches Result::Ok(c) && spec_apply(c, spec_diff(a, b))
            == Result::<Tree, (int, ErrT)>::Ok(c),
{
    lemma_round_trip_whole_subtree(a, b);
    if equiv(a, b) {
        lemma_diff_equiv_empty(a, b);
    } else {
        let ops = seq![OpT::Mod(Seq::<PathKeyT>::empty(), b)];
        assert(spec_diff(a, b) == ops);
        assert(ops[0] == OpT::Mod(Seq::<PathKeyT>::empty(), b));
        assert(ops.drop_first() =~= Seq::<OpT>::empty());
        lemma_set_root(a, b);
        lemma_apply_empty(b);
        assert(spec_apply(a, ops) == Result::<Tree, (int, ErrT)>::Ok(b));
        let c = spec_apply(a, spec_diff(a, b))->Ok_0;
        assert(c == b);
        lemma_set_root(c, b);
        lemma_apply_empty(b);
        assert(spec_apply(c, ops) == Result::<Tree, (int, ErrT)>::Ok(b));
    }
}

} // verus!
