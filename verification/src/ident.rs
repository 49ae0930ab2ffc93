//! The identity resolver: extracts the stable identity of a sequence
//! element, the text of its `name` field or, failing that, of its `key`
//! field, and looks elements up by identity.

use vstd::prelude::*;

use crate::model::{
    entry_trees_of, equiv, identity_of, key_idx, lemma_entry_trees_of_index,
    lemma_entry_trees_of_len, lemma_equiv_unfold, lemma_key_idx_char, lemma_seq_ident_idx_char,
    lemma_tree_of_variant, lemma_trees_of_index, lemma_trees_of_len, seq_ident_idx, str_field,
    tree_of, trees_of, Tree,
};
use crate::value::Value;

verus! {

broadcast use lemma_trees_of_len, lemma_trees_of_index, lemma_entry_trees_of_len, lemma_entry_trees_of_index;

/// The text stored under the text key `needle`, when the first entry with
/// that key holds text.
#[verifier::loop_isolation(false)]
fn text_field<'a>(es: &'a Vec<(Value, Value)>, needle: &String) -> (r: Option<&'a String>)
    ensures
        match r {
            Some(s) => str_field(entry_trees_of(es@), needle@) == Some(s@),
            None => str_field(entry_trees_of(es@), needle@) is None,
        },
{
    let n = es.len();
    let mut i: usize = 0;
    while i < n
        invariant
            n == es@.len(),
            i <= n,
            forall|j: int|
                0 <= j < i ==> !equiv(
                    (#[trigger] entry_trees_of(es@)[j]).0,
                    Tree::Text(needle@),
                ),
        decreases n - i,
    {
        let hit = match &es[i].0 {
            Value::Text(t) => *t == *needle,
            _ => false,
        };
        proof {
            lemma_equiv_unfold(entry_trees_of(es@)[i as int].0, Tree::Text(needle@));
            lemma_tree_of_variant(es@[i as int].0);
        }
        if hit {
            proof {
                assert(equiv(entry_trees_of(es@)[i as int].0, Tree::Text(needle@)));
                lemma_key_idx_char(entry_trees_of(es@), Tree::Text(needle@));
                assert(key_idx(entry_trees_of(es@), Tree::Text(needle@)) == i as int);
            }
            return match &es[i].1 {
                Value::Text(s) => {
                    proof {
                        lemma_tree_of_variant(es@[i as int].1);
                    }
                    Some(s)
                },
                _ => {
                    proof {
                        lemma_tree_of_variant(es@[i as int].1);
                    }
                    None
                },
            };
        }
        proof {
            assert(!equiv(entry_trees_of(es@)[i as int].0, Tree::Text(needle@)));
        }
        i += 1;
    }
    proof {
        lemma_key_idx_char(entry_trees_of(es@), Tree::Text(needle@));
    }
    None
}

/// The identity of a sequence element, if it has one: the text of its
/// `name` field, or, failing that, of its `key` field.
pub fn identity<'a>(v: &'a Value) -> (r: Option<&'a String>)
    ensures
        match r {
            Some(s) => identity_of(v@) == Some(s@),
            None => identity_of(v@) is None,
        },
{
    match v {
        Value::Mapping(es) => {
            let name_key = String::from_str("name");
            match text_field(es, &name_key) {
                Some(s) => Some(s),
                None => {
                    let key_key = String::from_str("key");
                    text_field(es, &key_key)
                },
            }
        },
        _ => {
            proof {
                lemma_tree_of_variant(*v);
            }
            None
        },
    }
}

/// The position of the first element of `items` whose identity is the
/// text of `n`, if any.
#[verifier::loop_isolation(false)]
pub fn find_by_identity(items: &Vec<Value>, n: &String) -> (r: Option<usize>)
    ensures
        match r {
            Some(i) => i == seq_ident_idx(trees_of(items@), n@),
            None => seq_ident_idx(trees_of(items@), n@) == -1,
        },
{
    let len = items.len();
    let mut i: usize = 0;
    while i < len
        invariant
            len == items@.len(),
            i <= len,
            forall|j: int|
                0 <= j < i ==> identity_of(#[trigger] trees_of(items@)[j]) != Some(n@),
        decreases len - i,
    {
        let hit = match identity(&items[i]) {
            Some(s) => *s == *n,
            None => false,
        };
        if hit {
            proof {
                assert(identity_of(trees_of(items@)[i as int]) == Some(n@));
                lemma_seq_ident_idx_char(trees_of(items@), n@);
            }
            return Some(i);
        }
        proof {
            assert(identity_of(trees_of(items@)[i as int]) != Some(n@));
        }
        i += 1;
    }
    proof {
        lemma_seq_ident_idx_char(trees_of(items@), n@);
    }
    None
}

} // verus!
