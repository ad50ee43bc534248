//! What holds of every flattening.

use crate::error::FlattenError;
use crate::path::{compose, decimal, Config};
use crate::ser::{flatten, flatten_items, flatten_pair, flatten_pairs, key_text, keys_valid};
use crate::value::Tree;
use vstd::prelude::*;

verus! {

/// A key that is empty composes to the empty key, whatever the path.
pub proof fn lemma_empty_key_resets(config: Config, path: Seq<char>)
    ensures
        compose(config, path, Seq::empty()) == Seq::<char>::empty(),
{
}

/// A tree under the empty key flattens to the same result below every
/// path: what lies above it leaves no trace.
pub proof fn lemma_empty_key_forgets_path(
    config: Config,
    path: Seq<char>,
    other: Seq<char>,
    tree: Tree,
)
    ensures
        flatten(config, path, Seq::empty(), tree) == flatten(config, other, Seq::empty(), tree),
{
}

/// A leaf flattens to the one entry that holds it, under its composed key.
pub proof fn lemma_leaf_is_one_entry(config: Config, path: Seq<char>, key: Seq<char>, tree: Tree)
    requires
        !(tree is Mapping),
        !(tree is Sequence),
    ensures
        flatten(config, path, key, tree) == Ok::<Map<Seq<char>, Tree>, FlattenError>(
            map![compose(config, path, key) => tree],
        ),
{
}

/// A leaf at the root, under the empty key, flattens to the one entry that
/// holds it under the empty key.
pub proof fn lemma_root_leaf(config: Config, tree: Tree)
    requires
        !(tree is Mapping),
        !(tree is Sequence),
    ensures
        flatten(config, Seq::empty(), Seq::empty(), tree) == Ok::<
            Map<Seq<char>, Tree>,
            FlattenError,
        >(map![Seq::empty() => tree]),
{
}

/// The pairs of a mapping flatten exactly when each of them does.
pub proof fn lemma_pairs_ok(config: Config, path: Seq<char>, pairs: Seq<(Tree, Tree)>)
    ensures
        flatten_pairs(config, path, pairs) is Ok <==> forall|i: int|
            0 <= i < pairs.len() ==> flatten_pair(config, path, #[trigger] pairs[i]) is Ok,
    decreases pairs.len(),
{
    if pairs.len() > 0 {
        let shorter = pairs.drop_last();
        lemma_pairs_ok(config, path, shorter);
        if flatten_pairs(config, path, pairs) is Ok {
            assert forall|i: int| 0 <= i < pairs.len() implies flatten_pair(
                config,
                path,
                #[trigger] pairs[i],
            ) is Ok by {
                if i < pairs.len() - 1 {
                    assert(shorter[i] == pairs[i]);
                }
            }
        }
        if forall|i: int|
            0 <= i < pairs.len() ==> flatten_pair(config, path, #[trigger] pairs[i]) is Ok {
            assert forall|i: int| 0 <= i < shorter.len() implies flatten_pair(
                config,
                path,
                #[trigger] shorter[i],
            ) is Ok by {
                assert(shorter[i] == pairs[i]);
            }
            assert(flatten_pair(config, path, pairs[pairs.len() - 1]) is Ok);
        }
    }
}

/// The items of a sequence flatten exactly when each of them does.
pub proof fn lemma_items_ok(config: Config, path: Seq<char>, items: Seq<Tree>)
    ensures
        flatten_items(config, path, items) is Ok <==> forall|i: int|
            0 <= i < items.len() ==> flatten(
                config,
                path,
                decimal(i as nat),
                #[trigger] items[i],
            ) is Ok,
    decreases items.len(),
{
    if items.len() > 0 {
        let shorter = items.drop_last();
        lemma_items_ok(config, path, shorter);
        if flatten_items(config, path, items) is Ok {
            assert forall|i: int| 0 <= i < items.len() implies flatten(
                config,
                path,
                decimal(i as nat),
                #[trigger] items[i],
            ) is Ok by {
                if i < items.len() - 1 {
                    assert(shorter[i] == items[i]);
                }
            }
        }
        if forall|i: int|
            0 <= i < items.len() ==> flatten(
                config,
                path,
                decimal(i as nat),
                #[trigger] items[i],
            ) is Ok {
            assert forall|i: int| 0 <= i < shorter.len() implies flatten(
                config,
                path,
                decimal(i as nat),
                #[trigger] shorter[i],
            ) is Ok by {
                assert(shorter[i] == items[i]);
            }
            assert(flatten(
                config,
                path,
                decimal((items.len() - 1) as nat),
                items[items.len() - 1],
            ) is Ok);
        }
    }
}

/// Flattening succeeds exactly on the trees whose reachable keys are all
/// valid, and fails on every other tree with the one error there is.
pub proof fn lemma_flatten_ok_iff_keys_valid(
    config: Config,
    path: Seq<char>,
    key: Seq<char>,
    tree: Tree,
)
    ensures
        flatten(config, path, key, tree) is Ok <==> keys_valid(tree),
        !keys_valid(tree) ==> flatten(config, path, key, tree) == Err::<
            Map<Seq<char>, Tree>,
            FlattenError,
        >(FlattenError::InvalidKeyType),
    decreases tree,
{
    let here = compose(config, path, key);
    match tree {
        Tree::Mapping(pairs) => {
            lemma_pairs_ok(config, here, pairs);
            assert forall|i: int| 0 <= i < pairs.len() implies (flatten_pair(
                config,
                here,
                #[trigger] pairs[i],
            ) is Ok <==> key_text(pairs[i].0) is Some && keys_valid(pairs[i].1)) by {
                if let Some(text) = key_text(pairs[i].0) {
                    lemma_flatten_ok_iff_keys_valid(config, here, text, pairs[i].1);
                }
            }
        },
        Tree::Sequence(items) => {
            lemma_items_ok(config, here, items);
            assert forall|i: int| 0 <= i < items.len() implies (flatten(
                config,
                here,
                decimal(i as nat),
                #[trigger] items[i],
            ) is Ok <==> keys_valid(items[i])) by {
                lemma_flatten_ok_iff_keys_valid(config, here, decimal(i as nat), items[i]);
            }
        },
        _ => {},
    }
}

/// A mapping that holds a key which is neither a string nor a character
/// does not flatten: the result is the error, not a part of the entries.
pub proof fn lemma_invalid_key_fails(
    config: Config,
    path: Seq<char>,
    key: Seq<char>,
    pairs: Seq<(Tree, Tree)>,
    i: int,
)
    requires
        0 <= i < pairs.len(),
        key_text(pairs[i].0) is None,
    ensures
        flatten(config, path, key, Tree::Mapping(pairs)) == Err::<
            Map<Seq<char>, Tree>,
            FlattenError,
        >(FlattenError::InvalidKeyType),
{
    lemma_flatten_ok_iff_keys_valid(config, path, key, Tree::Mapping(pairs));
}

/// Where several pairs of a mapping give an entry for one key, the pair
/// that is visited last wins: the result holds that key once, with the
/// value that the last such pair gives it.
pub proof fn lemma_last_pair_wins(
    config: Config,
    path: Seq<char>,
    pairs: Seq<(Tree, Tree)>,
    i: int,
    key: Seq<char>,
)
    requires
        flatten_pairs(config, path, pairs) is Ok,
        0 <= i < pairs.len(),
        flatten_pair(config, path, pairs[i])->Ok_0.contains_key(key),
        forall|j: int|
            i < j < pairs.len() ==> !flatten_pair(config, path, #[trigger] pairs[j])->Ok_0.contains_key(
                key,
            ),
    ensures
        flatten_pair(config, path, pairs[i]) is Ok,
        flatten_pairs(config, path, pairs)->Ok_0.contains_key(key),
        flatten_pairs(config, path, pairs)->Ok_0[key] == flatten_pair(
            config,
            path,
            pairs[i],
        )->Ok_0[key],
    decreases pairs.len(),
{
    lemma_pairs_ok(config, path, pairs);
    let shorter = pairs.drop_last();
    if i < pairs.len() - 1 {
        assert(shorter[i] == pairs[i]);
        assert forall|j: int| i < j < shorter.len() implies !flatten_pair(
            config,
            path,
            #[trigger] shorter[j],
        )->Ok_0.contains_key(key) by {
            assert(shorter[j] == pairs[j]);
        }
        lemma_last_pair_wins(config, path, shorter, i, key);
    }
}

/// Where several items of a sequence give an entry for one key, the item
/// that is visited last wins.
pub proof fn lemma_last_item_wins(
    config: Config,
    path: Seq<char>,
    items: Seq<Tree>,
    i: int,
    key: Seq<char>,
)
    requires
        flatten_items(config, path, items) is Ok,
        0 <= i < items.len(),
        flatten(config, path, decimal(i as nat), items[i])->Ok_0.contains_key(key),
        forall|j: int|
            i < j < items.len() ==> !flatten(
                config,
                path,
                decimal(j as nat),
                #[trigger] items[j],
            )->Ok_0.contains_key(key),
    ensures
        flatten(config, path, decimal(i as nat), items[i]) is Ok,
        flatten_items(config, path, items)->Ok_0.contains_key(key),
        flatten_items(config, path, items)->Ok_0[key] == flatten(
            config,
            path,
            decimal(i as nat),
            items[i],
        )->Ok_0[key],
    decreases items.len(),
{
    lemma_items_ok(config, path, items);
    let shorter = items.drop_last();
    if i < items.len() - 1 {
        assert(shorter[i] == items[i]);
        assert forall|j: int| i < j < shorter.len() implies !flatten(
            config,
            path,
            decimal(j as nat),
            #[trigger] shorter[j],
        )->Ok_0.contains_key(key) by {
            assert(shorter[j] == items[j]);
        }
        lemma_last_item_wins(config, path, shorter, i, key);
    }
}

/// The result of a mapping holds a key only where one of its pairs gives
/// an entry for it: nothing is made up.
pub proof fn lemma_pairs_entry_has_source(
    config: Config,
    path: Seq<char>,
    pairs: Seq<(Tree, Tree)>,
    key: Seq<char>,
)
    requires
        flatten_pairs(config, path, pairs) is Ok,
        flatten_pairs(config, path, pairs)->Ok_0.contains_key(key),
    ensures
        exists|i: int|
            0 <= i < pairs.len() && flatten_pair(config, path, #[trigger] pairs[i])->Ok_0.contains_key(
                key,
            ),
    decreases pairs.len(),
{
    if pairs.len() > 0 {
        let shorter = pairs.drop_last();
        let last = pairs.len() - 1;
        if flatten_pair(config, path, pairs[last])->Ok_0.contains_key(key) {
        } else {
            lemma_pairs_entry_has_source(config, path, shorter, key);
            let i = choose|i: int|
                0 <= i < shorter.len() && flatten_pair(
                    config,
                    path,
                    #[trigger] shorter[i],
                )->Ok_0.contains_key(key);
            assert(shorter[i] == pairs[i]);
        }
    }
}

/// The result of a sequence holds a key only where one of its items gives
/// an entry for it.
pub proof fn lemma_items_entry_has_source(
    config: Config,
    path: Seq<char>,
    items: Seq<Tree>,
    key: Seq<char>,
)
    requires
        flatten_items(config, path, items) is Ok,
        flatten_items(config, path, items)->Ok_0.contains_key(key),
    ensures
        exists|i: int|
            0 <= i < items.len() && flatten(
                config,
                path,
                decimal(i as nat),
                #[trigger] items[i],
            )->Ok_0.contains_key(key),
    decreases items.len(),
{
    if items.len() > 0 {
        let shorter = items.drop_last();
        let last = items.len() - 1;
        if flatten(config, path, decimal(last as nat), items[last])->Ok_0.contains_key(key) {
        } else {
            lemma_items_entry_has_source(config, path, shorter, key);
            let i = choose|i: int|
                0 <= i < shorter.len() && flatten(
                    config,
                    path,
                    decimal(i as nat),
                    #[trigger] shorter[i],
                )->Ok_0.contains_key(key);
            assert(shorter[i] == items[i]);
        }
    }
}

} // verus!
