//! The flattener: what the flat form of a tree is, and the walk that
//! computes it.

use crate::error::FlattenError;
use crate::flat_map::FlatMap;
use crate::laws::lemma_flatten_ok_iff_keys_valid;
use crate::path::{char_text, compose, decimal, index_text, Config};
use crate::value::{lemma_item_smaller, lemma_pair_smaller, Tree, Value};
use vstd::prelude::*;
use vstd::string::StringExecFns;

verus! {

/// The local key that a key of a mapping stands for: a string stands for
/// itself, a character for the string that holds it, and no other value is a
/// key.
pub open spec fn key_text(key: Tree) -> Option<Seq<char>> {
    match key {
        Tree::String(s) => Some(s),
        Tree::Char(c) => Some(seq![c]),
        _ => None,
    }
}

/// Every key of every mapping that the walk reaches is a string or a
/// character. The walk goes through mappings and sequences and stops at
/// every other value.
pub open spec fn keys_valid(tree: Tree) -> bool
    decreases tree,
{
    match tree {
        Tree::Mapping(pairs) => forall|i: int|
            0 <= i < pairs.len() ==> key_text((#[trigger] pairs[i]).0) is Some && keys_valid(
                pairs[i].1,
            ),
        Tree::Sequence(items) => forall|i: int|
            0 <= i < items.len() ==> keys_valid(#[trigger] items[i]),
        _ => true,
    }
}

/// What two flat results give together: the entries of both, those of
/// `later` winning where a key occurs in both, unless one of them failed.
pub open spec fn merge(
    earlier: Result<Map<Seq<char>, Tree>, FlattenError>,
    later: Result<Map<Seq<char>, Tree>, FlattenError>,
) -> Result<Map<Seq<char>, Tree>, FlattenError> {
    match earlier {
        Err(e) => Err(e),
        Ok(a) => match later {
            Err(e) => Err(e),
            Ok(b) => Ok(a.union_prefer_right(b)),
        },
    }
}

/// The flat form of `tree`, which stands under `key` below `path`.
///
/// A leaf gives one entry, under the key composed of `path` and `key`. A
/// mapping or a sequence gives the entries of its children, each flattened
/// below that composed key.
pub open spec fn flatten(config: Config, path: Seq<char>, key: Seq<char>, tree: Tree) -> Result<
    Map<Seq<char>, Tree>,
    FlattenError,
>
    decreases tree,
{
    match tree {
        Tree::Mapping(pairs) => flatten_pairs(config, compose(config, path, key), pairs),
        Tree::Sequence(items) => flatten_items(config, compose(config, path, key), items),
        _ => Ok(map![compose(config, path, key) => tree]),
    }
}

/// The flat form of one pair of a mapping below `path`: that of its value
/// under the text of its key, or a failure where the key has no text.
pub open spec fn flatten_pair(config: Config, path: Seq<char>, pair: (Tree, Tree)) -> Result<
    Map<Seq<char>, Tree>,
    FlattenError,
>
    decreases pair,
{
    match key_text(pair.0) {
        None => Err(FlattenError::InvalidKeyType),
        Some(key) => flatten(config, path, key, pair.1),
    }
}

/// The flat form of the pairs of a mapping below `path`, merged in their
/// order.
pub open spec fn flatten_pairs(config: Config, path: Seq<char>, pairs: Seq<(Tree, Tree)>) -> Result<
    Map<Seq<char>, Tree>,
    FlattenError,
>
    decreases pairs,
{
    if pairs.len() == 0 {
        Ok(Map::empty())
    } else {
        merge(
            flatten_pairs(config, path, pairs.drop_last()),
            flatten_pair(config, path, pairs.last()),
        )
    }
}

/// The flat form of the items of a sequence below `path`, each under the
/// decimal numeral of its place, merged in their order.
pub open spec fn flatten_items(config: Config, path: Seq<char>, items: Seq<Tree>) -> Result<
    Map<Seq<char>, Tree>,
    FlattenError,
>
    decreases items,
{
    if items.len() == 0 {
        Ok(Map::empty())
    } else {
        merge(
            flatten_items(config, path, items.drop_last()),
            flatten(config, path, decimal((items.len() - 1) as nat), items.last()),
        )
    }
}

/// Once the first pairs of a mapping have failed, the mapping fails.
pub proof fn lemma_pairs_failure_stays(
    config: Config,
    path: Seq<char>,
    pairs: Seq<(Tree, Tree)>,
    n: int,
)
    requires
        0 <= n <= pairs.len(),
        flatten_pairs(config, path, pairs.take(n)) is Err,
    ensures
        flatten_pairs(config, path, pairs) == Err::<Map<Seq<char>, Tree>, FlattenError>(
            FlattenError::InvalidKeyType,
        ),
    decreases pairs.len() - n,
{
    if n == pairs.len() {
        assert(pairs.take(n) =~= pairs);
    } else {
        assert(pairs.take(n + 1).drop_last() =~= pairs.take(n));
        lemma_pairs_failure_stays(config, path, pairs, n + 1);
    }
}

/// Once the first items of a sequence have failed, the sequence fails.
pub proof fn lemma_items_failure_stays(config: Config, path: Seq<char>, items: Seq<Tree>, n: int)
    requires
        0 <= n <= items.len(),
        flatten_items(config, path, items.take(n)) is Err,
    ensures
        flatten_items(config, path, items) == Err::<Map<Seq<char>, Tree>, FlattenError>(
            FlattenError::InvalidKeyType,
        ),
    decreases items.len() - n,
{
    if n == items.len() {
        assert(items.take(n) =~= items);
    } else {
        assert(items.take(n + 1).drop_last() =~= items.take(n));
        lemma_items_failure_stays(config, path, items, n + 1);
    }
}

/// Flattens value trees: it holds the separator that joins the segments of a
/// composed key and the prefix of the keys at the root.
pub struct FlatSerializer {
    key_separator: String,
    prefix: String,
}

impl View for FlatSerializer {
    type V = Config;

    closed spec fn view(&self) -> Config {
        Config { separator: self.key_separator@, prefix: self.prefix@ }
    }
}

/// The text of a key of a mapping, if it has one.
pub fn key_string(key: &Value) -> (r: Option<String>)
    ensures
        match r {
            Some(s) => key_text(key@) == Some(s@),
            None => key_text(key@) is None,
        },
{
    match key {
        Value::String(s) => Some(s.clone()),
        Value::Char(c) => Some(char_text(*c)),
        _ => None,
    }
}

impl FlatSerializer {
    /// A flattener with the given separator and prefix. Any strings will
    /// do, the empty one too.
    pub fn new(key_separator: String, prefix: String) -> (r: FlatSerializer)
        ensures
            r@ == (Config { separator: key_separator@, prefix: prefix@ }),
    {
        FlatSerializer { key_separator, prefix }
    }

    /// The key that `key` gets below `xpath`.
    pub fn format_key(&self, xpath: &str, key: &str) -> (r: String)
        ensures
            r@ == compose(self@, xpath@, key@),
    {
        if key.is_empty() {
            String::new()
        } else if xpath.is_empty() {
            let mut r = self.prefix.clone();
            r.append(key);
            r
        } else {
            let mut r = xpath.to_owned();
            r.append(self.key_separator.as_str());
            r.append(key);
            r
        }
    }

    /// Flattens `value`, which stands under `key` below `xpath`, into a
    /// mapping from composed keys to leaves. Fails where a mapping that
    /// the walk reaches holds a key that is neither a string nor a character.
    pub fn disassemble(&self, xpath: &str, key: &str, value: &Value) -> (r: Result<
        FlatMap,
        FlattenError,
    >)
        ensures
            r is Ok <==> keys_valid(value@),
            match r {
                Ok(flat) => flat.wf() && flatten(self@, xpath@, key@, value@) == Ok::<
                    Map<Seq<char>, Tree>,
                    FlattenError,
                >(flat@),
                Err(e) => flatten(self@, xpath@, key@, value@) == Err::<
                    Map<Seq<char>, Tree>,
                    FlattenError,
                >(e),
            },
        decreases value,
    {
        proof {
            lemma_flatten_ok_iff_keys_valid(self@, xpath@, key@, value@);
        }
        let mut parts = FlatMap::new();
        let here = self.format_key(xpath, key);
        match value {
            Value::Mapping(pairs) => {
                let ghost trees = value@->Mapping_0;
                let mut i: usize = 0;
                while i < pairs.len()
                    invariant
                        *value == Value::Mapping(*pairs),
                        trees == value@->Mapping_0,
                        here@ == compose(self@, xpath@, key@),
                        i <= pairs.len(),
                        parts.wf(),
                        flatten_pairs(self@, here@, trees.take(i as int)) == Ok::<
                            Map<Seq<char>, Tree>,
                            FlattenError,
                        >(parts@),
                    decreases pairs.len() - i,
                {
                    proof {
                        lemma_pair_smaller(*value, i as int);
                        assert(trees.take(i + 1).drop_last() =~= trees.take(i as int));
                        assert(trees.take(i + 1).last() == (pairs[i as int].0@, pairs[i as int].1@));
                        assert(flatten_pairs(self@, here@, trees.take(i + 1)) == merge(
                            flatten_pairs(self@, here@, trees.take(i as int)),
                            flatten_pair(self@, here@, trees[i as int]),
                        ));
                    }
                    let subkey = match key_string(&pairs[i].0) {
                        Some(s) => s,
                        None => {
                            proof {
                                lemma_pairs_failure_stays(self@, here@, trees, i + 1);
                            }
                            return Err(FlattenError::InvalidKeyType);
                        },
                    };
                    match self.disassemble(here.as_str(), subkey.as_str(), &pairs[i].1) {
                        Ok(child) => {
                            parts.append(child);
                        },
                        Err(e) => {
                            proof {
                                lemma_pairs_failure_stays(self@, here@, trees, i + 1);
                            }
                            return Err(e);
                        },
                    }
                    i += 1;
                }
                assert(trees.take(i as int) =~= trees);
            },
            Value::Sequence(items) => {
                let ghost trees = value@->Sequence_0;
                let mut i: usize = 0;
                while i < items.len()
                    invariant
                        *value == Value::Sequence(*items),
                        trees == value@->Sequence_0,
                        here@ == compose(self@, xpath@, key@),
                        i <= items.len(),
                        parts.wf(),
                        flatten_items(self@, here@, trees.take(i as int)) == Ok::<
                            Map<Seq<char>, Tree>,
                            FlattenError,
                        >(parts@),
                    decreases items.len() - i,
                {
                    proof {
                        lemma_item_smaller(*value, i as int);
                        assert(trees.take(i + 1).drop_last() =~= trees.take(i as int));
                        assert(trees.take(i + 1).last() == items[i as int]@);
                        assert(flatten_items(self@, here@, trees.take(i + 1)) == merge(
                            flatten_items(self@, here@, trees.take(i as int)),
                            flatten(self@, here@, decimal(i as nat), trees[i as int]),
                        ));
                    }
                    let subkey = index_text(i);
                    match self.disassemble(here.as_str(), subkey.as_str(), &items[i]) {
                        Ok(child) => {
                            parts.append(child);
                        },
                        Err(e) => {
                            proof {
                                lemma_items_failure_stays(self@, here@, trees, i + 1);
                            }
                            return Err(e);
                        },
                    }
                    i += 1;
                }
                assert(trees.take(i as int) =~= trees);
            },
            _ => {
                parts.insert(here, value.clone());
                assert(parts@ =~= map![compose(self@, xpath@, key@) => value@]);
            },
        }
        Ok(parts)
    }
}

} // verus!
