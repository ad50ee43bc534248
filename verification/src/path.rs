//! Composed keys: how a path, a separator and a local key become the key of
//! a leaf, and how the place of an item in a sequence is written.

use vstd::prelude::*;

verus! {

/// What joins the segments of a composed key.
pub struct Config {
    /// Stands between a path that is not empty and the key that follows it.
    pub separator: Seq<char>,
    /// Stands before a key at the root, where the path is empty.
    pub prefix: Seq<char>,
}

/// The key that `key` gets below `path`. An empty `key` gives the empty
/// key whatever the path is; at the root the prefix comes first; elsewhere the
/// path, the separator and the key are joined.
pub open spec fn compose(config: Config, path: Seq<char>, key: Seq<char>) -> Seq<char> {
    if key.len() == 0 {
        Seq::empty()
    } else if path.len() == 0 {
        config.prefix + key
    } else {
        path + config.separator + key
    }
}

/// The character that stands for a digit below ten.
pub open spec fn digit(d: nat) -> char {
    if d == 0 {
        '0'
    } else if d == 1 {
        '1'
    } else if d == 2 {
        '2'
    } else if d == 3 {
        '3'
    } else if d == 4 {
        '4'
    } else if d == 5 {
        '5'
    } else if d == 6 {
        '6'
    } else if d == 7 {
        '7'
    } else if d == 8 {
        '8'
    } else {
        '9'
    }
}

/// The decimal numeral of `n`, without leading zeros.
pub open spec fn decimal(n: nat) -> Seq<char>
    decreases n,
{
    if n < 10 {
        seq![digit(n)]
    } else {
        decimal(n / 10).push(digit(n % 10))
    }
}

/// `String::push` puts the character at the end of the string and leaves
/// what was there in place.
pub assume_specification[ std::string::String::push ](s: &mut std::string::String, ch: char)
    ensures
        final(s)@ == old(s)@.push(ch),
;

/// The character of a digit below ten.
pub fn digit_char(d: usize) -> (c: char)
    requires
        d < 10,
    ensures
        c == digit(d as nat),
{
    if d == 0 {
        '0'
    } else if d == 1 {
        '1'
    } else if d == 2 {
        '2'
    } else if d == 3 {
        '3'
    } else if d == 4 {
        '4'
    } else if d == 5 {
        '5'
    } else if d == 6 {
        '6'
    } else if d == 7 {
        '7'
    } else if d == 8 {
        '8'
    } else {
        '9'
    }
}

/// The local key of the item at place `index` of a sequence: its decimal
/// numeral.
pub fn index_text(index: usize) -> (s: String)
    ensures
        s@ == decimal(index as nat),
    decreases index,
{
    if index < 10 {
        let mut s = String::new();
        s.push(digit_char(index));
        assert(s@ =~= seq![digit(index as nat)]);
        s
    } else {
        let mut s = index_text(index / 10);
        s.push(digit_char(index % 10));
        s
    }
}

/// The string that holds one character.
pub fn char_text(c: char) -> (s: String)
    ensures
        s@ == seq![c],
{
    let mut s = String::new();
    s.push(c);
    assert(s@ =~= seq![c]);
    s
}

} // verus!
