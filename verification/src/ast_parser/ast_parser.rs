//! The syntax tree that token streams are matched against: for each named
//! structure, its parameters and the nodes that describe its shape.

use vstd::prelude::*;

use crate::lexer::tokenizer::Tokens;
use crate::text::str_equals;

verus! {

/// Name-value pairs written on a node of the syntax tree. A name is looked up
/// by its first pair.
#[derive(Debug)]
pub struct NodeParameters {
    pub entries: Vec<(String, String)>,
}

/// Index of the first of `keys` equal to `key`.
pub open spec fn first_index(keys: Seq<Seq<char>>, key: Seq<char>) -> Option<int>
    decreases keys.len(),
{
    if keys.len() == 0 {
        None
    } else if keys[0] == key {
        Some(0)
    } else {
        match first_index(keys.drop_first(), key) {
            Some(i) => Some(i + 1),
            None => None,
        }
    }
}

/// `first_index` gives the first position holding `key`, or none when no
/// position does.
pub proof fn lemma_first_index(keys: Seq<Seq<char>>, key: Seq<char>)
    ensures
        first_index(keys, key) matches Some(i) ==> 0 <= i < keys.len() && keys[i] == key
            && forall|j: int| 0 <= j < i ==> keys[j] != key,
        first_index(keys, key) is None ==> forall|j: int| 0 <= j < keys.len() ==> keys[j] != key,
    decreases keys.len(),
{
    if keys.len() > 0 {
        lemma_first_index(keys.drop_first(), key);
        if keys[0] != key {
            assert forall|j: int| 1 <= j < keys.len() implies keys[j] == keys.drop_first()[j
                - 1] by {}
        }
    }
}

/// The names of name-value pairs.
pub open spec fn names<V>(entries: Seq<(String, V)>) -> Seq<Seq<char>> {
    entries.map_values(|e: (String, V)| e.0@)
}

/// Index of the first pair of `entries` whose name is `key`.
pub open spec fn key_index<V>(entries: Seq<(String, V)>, key: Seq<char>) -> Option<int> {
    first_index(names(entries), key)
}

/// `key_index` gives the first pair named `key`, or none when no pair is.
pub proof fn lemma_key_index<V>(entries: Seq<(String, V)>, key: Seq<char>)
    ensures
        key_index(entries, key) matches Some(i) ==> 0 <= i < entries.len() && entries[i].0@ == key
            && forall|j: int| 0 <= j < i ==> (#[trigger] entries[j]).0@ != key,
        key_index(entries, key) is None ==> forall|j: int|
            0 <= j < entries.len() ==> (#[trigger] entries[j]).0@ != key,
{
    let keys = names(entries);
    lemma_first_index(keys, key);
    assert forall|j: int| 0 <= j < entries.len() implies keys[j] == (#[trigger] entries[j]).0@ by {}
}

/// Index of the first pair of `entries` whose name is `key`.
pub fn find_key<V>(entries: &Vec<(String, V)>, key: &str) -> (r: Option<usize>)
    ensures
        r matches Some(i) ==> i < entries@.len() && key_index(entries@, key@) == Some(i as int),
        r is None ==> key_index(entries@, key@) is None,
{
    let mut i: usize = 0;
    proof {
        lemma_key_index(entries@, key@);
    }
    while i < entries.len()
        invariant
            0 <= i <= entries@.len(),
            forall|j: int| 0 <= j < i ==> (#[trigger] entries@[j]).0@ != key@,
        decreases entries@.len() - i,
    {
        if str_equals(entries[i].0.as_str(), key) {
            proof {
                lemma_key_index(entries@, key@);
                if let Some(k) = key_index(entries@, key@) {
                    if k < i {
                        assert(entries@[k].0@ != key@);
                    } else if k > i {
                        assert(entries@[i as int].0@ != key@);
                    }
                }
            }
            return Some(i);
        }
        i = i + 1;
    }
    proof {
        lemma_key_index(entries@, key@);
        if let Some(k) = key_index(entries@, key@) {
            assert(entries@[k].0@ != key@);
        }
    }
    None
}

/// The value of the first pair of `entries` named `key`.
pub open spec fn param_lookup(entries: Seq<(String, String)>, key: Seq<char>) -> Option<Seq<char>> {
    match key_index(entries, key) {
        Some(i) => Some(entries[i].1@),
        None => None,
    }
}

impl NodeParameters {
    /// The value of the first pair named `key`.
    pub open spec fn lookup(self, key: Seq<char>) -> Option<Seq<char>> {
        param_lookup(self.entries@, key)
    }

    /// The value of the first pair named `key`.
    pub fn get(&self, key: &str) -> (r: Option<&String>)
        ensures
            r matches Some(v) ==> self.lookup(key@) == Some(v@),
            r is None ==> self.lookup(key@) is None,
    {
        match find_key(&self.entries, key) {
            Some(i) => Some(&self.entries[i].1),
            None => None,
        }
    }
}

/// A parameter of a structure: a list of values or a single value, stored
/// under its name.
#[derive(Debug)]
pub enum HeadParam {
    Array(String),
    Value(String),
}

/// One node of a structure's shape.
#[derive(Debug)]
pub struct Node {
    /// The token expected here; a text token names a structure to parse here.
    pub kind: Tokens,
    pub arguments: NodeParameters,
    /// Nodes of the scope entered after this one matched.
    pub nodes: Vec<NodeType>,
}

/// A scope that is entered when every listed parameter of the enclosing
/// structure has the listed value.
#[derive(Debug)]
pub struct ArgsCondition {
    pub params: NodeParameters,
    pub nodes: Vec<NodeType>,
}

/// An entry in the list of nodes of a structure or scope.
#[derive(Debug)]
pub enum NodeType {
    /// Must match.
    Expect(Node),
    /// May match; skipped, keeping the token, when it does not.
    Maybe(Node),
    /// Passes over one token without looking at it.
    Command(Node),
    /// Enters its scope when the arguments of the structure match.
    ArgsCondition(ArgsCondition),
}

/// The definition of one structure.
#[derive(Debug)]
pub struct Head {
    pub parameters: Vec<HeadParam>,
    pub nodes: Vec<NodeType>,
}

/// The structures of a syntax, by name. A name is looked up by its first
/// entry.
#[derive(Debug)]
pub struct Tree {
    pub entries: Vec<(String, Head)>,
}

impl Tree {
    /// The structure of the first entry named `id`.
    pub open spec fn lookup(self, id: Seq<char>) -> Option<Head> {
        match key_index(self.entries@, id) {
            Some(i) => Some(self.entries@[i].1),
            None => None,
        }
    }

    /// The structure of the first entry named `id`.
    pub fn get(&self, id: &str) -> (r: Option<&Head>)
        ensures
            r matches Some(h) ==> self.lookup(id@) == Some(*h),
            r is None ==> self.lookup(id@) is None,
    {
        match find_key(&self.entries, id) {
            Some(i) => Some(&self.entries[i].1),
            None => None,
        }
    }
}

} // verus!
