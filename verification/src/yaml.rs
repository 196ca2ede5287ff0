//! The library's model of a YAML fragment, as plain values.
//!
//! The renderer's status and diff output, and the persisted configuration
//! document, are handled in this form; mapping keys are strings and entries
//! keep their order.
use vstd::prelude::*;

verus! {

/// A YAML value.
pub enum YamlNode {
    Null,
    Bool(bool),
    Int(i64),
    Text(String),
    List(Vec<YamlNode>),
    Dict(Vec<(String, YamlNode)>),
}

/// The value under the first entry with the given key.
pub open spec fn dict_get_spec(entries: Seq<(String, YamlNode)>, key: Seq<char>) -> Option<
    YamlNode,
>
    decreases entries.len(),
{
    if entries.len() == 0 {
        None
    } else if entries[0].0@ == key {
        Some(entries[0].1)
    } else {
        dict_get_spec(entries.drop_first(), key)
    }
}

impl YamlNode {
    /// Looking a key up in a node that is a mapping.
    pub open spec fn spec_get(self, key: Seq<char>) -> Option<YamlNode> {
        match self {
            YamlNode::Dict(entries) => dict_get_spec(entries@, key),
            _ => None,
        }
    }

    pub open spec fn spec_as_bool(self) -> Option<bool> {
        match self {
            YamlNode::Bool(b) => Some(b),
            _ => None,
        }
    }

    pub open spec fn spec_as_int(self) -> Option<i64> {
        match self {
            YamlNode::Int(n) => Some(n),
            _ => None,
        }
    }

    pub open spec fn spec_as_text(self) -> Option<Seq<char>> {
        match self {
            YamlNode::Text(s) => Some(s@),
            _ => None,
        }
    }

    pub open spec fn spec_entries(self) -> Option<Seq<(String, YamlNode)>> {
        match self {
            YamlNode::Dict(entries) => Some(entries@),
            _ => None,
        }
    }

    pub open spec fn spec_items(self) -> Option<Seq<YamlNode>> {
        match self {
            YamlNode::List(items) => Some(items@),
            _ => None,
        }
    }

    pub fn get<'a>(&'a self, key: &String) -> (r: Option<&'a YamlNode>)
        ensures
            match r {
                Some(n) => self.spec_get(key@) == Some(*n),
                None => self.spec_get(key@) is None,
            },
    {
        match self {
            YamlNode::Dict(entries) => {
                assert(entries@.skip(0) =~= entries@);
                dict_get_from(entries, key, 0)
            },
            _ => None,
        }
    }

    pub fn as_bool(&self) -> (r: Option<bool>)
        ensures
            r == self.spec_as_bool(),
    {
        match self {
            YamlNode::Bool(b) => Some(*b),
            _ => None,
        }
    }

    pub fn as_int(&self) -> (r: Option<i64>)
        ensures
            r == self.spec_as_int(),
    {
        match self {
            YamlNode::Int(n) => Some(*n),
            _ => None,
        }
    }

    pub fn as_text<'a>(&'a self) -> (r: Option<&'a String>)
        ensures
            match r {
                Some(s) => self.spec_as_text() == Some(s@),
                None => self.spec_as_text() is None,
            },
    {
        match self {
            YamlNode::Text(s) => Some(s),
            _ => None,
        }
    }

    pub fn entries<'a>(&'a self) -> (r: Option<&'a Vec<(String, YamlNode)>>)
        ensures
            match r {
                Some(es) => self.spec_entries() == Some(es@),
                None => self.spec_entries() is None,
            },
    {
        match self {
            YamlNode::Dict(entries) => Some(entries),
            _ => None,
        }
    }

    pub fn items<'a>(&'a self) -> (r: Option<&'a Vec<YamlNode>>)
        ensures
            match r {
                Some(xs) => self.spec_items() == Some(xs@),
                None => self.spec_items() is None,
            },
    {
        match self {
            YamlNode::List(items) => Some(items),
            _ => None,
        }
    }
}

/// The value under the first entry with the given key, looked up directly
/// in an entry list.
pub fn dict_lookup<'a>(entries: &'a Vec<(String, YamlNode)>, key: &String) -> (r: Option<
    &'a YamlNode,
>)
    ensures
        match r {
            Some(n) => dict_get_spec(entries@, key@) == Some(*n),
            None => dict_get_spec(entries@, key@) is None,
        },
{
    assert(entries@.skip(0) =~= entries@);
    dict_get_from(entries, key, 0)
}

/// The first entry with the given key among entries[i..].
fn dict_get_from<'a>(entries: &'a Vec<(String, YamlNode)>, key: &String, i: usize) -> (r: Option<
    &'a YamlNode,
>)
    requires
        i <= entries.len(),
    ensures
        match r {
            Some(n) => dict_get_spec(entries@.skip(i as int), key@) == Some(*n),
            None => dict_get_spec(entries@.skip(i as int), key@) is None,
        },
    decreases entries.len() - i,
{
    if i == entries.len() {
        assert(entries@.skip(i as int) =~= Seq::<(String, YamlNode)>::empty());
        None
    } else {
        proof {
            assert(entries@.skip(i as int)[0] == entries@[i as int]);
            assert(entries@.skip(i as int).drop_first() =~= entries@.skip(i + 1));
        }
        let e: &(String, YamlNode) = &entries[i];
        if e.0 == *key {
            Some(&e.1)
        } else {
            dict_get_from(entries, key, i + 1)
        }
    }
}

} // verus!
