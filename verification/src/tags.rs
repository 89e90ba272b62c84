//! Tag sets and the selection predicate over them.

use vstd::prelude::*;

verus! {

/// One key/value tag of a map element.
#[derive(Clone, Debug)]
pub struct Tag {
    pub key: String,
    pub value: String,
}

/// Whether the tag set holds `key`, under any value.
pub open spec fn has_key(tags: Seq<Tag>, key: Seq<char>) -> bool {
    exists|i: int| 0 <= i < tags.len() && tags[i].key@ == key
}

/// Whether the tag set holds `key` with exactly the value `value`.
pub open spec fn has_key_value(tags: Seq<Tag>, key: Seq<char>, value: Seq<char>) -> bool {
    exists|i: int| 0 <= i < tags.len() && tags[i].key@ == key && tags[i].value@ == value
}

/// Returns whether the tag set holds `key`, under any value.
pub fn tags_contain_key(tags: &Vec<Tag>, key: &String) -> (r: bool)
    ensures
        r == has_key(tags@, key@),
{
    let mut i: usize = 0;
    while i < tags.len()
        invariant
            i <= tags@.len(),
            forall|j: int| 0 <= j < i ==> tags@[j].key@ != key@,
        decreases tags@.len() - i,
    {
        if tags[i].key == *key {
            return true;
        }
        i += 1;
    }
    false
}

/// Returns whether the tag set holds `key` mapped exactly to `value`.
pub fn tags_contain_key_value(tags: &Vec<Tag>, key: &String, value: &String) -> (r: bool)
    ensures
        r == has_key_value(tags@, key@, value@),
{
    let mut i: usize = 0;
    while i < tags.len()
        invariant
            i <= tags@.len(),
            forall|j: int| 0 <= j < i ==> !(tags@[j].key@ == key@ && tags@[j].value@ == value@),
        decreases tags@.len() - i,
    {
        if tags[i].key == *key && tags[i].value == *value {
            return true;
        }
        i += 1;
    }
    false
}

/// The selection predicate over an element's tag set: accept everything,
/// accept when a key is present, or accept when a key maps to an exact value.
#[derive(Clone, Debug)]
pub enum TagFilter {
    /// Accept every element.
    All,
    /// Accept iff the key is present, regardless of value.
    KeyPresent(String),
    /// Accept iff the key maps to exactly this value.
    KeyValue(String, String),
}

/// What each filter policy accepts.
pub open spec fn filter_accepts(f: TagFilter, tags: Seq<Tag>) -> bool {
    match f {
        TagFilter::All => true,
        TagFilter::KeyPresent(k) => has_key(tags, k@),
        TagFilter::KeyValue(k, v) => has_key_value(tags, k@, v@),
    }
}

impl TagFilter {
    /// Pure predicate: does this filter accept an element with these tags?
    pub fn matches(&self, tags: &Vec<Tag>) -> (r: bool)
        ensures
            r == filter_accepts(*self, tags@),
    {
        match self {
            TagFilter::All => true,
            TagFilter::KeyPresent(k) => tags_contain_key(tags, k),
            TagFilter::KeyValue(k, v) => tags_contain_key_value(tags, k, v),
        }
    }
}

} // verus!
