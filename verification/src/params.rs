//! The parameters a check is configured with: a tree of plain values as a
//! YAML mapping holds them.
use vstd::prelude::*;
use crate::text::same_text;

verus! {

/// A parameter value.
#[derive(Debug)]
pub enum ParamValue {
    Null,
    Bool(bool),
    /// A non-negative integer.
    PosInt(u64),
    /// A negative integer.
    NegInt(i64),
    /// A number with a fraction, as written; its value is not read by any
    /// check.
    Float(String),
    Str(String),
    Sequence(Vec<ParamValue>),
    /// Key and value pairs, keys distinct.
    Mapping(Vec<(ParamValue, ParamValue)>),
}

/// The value of the first entry whose key is the string `key`.
pub open spec fn entry_for(entries: Seq<(ParamValue, ParamValue)>, key: Seq<char>) -> Option<
    ParamValue,
>
    decreases entries.len(),
{
    if entries.len() == 0 {
        None
    } else {
        match entries[0].0 {
            ParamValue::Str(k) => if k@ == key {
                Some(entries[0].1)
            } else {
                entry_for(entries.drop_first(), key)
            },
            _ => entry_for(entries.drop_first(), key),
        }
    }
}

/// The value under `key` of a mapping; nothing for other values.
pub open spec fn value_get(v: ParamValue, key: Seq<char>) -> Option<ParamValue> {
    match v {
        ParamValue::Mapping(entries) => entry_for(entries@, key),
        _ => None,
    }
}

pub open spec fn value_str(v: ParamValue) -> Option<Seq<char>> {
    match v {
        ParamValue::Str(s) => Some(s@),
        _ => None,
    }
}

pub open spec fn value_bool(v: ParamValue) -> Option<bool> {
    match v {
        ParamValue::Bool(b) => Some(b),
        _ => None,
    }
}

pub open spec fn value_u64(v: ParamValue) -> Option<u64> {
    match v {
        ParamValue::PosInt(n) => Some(n),
        _ => None,
    }
}

pub open spec fn value_seq(v: ParamValue) -> Option<Seq<ParamValue>> {
    match v {
        ParamValue::Sequence(items) => Some(items@),
        _ => None,
    }
}

/// The string under `key`, if there is one.
pub open spec fn str_at(v: ParamValue, key: Seq<char>) -> Option<Seq<char>> {
    match value_get(v, key) {
        Some(x) => value_str(x),
        None => None,
    }
}

/// The boolean under `key`, `false` where there is none.
pub open spec fn flag_at(v: ParamValue, key: Seq<char>) -> bool {
    match value_get(v, key) {
        Some(x) => match value_bool(x) {
            Some(b) => b,
            None => false,
        },
        None => false,
    }
}

/// The list under `key`, empty where there is none.
pub open spec fn list_at(v: ParamValue, key: Seq<char>) -> Seq<ParamValue> {
    match value_get(v, key) {
        Some(x) => match value_seq(x) {
            Some(items) => items,
            None => Seq::empty(),
        },
        None => Seq::empty(),
    }
}

impl ParamValue {
    /// The value under `key` of a mapping.
    pub fn get(&self, key: &str) -> (r: Option<&ParamValue>)
        ensures
            match r {
                Some(x) => value_get(*self, key@) == Some(*x),
                None => value_get(*self, key@) is None,
            },
    {
        match self {
            ParamValue::Mapping(entries) => {
                let mut i: usize = 0;
                assert(entries@.skip(0) =~= entries@);
                while i < entries.len()
                    invariant
                        i <= entries@.len(),
                        value_get(*self, key@) == entry_for(entries@, key@),
                        entry_for(entries@, key@) == entry_for(entries@.skip(i as int), key@),
                    decreases entries@.len() - i,
                {
                    let ghost rest = entries@.skip(i as int);
                    assert(rest.drop_first() =~= entries@.skip(i + 1));
                    assert(rest[0] == entries@[i as int]);
                    match &entries[i].0 {
                        ParamValue::Str(k) => {
                            if same_text(k.as_str(), key) {
                                assert(entry_for(rest, key@) == Some(rest[0].1));
                                return Some(&entries[i].1);
                            }
                        },
                        _ => {},
                    }
                    i = i + 1;
                }
                assert(entries@.skip(i as int) =~= Seq::<(ParamValue, ParamValue)>::empty());
                None
            },
            _ => None,
        }
    }

    pub fn as_str(&self) -> (r: Option<&str>)
        ensures
            match r {
                Some(s) => value_str(*self) == Some(s@),
                None => value_str(*self) is None,
            },
    {
        match self {
            ParamValue::Str(s) => Some(s.as_str()),
            _ => None,
        }
    }

    pub fn as_bool(&self) -> (r: Option<bool>)
        ensures
            r == value_bool(*self),
    {
        match self {
            ParamValue::Bool(b) => Some(*b),
            _ => None,
        }
    }

    pub fn as_u64(&self) -> (r: Option<u64>)
        ensures
            r == value_u64(*self),
    {
        match self {
            ParamValue::PosInt(n) => Some(*n),
            _ => None,
        }
    }

    pub fn as_sequence(&self) -> (r: Option<&Vec<ParamValue>>)
        ensures
            match r {
                Some(items) => value_seq(*self) == Some(items@),
                None => value_seq(*self) is None,
            },
    {
        match self {
            ParamValue::Sequence(items) => Some(items),
            _ => None,
        }
    }
}

/// The string under `key`, if there is one.
pub fn get_str<'a>(v: &'a ParamValue, key: &str) -> (r: Option<&'a str>)
    ensures
        match r {
            Some(s) => str_at(*v, key@) == Some(s@),
            None => str_at(*v, key@) is None,
        },
{
    match v.get(key) {
        Some(x) => x.as_str(),
        None => None,
    }
}

/// The boolean under `key`, `false` where there is none.
pub fn get_flag(v: &ParamValue, key: &str) -> (r: bool)
    ensures
        r == flag_at(*v, key@),
{
    match v.get(key) {
        Some(x) => match x.as_bool() {
            Some(b) => b,
            None => false,
        },
        None => false,
    }
}

} // verus!
