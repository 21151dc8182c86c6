use vstd::prelude::*;

verus! {

/// A configuration document tree: tables, arrays, and scalar leaves.
///
/// A table is kept as its entries in document order; lookup takes the first
/// entry with the wanted key. A floating-point leaf carries the raw bits of
/// its number and a date-time leaf its textual form: the surrounding program
/// converts both when it builds or prints a tree.
#[derive(Debug, PartialEq)]
pub enum Value {
    Str(String),
    Int(i64),
    Float(u64),
    Bool(bool),
    Datetime(String),
    Array(Vec<Value>),
    Table(Vec<(String, Value)>),
}

/// The value of the first entry in `entries` whose key reads `name`, if any.
pub open spec fn table_lookup(entries: Seq<(String, Value)>, name: Seq<char>) -> Option<Value>
    decreases entries.len(),
{
    if entries.len() == 0 {
        None
    } else if entries[0].0@ == name {
        Some(entries[0].1)
    } else {
        table_lookup(entries.skip(1), name)
    }
}

} // verus!
