//! The shared symbol table: rustfst's `SymbolTable`, a dense bidirectional map
//! between strings and labels, seen by the library as the list of its symbols
//! in label order.
use rustfst::SymbolTable;
use vstd::prelude::*;

verus! {

#[verifier::external_type_specification]
#[verifier::external_body]
#[verifier::reject_recursive_types(H)]
pub struct ExSymbolTable<H: std::hash::BuildHasher>(SymbolTable<H>);

/// What a symbol table holds: the symbol of each label, label `i` at index `i`.
pub uninterp spec fn symbol_list(t: SymbolTable) -> Seq<Seq<char>>;

/// The label of `s` in a list of symbols, when it is there.
pub open spec fn label_in(list: Seq<Seq<char>>, s: Seq<char>, label: int) -> bool {
    0 <= label < list.len() && list[label] == s
}

/// The list after `add_symbol(s)`: unchanged when `s` is there, else `s` appended.
pub open spec fn with_symbol(list: Seq<Seq<char>>, s: Seq<char>) -> Seq<Seq<char>> {
    if list.contains(s) {
        list
    } else {
        list.push(s)
    }
}

/// Relies on `SymbolTable::empty`: a table that holds no symbol.
#[verifier::external_body]
pub(crate) fn empty_table() -> (r: SymbolTable)
    ensures
        symbol_list(r) == Seq::<Seq<char>>::empty(),
{
    SymbolTable::empty()
}

/// Relies on `SymbolTable::new`: a table that holds only the epsilon symbol
/// `<eps>`, under label 0.
#[verifier::external_body]
pub(crate) fn eps_table() -> (r: SymbolTable)
    ensures
        symbol_list(r) == seq!["<eps>"@],
{
    SymbolTable::new()
}

/// Relies on `SymbolTable::add_symbol`: the label of `s` when it is there already,
/// else the next free label, under which `s` is appended. The table never holds a
/// string twice.
#[verifier::external_body]
pub(crate) fn add_symbol(t: &mut SymbolTable, s: &str) -> (r: u32)
    requires
        symbol_list(*old(t)).len() < u32::MAX,
    ensures
        symbol_list(*final(t)) == with_symbol(symbol_list(*old(t)), s@),
        label_in(symbol_list(*final(t)), s@, r as int),
        symbol_list(*old(t)).no_duplicates() ==> symbol_list(*final(t)).no_duplicates(),
{
    t.add_symbol(s)
}

/// Relies on `SymbolTable::get_symbol`: the symbol of `label`, if it has one.
#[verifier::external_body]
pub(crate) fn get_symbol(t: &SymbolTable, label: u32) -> (r: Option<&str>)
    ensures
        (label as int) < symbol_list(*t).len() <==> r is Some,
        r is Some ==> r->Some_0@ == symbol_list(*t)[label as int],
{
    t.get_symbol(label)
}

/// Relies on `SymbolTable::get_label`: the label of `s`, if it is there.
#[verifier::external_body]
pub(crate) fn get_label(t: &SymbolTable, s: &str) -> (r: Option<u32>)
    ensures
        symbol_list(*t).contains(s@) <==> r is Some,
        r is Some ==> label_in(symbol_list(*t), s@, r->Some_0 as int),
{
    t.get_label(s)
}

/// Relies on `SymbolTable::len`: one past the highest label.
#[verifier::external_body]
pub(crate) fn table_len(t: &SymbolTable) -> (r: usize)
    ensures
        r == symbol_list(*t).len(),
{
    t.len()
}

} // verus!
