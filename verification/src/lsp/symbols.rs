//! The document outline: one symbol per key of the parsed tree, nested as
//! the tables are, keys in increasing order.

use vstd::prelude::*;
use crate::text::owned;
use crate::scan::byte_len;
use crate::value::{TomlValue, TomlModel, value_wf};
use crate::merge::{child_path, make_child_path};
use crate::canonical::{value_sorted, sort_toml_value};
use crate::lsp::protocol::Range;
use crate::lsp::diagnostics::{key_range, start_range, document_start, find_key_range_in_text};
use crate::lsp::analyzer::StarTomlDocumentAnalyzer;

verus! {

/// What kind of value a symbol names.
#[derive(Debug, Clone, Copy, PartialEq, Eq, Structural)]
pub enum SymbolKind {
    Object,
    Array,
    String,
    Number,
    Boolean,
    Property,
}

/// One key of the outline, with the keys of its table below it.
#[derive(Debug)]
pub struct DocumentSymbol {
    /// The key.
    pub name: String,
    /// The value's type name.
    pub detail: Option<String>,
    /// The kind of the value.
    pub kind: SymbolKind,
    /// Where the key stands (the document start when it was not found).
    pub range: Range,
    /// The same range.
    pub selection_range: Range,
    /// The symbols of a non-empty table value.
    pub children: Option<Vec<DocumentSymbol>>,
}

/// The symbol kind of a value: tables are objects, numbers are integers and
/// floats, datetimes are properties.
pub open spec fn symbol_kind_of(m: TomlModel) -> SymbolKind {
    match m {
        TomlModel::Table(_) => SymbolKind::Object,
        TomlModel::Array(_) => SymbolKind::Array,
        TomlModel::Str(_) => SymbolKind::String,
        TomlModel::Int(_) => SymbolKind::Number,
        TomlModel::Float(_) => SymbolKind::Number,
        TomlModel::Bool(_) => SymbolKind::Boolean,
        TomlModel::Datetime(_) => SymbolKind::Property,
    }
}

/// The type name of a value.
pub open spec fn symbol_detail(m: TomlModel) -> Seq<char> {
    match m {
        TomlModel::Table(_) => "table"@,
        TomlModel::Array(_) => "array"@,
        TomlModel::Str(_) => "string"@,
        TomlModel::Int(_) => "integer"@,
        TomlModel::Float(_) => "float"@,
        TomlModel::Bool(_) => "boolean"@,
        TomlModel::Datetime(_) => "datetime"@,
    }
}

/// The range of the key at dotted path `full` in `text`, or the document
/// start.
pub open spec fn symbol_range(text: Seq<char>, full: Seq<char>) -> Range {
    match key_range(text, full) {
        Some(r) => r,
        None => start_range(),
    }
}

/// `out` are the symbols of the keys of value `v` below `prefix`: one per
/// table entry, in entry order; none for any other value.
pub open spec fn symbols_in(out: Seq<DocumentSymbol>, v: TomlValue, prefix: Seq<char>, text: Seq<char>) -> bool
    decreases v, 0nat,
{
    match v {
        TomlValue::Table(e) => out.len() == e@.len() && symbols_upto(out, e@, prefix, text, e@.len()),
        _ => out.len() == 0,
    }
}

/// The first `n` of `out` are the symbols of the first `n` entries `e`:
/// the key, its type name and kind, its range twice, and the symbols of its
/// value below its path, present only when there are some.
pub open spec fn symbols_upto(out: Seq<DocumentSymbol>, e: Seq<(String, TomlValue)>, prefix: Seq<char>, text: Seq<char>, n: nat) -> bool
    decreases e, n,
{
    if n == 0 || n > e.len() {
        true
    } else {
        let d = out[n - 1];
        let k = e[n - 1].0@;
        let full = child_path(prefix, k);
        &&& symbols_upto(out, e, prefix, text, (n - 1) as nat)
        &&& d.name@ == k
        &&& (d.detail matches Some(t) && t@ == symbol_detail(e[n - 1].1@))
        &&& d.kind == symbol_kind_of(e[n - 1].1@)
        &&& d.range == symbol_range(text, full)
        &&& d.selection_range == d.range
        &&& match d.children {
            Some(ch) => ch@.len() > 0 && symbols_in(ch@, e[n - 1].1, full, text),
            None => symbols_in(Seq::empty(), e[n - 1].1, full, text),
        }
    }
}

proof fn lemma_symbols_upto_ext(o1: Seq<DocumentSymbol>, o2: Seq<DocumentSymbol>, e: Seq<(String, TomlValue)>, p: Seq<char>, t: Seq<char>, n: nat)
    requires
        n <= o1.len(),
        n <= o2.len(),
        forall|k: int| 0 <= k < n ==> o1[k] == o2[k],
    ensures
        symbols_upto(o1, e, p, t, n) == symbols_upto(o2, e, p, t, n),
    decreases n,
{
    if n > 0 {
        lemma_symbols_upto_ext(o1, o2, e, p, t, (n - 1) as nat);
    }
}

/// The type name of a value.
fn detail_of(v: &TomlValue) -> (r: String)
    ensures
        r@ == symbol_detail(v@),
{
    match v {
        TomlValue::Table(_) => owned("table"),
        TomlValue::Array(_) => owned("array"),
        TomlValue::String(_) => owned("string"),
        TomlValue::Integer(_) => owned("integer"),
        TomlValue::Float(_) => owned("float"),
        TomlValue::Boolean(_) => owned("boolean"),
        TomlValue::Datetime(_) => owned("datetime"),
    }
}

/// The symbol kind of a value.
fn kind_of(v: &TomlValue) -> (r: SymbolKind)
    ensures
        r == symbol_kind_of(v@),
{
    match v {
        TomlValue::Table(_) => SymbolKind::Object,
        TomlValue::Array(_) => SymbolKind::Array,
        TomlValue::String(_) => SymbolKind::String,
        TomlValue::Integer(_) => SymbolKind::Number,
        TomlValue::Float(_) => SymbolKind::Number,
        TomlValue::Boolean(_) => SymbolKind::Boolean,
        TomlValue::Datetime(_) => SymbolKind::Property,
    }
}

/// The symbols of the keys of `val` below `prefix` (see [`symbols_in`]).
fn collect_symbols(val: &TomlValue, prefix: &str, text: &str) -> (r: Vec<DocumentSymbol>)
    requires
        byte_len(text@) <= u32::MAX,
    ensures
        symbols_in(r@, *val, prefix@, text@),
    decreases *val,
{
    let ghost vv = *val;
    let mut out: Vec<DocumentSymbol> = Vec::new();
    match val {
        TomlValue::Table(e) => {
            let mut i: usize = 0;
            while i < e.len()
                invariant
                    i <= e@.len(),
                    out@.len() == i,
                    byte_len(text@) <= u32::MAX,
                    vv == *val,
                    vv matches TomlValue::Table(ve) && ve@ == e@,
                    symbols_upto(out@, e@, prefix@, text@, i as nat),
                decreases e@.len() - i,
            {
                let key = &e[i].0;
                let child = &e[i].1;
                let full = make_child_path(prefix, key.as_str());
                let range = match find_key_range_in_text(text, full.as_str()) {
                    Some(r) => r,
                    None => document_start(),
                };
                proof {
                    let ve = match vv { TomlValue::Table(ve) => ve, _ => arbitrary() };
                    assert(decreases_to!(vv => ve));
                    assert(decreases_to!(ve => ve@));
                    assert(decreases_to!(ve@ => ve@[i as int]));
                    assert(decreases_to!(ve@[i as int] => ve@[i as int].1));
                    assert(decreases_to!(vv => e@[i as int].1));
                }
                let ch = collect_symbols(child, full.as_str(), text);
                let children = if ch.len() > 0 {
                    Some(ch)
                } else {
                    proof {
                        assert(ch@ =~= Seq::<DocumentSymbol>::empty());
                    }
                    None
                };
                let d = DocumentSymbol {
                    name: owned(key.as_str()),
                    detail: Some(detail_of(child)),
                    kind: kind_of(child),
                    range,
                    selection_range: range,
                    children,
                };
                let ghost before = out@;
                out.push(d);
                proof {
                    lemma_symbols_upto_ext(before, out@, e@, prefix@, text@, i as nat);
                }
                i = i + 1;
            }
        },
        _ => {},
    }
    out
}

impl StarTomlDocumentAnalyzer {
    /// The outline of the document: the symbols of the parsed tree with its
    /// tables' keys in increasing order (see [`symbols_in`]); none when the
    /// document did not parse.
    pub fn document_symbols(&self) -> (r: Vec<DocumentSymbol>)
        requires
            self.wf(),
            byte_len(self.text@) <= u32::MAX,
        ensures
            match self.parsed {
                None => r@.len() == 0,
                Some(v) => exists|s: TomlValue| value_wf(s) && value_sorted(s) && s@ == v@ && symbols_in(r@, s, Seq::empty(), self.text@),
            },
    {
        match &self.parsed {
            None => Vec::new(),
            Some(v) => {
                let mut s = crate::value::copy_value(v);
                sort_toml_value(&mut s);
                let empty = String::new();
                let r = collect_symbols(&s, empty.as_str(), self.text.as_str());
                assert(empty@ =~= Seq::<char>::empty());
                r
            },
        }
    }
}

} // verus!
