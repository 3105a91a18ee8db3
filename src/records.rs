//! The analysis records that the builder reads, and what it stores for them.

use vstd::prelude::*;
use crate::table::Interned;

verus! {

/// The kind of a symbol occurrence.
#[derive(Clone, Copy, PartialEq, Eq, Debug, Structural)]
pub enum AnalysisKind {
    Use,
    Def,
    Assign,
    Decl,
    Idl,
    Ipc,
}

/// The name under which a kind's occurrences are written out.
pub open spec fn kind_name(k: AnalysisKind) -> Seq<char> {
    match k {
        AnalysisKind::Use => seq!['u', 's', 'e', 's'],
        AnalysisKind::Def => seq!['d', 'e', 'f', 's'],
        AnalysisKind::Assign => seq!['a', 's', 's', 'i', 'g', 'n', 'm', 'e', 'n', 't', 's'],
        AnalysisKind::Decl => seq!['d', 'e', 'c', 'l', 's'],
        AnalysisKind::Idl => seq!['i', 'd', 'l'],
        AnalysisKind::Ipc => seq!['i', 'p', 'c'],
    }
}

/// `kind_name` as characters.
pub fn kind_name_chars(k: AnalysisKind) -> (r: Vec<char>)
    ensures
        r@ == kind_name(k),
{
    let r = match k {
        AnalysisKind::Use => vec!['u', 's', 'e', 's'],
        AnalysisKind::Def => vec!['d', 'e', 'f', 's'],
        AnalysisKind::Assign => vec!['a', 's', 's', 'i', 'g', 'n', 'm', 'e', 'n', 't', 's'],
        AnalysisKind::Decl => vec!['d', 'e', 'c', 'l', 's'],
        AnalysisKind::Idl => vec!['i', 'd', 'l'],
        AnalysisKind::Ipc => vec!['i', 'p', 'c'],
    };
    assert(r@ =~= kind_name(k));
    r
}

/// A 1-based line number and a half-open column range on the untrimmed line.
#[derive(Clone, Copy, PartialEq, Eq, Debug, Structural)]
pub struct Location {
    pub lineno: u32,
    pub col_start: u32,
    pub col_end: u32,
}

/// A 1-based inclusive line range; a start of 0 means no peek.
#[derive(Clone, Copy, PartialEq, Eq, Debug, Structural)]
pub struct PeekRange {
    pub start_lineno: u32,
    pub end_lineno: u32,
}

/// One occurrence of a symbol.
pub struct AnalysisTarget {
    pub sym: String,
    pub pretty: String,
    pub context: String,
    pub contextsym: String,
    pub kind: AnalysisKind,
    pub loc: Location,
    pub peek_range: PeekRange,
}

/// A source annotation on one or more symbols.
pub struct AnalysisSource {
    pub syms: Vec<String>,
    pub pretty: String,
    pub syntax_kind: Option<String>,
    pub type_pretty: Option<String>,
    pub type_sym: Option<String>,
    pub src_sym: Option<String>,
    pub target_sym: Option<String>,
    pub is_def: bool,
    pub is_ipc: bool,
}

/// What is stored for one occurrence. `bounds` are relative to the trimmed line.
pub struct SearchResult {
    pub lineno: u32,
    pub bounds: (u32, u32),
    pub line: Interned,
    pub context: Interned,
    pub contextsym: Interned,
    pub peek_lines: Interned,
}

/// Metadata of a defined symbol; a missing value is the empty string.
pub struct SymbolMeta {
    pub syntax_kind: Interned,
    pub type_pretty: Interned,
    pub type_sym: Interned,
    pub src_sym: Interned,
    pub target_sym: Interned,
    pub idl_sym: Interned,
}

/// The texts of a `SymbolMeta`.
pub struct MetaView {
    pub syntax_kind: Seq<char>,
    pub type_pretty: Seq<char>,
    pub type_sym: Seq<char>,
    pub src_sym: Seq<char>,
    pub target_sym: Seq<char>,
    pub idl_sym: Seq<char>,
}

impl SymbolMeta {
    pub open spec fn view(&self) -> MetaView {
        MetaView {
            syntax_kind: self.syntax_kind@,
            type_pretty: self.type_pretty@,
            type_sym: self.type_sym@,
            src_sym: self.src_sym@,
            target_sym: self.target_sym@,
            idl_sym: self.idl_sym@,
        }
    }
}

/// The text of an optional string, empty where it is missing.
pub open spec fn text_or_empty(o: Option<String>) -> Seq<char> {
    match o {
        Some(s) => s@,
        None => Seq::empty(),
    }
}

/// Whether a pretty name may be listed in the identifier index: it is not
/// empty, does not begin with an ASCII digit, and holds no space.
pub open spec fn is_legal_pretty(p: Seq<char>) -> bool {
    &&& p.len() > 0
    &&& !('0' <= p[0] && p[0] <= '9')
    &&& !p.contains(' ')
}

/// A column made relative to a line whose indentation is `offset`; a column
/// inside the indentation becomes 0.
pub open spec fn adjust_col(col: u32, offset: nat) -> u32 {
    if col >= offset { (col - offset) as u32 } else { 0 }
}

} // verus!
