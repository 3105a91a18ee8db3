//! Compact JSON text for the stored records. Object members are written in
//! key order; string values are quoted by rustc_serialize.

use vstd::prelude::*;
use crate::records::{SearchResult, SymbolMeta};
use crate::text::{chars_of, decimal, push_all, push_decimal, string_of};

verus! {

/// The JSON string literal of a text, quoted and escaped.
pub uninterp spec fn json_quoted(s: Seq<char>) -> Seq<char>;

/// Whether no character of `s` needs escaping in a JSON string: no `"`, no
/// `\\`, no control character and no DEL.
pub open spec fn plain_json_text(s: Seq<char>) -> bool {
    forall|i: int| 0 <= i < s.len() ==> {
        let c = #[trigger] s[i];
        c != '"' && c != '\\' && c >= ' ' && c != '\x7f'
    }
}

/// Relies on rustc_serialize's `Display` for `Json::String`: it writes the
/// JSON string literal of the text, which depends on the text alone; its
/// `escape_str` only rewrites `"`, `\\`, control characters and DEL, so other
/// text is written between two quotes as it is.
#[verifier::external_body]
fn json_quote(s: &[char]) -> (r: Vec<char>)
    ensures
        r@ == json_quoted(s@),
        plain_json_text(s@) ==> r@ == seq!['"'] + s@ + seq!['"'],
{
    let text: String = s.iter().collect();
    rustc_serialize::json::Json::String(text).to_string().chars().collect()
}

/// Appends the characters of a literal.
pub fn push_lit(out: &mut Vec<char>, lit: &str)
    ensures
        final(out)@ == old(out)@ + lit@,
{
    let c = chars_of(lit);
    push_all(out, c.as_slice());
}

/// Appends the JSON string literal of `s`.
pub fn push_quoted(out: &mut Vec<char>, s: &[char])
    ensures
        final(out)@ == old(out)@ + json_quoted(s@),
{
    let q = json_quote(s);
    push_all(out, q.as_slice());
}

/// The JSON object of a stored occurrence; `peekLines` only when there is a
/// peek block.
pub open spec fn result_json(r: SearchResult) -> Seq<char> {
    "{\"bounds\":["@ + decimal(r.bounds.0 as nat) + ","@ + decimal(r.bounds.1 as nat)
        + "],\"context\":"@ + json_quoted(r.context@)
        + ",\"contextsym\":"@ + json_quoted(r.contextsym@)
        + ",\"line\":"@ + json_quoted(r.line@)
        + ",\"lno\":"@ + decimal(r.lineno as nat)
        + (if r.peek_lines@.len() > 0 { ",\"peekLines\":"@ + json_quoted(r.peek_lines@) } else { Seq::empty() })
        + "}"@
}

pub fn push_result_json(out: &mut Vec<char>, r: &SearchResult)
    ensures
        final(out)@ == old(out)@ + result_json(*r),
{
    push_lit(out, "{\"bounds\":[");
    push_decimal(out, r.bounds.0);
    push_lit(out, ",");
    push_decimal(out, r.bounds.1);
    push_lit(out, "],\"context\":");
    push_quoted(out, r.context.as_slice());
    push_lit(out, ",\"contextsym\":");
    push_quoted(out, r.contextsym.as_slice());
    push_lit(out, ",\"line\":");
    push_quoted(out, r.line.as_slice());
    push_lit(out, ",\"lno\":");
    push_decimal(out, r.lineno);
    if r.peek_lines.len() > 0 {
        push_lit(out, ",\"peekLines\":");
        push_quoted(out, r.peek_lines.as_slice());
    }
    push_lit(out, "}");
    assert(final(out)@ =~= old(out)@ + result_json(*r));
}

/// The JSON object of a symbol's metadata.
pub open spec fn meta_json(m: SymbolMeta) -> Seq<char> {
    "{\"idlsym\":"@ + json_quoted(m.idl_sym@)
        + ",\"srcsym\":"@ + json_quoted(m.src_sym@)
        + ",\"syntax\":"@ + json_quoted(m.syntax_kind@)
        + ",\"targetsym\":"@ + json_quoted(m.target_sym@)
        + ",\"type\":"@ + json_quoted(m.type_pretty@)
        + ",\"typesym\":"@ + json_quoted(m.type_sym@)
        + "}"@
}

pub fn push_meta_json(out: &mut Vec<char>, m: &SymbolMeta)
    ensures
        final(out)@ == old(out)@ + meta_json(*m),
{
    push_lit(out, "{\"idlsym\":");
    push_quoted(out, m.idl_sym.as_slice());
    push_lit(out, ",\"srcsym\":");
    push_quoted(out, m.src_sym.as_slice());
    push_lit(out, ",\"syntax\":");
    push_quoted(out, m.syntax_kind.as_slice());
    push_lit(out, ",\"targetsym\":");
    push_quoted(out, m.target_sym.as_slice());
    push_lit(out, ",\"type\":");
    push_quoted(out, m.type_pretty.as_slice());
    push_lit(out, ",\"typesym\":");
    push_quoted(out, m.type_sym.as_slice());
    push_lit(out, "}");
    assert(final(out)@ =~= old(out)@ + meta_json(*m));
}

/// `parts` joined by `sep`.
pub open spec fn join(parts: Seq<Seq<char>>, sep: Seq<char>) -> Seq<char>
    decreases parts.len(),
{
    if parts.len() == 0 {
        Seq::empty()
    } else if parts.len() == 1 {
        parts[0]
    } else {
        join(parts.drop_last(), sep) + sep + parts.last()
    }
}

pub proof fn lemma_join_push(parts: Seq<Seq<char>>, sep: Seq<char>, x: Seq<char>)
    ensures
        join(parts.push(x), sep) == if parts.len() == 0 { x } else { join(parts, sep) + sep + x },
{
    assert(parts.push(x).drop_last() =~= parts);
}

/// The JSON array of `results`.
pub open spec fn results_json(results: Seq<SearchResult>) -> Seq<char> {
    "["@ + join(results.map_values(|r: SearchResult| result_json(r)), ","@) + "]"@
}

pub fn push_results_json(out: &mut Vec<char>, results: &Vec<SearchResult>)
    ensures
        final(out)@ == old(out)@ + results_json(results@),
{
    push_lit(out, "[");
    let ghost start = out@;
    let mut i: usize = 0;
    while i < results.len()
        invariant
            i <= results@.len(),
            out@ == start + join(results@.take(i as int).map_values(|r: SearchResult| result_json(r)), ","@),
        decreases results@.len() - i,
    {
        let ghost before = results@.take(i as int).map_values(|r: SearchResult| result_json(r));
        if i > 0 {
            push_lit(out, ",");
        }
        push_result_json(out, &results[i]);
        proof {
            lemma_join_push(before, ","@, result_json(results@[i as int]));
            assert(results@.take(i + 1).map_values(|r: SearchResult| result_json(r)) =~= before.push(result_json(results@[i as int])));
        }
        i = i + 1;
    }
    push_lit(out, "]");
    assert(results@.take(i as int) =~= results@);
}

impl SearchResult {
    /// The JSON object of this occurrence.
    pub fn to_json(&self) -> (r: String)
        ensures
            r@ == result_json(*self),
    {
        let mut out: Vec<char> = Vec::new();
        push_result_json(&mut out, self);
        string_of(out.as_slice())
    }
}

impl SymbolMeta {
    /// The JSON object of this metadata.
    pub fn to_json(&self) -> (r: String)
        ensures
            r@ == meta_json(*self),
    {
        let mut out: Vec<char> = Vec::new();
        push_meta_json(&mut out, self);
        string_of(out.as_slice())
    }
}

} // verus!
