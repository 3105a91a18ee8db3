//! Laws of the index that relate several functions or hold of every state.

use vstd::prelude::*;
use crate::index::{CrossIndex, link_all, link_step};
use crate::lines::peek_of;
use crate::output::{def_items, group_start, kind_items, path_json};
use crate::records::SearchResult;
use crate::table::{SortedTable, lemma_same_keys_same_order};
use crate::records::{MetaView, adjust_col, is_legal_pretty};

verus! {

/// Every symbol with occurrences has a pretty name recorded.
pub proof fn lemma_table_syms_have_pretty(ix: CrossIndex)
    requires
        ix.wf(),
    ensures
        forall|i: int| 0 <= i < ix.table.keys.len() ==> ix.pretty_table.has(seq![#[trigger] ix.table.kv()[i][0]]),
{
    assert forall|i: int| 0 <= i < ix.table.keys.len() implies ix.pretty_table.has(seq![#[trigger] ix.table.kv()[i][0]]) by {
        assert(ix.table.kv()[i].len() == 3);
    }
}

/// Every pretty name in the identifier index is non-empty, does not begin with
/// an ASCII digit and holds no space.
pub proof fn lemma_identifiers_legal(ix: CrossIndex)
    requires
        ix.wf(),
    ensures
        forall|i: int| 0 <= i < ix.id_table.keys.len() ==> {
            let p = #[trigger] ix.id_table.kv()[i][0];
            &&& p.len() > 0
            &&& !('0' <= p[0] && p[0] <= '9')
            &&& !p.contains(' ')
        },
{
    assert forall|i: int| 0 <= i < ix.id_table.keys.len() implies {
        let p = #[trigger] ix.id_table.kv()[i][0];
        &&& p.len() > 0
        &&& !('0' <= p[0] && p[0] <= '9')
        &&& !p.contains(' ')
    } by {
        assert(is_legal_pretty(ix.id_table.kv()[i][0]));
    }
}

/// The empty pretty name is never listed in the identifier index.
pub proof fn lemma_empty_pretty_not_listed(ix: CrossIndex, s: Seq<char>)
    requires
        ix.wf(),
    ensures
        !ix.id_table.has(seq![Seq::<char>::empty(), s]),
{
    if ix.id_table.has(seq![Seq::<char>::empty(), s]) {
        let i = choose|i: int| 0 <= i < ix.id_table.keys.len() && #[trigger] ix.id_table.kv()[i] == seq![Seq::<char>::empty(), s];
        assert(is_legal_pretty(ix.id_table.kv()[i][0]));
        assert(seq![Seq::<char>::empty(), s][0] == Seq::<char>::empty());
    }
}

/// Adjusting both ends of a column range by the same indentation keeps them
/// in order.
pub proof fn lemma_bounds_ordered(col_start: u32, col_end: u32, offset: nat)
    requires
        col_start <= col_end,
    ensures
        adjust_col(col_start, offset) <= adjust_col(col_end, offset),
{
}

/// The number of `Def` occurrences stored at positions `lo` up to `hi`.
pub open spec fn def_count(t: SortedTable<Vec<SearchResult>>, lo: int, hi: int) -> int
    decreases hi - lo,
{
    if hi <= lo {
        0
    } else {
        def_count(t, lo, hi - 1) + if t.kv()[hi - 1][1] == crate::records::kind_name(crate::records::AnalysisKind::Def) {
            t.vals@[hi - 1]@.len() as int
        } else {
            0
        }
    }
}

proof fn lemma_def_count(t: SortedTable<Vec<SearchResult>>, lo: int, hi: int)
    requires
        0 <= lo,
        hi <= t.vals@.len(),
        forall|j: int| lo <= j < hi ==> t.vals@[j]@.len() > 0,
    ensures
        def_count(t, lo, hi) >= def_items(t, lo, hi).len(),
        def_items(t, lo, hi).len() == 0 ==> def_count(t, lo, hi) == 0,
        def_items(t, lo, hi).len() == 1 ==> def_count(t, lo, hi) == t.vals@[def_items(t, lo, hi)[0]]@.len(),
    decreases hi - lo,
{
    if hi > lo {
        lemma_def_count(t, lo, hi - 1);
        let d = def_items(t, lo, hi - 1);
        if t.kv()[hi - 1][1] == crate::records::kind_name(crate::records::AnalysisKind::Def) {
            assert(def_items(t, lo, hi) =~= d.push(hi - 1));
        } else {
            assert(def_items(t, lo, hi) =~= d);
        }
    }
}

/// A symbol, whose entries are `lo` up to `hi`, gets a jump exactly when it
/// has one `Def` occurrence in all: definitions in one file only, and a single
/// one there.
pub proof fn lemma_jump_iff_single_def(ix: CrossIndex, lo: int, hi: int)
    requires
        ix.wf(),
        0 <= lo <= hi <= ix.table.keys.len(),
    ensures
        (ix.jump(lo, hi).len() > 0) == (def_count(ix.table, lo, hi) == 1),
        (ix.jump(lo, hi).len() > 0) == {
            let d = def_items(ix.table, lo, hi);
            d.len() == 1 && ix.table.vals@[d[0]]@.len() == 1
        },
{
    assert forall|j: int| lo <= j < hi implies ix.table.vals@[j]@.len() > 0 by {
        assert(ix.table.kv()[j].len() == 3);
    }
    lemma_def_count(ix.table, lo, hi);
}

/// After linking `ipc`, both its source side and its target side, where they
/// have metadata, name `ipc` as their IDL symbol.
pub proof fn lemma_link_sets_idl(m: Map<Seq<char>, MetaView>, ipc: Seq<char>)
    requires
        m.contains_key(ipc),
    ensures
        m.contains_key(m[ipc].src_sym) ==> link_step(m, ipc)[m[ipc].src_sym].idl_sym == ipc,
        m.contains_key(m[ipc].target_sym) ==> link_step(m, ipc)[m[ipc].target_sym].idl_sym == ipc,
        link_step(m, ipc).dom() == m.dom(),
{
    let r = link_step(m, ipc);
    assert(r.dom() =~= m.dom());
}

/// A peek range that starts at 0 gives no peek block.
pub proof fn lemma_no_peek(e: Seq<(Seq<char>, nat)>, end: nat)
    ensures
        peek_of(e, 0, end) == Seq::<char>::empty(),
{
}

/// Whether two indexes hold the same contents: the same occurrence lists,
/// pretty names, identifier keys, metadata and consumed symbols.
pub open spec fn same_contents(a: CrossIndex, b: CrossIndex) -> bool {
    &&& forall|k: Seq<Seq<char>>| a.table.has(k) == b.table.has(k)
    &&& forall|k: Seq<Seq<char>>| a.table.list(k) == b.table.list(k)
    &&& forall|k: Seq<Seq<char>>| a.pretty_table.has(k) == b.pretty_table.has(k)
    &&& forall|k: Seq<Seq<char>>| a.pretty_table.has(k) ==> a.pretty_table.get(k).unwrap()@ == b.pretty_table.get(k).unwrap()@
    &&& forall|k: Seq<Seq<char>>| a.id_table.has(k) == b.id_table.has(k)
    &&& a.metas() == b.metas()
    &&& forall|c: Seq<char>| a.consumes_table.has(seq![c]) == b.consumes_table.has(seq![c])
    &&& forall|c: Seq<char>, x: Seq<char>| a.consumes(c, x) == b.consumes(c, x)
}

proof fn lemma_kind_items_eq(t: SortedTable<Vec<SearchResult>>, u: SortedTable<Vec<SearchResult>>, name: Seq<char>, lo: int, hi: int)
    requires
        t.kv() == u.kv(),
        t.vals@.len() == u.vals@.len(),
        forall|j: int| 0 <= j < t.vals@.len() ==> t.vals@[j]@ == u.vals@[j]@,
        0 <= lo,
        hi <= t.vals@.len(),
    ensures
        kind_items(t, name, lo, hi) == kind_items(u, name, lo, hi),
        def_items(t, lo, hi) == def_items(u, lo, hi),
    decreases hi - lo,
{
    if hi > lo {
        lemma_kind_items_eq(t, u, name, lo, hi - 1);
        assert(path_json(t, hi - 1) == path_json(u, hi - 1));
    }
}

proof fn lemma_upto_eq(a: CrossIndex, b: CrossIndex, n: int)
    requires
        a.wf(),
        b.wf(),
        same_contents(a, b),
        a.table.kv() == b.table.kv(),
        a.table.vals@.len() == b.table.vals@.len(),
        forall|j: int| 0 <= j < a.table.vals@.len() ==> a.table.vals@[j]@ == b.table.vals@[j]@,
        forall|c: Seq<char>| a.consumes_table.has(seq![c]) ==> a.consumes_table.get(seq![c]).unwrap().kv()
            == b.consumes_table.get(seq![c]).unwrap().kv(),
        n <= a.table.kv().len(),
    ensures
        a.crossref_upto(n) == b.crossref_upto(n),
        a.jumps_upto(n) == b.jumps_upto(n),
    decreases n,
{
    if n > 0 {
        lemma_upto_eq(a, b, n - 1);
        let kv = a.table.kv();
        if crate::output::ends_group(kv, n - 1) {
            let lo = group_start(kv, n - 1);
            lemma_group_start_bounds(kv, n - 1);
            let s = kv[lo][0];
            lemma_kind_items_eq(a.table, b.table, crate::records::kind_name(crate::records::AnalysisKind::Assign), lo, n);
            lemma_kind_items_eq(a.table, b.table, crate::records::kind_name(crate::records::AnalysisKind::Decl), lo, n);
            lemma_kind_items_eq(a.table, b.table, crate::records::kind_name(crate::records::AnalysisKind::Def), lo, n);
            lemma_kind_items_eq(a.table, b.table, crate::records::kind_name(crate::records::AnalysisKind::Idl), lo, n);
            lemma_kind_items_eq(a.table, b.table, crate::records::kind_name(crate::records::AnalysisKind::Ipc), lo, n);
            lemma_kind_items_eq(a.table, b.table, crate::records::kind_name(crate::records::AnalysisKind::Use), lo, n);
            assert(a.meta_table.has(seq![s]) == a.metas().contains_key(s));
            assert(b.meta_table.has(seq![s]) == b.metas().contains_key(s));
            if a.meta_table.has(seq![s]) {
                assert(a.metas()[s] == a.meta_table.get(seq![s]).unwrap()@);
                assert(b.metas()[s] == b.meta_table.get(seq![s]).unwrap()@);
            }
            assert(a.meta_member(s) == b.meta_member(s));
            if a.consumes_table.has(seq![s]) {
                let ia = a.consumes_table.get(seq![s]).unwrap();
                let ib = b.consumes_table.get(seq![s]).unwrap();
                assert(ia.kv() == ib.kv());
                assert(ia.kv().len() == ia.keys.len());
                assert(ib.kv().len() == ib.keys.len());
                lemma_consumed_items_eq(a, b, ia, ib, ia.keys.len() as int);
            }
            assert(a.consumes_member(s) == b.consumes_member(s));
            assert(a.members(lo, n) == b.members(lo, n));
            assert(a.record(lo, n) == b.record(lo, n));
            let d = def_items(a.table, lo, n);
            if d.len() == 1 {
                lemma_def_items_in_range(a.table, lo, n);
            }
            assert(a.jump(lo, n) == b.jump(lo, n));
        }
    }
}

proof fn lemma_group_start_bounds(kv: Seq<Seq<Seq<char>>>, j: int)
    requires
        0 <= j,
    ensures
        0 <= group_start(kv, j) <= j,
    decreases j,
{
    if j > 0 && kv[j - 1][0] == kv[j][0] {
        lemma_group_start_bounds(kv, j - 1);
    }
}

proof fn lemma_def_items_in_range(t: SortedTable<Vec<SearchResult>>, lo: int, hi: int)
    ensures
        forall|i: int| 0 <= i < def_items(t, lo, hi).len() ==> lo <= #[trigger] def_items(t, lo, hi)[i] < hi,
    decreases hi - lo,
{
    if hi > lo {
        lemma_def_items_in_range(t, lo, hi - 1);
        let p = def_items(t, lo, hi - 1);
        assert forall|i: int| 0 <= i < def_items(t, lo, hi).len() implies lo <= #[trigger] def_items(t, lo, hi)[i] < hi by {
            if i < p.len() {
                assert(def_items(t, lo, hi)[i] == p[i]);
            }
        }
    }
}

proof fn lemma_consumed_items_eq(a: CrossIndex, b: CrossIndex, ia: SortedTable<()>, ib: SortedTable<()>, n: int)
    requires
        same_contents(a, b),
        ia.kv() == ib.kv(),
    ensures
        a.consumed_items(ia, n) == b.consumed_items(ib, n),
    decreases n,
{
    assert(ia.kv().len() == ia.keys.len());
    assert(ib.kv().len() == ib.keys.len());
    if n > 0 && n <= ia.keys.len() {
        lemma_consumed_items_eq(a, b, ia, ib, n - 1);
        let c = ia.kv()[n - 1][0];
        assert(a.meta_table.has(seq![c]) == a.metas().contains_key(c));
        assert(b.meta_table.has(seq![c]) == b.metas().contains_key(c));
        if a.meta_table.has(seq![c]) {
            assert(a.metas()[c] == a.meta_table.get(seq![c]).unwrap()@);
            assert(b.metas()[c] == b.meta_table.get(seq![c]).unwrap()@);
            assert(a.consumed_json(c) == b.consumed_json(c));
        }
    }
}

proof fn lemma_identifiers_eq(a: CrossIndex, b: CrossIndex, n: int)
    requires
        a.id_table.kv() == b.id_table.kv(),
    ensures
        a.identifiers_upto(n) == b.identifiers_upto(n),
    decreases n,
{
    if n > 0 {
        lemma_identifiers_eq(a, b, n - 1);
    }
}

/// The outputs depend on the contents of the index alone, not on the order in
/// which its entries were stored: two indexes with the same contents give
/// identical `crossref`, `jumps` and `identifiers` text.
pub proof fn lemma_outputs_depend_on_contents(a: CrossIndex, b: CrossIndex)
    requires
        a.wf(),
        b.wf(),
        same_contents(a, b),
    ensures
        a.crossref_text() == b.crossref_text(),
        a.jumps_text() == b.jumps_text(),
        a.identifiers_text() == b.identifiers_text(),
{
    lemma_same_keys_same_order(a.table, b.table);
    lemma_same_keys_same_order(a.id_table, b.id_table);
    assert(a.table.kv().len() == a.table.keys.len());
    assert(b.table.kv().len() == b.table.keys.len());
    assert forall|j: int| 0 <= j < a.table.vals@.len() implies a.table.vals@[j]@ == b.table.vals@[j]@ by {
        a.table.lemma_get_at(j);
        b.table.lemma_get_at(j);
        assert(a.table.list(a.table.kv()[j]) == b.table.list(a.table.kv()[j]));
    }
    assert forall|c: Seq<char>| a.consumes_table.has(seq![c]) implies a.consumes_table.get(seq![c]).unwrap().kv()
        == b.consumes_table.get(seq![c]).unwrap().kv() by {
        let ia = a.consumes_table.get(seq![c]).unwrap();
        let ib = b.consumes_table.get(seq![c]).unwrap();
        let i = a.consumes_table.index_of(seq![c]);
        let j = b.consumes_table.index_of(seq![c]);
        a.consumes_table.lemma_get_at(i);
        b.consumes_table.lemma_get_at(j);
        assert forall|k: Seq<Seq<char>>| ia.has(k) == ib.has(k) by {
            if ia.has(k) {
                let p = choose|p: int| 0 <= p < ia.keys.len() && #[trigger] ia.kv()[p] == k;
                assert(ia.kv()[p].len() == 1);
                assert(k =~= seq![k[0]]);
                assert(a.consumes(c, k[0]));
            }
            if ib.has(k) {
                let p = choose|p: int| 0 <= p < ib.keys.len() && #[trigger] ib.kv()[p] == k;
                assert(ib.kv()[p].len() == 1);
                assert(k =~= seq![k[0]]);
                assert(b.consumes(c, k[0]));
            }
        }
        lemma_same_keys_same_order(ia, ib);
    }
    lemma_upto_eq(a, b, a.table.kv().len() as int);
    lemma_identifiers_eq(a, b, a.id_table.kv().len() as int);
}

/// No IPC symbol of `ipcs` is a side (source or target) of one of them.
pub open spec fn sides_apart(m: Map<Seq<char>, MetaView>, ipcs: Seq<Seq<char>>) -> bool {
    forall|q: int| 0 <= q < ipcs.len() && m.contains_key(#[trigger] ipcs[q]) ==> {
        &&& !ipcs.contains(m[ipcs[q]].src_sym)
        &&& !ipcs.contains(m[ipcs[q]].target_sym)
    }
}

proof fn lemma_link_all_dom(m: Map<Seq<char>, MetaView>, ipcs: Seq<Seq<char>>, n: int)
    ensures
        link_all(m, ipcs, n).dom() == m.dom(),
    decreases n,
{
    if n > 0 && n <= ipcs.len() {
        lemma_link_all_dom(m, ipcs, n - 1);
        lemma_link_sets_idl_dom(link_all(m, ipcs, n - 1), ipcs[n - 1]);
    }
}

proof fn lemma_link_sets_idl_dom(m: Map<Seq<char>, MetaView>, ipc: Seq<char>)
    ensures
        link_step(m, ipc).dom() == m.dom(),
{
    assert(link_step(m, ipc).dom() =~= m.dom());
}

proof fn lemma_link_keeps_ipcs(m: Map<Seq<char>, MetaView>, ipcs: Seq<Seq<char>>, n: int)
    requires
        sides_apart(m, ipcs),
        n <= ipcs.len(),
    ensures
        forall|q: int| 0 <= q < ipcs.len() && m.contains_key(#[trigger] ipcs[q])
            ==> link_all(m, ipcs, n)[ipcs[q]] == m[ipcs[q]],
    decreases n,
{
    if n > 0 {
        lemma_link_keeps_ipcs(m, ipcs, n - 1);
        lemma_link_all_dom(m, ipcs, n - 1);
        let mp = link_all(m, ipcs, n - 1);
        let ipc = ipcs[n - 1];
        assert forall|q: int| 0 <= q < ipcs.len() && m.contains_key(#[trigger] ipcs[q])
            implies link_all(m, ipcs, n)[ipcs[q]] == m[ipcs[q]] by {
            if mp.contains_key(ipc) {
                assert(mp[ipc] == m[ipc]);
                assert(ipcs[q] != m[ipc].src_sym);
                assert(ipcs[q] != m[ipc].target_sym);
            }
        }
    }
}

proof fn lemma_link_after(m: Map<Seq<char>, MetaView>, ipcs: Seq<Seq<char>>, p: int, n: int)
    requires
        0 <= p < n <= ipcs.len(),
        m.contains_key(ipcs[p]),
        sides_apart(m, ipcs),
        forall|q: int| 0 <= q < ipcs.len() && q != p && m.contains_key(#[trigger] ipcs[q]) ==> {
            let a = m[ipcs[q]];
            let b = m[ipcs[p]];
            a.src_sym != b.src_sym && a.src_sym != b.target_sym && a.target_sym != b.src_sym && a.target_sym != b.target_sym
        },
    ensures
        ({
            let r = link_all(m, ipcs, n);
            let ipc = ipcs[p];
            let src = m[ipc].src_sym;
            let tgt = m[ipc].target_sym;
            &&& m.contains_key(src) ==> r[src].idl_sym == ipc && r[src].target_sym == tgt
            &&& m.contains_key(tgt) ==> r[tgt].idl_sym == ipc && r[tgt].src_sym == src
        }),
    decreases n,
{
    let ipc = ipcs[p];
    lemma_link_keeps_ipcs(m, ipcs, n - 1);
    lemma_link_all_dom(m, ipcs, n - 1);
    let mp = link_all(m, ipcs, n - 1);
    if n - 1 > p {
        lemma_link_after(m, ipcs, p, n - 1);
        let q = n - 1;
        if mp.contains_key(ipcs[q]) {
            assert(mp[ipcs[q]] == m[ipcs[q]]);
        }
    } else {
        assert(mp[ipc] == m[ipc]);
    }
}

/// After linking every IPC symbol of `ipcs`, the source side and the target
/// side of `ipcs[p]` (where they have metadata) name it as their IDL symbol and
/// each other as target and source, provided no IPC symbol is a side of one
/// and no other linked IPC symbol shares a side with it.
pub proof fn lemma_link_all_sets_idl(m: Map<Seq<char>, MetaView>, ipcs: Seq<Seq<char>>, p: int)
    requires
        0 <= p < ipcs.len(),
        m.contains_key(ipcs[p]),
        sides_apart(m, ipcs),
        forall|q: int| 0 <= q < ipcs.len() && q != p && m.contains_key(#[trigger] ipcs[q]) ==> {
            let a = m[ipcs[q]];
            let b = m[ipcs[p]];
            a.src_sym != b.src_sym && a.src_sym != b.target_sym && a.target_sym != b.src_sym && a.target_sym != b.target_sym
        },
    ensures
        ({
            let r = link_all(m, ipcs, ipcs.len() as int);
            let ipc = ipcs[p];
            let src = m[ipc].src_sym;
            let tgt = m[ipc].target_sym;
            &&& m.contains_key(src) ==> r[src].idl_sym == ipc && r[src].target_sym == tgt
            &&& m.contains_key(tgt) ==> r[tgt].idl_sym == ipc && r[tgt].src_sym == src
        }),
{
    lemma_link_after(m, ipcs, p, ipcs.len() as int);
}

} // verus!
