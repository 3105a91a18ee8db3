//! The aggregator: the tables built from the analysis records of every file,
//! and the pass that links IPC symbols to their two sides.

use vstd::prelude::*;
use crate::intern::{StringIntern, share};
use crate::lines::{SourceLines, line_entry, peek_of, raw_view};
use crate::records::{
    AnalysisKind, AnalysisSource, AnalysisTarget, MetaView, SearchResult, SymbolMeta,
    adjust_col, is_legal_pretty, kind_name, kind_name_chars, text_or_empty,
};
use crate::table::{Interned, SortedTable, key_of};

verus! {

/// The tables of the index.
/// - `table`: occurrences under `[sym, kind name, path]`, in the order read.
/// - `pretty_table`: the pretty name of each symbol, under `[sym]`.
/// - `id_table`: the keys `[pretty, sym]` of the identifier index.
/// - `meta_table`: the metadata of each defined symbol, under `[sym]`.
/// - `consumes_table`: under `[contextsym]`, the set of keys `[sym]` of the
///   symbols used there.
/// - `ipc_to_link`: the IPC symbols whose metadata was stored, in order.
pub struct CrossIndex {
    pub strings: StringIntern,
    pub table: SortedTable<Vec<SearchResult>>,
    pub pretty_table: SortedTable<Interned>,
    pub id_table: SortedTable<()>,
    pub meta_table: SortedTable<SymbolMeta>,
    pub consumes_table: SortedTable<SortedTable<()>>,
    pub ipc_to_link: Vec<Interned>,
}

/// The key of an occurrence of `sym` of kind `kind` in file `path`.
pub open spec fn occ_key(sym: Seq<char>, kind: AnalysisKind, path: Seq<char>) -> Seq<Seq<char>> {
    seq![sym, kind_name(kind), path]
}

/// Whether `r` is what is stored for target record `t`, read against the
/// file whose lines are `e`.
pub open spec fn result_for(r: SearchResult, t: AnalysisTarget, e: Seq<(Seq<char>, nat)>) -> bool {
    &&& r.lineno == t.loc.lineno
    &&& r.bounds == (adjust_col(t.loc.col_start, e[t.loc.lineno - 1].1), adjust_col(t.loc.col_end, e[t.loc.lineno - 1].1))
    &&& r.line@ == e[t.loc.lineno - 1].0
    &&& r.context@ == t.context@
    &&& r.contextsym@ == t.contextsym@
    &&& r.peek_lines@ == peek_of(e, t.peek_range.start_lineno as nat, t.peek_range.end_lineno as nat)
}

/// The metadata stored for a source record.
pub open spec fn meta_for(s: AnalysisSource) -> MetaView {
    MetaView {
        syntax_kind: text_or_empty(s.syntax_kind),
        type_pretty: text_or_empty(s.type_pretty),
        type_sym: text_or_empty(s.type_sym),
        src_sym: text_or_empty(s.src_sym),
        target_sym: text_or_empty(s.target_sym),
        idl_sym: Seq::empty(),
    }
}

/// Whether a source record carries metadata: a definition with a syntax kind.
pub open spec fn carries_meta(s: AnalysisSource) -> bool {
    s.is_def && s.syntax_kind is Some && s.syms@.len() > 0
}

/// A `SymbolMeta` holding the same handles as `m`.
fn copy_meta(m: &SymbolMeta) -> (r: SymbolMeta)
    ensures
        r@ == m@,
{
    SymbolMeta {
        syntax_kind: share(&m.syntax_kind),
        type_pretty: share(&m.type_pretty),
        type_sym: share(&m.type_sym),
        src_sym: share(&m.src_sym),
        target_sym: share(&m.target_sym),
        idl_sym: share(&m.idl_sym),
    }
}

fn intern_opt(strings: &mut StringIntern, o: &Option<String>) -> (r: Interned)
    requires
        old(strings).wf(),
    ensures
        final(strings).wf(),
        r@ == text_or_empty(*o),
{
    match o {
        Some(s) => strings.add(s.clone()),
        None => strings.add_chars(Vec::new()),
    }
}

fn legal_pretty(p: &[char]) -> (r: bool)
    ensures
        r == is_legal_pretty(p@),
{
    if p.len() == 0 {
        return false;
    }
    if '0' <= p[0] && p[0] <= '9' {
        return false;
    }
    let mut i: usize = 0;
    while i < p.len()
        invariant
            i <= p@.len(),
            forall|j: int| 0 <= j < i ==> p@[j] != ' ',
        decreases p@.len() - i,
    {
        if p[i] == ' ' {
            assert(p@[i as int] == ' ');
            return false;
        }
        i = i + 1;
    }
    true
}

impl CrossIndex {
    pub open spec fn wf(&self) -> bool {
        &&& self.strings.wf()
        &&& self.table.wf()
        &&& self.pretty_table.wf()
        &&& self.id_table.wf()
        &&& self.meta_table.wf()
        &&& self.consumes_table.wf()
        &&& forall|i: int| 0 <= i < self.table.keys.len() ==> {
            &&& (#[trigger] self.table.kv()[i]).len() == 3
            &&& self.pretty_table.has(seq![self.table.kv()[i][0]])
            &&& self.table.vals@[i]@.len() > 0
        }
        &&& forall|i: int| 0 <= i < self.id_table.keys.len() ==> {
            &&& (#[trigger] self.id_table.kv()[i]).len() == 2
            &&& is_legal_pretty(self.id_table.kv()[i][0])
        }
        &&& forall|i: int| 0 <= i < self.meta_table.keys.len() ==> (#[trigger] self.meta_table.kv()[i]).len() == 1
        &&& forall|i: int| 0 <= i < self.consumes_table.keys.len() ==> {
            &&& (#[trigger] self.consumes_table.kv()[i]).len() == 1
            &&& self.consumes_table.vals@[i].wf()
            &&& forall|j: int| 0 <= j < self.consumes_table.vals@[i].keys.len()
                ==> (#[trigger] self.consumes_table.vals@[i].kv()[j]).len() == 1
        }
    }

    /// Whether `x` was used inside the context symbol `c`.
    pub open spec fn consumes(&self, c: Seq<char>, x: Seq<char>) -> bool {
        &&& self.consumes_table.has(seq![c])
        &&& self.consumes_table.get(seq![c]).unwrap().has(seq![x])
    }

    /// The metadata of each symbol that has some.
    pub open spec fn metas(&self) -> Map<Seq<char>, MetaView> {
        Map::new(
            |s: Seq<char>| self.meta_table.has(seq![s]),
            |s: Seq<char>| self.meta_table.get(seq![s]).unwrap()@,
        )
    }

    /// The texts of the IPC symbols waiting to be linked.
    pub open spec fn ipc_view(&self) -> Seq<Seq<char>> {
        self.ipc_to_link@.map_values(|h: Interned| h@)
    }

    /// An index with every table empty.
    pub fn new() -> (r: CrossIndex)
        ensures
            r.wf(),
            r.table.keys@.len() == 0,
            r.pretty_table.keys@.len() == 0,
            r.id_table.keys@.len() == 0,
            r.meta_table.keys@.len() == 0,
            r.consumes_table.keys@.len() == 0,
            r.ipc_to_link@.len() == 0,
    {
        CrossIndex {
            strings: StringIntern::new(),
            table: SortedTable::new(),
            pretty_table: SortedTable::new(),
            id_table: SortedTable::new(),
            meta_table: SortedTable::new(),
            consumes_table: SortedTable::new(),
            ipc_to_link: Vec::new(),
        }
    }

    /// Records that `x` is used inside `c`.
    fn add_consumed(&mut self, c: Interned, x: Interned)
        requires
            old(self).wf(),
        ensures
            final(self).wf(),
            forall|c2: Seq<char>, x2: Seq<char>| #[trigger] final(self).consumes(c2, x2) == (old(self).consumes(c2, x2)
                || (c2 == c@ && x2 == x@)),
            forall|c2: Seq<char>| #[trigger] final(self).consumes_table.has(seq![c2]) == (old(self).consumes_table.has(seq![c2])
                || c2 == c@),
            final(self).strings == old(self).strings,
            final(self).table == old(self).table,
            final(self).pretty_table == old(self).pretty_table,
            final(self).id_table == old(self).id_table,
            final(self).meta_table == old(self).meta_table,
            final(self).ipc_to_link == old(self).ipc_to_link,
    {
        let ckey: Vec<Interned> = vec![c];
        let xkey: Vec<Interned> = vec![x];
        let ghost cv = c@;
        let ghost xv = x@;
        assert(key_of(ckey@) =~= seq![cv]);
        assert(key_of(xkey@) =~= seq![xv]);
        match self.consumes_table.find(&ckey) {
            Ok(i) => {
                proof {
                    self.consumes_table.lemma_get_at(i as int);
                }
                let ghost inner_old = self.consumes_table.vals@[i as int];
                self.consumes_table.vals[i].put_if_absent(xkey, ());
                proof {
                    let inner = self.consumes_table.vals@[i as int];
                    assert(self.consumes_table.kv() == old(self).consumes_table.kv());
                    assert forall|j: int| 0 <= j < inner.keys.len() implies (#[trigger] inner.kv()[j]).len() == 1 by {
                        assert(inner.has(inner.kv()[j]));
                        if inner_old.has(inner.kv()[j]) {
                            let j2 = choose|j2: int| 0 <= j2 < inner_old.keys.len() && #[trigger] inner_old.kv()[j2] == inner.kv()[j];
                        }
                    }
                    assert forall|c2: Seq<char>, x2: Seq<char>| #[trigger] self.consumes(c2, x2) == (old(self).consumes(c2, x2)
                        || (c2 == cv && x2 == xv)) by {
                        self.consumes_table.lemma_get_at(i as int);
                        if self.consumes_table.has(seq![c2]) {
                            let j = choose|j: int| 0 <= j < self.consumes_table.keys.len() && #[trigger] self.consumes_table.kv()[j] == seq![c2];
                            self.consumes_table.lemma_get_at(j);
                            old(self).consumes_table.lemma_get_at(j);
                            if j == i {
                                assert(seq![c2][0] == seq![cv][0]);
                            } else {
                                assert(self.consumes_table.vals@[j] == old(self).consumes_table.vals@[j]);
                            }
                        }
                        if seq![x2] == seq![xv] {
                            assert(seq![x2][0] == seq![xv][0]);
                        }
                    }
                }
            },
            Err(i) => {
                let mut inner: SortedTable<()> = SortedTable::new();
                inner.put_if_absent(xkey, ());
                let ghost inner_v = inner;
                self.consumes_table.insert_at(i, ckey, inner);
                proof {
                    assert forall|j: int| 0 <= j < inner_v.keys.len() implies (#[trigger] inner_v.kv()[j]).len() == 1 by {
                        assert(inner_v.has(inner_v.kv()[j]));
                    }
                    assert forall|a: int| 0 <= a < self.consumes_table.keys.len() implies {
                        &&& (#[trigger] self.consumes_table.kv()[a]).len() == 1
                        &&& self.consumes_table.vals@[a].wf()
                        &&& forall|j: int| 0 <= j < self.consumes_table.vals@[a].keys.len()
                            ==> (#[trigger] self.consumes_table.vals@[a].kv()[j]).len() == 1
                    } by {
                        if a < i {
                            assert(self.consumes_table.vals@[a] == old(self).consumes_table.vals@[a]);
                            assert(self.consumes_table.kv()[a] == old(self).consumes_table.kv()[a]);
                        } else if a > i {
                            assert(self.consumes_table.vals@[a] == old(self).consumes_table.vals@[a - 1]);
                            assert(self.consumes_table.kv()[a] == old(self).consumes_table.kv()[a - 1]);
                        }
                    }
                    assert forall|c2: Seq<char>, x2: Seq<char>| #[trigger] self.consumes(c2, x2) == (old(self).consumes(c2, x2)
                        || (c2 == cv && x2 == xv)) by {
                        self.consumes_table.lemma_get_at(i as int);
                        if self.consumes_table.has(seq![c2]) {
                            let j = choose|j: int| 0 <= j < self.consumes_table.keys.len() && #[trigger] self.consumes_table.kv()[j] == seq![c2];
                            self.consumes_table.lemma_get_at(j);
                            if j < i {
                                old(self).consumes_table.lemma_get_at(j);
                            } else if j > i {
                                old(self).consumes_table.lemma_get_at(j - 1);
                            } else {
                                assert(seq![c2][0] == seq![cv][0]);
                            }
                        }
                        if old(self).consumes_table.has(seq![c2]) {
                            let j = choose|j: int| 0 <= j < old(self).consumes_table.keys.len() && #[trigger] old(self).consumes_table.kv()[j] == seq![c2];
                            old(self).consumes_table.lemma_get_at(j);
                            let j2 = if j < i { j } else { j + 1 };
                            self.consumes_table.lemma_get_at(j2);
                            assert(self.consumes_table.kv()[j2] == seq![c2]);
                        }
                        if seq![x2] == seq![xv] {
                            assert(seq![x2][0] == seq![xv][0]);
                        }
                    }
                    assert forall|c2: Seq<char>| #[trigger] self.consumes_table.has(seq![c2]) == (old(self).consumes_table.has(seq![c2])
                        || c2 == cv) by {
                        if self.consumes_table.has(seq![c2]) {
                            let j = choose|j: int| 0 <= j < self.consumes_table.keys.len() && #[trigger] self.consumes_table.kv()[j] == seq![c2];
                            if j < i {
                                assert(old(self).consumes_table.kv()[j] == seq![c2]);
                            } else if j > i {
                                assert(old(self).consumes_table.kv()[j - 1] == seq![c2]);
                            } else {
                                assert(seq![c2][0] == seq![cv][0]);
                            }
                        }
                        if old(self).consumes_table.has(seq![c2]) {
                            let j = choose|j: int| 0 <= j < old(self).consumes_table.keys.len() && #[trigger] old(self).consumes_table.kv()[j] == seq![c2];
                            let j2 = if j < i { j } else { j + 1 };
                            assert(self.consumes_table.kv()[j2] == seq![c2]);
                        }
                        if c2 == cv {
                            assert(self.consumes_table.kv()[i as int] == seq![c2]);
                        }
                    }
                }
            },
        }
    }

    /// Ingests one target record of the file `path`, whose lines are `lines`.
    /// A record whose line number is not a line of the file is dropped (and
    /// `false` returned); otherwise its occurrence is appended under
    /// `[sym, kind, path]`, its pretty name recorded, a use inside a named
    /// context recorded under that context, and a legal pretty name listed in
    /// the identifier index.
    pub fn add_target(&mut self, path: &str, lines: &SourceLines, t: &AnalysisTarget) -> (r: bool)
        requires
            old(self).wf(),
        ensures
            final(self).wf(),
            r == (1 <= t.loc.lineno && t.loc.lineno <= lines.entries().len()),
            !r ==> *final(self) == *old(self),
            r ==> {
                let key = occ_key(t.sym@, t.kind, path@);
                &&& forall|k: Seq<Seq<char>>| #[trigger] final(self).table.has(k) == (old(self).table.has(k) || k == key)
                &&& forall|k: Seq<Seq<char>>| k != key ==> #[trigger] final(self).table.list(k) == old(self).table.list(k)
                &&& final(self).table.list(key).drop_last() == old(self).table.list(key)
                &&& final(self).table.list(key).len() == old(self).table.list(key).len() + 1
                &&& result_for(final(self).table.list(key).last(), *t, lines.entries())
                &&& forall|k: Seq<Seq<char>>| #[trigger] final(self).pretty_table.has(k) == (old(self).pretty_table.has(k) || k == seq![t.sym@])
                &&& forall|k: Seq<Seq<char>>| k != seq![t.sym@] ==> #[trigger] final(self).pretty_table.get(k) == old(self).pretty_table.get(k)
                &&& final(self).pretty_table.get(seq![t.sym@]).unwrap()@ == t.pretty@
                &&& forall|c: Seq<char>, x: Seq<char>| #[trigger] final(self).consumes(c, x) == (old(self).consumes(c, x)
                    || (t.kind == AnalysisKind::Use && t.contextsym@.len() > 0 && c == t.contextsym@ && x == t.sym@))
                &&& forall|c: Seq<char>| #[trigger] final(self).consumes_table.has(seq![c]) == (old(self).consumes_table.has(seq![c])
                    || (t.kind == AnalysisKind::Use && t.contextsym@.len() > 0 && c == t.contextsym@))
                &&& forall|k: Seq<Seq<char>>| #[trigger] final(self).id_table.has(k) == (old(self).id_table.has(k)
                    || (is_legal_pretty(t.pretty@) && k == seq![t.pretty@, t.sym@]))
                &&& final(self).meta_table == old(self).meta_table
                &&& final(self).ipc_to_link == old(self).ipc_to_link
            },
    {
        if t.loc.lineno == 0 || t.loc.lineno as usize > lines.lines.len() {
            return false;
        }
        let ghost e = lines.entries();
        let idx = (t.loc.lineno - 1) as usize;
        let sym = self.strings.add(t.sym.clone());
        let contextsym = self.strings.add(t.contextsym.clone());
        let context = self.strings.add(t.context.clone());
        let pretty = self.strings.add(t.pretty.clone());
        let kind = self.strings.add_chars(kind_name_chars(t.kind));
        let file = self.strings.add(path.to_owned());
        let (ref line, offset) = lines.lines[idx];
        assert(e[idx as int] == (line@, offset as nat));
        let b0 = if t.loc.col_start as usize >= offset { (t.loc.col_start as usize - offset) as u32 } else { 0 };
        let b1 = if t.loc.col_end as usize >= offset { (t.loc.col_end as usize - offset) as u32 } else { 0 };
        let peek = self.strings.add_chars(lines.peek_lines(t.peek_range.start_lineno, t.peek_range.end_lineno));
        let result = SearchResult {
            lineno: t.loc.lineno,
            bounds: (b0, b1),
            line: share(line),
            context,
            contextsym: share(&contextsym),
            peek_lines: peek,
        };
        let ghost old_table = self.table;
        let ghost old_pretty = self.pretty_table;
        let key: Vec<Interned> = vec![share(&sym), kind, file];
        assert(key_of(key@) =~= occ_key(t.sym@, t.kind, path@));
        self.table.push_to(key, result);
        let pkey: Vec<Interned> = vec![share(&sym)];
        assert(key_of(pkey@) =~= seq![t.sym@]);
        self.pretty_table.put(pkey, share(&pretty));
        proof {
            let key = occ_key(t.sym@, t.kind, path@);
            assert(old_table.list(key).push(result).drop_last() =~= old_table.list(key));
            assert forall|i: int| 0 <= i < self.table.keys.len() implies {
                &&& (#[trigger] self.table.kv()[i]).len() == 3
                &&& self.pretty_table.has(seq![self.table.kv()[i][0]])
                &&& self.table.vals@[i]@.len() > 0
            } by {
                let k = self.table.kv()[i];
                assert(self.table.has(k));
                self.table.lemma_get_at(i);
                if k != key {
                    assert(old_table.has(k));
                    let j = choose|j: int| 0 <= j < old_table.keys.len() && #[trigger] old_table.kv()[j] == k;
                    old_table.lemma_get_at(j);
                    assert(old_table.kv()[j].len() == 3);
                    assert(old_table.vals@[j]@.len() > 0);
                    assert(old_table.list(k) == old_table.vals@[j]@);
                    assert(self.table.list(k) == old_table.list(k));
                    assert(old_pretty.has(seq![k[0]]));
                } else {
                    assert(self.table.list(k) == old_table.list(k).push(result));
                    assert(k[0] == t.sym@);
                }
            }
            assert(self.wf());
        }
        let is_use = match t.kind {
            AnalysisKind::Use => true,
            _ => false,
        };
        if is_use && contextsym.len() > 0 {
            let ghost cv = contextsym@;
            self.add_consumed(contextsym, share(&sym));
            assert(t.kind == AnalysisKind::Use);
            assert(cv == t.contextsym@);
            assert(forall|c: Seq<char>, x: Seq<char>| #[trigger] self.consumes(c, x) == (old(self).consumes(c, x)
                    || (t.kind == AnalysisKind::Use && t.contextsym@.len() > 0 && c == t.contextsym@ && x == t.sym@)));
        } else {
            assert(forall|c: Seq<char>, x: Seq<char>| #[trigger] self.consumes(c, x) == (old(self).consumes(c, x)
                    || (t.kind == AnalysisKind::Use && t.contextsym@.len() > 0 && c == t.contextsym@ && x == t.sym@)));
        }
        let ghost mid = *self;
        if legal_pretty(pretty.as_slice()) {
            let ikey: Vec<Interned> = vec![pretty, sym];
            assert(key_of(ikey@) =~= seq![t.pretty@, t.sym@]);
            self.id_table.put_if_absent(ikey, ());
            proof {
            assert(seq![t.pretty@, t.sym@][0] == t.pretty@);
            assert(is_legal_pretty(t.pretty@));
            assert(self.consumes_table == mid.consumes_table);
            assert(self.table == mid.table);
            assert forall|i: int| 0 <= i < self.id_table.keys.len() implies {
                &&& (#[trigger] self.id_table.kv()[i]).len() == 2
                &&& is_legal_pretty(self.id_table.kv()[i][0])
            } by {
                let k = self.id_table.kv()[i];
                assert(self.id_table.has(k));
                if old(self).id_table.has(k) {
                    let j = choose|j: int| 0 <= j < old(self).id_table.keys.len() && #[trigger] old(self).id_table.kv()[j] == k;
                    assert(old(self).id_table.kv()[j].len() == 2);
                }
            }
            }
        }
        assert forall|c: Seq<char>, x: Seq<char>| #[trigger] self.consumes(c, x) == mid.consumes(c, x) by {}
        true
    }

    /// Ingests one source record. A definition with a syntax kind stores the
    /// metadata of its first symbol, unless that symbol has metadata already
    /// (the first record wins); an IPC symbol whose metadata was stored joins
    /// the list to link. Says whether metadata was stored.
    pub fn add_source(&mut self, s: &AnalysisSource) -> (r: bool)
        requires
            old(self).wf(),
        ensures
            final(self).wf(),
            r == (carries_meta(*s) && !old(self).metas().contains_key(s.syms@[0]@)),
            final(self).metas() == if r {
                old(self).metas().insert(s.syms@[0]@, meta_for(*s))
            } else {
                old(self).metas()
            },
            final(self).ipc_view() == if r && s.is_ipc {
                old(self).ipc_view().push(s.syms@[0]@)
            } else {
                old(self).ipc_view()
            },
            final(self).table == old(self).table,
            final(self).pretty_table == old(self).pretty_table,
            final(self).id_table == old(self).id_table,
            final(self).consumes_table == old(self).consumes_table,
    {
        if !s.is_def || s.syms.len() == 0 {
            return false;
        }
        let syntax_kind = match &s.syntax_kind {
            Some(k) => k,
            None => {
                return false;
            },
        };
        let sym = self.strings.add(s.syms[0].clone());
        let key: Vec<Interned> = vec![share(&sym)];
        assert(key_of(key@) =~= seq![s.syms@[0]@]);
        match self.meta_table.find(&key) {
            Ok(_) => {
                assert(old(self).metas().contains_key(s.syms@[0]@));
                false
            },
            Err(_) => {
                let meta = SymbolMeta {
                    syntax_kind: self.strings.add(syntax_kind.clone()),
                    type_pretty: intern_opt(&mut self.strings, &s.type_pretty),
                    type_sym: intern_opt(&mut self.strings, &s.type_sym),
                    src_sym: intern_opt(&mut self.strings, &s.src_sym),
                    target_sym: intern_opt(&mut self.strings, &s.target_sym),
                    idl_sym: self.strings.add_chars(Vec::new()),
                };
                assert(meta@ == meta_for(*s));
                let ghost old_metas = self.metas();
                let ghost old_meta_table = self.meta_table;
                self.meta_table.put_if_absent(key, meta);
                if s.is_ipc {
                    self.ipc_to_link.push(sym);
                }
                proof {
                    let x = s.syms@[0]@;
                    assert forall|t: Seq<char>| #[trigger] self.meta_table.has(seq![t]) == (old_meta_table.has(seq![t]) || t == x) by {
                        if seq![t] == seq![x] {
                            assert(seq![t][0] == seq![x][0]);
                        }
                    }
                    assert forall|t: Seq<char>| t != x ==> #[trigger] self.meta_table.get(seq![t]) == old_meta_table.get(seq![t]) by {
                        if seq![t] == seq![x] {
                            assert(seq![t][0] == seq![x][0]);
                        }
                    }
                    assert(self.metas() =~= old_metas.insert(x, meta_for(*s)));
                    assert(self.ipc_view() =~= if s.is_ipc { old(self).ipc_view().push(x) } else { old(self).ipc_view() });
                    assert forall|i: int| 0 <= i < self.meta_table.keys.len() implies (#[trigger] self.meta_table.kv()[i]).len() == 1 by {
                        let k = self.meta_table.kv()[i];
                        assert(self.meta_table.has(k));
                        if old_meta_table.has(k) {
                            let j = choose|j: int| 0 <= j < old_meta_table.keys.len() && #[trigger] old_meta_table.kv()[j] == k;
                            assert(old_meta_table.kv()[j].len() == 1);
                        }
                    }
                }
                true
            },
        }
    }

    /// Replaces the metadata at position `a` of the metadata table.
    fn set_meta(&mut self, a: usize, m: SymbolMeta)
        requires
            old(self).wf(),
            a < old(self).meta_table.keys.len(),
        ensures
            final(self).wf(),
            final(self).metas() == old(self).metas().insert(old(self).meta_table.kv()[a as int][0], m@),
            final(self).table == old(self).table,
            final(self).pretty_table == old(self).pretty_table,
            final(self).id_table == old(self).id_table,
            final(self).consumes_table == old(self).consumes_table,
            final(self).ipc_to_link == old(self).ipc_to_link,
            final(self).meta_table.keys == old(self).meta_table.keys,
    {
        let ghost x = self.meta_table.kv()[a as int][0];
        let ghost old_metas = self.metas();
        proof {
            assert(self.meta_table.kv()[a as int].len() == 1);
            assert(self.meta_table.kv()[a as int] =~= seq![x]);
        }
        self.meta_table.set_at(a, m);
        proof {
            assert forall|t: Seq<char>| #[trigger] self.meta_table.get(seq![t]) == (if t == x { Some(m) } else { old(self).meta_table.get(seq![t]) }) by {
                if seq![t] == seq![x] {
                    assert(seq![t][0] == seq![x][0]);
                }
            }
            assert(self.meta_table.has(seq![x]));
            assert(self.metas() =~= old_metas.insert(x, m@));
        }
    }

    /// Links every IPC symbol in `ipc_to_link`, in order: see `link_step`.
    pub fn link_ipc(&mut self)
        requires
            old(self).wf(),
        ensures
            final(self).wf(),
            final(self).metas() == link_all(old(self).metas(), old(self).ipc_view(), old(self).ipc_view().len() as int),
            final(self).table == old(self).table,
            final(self).pretty_table == old(self).pretty_table,
            final(self).id_table == old(self).id_table,
            final(self).consumes_table == old(self).consumes_table,
            final(self).ipc_to_link == old(self).ipc_to_link,
    {
        let ghost m0 = self.metas();
        let ghost ipcs = self.ipc_view();
        let mut n: usize = 0;
        while n < self.ipc_to_link.len()
            invariant
                self.wf(),
                ipcs == self.ipc_view(),
                n <= ipcs.len(),
                self.metas() == link_all(m0, ipcs, n as int),
                self.table == old(self).table,
                self.pretty_table == old(self).pretty_table,
                self.id_table == old(self).id_table,
                self.consumes_table == old(self).consumes_table,
                self.ipc_to_link == old(self).ipc_to_link,
            decreases ipcs.len() - n,
        {
            let ghost m = self.metas();
            let ipc = share(&self.ipc_to_link[n]);
            assert(ipc@ == ipcs[n as int]);
            let key: Vec<Interned> = vec![share(&ipc)];
            assert(key_of(key@) =~= seq![ipc@]);
            match self.meta_table.find(&key) {
                Err(_) => {
                    assert(!m.contains_key(ipc@));
                },
                Ok(j) => {
                    proof {
                        self.meta_table.lemma_get_at(j as int);
                        assert(m.contains_key(ipc@));
                        assert(m[ipc@] == self.meta_table.vals@[j as int]@);
                    }
                    let src = share(&self.meta_table.vals[j].src_sym);
                    let tgt = share(&self.meta_table.vals[j].target_sym);
                    let skey: Vec<Interned> = vec![share(&src)];
                    assert(key_of(skey@) =~= seq![src@]);
                    match self.meta_table.find(&skey) {
                        Ok(a) => {
                            proof {
                                self.meta_table.lemma_get_at(a as int);
                            }
                            let mut sm = copy_meta(&self.meta_table.vals[a]);
                            sm.idl_sym = share(&ipc);
                            sm.target_sym = share(&tgt);
                            self.set_meta(a, sm);
                        },
                        Err(_) => {},
                    }
                    let ghost m1 = self.metas();
                    let tkey: Vec<Interned> = vec![share(&tgt)];
                    assert(key_of(tkey@) =~= seq![tgt@]);
                    match self.meta_table.find(&tkey) {
                        Ok(b) => {
                            proof {
                                self.meta_table.lemma_get_at(b as int);
                            }
                            let mut tm = copy_meta(&self.meta_table.vals[b]);
                            tm.idl_sym = share(&ipc);
                            tm.src_sym = share(&src);
                            self.set_meta(b, tm);
                        },
                        Err(_) => {},
                    }
                },
            }
            n = n + 1;
        }
    }
}

/// The stored form of a file's raw lines.
pub open spec fn file_entries(raw: Seq<Option<String>>) -> Seq<(Seq<char>, nat)> {
    Seq::new(raw.len(), |i: int| line_entry(raw_view(raw[i])))
}

/// Whether target record `t` names a line of the file whose lines are `e`.
pub open spec fn is_kept(t: AnalysisTarget, e: Seq<(Seq<char>, nat)>) -> bool {
    1 <= t.loc.lineno && t.loc.lineno <= e.len()
}

/// The kept records among the first `n` of `ts` whose occurrence key in file
/// `path` is `k`, in order.
pub open spec fn kept_under(
    ts: Seq<AnalysisTarget>,
    e: Seq<(Seq<char>, nat)>,
    path: Seq<char>,
    k: Seq<Seq<char>>,
    n: int,
) -> Seq<AnalysisTarget>
    decreases n,
{
    if n <= 0 {
        Seq::empty()
    } else {
        kept_under(ts, e, path, k, n - 1) + if is_kept(ts[n - 1], e) && occ_key(ts[n - 1].sym@, ts[n - 1].kind, path) == k {
            seq![ts[n - 1]]
        } else {
            Seq::empty()
        }
    }
}

/// The pretty name of the last kept record of symbol `s` among the first `n`.
pub open spec fn last_pretty(ts: Seq<AnalysisTarget>, e: Seq<(Seq<char>, nat)>, s: Seq<char>, n: int) -> Option<Seq<char>>
    decreases n,
{
    if n <= 0 {
        None
    } else if is_kept(ts[n - 1], e) && ts[n - 1].sym@ == s {
        Some(ts[n - 1].pretty@)
    } else {
        last_pretty(ts, e, s, n - 1)
    }
}

/// Whether one of the first `n` records is a kept use of `x` inside the
/// non-empty context symbol `c`.
pub open spec fn uses_in(ts: Seq<AnalysisTarget>, e: Seq<(Seq<char>, nat)>, c: Seq<char>, x: Seq<char>, n: int) -> bool
    decreases n,
{
    n > 0 && (uses_in(ts, e, c, x, n - 1) || {
        let t = ts[n - 1];
        is_kept(t, e) && t.kind == AnalysisKind::Use && t.contextsym@.len() > 0 && c == t.contextsym@ && x == t.sym@
    })
}

/// Whether one of the first `n` records is a kept use inside the non-empty
/// context symbol `c`.
pub open spec fn uses_inside(ts: Seq<AnalysisTarget>, e: Seq<(Seq<char>, nat)>, c: Seq<char>, n: int) -> bool
    decreases n,
{
    n > 0 && (uses_inside(ts, e, c, n - 1) || {
        let t = ts[n - 1];
        is_kept(t, e) && t.kind == AnalysisKind::Use && t.contextsym@.len() > 0 && c == t.contextsym@
    })
}

/// Whether one of the first `n` records is kept, has a legal pretty name, and
/// gives the identifier key `k`.
pub open spec fn lists_id(ts: Seq<AnalysisTarget>, e: Seq<(Seq<char>, nat)>, k: Seq<Seq<char>>, n: int) -> bool
    decreases n,
{
    n > 0 && (lists_id(ts, e, k, n - 1) || {
        let t = ts[n - 1];
        is_kept(t, e) && is_legal_pretty(t.pretty@) && k == seq![t.pretty@, t.sym@]
    })
}

/// The metadata after the first `n` source records of `ss`: each record that
/// carries metadata stores it for its first symbol unless that symbol has some.
pub open spec fn metas_after(m: Map<Seq<char>, MetaView>, ss: Seq<AnalysisSource>, n: int) -> Map<Seq<char>, MetaView>
    decreases n,
{
    if n <= 0 {
        m
    } else {
        let p = metas_after(m, ss, n - 1);
        let s = ss[n - 1];
        if carries_meta(s) && !p.contains_key(s.syms@[0]@) {
            p.insert(s.syms@[0]@, meta_for(s))
        } else {
            p
        }
    }
}

/// The IPC symbols to link after the first `n` source records of `ss`,
/// starting from metadata `m` and list `q`.
pub open spec fn ipcs_after(m: Map<Seq<char>, MetaView>, q: Seq<Seq<char>>, ss: Seq<AnalysisSource>, n: int) -> Seq<Seq<char>>
    decreases n,
{
    if n <= 0 {
        q
    } else {
        let p = metas_after(m, ss, n - 1);
        let s = ss[n - 1];
        let prev = ipcs_after(m, q, ss, n - 1);
        if carries_meta(s) && !p.contains_key(s.syms@[0]@) && s.is_ipc {
            prev.push(s.syms@[0]@)
        } else {
            prev
        }
    }
}

impl CrossIndex {
    /// What ingesting the first `n` target records `ts` of file `path`, whose
    /// lines are `e`, makes of the index `o`: every kept record's occurrence is
    /// appended under its key in order, each symbol takes the pretty name of
    /// its last kept record, and the consumes edges and identifier keys grow by
    /// those of the kept records. Dropped records leave no trace.
    pub open spec fn targets_ingested(
        &self,
        o: CrossIndex,
        path: Seq<char>,
        e: Seq<(Seq<char>, nat)>,
        ts: Seq<AnalysisTarget>,
        n: int,
    ) -> bool {
        &&& forall|k: Seq<Seq<char>>| #[trigger] self.table.has(k) == (o.table.has(k) || kept_under(ts, e, path, k, n).len() > 0)
        &&& forall|k: Seq<Seq<char>>| #[trigger] self.table.list(k).len() == o.table.list(k).len() + kept_under(ts, e, path, k, n).len()
        &&& forall|k: Seq<Seq<char>>| #[trigger] self.table.list(k).subrange(0, o.table.list(k).len() as int) == o.table.list(k)
        &&& forall|k: Seq<Seq<char>>, j: int| 0 <= j < kept_under(ts, e, path, k, n).len() ==> result_for(
            self.table.list(k)[o.table.list(k).len() + j], #[trigger] kept_under(ts, e, path, k, n)[j], e)
        &&& forall|k: Seq<Seq<char>>| #[trigger] self.pretty_table.has(k) == (o.pretty_table.has(k)
            || (k.len() == 1 && last_pretty(ts, e, k[0], n) is Some))
        &&& forall|k: Seq<Seq<char>>| !(k.len() == 1 && last_pretty(ts, e, k[0], n) is Some)
            ==> #[trigger] self.pretty_table.get(k) == o.pretty_table.get(k)
        &&& forall|s: Seq<char>| #[trigger] last_pretty(ts, e, s, n) is Some
            ==> self.pretty_table.get(seq![s]).unwrap()@ == last_pretty(ts, e, s, n).unwrap()
        &&& forall|c: Seq<char>, x: Seq<char>| #[trigger] self.consumes(c, x) == (o.consumes(c, x) || uses_in(ts, e, c, x, n))
        &&& forall|c: Seq<char>| #[trigger] self.consumes_table.has(seq![c]) == (o.consumes_table.has(seq![c])
            || uses_inside(ts, e, c, n))
        &&& forall|k: Seq<Seq<char>>| #[trigger] self.id_table.has(k) == (o.id_table.has(k) || lists_id(ts, e, k, n))
    }

    /// Ingests the records of one file: its target records, then its source
    /// records. `source` holds the file's lines (`None` for a line that could
    /// not be decoded), or is `None` when the file could not be opened, in
    /// which case the file is skipped. Returns, for each target record,
    /// whether it was kept.
    pub fn ingest_file(
        &mut self,
        path: &str,
        source: &Option<Vec<Option<String>>>,
        targets: &Vec<AnalysisTarget>,
        sources: &Vec<AnalysisSource>,
    ) -> (r: Vec<bool>)
        requires
            old(self).wf(),
        ensures
            final(self).wf(),
            source is None ==> *final(self) == *old(self) && r@.len() == 0,
            source is Some ==> {
                let e = file_entries(source.unwrap()@);
                &&& r@.len() == targets@.len()
                &&& forall|i: int| 0 <= i < r@.len() ==> #[trigger] r@[i] == is_kept(targets@[i], e)
                &&& final(self).targets_ingested(*old(self), path@, e, targets@, targets@.len() as int)
                &&& final(self).metas() == metas_after(old(self).metas(), sources@, sources@.len() as int)
                &&& final(self).ipc_view() == ipcs_after(old(self).metas(), old(self).ipc_view(), sources@, sources@.len() as int)
            },
    {
        let raw = match source {
            Some(raw) => raw,
            None => {
                return Vec::new();
            },
        };
        let ghost o = *self;
        let lines = SourceLines::build(&mut self.strings, raw);
        let ghost e = file_entries(raw@);
        let ghost ts = targets@;
        proof {
            assert(lines.entries() =~= e);
            assert forall|k: Seq<Seq<char>>| #[trigger] self.table.list(k).subrange(0, o.table.list(k).len() as int)
                == o.table.list(k) by {
                assert(self.table.list(k).subrange(0, o.table.list(k).len() as int) =~= o.table.list(k));
            }
            assert forall|k: Seq<Seq<char>>| #[trigger] self.table.list(k).len()
                == o.table.list(k).len() + kept_under(ts, e, path@, k, 0).len() by {}
            assert forall|k: Seq<Seq<char>>| #[trigger] self.table.has(k)
                == (o.table.has(k) || kept_under(ts, e, path@, k, 0).len() > 0) by {}
            assert forall|c: Seq<char>, x: Seq<char>| #[trigger] self.consumes(c, x) == (o.consumes(c, x) || uses_in(ts, e, c, x, 0)) by {}
            assert forall|c: Seq<char>| #[trigger] self.consumes_table.has(seq![c]) == (o.consumes_table.has(seq![c])
                || uses_inside(ts, e, c, 0)) by {}
            assert forall|k: Seq<Seq<char>>| #[trigger] self.id_table.has(k) == (o.id_table.has(k) || lists_id(ts, e, k, 0)) by {}
            assert forall|k: Seq<Seq<char>>| #[trigger] self.pretty_table.has(k) == (o.pretty_table.has(k)
                || (k.len() == 1 && last_pretty(ts, e, k[0], 0) is Some)) by {}
        }
        let mut kept: Vec<bool> = Vec::new();
        let mut i: usize = 0;
        while i < targets.len()
            invariant
                self.wf(),
                i <= ts.len(),
                ts == targets@,
                kept@.len() == i,
                lines.entries() == e,
                e.len() == raw@.len(),
                forall|a: int| 0 <= a < i ==> #[trigger] kept@[a] == is_kept(ts[a], e),
                self.targets_ingested(o, path@, e, ts, i as int),
                self.meta_table == o.meta_table,
                self.ipc_to_link == o.ipc_to_link,
            decreases ts.len() - i,
        {
            let ghost p = *self;
            let k = self.add_target(path, &lines, &targets[i]);
            proof {
                lemma_target_step(o, p, *self, path@, e, ts, i as int);
            }
            kept.push(k);
            i = i + 1;
        }
        let mut j: usize = 0;
        let ghost after_targets = *self;
        while j < sources.len()
            invariant
                self.wf(),
                j <= sources@.len(),
                self.table == after_targets.table,
                self.pretty_table == after_targets.pretty_table,
                self.id_table == after_targets.id_table,
                self.consumes_table == after_targets.consumes_table,
                self.metas() == metas_after(o.metas(), sources@, j as int),
                self.ipc_view() == ipcs_after(o.metas(), o.ipc_view(), sources@, j as int),
            decreases sources@.len() - j,
        {
            self.add_source(&sources[j]);
            j = j + 1;
        }
        proof {
            assert forall|k: Seq<Seq<char>>| #[trigger] self.table.has(k) == after_targets.table.has(k) by {}
            assert forall|k: Seq<Seq<char>>| #[trigger] self.table.list(k) == after_targets.table.list(k) by {}
            assert forall|c: Seq<char>, x: Seq<char>| #[trigger] self.consumes(c, x) == after_targets.consumes(c, x) by {}
        }
        kept
    }
}

/// One target record carried from the first `i` records to the first `i + 1`.
proof fn lemma_target_step(
    o: CrossIndex,
    p: CrossIndex,
    q: CrossIndex,
    path: Seq<char>,
    e: Seq<(Seq<char>, nat)>,
    ts: Seq<AnalysisTarget>,
    i: int,
)
    requires
        0 <= i < ts.len(),
        p.targets_ingested(o, path, e, ts, i),
        ({
            let t = ts[i];
            let key = occ_key(t.sym@, t.kind, path);
            &&& !is_kept(t, e) ==> q == p
            &&& is_kept(t, e) ==> {
                &&& forall|k: Seq<Seq<char>>| #[trigger] q.table.has(k) == (p.table.has(k) || k == key)
                &&& forall|k: Seq<Seq<char>>| k != key ==> #[trigger] q.table.list(k) == p.table.list(k)
                &&& q.table.list(key).drop_last() == p.table.list(key)
                &&& q.table.list(key).len() == p.table.list(key).len() + 1
                &&& result_for(q.table.list(key).last(), t, e)
                &&& forall|k: Seq<Seq<char>>| #[trigger] q.pretty_table.has(k) == (p.pretty_table.has(k) || k == seq![t.sym@])
                &&& forall|k: Seq<Seq<char>>| k != seq![t.sym@] ==> #[trigger] q.pretty_table.get(k) == p.pretty_table.get(k)
                &&& q.pretty_table.get(seq![t.sym@]).unwrap()@ == t.pretty@
                &&& forall|c: Seq<char>, x: Seq<char>| #[trigger] q.consumes(c, x) == (p.consumes(c, x)
                    || (t.kind == AnalysisKind::Use && t.contextsym@.len() > 0 && c == t.contextsym@ && x == t.sym@))
                &&& forall|c: Seq<char>| #[trigger] q.consumes_table.has(seq![c]) == (p.consumes_table.has(seq![c])
                    || (t.kind == AnalysisKind::Use && t.contextsym@.len() > 0 && c == t.contextsym@))
                &&& forall|k: Seq<Seq<char>>| #[trigger] q.id_table.has(k) == (p.id_table.has(k)
                    || (is_legal_pretty(t.pretty@) && k == seq![t.pretty@, t.sym@]))
            }
        }),
    ensures
        q.targets_ingested(o, path, e, ts, i + 1),
{
    let t = ts[i];
    let key = occ_key(t.sym@, t.kind, path);
    let kept = is_kept(t, e);
    assert forall|k: Seq<Seq<char>>| #[trigger] kept_under(ts, e, path, k, i + 1)
        == if kept && k == key { kept_under(ts, e, path, k, i).push(t) } else { kept_under(ts, e, path, k, i) } by {
        assert(kept_under(ts, e, path, k, i + 1) =~= if kept && k == key {
            kept_under(ts, e, path, k, i).push(t)
        } else {
            kept_under(ts, e, path, k, i)
        });
    }
    assert forall|s: Seq<char>| #[trigger] last_pretty(ts, e, s, i + 1)
        == if kept && t.sym@ == s { Some(t.pretty@) } else { last_pretty(ts, e, s, i) } by {}
    assert forall|c: Seq<char>, x: Seq<char>| #[trigger] uses_in(ts, e, c, x, i + 1) == (uses_in(ts, e, c, x, i)
        || (kept && t.kind == AnalysisKind::Use && t.contextsym@.len() > 0 && c == t.contextsym@ && x == t.sym@)) by {}
    assert forall|c: Seq<char>| #[trigger] uses_inside(ts, e, c, i + 1) == (uses_inside(ts, e, c, i)
        || (kept && t.kind == AnalysisKind::Use && t.contextsym@.len() > 0 && c == t.contextsym@)) by {}
    assert forall|k: Seq<Seq<char>>| #[trigger] lists_id(ts, e, k, i + 1) == (lists_id(ts, e, k, i)
        || (kept && is_legal_pretty(t.pretty@) && k == seq![t.pretty@, t.sym@])) by {}
    if kept {
        assert forall|k: Seq<Seq<char>>| #[trigger] q.table.list(k).subrange(0, o.table.list(k).len() as int) == o.table.list(k) by {
            if k == key {
                let ol = o.table.list(k).len() as int;
                assert(p.table.list(k).len() >= ol) by {
                    assert(p.table.list(k).len() == o.table.list(k).len() + kept_under(ts, e, path, k, i).len());
                }
                assert(q.table.list(k).subrange(0, ol) =~= q.table.list(k).drop_last().subrange(0, ol));
                assert(p.table.list(k).subrange(0, ol) == o.table.list(k));
            }
        }
        assert forall|k: Seq<Seq<char>>, j: int| 0 <= j < kept_under(ts, e, path, k, i + 1).len() implies result_for(
            q.table.list(k)[o.table.list(k).len() + j], #[trigger] kept_under(ts, e, path, k, i + 1)[j], e) by {
            let ku = kept_under(ts, e, path, k, i);
            assert(p.table.list(k).len() == o.table.list(k).len() + ku.len());
            if k == key {
                if j < ku.len() {
                    assert(kept_under(ts, e, path, k, i + 1)[j] == ku[j]);
                    assert(result_for(p.table.list(k)[o.table.list(k).len() + j], ku[j], e));
                    assert(q.table.list(k)[o.table.list(k).len() + j] == q.table.list(k).drop_last()[o.table.list(k).len() + j]);
                } else {
                    assert(kept_under(ts, e, path, k, i + 1)[j] == t);
                }
            } else {
                assert(kept_under(ts, e, path, k, i + 1)[j] == ku[j]);
                assert(result_for(p.table.list(k)[o.table.list(k).len() + j], ku[j], e));
            }
        }
        assert forall|k: Seq<Seq<char>>| #[trigger] q.pretty_table.has(k) == (o.pretty_table.has(k)
            || (k.len() == 1 && last_pretty(ts, e, k[0], i + 1) is Some)) by {
            if k == seq![t.sym@] {
                assert(k[0] == t.sym@);
            }
            if k.len() == 1 && k[0] == t.sym@ {
                assert(k =~= seq![t.sym@]);
            }
        }
        assert forall|k: Seq<Seq<char>>| !(k.len() == 1 && last_pretty(ts, e, k[0], i + 1) is Some)
            implies #[trigger] q.pretty_table.get(k) == o.pretty_table.get(k) by {
            if k == seq![t.sym@] {
                assert(k[0] == t.sym@);
            }
        }
        assert forall|s: Seq<char>| #[trigger] last_pretty(ts, e, s, i + 1) is Some
            implies q.pretty_table.get(seq![s]).unwrap()@ == last_pretty(ts, e, s, i + 1).unwrap() by {
            if t.sym@ != s {
                assert(seq![s] != seq![t.sym@]) by {
                    assert(seq![s][0] == s);
                }
            }
        }
    } else {
        assert forall|k: Seq<Seq<char>>, j: int| 0 <= j < kept_under(ts, e, path, k, i + 1).len() implies result_for(
            q.table.list(k)[o.table.list(k).len() + j], #[trigger] kept_under(ts, e, path, k, i + 1)[j], e) by {
            assert(kept_under(ts, e, path, k, i + 1)[j] == kept_under(ts, e, path, k, i)[j]);
        }
    }
}

/// One link: where `ipc` has metadata, its source side (if it has metadata)
/// gets `ipc` as IDL symbol and the IPC's target; then its target side (if it
/// has metadata) gets `ipc` as IDL symbol and the IPC's source.
pub open spec fn link_step(m: Map<Seq<char>, MetaView>, ipc: Seq<char>) -> Map<Seq<char>, MetaView> {
    if !m.contains_key(ipc) {
        m
    } else {
        let src = m[ipc].src_sym;
        let tgt = m[ipc].target_sym;
        let m1 = if m.contains_key(src) {
            m.insert(src, MetaView { idl_sym: ipc, target_sym: tgt, ..m[src] })
        } else {
            m
        };
        if m1.contains_key(tgt) {
            m1.insert(tgt, MetaView { idl_sym: ipc, src_sym: src, ..m1[tgt] })
        } else {
            m1
        }
    }
}

/// The links of the first `n` IPC symbols of `ipcs`, in order.
pub open spec fn link_all(m: Map<Seq<char>, MetaView>, ipcs: Seq<Seq<char>>, n: int) -> Map<Seq<char>, MetaView>
    decreases n,
{
    if n <= 0 || n > ipcs.len() {
        m
    } else {
        link_step(link_all(m, ipcs, n - 1), ipcs[n - 1])
    }
}

} // verus!
