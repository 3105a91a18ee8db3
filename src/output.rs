//! The three outputs of the index: `crossref` (two lines per symbol),
//! `jumps` (one line per symbol with a single definition site) and
//! `identifiers` (one line per scope suffix of each listed pretty name).

use vstd::prelude::*;
use std::cmp::Ordering;
use crate::index::CrossIndex;
use crate::json::{join, json_quoted, lemma_join_push, meta_json, push_lit, push_meta_json, push_quoted, push_results_json, results_json};
use crate::records::{AnalysisKind, SearchResult, kind_name, kind_name_chars};
use crate::intern::share;
use crate::table::{Interned, SortedTable, key_of};
use crate::scopes::{scopes_of, split_scope_chars};
use crate::text::{compare_text, decimal, push_all, push_decimal};

verus! {

/// The JSON object of one file's occurrences: entry `j` of the table.
pub open spec fn path_json(t: SortedTable<Vec<SearchResult>>, j: int) -> Seq<char> {
    "{\"lines\":"@ + results_json(t.vals@[j]@) + ",\"path\":"@ + json_quoted(t.kv()[j][2]) + "}"@
}

/// The file objects of the entries from `lo` up to `hi` whose kind is `name`.
pub open spec fn kind_items(t: SortedTable<Vec<SearchResult>>, name: Seq<char>, lo: int, hi: int) -> Seq<Seq<char>>
    decreases hi - lo,
{
    if hi <= lo {
        Seq::empty()
    } else {
        kind_items(t, name, lo, hi - 1) + if t.kv()[hi - 1][1] == name {
            seq![path_json(t, hi - 1)]
        } else {
            Seq::empty()
        }
    }
}

/// The member for kind `name` of a symbol's object, if it has such entries.
pub open spec fn kind_member(t: SortedTable<Vec<SearchResult>>, name: Seq<char>, lo: int, hi: int) -> Seq<Seq<char>> {
    let items = kind_items(t, name, lo, hi);
    if items.len() > 0 {
        seq!["\""@ + name + "\":["@ + join(items, ","@) + "]"@]
    } else {
        Seq::empty()
    }
}

impl CrossIndex {
    /// The JSON object of a symbol `c` that is used inside another one.
    pub open spec fn consumed_json(&self, c: Seq<char>) -> Seq<char> {
        "{"@ + (if self.pretty_table.has(seq![c]) {
            "\"pretty\":"@ + json_quoted(self.pretty_table.get(seq![c]).unwrap()@) + ","@
        } else {
            Seq::empty()
        }) + "\"sym\":"@ + json_quoted(c) + ",\"syntax\":"@ + json_quoted(self.meta_table.get(seq![c]).unwrap().syntax_kind@) + "}"@
    }

    /// The consumed-symbol objects of the first `n` symbols of `inner` that
    /// have metadata.
    pub open spec fn consumed_items(&self, inner: SortedTable<()>, n: int) -> Seq<Seq<char>>
        decreases n,
    {
        if n <= 0 || n > inner.keys.len() {
            Seq::empty()
        } else {
            self.consumed_items(inner, n - 1) + if self.meta_table.has(seq![inner.kv()[n - 1][0]]) {
                seq![self.consumed_json(inner.kv()[n - 1][0])]
            } else {
                Seq::empty()
            }
        }
    }

    /// The `consumes` member of symbol `s`'s object, present when some symbol
    /// was used inside `s`.
    pub open spec fn consumes_member(&self, s: Seq<char>) -> Seq<Seq<char>> {
        if self.consumes_table.has(seq![s]) {
            let inner = self.consumes_table.get(seq![s]).unwrap();
            seq!["\"consumes\":["@ + join(self.consumed_items(inner, inner.keys.len() as int), ","@) + "]"@]
        } else {
            Seq::empty()
        }
    }

    /// The `meta` member of symbol `s`'s object, present when `s` has metadata.
    pub open spec fn meta_member(&self, s: Seq<char>) -> Seq<Seq<char>> {
        if self.meta_table.has(seq![s]) {
            seq!["\"meta\":"@ + meta_json(self.meta_table.get(seq![s]).unwrap())]
        } else {
            Seq::empty()
        }
    }

    /// The members of the object of the symbol whose entries are `lo` up to
    /// `hi`, in key order.
    pub open spec fn members(&self, lo: int, hi: int) -> Seq<Seq<char>> {
        let t = self.table;
        let s = t.kv()[lo][0];
        kind_member(t, kind_name(AnalysisKind::Assign), lo, hi)
            + self.consumes_member(s)
            + kind_member(t, kind_name(AnalysisKind::Decl), lo, hi)
            + kind_member(t, kind_name(AnalysisKind::Def), lo, hi)
            + kind_member(t, kind_name(AnalysisKind::Idl), lo, hi)
            + kind_member(t, kind_name(AnalysisKind::Ipc), lo, hi)
            + self.meta_member(s)
            + kind_member(t, kind_name(AnalysisKind::Use), lo, hi)
    }

    /// The two `crossref` lines of the symbol whose entries are `lo` up to `hi`.
    pub open spec fn record(&self, lo: int, hi: int) -> Seq<char> {
        self.table.kv()[lo][0] + "\n"@ + "{"@ + join(self.members(lo, hi), ","@) + "}"@ + "\n"@
    }
}

/// The first entry of the run of entries that share entry `j`'s symbol.
pub open spec fn group_start(kv: Seq<Seq<Seq<char>>>, j: int) -> int
    decreases j,
{
    if j > 0 && kv[j - 1][0] == kv[j][0] {
        group_start(kv, j - 1)
    } else {
        j
    }
}

/// Whether entry `j` is the last of its symbol's run.
pub open spec fn ends_group(kv: Seq<Seq<Seq<char>>>, j: int) -> bool {
    j + 1 >= kv.len() || kv[j + 1][0] != kv[j][0]
}

impl CrossIndex {
    /// The `crossref` text of the symbols whose entries all lie before `n`.
    pub open spec fn crossref_upto(&self, n: int) -> Seq<char>
        decreases n,
    {
        if n <= 0 {
            Seq::empty()
        } else {
            self.crossref_upto(n - 1) + if ends_group(self.table.kv(), n - 1) {
                self.record(group_start(self.table.kv(), n - 1), n)
            } else {
                Seq::empty()
            }
        }
    }

    /// The whole `crossref` text: every symbol in key order.
    pub open spec fn crossref_text(&self) -> Seq<char> {
        self.crossref_upto(self.table.keys.len() as int)
    }
}

/// Appends `parts` joined by commas.
fn push_joined(out: &mut Vec<char>, parts: &Vec<Vec<char>>)
    ensures
        final(out)@ == old(out)@ + join(parts@.map_values(|p: Vec<char>| p@), ","@),
{
    let ghost start = out@;
    let mut i: usize = 0;
    while i < parts.len()
        invariant
            i <= parts@.len(),
            out@ == start + join(parts@.take(i as int).map_values(|p: Vec<char>| p@), ","@),
        decreases parts@.len() - i,
    {
        let ghost before = parts@.take(i as int).map_values(|p: Vec<char>| p@);
        if i > 0 {
            push_lit(out, ",");
        }
        push_all(out, parts[i].as_slice());
        proof {
            lemma_join_push(before, ","@, parts@[i as int]@);
            assert(parts@.take(i + 1).map_values(|p: Vec<char>| p@) =~= before.push(parts@[i as int]@));
        }
        i = i + 1;
    }
    assert(parts@.take(i as int) =~= parts@);
}

impl CrossIndex {
    /// `path_json` of entry `j`.
    fn path_json_chars(&self, j: usize) -> (r: Vec<char>)
        requires
            self.wf(),
            j < self.table.keys.len(),
        ensures
            r@ == path_json(self.table, j as int),
    {
        let mut out: Vec<char> = Vec::new();
        push_lit(&mut out, "{\"lines\":");
        push_results_json(&mut out, &self.table.vals[j]);
        push_lit(&mut out, ",\"path\":");
        assert(self.table.kv()[j as int].len() == 3);
        push_quoted(&mut out, self.table.keys[j][2].as_slice());
        push_lit(&mut out, "}");
        assert(out@ =~= path_json(self.table, j as int));
        out
    }

    /// Adds the member for kind `k` of the symbol whose entries are `lo` up to `hi`.
    fn push_kind_member(&self, members: &mut Vec<Vec<char>>, k: AnalysisKind, lo: usize, hi: usize)
        requires
            self.wf(),
            lo <= hi <= self.table.keys.len(),
        ensures
            final(members)@.map_values(|p: Vec<char>| p@)
                == old(members)@.map_values(|p: Vec<char>| p@) + kind_member(self.table, kind_name(k), lo as int, hi as int),
    {
        let name = kind_name_chars(k);
        let mut items: Vec<char> = Vec::new();
        let mut any = false;
        let mut j: usize = lo;
        while j < hi
            invariant
                self.wf(),
                lo <= j <= hi <= self.table.keys.len(),
                name@ == kind_name(k),
                items@ == join(kind_items(self.table, name@, lo as int, j as int), ","@),
                any == (kind_items(self.table, name@, lo as int, j as int).len() > 0),
            decreases hi - j,
        {
            let ghost before = kind_items(self.table, name@, lo as int, j as int);
            assert(self.table.kv()[j as int].len() == 3);
            match compare_text(self.table.keys[j][1].as_slice(), name.as_slice()) {
                Ordering::Equal => {
                    if any {
                        push_lit(&mut items, ",");
                    }
                    let p = self.path_json_chars(j);
                    push_all(&mut items, p.as_slice());
                    proof {
                        lemma_join_push(before, ","@, p@);
                        assert(kind_items(self.table, name@, lo as int, j + 1) =~= before.push(p@));
                    }
                    any = true;
                },
                _ => {
                    assert(kind_items(self.table, name@, lo as int, j + 1) =~= before);
                },
            }
            j = j + 1;
        }
        if any {
            let mut m: Vec<char> = Vec::new();
            push_lit(&mut m, "\"");
            push_all(&mut m, name.as_slice());
            push_lit(&mut m, "\":[");
            push_all(&mut m, items.as_slice());
            push_lit(&mut m, "]");
            let ghost mv = m@;
            members.push(m);
            assert(mv =~= "\""@ + kind_name(k) + "\":["@ + join(kind_items(self.table, kind_name(k), lo as int, hi as int), ","@) + "]"@);
            assert(members@.map_values(|p: Vec<char>| p@) =~= old(members)@.map_values(|p: Vec<char>| p@)
                + kind_member(self.table, kind_name(k), lo as int, hi as int));
        } else {
            assert(members@.map_values(|p: Vec<char>| p@) =~= old(members)@.map_values(|p: Vec<char>| p@)
                + kind_member(self.table, kind_name(k), lo as int, hi as int));
        }
    }

    /// `consumed_json` of `c`, which has metadata.
    fn consumed_json_chars(&self, c: &Interned) -> (r: Vec<char>)
        requires
            self.wf(),
            self.meta_table.has(seq![c@]),
        ensures
            r@ == self.consumed_json(c@),
    {
        let key: Vec<Interned> = vec![share(c)];
        assert(key_of(key@) =~= seq![c@]);
        let mut out: Vec<char> = Vec::new();
        push_lit(&mut out, "{");
        match self.pretty_table.find(&key) {
            Ok(p) => {
                proof {
                    self.pretty_table.lemma_get_at(p as int);
                }
                push_lit(&mut out, "\"pretty\":");
                push_quoted(&mut out, self.pretty_table.vals[p].as_slice());
                push_lit(&mut out, ",");
            },
            Err(_) => {},
        }
        push_lit(&mut out, "\"sym\":");
        push_quoted(&mut out, c.as_slice());
        push_lit(&mut out, ",\"syntax\":");
        match self.meta_table.find(&key) {
            Ok(m) => {
                proof {
                    self.meta_table.lemma_get_at(m as int);
                }
                push_quoted(&mut out, self.meta_table.vals[m].syntax_kind.as_slice());
            },
            Err(_) => {},
        }
        push_lit(&mut out, "}");
        assert(out@ =~= self.consumed_json(c@));
        out
    }

    /// Adds the `consumes` member of symbol `s`, if it has one.
    fn push_consumes_member(&self, members: &mut Vec<Vec<char>>, s: &Interned)
        requires
            self.wf(),
        ensures
            final(members)@.map_values(|p: Vec<char>| p@)
                == old(members)@.map_values(|p: Vec<char>| p@) + self.consumes_member(s@),
    {
        let key: Vec<Interned> = vec![share(s)];
        assert(key_of(key@) =~= seq![s@]);
        match self.consumes_table.find(&key) {
            Err(_) => {
                assert(members@.map_values(|p: Vec<char>| p@) =~= old(members)@.map_values(|p: Vec<char>| p@)
                    + self.consumes_member(s@));
            },
            Ok(i) => {
                proof {
                    self.consumes_table.lemma_get_at(i as int);
                }
                let inner = &self.consumes_table.vals[i];
                let mut items: Vec<char> = Vec::new();
                let mut any = false;
                let mut j: usize = 0;
                while j < inner.keys.len()
                    invariant
                        self.wf(),
                        i < self.consumes_table.keys.len(),
                        *inner == self.consumes_table.vals@[i as int],
                        inner.wf(),
                        forall|a: int| 0 <= a < inner.keys.len() ==> (#[trigger] inner.kv()[a]).len() == 1,
                        j <= inner.keys.len(),
                        items@ == join(self.consumed_items(*inner, j as int), ","@),
                        any == (self.consumed_items(*inner, j as int).len() > 0),
                    decreases inner.keys.len() - j,
                {
                    let ghost before = self.consumed_items(*inner, j as int);
                    assert(inner.kv()[j as int].len() == 1);
                    let c = &inner.keys[j][0];
                    let ckey: Vec<Interned> = vec![share(c)];
                    assert(key_of(ckey@) =~= seq![c@]);
                    match self.meta_table.find(&ckey) {
                        Ok(_) => {
                            if any {
                                push_lit(&mut items, ",");
                            }
                            let cj = self.consumed_json_chars(c);
                            push_all(&mut items, cj.as_slice());
                            proof {
                                lemma_join_push(before, ","@, cj@);
                                assert(self.consumed_items(*inner, j + 1) =~= before.push(cj@));
                            }
                            any = true;
                        },
                        Err(_) => {
                            assert(self.consumed_items(*inner, j + 1) =~= before);
                        },
                    }
                    j = j + 1;
                }
                let mut m: Vec<char> = Vec::new();
                push_lit(&mut m, "\"consumes\":[");
                push_all(&mut m, items.as_slice());
                push_lit(&mut m, "]");
                members.push(m);
                assert(members@.map_values(|p: Vec<char>| p@) =~= old(members)@.map_values(|p: Vec<char>| p@)
                    + self.consumes_member(s@));
            },
        }
    }

    /// Adds the `meta` member of symbol `s`, if it has metadata.
    fn push_meta_member(&self, members: &mut Vec<Vec<char>>, s: &Interned)
        requires
            self.wf(),
        ensures
            final(members)@.map_values(|p: Vec<char>| p@)
                == old(members)@.map_values(|p: Vec<char>| p@) + self.meta_member(s@),
    {
        let key: Vec<Interned> = vec![share(s)];
        assert(key_of(key@) =~= seq![s@]);
        match self.meta_table.find(&key) {
            Err(_) => {},
            Ok(i) => {
                proof {
                    self.meta_table.lemma_get_at(i as int);
                }
                let mut m: Vec<char> = Vec::new();
                push_lit(&mut m, "\"meta\":");
                push_meta_json(&mut m, &self.meta_table.vals[i]);
                members.push(m);
            },
        }
        assert(members@.map_values(|p: Vec<char>| p@) =~= old(members)@.map_values(|p: Vec<char>| p@)
            + self.meta_member(s@));
    }

    /// Appends the two `crossref` lines of the symbol whose entries are `lo` up to `hi`.
    fn push_record(&self, out: &mut Vec<char>, lo: usize, hi: usize)
        requires
            self.wf(),
            lo < hi <= self.table.keys.len(),
        ensures
            final(out)@ == old(out)@ + self.record(lo as int, hi as int),
    {
        assert(self.table.kv()[lo as int].len() == 3);
        let s = &self.table.keys[lo][0];
        let mut members: Vec<Vec<char>> = Vec::new();
        self.push_kind_member(&mut members, AnalysisKind::Assign, lo, hi);
        self.push_consumes_member(&mut members, s);
        self.push_kind_member(&mut members, AnalysisKind::Decl, lo, hi);
        self.push_kind_member(&mut members, AnalysisKind::Def, lo, hi);
        self.push_kind_member(&mut members, AnalysisKind::Idl, lo, hi);
        self.push_kind_member(&mut members, AnalysisKind::Ipc, lo, hi);
        self.push_meta_member(&mut members, s);
        self.push_kind_member(&mut members, AnalysisKind::Use, lo, hi);
        assert(members@.map_values(|p: Vec<char>| p@) =~= self.members(lo as int, hi as int));
        push_all(out, s.as_slice());
        push_lit(out, "\n");
        push_lit(out, "{");
        push_joined(out, &members);
        push_lit(out, "}");
        push_lit(out, "\n");
        assert(final(out)@ =~= old(out)@ + self.record(lo as int, hi as int));
    }

    /// The `crossref` output: for each symbol in key order, the symbol on one
    /// line and the JSON object of its occurrences, consumed symbols and
    /// metadata on the next.
    pub fn crossref(&self) -> (r: Vec<char>)
        requires
            self.wf(),
        ensures
            r@ == self.crossref_text(),
    {
        let ghost kv = self.table.kv();
        let mut out: Vec<char> = Vec::new();
        let mut lo: usize = 0;
        let mut j: usize = 0;
        let n = self.table.keys.len();
        while j < n
            invariant
                self.wf(),
                kv == self.table.kv(),
                n == kv.len(),
                lo <= j <= n,
                j < n ==> lo == group_start(kv, j as int),
                out@ == self.crossref_upto(j as int),
            decreases n - j,
        {
            assert(kv[j as int].len() == 3);
            let last = if j + 1 < n {
                assert(kv[j + 1].len() == 3);
                match compare_text(self.table.keys[j + 1][0].as_slice(), self.table.keys[j][0].as_slice()) {
                    Ordering::Equal => false,
                    _ => true,
                }
            } else {
                true
            };
            assert(last == ends_group(kv, j as int));
            if last {
                self.push_record(&mut out, lo, j + 1);
                lo = j + 1;
            }
            j = j + 1;
            proof {
                if j < n {
                    if !last {
                        assert(group_start(kv, j as int) == group_start(kv, j - 1));
                    }
                }
            }
        }
        out
    }
}

/// The positions from `lo` up to `hi` whose kind is `Def`.
pub open spec fn def_items(t: SortedTable<Vec<SearchResult>>, lo: int, hi: int) -> Seq<int>
    decreases hi - lo,
{
    if hi <= lo {
        Seq::empty()
    } else {
        def_items(t, lo, hi - 1) + if t.kv()[hi - 1][1] == kind_name(AnalysisKind::Def) {
            seq![hi - 1]
        } else {
            Seq::empty()
        }
    }
}

impl CrossIndex {
    /// The `jumps` line of the symbol whose entries are `lo` up to `hi`: present
    /// when it has definitions in exactly one file, and exactly one there.
    pub open spec fn jump(&self, lo: int, hi: int) -> Seq<char> {
        let t = self.table;
        let d = def_items(t, lo, hi);
        let s = t.kv()[lo][0];
        if d.len() == 1 && t.vals@[d[0]]@.len() == 1 {
            "["@ + json_quoted(s) + ","@ + json_quoted(t.kv()[d[0]][2]) + ","@
                + decimal(t.vals@[d[0]]@[0].lineno as nat) + ","@
                + json_quoted(self.pretty_table.get(seq![s]).unwrap()@) + "]\n"@
        } else {
            Seq::empty()
        }
    }

    /// The `jumps` text of the symbols whose entries all lie before `n`.
    pub open spec fn jumps_upto(&self, n: int) -> Seq<char>
        decreases n,
    {
        if n <= 0 {
            Seq::empty()
        } else {
            self.jumps_upto(n - 1) + if ends_group(self.table.kv(), n - 1) {
                self.jump(group_start(self.table.kv(), n - 1), n)
            } else {
                Seq::empty()
            }
        }
    }

    /// The whole `jumps` text.
    pub open spec fn jumps_text(&self) -> Seq<char> {
        self.jumps_upto(self.table.keys.len() as int)
    }

    /// Appends the `jumps` line of the symbol whose entries are `lo` up to `hi`.
    fn push_jump(&self, out: &mut Vec<char>, lo: usize, hi: usize)
        requires
            self.wf(),
            lo < hi <= self.table.keys.len(),
        ensures
            final(out)@ == old(out)@ + self.jump(lo as int, hi as int),
    {
        let ghost t = self.table;
        let defs = kind_name_chars(AnalysisKind::Def);
        let mut count: usize = 0;
        let mut at: usize = lo;
        let mut j: usize = lo;
        while j < hi
            invariant
                self.wf(),
                t == self.table,
                lo <= j <= hi <= t.keys.len(),
                defs@ == kind_name(AnalysisKind::Def),
                count == def_items(t, lo as int, j as int).len(),
                count <= j - lo,
                count > 0 ==> lo <= at < j && at == def_items(t, lo as int, j as int)[0],
            decreases hi - j,
        {
            let ghost before = def_items(t, lo as int, j as int);
            assert(t.kv()[j as int].len() == 3);
            match compare_text(self.table.keys[j][1].as_slice(), defs.as_slice()) {
                Ordering::Equal => {
                    if count == 0 {
                        at = j;
                    }
                    count = count + 1;
                    assert(def_items(t, lo as int, j + 1) =~= before.push(j as int));
                },
                _ => {
                    assert(def_items(t, lo as int, j + 1) =~= before);
                },
            }
            j = j + 1;
        }
        if count == 1 && self.table.vals[at].len() == 1 {
            assert(t.kv()[lo as int].len() == 3);
            assert(t.kv()[at as int].len() == 3);
            let s = &self.table.keys[lo][0];
            let key: Vec<Interned> = vec![share(s)];
            assert(key_of(key@) =~= seq![s@]);
            assert(self.pretty_table.has(seq![t.kv()[lo as int][0]]));
            match self.pretty_table.find(&key) {
                Ok(p) => {
                    proof {
                        self.pretty_table.lemma_get_at(p as int);
                    }
                    push_lit(out, "[");
                    push_quoted(out, s.as_slice());
                    push_lit(out, ",");
                    push_quoted(out, self.table.keys[at][2].as_slice());
                    push_lit(out, ",");
                    push_decimal(out, self.table.vals[at][0].lineno);
                    push_lit(out, ",");
                    push_quoted(out, self.pretty_table.vals[p].as_slice());
                    push_lit(out, "]\n");
                    assert(final(out)@ =~= old(out)@ + self.jump(lo as int, hi as int));
                },
                Err(_) => {},
            }
        } else {
            assert(final(out)@ =~= old(out)@ + self.jump(lo as int, hi as int));
        }
    }

    /// The `jumps` output: for each symbol in key order that has exactly one
    /// definition site, the JSON array `[sym, path, lineno, pretty]` on a line.
    pub fn jumps(&self) -> (r: Vec<char>)
        requires
            self.wf(),
        ensures
            r@ == self.jumps_text(),
    {
        let ghost kv = self.table.kv();
        let mut out: Vec<char> = Vec::new();
        let mut lo: usize = 0;
        let mut j: usize = 0;
        let n = self.table.keys.len();
        while j < n
            invariant
                self.wf(),
                kv == self.table.kv(),
                n == kv.len(),
                lo <= j <= n,
                j < n ==> lo == group_start(kv, j as int),
                out@ == self.jumps_upto(j as int),
            decreases n - j,
        {
            assert(kv[j as int].len() == 3);
            let last = if j + 1 < n {
                assert(kv[j + 1].len() == 3);
                match compare_text(self.table.keys[j + 1][0].as_slice(), self.table.keys[j][0].as_slice()) {
                    Ordering::Equal => false,
                    _ => true,
                }
            } else {
                true
            };
            assert(last == ends_group(kv, j as int));
            if last {
                self.push_jump(&mut out, lo, j + 1);
                lo = j + 1;
            }
            j = j + 1;
            proof {
                if j < n {
                    if !last {
                        assert(group_start(kv, j as int) == group_start(kv, j - 1));
                    }
                }
            }
        }
        out
    }
}

/// The `identifiers` lines of the first `n` scope suffixes of `comps` for symbol
/// `s`: each non-empty suffix joined by `::`, a space, the symbol, a newline.
pub open spec fn suffix_lines(comps: Seq<Seq<char>>, s: Seq<char>, n: int) -> Seq<char>
    decreases n,
{
    if n <= 0 {
        Seq::empty()
    } else {
        let sub = join(comps.subrange(n - 1, comps.len() as int), "::"@);
        suffix_lines(comps, s, n - 1) + if sub.len() > 0 {
            sub + " "@ + s + "\n"@
        } else {
            Seq::empty()
        }
    }
}

/// The `identifiers` lines of pretty name `p` for symbol `s`.
pub open spec fn id_lines(p: Seq<char>, s: Seq<char>) -> Seq<char> {
    suffix_lines(scopes_of(p), s, scopes_of(p).len() as int)
}

/// Appends `id_lines(p, s)`.
pub fn push_id_lines(out: &mut Vec<char>, p: &[char], s: &[char])
    ensures
        final(out)@ == old(out)@ + id_lines(p@, s@),
{
    let comps = split_scope_chars(p);
    let ghost cs = scopes_of(p@);
    let n = comps.len();
    let mut i: usize = 0;
    while i < n
        invariant
            n == comps@.len(),
            n == cs.len(),
            cs == scopes_of(p@),
            forall|a: int| 0 <= a < n ==> (#[trigger] comps@[a])@ == cs[a],
            i <= n,
            out@ == old(out)@ + suffix_lines(cs, s@, i as int),
        decreases n - i,
    {
        let mut sub: Vec<char> = Vec::new();
        let mut k: usize = i;
        while k < n
            invariant
                n == comps@.len(),
                n == cs.len(),
                forall|a: int| 0 <= a < n ==> (#[trigger] comps@[a])@ == cs[a],
                i <= k <= n,
                sub@ == join(cs.subrange(i as int, k as int), "::"@),
            decreases n - k,
        {
            if k > i {
                push_lit(&mut sub, "::");
            }
            push_all(&mut sub, comps[k].as_slice());
            proof {
                lemma_join_push(cs.subrange(i as int, k as int), "::"@, cs[k as int]);
                assert(cs.subrange(i as int, k + 1) =~= cs.subrange(i as int, k as int).push(cs[k as int]));
            }
            k = k + 1;
        }
        if sub.len() > 0 {
            push_all(out, sub.as_slice());
            push_lit(out, " ");
            push_all(out, s);
            push_lit(out, "\n");
        }
        i = i + 1;
        assert(out@ =~= old(out)@ + suffix_lines(cs, s@, i as int));
    }
}

impl CrossIndex {
    /// The `identifiers` text of the first `n` entries of the identifier index.
    pub open spec fn identifiers_upto(&self, n: int) -> Seq<char>
        decreases n,
    {
        if n <= 0 {
            Seq::empty()
        } else {
            self.identifiers_upto(n - 1) + id_lines(self.id_table.kv()[n - 1][0], self.id_table.kv()[n - 1][1])
        }
    }

    /// The whole `identifiers` text.
    pub open spec fn identifiers_text(&self) -> Seq<char> {
        self.identifiers_upto(self.id_table.keys.len() as int)
    }

    /// The `identifiers` output: for each listed pretty name in key order, and
    /// each of its symbols in order, one line per scope suffix.
    pub fn identifiers(&self) -> (r: Vec<char>)
        requires
            self.wf(),
        ensures
            r@ == self.identifiers_text(),
    {
        let mut out: Vec<char> = Vec::new();
        let mut j: usize = 0;
        while j < self.id_table.keys.len()
            invariant
                self.wf(),
                j <= self.id_table.keys.len(),
                out@ == self.identifiers_upto(j as int),
            decreases self.id_table.keys.len() - j,
        {
            assert(self.id_table.kv()[j as int].len() == 2);
            push_id_lines(&mut out, self.id_table.keys[j][0].as_slice(), self.id_table.keys[j][1].as_slice());
            j = j + 1;
        }
        out
    }
}

} // verus!
