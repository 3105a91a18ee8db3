use crossref::index::CrossIndex;
use crossref::intern::StringIntern;
use crossref::lines::trim_line;
use crossref::records::{AnalysisKind, AnalysisSource, AnalysisTarget, Location, PeekRange};
use crossref::scopes::split_scopes;

fn target(sym: &str, pretty: &str, kind: AnalysisKind, lineno: u32, cols: (u32, u32)) -> AnalysisTarget {
    AnalysisTarget {
        sym: sym.to_string(),
        pretty: pretty.to_string(),
        context: String::new(),
        contextsym: String::new(),
        kind,
        loc: Location { lineno, col_start: cols.0, col_end: cols.1 },
        peek_range: PeekRange { start_lineno: 0, end_lineno: 0 },
    }
}

fn def_source(sym: &str, syntax: &str) -> AnalysisSource {
    AnalysisSource {
        syms: vec![sym.to_string()],
        pretty: sym.to_string(),
        syntax_kind: Some(syntax.to_string()),
        type_pretty: None,
        type_sym: None,
        src_sym: None,
        target_sym: None,
        is_def: true,
        is_ipc: false,
    }
}

fn lines(text: &[&str]) -> Option<Vec<Option<String>>> {
    Some(text.iter().map(|l| Some(l.to_string())).collect())
}

fn text(v: Vec<char>) -> String {
    v.into_iter().collect()
}

fn outputs(ix: &CrossIndex) -> (String, String, String) {
    (text(ix.crossref()), text(ix.jumps()), text(ix.identifiers()))
}

fn meta_of(ix: &CrossIndex, sym: &str) -> Option<(String, String, String)> {
    for (k, m) in ix.meta_table.keys.iter().zip(ix.meta_table.vals.iter()) {
        if k[0].iter().collect::<String>() == sym {
            let s = |h: &std::rc::Rc<Vec<char>>| h.iter().collect::<String>();
            return Some((s(&m.idl_sym), s(&m.src_sym), s(&m.target_sym)));
        }
    }
    None
}

#[test]
fn single_definition_emits_jump() {
    let mut ix = CrossIndex::new();
    let kept = ix.ingest_file("a.cpp", &lines(&["    foo()"]), &vec![target("S1", "foo", AnalysisKind::Def, 1, (4, 7))], &vec![]);
    assert_eq!(kept, vec![true]);
    let (crossref, jumps, identifiers) = outputs(&ix);
    assert_eq!(
        crossref,
        "S1\n{\"defs\":[{\"lines\":[{\"bounds\":[0,3],\"context\":\"\",\"contextsym\":\"\",\"line\":\"foo()\",\"lno\":1}],\"path\":\"a.cpp\"}]}\n"
    );
    assert_eq!(jumps, "[\"S1\",\"a.cpp\",1,\"foo\"]\n");
    assert_eq!(identifiers, "foo S1\n");
}

#[test]
fn split_scopes_keeps_template_arguments() {
    assert_eq!(split_scopes("a::b<c::d>::e"), vec!["a", "b<c::d>", "e"]);
    assert_eq!(split_scopes("a::"), vec!["a", ""]);
    assert_eq!(split_scopes("::a"), vec!["a"]);
    assert_eq!(split_scopes("plain"), vec!["plain"]);
}

#[test]
fn identifiers_list_every_scope_suffix() {
    let mut ix = CrossIndex::new();
    ix.ingest_file("a.cpp", &lines(&["x"]), &vec![target("S", "a::b<c::d>::e", AnalysisKind::Def, 1, (0, 1))], &vec![]);
    assert_eq!(text(ix.identifiers()), "a::b<c::d>::e S\nb<c::d>::e S\ne S\n");
}

#[test]
fn consumes_lists_only_symbols_with_metadata() {
    let mut uses = target("G", "g", AnalysisKind::Use, 2, (0, 1));
    uses.contextsym = "F".to_string();
    let mut uses_h = target("H", "h", AnalysisKind::Use, 2, (2, 3));
    uses_h.contextsym = "F".to_string();
    let mut ix = CrossIndex::new();
    ix.ingest_file(
        "a.cpp",
        &lines(&["F", "g h"]),
        &vec![target("F", "f", AnalysisKind::Def, 1, (0, 1)), uses, uses_h],
        &vec![def_source("G", "function")],
    );
    let crossref = text(ix.crossref());
    assert!(crossref.starts_with("F\n{\"consumes\":[{\"pretty\":\"g\",\"sym\":\"G\",\"syntax\":\"function\"}],\"defs\":"));
    assert!(!crossref.contains("\"sym\":\"H\""));
}

#[test]
fn consumes_present_but_empty_without_metadata() {
    let mut uses = target("G", "g", AnalysisKind::Use, 1, (0, 1));
    uses.contextsym = "F".to_string();
    let mut ix = CrossIndex::new();
    ix.ingest_file("a.cpp", &lines(&["g"]), &vec![target("F", "f", AnalysisKind::Def, 1, (0, 1)), uses], &vec![]);
    assert!(text(ix.crossref()).starts_with("F\n{\"consumes\":[],\"defs\":"));
}

#[test]
fn empty_contextsym_records_no_consumes() {
    let mut ix = CrossIndex::new();
    ix.ingest_file("a.cpp", &lines(&["g"]), &vec![target("G", "g", AnalysisKind::Use, 1, (0, 1))], &vec![]);
    assert_eq!(ix.consumes_table.keys.len(), 0);
    assert!(!text(ix.crossref()).contains("consumes"));
}

#[test]
fn illegal_pretty_names_are_not_listed() {
    let mut ix = CrossIndex::new();
    ix.ingest_file(
        "a.cpp",
        &lines(&["x"]),
        &vec![
            target("A", "123abc", AnalysisKind::Def, 1, (0, 1)),
            target("B", "with space", AnalysisKind::Def, 1, (0, 1)),
            target("C", "", AnalysisKind::Def, 1, (0, 1)),
            target("D", "ok", AnalysisKind::Def, 1, (0, 1)),
        ],
        &vec![],
    );
    assert_eq!(text(ix.identifiers()), "ok D\n");
}

#[test]
fn ipc_link_sets_both_sides() {
    let mut ipc = def_source("I", "method");
    ipc.src_sym = Some("P".to_string());
    ipc.target_sym = Some("C".to_string());
    ipc.is_ipc = true;
    let mut ix = CrossIndex::new();
    ix.ingest_file("a.idl", &lines(&["x"]), &vec![], &vec![ipc, def_source("P", "method"), def_source("C", "method")]);
    assert_eq!(ix.ipc_to_link.len(), 1);
    ix.link_ipc();
    assert_eq!(meta_of(&ix, "P"), Some(("I".to_string(), String::new(), "C".to_string())));
    assert_eq!(meta_of(&ix, "C"), Some(("I".to_string(), "P".to_string(), String::new())));
    assert_eq!(meta_of(&ix, "I"), Some((String::new(), "P".to_string(), "C".to_string())));
}

#[test]
fn first_metadata_record_wins() {
    let mut ix = CrossIndex::new();
    assert!(ix.add_source(&def_source("S", "function")));
    assert!(!ix.add_source(&def_source("S", "field")));
    assert!(text(ix.crossref()).is_empty());
    assert_eq!(ix.meta_table.vals[0].syntax_kind.iter().collect::<String>(), "function");
}

#[test]
fn builder_is_deterministic() {
    let run = || {
        let mut ix = CrossIndex::new();
        ix.ingest_file(
            "b.cpp",
            &lines(&["int x;", "  x = 1;"]),
            &vec![target("X", "x", AnalysisKind::Def, 1, (4, 5)), target("X", "x", AnalysisKind::Assign, 2, (2, 3))],
            &vec![def_source("X", "variable")],
        );
        ix.ingest_file("a.cpp", &lines(&["x"]), &vec![target("X", "x", AnalysisKind::Use, 1, (0, 1))], &vec![]);
        ix.link_ipc();
        outputs(&ix)
    };
    let first = run();
    assert_eq!(first, run());
    assert!(first.0.starts_with("X\n{\"assignments\":[{\"lines\":[{\"bounds\":[0,1]"));
    assert!(first.0.contains("\"meta\":{\"idlsym\":\"\",\"srcsym\":\"\",\"syntax\":\"variable\",\"targetsym\":\"\",\"type\":\"\",\"typesym\":\"\"},\"uses\":[{\"lines\""));
}

#[test]
fn bad_line_number_drops_only_that_record() {
    let mut ix = CrossIndex::new();
    let kept = ix.ingest_file(
        "a.cpp",
        &lines(&["one", "two"]),
        &vec![target("A", "a", AnalysisKind::Def, 3, (0, 1)), target("B", "b", AnalysisKind::Def, 2, (0, 3)), target("C", "c", AnalysisKind::Def, 0, (0, 1))],
        &vec![],
    );
    assert_eq!(kept, vec![false, true, false]);
    let (crossref, jumps, _) = outputs(&ix);
    assert!(crossref.starts_with("B\n"));
    assert!(!crossref.contains("A\n"));
    assert_eq!(jumps, "[\"B\",\"a.cpp\",2,\"b\"]\n");
}

#[test]
fn missing_source_file_is_skipped() {
    let mut ix = CrossIndex::new();
    let kept = ix.ingest_file("a.cpp", &None, &vec![target("A", "a", AnalysisKind::Def, 1, (0, 1))], &vec![def_source("A", "function")]);
    assert!(kept.is_empty());
    assert_eq!(outputs(&ix), (String::new(), String::new(), String::new()));
}

#[test]
fn reingesting_a_file_doubles_occurrences_only() {
    let records = vec![target("A", "a", AnalysisKind::Def, 1, (0, 1))];
    let mut once = CrossIndex::new();
    once.ingest_file("a.cpp", &lines(&["a"]), &records, &vec![]);
    let mut twice = CrossIndex::new();
    twice.ingest_file("a.cpp", &lines(&["a"]), &records, &vec![]);
    twice.ingest_file("a.cpp", &lines(&["a"]), &records, &vec![]);
    assert_eq!(text(once.identifiers()), text(twice.identifiers()));
    assert_eq!(twice.table.vals[0].len(), 2);
    assert_eq!(text(twice.jumps()), "");
    assert_eq!(text(once.jumps()), "[\"A\",\"a.cpp\",1,\"a\"]\n");
}

#[test]
fn peek_block_is_left_aligned() {
    let mut t = target("A", "a", AnalysisKind::Def, 2, (4, 5));
    t.peek_range = PeekRange { start_lineno: 2, end_lineno: 4 };
    let mut ix = CrossIndex::new();
    ix.ingest_file("a.cpp", &lines(&["top", "    if x {", "        y();", "  }"]), &vec![t], &vec![]);
    let peek: String = ix.table.vals[0][0].peek_lines.iter().collect();
    assert_eq!(peek, "if x {\n    y();\n}\n");
    assert!(text(ix.crossref()).contains("\"peekLines\":\"if x {\\n    y();\\n}\\n\""));
}

#[test]
fn zero_peek_start_gives_no_peek() {
    let mut ix = CrossIndex::new();
    ix.ingest_file("a.cpp", &lines(&["a"]), &vec![target("A", "a", AnalysisKind::Def, 1, (0, 1))], &vec![]);
    assert!(ix.table.vals[0][0].peek_lines.is_empty());
    assert!(!text(ix.crossref()).contains("peekLines"));
}

#[test]
fn lines_are_trimmed_and_cut() {
    let (t, off) = trim_line(&"  \tfoo()  \r".chars().collect::<Vec<char>>());
    assert_eq!(t.iter().collect::<String>(), "foo()");
    assert_eq!(off, 3);
    let long: String = std::iter::repeat('x').take(150).collect();
    let (t, off) = trim_line(&format!(" {}", long).chars().collect::<Vec<char>>());
    assert_eq!(t.len(), 100);
    assert_eq!(off, 1);
}

#[test]
fn bounds_inside_indentation_become_zero() {
    let mut ix = CrossIndex::new();
    ix.ingest_file("a.cpp", &lines(&["    foo"]), &vec![target("A", "a", AnalysisKind::Def, 1, (2, 7))], &vec![]);
    assert_eq!(ix.table.vals[0][0].bounds, (0, 3));
}

#[test]
fn json_strings_are_escaped() {
    let mut t = target("A", "a", AnalysisKind::Def, 1, (0, 1));
    t.context = "say \"hi\"\\".to_string();
    let mut ix = CrossIndex::new();
    ix.ingest_file("a.cpp", &lines(&["a"]), &vec![t], &vec![]);
    assert_eq!(
        ix.table.vals[0][0].to_json(),
        "{\"bounds\":[0,1],\"context\":\"say \\\"hi\\\"\\\\\",\"contextsym\":\"\",\"line\":\"a\",\"lno\":1}"
    );
}

#[test]
fn reinterning_gives_equal_handle() {
    let mut strings = StringIntern::new();
    let a = strings.add("abc".to_string());
    let size = strings.set.keys.len();
    let b = strings.add("abc".to_string());
    assert_eq!(a, b);
    assert!(std::rc::Rc::ptr_eq(&a, &b));
    assert_eq!(strings.set.keys.len(), size);
    let c = strings.add("abd".to_string());
    assert_ne!(a, c);
    assert_eq!(strings.set.keys.len(), size + 1);
}
