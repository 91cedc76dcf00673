use diamond_tools::discovery::{has_listed_extension, is_dbg_stem, is_hidden_name};
use diamond_tools::args::{DiamondMergeArgs, DiamondMergeError, DEFAULT_OUT_CONTRACT_NAME, DEFAULT_OUT_DIR};
use diamond_tools::doc::{format_doc_comment, is_blank, is_whitespace};
use diamond_tools::engine::Engine;
use diamond_tools::filter::IncludeExcludeFilter;
use diamond_tools::member::{AbiDocument, Member, MemberKind, Overloads};

#[test]
fn doc_comment_lines_end_with_line_feeds() {
    let lines = vec!["first".to_owned(), "".to_owned(), " third".to_owned()];
    assert_eq!(format_doc_comment(&lines), "first\n\n third\n");
    assert_eq!(format_doc_comment(&[]), "");
}

#[test]
fn blank_strings() {
    assert!(is_blank(""));
    assert!(is_blank(" \t\n\r"));
    assert!(is_blank("\u{00A0}\u{2003}"));
    assert!(!is_blank("  x "));
    assert!(!is_blank("a"));
}

#[test]
fn default_merge_args() {
    let a = DiamondMergeArgs::default();
    assert!(a.filtered_methods.is_none());
    assert!(!a.include_flag && !a.exclude_flag && a.create_interface);
    assert_eq!(a.out_dir.as_deref(), Some(DEFAULT_OUT_DIR));
    assert_eq!(a.out_contract_name.as_deref(), Some(DEFAULT_OUT_CONTRACT_NAME));
    assert_eq!(DEFAULT_OUT_DIR, "artifacts/contracts");
    assert_eq!(DEFAULT_OUT_CONTRACT_NAME, "DiamondProxy");
}

#[test]
fn both_filter_flags_are_refused() {
    let mut a = DiamondMergeArgs::default();
    a.filtered_methods = Some(vec!["x".to_owned()]);
    a.include_flag = true;
    a.exclude_flag = true;
    assert!(matches!(a.filter(), Err(DiamondMergeError::OnlyOneFilter)));
}

#[test]
fn filter_flags_select_the_policy() {
    let mut a = DiamondMergeArgs::default();
    assert!(matches!(a.filter(), Ok(IncludeExcludeFilter::Include(v)) if v.is_empty()));
    a.filtered_methods = Some(vec!["x".to_owned()]);
    a.include_flag = true;
    assert!(matches!(a.filter(), Ok(IncludeExcludeFilter::Include(v)) if v == vec!["x".to_owned()]));
    let mut b = DiamondMergeArgs::default();
    b.filtered_methods = Some(vec!["y".to_owned()]);
    assert!(matches!(b.filter(), Ok(IncludeExcludeFilter::Exclude(v)) if v == vec!["y".to_owned()]));
    let mut c = DiamondMergeArgs::default();
    c.include_flag = true;
    c.exclude_flag = true;
    assert!(matches!(c.filter(), Ok(IncludeExcludeFilter::Include(v)) if v.is_empty()));
}

fn single(name: &str) -> AbiDocument<()> {
    let m = Member { kind: MemberKind::Function, name: name.to_owned(), input_types: vec![], payload: () };
    AbiDocument {
        functions: vec![Overloads { name: name.to_owned(), members: vec![m] }],
        events: vec![],
        errors: vec![],
    }
}

#[test]
fn engine_merges_with_the_chosen_policy() {
    let mut e = Engine::new(vec![single("a"), single("b")]).with_exclude(vec!["a".to_owned()]);
    assert!(e.result.functions.is_empty());
    e.merge();
    let r = e.finish();
    let names: Vec<String> = r.functions.iter().map(|g| g.name.clone()).collect();
    assert_eq!(names, vec!["b"]);

    let mut e = Engine::new(vec![single("a"), single("b")]).with_include(vec!["a".to_owned()]);
    e.merge();
    assert_eq!(e.finish().functions.len(), 1);

    let mut e = Engine::new(vec![single("a"), single("b")]);
    e.merge();
    assert_eq!(e.finish().functions.len(), 2);
}

#[test]
fn engine_merge_keeps_its_documents() {
    let mut e = Engine::new(vec![single("a"), single("b"), single("a")]).with_exclude(vec!["b".to_owned()]);
    e.merge();
    assert_eq!(e.abis.len(), 3);
    let first: Vec<String> = e.result.functions.iter().map(|g| g.name.clone()).collect();
    e.merge();
    let second: Vec<String> = e.result.functions.iter().map(|g| g.name.clone()).collect();
    assert_eq!(first, vec!["a"]);
    assert_eq!(first, second);
    assert!(matches!(&e.filter, IncludeExcludeFilter::Exclude(v) if v == &vec!["b".to_owned()]));
}

#[test]
fn artifact_file_names() {
    assert!(is_hidden_name(".git"));
    assert!(!is_hidden_name("contracts"));
    assert!(!is_hidden_name(""));
    assert!(is_dbg_stem("Diamond.dbg"));
    assert!(!is_dbg_stem(".dbg"));
    assert!(!is_dbg_stem("Diamond"));
    assert!(!is_dbg_stem("dbg"));
    let exts = vec!["json".to_owned(), "abi".to_owned()];
    assert!(has_listed_extension("abi", &exts));
    assert!(!has_listed_extension("sol", &exts));
    assert!(!has_listed_extension("json", &vec![]));
}

#[test]
fn whitespace_matches_std() {
    for c in (0u32..=0x10FFFF).filter_map(char::from_u32) {
        assert_eq!(is_whitespace(c), c.is_whitespace(), "{:?}", c);
    }
}
