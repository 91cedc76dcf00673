use diamond_tools::filter::{is_in_filter_set, IncludeExcludeFilter};
use diamond_tools::member::{Member, MemberKind};

fn function(name: &str, types: &[&str]) -> Member<()> {
    Member {
        kind: MemberKind::Function,
        name: name.to_owned(),
        input_types: types.iter().map(|t| t.to_string()).collect(),
        payload: (),
    }
}

fn foo_1() -> Member<()> {
    function("foo", &["address"])
}

fn foo_2() -> Member<()> {
    function("foo", &["address", "address"])
}

#[test]
fn test_by_name() {
    let filter_set = vec![foo_1().name.clone(), "bar".to_owned()];

    let methods = vec![foo_1()];

    assert!(
        is_in_filter_set(&filter_set, &methods),
        "Should find `foo` method in the filter set by name"
    );
}

#[test]
fn test_by_signature() {
    let filter_set = vec![foo_1().name.clone(), foo_2().signature()];

    let methods = vec![foo_1(), foo_2()];

    assert!(
        is_in_filter_set(&filter_set, &methods),
        "Should find `foo` method in the filter set by signature"
    );
}

#[test]
fn single_overload_matches_its_signature() {
    let filter_set = vec!["foo(address)".to_owned()];
    assert!(is_in_filter_set(&filter_set, &vec![foo_1()]));
}

#[test]
fn single_overload_not_listed() {
    let filter_set = vec!["bar".to_owned(), "foo(address,address)".to_owned()];
    assert!(!is_in_filter_set(&filter_set, &vec![foo_1()]));
}

#[test]
fn overloaded_name_alone_matches_nothing() {
    let filter_set = vec!["foo".to_owned()];
    assert!(!is_in_filter_set(&filter_set, &vec![foo_1(), foo_2()]));
}

#[test]
fn overloaded_group_matches_any_listed_signature() {
    let filter_set = vec!["foo(address)".to_owned(), "foo(address,address)".to_owned()];
    assert!(is_in_filter_set(&filter_set, &vec![foo_1(), foo_2()]));
}

#[test]
fn include_single_overload_by_name() {
    let group = vec![function("transfer", &["address", "uint256"])];
    assert!(IncludeExcludeFilter::from_include(vec!["transfer".to_owned()]).filter(&group));
    assert!(!IncludeExcludeFilter::from_include(vec!["approve".to_owned()]).filter(&group));
}

#[test]
fn exclude_single_overload_by_name() {
    let group = vec![function("transfer", &["address", "uint256"])];
    assert!(!IncludeExcludeFilter::from_exclude(vec!["transfer".to_owned()]).filter(&group));
    assert!(IncludeExcludeFilter::from_exclude(vec!["approve".to_owned()]).filter(&group));
}

#[test]
fn overloaded_group_bare_name_policy() {
    let group = vec![
        function("transfer", &["address", "uint256"]),
        function("transfer", &["address", "uint256", "bytes"]),
    ];
    assert!(!IncludeExcludeFilter::from_include(vec!["transfer".to_owned()]).filter(&group));
    assert!(IncludeExcludeFilter::from_exclude(vec!["transfer".to_owned()]).filter(&group));
    assert!(IncludeExcludeFilter::from_include(vec!["transfer(address,uint256)".to_owned()]).filter(&group));
    assert!(!IncludeExcludeFilter::from_exclude(vec!["transfer(address,uint256,bytes)".to_owned()]).filter(&group));
}

#[test]
fn empty_lists_keep_everything() {
    let group = vec![foo_1(), foo_2()];
    assert!(IncludeExcludeFilter::from_include(vec![]).filter(&group));
    assert!(IncludeExcludeFilter::from_exclude(vec![]).filter(&group));
    assert!(IncludeExcludeFilter::default().filter(&group));
}
