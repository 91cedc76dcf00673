use diamond_tools::filter::IncludeExcludeFilter;
use diamond_tools::flatten::{flatten_by_signature, unflatten_by_name};
use diamond_tools::member::{AbiDocument, Member, MemberKind, Overloads};
use diamond_tools::merger::DiamondMerger;

fn member(kind: MemberKind, name: &str, types: &[&str], tag: u32) -> Member<u32> {
    Member {
        kind,
        name: name.to_owned(),
        input_types: types.iter().map(|t| t.to_string()).collect(),
        payload: tag,
    }
}

fn function(name: &str, types: &[&str], tag: u32) -> Member<u32> {
    member(MemberKind::Function, name, types, tag)
}

fn group(members: Vec<Member<u32>>) -> Overloads<u32> {
    Overloads { name: members[0].name.clone(), members }
}

fn doc(functions: Vec<Member<u32>>, events: Vec<Member<u32>>, errors: Vec<Member<u32>>) -> AbiDocument<u32> {
    fn grouped(ms: Vec<Member<u32>>) -> Vec<Overloads<u32>> {
        let mut out: Vec<Overloads<u32>> = Vec::new();
        for m in ms {
            match out.iter_mut().find(|g| g.name == m.name) {
                Some(g) => g.members.push(m),
                None => out.push(group(vec![m])),
            }
        }
        out
    }
    AbiDocument { functions: grouped(functions), events: grouped(events), errors: grouped(errors) }
}

/// (group name, [(signature, payload)]) for each group.
fn shape(gs: &[Overloads<u32>]) -> Vec<(String, Vec<(String, u32)>)> {
    gs.iter()
        .map(|g| (g.name.clone(), g.members.iter().map(|m| (m.signature(), m.payload)).collect()))
        .collect()
}

fn unrestricted() -> DiamondMerger {
    DiamondMerger::new(IncludeExcludeFilter::default())
}

#[test]
fn signature_of_function_event_and_error() {
    assert_eq!(function("transfer", &["address", "uint256"], 0).signature(), "transfer(address,uint256)");
    assert_eq!(function("pause", &[], 0).signature(), "pause()");
    assert_eq!(member(MemberKind::Event, "Transfer", &["address", "address", "uint256"], 0).signature(), "Transfer(address,address,uint256)");
    assert_eq!(member(MemberKind::Error, "Unauthorized", &["address"], 0).signature(), "Unauthorized");
}

#[test]
fn signature_with_empty_type() {
    assert_eq!(function("f", &["", "uint8"], 0).signature(), "f(,uint8)");
}

#[test]
fn identical_function_in_two_documents_appears_once() {
    let d1 = doc(vec![function("owner", &[], 1)], vec![], vec![]);
    let d2 = doc(vec![function("owner", &[], 2)], vec![], vec![]);
    let r = unrestricted().merge(vec![d1, d2]);
    assert_eq!(shape(&r.functions), vec![("owner".to_owned(), vec![("owner()".to_owned(), 2)])]);
}

#[test]
fn overloads_are_kept_apart() {
    let d1 = doc(vec![function("foo", &["uint256"], 1)], vec![], vec![]);
    let d2 = doc(vec![function("foo", &["address"], 2)], vec![], vec![]);
    let r = unrestricted().merge(vec![d1, d2]);
    assert_eq!(
        shape(&r.functions),
        vec![("foo".to_owned(), vec![("foo(address)".to_owned(), 2), ("foo(uint256)".to_owned(), 1)])]
    );
}

#[test]
fn groups_come_in_name_order() {
    let d = doc(
        vec![function("zeta", &[], 1), function("alpha", &[], 2), function("Mid", &[], 3)],
        vec![],
        vec![],
    );
    let r = unrestricted().merge(vec![d]);
    let names: Vec<String> = r.functions.iter().map(|g| g.name.clone()).collect();
    assert_eq!(names, vec!["Mid", "alpha", "zeta"]);
}

#[test]
fn events_and_errors_are_not_filtered() {
    let d = doc(
        vec![function("transfer", &["address", "uint256"], 1), function("approve", &["address", "uint256"], 2)],
        vec![member(MemberKind::Event, "Transfer", &["address", "address", "uint256"], 3)],
        vec![member(MemberKind::Error, "Denied", &[], 4)],
    );
    let r = DiamondMerger::new(IncludeExcludeFilter::from_include(vec!["approve".to_owned()])).merge(vec![d]);
    assert_eq!(shape(&r.functions), vec![("approve".to_owned(), vec![("approve(address,uint256)".to_owned(), 2)])]);
    assert_eq!(shape(&r.events), vec![("Transfer".to_owned(), vec![("Transfer(address,address,uint256)".to_owned(), 3)])]);
    assert_eq!(shape(&r.errors), vec![("Denied".to_owned(), vec![("Denied".to_owned(), 4)])]);
}

#[test]
fn errors_collapse_by_name() {
    let d1 = doc(vec![], vec![], vec![member(MemberKind::Error, "Denied", &["address"], 1)]);
    let d2 = doc(vec![], vec![], vec![member(MemberKind::Error, "Denied", &[], 2)]);
    let r = unrestricted().merge(vec![d1, d2]);
    assert_eq!(shape(&r.errors), vec![("Denied".to_owned(), vec![("Denied".to_owned(), 2)])]);
}

#[test]
fn single_overload_include_and_exclude_by_name() {
    let make = || vec![doc(vec![function("transfer", &["address", "uint256"], 1)], vec![], vec![])];
    let kept = DiamondMerger::new(IncludeExcludeFilter::from_include(vec!["transfer".to_owned()])).merge(make());
    assert_eq!(shape(&kept.functions).len(), 1);
    let dropped = DiamondMerger::new(IncludeExcludeFilter::from_exclude(vec!["transfer".to_owned()])).merge(make());
    assert!(dropped.functions.is_empty());
}

#[test]
fn overloaded_name_needs_a_signature() {
    let make = || {
        vec![doc(
            vec![
                function("transfer", &["address", "uint256"], 1),
                function("transfer", &["address", "uint256", "bytes"], 2),
            ],
            vec![],
            vec![],
        )]
    };
    let by_name = DiamondMerger::new(IncludeExcludeFilter::from_include(vec!["transfer".to_owned()])).merge(make());
    assert!(by_name.functions.is_empty());
    let excluded_by_name = DiamondMerger::new(IncludeExcludeFilter::from_exclude(vec!["transfer".to_owned()])).merge(make());
    assert_eq!(shape(&excluded_by_name.functions)[0].1.len(), 2);
    let by_sig = DiamondMerger::new(IncludeExcludeFilter::from_include(vec!["transfer(address,uint256)".to_owned()])).merge(make());
    assert_eq!(
        shape(&by_sig.functions),
        vec![(
            "transfer".to_owned(),
            vec![("transfer(address,uint256)".to_owned(), 1), ("transfer(address,uint256,bytes)".to_owned(), 2)]
        )]
    );
}

#[test]
fn empty_policies_keep_every_function() {
    let make = || {
        vec![
            doc(vec![function("a", &[], 1), function("b", &["bool"], 2)], vec![], vec![]),
            doc(vec![function("b", &["uint8"], 3)], vec![], vec![]),
        ]
    };
    let plain = shape(&unrestricted().merge(make()).functions);
    let inc = shape(&DiamondMerger::new(IncludeExcludeFilter::from_include(vec![])).merge(make()).functions);
    let exc = shape(&DiamondMerger::new(IncludeExcludeFilter::from_exclude(vec![])).merge(make()).functions);
    assert_eq!(plain.len(), 2);
    assert_eq!(plain, inc);
    assert_eq!(plain, exc);
}

#[test]
fn merging_a_merge_again_changes_nothing() {
    let docs = vec![
        doc(vec![function("b", &["uint8"], 1), function("a", &[], 2)], vec![member(MemberKind::Event, "E", &["bool"], 3)], vec![]),
        doc(vec![function("b", &["bool"], 4)], vec![], vec![member(MemberKind::Error, "X", &[], 5)]),
    ];
    let once = DiamondMerger::new(IncludeExcludeFilter::from_exclude(vec!["a".to_owned()])).merge(docs);
    let expected = (shape(&once.functions), shape(&once.events), shape(&once.errors));
    let twice = unrestricted().merge(vec![once]);
    assert_eq!((shape(&twice.functions), shape(&twice.events), shape(&twice.errors)), expected);
}

#[test]
fn unflatten_is_stable() {
    let make = || {
        flatten_by_signature(vec![
            group(vec![function("f", &["uint256"], 1), function("f", &["address"], 2)]),
            group(vec![function("e", &[], 3)]),
        ])
    };
    let a = shape(&unflatten_by_name(make()));
    let b = shape(&unflatten_by_name(make()));
    assert_eq!(a, b);
    assert_eq!(
        a,
        vec![
            ("e".to_owned(), vec![("e()".to_owned(), 3)]),
            ("f".to_owned(), vec![("f(address)".to_owned(), 2), ("f(uint256)".to_owned(), 1)]),
        ]
    );
}

#[test]
fn flatten_keeps_last_of_equal_signatures() {
    let m = flatten_by_signature(vec![
        group(vec![function("g", &["bool"], 1)]),
        group(vec![function("g", &["bool"], 2)]),
    ]);
    assert_eq!(m.len(), 1);
    assert_eq!(shape(&unflatten_by_name(m)), vec![("g".to_owned(), vec![("g(bool)".to_owned(), 2)])]);
}

#[test]
fn merge_of_nothing_is_empty() {
    let r = unrestricted().merge(Vec::<AbiDocument<u32>>::new());
    assert!(r.functions.is_empty() && r.events.is_empty() && r.errors.is_empty());
}

#[test]
fn merged_names_are_the_union_of_input_names() {
    let d1 = doc(vec![function("a", &[], 1), function("b", &["bool"], 2)], vec![member(MemberKind::Event, "E", &[], 3)], vec![]);
    let d2 = doc(vec![function("b", &["uint8"], 4), function("c", &[], 5)], vec![], vec![member(MemberKind::Error, "X", &[], 6)]);
    let r = unrestricted().merge(vec![d1, d2]);
    let names: Vec<String> = r.functions.iter().map(|g| g.name.clone()).collect();
    assert_eq!(names, vec!["a", "b", "c"]);
    assert_eq!(r.events.len(), 1);
    assert_eq!(r.errors.len(), 1);
}

#[test]
fn flatten_after_unflatten_is_the_same_mapping() {
    let make = || {
        flatten_by_signature(vec![
            group(vec![function("f", &["uint256"], 1), function("f", &["address"], 2)]),
            group(vec![function("e", &[], 3)]),
        ])
    };
    let again = flatten_by_signature(unflatten_by_name(make()));
    assert_eq!(shape(&unflatten_by_name(again)), shape(&unflatten_by_name(make())));
}
