use stacks_marf::docs::{
    check_docs, check_docs_refs, error_code_program, make_docs, name_less, produce_docs_refs,
    AnalyzedContract, ContractInterface, ContractSupportDocs, DocsError, FunctionSignature,
};

fn s(x: &str) -> String {
    x.to_string()
}

fn sig(name: &str) -> FunctionSignature {
    FunctionSignature {
        name: s(name),
        input_type: format!("{}-in", name),
        output_type: format!("{}-out", name),
        signature: format!("({})", name),
    }
}

fn interface() -> ContractInterface {
    ContractInterface {
        public_functions: vec![sig("stack-stx"), sig("hidden-fn")],
        read_only_functions: vec![sig("get-info")],
        variables: vec![
            (s("ERR_STACKING_UNREACHABLE"), s("int")),
            (s("MIN_AMOUNT"), s("uint")),
            (s("ERR_NOT_ALLOWED"), s("int")),
        ],
    }
}

fn support() -> ContractSupportDocs {
    ContractSupportDocs {
        descriptions: vec![
            (s("stack-stx"), s("Lock tokens.")),
            (s("get-info"), s("Read settings.")),
        ],
        skip_func_display: vec![s("hidden-fn")],
    }
}

fn values() -> Vec<(String, String)> {
    vec![(s("ERR_NOT_ALLOWED"), s("19")), (s("ERR_STACKING_UNREACHABLE"), s("255"))]
}

#[test]
fn documents_displayed_functions_and_errors() {
    assert!(check_docs(&interface(), &values(), &support()).is_ok());
    let c = make_docs(&interface(), &values(), &support());
    assert_eq!(c.public_functions.len(), 1);
    let f = &c.public_functions[0];
    assert_eq!(f.name, "stack-stx");
    assert_eq!(f.input_type, "stack-stx-in");
    assert_eq!(f.output_type, "stack-stx-out");
    assert_eq!(f.signature, "(stack-stx)");
    assert_eq!(f.description, "Lock tokens.");
    assert_eq!(c.read_only_functions.len(), 1);
    assert_eq!(c.read_only_functions[0].description, "Read settings.");
    assert_eq!(c.error_codes.len(), 2);
    assert_eq!(c.error_codes[0].name, "ERR_STACKING_UNREACHABLE");
    assert_eq!(c.error_codes[0].value_type, "int");
    assert_eq!(c.error_codes[0].value, "255");
    assert_eq!(c.error_codes[1].name, "ERR_NOT_ALLOWED");
    assert_eq!(c.error_codes[1].value, "19");
}

#[test]
fn missing_description_is_reported() {
    let mut docs = support();
    docs.descriptions.retain(|d| d.0 != "get-info");
    match check_docs(&interface(), &values(), &docs) {
        Err(DocsError::MissingDescription(n)) => assert_eq!(n, "get-info"),
        other => panic!("unexpected {:?}", other),
    }
}

#[test]
fn missing_error_value_is_reported() {
    let vals = vec![(s("ERR_NOT_ALLOWED"), s("19"))];
    match check_docs(&interface(), &vals, &support()) {
        Err(DocsError::MissingErrorValue(n)) => assert_eq!(n, "ERR_STACKING_UNREACHABLE"),
        other => panic!("unexpected {:?}", other),
    }
}

#[test]
fn error_program_lists_error_constants() {
    let p = error_code_program("(define-constant X 1)", &interface().variables);
    assert_eq!(
        p,
        "(define-constant X 1)\n { ERR_STACKING_UNREACHABLE: ERR_STACKING_UNREACHABLE, ERR_NOT_ALLOWED: ERR_NOT_ALLOWED }"
    );
    let none = error_code_program("c", &vec![(s("ERR"), s("int"))]);
    assert_eq!(none, "c\n {  }");
}

#[test]
fn produces_docs_for_supported_contracts_only() {
    let contracts = vec![
        AnalyzedContract { name: s("pox"), interface: interface(), error_values: values() },
        AnalyzedContract { name: s("costs"), interface: interface(), error_values: vec![] },
    ];
    let support_docs = vec![(s("pox"), support())];
    assert!(check_docs_refs(&contracts, &support_docs).is_ok());
    let refs = produce_docs_refs(&contracts, &support_docs);
    assert_eq!(refs.len(), 1);
    assert_eq!(refs[0].0, "pox");
    assert_eq!(refs[0].1.error_codes.len(), 2);
}

#[test]
fn docs_are_keyed_by_name_in_order_later_wins() {
    let mut small = interface();
    small.variables = vec![];
    let contracts = vec![
        AnalyzedContract { name: s("pox"), interface: interface(), error_values: values() },
        AnalyzedContract { name: s("bns"), interface: interface(), error_values: values() },
        AnalyzedContract { name: s("pox"), interface: small, error_values: vec![] },
        AnalyzedContract { name: s("costs"), interface: interface(), error_values: values() },
    ];
    let support_docs =
        vec![(s("pox"), support()), (s("costs"), support()), (s("bns"), support())];
    let refs = produce_docs_refs(&contracts, &support_docs);
    let names: Vec<&str> = refs.iter().map(|r| r.0.as_str()).collect();
    assert_eq!(names, vec!["bns", "costs", "pox"]);
    assert_eq!(refs[2].1.error_codes.len(), 0);
    assert_eq!(refs[0].1.error_codes.len(), 2);
}

#[test]
fn names_order_like_strings() {
    for (a, b) in [("a", "b"), ("ab", "abc"), ("", "a"), ("pox", "pox-2"), ("Z", "a"), ("b", "ab")] {
        assert_eq!(name_less(&s(a), &s(b)), s(a) < s(b));
        assert_eq!(name_less(&s(b), &s(a)), s(b) < s(a));
    }
    assert!(!name_less(&s("x"), &s("x")));
}

#[test]
fn check_docs_refs_reports_undocumentable_contract() {
    let contracts =
        vec![AnalyzedContract { name: s("pox"), interface: interface(), error_values: vec![] }];
    let support_docs = vec![(s("pox"), support())];
    assert!(matches!(
        check_docs_refs(&contracts, &support_docs),
        Err(DocsError::MissingErrorValue(_))
    ));
}

#[test]
fn duplicate_names_are_reported() {
    let mut docs = support();
    docs.descriptions.push((s("get-info"), s("Again.")));
    match check_docs(&interface(), &values(), &docs) {
        Err(DocsError::DuplicateName(n)) => assert_eq!(n, "get-info"),
        other => panic!("unexpected {:?}", other),
    }
    let mut vals = values();
    vals.push((s("ERR_NOT_ALLOWED"), s("20")));
    assert!(matches!(check_docs(&interface(), &vals, &support()), Err(DocsError::DuplicateName(_))));
    let contracts =
        vec![AnalyzedContract { name: s("pox"), interface: interface(), error_values: values() }];
    let twice = vec![(s("pox"), support()), (s("pox"), support())];
    assert!(matches!(check_docs_refs(&contracts, &twice), Err(DocsError::DuplicateName(_))));
}
