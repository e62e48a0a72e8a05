use schema_visitors::count::count_refs;
use schema_visitors::cycle::is_self_referential;
use schema_visitors::merge::{merge, merge_schemas};
use schema_visitors::pipeline::{inline_single_use_references, normalize};
use schema_visitors::validate::{validate, SchemaError};
use schema_visitors::schema::{Document, ObjectSchema, Policy, Schema};
use schema_visitors::strict::{enforce_strictness, strictify};

fn s(x: &str) -> String {
    x.to_string()
}

fn reference(n: &str) -> Schema {
    Schema::Reference(s(n))
}

fn leaf(d: &str) -> Schema {
    Schema::Leaf(s(d))
}

fn object(props: Vec<(&str, Schema)>) -> ObjectSchema {
    ObjectSchema {
        properties: props.into_iter().map(|(n, c)| (s(n), c)).collect(),
        required: Vec::new(),
        additional: Policy::Absent,
        all_of: Vec::new(),
        one_of: Vec::new(),
        any_of: Vec::new(),
    }
}

fn obj(props: Vec<(&str, Schema)>) -> Schema {
    Schema::Object(object(props))
}

fn def_names(d: &Document) -> Vec<String> {
    d.definitions.iter().map(|(n, _)| n.clone()).collect()
}

fn rejected_names(p: &Policy) -> Vec<String> {
    match p {
        Policy::RejectUnevaluated(v) => {
            let mut v = v.clone();
            v.sort();
            v.dedup();
            v
        }
        other => panic!("expected a strictness marker, got {:?}", other),
    }
}

#[test]
fn counts_references_across_nested_nodes() {
    let mut o = object(vec![("a", reference("A")), ("b", reference("B"))]);
    o.all_of.push(reference("A"));
    o.additional = Policy::Constrained(Box::new(reference("A")));
    let root = Schema::Object(o);
    assert_eq!(count_refs(&root, &s("A")), 3);
    assert_eq!(count_refs(&root, &s("B")), 1);
    assert_eq!(count_refs(&root, &s("C")), 0);
}

#[test]
fn inlines_single_use_and_keeps_shared_definition() {
    let root = obj(vec![
        ("first", reference("A")),
        ("second", reference("A")),
        ("third", reference("B")),
    ]);
    let doc = Document {
        root,
        definitions: vec![(s("A"), leaf("string")), (s("B"), leaf("integer"))],
    };
    let out = inline_single_use_references(doc);
    assert_eq!(def_names(&out), vec![s("A")]);
    assert_eq!(out.definitions[0].1, leaf("string"));
    let expected = obj(vec![
        ("first", reference("A")),
        ("second", reference("A")),
        ("third", leaf("integer")),
    ]);
    assert_eq!(out.root, expected);
}

#[test]
fn removes_unreferenced_definitions() {
    let doc = Document {
        root: obj(vec![("x", leaf("string"))]),
        definitions: vec![(s("Unused"), leaf("boolean"))],
    };
    let out = inline_single_use_references(doc);
    assert!(out.definitions.is_empty());
}

#[test]
fn every_remaining_definition_is_referenced() {
    let doc = Document {
        root: obj(vec![("a", reference("A")), ("b", reference("A")), ("c", reference("B"))]),
        definitions: vec![
            (s("A"), obj(vec![("inner", reference("C"))])),
            (s("B"), obj(vec![("d", reference("D"))])),
            (s("C"), leaf("string")),
            (s("D"), leaf("number")),
            (s("E"), leaf("null")),
        ],
    };
    let out = inline_single_use_references(doc);
    for (name, _) in &out.definitions {
        let mut total = count_refs(&out.root, name);
        for (_, body) in &out.definitions {
            total += count_refs(body, name);
        }
        assert!(total >= 1);
    }
    assert_eq!(def_names(&out), vec![s("A")]);
}

#[test]
fn self_referential_definition_is_not_inlined() {
    let doc = Document {
        root: obj(vec![("node", reference("Node"))]),
        definitions: vec![(s("Node"), obj(vec![("next", reference("Node"))]))],
    };
    assert!(is_self_referential(&doc.definitions, 0));
    let out = inline_single_use_references(doc);
    assert_eq!(def_names(&out), vec![s("Node")]);
    assert_eq!(out.root, obj(vec![("node", reference("Node"))]));
}

#[test]
fn chain_of_definitions_is_not_inlined() {
    let doc = Document {
        root: obj(vec![("start", reference("P"))]),
        definitions: vec![
            (s("P"), obj(vec![("q", reference("Q"))])),
            (s("Q"), obj(vec![("p", reference("P"))])),
        ],
    };
    assert!(is_self_referential(&doc.definitions, 0));
    assert!(is_self_referential(&doc.definitions, 1));
    let out = inline_single_use_references(doc);
    assert_eq!(def_names(&out), vec![s("P"), s("Q")]);
    assert_eq!(out.root, obj(vec![("start", reference("P"))]));
}

#[test]
fn unreachable_cycle_is_removed() {
    let doc = Document {
        root: leaf("string"),
        definitions: vec![
            (s("A"), obj(vec![("b", reference("B"))])),
            (s("B"), obj(vec![("a", reference("A"))])),
        ],
    };
    let out = inline_single_use_references(doc);
    assert!(out.definitions.is_empty());
    assert_eq!(out.root, leaf("string"));
}

#[test]
fn dead_definition_does_not_keep_references_alive() {
    let doc = Document {
        root: obj(vec![("a", reference("A"))]),
        definitions: vec![
            (s("A"), leaf("string")),
            (s("Dead"), obj(vec![("a", reference("A"))])),
        ],
    };
    let once = normalize(doc).unwrap();
    assert!(once.definitions.is_empty());
    let twice = normalize(normalize(Document {
        root: obj(vec![("a", reference("A"))]),
        definitions: vec![
            (s("A"), leaf("string")),
            (s("Dead"), obj(vec![("a", reference("A"))])),
        ],
    }).unwrap()).unwrap();
    assert_eq!(once, twice);
}

#[test]
fn acyclic_definition_is_not_self_referential() {
    let defs = vec![
        (s("P"), obj(vec![("q", reference("Q"))])),
        (s("Q"), leaf("string")),
    ];
    assert!(!is_self_referential(&defs, 0));
    assert!(!is_self_referential(&defs, 1));
}

#[test]
fn strictness_marks_closed_object() {
    let doc = Document { root: obj(vec![("x", leaf("string")), ("y", leaf("integer"))]), definitions: Vec::new() };
    let out = enforce_strictness(doc);
    match &out.root {
        Schema::Object(o) => assert_eq!(rejected_names(&o.additional), vec![s("x"), s("y")]),
        other => panic!("unexpected {:?}", other),
    }
}

#[test]
fn strictness_keeps_explicit_policy() {
    let mut o = object(vec![("x", leaf("string"))]);
    o.additional = Policy::Allowed;
    let out = strictify(Schema::Object(o), &Vec::new());
    match out {
        Schema::Object(o) => assert_eq!(o.additional, Policy::Allowed),
        other => panic!("unexpected {:?}", other),
    }
}

#[test]
fn strictness_leaves_empty_object_alone() {
    let out = strictify(obj(vec![]), &Vec::new());
    match out {
        Schema::Object(o) => assert_eq!(o.additional, Policy::Absent),
        other => panic!("unexpected {:?}", other),
    }
}

#[test]
fn strictness_counts_names_of_composition_branches() {
    let mut o = object(vec![("x", leaf("string"))]);
    o.any_of.push(obj(vec![("z", leaf("integer"))]));
    let out = strictify(Schema::Object(o), &Vec::new());
    match out {
        Schema::Object(o) => {
            assert_eq!(rejected_names(&o.additional), vec![s("x"), s("z")]);
            match &o.any_of[0] {
                Schema::Object(b) => assert_eq!(rejected_names(&b.additional), vec![s("x"), s("z")]),
                other => panic!("unexpected {:?}", other),
            }
        }
        other => panic!("unexpected {:?}", other),
    }
}

#[test]
fn disjunction_branches_reject_outside_union() {
    let mut o = object(vec![]);
    o.one_of.push(obj(vec![("x", leaf("string"))]));
    o.one_of.push(obj(vec![("y", leaf("string"))]));
    let out = enforce_strictness(Document { root: Schema::Object(o), definitions: Vec::new() });
    match &out.root {
        Schema::Object(o) => {
            assert_eq!(o.additional, Policy::Absent);
            for branch in &o.one_of {
                match branch {
                    Schema::Object(b) => assert_eq!(rejected_names(&b.additional), vec![s("x"), s("y")]),
                    other => panic!("unexpected {:?}", other),
                }
            }
        }
        other => panic!("unexpected {:?}", other),
    }
}

#[test]
fn conjunction_of_objects_collapses() {
    let mut first = object(vec![("x", leaf("string"))]);
    first.required.push(s("x"));
    let second = object(vec![("y", leaf("integer"))]);
    let mut parent = object(vec![]);
    parent.all_of.push(Schema::Object(first));
    parent.all_of.push(Schema::Object(second));
    let out = merge(Schema::Object(parent));
    let mut expected = object(vec![("x", leaf("string")), ("y", leaf("integer"))]);
    expected.required.push(s("x"));
    assert_eq!(out, Schema::Object(expected));
}

#[test]
fn conflicting_property_names_are_not_collapsed() {
    let mut parent = object(vec![]);
    parent.all_of.push(obj(vec![("x", leaf("string"))]));
    parent.all_of.push(obj(vec![("x", leaf("integer"))]));
    let out = merge(Schema::Object(parent));
    match out {
        Schema::Object(o) => assert_eq!(o.all_of.len(), 2),
        other => panic!("unexpected {:?}", other),
    }
}

#[test]
fn nested_conjunctions_are_flattened() {
    let mut inner = object(vec![]);
    inner.all_of.push(reference("B"));
    inner.all_of.push(reference("C"));
    let mut parent = object(vec![]);
    parent.all_of.push(reference("A"));
    parent.all_of.push(Schema::Object(inner));
    parent.all_of.push(reference("D"));
    let out = merge(Schema::Object(parent));
    match out {
        Schema::Object(o) => assert_eq!(
            o.all_of,
            vec![reference("A"), reference("B"), reference("C"), reference("D")]
        ),
        other => panic!("unexpected {:?}", other),
    }
}

#[test]
fn single_member_composition_is_unwrapped() {
    let mut parent = object(vec![]);
    parent.one_of.push(reference("A"));
    assert_eq!(merge(Schema::Object(parent)), reference("A"));
}

#[test]
fn collapse_takes_most_restrictive_policy() {
    let mut first = object(vec![("x", leaf("string"))]);
    first.additional = Policy::Allowed;
    let mut second = object(vec![("y", leaf("string"))]);
    second.additional = Policy::Forbidden;
    let mut parent = object(vec![]);
    parent.all_of.push(Schema::Object(first));
    parent.all_of.push(Schema::Object(second));
    match merge(Schema::Object(parent)) {
        Schema::Object(o) => {
            assert_eq!(o.additional, Policy::Forbidden);
            assert!(o.all_of.is_empty());
        }
        other => panic!("unexpected {:?}", other),
    }
}

#[test]
fn merge_keeps_definition_names() {
    let mut body = object(vec![]);
    body.any_of.push(leaf("string"));
    let doc = Document { root: reference("A"), definitions: vec![(s("A"), Schema::Object(body))] };
    let out = merge_schemas(doc);
    assert_eq!(def_names(&out), vec![s("A")]);
    assert_eq!(out.definitions[0].1, leaf("string"));
}

#[test]
fn validate_reports_dangling_reference() {
    let doc = Document { root: obj(vec![("a", reference("Missing"))]), definitions: Vec::new() };
    assert_eq!(validate(&doc), Err(SchemaError::DanglingReference(s("Missing"), None)));
    assert_eq!(normalize(doc), Err(SchemaError::DanglingReference(s("Missing"), None)));
}

#[test]
fn validate_names_definition_holding_dangling_reference() {
    let doc = Document {
        root: reference("A"),
        definitions: vec![(s("A"), obj(vec![("b", reference("B"))]))],
    };
    assert_eq!(validate(&doc), Err(SchemaError::DanglingReference(s("B"), Some(s("A")))));
}

#[test]
fn validate_reports_duplicate_definition() {
    let doc = Document {
        root: reference("A"),
        definitions: vec![(s("A"), leaf("string")), (s("A"), leaf("integer"))],
    };
    assert_eq!(validate(&doc), Err(SchemaError::DuplicateDefinition(s("A"))));
}

#[test]
fn validate_accepts_well_formed_document() {
    let doc = Document { root: reference("A"), definitions: vec![(s("A"), leaf("string"))] };
    assert_eq!(validate(&doc), Ok(()));
}

fn sample_document() -> Document {
    let mut first = object(vec![("x", reference("Shared"))]);
    first.required.push(s("x"));
    let mut root = object(vec![("single", reference("Once"))]);
    root.all_of.push(Schema::Object(first));
    root.all_of.push(obj(vec![("y", reference("Shared"))]));
    Document {
        root: Schema::Object(root),
        definitions: vec![
            (s("Shared"), leaf("string")),
            (s("Once"), obj(vec![("z", leaf("integer"))])),
            (s("Dead"), leaf("null")),
        ],
    }
}

#[test]
fn full_pipeline_normalizes() {
    let out = normalize(sample_document()).unwrap();
    assert_eq!(def_names(&out), vec![s("Shared")]);
    match &out.root {
        Schema::Object(o) => {
            assert!(o.all_of.is_empty());
            let names: Vec<String> = o.properties.iter().map(|(n, _)| n.clone()).collect();
            assert_eq!(names, vec![s("single"), s("x"), s("y")]);
            assert_eq!(o.required, vec![s("x")]);
            assert_eq!(rejected_names(&o.additional), vec![s("single"), s("x"), s("y")]);
            match &o.properties[0].1 {
                Schema::Object(inner) => assert_eq!(rejected_names(&inner.additional), vec![s("z")]),
                other => panic!("unexpected {:?}", other),
            }
        }
        other => panic!("unexpected {:?}", other),
    }
}

#[test]
fn full_pipeline_is_idempotent() {
    let once = normalize(sample_document()).unwrap();
    let twice_input = normalize(sample_document()).unwrap();
    let twice = normalize(twice_input).unwrap();
    assert_eq!(once, twice);
}

#[test]
fn duplicate_members_are_dropped() {
    let mut parent = object(vec![("p", leaf("string"))]);
    parent.any_of.push(obj(vec![("x", leaf("string"))]));
    parent.any_of.push(reference("A"));
    parent.any_of.push(obj(vec![("x", leaf("string"))]));
    parent.any_of.push(reference("A"));
    match merge(Schema::Object(parent)) {
        Schema::Object(o) => assert_eq!(o.any_of, vec![obj(vec![("x", leaf("string"))]), reference("A")]),
        other => panic!("unexpected {:?}", other),
    }
}

#[test]
fn duplicate_members_collapse_to_single_member() {
    let mut parent = object(vec![]);
    parent.one_of.push(leaf("string"));
    parent.one_of.push(leaf("string"));
    assert_eq!(merge(Schema::Object(parent)), leaf("string"));
}

#[test]
fn full_pipeline_keeps_cyclic_definitions() {
    let doc = Document {
        root: obj(vec![("tree", reference("Tree"))]),
        definitions: vec![
            (s("Tree"), obj(vec![("children", reference("Forest"))])),
            (s("Forest"), obj(vec![("first", reference("Tree"))])),
        ],
    };
    let out = normalize(doc).unwrap();
    assert_eq!(def_names(&out), vec![s("Tree"), s("Forest")]);
    match &out.definitions[0].1 {
        Schema::Object(o) => assert_eq!(o.properties[0].1, reference("Forest")),
        other => panic!("unexpected {:?}", other),
    }
    match &out.root {
        Schema::Object(o) => assert_eq!(o.properties[0].1, reference("Tree")),
        other => panic!("unexpected {:?}", other),
    }
}
