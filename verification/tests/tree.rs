use tonic_flatbuffers_build::schema::SchemaError;
use tonic_flatbuffers_build::tree::{EndpointNode, Forest, NamespaceChild, TypeNode};

fn forest_of(sources: &[&str]) -> Forest {
    let sources: Vec<String> = sources.iter().map(|s| s.to_string()).collect();
    Forest::from_fbs_sources(&sources).unwrap()
}

#[test]
fn parses_single_schema_with_namespace_and_service() {
    let schema = r#"
            namespace foo.bar;

            table Request {}
            table Response {}

            rpc_service MyService {
                Call(Request): Response (streaming: none);
            }
        "#;
    let forest = forest_of(&[schema]);
    assert_eq!(forest.roots.len(), 1);
}

#[test]
fn parses_multiple_namespaces_with_common_root() {
    let schema1 = "namespace root.shared; table A {};";
    let schema2 = "namespace root.other; table B {};";
    let forest = forest_of(&[schema1, schema2]);
    assert_eq!(forest.roots.len(), 1); // "root"
}

#[test]
fn service_uses_type_from_other_namespace() {
    let schema1 = "namespace ns.types; table TReq {}; table TRes {};";
    let schema2 = r#"
            namespace ns.api;
            rpc_service ExternalUser {
                Op(ns.types.TReq): ns.types.TRes (streaming: server);
            }
        "#;
    let forest = forest_of(&[schema1, schema2]);
    let types_found =
        forest.get_type("ns.types.TReq").is_some() && forest.get_type("ns.types.TRes").is_some();
    assert!(types_found);
}

#[test]
fn type_nodes_compare_by_name() {
    let a = TypeNode { name: "T".to_string(), parent: Some(0) };
    let b = TypeNode { name: "T".to_string(), parent: Some(3) };
    let c = TypeNode { name: "U".to_string(), parent: Some(0) };
    assert!(a == b);
    assert!(a != c);
}

#[test]
fn walk_visits_namespaces_before_their_children() {
    let forest = forest_of(&[
        "namespace a.b;\nrpc_service S {\n  M(T): x.U (streaming: none);\n}\n",
        "namespace c;",
    ]);
    let order = forest.preorder();
    let mut it = forest.iter();
    let mut walked = Vec::new();
    while let Some(node) = it.next(&forest) {
        walked.push(node);
    }
    assert_eq!(walked, order);
    assert!(it.next(&forest).is_none());
    let names: Vec<String> = order
        .iter()
        .map(|n| match *n {
            NamespaceChild::Namespace(i) => format!("ns {}", forest.namespace_path(i)),
            NamespaceChild::Service(s) => format!("svc {}", forest.services[s].path(&forest)),
            NamespaceChild::Type(t) => format!("type {}", forest.types[t].path(&forest)),
        })
        .collect();
    assert_eq!(
        names,
        vec!["ns a", "ns a.b", "type a.b.T", "svc a.b.S", "ns x", "type x.U", "ns c"]
    );
}

#[test]
fn common_root_is_shared() {
    let forest = forest_of(&["namespace r.a;", "namespace r.b;", "namespace q;"]);
    assert_eq!(forest.roots.len(), 2);
    let names: Vec<&str> = forest.roots.iter().map(|&r| forest.namespaces[r].name.as_str()).collect();
    assert_eq!(names, vec!["r", "q"]);
    assert_eq!(forest.lookup_namespace("r.b").map(|i| forest.namespace_path(i)), Some("r.b".to_string()));
    assert_eq!(forest.lookup_namespace("r.c"), None);
}

#[test]
fn paths_of_nodes() {
    let forest = forest_of(&["namespace a.b;\nrpc_service S {\n  M(T): U (streaming: client);\n}\n"]);
    let b = forest.lookup_namespace("a.b").unwrap();
    assert_eq!(forest.namespaces[b].path_segments(&forest), vec!["a".to_string()]);
    assert_eq!(forest.namespaces[b].path(&forest), "a");
    let t = forest.get_type("a.b.T").unwrap();
    assert_eq!(forest.types[t].path_segments(&forest), vec!["a", "b", "T"]);
    assert_eq!(forest.type_namespace_path(t), "a.b");
    assert_eq!(forest.services[0].path(&forest), "a.b.S");
    assert_eq!(forest.endpoints[0].path(&forest), "a.b.S.M");
    assert_eq!(forest.endpoints[0].streaming, "client");
    assert!(forest.get_type("T").is_none());
}

#[test]
fn endpoint_without_service_is_named_alone() {
    let forest = Forest::new();
    let ep = EndpointNode {
        name: "Lone".to_string(),
        parent: None,
        request_type: 0,
        response_type: 0,
        streaming: "none".to_string(),
    };
    assert_eq!(ep.path(&forest), "Lone");
}

#[test]
fn service_before_any_namespace_is_refused() {
    let sources = vec!["rpc_service S {\n  M(T): U (streaming: none);\n}\n".to_string()];
    assert!(matches!(Forest::from_fbs_sources(&sources), Err(SchemaError::ServiceOutsideNamespace)));
}

#[test]
fn no_schemas_give_an_empty_forest() {
    let forest = Forest::from_fbs_sources(&Vec::new()).unwrap();
    assert!(forest.roots.is_empty());
    assert!(forest.preorder().is_empty());
}

#[test]
fn referenced_types_bring_their_namespaces() {
    let forest = forest_of(&["namespace a;\nrpc_service S {\n  M(x.y.T): U (streaming: none);\n}\n"]);
    assert!(forest.get_type("x.y.T").is_some());
    assert!(forest.get_type("a.U").is_some());
    assert!(forest.lookup_namespace("x").is_some());
    assert!(forest.lookup_namespace("x.y").is_some());
    assert!(forest.lookup_namespace("a").is_some());
}

#[test]
fn repeated_namespace_declarations_add_nothing() {
    let forest = forest_of(&["namespace a.b;\nnamespace a.b;\nnamespace a;", "namespace a.b;"]);
    assert_eq!(forest.namespaces.len(), 2);
    assert_eq!(forest.roots.len(), 1);
    assert_eq!(forest.namespaces[1].name, "b");
    assert_eq!(forest.namespaces[1].parent, Some(0));
}

#[test]
fn walk_reaches_every_node_once() {
    let forest = forest_of(&[
        "namespace a.b;\nrpc_service S {\n  M(T): x.U (streaming: none);\n  N(T): T (streaming: none);\n}\n",
        "namespace c;\nrpc_service R {\n  K(a.b.T): V (streaming: none);\n}\n",
    ]);
    let walk = forest.preorder();
    assert_eq!(walk.len(), forest.namespaces.len() + forest.types.len() + forest.services.len());
    for i in 0..forest.namespaces.len() {
        assert_eq!(walk.iter().filter(|n| **n == NamespaceChild::Namespace(i)).count(), 1);
    }
    for t in 0..forest.types.len() {
        assert_eq!(walk.iter().filter(|n| **n == NamespaceChild::Type(t)).count(), 1);
    }
    for s in 0..forest.services.len() {
        assert_eq!(walk.iter().filter(|n| **n == NamespaceChild::Service(s)).count(), 1);
    }
    let c = forest.lookup_namespace("c").unwrap();
    assert_eq!(forest.namespaces[c].children.last(), Some(&NamespaceChild::Service(1)));
}
