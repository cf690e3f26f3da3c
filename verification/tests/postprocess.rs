use tonic_flatbuffers_build::builder::Builder;
use tonic_flatbuffers_build::postprocess::{ModItem, ModTree, PostprocessError};

fn src(s: &str) -> ModItem {
    ModItem::Source(s.to_string())
}

fn grpc_items(owned: Option<&str>) -> Vec<ModItem> {
    let mut v = vec![src("pub mod grpc;"), src("pub use grpc::*;")];
    if let Some(list) = owned {
        v.push(src("use ::tonic_flatbuffers::flatbuffers_owned::*;"));
        v.push(src(&format!("flatbuffers_owned!({list});")));
    }
    v
}

fn module(pos: usize, ident: &str, items: Vec<ModItem>) -> ModItem {
    ModItem::Module(pos, ModTree { ident: ident.to_string(), content: Some(items) })
}

#[test]
fn add_mods_without_owned_types() {
    let mut items = vec![ModItem::Kept(0)];
    Builder::add_mods_static(&mut items, "").unwrap();
    let mut expected = vec![ModItem::Kept(0)];
    expected.extend(grpc_items(None));
    assert_eq!(items, expected);
}

#[test]
fn add_mods_with_owned_types() {
    let mut items = Vec::new();
    Builder::add_mods_static(&mut items, "Foo,Bar").unwrap();
    assert_eq!(items, grpc_items(Some("Foo,Bar")));
}

#[test]
fn add_mods_reports_an_unparsable_macro_call() {
    let mut items = Vec::new();
    let r = Builder::add_mods_static(&mut items, "Foo(");
    assert!(matches!(r, Err(PostprocessError::Syntax(_))));
    assert_eq!(
        items,
        vec![src("pub mod grpc;"), src("pub use grpc::*;"), src("use ::tonic_flatbuffers::flatbuffers_owned::*;")]
    );
}

#[test]
fn nested_namespace_gets_items_in_its_module() {
    let mut tree = ModTree {
        ident: "a".to_string(),
        content: Some(vec![ModItem::Kept(0), module(1, "b", vec![]), module(2, "c", vec![])]),
    };
    Builder::edit_mod_tree(&mut tree, "a.b", "X").unwrap();
    let expected = ModTree {
        ident: "a".to_string(),
        content: Some(vec![ModItem::Kept(0), module(1, "b", grpc_items(Some("X"))), module(2, "c", vec![])]),
    };
    assert_eq!(tree, expected);
}

#[test]
fn other_root_module_is_left_alone() {
    let mut tree = ModTree { ident: "z".to_string(), content: Some(vec![module(0, "b", vec![])]) };
    Builder::edit_mod_tree(&mut tree, "a.b", "X").unwrap();
    assert_eq!(tree, ModTree { ident: "z".to_string(), content: Some(vec![module(0, "b", vec![])]) });
}

#[test]
fn single_segment_namespace_edits_the_root() {
    let mut tree = ModTree { ident: "whatever".to_string(), content: Some(vec![]) };
    Builder::edit_mod_tree(&mut tree, "ns", "").unwrap();
    assert_eq!(tree, ModTree { ident: "whatever".to_string(), content: Some(grpc_items(None)) });
    let mut outline = ModTree { ident: "ns".to_string(), content: None };
    Builder::edit_mod_tree(&mut outline, "ns", "").unwrap();
    assert_eq!(outline, ModTree { ident: "ns".to_string(), content: None });
}

#[test]
fn insert_mods_from_a_later_segment() {
    let segments = vec!["a".to_string(), "b".to_string()];
    let mut tree = ModTree { ident: "b".to_string(), content: Some(vec![]) };
    Builder::insert_mods_static(&segments, 1, &mut tree, "").unwrap();
    assert_eq!(tree, ModTree { ident: "b".to_string(), content: Some(grpc_items(None)) });
    let mut past = ModTree { ident: "b".to_string(), content: Some(vec![]) };
    Builder::insert_mods_static(&segments, 2, &mut past, "").unwrap();
    assert_eq!(past, ModTree { ident: "b".to_string(), content: Some(vec![]) });
}

#[test]
fn insert_mods_stops_at_the_first_failure() {
    let segments = vec!["a".to_string(), "b".to_string()];
    let mut tree = ModTree { ident: "a".to_string(), content: Some(vec![module(0, "b", vec![]), module(1, "b", vec![])]) };
    let r = Builder::insert_mods_static(&segments, 0, &mut tree, "(");
    assert!(matches!(r, Err(PostprocessError::Syntax(_))));
    let partial = vec![src("pub mod grpc;"), src("pub use grpc::*;"), src("use ::tonic_flatbuffers::flatbuffers_owned::*;")];
    assert_eq!(tree, ModTree { ident: "a".to_string(), content: Some(vec![module(0, "b", partial), module(1, "b", vec![])]) });
}

#[test]
fn rewrite_removes_placeholders_and_lists_owned_types() {
    let file = "pub struct Keep {}\n#[derive(Clone, PartialEq, ::prost::Message)]\npub struct OwnedFoo {}\nfn x() {}\n";
    let fakes = vec![
        ("other".to_string(), vec!["OwnedNope".to_string()]),
        ("ns".to_string(), vec!["a.b.OwnedFoo".to_string(), "OwnedBar".to_string(), "c.OwnedFoo".to_string()]),
    ];
    let (text, owned) = Builder::rewrite_generated_file(file, "ns", &fakes).unwrap();
    assert_eq!(text, "use super::*;\npub struct Keep {}\nfn x() {}\n");
    assert_eq!(owned, "Foo,Bar");
}

#[test]
fn rewrite_without_entry_only_adds_the_header() {
    let (text, owned) = Builder::rewrite_generated_file("fn f() {}\n", "ns", &Vec::new()).unwrap();
    assert_eq!(text, "use super::*;\nfn f() {}\n");
    assert_eq!(owned, "");
}

#[test]
fn rewrite_reports_a_bad_pattern() {
    let fakes = vec![("ns".to_string(), vec!["Owned(".to_string()])];
    let r = Builder::rewrite_generated_file("", "ns", &fakes);
    assert!(matches!(r, Err(PostprocessError::Regex(_))));
}

#[test]
fn injects_macro_after_last_pub_use() {
    let file = "pub mod a;\npub use a::*;\nfn f() {}\n";
    let types = vec!["X".to_string(), "Y".to_string()];
    let out = Builder::inject_owned_macro(file, &types);
    assert_eq!(
        out,
        "pub mod a;\npub use a::*;\nuse ::tonic_flatbuffers::flatbuffers_owned::*;\nflatbuffers_owned!(X,Y);\n\n\nfn f() {}\n"
    );
}

#[test]
fn reinjection_replaces_the_previous_macro() {
    let file = "pub mod a;\npub use a::*;\nuse ::tonic_flatbuffers::flatbuffers_owned::*;\nflatbuffers_owned!(X,Y);\n\n\nfn f() {}\n";
    let out = Builder::inject_owned_macro(file, &vec!["Z".to_string()]);
    assert_eq!(
        out,
        "pub mod a;\npub use a::*;\nuse ::tonic_flatbuffers::flatbuffers_owned::*;\nflatbuffers_owned!(Z);\n\n\n\n\n\nfn f() {}\n"
    );
}

#[test]
fn injects_at_start_without_pub_use() {
    let out = Builder::inject_owned_macro("mod m;\n", &vec!["T".to_string()]);
    assert_eq!(out, "\nuse ::tonic_flatbuffers::flatbuffers_owned::*;\nflatbuffers_owned!(T);\n\nmod m;\n");
}

#[test]
fn owned_macro_plan_skips_empty_cases() {
    assert_eq!(Builder::owned_macro_plan("", &vec!["T".to_string()]), None);
    assert_eq!(Builder::owned_macro_plan("a.b", &Vec::new()), None);
    assert_eq!(
        Builder::owned_macro_plan("a.b", &vec!["T".to_string()]),
        Some(vec!["a".to_string(), "b".to_string()])
    );
}

#[test]
fn mod_rs_gets_grpc_module_in_nested_namespace() {
    let text = "pub mod a {\n    pub struct Y;\n    pub mod b {\n        pub struct X;\n    }\n}\n";
    let tree = Builder::postprocess_mod_rs(text, "a.b", "Foo").unwrap();
    let expected = ModTree {
        ident: "a".to_string(),
        content: Some(vec![
            ModItem::Kept(0),
            module(1, "b", {
                let mut v = vec![ModItem::Kept(0)];
                v.extend(grpc_items(Some("Foo")));
                v
            }),
        ]),
    };
    assert_eq!(tree, expected);
}

#[test]
fn mod_rs_that_is_no_module_is_refused() {
    let r = Builder::postprocess_mod_rs("fn f() {}", "a", "");
    assert!(matches!(r, Err(PostprocessError::Syntax(_))));
}
