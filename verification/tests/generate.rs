use tonic_flatbuffers_build::builder::Builder;
use tonic_flatbuffers_build::tree::Forest;

fn strings(v: &[&str]) -> Vec<String> {
    v.iter().map(|s| s.to_string()).collect()
}

#[test]
fn main_proto_imports_each_non_empty_namespace() {
    let refs = strings(&["x.y", "", " z "]);
    let proto = Builder::generate_main_proto("  a.b ", "service S {}", &refs);
    assert_eq!(
        proto,
        "syntax = \"proto3\";\nimport \"fake_x.y.proto\";\nimport \"fake_z.proto\";\npackage a.b;\n\nservice S {}"
    );
}

#[test]
fn main_proto_without_references() {
    let proto = Builder::generate_main_proto("pkg", "", &Vec::new());
    assert_eq!(proto, "syntax = \"proto3\";\n\npackage pkg;\n\n");
}

#[test]
fn collects_types_by_namespace_in_order_of_mention() {
    let files = strings(&[
        "namespace a.b;\ntable X {\n}\nstruct Y{}\ntable X {}\n",
        "table Z {}\nnamespace c ;\n  table W { }",
    ]);
    let defined = Builder::collect_defined_types(&files);
    assert_eq!(
        defined,
        vec![
            ("a.b".to_string(), strings(&["X", "Y"])),
            ("".to_string(), strings(&["Z"])),
            ("c".to_string(), strings(&["W"])),
        ]
    );
}

#[test]
fn each_file_starts_in_the_empty_namespace() {
    let files = strings(&["namespace n;\ntable A {}", "table B {}", "namespace n;\ntable A {}\ntable C {}"]);
    let defined = Builder::collect_defined_types(&files);
    assert_eq!(
        defined,
        vec![("n".to_string(), strings(&["A", "C"])), ("".to_string(), strings(&["B"]))]
    );
}

#[test]
fn lines_without_brace_or_semicolon_define_nothing() {
    let files = strings(&["namespace broken\ntable T\nenum E { A }"]);
    assert!(Builder::collect_defined_types(&files).is_empty());
}

#[test]
fn generation_log_follows_the_walk() {
    let sources = strings(&["namespace a.b;\nrpc_service S {\n  M(T): U (streaming: none);\n}\n"]);
    let forest = Forest::from_fbs_sources(&sources).unwrap();
    let log = Builder::generation_log(&forest);
    assert_eq!(
        log,
        strings(&[
            "Generating module for namespace: ",
            "Generating module for namespace: a",
            "Generating type: a.b.T",
            "Generating type: a.b.U",
            "Generating service: a.b.S",
        ])
    );
}
