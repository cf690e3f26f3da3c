use tonic_flatbuffers_build::proto_file_builder::ProtoFileBuilder;
use tonic_flatbuffers_build::tree::Forest;

fn forest_of(sources: &[&str]) -> Forest {
    let sources: Vec<String> = sources.iter().map(|s| s.to_string()).collect();
    Forest::from_fbs_sources(&sources).unwrap()
}

fn file<'a>(files: &'a [(String, String)], name: &str) -> &'a str {
    files
        .iter()
        .find(|(n, _)| n == name)
        .map(|(_, c)| c.as_str())
        .unwrap_or_else(|| panic!("no file {name}"))
}

#[test]
fn generates_protos_for_cross_namespace_usage() {
    let schema_types = r#"
            namespace foo.shared;
            table SharedReq {}
            table SharedRes {}
        "#;

    let schema_services = r#"
            namespace foo.service;
            rpc_service CrossNsService {
                UseShared(foo.shared.SharedReq): foo.shared.SharedRes (streaming: none);
            }
        "#;

    let forest = forest_of(&[schema_types, schema_services]);
    let mut builder = ProtoFileBuilder::new(&forest, "out");
    let files = builder.build_all();

    let shared_proto = file(&files, "fake_foo_shared.proto");
    assert!(shared_proto.contains("package foo.shared"));
    assert!(shared_proto.contains("message SharedReq"));
    assert!(shared_proto.contains("message SharedRes"));

    let service_proto = file(&files, "fake_foo_service.proto");
    assert!(service_proto.contains("import \"fake_foo_shared.proto\""));
    assert!(service_proto.contains("package foo.service"));
    assert!(service_proto.contains("service CrossNsService"));
    assert!(service_proto
        .contains("rpc UseShared (foo.shared.SharedReq) returns (foo.shared.SharedRes)"));
}

#[test]
fn generates_protos_for_single_namespace() {
    let schema = r#"
            namespace my.api;
            table MyReq {}
            table MyRes {}
            rpc_service LocalSvc {
                Ping(MyReq): MyRes (streaming: none);
            }
        "#;

    let forest = forest_of(&[schema]);
    let mut builder = ProtoFileBuilder::new(&forest, "out");
    let files = builder.build_all();

    let proto_file = file(&files, "fake_my_api.proto");
    assert!(proto_file.contains("package my.api"));
    assert!(proto_file.contains("message MyReq"));
    assert!(proto_file.contains("message MyRes"));
    assert!(proto_file.contains("service LocalSvc"));
    assert!(proto_file.contains("rpc Ping (MyReq) returns (MyRes)"));
}

#[test]
fn does_not_generate_type_file_if_type_not_used_in_service() {
    let schema = r#"
            namespace lonely.types;
            table Orphaned {} // not referenced
        "#;

    let forest = forest_of(&[schema]);
    let mut builder = ProtoFileBuilder::new(&forest, "out");
    let files = builder.build_all();

    assert!(files.is_empty()); // no files created
}

#[test]
fn single_namespace_file_has_exact_layout() {
    let schema = r#"
            namespace my.api;
            rpc_service LocalSvc {
                Ping(MyReq): MyRes (streaming: none);
            }
        "#;
    let forest = forest_of(&[schema]);
    let mut builder = ProtoFileBuilder::new(&forest, "out");
    let files = builder.build_all();
    assert_eq!(files.len(), 1);
    assert_eq!(files[0].0, "fake_my_api.proto");
    assert_eq!(
        files[0].1,
        "syntax = \"proto3\";\n\npackage my.api;\n\nmessage MyReq {}\n\nmessage MyRes {}\n\nservice LocalSvc {\n    rpc Ping (MyReq) returns (MyRes) {}\n}\n"
    );
}

#[test]
fn out_dir_is_kept() {
    let forest = forest_of(&["namespace a; table T {}"]);
    let builder = ProtoFileBuilder::new(&forest, "target/out");
    assert_eq!(builder.out_dir(), "target/out");
}
