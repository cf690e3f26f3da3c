use tonic_flatbuffers_build::builder::{configure, Builder, Service, ServiceParseError};

#[test]
fn configure_defaults() {
    let b = configure(true);
    assert!(b.build_client);
    assert!(b.build_server);
    assert!(b.emit_rerun_if_changed);
    assert!(!b.generate_default_stubs);
    assert_eq!(b.out_dir, None);
    let outside_cargo = configure(false);
    assert!(!outside_cargo.emit_rerun_if_changed);
    assert!(outside_cargo.build_client && outside_cargo.build_server);
}

#[test]
fn setters_change_one_option_each() {
    let b = configure(true)
        .build_client(false)
        .build_server(false)
        .emit_rerun_if_changed(false)
        .generate_default_stubs(true)
        .out_dir("gen/out");
    assert!(!b.build_client);
    assert!(!b.build_server);
    assert!(!b.emit_rerun_if_changed);
    assert!(b.generate_default_stubs);
    assert_eq!(b.out_dir.as_deref(), Some("gen/out"));
    let c = configure(true).build_server(false);
    assert!(c.build_client);
    assert!(!c.build_server);
}

#[test]
fn parses_service_with_streaming_and_plain_endpoints() {
    let text = "rpc_service Greeter { Hello(Req): Res (streaming: \"server\"); Bye(A) : B; }";
    let svc = Service::parse(text, "my.ns").unwrap();
    assert_eq!(svc.namespace, "my.ns");
    assert_eq!(svc.name, "Greeter");
    assert_eq!(svc.endpoints.len(), 2);
    assert_eq!(svc.endpoints[0].name, "Hello");
    assert_eq!(svc.endpoints[0].req, "Req");
    assert_eq!(svc.endpoints[0].resp, "Res");
    assert_eq!(svc.endpoints[0].streaming, Some("server"));
    assert_eq!(svc.endpoints[1].name, "Bye");
    assert_eq!(svc.endpoints[1].req, "A");
    assert_eq!(svc.endpoints[1].resp, "B");
    assert_eq!(svc.endpoints[1].streaming, None);
}

#[test]
fn streaming_other_than_streaming_key_is_none() {
    let text = "rpc_service S { M(A): B (id: 1); }";
    let svc = Service::parse(text, "").unwrap();
    assert_eq!(svc.endpoints[0].streaming, Some("none"));
}

#[test]
fn service_without_space_is_invalid() {
    assert_eq!(Service::parse("rpc_service", "ns").unwrap_err(), ServiceParseError::InvalidService);
}

#[test]
fn service_with_unterminated_endpoint_is_invalid() {
    let text = "rpc_service S { M(A): B }";
    assert_eq!(Service::parse(text, "ns").unwrap_err(), ServiceParseError::InvalidService);
}

#[test]
fn endpoint_without_colon_is_invalid() {
    let text = "rpc_service S { M(A) B; }";
    assert_eq!(Service::parse(text, "ns").unwrap_err(), ServiceParseError::InvalidEndpoint);
}

#[test]
fn empty_service_has_no_endpoints() {
    let svc = Service::parse("rpc_service Empty { }", "x").unwrap();
    assert_eq!(svc.name, "Empty");
    assert!(svc.endpoints.is_empty());
}

#[test]
fn extracts_service_texts_with_byte_offsets() {
    let file = "namespace a;\nrpc_service S { M(A): B; }\nrpc_service T {}";
    let bufs = Builder::extract_service_bufs(file);
    assert_eq!(bufs, vec![(13, "rpc_service S { M(A): B; }"), (40, "rpc_service T {}")]);
}

#[test]
fn service_offsets_count_bytes_not_chars() {
    let file = "é rpc_service X {}";
    let bufs = Builder::extract_service_bufs(file);
    assert_eq!(bufs, vec![(3, "rpc_service X {}")]);
}

#[test]
fn overlapping_services_share_a_closing_brace() {
    let file = "rpc_service A { rpc_service B {}";
    let bufs = Builder::extract_service_bufs(file);
    assert_eq!(bufs, vec![(0, "rpc_service A { rpc_service B {}"), (16, "rpc_service B {}")]);
    assert!(Builder::extract_service_bufs("rpc_service open").is_empty());
}
