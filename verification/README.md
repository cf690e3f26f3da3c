# tonic_flatbuffers_build

Generates gRPC service code for FlatBuffers schemas: the `rpc_service`
declarations of `.fbs` files are turned into proto files, `tonic-build`
generates the Rust code for them, and the generated modules are wired into the
FlatBuffers output.

## Layout

- `src/` is the library, verified with Verus:
  - `text` — the string operations everything else is built on, each with a
    specification over character sequences;
  - `pattern` — the calls into the `regex` crate;
  - `schema` — reading namespace and service declarations out of a schema;
  - `tree` — the namespace forest of a set of schemas, an arena of
    namespaces, services, endpoints and types, with its invariants and the
    depth-first walk over it;
  - `proto_file_builder` — the proto file of each namespace;
  - `builder` — the build options and the reading of service definitions;
  - `generate` — the main proto file, the generation log and the types each
    namespace defines;
  - `postprocess` — the edits made to the generated Rust code and to the
    module tree of `mod.rs`, read with `syn`.
- `app/` is the build-script side: the environment, file and process I/O,
  `flatc`, `tonic-build`, and writing the edited module tree out with
  `prettyplease`, which stops the program on syntax it cannot print.
- `tests/` exercise the library on concrete schemas and texts.
