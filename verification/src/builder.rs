//! Configuration of the build, and the text handling of its steps.
use vstd::prelude::*;
use crate::text::{
    find_char, find_char_spec, find_str, find_str_spec, is_ascii_char, lemma_find_char,
    lemma_find_str, lemma_trim_len, split_once, split_once_spec, str_eq, trim, trim_spec,
};

verus! {

/// Why a service definition could not be read.
#[derive(Debug, Clone, Copy, PartialEq, Eq, Structural)]
pub enum ServiceParseError {
    /// "Invalid service definition".
    InvalidService,
    /// "Invalid endpoint syntax".
    InvalidEndpoint,
}

/// One `Name(Request): Response (streaming: kind);` line of a service.
#[derive(Debug)]
pub struct Endpoint<'a> {
    pub name: &'a str,
    pub req: &'a str,
    pub resp: &'a str,
    pub streaming: Option<&'a str>,
}

/// An `rpc_service` definition read from its text.
#[derive(Debug)]
pub struct Service<'a> {
    pub namespace: &'a str,
    pub name: &'a str,
    pub endpoints: Vec<Endpoint<'a>>,
}

/// The outcome of reading a text that the reader may also fail on, by a
/// slice out of bounds.
pub enum ParseOutcome<T> {
    Parsed(T),
    Invalid(ServiceParseError),
    Panics,
}

pub struct EndpointView {
    pub name: Seq<char>,
    pub req: Seq<char>,
    pub resp: Seq<char>,
    pub streaming: Option<Seq<char>>,
}

pub struct ServiceView {
    pub namespace: Seq<char>,
    pub name: Seq<char>,
    pub endpoints: Seq<EndpointView>,
}

impl<'a> View for Endpoint<'a> {
    type V = EndpointView;

    open spec fn view(&self) -> EndpointView {
        EndpointView {
            name: self.name@,
            req: self.req@,
            resp: self.resp@,
            streaming: match self.streaming {
                Some(s) => Some(s@),
                None => None,
            },
        }
    }
}

pub open spec fn endpoints_view<'a>(v: Seq<Endpoint<'a>>) -> Seq<EndpointView> {
    v.map_values(|e: Endpoint<'a>| e@)
}

impl<'a> View for Service<'a> {
    type V = ServiceView;

    open spec fn view(&self) -> ServiceView {
        ServiceView {
            namespace: self.namespace@,
            name: self.name@,
            endpoints: endpoints_view(self.endpoints@),
        }
    }
}

/// The streaming kind in the text between the parentheses after the
/// response type: what follows `streaming:` without its first and last
/// character, or `none` for anything else. Taking those characters off
/// fails when fewer than two are there, or when the first or last one takes
/// more than one byte.
pub open spec fn streaming_spec(meta: Seq<char>) -> ParseOutcome<Seq<char>> {
    match split_once_spec(meta, ':') {
        None => ParseOutcome::Parsed("none"@),
        Some((ident, code)) => {
            let ident = trim_spec(ident);
            let code = trim_spec(code);
            if ident != "streaming"@ {
                ParseOutcome::Parsed("none"@)
            } else if code.len() < 2 || !is_ascii_char(code[0]) || !is_ascii_char(code.last()) {
                ParseOutcome::Panics
            } else {
                ParseOutcome::Parsed(trim_spec(code.subrange(1, code.len() - 1)))
            }
        },
    }
}

/// The endpoint that `buf` declares and the text after its `;`.
pub open spec fn parse_endpoint_spec(buf: Seq<char>) -> ParseOutcome<(EndpointView, Seq<char>)> {
    match split_once_spec(buf, ':') {
        None => ParseOutcome::Invalid(ServiceParseError::InvalidEndpoint),
        Some((i0, o0)) => {
            let input = trim_spec(i0);
            let output = trim_spec(o0);
            match (find_char_spec(input, '('), find_char_spec(input, ')')) {
                (Some(s), Some(e)) => if e < s + 1 {
                    ParseOutcome::Panics
                } else {
                    let name = input.subrange(0, s);
                    let req = trim_spec(input.subrange(s + 1, e));
                    match find_char_spec(output, '(') {
                        Some(p) => {
                            let resp = trim_spec(output.subrange(0, p));
                            match (find_char_spec(output, ')'), find_char_spec(output, ';')) {
                                (Some(ep), Some(se)) => if ep < p + 1 {
                                    ParseOutcome::Panics
                                } else {
                                    let rest = trim_spec(output.subrange(se + 1, output.len() as int));
                                    match streaming_spec(trim_spec(output.subrange(p + 1, ep))) {
                                        ParseOutcome::Parsed(st) => ParseOutcome::Parsed(
                                            (
                                                EndpointView { name, req, resp, streaming: Some(st) },
                                                trim_spec(rest),
                                            ),
                                        ),
                                        ParseOutcome::Invalid(k) => ParseOutcome::Invalid(k),
                                        ParseOutcome::Panics => ParseOutcome::Panics,
                                    }
                                },
                                _ => ParseOutcome::Invalid(ServiceParseError::InvalidEndpoint),
                            }
                        },
                        None => match find_char_spec(output, ';') {
                            Some(se) => ParseOutcome::Parsed(
                                (
                                    EndpointView {
                                        name,
                                        req,
                                        resp: trim_spec(output.subrange(0, se)),
                                        streaming: None,
                                    },
                                    trim_spec(trim_spec(output.subrange(se + 1, output.len() as int))),
                                ),
                            ),
                            None => ParseOutcome::Invalid(ServiceParseError::InvalidEndpoint),
                        },
                    }
                },
                _ => ParseOutcome::Invalid(ServiceParseError::InvalidEndpoint),
            }
        },
    }
}

/// The name before the first `{` of `buf`, if there is one, and the text from that `{` on.
pub open spec fn read_name_spec(buf: Seq<char>) -> (Option<Seq<char>>, Seq<char>) {
    match find_char_spec(buf, '{') {
        None => (None, buf),
        Some(i) => (Some(trim_spec(buf.subrange(0, i))), trim_spec(buf.subrange(i, buf.len() as int))),
    }
}

/// The text after the first `c` of `buf`, trimmed; `buf` when it has no `c`.
pub open spec fn consume_char_spec(buf: Seq<char>, c: char) -> Seq<char> {
    match find_char_spec(buf, c) {
        Some(i) => trim_spec(buf.subrange(i + 1, buf.len() as int)),
        None => buf,
    }
}

/// The endpoints of a service body up to its closing `}`: each ends at the
/// next `;`.
pub open spec fn endpoints_spec(buf: Seq<char>) -> ParseOutcome<Seq<EndpointView>>
    decreases buf.len(),
{
    if buf == "}"@ {
        ParseOutcome::Parsed(Seq::empty())
    } else {
        match find_char_spec(buf, ';') {
            None => ParseOutcome::Invalid(ServiceParseError::InvalidService),
            Some(e) => if 0 <= e < buf.len() {
                match parse_endpoint_spec(buf.subrange(0, e + 1)) {
                    ParseOutcome::Invalid(k) => ParseOutcome::Invalid(k),
                    ParseOutcome::Panics => ParseOutcome::Panics,
                    ParseOutcome::Parsed((ep, _)) => {
                        let next = trim_spec(buf.subrange(e + 1, buf.len() as int));
                        if next.len() < buf.len() {
                            match endpoints_spec(next) {
                                ParseOutcome::Parsed(eps) => ParseOutcome::Parsed(seq![ep] + eps),
                                ParseOutcome::Invalid(k) => ParseOutcome::Invalid(k),
                                ParseOutcome::Panics => ParseOutcome::Panics,
                            }
                        } else {
                            ParseOutcome::Panics
                        }
                    },
                }
            } else {
                ParseOutcome::Panics
            },
        }
    }
}

/// The service that the text `buf` of an `rpc_service` declaration in
/// namespace `ns` defines: after the first space, its name up to the `{`,
/// then its endpoints up to the closing `}`.
pub open spec fn parse_service_spec(buf: Seq<char>, ns: Seq<char>) -> ParseOutcome<ServiceView> {
    match split_once_spec(buf, ' ') {
        None => ParseOutcome::Invalid(ServiceParseError::InvalidService),
        Some((_, b1)) => {
            let (name, b2) = read_name_spec(b1);
            let b3 = consume_char_spec(b2, '{');
            match endpoints_spec(b3) {
                ParseOutcome::Parsed(eps) => ParseOutcome::Parsed(
                    ServiceView {
                        namespace: ns,
                        name: match name {
                            Some(n) => n,
                            None => Seq::empty(),
                        },
                        endpoints: eps,
                    },
                ),
                ParseOutcome::Invalid(k) => ParseOutcome::Invalid(k),
                ParseOutcome::Panics => ParseOutcome::Panics,
            }
        },
    }
}

/// `pre` in front of the endpoints of a successful reading.
pub open spec fn prefix_outcome(pre: Seq<EndpointView>, o: ParseOutcome<Seq<EndpointView>>) -> ParseOutcome<
    Seq<EndpointView>,
> {
    match o {
        ParseOutcome::Parsed(eps) => ParseOutcome::Parsed(pre + eps),
        ParseOutcome::Invalid(k) => ParseOutcome::Invalid(k),
        ParseOutcome::Panics => ParseOutcome::Panics,
    }
}

proof fn lemma_prefix_outcome(pre: Seq<EndpointView>, ep: EndpointView, o: ParseOutcome<Seq<EndpointView>>)
    ensures
        prefix_outcome(pre, prefix_outcome(seq![ep], o)) == prefix_outcome(pre.push(ep), o),
{
    if let ParseOutcome::Parsed(eps) = o {
        assert(pre + (seq![ep] + eps) =~= pre.push(ep) + eps);
    }
}

/// The streaming kind in `meta`, the text between the parentheses after the response type.
fn streaming_of<'a>(meta: &'a str) -> (r: &'a str)
    requires
        !(streaming_spec(meta@) is Panics),
    ensures
        streaming_spec(meta@) == ParseOutcome::Parsed(r@),
{
    match split_once(meta, ':') {
        None => "none",
        Some((ident, code)) => {
            let ident = trim(ident);
            let code = trim(code);
            if !str_eq(ident, "streaming") {
                "none"
            } else {
                let n = code.unicode_len();
                trim(code.substring_char(1, n - 1))
            }
        },
    }
}

impl<'a> Service<'a> {
    /// Reads the service definition `buf` of namespace `namespace`.
    pub fn parse(buf: &'a str, namespace: &'a str) -> (r: Result<Self, ServiceParseError>)
        requires
            !(parse_service_spec(buf@, namespace@) is Panics),
        ensures
            match r {
                Ok(s) => parse_service_spec(buf@, namespace@) == ParseOutcome::Parsed(s@),
                Err(k) => parse_service_spec(buf@, namespace@) == ParseOutcome::<ServiceView>::Invalid(k),
            },
    {
        let ghost orig = buf@;
        let mut service = Service { namespace, name: "", endpoints: Vec::new() };
        proof {
            reveal_strlit("");
            assert(""@ =~= Seq::<char>::empty());
            assert(endpoints_view(service.endpoints@) =~= Seq::<EndpointView>::empty());
        }
        let (_, b1) = match split_once(buf, ' ') {
            Some(p) => p,
            None => return Err(ServiceParseError::InvalidService),
        };
        let b2 = service.read_name(b1);
        let mut cur = service.consume_char(b2, '{');
        let ghost start = cur@;
        let ghost name = service.name@;
        proof {
            assert(service.endpoints@.len() == 0);
            assert(prefix_outcome(endpoints_view(service.endpoints@), endpoints_spec(cur@)) == endpoints_spec(cur@)) by {
                if let ParseOutcome::Parsed(eps) = endpoints_spec(cur@) {
                    assert(endpoints_view(service.endpoints@) + eps =~= eps);
                }
            }
        }
        loop
            invariant
                !(endpoints_spec(start) is Panics),
                parse_service_spec(orig, namespace@) == match endpoints_spec(start) {
                    ParseOutcome::Parsed(eps) => ParseOutcome::Parsed(
                        ServiceView { namespace: namespace@, name, endpoints: eps },
                    ),
                    ParseOutcome::Invalid(k) => ParseOutcome::Invalid(k),
                    ParseOutcome::Panics => ParseOutcome::Panics,
                },
                service.name@ == name,
                orig == buf@,
                service.namespace@ == namespace@,
                endpoints_spec(start) == prefix_outcome(endpoints_view(service.endpoints@), endpoints_spec(cur@)),
            ensures
                endpoints_spec(start) == ParseOutcome::Parsed(endpoints_view(service.endpoints@)),
            decreases cur@.len(),
        {
            if str_eq(cur, "}") {
                proof {
                    assert(endpoints_spec(cur@) == ParseOutcome::Parsed(Seq::<EndpointView>::empty()));
                    assert(endpoints_view(service.endpoints@) + Seq::<EndpointView>::empty() =~= endpoints_view(service.endpoints@));
                }
                break;
            }
            let n = cur.unicode_len();
            proof { lemma_find_char(cur@, ';'); }
            let end_idx = match find_char(cur, ';') {
                Some(i) => i,
                None => {
                    assert(endpoints_spec(cur@) == ParseOutcome::<Seq<EndpointView>>::Invalid(ServiceParseError::InvalidService));
                    return Err(ServiceParseError::InvalidService);
                },
            };
            let ghost before = endpoints_view(service.endpoints@);
            match service.parse_endpoint(cur.substring_char(0, end_idx + 1)) {
                Ok(_) => {},
                Err(k) => return Err(k),
            }
            let next = trim(cur.substring_char(end_idx + 1, n));
            proof {
                lemma_trim_len(cur@.subrange(end_idx + 1, n as int));
                let ep = parse_endpoint_spec(cur@.subrange(0, end_idx + 1))->Parsed_0.0;
                assert(endpoints_view(service.endpoints@) == before.push(ep));
                lemma_prefix_outcome(before, ep, endpoints_spec(next@));
            }
            cur = next;
        }
        Ok(service)
    }

    /// Takes the name of the service from the text before the first `{`
    /// and gives back the text from that `{` on; leaves `buf` as it is when
    /// there is no `{`.
    fn read_name(&mut self, buf: &'a str) -> (r: &'a str)
        ensures
            r@ == read_name_spec(buf@).1,
            final(self)@ == (ServiceView {
                name: match read_name_spec(buf@).0 {
                    Some(n) => n,
                    None => old(self)@.name,
                },
                ..old(self)@
            }),
    {
        let n = buf.unicode_len();
        match find_char(buf, '{') {
            None => buf,
            Some(idx) => {
                proof { lemma_find_char(buf@, '{'); }
                let name = trim(buf.substring_char(0, idx));
                let rest = trim(buf.substring_char(idx, n));
                self.name = name;
                rest
            },
        }
    }

    /// The text after the first `pat` of `buf`, trimmed; `buf` when it has no `pat`.
    fn consume_char(&self, buf: &'a str, pat: char) -> (r: &'a str)
        ensures
            r@ == consume_char_spec(buf@, pat),
    {
        let n = buf.unicode_len();
        match find_char(buf, pat) {
            Some(idx) => {
                proof { lemma_find_char(buf@, pat); }
                trim(buf.substring_char(idx + 1, n))
            },
            None => buf,
        }
    }

    /// Reads one endpoint declaration, the text up to and with its `;`,
    /// and gives back what follows that `;`.
    fn parse_endpoint(&mut self, buf: &'a str) -> (r: Result<&'a str, ServiceParseError>)
        requires
            !(parse_endpoint_spec(buf@) is Panics),
        ensures
            match r {
                Ok(rest) => parse_endpoint_spec(buf@) is Parsed && parse_endpoint_spec(buf@)->Parsed_0.1
                    == rest@ && final(self)@ == (ServiceView {
                    endpoints: old(self)@.endpoints.push(parse_endpoint_spec(buf@)->Parsed_0.0),
                    ..old(self)@
                }),
                Err(k) => parse_endpoint_spec(buf@) == ParseOutcome::<(EndpointView, Seq<char>)>::Invalid(k)
                    && final(self)@ == old(self)@,
            },
    {
        let (input, output) = match split_once(buf, ':') {
            Some(p) => p,
            None => return Err(ServiceParseError::InvalidEndpoint),
        };
        let input = trim(input);
        let output = trim(output);
        let start_idx = match find_char(input, '(') {
            Some(i) => i,
            None => return Err(ServiceParseError::InvalidEndpoint),
        };
        let end_idx = match find_char(input, ')') {
            Some(i) => i,
            None => return Err(ServiceParseError::InvalidEndpoint),
        };
        proof {
            lemma_find_char(input@, '(');
            lemma_find_char(input@, ')');
            lemma_find_char(output@, '(');
            lemma_find_char(output@, ')');
            lemma_find_char(output@, ';');
        }
        let out_len = output.unicode_len();
        let endpoint_name = input.substring_char(0, start_idx);
        let input_ident = trim(input.substring_char(start_idx + 1, end_idx));
        let (rest, output_name, meta) = match find_char(output, '(') {
            Some(paren_idx) => {
                let name = trim(output.substring_char(0, paren_idx));
                let end_paren_idx = match find_char(output, ')') {
                    Some(i) => i,
                    None => return Err(ServiceParseError::InvalidEndpoint),
                };
                let semi_idx = match find_char(output, ';') {
                    Some(i) => i,
                    None => return Err(ServiceParseError::InvalidEndpoint),
                };
                (
                    trim(output.substring_char(semi_idx + 1, out_len)),
                    name,
                    Some(trim(output.substring_char(paren_idx + 1, end_paren_idx))),
                )
            },
            None => match find_char(output, ';') {
                Some(semi_idx) => (
                    trim(output.substring_char(semi_idx + 1, out_len)),
                    trim(output.substring_char(0, semi_idx)),
                    None,
                ),
                None => return Err(ServiceParseError::InvalidEndpoint),
            },
        };
        let streaming = match meta {
            Some(m) => Some(streaming_of(m)),
            None => None,
        };
        let ep = Endpoint { name: endpoint_name, req: input_ident, resp: output_name, streaming };
        let ghost epv = ep@;
        self.endpoints.push(ep);
        let rest = trim(rest);
        proof {
            assert(endpoints_view(self.endpoints@) =~= endpoints_view(old(self).endpoints@).push(epv));
            assert(parse_endpoint_spec(buf@) == ParseOutcome::Parsed((epv, rest@)));
            assert(self@ == (ServiceView { endpoints: old(self)@.endpoints.push(epv), ..old(self)@ }));
        }
        Ok(rest)
    }
}

/// The options of a build: which sides of the gRPC code to generate,
/// whether to print cargo directives, whether services get default method
/// implementations, and where the generated code goes.
#[derive(Debug)]
pub struct Builder {
    pub build_client: bool,
    pub build_server: bool,
    pub emit_rerun_if_changed: bool,
    pub generate_default_stubs: bool,
    pub out_dir: Option<String>,
}

/// The default options: client and server code, no default method
/// implementations, output to `OUT_DIR`, and cargo directives when the build
/// runs under cargo (`cargo_set`: the `CARGO` environment variable is set).
pub fn configure(cargo_set: bool) -> (r: Builder)
    ensures
        r.build_client,
        r.build_server,
        r.emit_rerun_if_changed == cargo_set,
        !r.generate_default_stubs,
        r.out_dir is None,
{
    Builder {
        build_client: true,
        build_server: true,
        emit_rerun_if_changed: cargo_set,
        generate_default_stubs: false,
        out_dir: None,
    }
}

impl Builder {
    /// Enable or disable gRPC client code generation.
    pub fn build_client(self, enable: bool) -> (r: Self)
        ensures
            r == (Builder { build_client: enable, ..self }),
    {
        Builder { build_client: enable, ..self }
    }

    /// Enable or disable gRPC server code generation.
    pub fn build_server(self, enable: bool) -> (r: Self)
        ensures
            r == (Builder { build_server: enable, ..self }),
    {
        Builder { build_server: enable, ..self }
    }

    /// Set the output directory to generate code to. Defaults to the
    /// `OUT_DIR` environment variable.
    pub fn out_dir(self, out_dir: &str) -> (r: Self)
        ensures
            r.out_dir matches Some(d) && d@ == out_dir@,
            r.build_client == self.build_client,
            r.build_server == self.build_server,
            r.emit_rerun_if_changed == self.emit_rerun_if_changed,
            r.generate_default_stubs == self.generate_default_stubs,
    {
        Builder { out_dir: Some(out_dir.to_owned()), ..self }
    }

    /// Enable or disable emitting `cargo:rerun-if-changed` instructions.
    pub fn emit_rerun_if_changed(self, enable: bool) -> (r: Self)
        ensures
            r == (Builder { emit_rerun_if_changed: enable, ..self }),
    {
        Builder { emit_rerun_if_changed: enable, ..self }
    }

    /// Enable or disable default implementations of service methods that
    /// answer with an 'unimplemented' gRPC error.
    pub fn generate_default_stubs(self, enable: bool) -> (r: Self)
        ensures
            r == (Builder { generate_default_stubs: enable, ..self }),
    {
        Builder { generate_default_stubs: enable, ..self }
    }
}

/// The number of bytes that the characters `s` take in UTF-8.
pub open spec fn utf8_len(s: Seq<char>) -> nat {
    vstd::utf8::encode_utf8(s).len()
}

/// The UTF-8 length of a concatenation is the sum of the lengths.
pub proof fn lemma_utf8_len_concat(a: Seq<char>, b: Seq<char>)
    ensures
        utf8_len(a + b) == utf8_len(a) + utf8_len(b),
    decreases a.len(),
{
    if a.len() == 0 {
        assert(a + b =~= b);
    } else {
        assert((a + b).drop_first() =~= a.drop_first() + b);
        assert((a + b)[0] == a[0]);
        lemma_utf8_len_concat(a.drop_first(), b);
    }
}

/// Each `rpc_service` of `s` at or after index `idx`, by the index where it
/// starts and its text up to the first `}` after it, trimmed; the search
/// stops at the first service without a `}`.
pub open spec fn service_bufs_spec(s: Seq<char>, idx: int) -> Seq<(int, Seq<char>)>
    decreases s.len() - idx,
{
    if idx < 0 || idx >= s.len() {
        Seq::empty()
    } else {
        match find_str_spec(s.subrange(idx, s.len() as int), "rpc_service"@) {
            None => Seq::empty(),
            Some(m0) => {
                let m = idx + m0;
                if m < idx || m >= s.len() {
                    Seq::empty()
                } else {
                    match find_char_spec(s.subrange(m, s.len() as int), '}') {
                        None => Seq::empty(),
                        Some(e0) => seq![(m, trim_spec(s.subrange(m, m + e0 + 1)))] + service_bufs_spec(
                            s,
                            m + 1,
                        ),
                    }
                }
            },
        }
    }
}

/// The services of `s` as the byte offset where each starts and its text.
pub open spec fn service_bufs_bytes(s: Seq<char>) -> Seq<(int, Seq<char>)> {
    service_bufs_spec(s, 0).map_values(|p: (int, Seq<char>)| (utf8_len(s.subrange(0, p.0)) as int, p.1))
}

pub open spec fn bufs_view<'a>(v: Seq<(usize, &'a str)>) -> Seq<(int, Seq<char>)> {
    v.map_values(|p: (usize, &'a str)| (p.0 as int, p.1@))
}

impl Builder {
    /// The `rpc_service` declarations of a schema text, by the byte offset
    /// where each starts and its text up to its first `}`.
    pub fn extract_service_bufs(file: &str) -> (r: Vec<(usize, &str)>)
        requires
            utf8_len(file@) <= usize::MAX,
        ensures
            bufs_view(r@) == service_bufs_bytes(file@),
    {
        let n = file.unicode_len();
        let mut out: Vec<(usize, &str)> = Vec::new();
        let mut idx: usize = 0;
        let ghost full = service_bufs_spec(file@, 0);
        assert(bufs_view(out@) =~= Seq::<(int, Seq<char>)>::empty());
        loop
            invariant
                n == file@.len(),
                utf8_len(file@) <= usize::MAX,
                idx <= n,
                full == service_bufs_spec(file@, 0),
                bufs_view(out@) + service_bufs_spec(file@, idx as int).map_values(
                    |p: (int, Seq<char>)| (utf8_len(file@.subrange(0, p.0)) as int, p.1),
                ) == full.map_values(|p: (int, Seq<char>)| (utf8_len(file@.subrange(0, p.0)) as int, p.1)),
            decreases n - idx,
        {
            let ghost f = |p: (int, Seq<char>)| (utf8_len(file@.subrange(0, p.0)) as int, p.1);
            let ghost cur = bufs_view(out@);
            if idx >= n {
                assert(service_bufs_spec(file@, idx as int) =~= Seq::<(int, Seq<char>)>::empty());
                assert(cur + Seq::<(int, Seq<char>)>::empty().map_values(f) =~= cur);
                return out;
            }
            let rest = file.substring_char(idx, n);
            proof { lemma_find_str(rest@, "rpc_service"@); }
            match find_str(rest, "rpc_service") {
                None => {
                    assert(service_bufs_spec(file@, idx as int) =~= Seq::<(int, Seq<char>)>::empty());
                    assert(cur + Seq::<(int, Seq<char>)>::empty().map_values(f) =~= cur);
                    return out;
                },
                Some(m0) => {
                    let m = idx + m0;
                    let tail = file.substring_char(m, n);
                    proof { lemma_find_char(tail@, '}'); }
                    match find_char(tail, '}') {
                        None => {
                            assert(service_bufs_spec(file@, idx as int) =~= Seq::<(int, Seq<char>)>::empty());
                            assert(cur + Seq::<(int, Seq<char>)>::empty().map_values(f) =~= cur);
                            return out;
                        },
                        Some(e0) => {
                            let text = trim(file.substring_char(m, m + e0 + 1));
                            let prefix = file.substring_char(0, m);
                            proof {
                                lemma_utf8_len_concat(file@.subrange(0, m as int), file@.subrange(m as int, n as int));
                                assert(file@.subrange(0, m as int) + file@.subrange(m as int, n as int) =~= file@);
                            }
                            let offset = prefix.len();
                            let ghost entry = (m as int, text@);
                            proof {
                                assert(service_bufs_spec(file@, idx as int) == seq![entry] + service_bufs_spec(file@, m + 1));
                                assert((seq![entry] + service_bufs_spec(file@, m + 1)).map_values(f)
                                    =~= seq![f(entry)] + service_bufs_spec(file@, m + 1).map_values(f));
                                assert(f(entry) == (offset as int, text@));
                            }
                            out.push((offset, text));
                            proof {
                                assert(bufs_view(out@) =~= cur.push((offset as int, text@)));
                                assert(cur.push((offset as int, text@)) + service_bufs_spec(file@, m + 1).map_values(f)
                                    =~= cur + (seq![f(entry)] + service_bufs_spec(file@, m + 1).map_values(f)));
                            }
                            idx = m + 1;
                        },
                    }
                },
            }
        }
    }
}

} // verus!
