//! Reading the namespace and service declarations out of a `.fbs` schema.
use vstd::prelude::*;
use crate::pattern::{
    regex_captures, regex_captures_iter, regex_captures_iter_spec, regex_captures_spec,
    regex_compiles,
};
use crate::text::{find_char, find_char_spec, find_str, find_str_spec, lemma_find_str, opt_int};

verus! {

/// A `namespace a.b.c;` declaration.
pub const NAMESPACE_PATTERN: &'static str = r"(?m)^\s*namespace\s+([a-zA-Z0-9_.]+)\s*;";

/// An `rpc_service Name { ... }` declaration, its name and its body.
pub const SERVICE_PATTERN: &'static str = r"(?s)rpc_service\s+(\w+)\s*\{(.*?)\}";

/// One `Method(Request): Response (streaming: kind);` line of a service body.
pub const METHOD_PATTERN: &'static str = r"(?x)
                (\w+)\s*            # method name
                \(\s*(\S+)\s*\)\s*  # request type
                :\s*(\S+)\s*        # response type
                \(\s*streaming:\s*(\w+)\s*\)\s*;
            ";

/// Why a set of schemas could not be read.
#[derive(Debug, Clone, Copy, PartialEq, Eq, Structural)]
pub enum SchemaError {
    /// The regex engine refused one of the declaration patterns.
    InvalidPattern,
    /// A match lacked a capture group that the pattern always fills.
    MalformedMatch,
    /// A service was declared while its namespace did not exist.
    ServiceOutsideNamespace,
}

/// One rpc method as declared: its name, request and response type references
/// and streaming kind.
#[derive(Debug)]
pub struct MethodDecl {
    pub name: String,
    pub request: String,
    pub response: String,
    pub streaming: String,
}

/// A declaration found in a schema, in the order of the text.
#[derive(Debug)]
pub enum SchemaItem {
    Namespace(String),
    Service(String, Vec<MethodDecl>),
}

/// The text of a method declaration.
pub struct MethodView {
    pub name: Seq<char>,
    pub request: Seq<char>,
    pub response: Seq<char>,
    pub streaming: Seq<char>,
}

/// The text of a declaration.
pub enum ItemView {
    Namespace(Seq<char>),
    Service(Seq<char>, Seq<MethodView>),
}

impl View for MethodDecl {
    type V = MethodView;

    open spec fn view(&self) -> MethodView {
        MethodView {
            name: self.name@,
            request: self.request@,
            response: self.response@,
            streaming: self.streaming@,
        }
    }
}

pub open spec fn methods_view(v: Seq<MethodDecl>) -> Seq<MethodView> {
    v.map_values(|m: MethodDecl| m@)
}

impl View for SchemaItem {
    type V = ItemView;

    open spec fn view(&self) -> ItemView {
        match self {
            SchemaItem::Namespace(n) => ItemView::Namespace(n@),
            SchemaItem::Service(n, ms) => ItemView::Service(n@, methods_view(ms@)),
        }
    }
}

pub open spec fn items_view(v: Seq<SchemaItem>) -> Seq<ItemView> {
    v.map_values(|i: SchemaItem| i@)
}

/// The method that one match of the method pattern declares, if all four
/// groups are there.
pub open spec fn method_from_groups(c: Seq<Option<Seq<char>>>) -> Option<MethodView> {
    if c.len() >= 5 && c[1] is Some && c[2] is Some && c[3] is Some && c[4] is Some {
        Some(
            MethodView {
                name: c[1]->0,
                request: c[2]->0,
                response: c[3]->0,
                streaming: c[4]->0,
            },
        )
    } else {
        None
    }
}

/// The methods of a service body: one per match of the method pattern.
pub open spec fn methods_spec(body: Seq<char>) -> Result<Seq<MethodView>, SchemaError> {
    let cs = regex_captures_iter_spec(METHOD_PATTERN@, body);
    if !regex_compiles(METHOD_PATTERN@) {
        Err(SchemaError::InvalidPattern)
    } else if forall|i: int| 0 <= i < cs.len() ==> #[trigger] method_from_groups(cs[i]) is Some {
        Ok(cs.map_values(|c: Seq<Option<Seq<char>>>| method_from_groups(c)->0))
    } else {
        Err(SchemaError::MalformedMatch)
    }
}

/// How far the whole match `c[0]` reaches into `rest`, found where its text
/// first occurs.
pub open spec fn match_end(rest: Seq<char>, c: Seq<Option<Seq<char>>>) -> Option<int> {
    if c.len() >= 1 && c[0] is Some {
        match find_str_spec(rest, c[0]->0) {
            Some(start) => Some(start + (c[0]->0).len()),
            None => None,
        }
    } else {
        None
    }
}

/// `pre` in front of the declarations of a successful read.
pub open spec fn prepend(pre: Seq<ItemView>, r: Result<Seq<ItemView>, SchemaError>) -> Result<
    Seq<ItemView>,
    SchemaError,
> {
    match r {
        Ok(items) => Ok(pre + items),
        Err(e) => Err(e),
    }
}

/// The declarations of `rest`: at each point the next namespace declaration
/// is taken if there is one, else the next service, else the reading goes
/// on after the next line break.
pub open spec fn scan_spec(rest: Seq<char>) -> Result<Seq<ItemView>, SchemaError>
    decreases rest.len(),
{
    if rest.len() == 0 {
        Ok(Seq::empty())
    } else if !regex_compiles(NAMESPACE_PATTERN@) {
        Err(SchemaError::InvalidPattern)
    } else {
        match regex_captures_spec(NAMESPACE_PATTERN@, rest) {
            Some(c) => match match_end(rest, c) {
                None => Err(SchemaError::MalformedMatch),
                Some(end) => if c.len() < 2 || c[1] is None {
                    Err(SchemaError::MalformedMatch)
                } else if 0 < end <= rest.len() {
                    prepend(
                        seq![ItemView::Namespace(c[1]->0)],
                        scan_spec(rest.subrange(end, rest.len() as int)),
                    )
                } else {
                    skip_line_spec(rest)
                },
            },
            None => if !regex_compiles(SERVICE_PATTERN@) {
                Err(SchemaError::InvalidPattern)
            } else {
                match regex_captures_spec(SERVICE_PATTERN@, rest) {
                    Some(c) => match match_end(rest, c) {
                        None => Err(SchemaError::MalformedMatch),
                        Some(end) => if c.len() < 3 || c[1] is None || c[2] is None {
                            Err(SchemaError::MalformedMatch)
                        } else {
                            match methods_spec(c[2]->0) {
                                Err(e) => Err(e),
                                Ok(ms) => if 0 < end <= rest.len() {
                                    prepend(
                                        seq![ItemView::Service(c[1]->0, ms)],
                                        scan_spec(rest.subrange(end, rest.len() as int)),
                                    )
                                } else {
                                    prepend(seq![ItemView::Service(c[1]->0, ms)], skip_line_spec(rest))
                                },
                            }
                        },
                    },
                    None => skip_line_spec(rest),
                }
            },
        }
    }
}

/// The declarations after the next line break of `rest`; none if there is none.
pub open spec fn skip_line_spec(rest: Seq<char>) -> Result<Seq<ItemView>, SchemaError>
    decreases rest.len(), 0int,
{
    match find_char_spec(rest, '\n') {
        Some(i) => if 0 <= i < rest.len() {
            scan_spec(rest.subrange(i + 1, rest.len() as int))
        } else {
            Ok(Seq::empty())
        },
        None => Ok(Seq::empty()),
    }
}

/// Reading goes on after a service declaration: where no namespace
/// declaration is left and the service pattern matches, the declarations of
/// `rest` are that service followed by the declarations of the text after
/// the match.
pub proof fn lemma_scan_continues_after_service(
    rest: Seq<char>,
    c: Seq<Option<Seq<char>>>,
    end: int,
    ms: Seq<MethodView>,
)
    requires
        regex_compiles(NAMESPACE_PATTERN@),
        regex_captures_spec(NAMESPACE_PATTERN@, rest) is None,
        regex_compiles(SERVICE_PATTERN@),
        regex_captures_spec(SERVICE_PATTERN@, rest) == Some(c),
        c.len() >= 3,
        c[1] is Some,
        c[2] is Some,
        methods_spec(c[2]->0) == Ok::<Seq<MethodView>, SchemaError>(ms),
        match_end(rest, c) == Some(end),
        0 < end <= rest.len(),
    ensures
        scan_spec(rest) == prepend(
            seq![ItemView::Service(c[1]->0, ms)],
            scan_spec(rest.subrange(end, rest.len() as int)),
        ),
{
}

/// Reading goes on after a namespace declaration: where the namespace
/// pattern matches, the declarations of `rest` are that namespace followed
/// by the declarations of the text after the match.
pub proof fn lemma_scan_continues_after_namespace(rest: Seq<char>, c: Seq<Option<Seq<char>>>, end: int)
    requires
        regex_compiles(NAMESPACE_PATTERN@),
        regex_captures_spec(NAMESPACE_PATTERN@, rest) == Some(c),
        c.len() >= 2,
        c[1] is Some,
        match_end(rest, c) == Some(end),
        0 < end <= rest.len(),
    ensures
        scan_spec(rest) == prepend(
            seq![ItemView::Namespace(c[1]->0)],
            scan_spec(rest.subrange(end, rest.len() as int)),
        ),
{
}

/// Where neither a namespace nor a service declaration is left, reading
/// goes on after the next line break, and ends with no declaration when
/// there is none.
pub proof fn lemma_scan_skips_line(rest: Seq<char>)
    requires
        rest.len() > 0,
        regex_compiles(NAMESPACE_PATTERN@),
        regex_captures_spec(NAMESPACE_PATTERN@, rest) is None,
        regex_compiles(SERVICE_PATTERN@),
        regex_captures_spec(SERVICE_PATTERN@, rest) is None,
    ensures
        scan_spec(rest) == match find_char_spec(rest, '\n') {
            Some(i) => if 0 <= i < rest.len() {
                scan_spec(rest.subrange(i + 1, rest.len() as int))
            } else {
                Ok(Seq::empty())
            },
            None => Ok(Seq::<ItemView>::empty()),
        },
{
    assert(scan_spec(rest) == skip_line_spec(rest));
}

/// The number of service declarations among `items`.
pub open spec fn service_count(items: Seq<ItemView>) -> nat
    decreases items.len(),
{
    if items.len() == 0 {
        0
    } else {
        service_count(items.drop_last()) + if items.last() is Service {
            1nat
        } else {
            0nat
        }
    }
}

/// Counting services over two runs of declarations adds up.
pub proof fn lemma_service_count_concat(a: Seq<ItemView>, b: Seq<ItemView>)
    ensures
        service_count(a + b) == service_count(a) + service_count(b),
    decreases b.len(),
{
    if b.len() == 0 {
        assert(a + b =~= a);
    } else {
        assert((a + b).drop_last() =~= a + b.drop_last());
        lemma_service_count_concat(a, b.drop_last());
    }
}

/// A successful read after a service declaration holds one service more
/// than the read of the text after it.
pub proof fn lemma_scan_service_counted(
    rest: Seq<char>,
    c: Seq<Option<Seq<char>>>,
    end: int,
    ms: Seq<MethodView>,
)
    requires
        regex_compiles(NAMESPACE_PATTERN@),
        regex_captures_spec(NAMESPACE_PATTERN@, rest) is None,
        regex_compiles(SERVICE_PATTERN@),
        regex_captures_spec(SERVICE_PATTERN@, rest) == Some(c),
        c.len() >= 3,
        c[1] is Some,
        c[2] is Some,
        methods_spec(c[2]->0) == Ok::<Seq<MethodView>, SchemaError>(ms),
        match_end(rest, c) == Some(end),
        0 < end <= rest.len(),
    ensures
        scan_spec(rest) is Ok <==> scan_spec(rest.subrange(end, rest.len() as int)) is Ok,
        scan_spec(rest) is Ok ==> service_count(scan_spec(rest)->Ok_0) == 1 + service_count(
            scan_spec(rest.subrange(end, rest.len() as int))->Ok_0,
        ),
{
    lemma_scan_continues_after_service(rest, c, end, ms);
    if let Ok(after) = scan_spec(rest.subrange(end, rest.len() as int)) {
        let one = seq![ItemView::Service(c[1]->0, ms)];
        lemma_service_count_concat(one, after);
        assert(one.drop_last() =~= Seq::<ItemView>::empty());
        assert(service_count(one.drop_last()) == 0);
        assert(service_count(one) == 1);
        assert(scan_spec(rest) == Ok::<Seq<ItemView>, SchemaError>(one + after));
    }
}

pub proof fn lemma_prepend_assoc(a: Seq<ItemView>, b: Seq<ItemView>, r: Result<Seq<ItemView>, SchemaError>)
    ensures
        prepend(a, prepend(b, r)) == prepend(a + b, r),
{
    if let Ok(x) = r {
        assert(a + (b + x) =~= (a + b) + x);
    }
}

/// The text of capture group `i`, if the group took part in the match.
fn group(c: &Vec<Option<String>>, i: usize) -> (r: Option<String>)
    ensures
        match r {
            Some(t) => i < c.deep_view().len() && c.deep_view()[i as int] == Some(t@),
            None => i >= c.deep_view().len() || c.deep_view()[i as int] is None,
        },
{
    if i < c.len() {
        match &c[i] {
            Some(t) => {
                assert(c.deep_view()[i as int] == c@[i as int].deep_view());
                Some(t.clone())
            },
            None => {
                assert(c.deep_view()[i as int] == c@[i as int].deep_view());
                None
            },
        }
    } else {
        None
    }
}

/// How far the whole match reaches into `rest`.
fn match_end_exec(rest: &str, c: &Vec<Option<String>>) -> (r: Option<usize>)
    ensures
        opt_int(r) == match_end(rest@, c.deep_view()),
        r matches Some(e) ==> e <= rest@.len(),
{
    match group(c, 0) {
        Some(m) => {
            proof { lemma_find_str(rest@, m@); }
            let rest_len = rest.unicode_len();
            let n = m.unicode_len();
            match find_str(rest, m.as_str()) {
                Some(start) => {
                    assert(start + n <= rest_len);
                    Some(start + n)
                },
                None => None,
            }
        },
        None => None,
    }
}

/// The methods declared in a service body.
pub fn scan_methods(body: &str) -> (r: Result<Vec<MethodDecl>, SchemaError>)
    ensures
        match r {
            Ok(ms) => methods_spec(body@) == Ok::<Seq<MethodView>, SchemaError>(methods_view(ms@)),
            Err(e) => methods_spec(body@) == Err::<Seq<MethodView>, SchemaError>(e),
        },
{
    let cs = match regex_captures_iter(METHOD_PATTERN, body) {
        Ok(cs) => cs,
        Err(_) => return Err(SchemaError::InvalidPattern),
    };
    let ghost csv = regex_captures_iter_spec(METHOD_PATTERN@, body@);
    let mut out: Vec<MethodDecl> = Vec::new();
    let mut i: usize = 0;
    while i < cs.len()
        invariant
            cs.deep_view() == csv,
            csv == regex_captures_iter_spec(METHOD_PATTERN@, body@),
            regex_compiles(METHOD_PATTERN@),
            i <= cs@.len(),
            out@.len() == i,
            forall|k: int| 0 <= k < i ==> #[trigger] method_from_groups(csv[k]) is Some,
            forall|k: int| 0 <= k < i ==> #[trigger] methods_view(out@)[k] == method_from_groups(csv[k])->0,
        decreases cs@.len() - i,
    {
        let c = &cs[i];
        assert(csv[i as int] == c.deep_view());
        let g1 = group(c, 1);
        let g2 = group(c, 2);
        let g3 = group(c, 3);
        let g4 = group(c, 4);
        match (g1, g2, g3, g4) {
            (Some(name), Some(request), Some(response), Some(streaming)) => {
                let m = MethodDecl { name, request, response, streaming };
                let ghost before = out@;
                let ghost mv = m@;
                assert(method_from_groups(csv[i as int]) == Some(mv));
                out.push(m);
                proof {
                    assert(methods_view(out@)[i as int] == mv);
                    assert forall|k: int| 0 <= k < i + 1 implies #[trigger] methods_view(out@)[k]
                        == method_from_groups(csv[k])->0 by {
                        if k < i {
                            assert(out@[k] == before[k]);
                            assert(methods_view(out@)[k] == out@[k]@);
                            assert(methods_view(before)[k] == before[k]@);
                        }
                    }
                }
            },
            _ => {
                assert(method_from_groups(csv[i as int]) is None);
                return Err(SchemaError::MalformedMatch);
            },
        }
        i = i + 1;
    }
    proof {
        assert(methods_view(out@) =~= csv.map_values(
            |c: Seq<Option<Seq<char>>>| method_from_groups(c)->0,
        ));
    }
    Ok(out)
}

/// The namespace and service declarations of a schema, in the order of the text.
pub fn scan_schema(schema: &str) -> (r: Result<Vec<SchemaItem>, SchemaError>)
    ensures
        match r {
            Ok(items) => scan_spec(schema@) == Ok::<Seq<ItemView>, SchemaError>(items_view(items@)),
            Err(e) => scan_spec(schema@) == Err::<Seq<ItemView>, SchemaError>(e),
        },
{
    let n = schema.unicode_len();
    let mut items: Vec<SchemaItem> = Vec::new();
    let mut cursor: usize = 0;
    assert(schema@.subrange(0, n as int) =~= schema@);
    assert(items_view(items@) =~= Seq::<ItemView>::empty());
    loop
        invariant
            n == schema@.len(),
            cursor <= n,
            scan_spec(schema@) == prepend(
                items_view(items@),
                scan_spec(schema@.subrange(cursor as int, n as int)),
            ),
        decreases n - cursor,
    {
        let ghost iv = items_view(items@);
        if cursor >= n {
            assert(schema@.subrange(cursor as int, n as int).len() == 0);
            assert(iv + Seq::<ItemView>::empty() =~= iv);
            return Ok(items);
        }
        let rest = schema.substring_char(cursor, n);
        let ghost rv = rest@;
        let mut skip = true;
        let ghost mut pending: Seq<ItemView> = Seq::empty();
        assert(rv == schema@.subrange(cursor as int, n as int));
        let ns = match regex_captures(NAMESPACE_PATTERN, rest) {
            Ok(c) => c,
            Err(_) => return Err(SchemaError::InvalidPattern),
        };
        match ns {
            Some(c) => {
                let end = match match_end_exec(rest, &c) {
                    Some(e) => e,
                    None => return Err(SchemaError::MalformedMatch),
                };
                let name = match group(&c, 1) {
                    Some(t) => t,
                    None => return Err(SchemaError::MalformedMatch),
                };
                if 0 < end {
                    let ghost item = ItemView::Namespace(name@);
                    items.push(SchemaItem::Namespace(name));
                    proof {
                        assert(items_view(items@) =~= iv.push(item));
                        assert(rv.subrange(end as int, rv.len() as int) =~= schema@.subrange(
                            cursor + end,
                            n as int,
                        ));
                        assert(scan_spec(rv) == prepend(
                            seq![item],
                            scan_spec(rv.subrange(end as int, rv.len() as int)),
                        ));
                        lemma_prepend_assoc(iv, seq![item], scan_spec(rv.subrange(end as int, rv.len() as int)));
                        assert(iv + seq![item] =~= iv.push(item));
                    }
                    cursor = cursor + end;
                    skip = false;
                } else {
                    assert(scan_spec(rv) == skip_line_spec(rv));
                }
            },
            None => {
                let svc = match regex_captures(SERVICE_PATTERN, rest) {
                    Ok(c) => c,
                    Err(_) => return Err(SchemaError::InvalidPattern),
                };
                match svc {
                    Some(c) => {
                        let end = match match_end_exec(rest, &c) {
                            Some(e) => e,
                            None => return Err(SchemaError::MalformedMatch),
                        };
                        let name = match group(&c, 1) {
                            Some(t) => t,
                            None => return Err(SchemaError::MalformedMatch),
                        };
                        let body = match group(&c, 2) {
                            Some(t) => t,
                            None => return Err(SchemaError::MalformedMatch),
                        };
                        let methods = match scan_methods(body.as_str()) {
                            Ok(ms) => ms,
                            Err(e) => return Err(e),
                        };
                        let ghost item = ItemView::Service(name@, methods_view(methods@));
                        items.push(SchemaItem::Service(name, methods));
                        proof {
                            assert(items_view(items@) =~= iv.push(item));
                            assert(iv + seq![item] =~= iv.push(item));
                        }
                        if 0 < end {
                            proof {
                                assert(rv.subrange(end as int, rv.len() as int) =~= schema@.subrange(
                                    cursor + end,
                                    n as int,
                                ));
                                assert(scan_spec(rv) == prepend(
                                    seq![item],
                                    scan_spec(rv.subrange(end as int, rv.len() as int)),
                                ));
                                lemma_prepend_assoc(iv, seq![item], scan_spec(rv.subrange(end as int, rv.len() as int)));
                            }
                            cursor = cursor + end;
                            skip = false;
                        } else {
                            proof {
                                pending = seq![item];
                                assert(scan_spec(rv) == prepend(pending, skip_line_spec(rv)));
                            }
                        }
                    },
                    None => {
                        assert(scan_spec(rv) == skip_line_spec(rv));
                    },
                }
            },
        }
        if skip {
            let ghost iv2 = items_view(items@);
            proof {
                crate::text::lemma_find_char(rv, '\n');
                assert(iv2 == iv + pending);
                assert(scan_spec(rv) == prepend(pending, skip_line_spec(rv))) by {
                    if pending.len() == 0 {
                        assert(pending + Seq::<ItemView>::empty() =~= Seq::<ItemView>::empty());
                        match skip_line_spec(rv) {
                            Ok(x) => { assert(pending + x =~= x); },
                            Err(_) => {},
                        }
                    }
                }
                lemma_prepend_assoc(iv, pending, skip_line_spec(rv));
            }
            match find_char(rest, '\n') {
                Some(i) => {
                    proof {
                        assert(rv.subrange(i + 1, rv.len() as int) =~= schema@.subrange(
                            cursor + i + 1,
                            n as int,
                        ));
                    }
                    cursor = cursor + i + 1;
                },
                None => {
                    assert(skip_line_spec(rv) == Ok::<Seq<ItemView>, SchemaError>(Seq::empty()));
                    assert(iv2 + Seq::<ItemView>::empty() =~= iv2);
                    return Ok(items);
                },
            }
        }
    }
}

} // verus!
