//! Rendering the proto files that describe the services of a forest.
use vstd::prelude::*;
use crate::text::{push_char, replace_char, replace_char_spec, str_eq};
use crate::tree::{Forest, NamespaceChild, forest_preorder, lemma_preorder_valid, node_valid, type_ns};

verus! {

/// The services among `cs`, in order.
pub open spec fn services_of(cs: Seq<NamespaceChild>) -> Seq<usize>
    decreases cs.len(),
{
    if cs.len() == 0 {
        Seq::empty()
    } else {
        services_of(cs.drop_last()) + match cs.last() {
            NamespaceChild::Service(s) => seq![s],
            _ => Seq::empty(),
        }
    }
}

/// The request and response types of the endpoints `eps`, in order.
pub open spec fn endpoint_refs(f: &Forest, eps: Seq<usize>) -> Seq<usize>
    decreases eps.len(),
{
    if eps.len() == 0 {
        Seq::empty()
    } else {
        let ep = f.endpoints@[eps.last() as int];
        endpoint_refs(f, eps.drop_last()) + seq![ep.request_type, ep.response_type]
    }
}

/// The types the endpoints of the services `ss` refer to, in order.
pub open spec fn service_refs(f: &Forest, ss: Seq<usize>) -> Seq<usize>
    decreases ss.len(),
{
    if ss.len() == 0 {
        Seq::empty()
    } else {
        service_refs(f, ss.drop_last()) + endpoint_refs(f, f.services@[ss.last() as int].endpoints@)
    }
}

/// Index of the first entry of `u` under `key`.
pub open spec fn usage_find(u: Seq<(Seq<char>, Seq<usize>)>, key: Seq<char>) -> Option<int>
    decreases u.len(),
{
    if u.len() == 0 {
        None
    } else if u[0].0 == key {
        Some(0)
    } else {
        match usage_find(u.drop_first(), key) {
            Some(k) => Some(k + 1),
            None => None,
        }
    }
}

/// `u` with type `t` recorded under `key`, once.
pub open spec fn usage_add(u: Seq<(Seq<char>, Seq<usize>)>, key: Seq<char>, t: usize) -> Seq<
    (Seq<char>, Seq<usize>),
> {
    match usage_find(u, key) {
        Some(k) => if u[k].1.contains(t) {
            u
        } else {
            u.update(k, (key, u[k].1.push(t)))
        },
        None => u.push((key, seq![t])),
    }
}

/// The types `ts` grouped by the path of their namespace, each group and
/// each type in the order of first mention.
pub open spec fn usage_fold(f: &Forest, ts: Seq<usize>) -> Seq<(Seq<char>, Seq<usize>)>
    decreases ts.len(),
{
    if ts.len() == 0 {
        Seq::empty()
    } else {
        usage_add(usage_fold(f, ts.drop_last()), type_ns(f, ts.last() as int), ts.last())
    }
}

/// The types the services of the forest use, by namespace.
pub open spec fn usage_spec(f: &Forest) -> Seq<(Seq<char>, Seq<usize>)> {
    usage_fold(f, service_refs(f, services_of(forest_preorder(f))))
}

pub open spec fn usage_view(u: Seq<(String, Vec<usize>)>) -> Seq<(Seq<char>, Seq<usize>)> {
    u.map_values(|e: (String, Vec<usize>)| (e.0@, e.1@))
}

proof fn lemma_usage_find(u: Seq<(Seq<char>, Seq<usize>)>, key: Seq<char>)
    ensures
        usage_find(u, key) matches Some(k) ==> 0 <= k < u.len() && u[k].0 == key && forall|j: int|
            0 <= j < k ==> u[j].0 != key,
        usage_find(u, key) is None ==> forall|j: int| 0 <= j < u.len() ==> u[j].0 != key,
    decreases u.len(),
{
    if u.len() > 0 && u[0].0 != key {
        lemma_usage_find(u.drop_first(), key);
        assert forall|j: int| 1 <= j < u.len() implies u[j] == u.drop_first()[j - 1] by {}
    }
}

proof fn lemma_usage_find_at(u: Seq<(Seq<char>, Seq<usize>)>, key: Seq<char>, k: int)
    requires
        0 <= k < u.len(),
        u[k].0 == key,
        forall|j: int| 0 <= j < k ==> u[j].0 != key,
    ensures
        usage_find(u, key) == Some(k),
{
    lemma_usage_find(u, key);
}

/// Whether `v` holds `t`.
fn contains_index(v: &Vec<usize>, t: usize) -> (r: bool)
    ensures
        r == v@.contains(t),
{
    let mut i: usize = 0;
    while i < v.len()
        invariant
            i <= v@.len(),
            forall|j: int| 0 <= j < i ==> v@[j] != t,
        decreases v@.len() - i,
    {
        if v[i] == t {
            assert(v@[i as int] == t);
            return true;
        }
        i = i + 1;
    }
    false
}

/// Records type `t` under `key`.
fn usage_insert(u: &mut Vec<(String, Vec<usize>)>, key: String, t: usize, Ghost(bound): Ghost<nat>)
    requires
        usage_valid(usage_view(old(u)@), bound),
        t < bound,
    ensures
        usage_view(final(u)@) == usage_add(usage_view(old(u)@), key@, t),
        usage_valid(usage_view(final(u)@), bound),
{
    let ghost uv = usage_view(u@);
    let mut k: usize = 0;
    while k < u.len()
        invariant
            u@ == old(u)@,
            uv == usage_view(u@),
            usage_valid(uv, bound),
            t < bound,
            k <= u@.len(),
            forall|j: int| 0 <= j < k ==> uv[j].0 != key@,
        decreases u@.len() - k,
    {
        if str_eq(u[k].0.as_str(), key.as_str()) {
            proof { lemma_usage_find_at(uv, key@, k as int); }
            if !contains_index(&u[k].1, t) {
                u[k].1.push(t);
                proof {
                    assert(usage_view(u@) =~= uv.update(k as int, (key@, uv[k as int].1.push(t))));
                    assert forall|a: int, b: int|
                        0 <= a < usage_view(u@).len() && 0 <= b < usage_view(u@)[a].1.len()
                        implies #[trigger] usage_view(u@)[a].1[b] < bound by {
                        if a != k {
                            assert(usage_view(u@)[a] == uv[a]);
                        } else {
                            assert(usage_view(u@)[a].1 == uv[a].1.push(t));
                            if b < uv[a].1.len() {
                                assert(usage_view(u@)[a].1[b] == uv[a].1[b]);
                            }
                        }
                    }
                }
            }
            return;
        }
        k = k + 1;
    }
    proof { lemma_usage_find(uv, key@); }
    let ghost kv = key@;
    let mut list: Vec<usize> = Vec::new();
    list.push(t);
    u.push((key, list));
    assert(usage_view(u@) =~= uv.push((kv, seq![t])));
    assert forall|a: int, b: int|
        0 <= a < usage_view(u@).len() && 0 <= b < usage_view(u@)[a].1.len()
        implies #[trigger] usage_view(u@)[a].1[b] < bound by {
        if a < uv.len() {
            assert(usage_view(u@)[a] == uv[a]);
        }
    }
}

/// Every type recorded in `u` is below `bound`.
pub open spec fn usage_valid(u: Seq<(Seq<char>, Seq<usize>)>, bound: nat) -> bool {
    forall|a: int, b: int| 0 <= a < u.len() && 0 <= b < u[a].1.len() ==> #[trigger] u[a].1[b] < bound
}

/// Writes one proto file per namespace of a forest that has services or types
/// that services use.
pub struct ProtoFileBuilder<'a> {
    forest: &'a Forest,
    out_dir: String,
    type_usage: Vec<(String, Vec<usize>)>,
}

proof fn lemma_usage_fold_push2(f: &Forest, ts: Seq<usize>, a: usize, b: usize)
    ensures
        usage_fold(f, ts + seq![a, b]) == usage_add(
            usage_add(usage_fold(f, ts), type_ns(f, a as int), a),
            type_ns(f, b as int),
            b,
        ),
{
    let t2 = ts + seq![a, b];
    assert(t2.drop_last() =~= ts.push(a));
    assert(ts.push(a).drop_last() =~= ts);
    assert(t2.last() == b);
    assert(ts.push(a).last() == a);
    assert(usage_fold(f, ts.push(a)) == usage_add(usage_fold(f, ts), type_ns(f, a as int), a));
    assert(usage_fold(f, t2) == usage_add(usage_fold(f, ts.push(a)), type_ns(f, b as int), b));
}

impl<'a> ProtoFileBuilder<'a> {
    pub closed spec fn spec_forest(&self) -> Forest {
        *self.forest
    }

    pub closed spec fn spec_out_dir(&self) -> Seq<char> {
        self.out_dir@
    }

    /// The types in use, by namespace, as collected so far.
    pub closed spec fn spec_usage(&self) -> Seq<(Seq<char>, Seq<usize>)> {
        usage_view(self.type_usage@)
    }

    /// A builder for the proto files of `forest`, to be written below `out_dir`.
    pub fn new(forest: &'a Forest, out_dir: &str) -> (r: Self)
        ensures
            r.spec_forest() == *forest,
            r.spec_out_dir() == out_dir@,
            r.spec_usage() == Seq::<(Seq<char>, Seq<usize>)>::empty(),
    {
        let r = ProtoFileBuilder { forest, out_dir: out_dir.to_owned(), type_usage: Vec::new() };
        assert(usage_view(r.type_usage@) =~= Seq::<(Seq<char>, Seq<usize>)>::empty());
        r
    }

    /// The directory the files go to.
    pub fn out_dir(&self) -> (r: &str)
        ensures
            r@ == self.spec_out_dir(),
    {
        self.out_dir.as_str()
    }

    /// Records, by namespace, the types that the endpoints of the services
    /// of the forest use.
    fn collect_type_usage(&mut self)
        requires
            old(self).spec_forest().wf(),
        ensures
            final(self).spec_forest() == old(self).spec_forest(),
            final(self).spec_out_dir() == old(self).spec_out_dir(),
            final(self).spec_usage() == usage_spec(&old(self).spec_forest()),
            usage_valid(final(self).spec_usage(), old(self).spec_forest().types@.len()),
    {
        let f = self.forest;
        let nodes = f.preorder();
        proof { crate::tree::lemma_preorder_valid(f); }
        let mut u: Vec<(String, Vec<usize>)> = Vec::new();
        let mut n: usize = 0;
        assert(nodes@.subrange(0, 0) =~= Seq::<NamespaceChild>::empty());
        assert(usage_view(u@) =~= Seq::<(Seq<char>, Seq<usize>)>::empty());
        assert(usage_valid(usage_view(u@), f.types@.len()));
        while n < nodes.len()
            invariant
                f.wf(),
                nodes@ == forest_preorder(f),
                forall|k: int| 0 <= k < nodes@.len() ==> crate::tree::node_valid(f, #[trigger] nodes@[k]),
                n <= nodes@.len(),
                usage_view(u@) == usage_fold(f, service_refs(f, services_of(nodes@.subrange(0, n as int)))),
                usage_valid(usage_view(u@), f.types@.len()),
            decreases nodes@.len() - n,
        {
            let ghost pre = services_of(nodes@.subrange(0, n as int));
            proof {
                assert(nodes@.subrange(0, n + 1).drop_last() =~= nodes@.subrange(0, n as int));
                assert(nodes@.subrange(0, n + 1).last() == nodes@[n as int]);
                assert(crate::tree::node_valid(f, nodes@[n as int]));
            }
            match nodes[n] {
                NamespaceChild::Service(s) => {
                    let eps = &f.services[s].endpoints;
                    let mut k: usize = 0;
                    assert(eps@.subrange(0, 0) =~= Seq::<usize>::empty());
                    assert(service_refs(f, pre) + endpoint_refs(f, Seq::<usize>::empty()) =~= service_refs(f, pre));
                    while k < eps.len()
                        invariant
                            f.wf(),
                            s < f.services@.len(),
                            *eps == f.services@[s as int].endpoints,
                            k <= eps@.len(),
                            usage_view(u@) == usage_fold(
                                f,
                                service_refs(f, pre) + endpoint_refs(f, eps@.subrange(0, k as int)),
                            ),
                            usage_valid(usage_view(u@), f.types@.len()),
                        decreases eps@.len() - k,
                    {
                        let e = eps[k];
                        assert(e < f.endpoints@.len());
                        let req = f.endpoints[e].request_type;
                        let resp = f.endpoints[e].response_type;
                        assert(req < f.types@.len() && resp < f.types@.len());
                        let key_req = f.type_namespace_path(req);
                        let key_resp = f.type_namespace_path(resp);
                        usage_insert(&mut u, key_req, req, Ghost(f.types@.len()));
                        usage_insert(&mut u, key_resp, resp, Ghost(f.types@.len()));
                        proof {
                            let before = service_refs(f, pre) + endpoint_refs(f, eps@.subrange(0, k as int));
                            assert(eps@.subrange(0, k + 1).drop_last() =~= eps@.subrange(0, k as int));
                            assert(eps@.subrange(0, k + 1).last() == e);
                            assert(service_refs(f, pre) + endpoint_refs(f, eps@.subrange(0, k + 1))
                                =~= before + seq![req, resp]);
                            lemma_usage_fold_push2(f, before, req, resp);
                        }
                        k = k + 1;
                    }
                    proof {
                        assert(eps@.subrange(0, eps@.len() as int) =~= eps@);
                        assert(services_of(nodes@.subrange(0, n + 1)) == pre.push(s));
                        assert(pre.push(s).drop_last() =~= pre);
                    }
                },
                _ => {
                    proof {
                        assert(services_of(nodes@.subrange(0, n + 1)) =~= pre);
                    }
                },
            }
            n = n + 1;
        }
        assert(nodes@.subrange(0, nodes@.len() as int) =~= nodes@);
        self.type_usage = u;
    }
}

/// The name of the proto file of package `ns`.
pub open spec fn proto_file_name(ns: Seq<char>) -> Seq<char> {
    "fake_"@ + replace_char_spec(ns, '.', '_') + ".proto"@
}

/// An import line for each package of `ps`.
pub open spec fn import_lines(ps: Seq<Seq<char>>) -> Seq<char>
    decreases ps.len(),
{
    if ps.len() == 0 {
        Seq::empty()
    } else {
        import_lines(ps.drop_last()) + "import \""@ + proto_file_name(ps.last()) + "\";\n"@
    }
}

/// An empty message for each type of `ts`.
pub open spec fn message_lines(f: &Forest, ts: Seq<usize>) -> Seq<char>
    decreases ts.len(),
{
    if ts.len() == 0 {
        Seq::empty()
    } else {
        message_lines(f, ts.drop_last()) + "message "@ + f.types@[ts.last() as int].name@ + " {}\n\n"@
    }
}

/// How type `t` is named inside package `pkg`: qualified when it lies elsewhere.
pub open spec fn type_ref(f: &Forest, t: int, pkg: Seq<char>) -> Seq<char> {
    if type_ns(f, t) != pkg {
        type_ns(f, t) + "."@ + f.types@[t].name@
    } else {
        f.types@[t].name@
    }
}

/// An rpc line for each endpoint of `eps`, inside package `pkg`.
pub open spec fn endpoint_lines(f: &Forest, pkg: Seq<char>, eps: Seq<usize>) -> Seq<char>
    decreases eps.len(),
{
    if eps.len() == 0 {
        Seq::empty()
    } else {
        let ep = f.endpoints@[eps.last() as int];
        endpoint_lines(f, pkg, eps.drop_last()) + "    rpc "@ + ep.name@ + " ("@ + type_ref(
            f,
            ep.request_type as int,
            pkg,
        ) + ") returns ("@ + type_ref(f, ep.response_type as int, pkg) + ") {}\n"@
    }
}

/// A service block for each service of `ss`, inside package `pkg`.
pub open spec fn service_blocks(f: &Forest, pkg: Seq<char>, ss: Seq<usize>) -> Seq<char>
    decreases ss.len(),
{
    if ss.len() == 0 {
        Seq::empty()
    } else {
        let sv = f.services@[ss.last() as int];
        service_blocks(f, pkg, ss.drop_last()) + "service "@ + sv.name@ + " {\n"@ + endpoint_lines(
            f,
            pkg,
            sv.endpoints@,
        ) + "}\n"@
    }
}

/// The rpc line of endpoint `e` inside package `pkg`.
pub open spec fn rpc_line(f: &Forest, pkg: Seq<char>, e: int) -> Seq<char> {
    let ep = f.endpoints@[e];
    "    rpc "@ + ep.name@ + " ("@ + type_ref(f, ep.request_type as int, pkg) + ") returns ("@
        + type_ref(f, ep.response_type as int, pkg) + ") {}\n"@
}

/// The rpc lines of two runs of endpoints follow one another.
pub proof fn lemma_endpoint_lines_concat(f: &Forest, pkg: Seq<char>, a: Seq<usize>, b: Seq<usize>)
    ensures
        endpoint_lines(f, pkg, a + b) == endpoint_lines(f, pkg, a) + endpoint_lines(f, pkg, b),
    decreases b.len(),
{
    if b.len() == 0 {
        assert(a + b =~= a);
        assert(endpoint_lines(f, pkg, a) + Seq::<char>::empty() =~= endpoint_lines(f, pkg, a));
    } else {
        assert((a + b).drop_last() =~= a + b.drop_last());
        assert((a + b).last() == b.last());
        lemma_endpoint_lines_concat(f, pkg, a, b.drop_last());
        let x = endpoint_lines(f, pkg, a);
        let y = endpoint_lines(f, pkg, b.drop_last());
        let z = rpc_line(f, pkg, b.last() as int);
        assert(endpoint_lines(f, pkg, b) =~= y + z);
        assert(endpoint_lines(f, pkg, a + b) =~= (x + y) + z);
        assert((x + y) + z =~= x + (y + z));
    }
}

/// A service block holds exactly one rpc line per endpoint, in the order of
/// the endpoints: the lines are those of the endpoints, one after another.
pub proof fn lemma_endpoint_lines_each(f: &Forest, pkg: Seq<char>, eps: Seq<usize>)
    ensures
        endpoint_lines(f, pkg, eps) == eps.map_values(|e: usize| rpc_line(f, pkg, e as int)).flatten(),
    decreases eps.len(),
{
    let s = eps.map_values(|e: usize| rpc_line(f, pkg, e as int));
    s.lemma_flatten_and_flatten_alt_are_equivalent();
    if eps.len() > 0 {
        let d = eps.drop_last().map_values(|e: usize| rpc_line(f, pkg, e as int));
        assert(s.drop_last() =~= d);
        d.lemma_flatten_and_flatten_alt_are_equivalent();
        lemma_endpoint_lines_each(f, pkg, eps.drop_last());
        assert(s.last() == rpc_line(f, pkg, eps.last() as int));
        assert(endpoint_lines(f, pkg, eps) =~= endpoint_lines(f, pkg, eps.drop_last()) + rpc_line(
            f,
            pkg,
            eps.last() as int,
        ));
    } else {
        assert(s.flatten_alt() =~= Seq::<char>::empty());
    }
}

/// The `k`-th endpoint gets its rpc line right after the lines of the
/// endpoints before it and right before those of the endpoints after it.
pub proof fn lemma_endpoint_line_at(f: &Forest, pkg: Seq<char>, eps: Seq<usize>, k: int)
    requires
        0 <= k < eps.len(),
    ensures
        endpoint_lines(f, pkg, eps) == endpoint_lines(f, pkg, eps.subrange(0, k)) + rpc_line(f, pkg, eps[k] as int)
            + endpoint_lines(f, pkg, eps.subrange(k + 1, eps.len() as int)),
{
    let pre = eps.subrange(0, k);
    let one = seq![eps[k]];
    let post = eps.subrange(k + 1, eps.len() as int);
    assert(eps =~= (pre + one) + post);
    lemma_endpoint_lines_concat(f, pkg, pre + one, post);
    lemma_endpoint_lines_concat(f, pkg, pre, one);
    assert(one.drop_last() =~= Seq::<usize>::empty());
    assert(one.last() == eps[k]);
    assert(endpoint_lines(f, pkg, one.drop_last()) == Seq::<char>::empty());
    assert(endpoint_lines(f, pkg, one) =~= Seq::<char>::empty() + rpc_line(f, pkg, eps[k] as int));
    assert(endpoint_lines(f, pkg, one) =~= rpc_line(f, pkg, eps[k] as int));
}

/// The block of service `s` inside package `pkg`: its name, then one rpc
/// line per endpoint.
pub open spec fn service_block(f: &Forest, pkg: Seq<char>, s: int) -> Seq<char> {
    let sv = f.services@[s];
    "service "@ + sv.name@ + " {\n"@ + endpoint_lines(f, pkg, sv.endpoints@) + "}\n"@
}

/// A file holds one service block per service, in the order of the
/// services.
pub proof fn lemma_service_blocks_each(f: &Forest, pkg: Seq<char>, ss: Seq<usize>)
    ensures
        service_blocks(f, pkg, ss) == ss.map_values(|s: usize| service_block(f, pkg, s as int)).flatten(),
    decreases ss.len(),
{
    let m = ss.map_values(|s: usize| service_block(f, pkg, s as int));
    m.lemma_flatten_and_flatten_alt_are_equivalent();
    if ss.len() > 0 {
        let d = ss.drop_last().map_values(|s: usize| service_block(f, pkg, s as int));
        assert(m.drop_last() =~= d);
        d.lemma_flatten_and_flatten_alt_are_equivalent();
        lemma_service_blocks_each(f, pkg, ss.drop_last());
        assert(m.last() == service_block(f, pkg, ss.last() as int));
        assert(service_blocks(f, pkg, ss) =~= service_blocks(f, pkg, ss.drop_last()) + service_block(
            f,
            pkg,
            ss.last() as int,
        ));
    } else {
        assert(m.flatten_alt() =~= Seq::<char>::empty());
    }
}

/// The empty message of type `t`.
pub open spec fn message_line(f: &Forest, t: int) -> Seq<char> {
    "message "@ + f.types@[t].name@ + " {}\n\n"@
}

/// A file holds one empty message per type, in the order of the types.
pub proof fn lemma_message_lines_each(f: &Forest, ts: Seq<usize>)
    ensures
        message_lines(f, ts) == ts.map_values(|t: usize| message_line(f, t as int)).flatten(),
    decreases ts.len(),
{
    let m = ts.map_values(|t: usize| message_line(f, t as int));
    m.lemma_flatten_and_flatten_alt_are_equivalent();
    if ts.len() > 0 {
        let d = ts.drop_last().map_values(|t: usize| message_line(f, t as int));
        assert(m.drop_last() =~= d);
        d.lemma_flatten_and_flatten_alt_are_equivalent();
        lemma_message_lines_each(f, ts.drop_last());
        assert(m.last() == message_line(f, ts.last() as int));
        assert(message_lines(f, ts) =~= message_lines(f, ts.drop_last()) + message_line(f, ts.last() as int));
    } else {
        assert(m.flatten_alt() =~= Seq::<char>::empty());
    }
}

/// The import line of package `p`.
pub open spec fn import_line_of(p: Seq<char>) -> Seq<char> {
    "import \""@ + proto_file_name(p) + "\";\n"@
}

/// A file holds one import line per package, in the order of the packages.
pub proof fn lemma_import_lines_each(ps: Seq<Seq<char>>)
    ensures
        import_lines(ps) == ps.map_values(|p: Seq<char>| import_line_of(p)).flatten(),
    decreases ps.len(),
{
    let m = ps.map_values(|p: Seq<char>| import_line_of(p));
    m.lemma_flatten_and_flatten_alt_are_equivalent();
    if ps.len() > 0 {
        let d = ps.drop_last().map_values(|p: Seq<char>| import_line_of(p));
        assert(m.drop_last() =~= d);
        d.lemma_flatten_and_flatten_alt_are_equivalent();
        lemma_import_lines_each(ps.drop_last());
        assert(m.last() == import_line_of(ps.last()));
        assert(import_lines(ps) =~= import_lines(ps.drop_last()) + import_line_of(ps.last()));
    } else {
        assert(m.flatten_alt() =~= Seq::<char>::empty());
    }
}

/// The packages other than `pkg` of the types `ts`, each once, in order of first mention.
pub open spec fn imports_fold(f: &Forest, pkg: Seq<char>, ts: Seq<usize>) -> Seq<Seq<char>>
    decreases ts.len(),
{
    if ts.len() == 0 {
        Seq::empty()
    } else {
        let acc = imports_fold(f, pkg, ts.drop_last());
        let ns = type_ns(f, ts.last() as int);
        if ns != pkg && !acc.contains(ns) {
            acc.push(ns)
        } else {
            acc
        }
    }
}

/// The types recorded in `u` for package `pkg`.
pub open spec fn usage_types(u: Seq<(Seq<char>, Seq<usize>)>, pkg: Seq<char>) -> Seq<usize> {
    match usage_find(u, pkg) {
        Some(k) => u[k].1,
        None => Seq::empty(),
    }
}

/// The proto file of namespace `i`: its imports, its package, a message for
/// each type of it in use and its services; none when it has neither. The
/// package line is a complete proto3 statement, `package N;`, also in the
/// file of a namespace that holds types only.
pub open spec fn namespace_file(f: &Forest, u: Seq<(Seq<char>, Seq<usize>)>, i: int) -> Option<
    (Seq<char>, Seq<char>),
> {
    let pkg = f.ns_path(i);
    let msgs = usage_types(u, pkg);
    let svcs = services_of(f.namespaces@[i].children@);
    if msgs.len() == 0 && svcs.len() == 0 {
        None
    } else {
        Some(
            (
                proto_file_name(pkg),
                "syntax = \"proto3\";\n"@ + import_lines(imports_fold(f, pkg, service_refs(f, svcs)))
                    + "\npackage "@ + pkg + ";\n\n"@ + message_lines(f, msgs) + service_blocks(f, pkg, svcs),
            ),
        )
    }
}

/// The proto files of the namespaces among `nodes`, in order.
pub open spec fn files_fold(f: &Forest, u: Seq<(Seq<char>, Seq<usize>)>, nodes: Seq<NamespaceChild>) -> Seq<
    (Seq<char>, Seq<char>),
>
    decreases nodes.len(),
{
    if nodes.len() == 0 {
        Seq::empty()
    } else {
        files_fold(f, u, nodes.drop_last()) + match nodes.last() {
            NamespaceChild::Namespace(i) => match namespace_file(f, u, i as int) {
                Some(x) => seq![x],
                None => Seq::empty(),
            },
            _ => Seq::empty(),
        }
    }
}

/// The proto files of a forest, by name and content.
pub open spec fn proto_files_spec(f: &Forest) -> Seq<(Seq<char>, Seq<char>)> {
    files_fold(f, usage_spec(f), forest_preorder(f))
}

pub open spec fn files_view(v: Seq<(String, String)>) -> Seq<(Seq<char>, Seq<char>)> {
    v.map_values(|e: (String, String)| (e.0@, e.1@))
}

/// Appends an import line for each package of `ps`.
fn append_import_lines(out: &mut String, ps: &Vec<String>)
    ensures
        final(out)@ == old(out)@ + import_lines(ps.deep_view()),
{
    let ghost pv = ps.deep_view();
    let mut k: usize = 0;
    assert(pv.subrange(0, 0) =~= Seq::<Seq<char>>::empty());
    assert(out@ =~= old(out)@ + import_lines(pv.subrange(0, 0)));
    while k < ps.len()
        invariant
            pv == ps.deep_view(),
            k <= pv.len(),
            out@ == old(out)@ + import_lines(pv.subrange(0, k as int)),
        decreases pv.len() - k,
    {
        let ghost before = out@;
        let name = replace_char(ps[k].as_str(), '.', '_');
        out.append("import \"fake_");
        out.append(name.as_str());
        out.append(".proto\";\n");
        proof {
            let sub = pv.subrange(0, k + 1);
            assert(sub.drop_last() =~= pv.subrange(0, k as int));
            assert(sub.last() == ps@[k as int]@);
            reveal_strlit("import \"fake_");
            reveal_strlit("import \"");
            reveal_strlit("fake_");
            reveal_strlit(".proto\";\n");
            reveal_strlit(".proto");
            reveal_strlit("\";\n");
            assert(out@ =~= before + "import \""@ + proto_file_name(sub.last()) + "\";\n"@);
        }
        k = k + 1;
    }
    assert(pv.subrange(0, pv.len() as int) =~= pv);
}

/// Appends an empty message for each type of `ts`.
fn append_message_lines(out: &mut String, f: &Forest, ts: &Vec<usize>)
    requires
        f.wf(),
        forall|k: int| 0 <= k < ts@.len() ==> #[trigger] ts@[k] < f.types@.len(),
    ensures
        final(out)@ == old(out)@ + message_lines(f, ts@),
{
    let mut k: usize = 0;
    assert(ts@.subrange(0, 0) =~= Seq::<usize>::empty());
    assert(out@ =~= old(out)@ + message_lines(f, ts@.subrange(0, 0)));
    while k < ts.len()
        invariant
            f.wf(),
            forall|j: int| 0 <= j < ts@.len() ==> #[trigger] ts@[j] < f.types@.len(),
            k <= ts@.len(),
            out@ == old(out)@ + message_lines(f, ts@.subrange(0, k as int)),
        decreases ts@.len() - k,
    {
        let ghost before = out@;
        let t = ts[k];
        assert(t < f.types@.len());
        out.append("message ");
        out.append(f.types[t].name.as_str());
        out.append(" {}\n\n");
        proof {
            let sub = ts@.subrange(0, k + 1);
            assert(sub.drop_last() =~= ts@.subrange(0, k as int));
            assert(sub.last() == t);
            assert(out@ =~= before + "message "@ + f.types@[t as int].name@ + " {}\n\n"@);
        }
        k = k + 1;
    }
    assert(ts@.subrange(0, ts@.len() as int) =~= ts@);
}

/// How type `t` is named inside package `pkg`.
fn type_ref_exec(f: &Forest, t: usize, pkg: &str) -> (r: String)
    requires
        f.wf(),
        t < f.types@.len(),
    ensures
        r@ == type_ref(f, t as int, pkg@),
{
    let ns = f.type_namespace_path(t);
    if !str_eq(ns.as_str(), pkg) {
        let mut r = ns;
        r.append(".");
        r.append(f.types[t].name.as_str());
        r
    } else {
        f.types[t].name.clone()
    }
}

/// Appends an rpc line for each endpoint of `eps`.
fn append_endpoint_lines(out: &mut String, f: &Forest, pkg: &str, eps: &Vec<usize>)
    requires
        f.wf(),
        forall|k: int| 0 <= k < eps@.len() ==> #[trigger] eps@[k] < f.endpoints@.len(),
    ensures
        final(out)@ == old(out)@ + endpoint_lines(f, pkg@, eps@),
{
    let mut k: usize = 0;
    assert(eps@.subrange(0, 0) =~= Seq::<usize>::empty());
    assert(out@ =~= old(out)@ + endpoint_lines(f, pkg@, eps@.subrange(0, 0)));
    while k < eps.len()
        invariant
            f.wf(),
            forall|j: int| 0 <= j < eps@.len() ==> #[trigger] eps@[j] < f.endpoints@.len(),
            k <= eps@.len(),
            out@ == old(out)@ + endpoint_lines(f, pkg@, eps@.subrange(0, k as int)),
        decreases eps@.len() - k,
    {
        let ghost before = out@;
        let e = eps[k];
        assert(e < f.endpoints@.len());
        let ep = &f.endpoints[e];
        let req = type_ref_exec(f, ep.request_type, pkg);
        let resp = type_ref_exec(f, ep.response_type, pkg);
        out.append("    rpc ");
        out.append(ep.name.as_str());
        out.append(" (");
        out.append(req.as_str());
        out.append(") returns (");
        out.append(resp.as_str());
        out.append(") {}\n");
        proof {
            let sub = eps@.subrange(0, k + 1);
            assert(sub.drop_last() =~= eps@.subrange(0, k as int));
            assert(sub.last() == e);
            assert(out@ =~= before + "    rpc "@ + ep.name@ + " ("@ + req@ + ") returns ("@ + resp@ + ") {}\n"@);
        }
        k = k + 1;
    }
    assert(eps@.subrange(0, eps@.len() as int) =~= eps@);
}

/// Appends a service block for each service of `ss`.
fn append_service_blocks(out: &mut String, f: &Forest, pkg: &str, ss: &Vec<usize>)
    requires
        f.wf(),
        forall|k: int| 0 <= k < ss@.len() ==> #[trigger] ss@[k] < f.services@.len(),
    ensures
        final(out)@ == old(out)@ + service_blocks(f, pkg@, ss@),
{
    let mut k: usize = 0;
    assert(ss@.subrange(0, 0) =~= Seq::<usize>::empty());
    assert(out@ =~= old(out)@ + service_blocks(f, pkg@, ss@.subrange(0, 0)));
    while k < ss.len()
        invariant
            f.wf(),
            forall|j: int| 0 <= j < ss@.len() ==> #[trigger] ss@[j] < f.services@.len(),
            k <= ss@.len(),
            out@ == old(out)@ + service_blocks(f, pkg@, ss@.subrange(0, k as int)),
        decreases ss@.len() - k,
    {
        let ghost before = out@;
        let s = ss[k];
        assert(s < f.services@.len());
        let sv = &f.services[s];
        out.append("service ");
        out.append(sv.name.as_str());
        out.append(" {\n");
        let ghost mid = out@;
        append_endpoint_lines(out, f, pkg, &sv.endpoints);
        out.append("}\n");
        proof {
            let sub = ss@.subrange(0, k + 1);
            assert(sub.drop_last() =~= ss@.subrange(0, k as int));
            assert(sub.last() == s);
            assert(out@ =~= before + "service "@ + sv.name@ + " {\n"@ + endpoint_lines(f, pkg@, sv.endpoints@)
                + "}\n"@);
        }
        k = k + 1;
    }
    assert(ss@.subrange(0, ss@.len() as int) =~= ss@);
}

/// The packages other than `pkg` of the types `ts`, each once, in order of first mention.
fn imports_of(f: &Forest, pkg: &str, ts: &Vec<usize>) -> (r: Vec<String>)
    requires
        f.wf(),
        forall|k: int| 0 <= k < ts@.len() ==> #[trigger] ts@[k] < f.types@.len(),
    ensures
        r.deep_view() == imports_fold(f, pkg@, ts@),
{
    let mut r: Vec<String> = Vec::new();
    let mut k: usize = 0;
    assert(ts@.subrange(0, 0) =~= Seq::<usize>::empty());
    assert(r.deep_view() =~= Seq::<Seq<char>>::empty());
    while k < ts.len()
        invariant
            f.wf(),
            forall|j: int| 0 <= j < ts@.len() ==> #[trigger] ts@[j] < f.types@.len(),
            k <= ts@.len(),
            r.deep_view() == imports_fold(f, pkg@, ts@.subrange(0, k as int)),
        decreases ts@.len() - k,
    {
        let t = ts[k];
        assert(t < f.types@.len());
        let ns = f.type_namespace_path(t);
        let ghost acc = r.deep_view();
        proof {
            let sub = ts@.subrange(0, k + 1);
            assert(sub.drop_last() =~= ts@.subrange(0, k as int));
            assert(sub.last() == t);
        }
        if !str_eq(ns.as_str(), pkg) {
            let mut found = false;
            let mut j: usize = 0;
            while j < r.len()
                invariant
                    acc == r.deep_view(),
                    j <= r@.len(),
                    found == exists|jj: int| 0 <= jj < j && acc[jj] == ns@,
                decreases r@.len() - j,
            {
                let eq = str_eq(r[j].as_str(), ns.as_str());
                assert(acc[j as int] == r@[j as int]@);
                if eq {
                    found = true;
                }
                j = j + 1;
            }
            proof {
                if found {
                    let jj = choose|jj: int| 0 <= jj < j && acc[jj] == ns@;
                    assert(acc.contains(ns@));
                } else {
                    assert(!acc.contains(ns@)) by {
                        if acc.contains(ns@) {
                            let jj = choose|jj: int| 0 <= jj < acc.len() && acc[jj] == ns@;
                            assert(0 <= jj < j && acc[jj] == ns@);
                        }
                    }
                }
            }
            if !found {
                let ghost nv = ns@;
                r.push(ns);
                assert(r.deep_view() =~= acc.push(nv));
            }
        }
        k = k + 1;
    }
    assert(ts@.subrange(0, ts@.len() as int) =~= ts@);
    r
}

/// The services among the children `cs` of a namespace, in order.
fn services_among(cs: &Vec<NamespaceChild>) -> (r: Vec<usize>)
    ensures
        r@ == services_of(cs@),
{
    let mut r: Vec<usize> = Vec::new();
    let mut k: usize = 0;
    assert(cs@.subrange(0, 0) =~= Seq::<NamespaceChild>::empty());
    while k < cs.len()
        invariant
            k <= cs@.len(),
            r@ == services_of(cs@.subrange(0, k as int)),
        decreases cs@.len() - k,
    {
        proof {
            let sub = cs@.subrange(0, k + 1);
            assert(sub.drop_last() =~= cs@.subrange(0, k as int));
            assert(sub.last() == cs@[k as int]);
        }
        match cs[k] {
            NamespaceChild::Service(s) => {
                r.push(s);
            },
            _ => {
                assert(r@ + Seq::<usize>::empty() =~= r@);
            },
        }
        k = k + 1;
    }
    assert(cs@.subrange(0, cs@.len() as int) =~= cs@);
    r
}

/// The types the endpoints of the services `ss` refer to, in order.
fn refs_of_services(f: &Forest, ss: &Vec<usize>) -> (r: Vec<usize>)
    requires
        f.wf(),
        forall|k: int| 0 <= k < ss@.len() ==> #[trigger] ss@[k] < f.services@.len(),
    ensures
        r@ == service_refs(f, ss@),
        forall|k: int| 0 <= k < r@.len() ==> #[trigger] r@[k] < f.types@.len(),
{
    let mut r: Vec<usize> = Vec::new();
    let mut n: usize = 0;
    assert(ss@.subrange(0, 0) =~= Seq::<usize>::empty());
    while n < ss.len()
        invariant
            f.wf(),
            forall|j: int| 0 <= j < ss@.len() ==> #[trigger] ss@[j] < f.services@.len(),
            n <= ss@.len(),
            r@ == service_refs(f, ss@.subrange(0, n as int)),
            forall|j: int| 0 <= j < r@.len() ==> #[trigger] r@[j] < f.types@.len(),
        decreases ss@.len() - n,
    {
        let s = ss[n];
        assert(s < f.services@.len());
        let eps = &f.services[s].endpoints;
        let ghost pre = r@;
        let mut k: usize = 0;
        assert(eps@.subrange(0, 0) =~= Seq::<usize>::empty());
        assert(pre + endpoint_refs(f, eps@.subrange(0, 0)) =~= pre);
        while k < eps.len()
            invariant
                f.wf(),
                s < f.services@.len(),
                *eps == f.services@[s as int].endpoints,
                k <= eps@.len(),
                r@ == pre + endpoint_refs(f, eps@.subrange(0, k as int)),
                forall|j: int| 0 <= j < r@.len() ==> #[trigger] r@[j] < f.types@.len(),
            decreases eps@.len() - k,
        {
            let e = eps[k];
            assert(e < f.endpoints@.len());
            let ghost before = r@;
            r.push(f.endpoints[e].request_type);
            r.push(f.endpoints[e].response_type);
            proof {
                let sub = eps@.subrange(0, k + 1);
                assert(sub.drop_last() =~= eps@.subrange(0, k as int));
                assert(sub.last() == e);
                assert(r@ =~= pre + endpoint_refs(f, sub));
            }
            k = k + 1;
        }
        proof {
            let sub = ss@.subrange(0, n + 1);
            assert(sub.drop_last() =~= ss@.subrange(0, n as int));
            assert(sub.last() == s);
            assert(eps@.subrange(0, eps@.len() as int) =~= eps@);
        }
        n = n + 1;
    }
    assert(ss@.subrange(0, ss@.len() as int) =~= ss@);
    r
}

impl<'a> ProtoFileBuilder<'a> {
    /// The types recorded for package `pkg`.
    fn usage_types_of(&self, pkg: &str) -> (r: Vec<usize>)
        ensures
            r@ == usage_types(self.spec_usage(), pkg@),
    {
        let ghost uv = usage_view(self.type_usage@);
        let mut k: usize = 0;
        while k < self.type_usage.len()
            invariant
                uv == usage_view(self.type_usage@),
                uv == self.spec_usage(),
                k <= uv.len(),
                forall|j: int| 0 <= j < k ==> uv[j].0 != pkg@,
            decreases uv.len() - k,
        {
            if str_eq(self.type_usage[k].0.as_str(), pkg) {
                proof { lemma_usage_find_at(uv, pkg@, k as int); }
                return self.type_usage[k].1.clone();
            }
            k = k + 1;
        }
        proof { lemma_usage_find(uv, pkg@); }
        Vec::new()
    }

    /// The proto file of namespace `i`, if it has services or types in use.
    fn render_namespace_file(&self, i: usize) -> (r: Option<(String, String)>)
        requires
            self.spec_forest().wf(),
            i < self.spec_forest().namespaces@.len(),
            usage_valid(self.spec_usage(), self.spec_forest().types@.len()),
        ensures
            match r {
                Some((n, c)) => namespace_file(&self.spec_forest(), self.spec_usage(), i as int) == Some((n@, c@)),
                None => namespace_file(&self.spec_forest(), self.spec_usage(), i as int) is None,
            },
    {
        let f = self.forest;
        let pkg = f.namespace_path(i);
        let msgs = self.usage_types_of(pkg.as_str());
        let svcs = services_among(&f.namespaces[i].children);
        if msgs.len() == 0 && svcs.len() == 0 {
            return None;
        }
        proof {
            let u = self.spec_usage();
            match usage_find(u, pkg@) {
                Some(kk) => {
                    lemma_usage_find(u, pkg@);
                    assert forall|j: int| 0 <= j < msgs@.len() implies #[trigger] msgs@[j] < f.types@.len() by {
                        assert(u[kk].1[j] < f.types@.len());
                    }
                },
                None => {},
            }
            assert forall|j: int| 0 <= j < svcs@.len() implies #[trigger] svcs@[j] < f.services@.len() by {
                lemma_services_of_valid(f, i as int, f.namespaces@[i as int].children@);
            }
        }
        let refs = refs_of_services(f, &svcs);
        let imports = imports_of(f, pkg.as_str(), &refs);
        let mut content = String::new();
        content.append("syntax = \"proto3\";\n");
        append_import_lines(&mut content, &imports);
        content.append("\npackage ");
        content.append(pkg.as_str());
        content.append(";\n\n");
        append_message_lines(&mut content, f, &msgs);
        append_service_blocks(&mut content, f, pkg.as_str(), &svcs);
        let mut name = String::new();
        name.append("fake_");
        let dotted = replace_char(pkg.as_str(), '.', '_');
        name.append(dotted.as_str());
        name.append(".proto");
        proof {
            assert(content@ =~= "syntax = \"proto3\";\n"@ + import_lines(imports_fold(f, pkg@, service_refs(f, svcs@)))
                + "\npackage "@ + pkg@ + ";\n\n"@ + message_lines(f, msgs@) + service_blocks(f, pkg@, svcs@));
            assert(name@ =~= proto_file_name(pkg@));
        }
        Some((name, content))
    }

    /// The proto files of the forest, by file name and content: one per
    /// namespace that has services or types that services use, in the order
    /// of the depth-first walk.
    pub fn build_all(&mut self) -> (r: Vec<(String, String)>)
        requires
            old(self).spec_forest().wf(),
        ensures
            final(self).spec_forest() == old(self).spec_forest(),
            final(self).spec_out_dir() == old(self).spec_out_dir(),
            files_view(r@) == proto_files_spec(&old(self).spec_forest()),
    {
        self.collect_type_usage();
        let f = self.forest;
        let nodes = f.preorder();
        proof { crate::tree::lemma_preorder_valid(f); }
        let mut out: Vec<(String, String)> = Vec::new();
        let mut n: usize = 0;
        assert(nodes@.subrange(0, 0) =~= Seq::<NamespaceChild>::empty());
        assert(files_view(out@) =~= Seq::<(Seq<char>, Seq<char>)>::empty());
        while n < nodes.len()
            invariant
                f.wf(),
                *f == self.spec_forest(),
                self.spec_usage() == usage_spec(f),
                usage_valid(self.spec_usage(), f.types@.len()),
                nodes@ == forest_preorder(f),
                forall|k: int| 0 <= k < nodes@.len() ==> crate::tree::node_valid(f, #[trigger] nodes@[k]),
                n <= nodes@.len(),
                files_view(out@) == files_fold(f, usage_spec(f), nodes@.subrange(0, n as int)),
            decreases nodes@.len() - n,
        {
            proof {
                let sub = nodes@.subrange(0, n + 1);
                assert(sub.drop_last() =~= nodes@.subrange(0, n as int));
                assert(sub.last() == nodes@[n as int]);
                assert(crate::tree::node_valid(f, nodes@[n as int]));
            }
            let ghost before = files_view(out@);
            match nodes[n] {
                NamespaceChild::Namespace(i) => {
                    match self.render_namespace_file(i) {
                        Some(x) => {
                            let ghost xv = (x.0@, x.1@);
                            out.push(x);
                            assert(files_view(out@) =~= before + seq![xv]);
                        },
                        None => {
                            assert(before + Seq::<(Seq<char>, Seq<char>)>::empty() =~= before);
                        },
                    }
                },
                _ => {
                    assert(before + Seq::<(Seq<char>, Seq<char>)>::empty() =~= before);
                },
            }
            n = n + 1;
        }
        assert(nodes@.subrange(0, nodes@.len() as int) =~= nodes@);
        out
    }
}

/// The services among the children of a namespace of a well-formed forest belong to it.
proof fn lemma_services_of_valid(f: &Forest, i: int, cs: Seq<NamespaceChild>)
    requires
        f.wf(),
        0 <= i < f.namespaces@.len(),
        forall|k: int| 0 <= k < cs.len() ==> f.child_ok(i, #[trigger] cs[k]),
    ensures
        forall|j: int| 0 <= j < services_of(cs).len() ==> #[trigger] services_of(cs)[j] < f.services@.len(),
    decreases cs.len(),
{
    if cs.len() > 0 {
        assert forall|k: int| 0 <= k < cs.drop_last().len() implies f.child_ok(i, #[trigger] cs.drop_last()[k]) by {
            assert(cs.drop_last()[k] == cs[k]);
        }
        lemma_services_of_valid(f, i, cs.drop_last());
        assert(f.child_ok(i, cs.last()));
        let pre = services_of(cs.drop_last());
        let tail = match cs.last() {
            NamespaceChild::Service(s) => seq![s],
            _ => Seq::<usize>::empty(),
        };
        assert(services_of(cs) == pre + tail);
        assert forall|j: int| 0 <= j < services_of(cs).len() implies #[trigger] services_of(cs)[j] < f.services@.len() by {
            if j < pre.len() {
                assert(services_of(cs)[j] == pre[j]);
            } else {
                assert(services_of(cs)[j] == tail[j - pre.len()]);
            }
        }
    }
}

/// Among nodes that are no services there is no service.
proof fn lemma_services_of_none(cs: Seq<NamespaceChild>)
    requires
        forall|k: int| 0 <= k < cs.len() ==> !(#[trigger] cs[k] is Service),
    ensures
        services_of(cs) == Seq::<usize>::empty(),
    decreases cs.len(),
{
    if cs.len() > 0 {
        assert(!(cs[cs.len() - 1] is Service));
        assert forall|k: int| 0 <= k < cs.drop_last().len() implies !(#[trigger] cs.drop_last()[k] is Service) by {
            assert(cs.drop_last()[k] == cs[k]);
        }
        lemma_services_of_none(cs.drop_last());
        assert(services_of(cs) =~= Seq::<usize>::empty());
    }
}

proof fn lemma_files_fold_none(f: &Forest, nodes: Seq<NamespaceChild>)
    requires
        f.wf(),
        f.services@.len() == 0,
        forall|k: int| 0 <= k < nodes.len() ==> node_valid(f, #[trigger] nodes[k]),
    ensures
        files_fold(f, Seq::empty(), nodes) == Seq::<(Seq<char>, Seq<char>)>::empty(),
    decreases nodes.len(),
{
    if nodes.len() > 0 {
        assert forall|k: int| 0 <= k < nodes.drop_last().len() implies node_valid(f, #[trigger] nodes.drop_last()[k]) by {
            assert(nodes.drop_last()[k] == nodes[k]);
        }
        lemma_files_fold_none(f, nodes.drop_last());
        assert(node_valid(f, nodes[nodes.len() - 1]));
        if let NamespaceChild::Namespace(i) = nodes.last() {
            let cs = f.namespaces@[i as int].children@;
            assert forall|k: int| 0 <= k < cs.len() implies !(#[trigger] cs[k] is Service) by {
                assert(f.child_ok(i as int, cs[k]));
            }
            lemma_services_of_none(cs);
            assert(usage_types(Seq::empty(), f.ns_path(i as int)) =~= Seq::<usize>::empty());
            assert(namespace_file(f, Seq::empty(), i as int) is None);
        }
        assert(files_fold(f, Seq::empty(), nodes) =~= Seq::<(Seq<char>, Seq<char>)>::empty());
    }
}

/// A forest without services gets no proto file at all: types that no
/// service uses are never written.
pub proof fn lemma_no_services_no_files(f: &Forest)
    requires
        f.wf(),
        f.services@.len() == 0,
    ensures
        proto_files_spec(f) == Seq::<(Seq<char>, Seq<char>)>::empty(),
{
    let nodes = forest_preorder(f);
    lemma_preorder_valid(f);
    assert forall|k: int| 0 <= k < nodes.len() implies !(#[trigger] nodes[k] is Service) by {
        assert(node_valid(f, nodes[k]));
    }
    lemma_services_of_none(nodes);
    assert(service_refs(f, Seq::<usize>::empty()) =~= Seq::<usize>::empty());
    assert(usage_fold(f, Seq::<usize>::empty()) =~= Seq::<(Seq<char>, Seq<usize>)>::empty());
    assert(usage_spec(f) == Seq::<(Seq<char>, Seq<usize>)>::empty());
    lemma_files_fold_none(f, nodes);
}

} // verus!
