use vstd::prelude::*;
use crate::schema::{
    ItemView, MethodDecl, MethodView, SchemaError, SchemaItem, items_view, lemma_service_count_concat,
    methods_view, scan_schema, scan_spec, service_count,
};
use crate::text::{
    find_char, find_char_spec, join_spec, lemma_find_char, lemma_join_push, lemma_rsplit_once,
    rsplit_once, rsplit_once_spec, lemma_join_split, lemma_split_pieces, lemma_split_join, lemma_rsplit_joined,
    lemma_rfind_char, lemma_split_len, lemma_split_nonempty, push_char,
    join, split, split_spec, str_eq,
};

verus! {

/// A node hanging below a namespace, by its index in the forest's arena of that kind.
#[derive(Clone, Copy, Debug, PartialEq, Eq, Structural)]
pub enum NamespaceChild {
    Namespace(usize),
    Service(usize),
    Type(usize),
}

/// One segment of a dotted namespace path.
#[derive(Debug)]
pub struct NamespaceNode {
    pub name: String,
    pub parent: Option<usize>,
    pub children: Vec<NamespaceChild>,
}

/// A table referenced by some rpc endpoint.
#[derive(Debug)]
pub struct TypeNode {
    pub name: String,
    pub parent: Option<usize>,
}

/// Two types are equal when their names are.
impl PartialEq for TypeNode {
    fn eq(&self, other: &Self) -> (r: bool) {
        str_eq(self.name.as_str(), other.name.as_str())
    }
}

impl vstd::std_specs::cmp::PartialEqSpecImpl for TypeNode {
    open spec fn obeys_eq_spec() -> bool {
        true
    }

    open spec fn eq_spec(&self, other: &Self) -> bool {
        self.name@ == other.name@
    }
}

impl Eq for TypeNode {}

/// An `rpc_service` declaration.
#[derive(Debug)]
pub struct ServiceNode {
    pub name: String,
    pub parent: Option<usize>,
    pub endpoints: Vec<usize>,
}

/// One rpc method of a service.
#[derive(Debug)]
pub struct EndpointNode {
    pub name: String,
    pub parent: Option<usize>,
    pub request_type: usize,
    pub response_type: usize,
    pub streaming: String,
}

/// The namespaces, services, endpoints and types of a set of schemas.
///
/// Nodes live in one arena per kind and refer to each other by index; a
/// namespace's parent always has a smaller index than the namespace itself.
/// `namespace_map` and `type_lookup` map each dotted path to its node.
#[derive(Debug)]
pub struct Forest {
    pub roots: Vec<usize>,
    pub namespaces: Vec<NamespaceNode>,
    pub types: Vec<TypeNode>,
    pub services: Vec<ServiceNode>,
    pub endpoints: Vec<EndpointNode>,
    pub type_lookup: Vec<(String, usize)>,
    pub namespace_map: Vec<(String, usize)>,
}

/// The names of namespace `i` of the arena `ns` and of its ancestors,
/// outermost first.
pub open spec fn chain_of(ns: Seq<NamespaceNode>, i: int) -> Seq<Seq<char>>
    decreases i,
{
    if 0 <= i < ns.len() {
        match ns[i].parent {
            Some(p) => if p < i {
                chain_of(ns, p as int).push(ns[i].name@)
            } else {
                seq![ns[i].name@]
            },
            None => seq![ns[i].name@],
        }
    } else {
        Seq::empty()
    }
}

/// The index of child `c` in the arena of its kind.
pub open spec fn child_index(c: NamespaceChild) -> int {
    match c {
        NamespaceChild::Namespace(j) => j as int,
        NamespaceChild::Service(s) => s as int,
        NamespaceChild::Type(t) => t as int,
    }
}

/// `a` and `b` are children of the same kind.
pub open spec fn same_kind(a: NamespaceChild, b: NamespaceChild) -> bool {
    ||| (a is Namespace && b is Namespace)
    ||| (a is Service && b is Service)
    ||| (a is Type && b is Type)
}

/// `s` holds no dot: it is a single path segment.
pub open spec fn no_dot(s: Seq<char>) -> bool {
    forall|k: int| 0 <= k < s.len() ==> s[k] != '.'
}

/// The separator of path segments.
pub open spec fn dot() -> Seq<char> {
    seq!['.']
}

impl Forest {
    /// The names of namespace `i` and of its ancestors, outermost first.
    pub open spec fn ns_chain(&self, i: int) -> Seq<Seq<char>> {
        chain_of(self.namespaces@, i)
    }

    /// The dotted path of namespace `i`, its own name included.
    pub open spec fn ns_path(&self, i: int) -> Seq<char> {
        join_spec(self.ns_chain(i), dot())
    }

    /// The names from the root namespace down to type `t`, its own name last.
    pub open spec fn type_chain(&self, t: int) -> Seq<Seq<char>> {
        match self.types@[t].parent {
            Some(p) => self.ns_chain(p as int).push(self.types@[t].name@),
            None => seq![self.types@[t].name@],
        }
    }

    /// The dotted, fully qualified name of type `t`.
    pub open spec fn type_path(&self, t: int) -> Seq<char> {
        join_spec(self.type_chain(t), dot())
    }

    pub open spec fn has_ns_path(&self, p: Seq<char>) -> bool {
        exists|i: int| 0 <= i < self.namespaces@.len() && #[trigger] self.ns_path(i) == p
    }

    pub open spec fn has_type_path(&self, p: Seq<char>) -> bool {
        exists|t: int| 0 <= t < self.types@.len() && #[trigger] self.type_path(t) == p
    }

    pub open spec fn child_ok(&self, i: int, c: NamespaceChild) -> bool {
        match c {
            NamespaceChild::Namespace(j) => i < j < self.namespaces@.len() && self.namespaces@[j as int].parent
                == Some(i as usize),
            NamespaceChild::Service(s) => s < self.services@.len() && self.services@[s as int].parent
                == Some(i as usize),
            NamespaceChild::Type(t) => t < self.types@.len() && self.types@[t as int].parent == Some(
                i as usize,
            ),
        }
    }

    pub open spec fn wf_namespaces(&self) -> bool {
        &&& forall|i: int|
            0 <= i < self.namespaces@.len() ==> match (#[trigger] self.namespaces@[i]).parent {
                Some(p) => p < i,
                None => true,
            }
        &&& forall|i: int, k: int|
            0 <= i < self.namespaces@.len() && 0 <= k < self.namespaces@[i].children@.len()
                ==> self.child_ok(i, #[trigger] self.namespaces@[i].children@[k])
        &&& forall|k: int|
            0 <= k < self.roots@.len() ==> #[trigger] self.roots@[k] < self.namespaces@.len()
                && self.namespaces@[self.roots@[k] as int].parent is None
        &&& forall|i: int|
            0 <= i < self.namespaces@.len() && (#[trigger] self.namespaces@[i]).parent is None
                ==> self.roots@.contains(i as usize)
        &&& self.roots@.no_duplicates()
        &&& self.namespace_map@.len() == self.namespaces@.len()
        &&& forall|k: int|
            0 <= k < self.namespace_map@.len() ==> (#[trigger] self.namespace_map@[k]).1 == k
                && self.namespace_map@[k].0@ == self.ns_path(k)
        &&& forall|i: int, j: int|
            0 <= i < self.namespaces@.len() && 0 <= j < self.namespaces@.len() && i != j
                ==> #[trigger] self.ns_path(i) != #[trigger] self.ns_path(j)
    }

    pub open spec fn wf_types(&self) -> bool {
        &&& forall|t: int|
            0 <= t < self.types@.len() ==> match (#[trigger] self.types@[t]).parent {
                Some(p) => p < self.namespaces@.len(),
                None => false,
            }
        &&& self.type_lookup@.len() == self.types@.len()
        &&& forall|k: int|
            0 <= k < self.type_lookup@.len() ==> (#[trigger] self.type_lookup@[k]).1 == k
                && self.type_lookup@[k].0@ == self.type_path(k)
        &&& forall|i: int, j: int|
            0 <= i < self.types@.len() && 0 <= j < self.types@.len() && i != j
                ==> #[trigger] self.type_path(i) != #[trigger] self.type_path(j)
    }

    pub open spec fn wf_services(&self) -> bool {
        &&& forall|s: int|
            0 <= s < self.services@.len() ==> match (#[trigger] self.services@[s]).parent {
                Some(p) => p < self.namespaces@.len(),
                None => false,
            }
        &&& forall|s: int, k: int|
            0 <= s < self.services@.len() && 0 <= k < self.services@[s].endpoints@.len()
                ==> #[trigger] self.services@[s].endpoints@[k] < self.endpoints@.len()
        &&& forall|e: int|
            0 <= e < self.endpoints@.len() ==> {
                let ep = #[trigger] self.endpoints@[e];
                &&& match ep.parent {
                    Some(s) => s < self.services@.len(),
                    None => false,
                }
                &&& ep.request_type < self.types@.len()
                &&& ep.response_type < self.types@.len()
            }
    }

    /// Names are single path segments; every namespace and type is listed
    /// once among the children of its parent namespace, and no child is
    /// listed twice.
    pub open spec fn wf_links(&self) -> bool {
        &&& forall|i: int| 0 <= i < self.namespaces@.len() ==> no_dot((#[trigger] self.namespaces@[i]).name@)
        &&& forall|t: int| 0 <= t < self.types@.len() ==> no_dot((#[trigger] self.types@[t]).name@)
        &&& forall|i: int|
            0 <= i < self.namespaces@.len() ==> (#[trigger] self.namespaces@[i]).children@.no_duplicates()
        &&& forall|j: int|
            0 <= j < self.namespaces@.len() && (#[trigger] self.namespaces@[j]).parent is Some
                ==> self.namespaces@[self.namespaces@[j].parent->0 as int].children@.contains(
                NamespaceChild::Namespace(j as usize),
            )
        &&& forall|t: int|
            0 <= t < self.types@.len() && (#[trigger] self.types@[t]).parent is Some
                ==> self.namespaces@[self.types@[t].parent->0 as int].children@.contains(
                NamespaceChild::Type(t as usize),
            )
        &&& forall|i: int, a: int, b: int|
            0 <= i < self.namespaces@.len() && 0 <= a < b < self.namespaces@[i].children@.len()
                && same_kind(
                #[trigger] self.namespaces@[i].children@[a],
                #[trigger] self.namespaces@[i].children@[b],
            ) ==> child_index(self.namespaces@[i].children@[a]) < child_index(
                self.namespaces@[i].children@[b],
            )
        &&& forall|a: int, b: int|
            0 <= a < b < self.roots@.len() ==> #[trigger] self.roots@[a] < #[trigger] self.roots@[b]
    }

    /// Every service is listed among the children of its namespace.
    pub open spec fn services_linked(&self) -> bool {
        forall|s: int|
            0 <= s < self.services@.len() && (#[trigger] self.services@[s]).parent is Some
                ==> self.namespaces@[self.services@[s].parent->0 as int].children@.contains(
                NamespaceChild::Service(s as usize),
            )
    }

    /// The arena invariants of the forest.
    pub open spec fn wf(&self) -> bool {
        &&& self.wf_links()
        &&& self.wf_namespaces()
        &&& self.wf_types()
        &&& self.wf_services()
    }

    /// `self` keeps every namespace of `old` with its name, parent and
    /// children, and adds new ones behind them.
    pub open spec fn ns_extends(&self, old: &Forest) -> bool {
        &&& old.namespaces@.len() <= self.namespaces@.len()
        &&& forall|i: int|
            0 <= i < old.namespaces@.len() ==> {
                &&& (#[trigger] self.namespaces@[i]).name == old.namespaces@[i].name
                &&& self.namespaces@[i].parent == old.namespaces@[i].parent
                &&& old.namespaces@[i].children@.len() <= self.namespaces@[i].children@.len()
                &&& self.namespaces@[i].children@.subrange(0, old.namespaces@[i].children@.len() as int)
                    == old.namespaces@[i].children@
            }
        &&& old.roots@.len() <= self.roots@.len()
        &&& self.roots@.subrange(0, old.roots@.len() as int) == old.roots@
    }
}

/// Namespace chains depend on nothing but the names and parents of the namespaces.
pub proof fn lemma_chain_frame(a: &Forest, b: &Forest, i: int)
    requires
        0 <= i < a.namespaces@.len() <= b.namespaces@.len(),
        forall|j: int|
            0 <= j < a.namespaces@.len() ==> (#[trigger] b.namespaces@[j]).name
                == a.namespaces@[j].name && b.namespaces@[j].parent == a.namespaces@[j].parent,
    ensures
        b.ns_chain(i) == a.ns_chain(i),
    decreases i,
{
    if let Some(p) = a.namespaces@[i].parent {
        if p < i {
            lemma_chain_frame(a, b, p as int);
        }
    }
    assert(b.namespaces@[i].name == a.namespaces@[i].name);
}

/// A namespace chain is never empty.
pub proof fn lemma_chain_nonempty(f: &Forest, i: int)
    requires
        0 <= i < f.namespaces@.len(),
    ensures
        f.ns_chain(i).len() >= 1,
    decreases i,
{
    if let Some(p) = f.namespaces@[i].parent {
        if p < i {
            lemma_chain_nonempty(f, p as int);
        }
    }
}

/// Type paths depend on nothing but the names and parents of the types and namespaces.
pub proof fn lemma_type_path_frame(a: &Forest, b: &Forest, t: int)
    requires
        0 <= t < a.types@.len() <= b.types@.len(),
        a.namespaces@.len() <= b.namespaces@.len(),
        match a.types@[t].parent {
            Some(p) => p < a.namespaces@.len(),
            None => true,
        },
        forall|j: int|
            0 <= j < a.namespaces@.len() ==> (#[trigger] b.namespaces@[j]).name
                == a.namespaces@[j].name && b.namespaces@[j].parent == a.namespaces@[j].parent,
        b.types@[t].name == a.types@[t].name,
        b.types@[t].parent == a.types@[t].parent,
    ensures
        b.type_path(t) == a.type_path(t),
{
    if let Some(p) = a.types@[t].parent {
        lemma_chain_frame(a, b, p as int);
    }
}

/// `f` lists no service among the children of a namespace that `o` did not
/// list there.
pub open spec fn services_kept(o: &Forest, f: &Forest) -> bool {
    forall|i: int, x: usize|
        0 <= i < f.namespaces@.len() && #[trigger] f.namespaces@[i].children@.contains(
            NamespaceChild::Service(x),
        ) ==> i < o.namespaces@.len() && o.namespaces@[i].children@.contains(NamespaceChild::Service(x))
}

proof fn lemma_services_kept_trans(a: &Forest, b: &Forest, c: &Forest)
    requires
        services_kept(a, b),
        services_kept(b, c),
    ensures
        services_kept(a, c),
{
}

/// A child list that grew by one child that is no service lists the same services.
proof fn lemma_push_no_service(cs: Seq<NamespaceChild>, c: NamespaceChild, x: usize)
    requires
        !(c is Service),
        cs.push(c).contains(NamespaceChild::Service(x)),
    ensures
        cs.contains(NamespaceChild::Service(x)),
{
    let k = choose|k: int| 0 <= k < cs.push(c).len() && cs.push(c)[k] == NamespaceChild::Service(x);
    assert(k < cs.len());
    assert(cs[k] == cs.push(c)[k]);
}

/// Adding type `t` below namespace `p`, as the last child of `p`, keeps the
/// links of the forest.
proof fn lemma_push_type_links(mid: &Forest, f: &Forest, p: int)
    requires
        mid.wf(),
        0 <= p < mid.namespaces@.len(),
        f.namespaces@.len() == mid.namespaces@.len(),
        forall|i: int|
            0 <= i < mid.namespaces@.len() && i != p ==> #[trigger] f.namespaces@[i] == mid.namespaces@[i],
        f.namespaces@[p].name == mid.namespaces@[p].name,
        f.namespaces@[p].parent == mid.namespaces@[p].parent,
        f.namespaces@[p].children@ == mid.namespaces@[p].children@.push(
            NamespaceChild::Type(mid.types.len()),
        ),
        f.types@.len() == mid.types@.len() + 1,
        forall|t: int| 0 <= t < mid.types@.len() ==> #[trigger] f.types@[t] == mid.types@[t],
        f.types@[mid.types@.len() as int].parent == Some(p as usize),
        no_dot(f.types@[mid.types@.len() as int].name@),
        f.roots == mid.roots,
    ensures
        f.wf_links(),
{
    assert forall|i: int, a: int, b: int|
        0 <= i < f.namespaces@.len() && 0 <= a < b < f.namespaces@[i].children@.len() && same_kind(
            #[trigger] f.namespaces@[i].children@[a],
            #[trigger] f.namespaces@[i].children@[b],
        ) implies child_index(f.namespaces@[i].children@[a]) < child_index(f.namespaces@[i].children@[b]) by {
        let oc = mid.namespaces@[i].children@;
        if i != p {
            assert(f.namespaces@[i] == mid.namespaces@[i]);
            assert(oc[a] == f.namespaces@[i].children@[a]);
        } else if b < oc.len() {
            assert(f.namespaces@[i].children@[a] == oc[a]);
            assert(f.namespaces@[i].children@[b] == oc[b]);
        } else {
            assert(f.namespaces@[i].children@[a] == oc[a]);
            assert(mid.child_ok(i, oc[a]));
        }
    }
    let t = mid.types@.len() as int;
    assert(f.types.len() == f.types@.len());
    assert(f.namespaces.len() == f.namespaces@.len());
    assert(mid.types.len() == t);
    assert forall|i: int| 0 <= i < f.namespaces@.len() implies no_dot((#[trigger] f.namespaces@[i]).name@) by {
        if i != p {
            assert(f.namespaces@[i] == mid.namespaces@[i]);
        }
    }
    assert forall|tt: int| 0 <= tt < f.types@.len() implies no_dot((#[trigger] f.types@[tt]).name@) by {
        if tt < t {
            assert(f.types@[tt] == mid.types@[tt]);
        }
    }
    assert forall|i: int| 0 <= i < f.namespaces@.len() implies (#[trigger] f.namespaces@[i]).children@.no_duplicates() by {
        if i != p {
            assert(f.namespaces@[i] == mid.namespaces@[i]);
        } else {
            let oc = mid.namespaces@[p].children@;
            assert(oc.no_duplicates());
            assert forall|k: int| 0 <= k < oc.len() implies oc[k] != NamespaceChild::Type(t as usize) by {
                assert(mid.child_ok(p, oc[k]));
            }
        }
    }
    assert forall|j: int|
        0 <= j < f.namespaces@.len() && (#[trigger] f.namespaces@[j]).parent is Some
        implies f.namespaces@[f.namespaces@[j].parent->0 as int].children@.contains(
            NamespaceChild::Namespace(j as usize)) by {
        if j != p {
            assert(f.namespaces@[j] == mid.namespaces@[j]);
        }
        let pj = mid.namespaces@[j].parent->0 as int;
        assert(mid.namespaces@[pj].children@.contains(NamespaceChild::Namespace(j as usize)));
        let k = choose|k: int| 0 <= k < mid.namespaces@[pj].children@.len() && mid.namespaces@[pj].children@[k] == NamespaceChild::Namespace(j as usize);
        if pj == p {
            assert(f.namespaces@[pj].children@[k] == mid.namespaces@[pj].children@[k]);
        } else {
            assert(f.namespaces@[pj] == mid.namespaces@[pj]);
        }
    }
    assert forall|tt: int|
        0 <= tt < f.types@.len() && (#[trigger] f.types@[tt]).parent is Some
        implies f.namespaces@[f.types@[tt].parent->0 as int].children@.contains(
            NamespaceChild::Type(tt as usize)) by {
        if tt < t {
            assert(f.types@[tt] == mid.types@[tt]);
            let pt = mid.types@[tt].parent->0 as int;
            assert(mid.namespaces@[pt].children@.contains(NamespaceChild::Type(tt as usize)));
            let k = choose|k: int| 0 <= k < mid.namespaces@[pt].children@.len() && mid.namespaces@[pt].children@[k] == NamespaceChild::Type(tt as usize);
            if pt == p {
                assert(f.namespaces@[pt].children@[k] == mid.namespaces@[pt].children@[k]);
            } else {
                assert(f.namespaces@[pt] == mid.namespaces@[pt]);
            }
        } else {
            let cs = f.namespaces@[p].children@;
            assert(cs[cs.len() - 1] == NamespaceChild::Type(t as usize));
        }
    }
}

impl Forest {
    /// An empty forest.
    pub fn new() -> (f: Forest)
        ensures
            f.wf(),
            f.namespaces@.len() == 0,
            f.types@.len() == 0,
            f.services@.len() == 0,
            f.endpoints@.len() == 0,
            f.roots@.len() == 0,
    {
        Forest {
            roots: Vec::new(),
            namespaces: Vec::new(),
            types: Vec::new(),
            services: Vec::new(),
            endpoints: Vec::new(),
            type_lookup: Vec::new(),
            namespace_map: Vec::new(),
        }
    }

    /// The namespace whose dotted path is `path`.
    pub fn lookup_namespace(&self, path: &str) -> (r: Option<usize>)
        requires
            self.wf(),
        ensures
            match r {
                Some(i) => i < self.namespaces@.len() && self.ns_path(i as int) == path@,
                None => !self.has_ns_path(path@),
            },
    {
        let mut k: usize = 0;
        while k < self.namespace_map.len()
            invariant
                self.wf(),
                k <= self.namespace_map@.len(),
                forall|j: int| 0 <= j < k ==> self.ns_path(j) != path@,
            decreases self.namespace_map@.len() - k,
        {
            if str_eq(self.namespace_map[k].0.as_str(), path) {
                return Some(self.namespace_map[k].1);
            }
            assert(self.namespace_map@[k as int].0@ == self.ns_path(k as int));
            k = k + 1;
        }
        None
    }

    /// The type whose fully qualified name is `fq_name`, by index.
    pub fn get_type(&self, fq_name: &str) -> (r: Option<usize>)
        requires
            self.wf(),
        ensures
            match r {
                Some(t) => t < self.types@.len() && self.type_path(t as int) == fq_name@,
                None => !self.has_type_path(fq_name@),
            },
    {
        let mut k: usize = 0;
        while k < self.type_lookup.len()
            invariant
                self.wf(),
                k <= self.type_lookup@.len(),
                forall|j: int| 0 <= j < k ==> self.type_path(j) != fq_name@,
            decreases self.type_lookup@.len() - k,
        {
            if str_eq(self.type_lookup[k].0.as_str(), fq_name) {
                return Some(self.type_lookup[k].1);
            }
            assert(self.type_lookup@[k as int].0@ == self.type_path(k as int));
            k = k + 1;
        }
        None
    }

    /// Adds a namespace called `name` below `parent`, whose dotted path is `path`.
    #[verifier::rlimit(40)]
    fn new_namespace(&mut self, name: String, parent: Option<usize>, path: String) -> (r: usize)
        requires
            old(self).wf(),
            match parent {
                Some(p) => p < old(self).namespaces@.len() && path@ == old(self).ns_path(p as int)
                    + dot() + name@,
                None => path@ == name@,
            },
            !old(self).has_ns_path(path@),
            no_dot(name@),
        ensures
            final(self).wf(),
            r == old(self).namespaces@.len(),
            final(self).namespaces@[r as int].children@ == Seq::<NamespaceChild>::empty(),
            forall|i: int|
                0 <= i < old(self).namespaces@.len() ==> #[trigger] final(self).namespaces@[i].children@
                    == if parent == Some(i as usize) {
                    old(self).namespaces@[i].children@.push(NamespaceChild::Namespace(r))
                } else {
                    old(self).namespaces@[i].children@
                },
            parent is None ==> final(self).roots@ == old(self).roots@.push(r),
            parent is Some ==> final(self).roots@ == old(self).roots@,
            services_kept(old(self), final(self)),
            final(self).namespaces@.len() == old(self).namespaces@.len() + 1,
            final(self).ns_path(r as int) == path@,
            final(self).namespaces@[r as int].name == name,
            final(self).namespaces@[r as int].parent == parent,
            final(self).ns_extends(old(self)),
            forall|i: int| 0 <= i < old(self).namespaces@.len() ==> #[trigger] final(self).ns_path(i)
                == old(self).ns_path(i),
            forall|q: Seq<char>| #[trigger] final(self).has_ns_path(q) <==> old(self).has_ns_path(q)
                || q == path@,
            final(self).types == old(self).types,
            final(self).services == old(self).services,
            final(self).endpoints == old(self).endpoints,
            final(self).type_lookup == old(self).type_lookup,
    {
        let n = self.namespaces.len();
        let ghost name_v = name@;
        self.namespaces.push(NamespaceNode { name, parent, children: Vec::new() });
        match parent {
            Some(p) => {
                self.namespaces[p].children.push(NamespaceChild::Namespace(n));
            },
            None => {
                self.roots.push(n);
            },
        }
        self.namespace_map.push((path, n));
        proof {
            let o = old(self);
            assert forall|j: int| 0 <= j < o.namespaces@.len() implies (#[trigger] self.namespaces@[j]).name
                == o.namespaces@[j].name && self.namespaces@[j].parent == o.namespaces@[j].parent by {}
            assert forall|i: int| 0 <= i < o.namespaces@.len() implies #[trigger] self.ns_path(i)
                == o.ns_path(i) by {
                lemma_chain_frame(o, self, i);
            }
            match parent {
                Some(p) => {
                    lemma_chain_nonempty(o, p as int);
                    lemma_chain_frame(o, self, p as int);
                    lemma_join_push(o.ns_chain(p as int), name_v, dot());
                },
                None => {},
            }
            assert(self.ns_path(n as int) == path@);
            assert forall|t: int| 0 <= t < self.types@.len() implies #[trigger] self.type_path(t)
                == o.type_path(t) by {
                lemma_type_path_frame(o, self, t);
            }
            assert forall|i: int, k: int|
                0 <= i < self.namespaces@.len() && 0 <= k < self.namespaces@[i].children@.len()
                implies self.child_ok(i, #[trigger] self.namespaces@[i].children@[k]) by {
                if i < n && k < o.namespaces@[i].children@.len() {
                    assert(self.namespaces@[i].children@[k] == o.namespaces@[i].children@[k]);
                    assert(o.child_ok(i, o.namespaces@[i].children@[k]));
                }
            }
            assert forall|i: int, j: int|
                0 <= i < self.namespaces@.len() && 0 <= j < self.namespaces@.len() && i != j
                implies #[trigger] self.ns_path(i) != #[trigger] self.ns_path(j) by {
                if i < n && j < n {
                    assert(o.ns_path(i) != o.ns_path(j));
                } else if i < n {
                    assert(o.ns_path(i) != path@);
                } else {
                    assert(o.ns_path(j) != path@);
                }
            }
            assert forall|i: int| 0 <= i < o.namespaces@.len() implies {
                &&& (#[trigger] self.namespaces@[i]).name == o.namespaces@[i].name
                &&& self.namespaces@[i].parent == o.namespaces@[i].parent
                &&& o.namespaces@[i].children@.len() <= self.namespaces@[i].children@.len()
                &&& self.namespaces@[i].children@.subrange(0, o.namespaces@[i].children@.len() as int)
                    == o.namespaces@[i].children@
            } by {
                assert(self.namespaces@[i].children@.subrange(0, o.namespaces@[i].children@.len() as int)
                    =~= o.namespaces@[i].children@);
            }
            assert(self.roots@.subrange(0, o.roots@.len() as int) =~= o.roots@);
            assert forall|i: int| 0 <= i < self.namespaces@.len() implies no_dot((#[trigger] self.namespaces@[i]).name@) by {
                if i < n {
                    assert(self.namespaces@[i].name == o.namespaces@[i].name);
                }
            }
            assert forall|i: int, x: usize|
                0 <= i < self.namespaces@.len() && #[trigger] self.namespaces@[i].children@.contains(
                    NamespaceChild::Service(x)) implies i < o.namespaces@.len()
                    && o.namespaces@[i].children@.contains(NamespaceChild::Service(x)) by {
                if i < n {
                    if parent == Some(i as usize) {
                        lemma_push_no_service(o.namespaces@[i].children@, NamespaceChild::Namespace(n), x);
                    }
                } else {
                    assert(self.namespaces@[i].children@.len() == 0);
                }
            }
            assert forall|i: int| 0 <= i < self.namespaces@.len() implies (#[trigger] self.namespaces@[i]).children@.no_duplicates() by {
                if i < n {
                    assert(o.namespaces@[i].children@.no_duplicates());
                    if parent == Some(i as usize) {
                        let oc = o.namespaces@[i].children@;
                        assert forall|k: int| 0 <= k < oc.len() implies oc[k] != NamespaceChild::Namespace(n) by {
                            assert(o.child_ok(i, oc[k]));
                        }
                        assert(self.namespaces@[i].children@ == oc.push(NamespaceChild::Namespace(n)));
                    }
                }
            }
            assert forall|j: int|
                0 <= j < self.namespaces@.len() && (#[trigger] self.namespaces@[j]).parent is Some
                implies self.namespaces@[self.namespaces@[j].parent->0 as int].children@.contains(
                    NamespaceChild::Namespace(j as usize)) by {
                let pj = self.namespaces@[j].parent->0 as int;
                if j < n {
                    assert(o.namespaces@[j].parent == self.namespaces@[j].parent);
                    assert(o.namespaces@[pj].children@.contains(NamespaceChild::Namespace(j as usize)));
                    let k = choose|k: int| 0 <= k < o.namespaces@[pj].children@.len() && o.namespaces@[pj].children@[k] == NamespaceChild::Namespace(j as usize);
                    assert(self.namespaces@[pj].children@[k] == o.namespaces@[pj].children@[k]);
                } else {
                    let cs = self.namespaces@[pj].children@;
                    assert(cs[cs.len() - 1] == NamespaceChild::Namespace(n));
                }
            }
            assert forall|t: int|
                0 <= t < self.types@.len() && (#[trigger] self.types@[t]).parent is Some
                implies self.namespaces@[self.types@[t].parent->0 as int].children@.contains(
                    NamespaceChild::Type(t as usize)) by {
                let pt = self.types@[t].parent->0 as int;
                assert(o.namespaces@[pt].children@.contains(NamespaceChild::Type(t as usize)));
                let k = choose|k: int| 0 <= k < o.namespaces@[pt].children@.len() && o.namespaces@[pt].children@[k] == NamespaceChild::Type(t as usize);
                assert(self.namespaces@[pt].children@[k] == o.namespaces@[pt].children@[k]);
            }
            assert forall|i: int|
                0 <= i < self.namespaces@.len() && (#[trigger] self.namespaces@[i]).parent is None
                implies self.roots@.contains(i as usize) by {
                if i < n {
                    assert(o.namespaces@[i].parent is None);
                    assert(o.roots@.contains(i as usize));
                    let k = choose|k: int| 0 <= k < o.roots@.len() && o.roots@[k] == i as usize;
                    assert(self.roots@[k] == i as usize);
                } else {
                    assert(parent is None);
                    assert(self.roots@[o.roots@.len() as int] == n);
                }
            }
            assert forall|a: int, b: int|
                0 <= a < self.roots@.len() && 0 <= b < self.roots@.len() && a != b
                implies self.roots@[a] != self.roots@[b] by {
                if a < o.roots@.len() && b < o.roots@.len() {
                    assert(self.roots@[a] == o.roots@[a]);
                    assert(self.roots@[b] == o.roots@[b]);
                } else if a < o.roots@.len() {
                    assert(o.roots@[a] < n);
                } else {
                    assert(o.roots@[b] < n);
                }
            }
            assert forall|q: Seq<char>| #[trigger] self.has_ns_path(q) <==> o.has_ns_path(q)
                || q == path@ by {
                if self.has_ns_path(q) {
                    let i = choose|i: int| 0 <= i < self.namespaces@.len() && #[trigger] self.ns_path(i) == q;
                    if i < n {
                        assert(o.ns_path(i) == q);
                    }
                }
                if o.has_ns_path(q) {
                    let i = choose|i: int| 0 <= i < o.namespaces@.len() && #[trigger] o.ns_path(i) == q;
                    assert(self.ns_path(i) == q);
                }
                if q == path@ {
                    assert(self.ns_path(n as int) == q);
                }
            }
        }
        n
    }

    /// The type a method of a service in namespace `current_ns` refers to by
    /// `reference`, created together with its namespaces if it is new.
    #[verifier::rlimit(60)]
    #[verifier::spinoff_prover]
    fn get_or_create_type(&mut self, current_ns: &str, reference: &str) -> (r: usize)
        requires
            old(self).wf(),
        ensures
            final(self).wf(),
            r < final(self).types@.len(),
            final(self).type_path(r as int) == resolve_type_name(current_ns@, reference@),
            old(self).has_type_path(resolve_type_name(current_ns@, reference@)) ==> *final(self)
                == *old(self),
            final(self).ns_extends(old(self)),
            final(self).namespaces@.len() <= old(self).namespaces@.len() + current_ns@.len()
                + reference@.len() + 2,
            forall|i: int| 0 <= i < old(self).namespaces@.len() ==> #[trigger] final(self).ns_path(i)
                == old(self).ns_path(i),
            forall|q: Seq<char>| #[trigger] final(self).has_ns_path(q) <==> old(self).has_ns_path(q)
                || (!old(self).has_type_path(resolve_type_name(current_ns@, reference@))
                && is_ns_prefix(type_namespace(resolve_type_name(current_ns@, reference@)), q)),
            final(self).types@.len() <= old(self).types@.len() + 1,
            final(self).types@.subrange(0, old(self).types@.len() as int) == old(self).types@,
            forall|t: int| 0 <= t < old(self).types@.len() ==> #[trigger] final(self).type_path(t)
                == old(self).type_path(t),
            forall|q: Seq<char>| #[trigger] final(self).has_type_path(q) <==> old(self).has_type_path(q)
                || q == resolve_type_name(current_ns@, reference@),
            final(self).services == old(self).services,
            final(self).endpoints == old(self).endpoints,
            services_kept(old(self), final(self)),
            !old(self).has_type_path(resolve_type_name(current_ns@, reference@)) ==> r == old(
                self,
            ).types@.len() && (final(self).types@[r as int].parent matches Some(p)
                && final(self).namespaces@[p as int].children@.last() == NamespaceChild::Type(r)),
    {
        let ghost res = resolve_type_name(current_ns@, reference@);
        let fq: String = if find_char(reference, '.').is_some() {
            reference.to_owned()
        } else {
            let mut s = current_ns.to_owned();
            push_char(&mut s, '.');
            s.append(reference);
            s
        };
        proof {
            lemma_find_char(reference@, '.');
            assert(fq@ == res);
            if find_char_spec(reference@, '.') is None {
                assert(fq@[current_ns@.len() as int] == '.');
            }
            lemma_rsplit_once(fq@, '.');
        }
        if let Some(t) = self.get_type(fq.as_str()) {
            proof {
                assert(self.has_type_path(fq@));
                lemma_ns_extends_refl(self);
                assert(self.types@.subrange(0, self.types@.len() as int) =~= self.types@);
            }
            return t;
        }
        let (ns_path, name) = rsplit_once(fq.as_str(), '.').unwrap();
        let ns_idx = self.ensure_namespace_chain(ns_path);
        let ghost mid = *self;
        let t = self.types.len();
        let ghost name_v = name@;
        self.types.push(TypeNode { name: name.to_owned(), parent: Some(ns_idx) });
        self.namespaces[ns_idx].children.push(NamespaceChild::Type(t));
        self.type_lookup.push((fq.clone(), t));
        proof {
            let o = old(self);
            assert(no_dot(name_v)) by {
                assert forall|j: int| 0 <= j < name_v.len() implies name_v[j] != '.' by {}
            }
            assert forall|i: int| 0 <= i < mid.namespaces@.len() && i != ns_idx implies #[trigger] self.namespaces@[i] == mid.namespaces@[i] by {}
            lemma_push_type_links(&mid, self, ns_idx as int);
            assert forall|i: int, x: usize|
                0 <= i < self.namespaces@.len() && #[trigger] self.namespaces@[i].children@.contains(
                    NamespaceChild::Service(x)) implies i < mid.namespaces@.len()
                    && mid.namespaces@[i].children@.contains(NamespaceChild::Service(x)) by {
                if i == ns_idx {
                    lemma_push_no_service(mid.namespaces@[i].children@, NamespaceChild::Type(t), x);
                } else {
                    assert(self.namespaces@[i] == mid.namespaces@[i]);
                }
            }
            lemma_services_kept_trans(o, &mid, self);
            assert forall|j: int| 0 <= j < mid.namespaces@.len() implies (#[trigger] self.namespaces@[j]).name
                == mid.namespaces@[j].name && self.namespaces@[j].parent == mid.namespaces@[j].parent by {}
            assert forall|i: int| 0 <= i < mid.namespaces@.len() implies #[trigger] self.ns_path(i)
                == mid.ns_path(i) by {
                lemma_chain_frame(&mid, self, i);
            }
            lemma_chain_nonempty(&mid, ns_idx as int);
            lemma_chain_frame(&mid, self, ns_idx as int);
            lemma_join_push(mid.ns_chain(ns_idx as int), name_v, dot());
            assert(fq@ =~= ns_path@ + dot() + name_v);
            assert(self.type_path(t as int) == fq@);
            assert forall|tt: int| 0 <= tt < o.types@.len() implies #[trigger] self.type_path(tt)
                == o.type_path(tt) by {
                lemma_type_path_frame(o, &mid, tt);
                lemma_type_path_frame(&mid, self, tt);
            }
            assert forall|i: int, k: int|
                0 <= i < self.namespaces@.len() && 0 <= k < self.namespaces@[i].children@.len()
                implies self.child_ok(i, #[trigger] self.namespaces@[i].children@[k]) by {
                if k < mid.namespaces@[i].children@.len() {
                    assert(self.namespaces@[i].children@[k] == mid.namespaces@[i].children@[k]);
                    assert(mid.child_ok(i, mid.namespaces@[i].children@[k]));
                }
            }
            assert forall|i: int, j: int|
                0 <= i < self.types@.len() && 0 <= j < self.types@.len() && i != j
                implies #[trigger] self.type_path(i) != #[trigger] self.type_path(j) by {
                if i < t && j < t {
                    assert(o.type_path(i) != o.type_path(j));
                } else if i < t {
                    assert(o.type_path(i) != fq@);
                } else {
                    assert(o.type_path(j) != fq@);
                }
            }
            assert forall|i: int| 0 <= i < mid.namespaces@.len() implies {
                &&& (#[trigger] self.namespaces@[i]).name == mid.namespaces@[i].name
                &&& self.namespaces@[i].parent == mid.namespaces@[i].parent
                &&& mid.namespaces@[i].children@.len() <= self.namespaces@[i].children@.len()
                &&& self.namespaces@[i].children@.subrange(0, mid.namespaces@[i].children@.len() as int)
                    == mid.namespaces@[i].children@
            } by {
                assert(self.namespaces@[i].children@.subrange(0, mid.namespaces@[i].children@.len() as int)
                    =~= mid.namespaces@[i].children@);
            }
            assert(self.roots@.subrange(0, mid.roots@.len() as int) =~= mid.roots@);
            lemma_ns_extends_trans(o, &mid, self);
            assert forall|q: Seq<char>| #[trigger] self.has_ns_path(q) <==> mid.has_ns_path(q) by {
                if self.has_ns_path(q) {
                    let i = choose|i: int| 0 <= i < self.namespaces@.len() && #[trigger] self.ns_path(i) == q;
                    assert(mid.ns_path(i) == q);
                }
                if mid.has_ns_path(q) {
                    let i = choose|i: int| 0 <= i < mid.namespaces@.len() && #[trigger] mid.ns_path(i) == q;
                    assert(self.ns_path(i) == q);
                }
            }
            assert forall|q: Seq<char>| #[trigger] self.has_type_path(q) <==> o.has_type_path(q)
                || q == fq@ by {
                if self.has_type_path(q) {
                    let i = choose|i: int| 0 <= i < self.types@.len() && #[trigger] self.type_path(i) == q;
                    if i < t {
                        assert(o.type_path(i) == q);
                    }
                }
                if o.has_type_path(q) {
                    let i = choose|i: int| 0 <= i < o.types@.len() && #[trigger] o.type_path(i) == q;
                    assert(self.type_path(i) == q);
                }
                if q == fq@ {
                    assert(self.type_path(t as int) == q);
                }
            }
            assert forall|i: int| 0 <= i < o.namespaces@.len() implies #[trigger] self.ns_path(i)
                == o.ns_path(i) by {
                assert(mid.ns_path(i) == o.ns_path(i));
            }
            assert(self.types@.subrange(0, o.types@.len() as int) =~= o.types@);
        }
        t
    }

    /// The namespace at dotted path `ns`, created together with every
    /// missing ancestor.
    fn ensure_namespace_chain(&mut self, ns: &str) -> (r: usize)
        requires
            old(self).wf(),
        ensures
            final(self).wf(),
            r < final(self).namespaces@.len(),
            final(self).ns_path(r as int) == ns@,
            final(self).ns_extends(old(self)),
            final(self).namespaces@.len() <= old(self).namespaces@.len() + ns@.len() + 1,
            forall|i: int| 0 <= i < old(self).namespaces@.len() ==> #[trigger] final(self).ns_path(i)
                == old(self).ns_path(i),
            forall|q: Seq<char>| #[trigger] final(self).has_ns_path(q) <==> old(self).has_ns_path(q)
                || is_ns_prefix(ns@, q),
            final(self).types == old(self).types,
            final(self).services == old(self).services,
            final(self).endpoints == old(self).endpoints,
            final(self).type_lookup == old(self).type_lookup,
            services_kept(old(self), final(self)),
            old(self).has_ns_path(ns@) ==> *final(self) == *old(self),
    {
        let segs = split(ns, '.');
        let ghost sv = split_spec(ns@, '.');
        proof {
            lemma_split_nonempty(ns@, '.');
            lemma_split_len(ns@, '.');
            lemma_join_split(ns@, '.');
        }
        let mut parent: Option<usize> = None;
        let mut path = String::new();
        let mut i: usize = 0;
        proof { lemma_ns_extends_refl(self); }
        while i < segs.len()
            invariant
                self.wf(),
                old(self).has_ns_path(ns@) ==> *self == *old(self),
                self.ns_extends(old(self)),
                services_kept(old(self), self),
                old(self).wf(),
                forall|j: int| 0 <= j < old(self).namespaces@.len() ==> #[trigger] self.ns_path(j)
                    == old(self).ns_path(j),
                self.types == old(self).types,
                self.services == old(self).services,
                self.endpoints == old(self).endpoints,
                self.type_lookup == old(self).type_lookup,
                segs.deep_view() == sv,
                sv == split_spec(ns@, '.'),
                1 <= sv.len() <= ns@.len() + 1,
                i <= segs@.len(),
                self.namespaces@.len() <= old(self).namespaces@.len() + i,
                i == 0 ==> parent is None && path@ == Seq::<char>::empty(),
                i > 0 ==> (parent matches Some(p) && p < self.namespaces@.len() && self.ns_path(
                    p as int,
                ) == path@ && path@ == prefix_path(ns@, i as int)),
                forall|q: Seq<char>| #[trigger] self.has_ns_path(q) <==> old(self).has_ns_path(q)
                    || exists|k: int| 1 <= k <= i && q == #[trigger] prefix_path(ns@, k),
            decreases segs@.len() - i,
        {
            let ghost before_path = path@;
            assert(segs.deep_view()[i as int] == segs@[i as int]@);
            if i > 0 {
                push_char(&mut path, '.');
            }
            path.append(segs[i].as_str());
            proof {
                let t = sv.subrange(0, i + 1);
                if i > 0 {
                    assert(t =~= sv.subrange(0, i as int).push(sv[i as int]));
                    lemma_join_push(sv.subrange(0, i as int), sv[i as int], dot());
                    assert(path@ =~= before_path + dot() + sv[i as int]);
                } else {
                    assert(t =~= seq![sv[0]]);
                    assert(path@ =~= sv[0]);
                }
                assert(path@ == prefix_path(ns@, i + 1));
            }
            match self.lookup_namespace(path.as_str()) {
                Some(j) => {
                    parent = Some(j);
                    proof {
                        assert forall|q: Seq<char>| #[trigger] self.has_ns_path(q) <==> old(self).has_ns_path(q)
                            || exists|k: int| 1 <= k <= i + 1 && q == #[trigger] prefix_path(ns@, k) by {
                            if q == prefix_path(ns@, i + 1) {
                                assert(self.ns_path(j as int) == q);
                            }
                            if exists|k: int| 1 <= k <= i + 1 && q == #[trigger] prefix_path(ns@, k) {
                                let k = choose|k: int| 1 <= k <= i + 1 && q == #[trigger] prefix_path(ns@, k);
                                if k <= i {
                                    assert(exists|k: int| 1 <= k <= i && q == #[trigger] prefix_path(ns@, k));
                                }
                            }
                        }
                    }
                },
                None => {
                    let name = segs[i].clone();
                    let ghost mid = *self;
                    proof {
                        if old(self).has_ns_path(ns@) {
                            lemma_prefixes_exist(old(self), ns@, i + 1);
                        }
                        lemma_split_pieces(ns@, '.');
                        assert(name@ == sv[i as int]);
                        assert forall|j: int| 0 <= j < name@.len() implies name@[j] != '.' by {
                            assert(sv[i as int][j] != '.');
                        }
                        match parent {
                            Some(p) => {
                                assert(path@ == self.ns_path(p as int) + dot() + name@);
                            },
                            None => {},
                        }
                    }
                    let j = self.new_namespace(name, parent, path.clone());
                    proof { lemma_services_kept_trans(old(self), &mid, self); }
                    parent = Some(j);
                    proof {
                        assert forall|q: Seq<char>| #[trigger] self.has_ns_path(q) <==> old(self).has_ns_path(q)
                            || exists|k: int| 1 <= k <= i + 1 && q == #[trigger] prefix_path(ns@, k) by {
                            assert(self.has_ns_path(q) <==> mid.has_ns_path(q) || q == path@);
                            if exists|k: int| 1 <= k <= i + 1 && q == #[trigger] prefix_path(ns@, k) {
                                let k = choose|k: int| 1 <= k <= i + 1 && q == #[trigger] prefix_path(ns@, k);
                                if k <= i {
                                    assert(exists|k: int| 1 <= k <= i && q == #[trigger] prefix_path(ns@, k));
                                }
                            }
                        }
                        assert forall|jj: int| 0 <= jj < old(self).namespaces@.len() implies #[trigger] self.ns_path(jj)
                            == old(self).ns_path(jj) by {
                            assert(mid.ns_path(jj) == old(self).ns_path(jj));
                        }
                        lemma_ns_extends_trans(old(self), &mid, self);
                    }
                },
            }
            i = i + 1;
        }
        proof {
            assert(sv.subrange(0, sv.len() as int) =~= sv);
        }
        parent.unwrap()
    }
}

/// Every leading part of the chain of namespace `i` is the chain of one of
/// its ancestors.
proof fn lemma_ancestor_chain(f: &Forest, i: int, k: int)
    requires
        f.wf(),
        0 <= i < f.namespaces@.len(),
        1 <= k <= f.ns_chain(i).len(),
    ensures
        exists|a: int| 0 <= a < f.namespaces@.len() && #[trigger] f.ns_chain(a) == f.ns_chain(i).subrange(0, k),
    decreases i,
{
    let c = f.ns_chain(i);
    if k == c.len() {
        assert(c.subrange(0, k) =~= c);
        assert(f.ns_chain(i) == c.subrange(0, k));
    } else {
        match f.namespaces@[i].parent {
            Some(p) => {
                assert(p < i);
                assert(c == f.ns_chain(p as int).push(f.namespaces@[i].name@));
                assert(c.subrange(0, k) =~= f.ns_chain(p as int).subrange(0, k));
                lemma_ancestor_chain(f, p as int, k);
            },
            None => {
                assert(c.len() == 1);
            },
        }
    }
}

/// When namespace `ns` exists, so does every namespace on its path.
proof fn lemma_prefixes_exist(f: &Forest, ns: Seq<char>, k: int)
    requires
        f.wf(),
        f.has_ns_path(ns),
        1 <= k <= split_spec(ns, '.').len(),
    ensures
        f.has_ns_path(prefix_path(ns, k)),
{
    let i = choose|i: int| 0 <= i < f.namespaces@.len() && #[trigger] f.ns_path(i) == ns;
    lemma_namespace_path(f, i);
    lemma_ancestor_chain(f, i, k);
    let a = choose|a: int| 0 <= a < f.namespaces@.len() && #[trigger] f.ns_chain(a) == f.ns_chain(i).subrange(0, k);
    assert(f.ns_path(a) == prefix_path(ns, k));
}

/// The fully qualified name that `reference` denotes inside namespace
/// `current`: a dotted reference is taken as it stands, a bare one lies in
/// `current`.
pub open spec fn resolve_type_name(current: Seq<char>, reference: Seq<char>) -> Seq<char> {
    if find_char_spec(reference, '.') is Some {
        reference
    } else {
        current + dot() + reference
    }
}

/// The namespace part of a fully qualified type name.
pub open spec fn type_namespace(fq: Seq<char>) -> Seq<char> {
    match rsplit_once_spec(fq, '.') {
        Some((ns, _)) => ns,
        None => Seq::empty(),
    }
}

/// The dotted path made of the first `k` segments of `ns`.
pub open spec fn prefix_path(ns: Seq<char>, k: int) -> Seq<char> {
    join_spec(split_spec(ns, '.').subrange(0, k), dot())
}

/// `q` is the path of `ns` or of one of its ancestors.
pub open spec fn is_ns_prefix(ns: Seq<char>, q: Seq<char>) -> bool {
    exists|k: int| 1 <= k <= split_spec(ns, '.').len() && q == #[trigger] prefix_path(ns, k)
}

pub proof fn lemma_ns_extends_refl(a: &Forest)
    ensures
        a.ns_extends(a),
{
    assert forall|i: int| 0 <= i < a.namespaces@.len() implies
        (#[trigger] a.namespaces@[i]).children@.subrange(0, a.namespaces@[i].children@.len() as int)
            == a.namespaces@[i].children@ by {
        assert(a.namespaces@[i].children@.subrange(0, a.namespaces@[i].children@.len() as int)
            =~= a.namespaces@[i].children@);
    }
    assert(a.roots@.subrange(0, a.roots@.len() as int) =~= a.roots@);
}

pub proof fn lemma_ns_extends_trans(a: &Forest, b: &Forest, c: &Forest)
    requires
        b.ns_extends(a),
        c.ns_extends(b),
    ensures
        c.ns_extends(a),
{
    assert forall|i: int| 0 <= i < a.namespaces@.len() implies {
        &&& (#[trigger] c.namespaces@[i]).name == a.namespaces@[i].name
        &&& c.namespaces@[i].parent == a.namespaces@[i].parent
        &&& a.namespaces@[i].children@.len() <= c.namespaces@[i].children@.len()
        &&& c.namespaces@[i].children@.subrange(0, a.namespaces@[i].children@.len() as int)
            == a.namespaces@[i].children@
    } by {
        let la = a.namespaces@[i].children@.len() as int;
        let lb = b.namespaces@[i].children@.len() as int;
        assert(b.namespaces@[i] == b.namespaces@[i]);
        assert(c.namespaces@[i].children@.subrange(0, la) =~= c.namespaces@[i].children@.subrange(0, lb).subrange(0, la));
        assert(b.namespaces@[i].children@.subrange(0, la) =~= a.namespaces@[i].children@);
    }
    assert(c.roots@.subrange(0, a.roots@.len() as int) =~= c.roots@.subrange(0, b.roots@.len() as int).subrange(0, a.roots@.len() as int));
}

/// An endpoint as the forest holds it: its name, the qualified names of its
/// request and response types, and its streaming kind.
pub struct EndpointView {
    pub name: Seq<char>,
    pub request: Seq<char>,
    pub response: Seq<char>,
    pub streaming: Seq<char>,
}

/// A service as the forest holds it: the path of its namespace, its name and
/// its endpoints in declaration order.
pub struct ServiceView {
    pub namespace: Seq<char>,
    pub name: Seq<char>,
    pub endpoints: Seq<EndpointView>,
}

/// The types the methods `ms` of a service in namespace `current` refer to.
pub open spec fn method_types(current: Seq<char>, ms: Seq<MethodView>) -> Set<Seq<char>> {
    Set::new(
        |t: Seq<char>|
            exists|k: int|
                0 <= k < ms.len() && (t == resolve_type_name(current, #[trigger] ms[k].request) || t
                    == resolve_type_name(current, ms[k].response)),
    )
}

/// The endpoint a method declared in namespace `current` becomes.
pub open spec fn endpoint_spec(current: Seq<char>, m: MethodView) -> EndpointView {
    EndpointView {
        name: m.name,
        request: resolve_type_name(current, m.request),
        response: resolve_type_name(current, m.response),
        streaming: m.streaming,
    }
}

/// The service a declaration in namespace `current` becomes.
pub open spec fn service_spec(current: Seq<char>, name: Seq<char>, ms: Seq<MethodView>) -> ServiceView {
    ServiceView {
        namespace: current,
        name,
        endpoints: ms.map_values(|m: MethodView| endpoint_spec(current, m)),
    }
}

impl Forest {
    pub open spec fn endpoint_view(&self, e: int) -> EndpointView {
        let ep = self.endpoints@[e];
        EndpointView {
            name: ep.name@,
            request: self.type_path(ep.request_type as int),
            response: self.type_path(ep.response_type as int),
            streaming: ep.streaming@,
        }
    }

    pub open spec fn service_view(&self, s: int) -> ServiceView {
        let sv = self.services@[s];
        ServiceView {
            namespace: match sv.parent {
                Some(p) => self.ns_path(p as int),
                None => Seq::empty(),
            },
            name: sv.name@,
            endpoints: Seq::new(
                sv.endpoints@.len(),
                |k: int| self.endpoint_view(sv.endpoints@[k] as int),
            ),
        }
    }

    /// The services of the forest in the order they were declared.
    pub open spec fn services_view(&self) -> Seq<ServiceView> {
        Seq::new(self.services@.len(), |s: int| self.service_view(s))
    }
}

/// Some type of `ts` that `old` lacks lies in namespace `q` or below it.
pub open spec fn new_type_namespace(old: &Forest, ts: Set<Seq<char>>, q: Seq<char>) -> bool {
    exists|t: Seq<char>|
        #[trigger] ts.contains(t) && !old.has_type_path(t) && is_ns_prefix(type_namespace(t), q)
}

/// Listing service `sv` last among the children of `p` keeps each kind of
/// children in the order of their indices.
proof fn lemma_push_service_order(bp: &Forest, f: &Forest, p: int, sv: int)
    requires
        bp.wf(),
        0 <= p < bp.namespaces@.len(),
        sv == bp.services@.len() - 1,
        0 <= sv,
        f.namespaces@.len() == bp.namespaces@.len(),
        forall|i: int|
            0 <= i < bp.namespaces@.len() && i != p ==> #[trigger] f.namespaces@[i] == bp.namespaces@[i],
        f.namespaces@[p].children@ == bp.namespaces@[p].children@.push(NamespaceChild::Service(sv as usize)),
        !bp.namespaces@[p].children@.contains(NamespaceChild::Service(sv as usize)),
    ensures
        forall|i: int, a: int, b: int|
            0 <= i < f.namespaces@.len() && 0 <= a < b < f.namespaces@[i].children@.len() && same_kind(
                #[trigger] f.namespaces@[i].children@[a],
                #[trigger] f.namespaces@[i].children@[b],
            ) ==> child_index(f.namespaces@[i].children@[a]) < child_index(f.namespaces@[i].children@[b]),
{
    assert(bp.services.len() == bp.services@.len());
    assert((sv as usize) as int == sv);
    assert forall|i: int, a: int, b: int|
        0 <= i < f.namespaces@.len() && 0 <= a < b < f.namespaces@[i].children@.len() && same_kind(
            #[trigger] f.namespaces@[i].children@[a],
            #[trigger] f.namespaces@[i].children@[b],
        ) implies child_index(f.namespaces@[i].children@[a]) < child_index(f.namespaces@[i].children@[b]) by {
        let oc = bp.namespaces@[i].children@;
        if i != p {
            assert(f.namespaces@[i] == bp.namespaces@[i]);
            assert(oc[a] == f.namespaces@[i].children@[a]);
            assert(oc[b] == f.namespaces@[i].children@[b]);
            assert(child_index(oc[a]) < child_index(oc[b]));
        } else if b < oc.len() {
            assert(f.namespaces@[i].children@[a] == oc[a]);
            assert(f.namespaces@[i].children@[b] == oc[b]);
            assert(child_index(oc[a]) < child_index(oc[b]));
        } else {
            assert(f.namespaces@[i].children@[a] == oc[a]);
            assert(f.namespaces@[i].children@[b] == NamespaceChild::Service(sv as usize));
            assert(bp.child_ok(i, oc[a]));
            assert(oc.contains(oc[a]));
            assert(oc[a] != NamespaceChild::Service(sv as usize));
            assert(oc[a] is Service);
            assert(child_index(oc[a]) < sv);
        }
    }
}

/// Listing service `sv` as the last child of its namespace `p` keeps the
/// links of the forest, and links every service when only `sv` was unlinked.
proof fn lemma_push_service_links(bp: &Forest, f: &Forest, p: int, sv: int)
    requires
        bp.wf(),
        0 <= p < bp.namespaces@.len(),
        sv == bp.services@.len() - 1,
        0 <= sv,
        f.namespaces@.len() == bp.namespaces@.len(),
        forall|i: int|
            0 <= i < bp.namespaces@.len() && i != p ==> #[trigger] f.namespaces@[i] == bp.namespaces@[i],
        f.namespaces@[p].name == bp.namespaces@[p].name,
        f.namespaces@[p].parent == bp.namespaces@[p].parent,
        f.namespaces@[p].children@ == bp.namespaces@[p].children@.push(NamespaceChild::Service(sv as usize)),
        !bp.namespaces@[p].children@.contains(NamespaceChild::Service(sv as usize)),
        f.types == bp.types,
        f.services == bp.services,
        bp.services@[sv].parent == Some(p as usize),
        f.roots == bp.roots,
        forall|ss: int|
            0 <= ss < bp.services@.len() && ss != sv && (#[trigger] bp.services@[ss]).parent is Some
                ==> bp.namespaces@[bp.services@[ss].parent->0 as int].children@.contains(
                NamespaceChild::Service(ss as usize),
            ),
    ensures
        f.wf_links(),
        f.services_linked(),
{
    lemma_push_service_order(bp, f, p, sv);
    assert(f.namespaces.len() == f.namespaces@.len());
    assert(f.types.len() == f.types@.len());
    assert(f.services.len() == f.services@.len());
    assert forall|i: int| 0 <= i < f.namespaces@.len() implies no_dot((#[trigger] f.namespaces@[i]).name@) by {
        if i != p {
            assert(f.namespaces@[i] == bp.namespaces@[i]);
        }
    }
    assert forall|i: int| 0 <= i < f.namespaces@.len() implies (#[trigger] f.namespaces@[i]).children@.no_duplicates() by {
        if i != p {
            assert(f.namespaces@[i] == bp.namespaces@[i]);
        } else {
            assert(bp.namespaces@[p].children@.no_duplicates());
        }
    }
    assert forall|j: int|
        0 <= j < f.namespaces@.len() && (#[trigger] f.namespaces@[j]).parent is Some
        implies f.namespaces@[f.namespaces@[j].parent->0 as int].children@.contains(
            NamespaceChild::Namespace(j as usize)) by {
        if j != p {
            assert(f.namespaces@[j] == bp.namespaces@[j]);
        }
        let pj = bp.namespaces@[j].parent->0 as int;
        assert(bp.namespaces@[pj].children@.contains(NamespaceChild::Namespace(j as usize)));
        let k = choose|k: int| 0 <= k < bp.namespaces@[pj].children@.len() && bp.namespaces@[pj].children@[k] == NamespaceChild::Namespace(j as usize);
        if pj == p {
            assert(f.namespaces@[pj].children@[k] == bp.namespaces@[pj].children@[k]);
        } else {
            assert(f.namespaces@[pj] == bp.namespaces@[pj]);
        }
    }
    assert forall|tt: int|
        0 <= tt < f.types@.len() && (#[trigger] f.types@[tt]).parent is Some
        implies f.namespaces@[f.types@[tt].parent->0 as int].children@.contains(
            NamespaceChild::Type(tt as usize)) by {
        let pt = bp.types@[tt].parent->0 as int;
        assert(bp.namespaces@[pt].children@.contains(NamespaceChild::Type(tt as usize)));
        let k = choose|k: int| 0 <= k < bp.namespaces@[pt].children@.len() && bp.namespaces@[pt].children@[k] == NamespaceChild::Type(tt as usize);
        if pt == p {
            assert(f.namespaces@[pt].children@[k] == bp.namespaces@[pt].children@[k]);
        } else {
            assert(f.namespaces@[pt] == bp.namespaces@[pt]);
        }
    }
    assert forall|ss: int|
        0 <= ss < f.services@.len() && (#[trigger] f.services@[ss]).parent is Some
        implies f.namespaces@[f.services@[ss].parent->0 as int].children@.contains(
            NamespaceChild::Service(ss as usize)) by {
        if ss == sv {
            let cs = f.namespaces@[p].children@;
            assert(cs[cs.len() - 1] == NamespaceChild::Service(sv as usize));
        } else {
            let ps = bp.services@[ss].parent->0 as int;
            assert(bp.namespaces@[ps].children@.contains(NamespaceChild::Service(ss as usize)));
            let k = choose|k: int| 0 <= k < bp.namespaces@[ps].children@.len() && bp.namespaces@[ps].children@[k] == NamespaceChild::Service(ss as usize);
            if ps == p {
                assert(f.namespaces@[ps].children@[k] == bp.namespaces@[ps].children@[k]);
            } else {
                assert(f.namespaces@[ps] == bp.namespaces@[ps]);
            }
        }
    }
}

/// Services stay listed while the namespaces' children only grow.
proof fn lemma_services_linked_grow(o: &Forest, f: &Forest)
    requires
        o.wf(),
        o.services_linked(),
        f.services == o.services,
        f.ns_extends(o),
    ensures
        f.services_linked(),
{
    assert forall|ss: int|
        0 <= ss < f.services@.len() && (#[trigger] f.services@[ss]).parent is Some
        implies f.namespaces@[f.services@[ss].parent->0 as int].children@.contains(
            NamespaceChild::Service(ss as usize)) by {
        let ps = o.services@[ss].parent->0 as int;
        let oc = o.namespaces@[ps].children@;
        assert(oc.contains(NamespaceChild::Service(ss as usize)));
        let kk = choose|kk: int| 0 <= kk < oc.len() && oc[kk] == NamespaceChild::Service(ss as usize);
        assert(f.namespaces@[ps].children@.subrange(0, oc.len() as int) == oc);
        assert(f.namespaces@[ps].children@[kk] == oc[kk]);
    }
}

impl Forest {
    /// Adds the service `name` with `methods` to namespace `current_ns`,
    /// listed as the last child of that namespace.
    #[verifier::rlimit(100)]
    #[verifier::spinoff_prover]
    fn add_service(&mut self, current_ns: &str, name: &str, methods: &Vec<MethodDecl>) -> (r: Result<
        (),
        SchemaError,
    >)
        requires
            old(self).wf(),
            old(self).services_linked(),
        ensures
            final(self).wf(),
            final(self).services_linked(),
            r is Ok ==> final(self).services@.len() == old(self).services@.len() + 1,
            r is Ok ==> (final(self).services@[old(self).services@.len() as int].parent matches Some(p)
                && final(self).namespaces@[p as int].children@.last() == NamespaceChild::Service(
                old(self).services.len(),
            )),
            r == Err::<(), SchemaError>(SchemaError::ServiceOutsideNamespace) <==> !old(
                self,
            ).has_ns_path(current_ns@),
            r is Err ==> r == Err::<(), SchemaError>(SchemaError::ServiceOutsideNamespace),
            r is Ok ==> {
                &&& final(self).services_view() == old(self).services_view().push(
                    service_spec(current_ns@, name@, methods_view(methods@)),
                )
                &&& forall|q: Seq<char>| #[trigger] final(self).has_type_path(q) <==> old(
                    self,
                ).has_type_path(q) || method_types(current_ns@, methods_view(methods@)).contains(q)
                &&& forall|q: Seq<char>| #[trigger] final(self).has_ns_path(q) <==> old(
                    self,
                ).has_ns_path(q) || new_type_namespace(
                    old(self),
                    method_types(current_ns@, methods_view(methods@)),
                    q,
                )
            },
    {
        let ns_idx = match self.lookup_namespace(current_ns) {
            Some(i) => i,
            None => return Err(SchemaError::ServiceOutsideNamespace),
        };
        assert(old(self).has_ns_path(current_ns@)) by {
            assert(old(self).ns_path(ns_idx as int) == current_ns@);
        }
        let ghost o = *old(self);
        let ghost msv = methods_view(methods@);
        assert(o.has_ns_path(current_ns@)) by {
            assert(o.ns_path(ns_idx as int) == current_ns@);
        }
        let s = self.services.len();
        let e0 = self.endpoints.len();
        self.services.push(ServiceNode { name: name.to_owned(), parent: Some(ns_idx), endpoints: Vec::new() });
        proof {
            lemma_same_arenas(&o, self);
            assert forall|ss: int| 0 <= ss < s implies #[trigger] self.service_view(ss) == o.service_view(ss) by {
                lemma_service_view_frame(&o, self, ss);
            }
            lemma_ns_extends_refl(&o);
            assert forall|i: int, kk: int|
                0 <= i < self.namespaces@.len() && 0 <= kk < self.namespaces@[i].children@.len()
                implies self.child_ok(i, #[trigger] self.namespaces@[i].children@[kk]) by {
                assert(o.child_ok(i, o.namespaces@[i].children@[kk]));
            }
            assert forall|ss: int, j: int|
                0 <= ss < self.services@.len() && 0 <= j < self.services@[ss].endpoints@.len()
                implies #[trigger] self.services@[ss].endpoints@[j] < self.endpoints@.len() by {
                assert(self.services@[ss] == o.services@[ss]);
            }
            assert forall|q: Seq<char>| #[trigger] self.has_type_path(q) <==> o.has_type_path(q)
                || Set::<Seq<char>>::empty().contains(q) by {}
            assert forall|q: Seq<char>| #[trigger] self.has_ns_path(q) <==> o.has_ns_path(q)
                || new_type_namespace(&o, Set::<Seq<char>>::empty(), q) by {}
            assert(method_types(current_ns@, msv.subrange(0, 0)) =~= Set::<Seq<char>>::empty());
        }
        let mut k: usize = 0;
        while k < methods.len()
            invariant
                o == *old(self),
                o.wf(),
                self.wf(),
                msv == methods_view(methods@),
                ns_idx < o.namespaces@.len(),
                o.ns_path(ns_idx as int) == current_ns@,
                s == o.services@.len(),
                e0 == o.endpoints@.len(),
                k <= methods@.len(),
                self.ns_extends(&o),
                forall|i: int| 0 <= i < o.namespaces@.len() ==> #[trigger] self.ns_path(i)
                    == o.ns_path(i),
                o.types@.len() <= self.types@.len(),
                forall|t: int| 0 <= t < o.types@.len() ==> #[trigger] self.type_path(t)
                    == o.type_path(t),
                self.services@.len() == s + 1,
                services_kept(&o, self),
                o.services_linked(),
                forall|ss: int| 0 <= ss < s ==> #[trigger] self.services@[ss] == o.services@[ss],
                forall|ss: int| 0 <= ss < s ==> #[trigger] self.service_view(ss) == o.service_view(ss),
                self.services@[s as int].name@ == name@,
                self.services@[s as int].parent == Some(ns_idx),
                self.services@[s as int].endpoints@.len() == k,
                self.endpoints@.len() == e0 + k,
                forall|j: int| 0 <= j < k ==> #[trigger] self.services@[s as int].endpoints@[j] == e0 + j,
                forall|j: int| 0 <= j < k ==> #[trigger] self.endpoint_view(e0 + j) == endpoint_spec(
                    current_ns@,
                    msv[j],
                ),
                forall|q: Seq<char>| #[trigger] self.has_type_path(q) <==> o.has_type_path(q)
                    || method_types(current_ns@, msv.subrange(0, k as int)).contains(q),
                forall|q: Seq<char>| #[trigger] self.has_ns_path(q) <==> o.has_ns_path(q)
                    || new_type_namespace(&o, method_types(current_ns@, msv.subrange(0, k as int)), q),
            decreases methods@.len() - k,
        {
            let m = &methods[k];
            let ghost t_k = method_types(current_ns@, msv.subrange(0, k as int));
            let ghost res_req = resolve_type_name(current_ns@, m.request@);
            let ghost res_resp = resolve_type_name(current_ns@, m.response@);
            let ghost before1 = *self;
            let req = self.get_or_create_type(current_ns, m.request.as_str());
            proof {
                lemma_type_step(&o, &before1, self, t_k, res_req);
                lemma_ns_extends_trans(&o, &before1, self);
            }
            let ghost before2 = *self;
            let resp = self.get_or_create_type(current_ns, m.response.as_str());
            proof {
                lemma_type_step(&o, &before2, self, t_k.insert(res_req), res_resp);
                lemma_ns_extends_trans(&o, &before2, self);
                assert(msv[k as int] == m@);
                lemma_method_types_step(current_ns@, msv, k as int);
                assert forall|t: int| 0 <= t < before1.types@.len() implies #[trigger] self.type_path(t)
                    == before1.type_path(t) by {
                    assert(before2.type_path(t) == before1.type_path(t));
                }
                assert forall|ss: int| 0 <= ss < s implies #[trigger] self.service_view(ss) == o.service_view(ss) by {
                    lemma_service_view_frame(&before1, self, ss);
                }
                assert forall|j: int| 0 <= j < k implies #[trigger] self.endpoint_view(e0 + j) == endpoint_spec(
                    current_ns@,
                    msv[j],
                ) by {
                    lemma_endpoint_view_frame(&before1, self, e0 + j);
                }
                assert(self.type_path(req as int) == res_req);
            }
            let e = self.endpoints.len();
            let ghost mid = *self;
            self.endpoints.push(
                EndpointNode {
                    name: m.name.clone(),
                    parent: Some(s),
                    request_type: req,
                    response_type: resp,
                    streaming: m.streaming.clone(),
                },
            );
            self.services[s].endpoints.push(e);
            proof {
                lemma_same_arenas(&mid, self);
                assert forall|ss: int| 0 <= ss < s implies #[trigger] self.service_view(ss) == o.service_view(ss) by {
                    lemma_service_view_frame(&mid, self, ss);
                }
                assert forall|j: int| 0 <= j < k + 1 implies #[trigger] self.endpoint_view(e0 + j)
                    == endpoint_spec(current_ns@, msv[j]) by {
                    if j < k {
                        lemma_endpoint_view_frame(&mid, self, e0 + j);
                    }
                }
                assert forall|j: int| 0 <= j < k + 1 implies #[trigger] self.services@[s as int].endpoints@[j]
                    == e0 + j by {
                    if j < k {
                        assert(self.services@[s as int].endpoints@[j] == mid.services@[s as int].endpoints@[j]);
                    }
                }
                assert forall|i: int, kk: int|
                    0 <= i < self.namespaces@.len() && 0 <= kk < self.namespaces@[i].children@.len()
                    implies self.child_ok(i, #[trigger] self.namespaces@[i].children@[kk]) by {
                    assert(mid.child_ok(i, mid.namespaces@[i].children@[kk]));
                }
                assert forall|ss: int, j: int|
                    0 <= ss < self.services@.len() && 0 <= j < self.services@[ss].endpoints@.len()
                    implies #[trigger] self.services@[ss].endpoints@[j] < self.endpoints@.len() by {
                    if ss != s {
                        assert(self.services@[ss] == mid.services@[ss]);
                    } else if j < k {
                        assert(self.services@[ss].endpoints@[j] == mid.services@[ss].endpoints@[j]);
                    }
                }
                assert forall|ee: int| 0 <= ee < self.endpoints@.len() implies {
                    let ep = #[trigger] self.endpoints@[ee];
                    &&& match ep.parent {
                        Some(ss) => ss < self.services@.len(),
                        None => false,
                    }
                    &&& ep.request_type < self.types@.len()
                    &&& ep.response_type < self.types@.len()
                } by {
                    if ee < e {
                        assert(self.endpoints@[ee] == mid.endpoints@[ee]);
                    }
                }
                assert forall|ss: int| 0 <= ss < self.services@.len() implies match (#[trigger] self.services@[ss]).parent {
                    Some(p) => p < self.namespaces@.len(),
                    None => false,
                } by {
                    assert(self.services@[ss].parent == mid.services@[ss].parent);
                }
            }
            k = k + 1;
        }
        let ghost before_push = *self;
        self.namespaces[ns_idx].children.push(NamespaceChild::Service(s));
        proof {
            let bp = before_push;
            assert(!bp.namespaces@[ns_idx as int].children@.contains(NamespaceChild::Service(s))) by {
                if bp.namespaces@[ns_idx as int].children@.contains(NamespaceChild::Service(s)) {
                    let oc = o.namespaces@[ns_idx as int].children@;
                    assert(oc.contains(NamespaceChild::Service(s)));
                    let kk = choose|kk: int| 0 <= kk < oc.len() && oc[kk] == NamespaceChild::Service(s);
                    assert(o.child_ok(ns_idx as int, oc[kk]));
                }
            }
            assert forall|ss: int|
                0 <= ss < bp.services@.len() && ss != s && (#[trigger] bp.services@[ss]).parent is Some
                implies bp.namespaces@[bp.services@[ss].parent->0 as int].children@.contains(
                    NamespaceChild::Service(ss as usize)) by {
                assert(bp.services@[ss] == o.services@[ss]);
                let ps = o.services@[ss].parent->0 as int;
                let oc = o.namespaces@[ps].children@;
                assert(oc.contains(NamespaceChild::Service(ss as usize)));
                let kk = choose|kk: int| 0 <= kk < oc.len() && oc[kk] == NamespaceChild::Service(ss as usize);
                assert(bp.namespaces@[ps].children@.subrange(0, oc.len() as int) == oc);
                assert(bp.namespaces@[ps].children@[kk] == oc[kk]);
            }
            assert forall|i: int| 0 <= i < bp.namespaces@.len() && i != ns_idx implies #[trigger] self.namespaces@[i] == bp.namespaces@[i] by {}
            lemma_push_service_links(&bp, self, ns_idx as int, s as int);
            assert forall|j: int| 0 <= j < before_push.namespaces@.len() implies (#[trigger] self.namespaces@[j]).name
                == before_push.namespaces@[j].name && self.namespaces@[j].parent == before_push.namespaces@[j].parent by {}
            assert forall|i: int| 0 <= i < before_push.namespaces@.len() implies #[trigger] self.ns_path(i)
                == before_push.ns_path(i) by {
                lemma_chain_frame(&before_push, self, i);
            }
            assert forall|t: int| 0 <= t < self.types@.len() implies #[trigger] self.type_path(t)
                == before_push.type_path(t) by {
                lemma_type_path_frame(&before_push, self, t);
            }
            assert forall|i: int, kk: int|
                0 <= i < self.namespaces@.len() && 0 <= kk < self.namespaces@[i].children@.len()
                implies self.child_ok(i, #[trigger] self.namespaces@[i].children@[kk]) by {
                if kk < before_push.namespaces@[i].children@.len() {
                    assert(self.namespaces@[i].children@[kk] == before_push.namespaces@[i].children@[kk]);
                    assert(before_push.child_ok(i, before_push.namespaces@[i].children@[kk]));
                }
            }
            assert forall|q: Seq<char>| #[trigger] self.has_ns_path(q) <==> before_push.has_ns_path(q) by {
                if self.has_ns_path(q) {
                    let i = choose|i: int| 0 <= i < self.namespaces@.len() && #[trigger] self.ns_path(i) == q;
                    assert(before_push.ns_path(i) == q);
                }
                if before_push.has_ns_path(q) {
                    let i = choose|i: int| 0 <= i < before_push.namespaces@.len() && #[trigger] before_push.ns_path(i) == q;
                    assert(self.ns_path(i) == q);
                }
            }
            assert forall|q: Seq<char>| #[trigger] self.has_type_path(q) <==> before_push.has_type_path(q) by {
                if self.has_type_path(q) {
                    let i = choose|i: int| 0 <= i < self.types@.len() && #[trigger] self.type_path(i) == q;
                    assert(before_push.type_path(i) == q);
                }
                if before_push.has_type_path(q) {
                    let i = choose|i: int| 0 <= i < before_push.types@.len() && #[trigger] before_push.type_path(i) == q;
                    assert(self.type_path(i) == q);
                }
            }
            assert(msv.subrange(0, msv.len() as int) =~= msv);
            assert forall|ss: int| 0 <= ss < self.services@.len() implies #[trigger] self.service_view(ss)
                == before_push.service_view(ss) by {
                assert(self.service_view(ss).endpoints =~= before_push.service_view(ss).endpoints);
            }
            let sv = service_spec(current_ns@, name@, msv);
            assert(self.service_view(s as int).endpoints =~= sv.endpoints);
            assert(self.service_view(s as int) == sv);
            assert(self.services_view() =~= o.services_view().push(sv));
        }
        Ok(())
    }
}

/// Forests with the same namespaces and types have the same paths.
pub proof fn lemma_same_arenas(a: &Forest, b: &Forest)
    requires
        a.namespaces@ == b.namespaces@,
        a.types@ == b.types@,
    ensures
        forall|i: int| #[trigger] b.ns_path(i) == a.ns_path(i),
        forall|t: int| 0 <= t < a.types@.len() ==> #[trigger] b.type_path(t) == a.type_path(t),
        forall|q: Seq<char>| #[trigger] b.has_ns_path(q) <==> a.has_ns_path(q),
        forall|q: Seq<char>| #[trigger] b.has_type_path(q) <==> a.has_type_path(q),
{
    assert forall|q: Seq<char>| #[trigger] b.has_ns_path(q) <==> a.has_ns_path(q) by {
        if b.has_ns_path(q) {
            let i = choose|i: int| 0 <= i < b.namespaces@.len() && #[trigger] b.ns_path(i) == q;
            assert(a.ns_path(i) == q);
        }
        if a.has_ns_path(q) {
            let i = choose|i: int| 0 <= i < a.namespaces@.len() && #[trigger] a.ns_path(i) == q;
            assert(b.ns_path(i) == q);
        }
    }
    assert forall|q: Seq<char>| #[trigger] b.has_type_path(q) <==> a.has_type_path(q) by {
        if b.has_type_path(q) {
            let i = choose|i: int| 0 <= i < b.types@.len() && #[trigger] b.type_path(i) == q;
            assert(a.type_path(i) == q);
        }
        if a.has_type_path(q) {
            let i = choose|i: int| 0 <= i < a.types@.len() && #[trigger] a.type_path(i) == q;
            assert(b.type_path(i) == q);
        }
    }
}

/// An endpoint looks the same while its node and the paths of the types stay.
pub proof fn lemma_endpoint_view_frame(a: &Forest, b: &Forest, e: int)
    requires
        a.wf(),
        0 <= e < a.endpoints@.len(),
        e < b.endpoints@.len(),
        b.endpoints@[e] == a.endpoints@[e],
        forall|t: int| 0 <= t < a.types@.len() ==> #[trigger] b.type_path(t) == a.type_path(t),
    ensures
        b.endpoint_view(e) == a.endpoint_view(e),
{
    let ep = a.endpoints@[e];
    assert(b.type_path(ep.request_type as int) == a.type_path(ep.request_type as int));
    assert(b.type_path(ep.response_type as int) == a.type_path(ep.response_type as int));
}

/// A service looks the same while its nodes and the paths stay.
pub proof fn lemma_service_view_frame(a: &Forest, b: &Forest, ss: int)
    requires
        a.wf(),
        0 <= ss < a.services@.len(),
        ss < b.services@.len(),
        b.services@[ss] == a.services@[ss],
        a.endpoints@.len() <= b.endpoints@.len(),
        forall|e: int| 0 <= e < a.endpoints@.len() ==> #[trigger] b.endpoints@[e] == a.endpoints@[e],
        forall|t: int| 0 <= t < a.types@.len() ==> #[trigger] b.type_path(t) == a.type_path(t),
        forall|i: int| 0 <= i < a.namespaces@.len() ==> #[trigger] b.ns_path(i) == a.ns_path(i),
    ensures
        b.service_view(ss) == a.service_view(ss),
{
    let sv = a.services@[ss];
    assert forall|k: int| 0 <= k < sv.endpoints@.len() implies #[trigger] b.endpoint_view(
        sv.endpoints@[k] as int,
    ) == a.endpoint_view(sv.endpoints@[k] as int) by {
        lemma_endpoint_view_frame(a, b, sv.endpoints@[k] as int);
    }
    assert(b.service_view(ss).endpoints =~= a.service_view(ss).endpoints);
}

/// The types of one more method.
pub proof fn lemma_method_types_step(c: Seq<char>, ms: Seq<MethodView>, k: int)
    requires
        0 <= k < ms.len(),
    ensures
        method_types(c, ms.subrange(0, k + 1)) == method_types(c, ms.subrange(0, k)).insert(
            resolve_type_name(c, ms[k].request),
        ).insert(resolve_type_name(c, ms[k].response)),
{
    let sub = ms.subrange(0, k + 1);
    let pre = ms.subrange(0, k);
    let rq = resolve_type_name(c, ms[k].request);
    let rs = resolve_type_name(c, ms[k].response);
    assert forall|t: Seq<char>| method_types(c, sub).contains(t) <==> method_types(c, pre).insert(rq).insert(
        rs,
    ).contains(t) by {
        if method_types(c, sub).contains(t) {
            let j = choose|j: int|
                0 <= j < sub.len() && (t == resolve_type_name(c, #[trigger] sub[j].request) || t
                    == resolve_type_name(c, sub[j].response));
            if j < k {
                assert(pre[j] == sub[j]);
                assert(t == resolve_type_name(c, pre[j].request) || t == resolve_type_name(c, pre[j].response));
            } else {
                assert(sub[j] == ms[k]);
            }
        }
        if method_types(c, pre).contains(t) {
            let j = choose|j: int|
                0 <= j < pre.len() && (t == resolve_type_name(c, #[trigger] pre[j].request) || t
                    == resolve_type_name(c, pre[j].response));
            assert(sub[j] == pre[j]);
            assert(t == resolve_type_name(c, sub[j].request) || t == resolve_type_name(c, sub[j].response));
        }
        if t == rq || t == rs {
            assert(sub[k] == ms[k]);
            assert(t == resolve_type_name(c, sub[k].request) || t == resolve_type_name(c, sub[k].response));
        }
    }
    assert(method_types(c, sub) =~= method_types(c, pre).insert(rq).insert(rs));
}

/// One more type `res` asked for: the forest gains it, and its namespaces if it was new.
proof fn lemma_type_step(o: &Forest, before: &Forest, after: &Forest, ts: Set<Seq<char>>, res: Seq<char>)
    requires
        forall|q: Seq<char>| #[trigger] before.has_type_path(q) <==> o.has_type_path(q) || ts.contains(q),
        forall|q: Seq<char>| #[trigger] before.has_ns_path(q) <==> o.has_ns_path(q) || new_type_namespace(o, ts, q),
        forall|q: Seq<char>| #[trigger] after.has_type_path(q) <==> before.has_type_path(q) || q == res,
        forall|q: Seq<char>| #[trigger] after.has_ns_path(q) <==> before.has_ns_path(q)
            || (!before.has_type_path(res) && is_ns_prefix(type_namespace(res), q)),
    ensures
        forall|q: Seq<char>| #[trigger] after.has_type_path(q) <==> o.has_type_path(q) || ts.insert(res).contains(q),
        forall|q: Seq<char>| #[trigger] after.has_ns_path(q) <==> o.has_ns_path(q) || new_type_namespace(o, ts.insert(res), q),
{
    assert forall|q: Seq<char>| #[trigger] after.has_ns_path(q) <==> o.has_ns_path(q) || new_type_namespace(o, ts.insert(res), q) by {
        if new_type_namespace(o, ts.insert(res), q) {
            let t = choose|t: Seq<char>|
                #[trigger] ts.insert(res).contains(t) && !o.has_type_path(t) && is_ns_prefix(type_namespace(t), q);
            if ts.contains(t) {
                assert(new_type_namespace(o, ts, q));
            } else if before.has_type_path(res) {
                assert(ts.contains(res));
                assert(new_type_namespace(o, ts, q));
            }
        }
        if new_type_namespace(o, ts, q) {
            let t = choose|t: Seq<char>| #[trigger] ts.contains(t) && !o.has_type_path(t) && is_ns_prefix(type_namespace(t), q);
            assert(ts.insert(res).contains(t));
        }
        if !before.has_type_path(res) && is_ns_prefix(type_namespace(res), q) {
            assert(ts.insert(res).contains(res));
        }
    }
}

/// What a forest holds, as sets of dotted paths and a list of services.
pub struct ForestModel {
    pub namespaces: Set<Seq<char>>,
    pub types: Set<Seq<char>>,
    pub services: Seq<ServiceView>,
}

impl Forest {
    /// The namespaces and types of the forest by their dotted paths, and its services.
    pub open spec fn model(&self) -> ForestModel {
        ForestModel {
            namespaces: Set::new(|q: Seq<char>| self.has_ns_path(q)),
            types: Set::new(|q: Seq<char>| self.has_type_path(q)),
            services: self.services_view(),
        }
    }
}

/// The model of an empty forest.
pub open spec fn empty_model() -> ForestModel {
    ForestModel { namespaces: Set::empty(), types: Set::empty(), services: Seq::empty() }
}

/// The paths of namespace `ns` and of all its ancestors.
pub open spec fn ns_prefixes(ns: Seq<char>) -> Set<Seq<char>> {
    Set::new(|q: Seq<char>| is_ns_prefix(ns, q))
}

/// The namespaces that the new types among `ts` bring into a forest of model `m`.
pub open spec fn new_namespaces(m: ForestModel, ts: Set<Seq<char>>) -> Set<Seq<char>> {
    Set::new(
        |q: Seq<char>|
            exists|t: Seq<char>|
                #[trigger] ts.contains(t) && !m.types.contains(t) && is_ns_prefix(type_namespace(t), q),
    )
}

/// One declaration read in namespace `current`: a namespace declaration adds
/// the namespace and its ancestors and becomes the current namespace; a
/// service declaration, refused outside an existing namespace, adds the
/// service, the types its methods name and those types' namespaces.
pub open spec fn apply_item_spec(m: ForestModel, current: Seq<char>, item: ItemView) -> Result<
    (ForestModel, Seq<char>),
    SchemaError,
> {
    match item {
        ItemView::Namespace(p) => Ok(
            (
                ForestModel {
                    namespaces: m.namespaces.union(ns_prefixes(p)),
                    types: m.types,
                    services: m.services,
                },
                p,
            ),
        ),
        ItemView::Service(name, ms) => if !m.namespaces.contains(current) {
            Err(SchemaError::ServiceOutsideNamespace)
        } else {
            let ts = method_types(current, ms);
            Ok(
                (
                    ForestModel {
                        namespaces: m.namespaces.union(new_namespaces(m, ts)),
                        types: m.types.union(ts),
                        services: m.services.push(service_spec(current, name, ms)),
                    },
                    current,
                ),
            )
        },
    }
}

/// The declarations `items` read one after the other, starting in namespace `current`.
pub open spec fn apply_items_spec(m: ForestModel, current: Seq<char>, items: Seq<ItemView>) -> Result<
    ForestModel,
    SchemaError,
>
    decreases items.len(),
{
    if items.len() == 0 {
        Ok(m)
    } else {
        match apply_item_spec(m, current, items[0]) {
            Err(e) => Err(e),
            Ok((m2, c2)) => apply_items_spec(m2, c2, items.drop_first()),
        }
    }
}

/// The forest of the schemas `sources`, read in order, each starting outside
/// any namespace.
pub open spec fn build_spec(sources: Seq<Seq<char>>) -> Result<ForestModel, SchemaError>
    decreases sources.len(),
{
    if sources.len() == 0 {
        Ok(empty_model())
    } else {
        match build_spec(sources.drop_last()) {
            Err(e) => Err(e),
            Ok(m) => match scan_spec(sources.last()) {
                Err(e) => Err(e),
                Ok(items) => apply_items_spec(m, Seq::empty(), items),
            },
        }
    }
}

/// Once the schemas read so far fail, reading more fails the same way.
proof fn lemma_build_err(sv: Seq<Seq<char>>, i: int, e: SchemaError)
    requires
        0 <= i <= sv.len(),
        build_spec(sv.subrange(0, i)) == Err::<ForestModel, SchemaError>(e),
    ensures
        build_spec(sv) == Err::<ForestModel, SchemaError>(e),
    decreases sv.len() - i,
{
    if i == sv.len() {
        assert(sv.subrange(0, i) =~= sv);
    } else {
        assert(sv.subrange(0, i + 1).drop_last() =~= sv.subrange(0, i));
        lemma_build_err(sv, i + 1, e);
    }
}

impl Forest {
    /// Reads the declarations `items` of one schema into the forest.
    fn apply_items(&mut self, items: &Vec<SchemaItem>) -> (r: Result<(), SchemaError>)
        requires
            old(self).wf(),
            old(self).services_linked(),
        ensures
            final(self).wf(),
            final(self).services_linked(),
            match r {
                Ok(()) => apply_items_spec(old(self).model(), Seq::empty(), items_view(items@))
                    == Ok::<ForestModel, SchemaError>(final(self).model()),
                Err(e) => apply_items_spec(
                    old(self).model(),
                    Seq::empty(),
                    items_view(items@),
                ) == Err::<ForestModel, SchemaError>(e),
            },
    {
        let ghost iv = items_view(items@);
        let mut current = String::new();
        let mut k: usize = 0;
        assert(iv.subrange(0, iv.len() as int) =~= iv);
        while k < items.len()
            invariant
                self.wf(),
                self.services_linked(),
                iv == items_view(items@),
                k <= items@.len(),
                apply_items_spec(old(self).model(), Seq::empty(), iv) == apply_items_spec(
                    self.model(),
                    current@,
                    iv.subrange(k as int, iv.len() as int),
                ),
            decreases items@.len() - k,
        {
            let ghost before = *self;
            let ghost rest = iv.subrange(k as int, iv.len() as int);
            assert(rest[0] == items@[k as int]@);
            assert(rest.drop_first() =~= iv.subrange(k + 1, iv.len() as int));
            match &items[k] {
                SchemaItem::Namespace(p) => {
                    self.ensure_namespace_chain(p.as_str());
                    proof {
                        lemma_services_linked_grow(&before, self);
                        assert forall|ss: int| 0 <= ss < self.services@.len() implies #[trigger] self.service_view(ss)
                            == before.service_view(ss) by {
                            assert forall|t: int| 0 <= t < before.types@.len() implies #[trigger] self.type_path(t)
                                == before.type_path(t) by {
                                lemma_type_path_frame(&before, self, t);
                            }
                            lemma_service_view_frame(&before, self, ss);
                        }
                        assert forall|q: Seq<char>| #[trigger] self.has_type_path(q) <==> before.has_type_path(q) by {
                            assert forall|t: int| 0 <= t < before.types@.len() implies #[trigger] self.type_path(t)
                                == before.type_path(t) by {
                                lemma_type_path_frame(&before, self, t);
                            }
                            if self.has_type_path(q) {
                                let i = choose|i: int| 0 <= i < self.types@.len() && #[trigger] self.type_path(i) == q;
                                assert(before.type_path(i) == q);
                            }
                            if before.has_type_path(q) {
                                let i = choose|i: int| 0 <= i < before.types@.len() && #[trigger] before.type_path(i) == q;
                                assert(self.type_path(i) == q);
                            }
                        }
                        assert(self.services_view() =~= before.services_view());
                        assert(self.model().namespaces =~= before.model().namespaces.union(ns_prefixes(p@)));
                        assert(self.model().types =~= before.model().types);
                    }
                    current = p.clone();
                },
                SchemaItem::Service(name, methods) => {
                    let res = self.add_service(current.as_str(), name.as_str(), methods);
                    match res {
                        Ok(()) => {
                            proof {
                                let ts = method_types(current@, methods_view(methods@));
                                assert(before.model().namespaces.contains(current@));
                                assert(self.model().namespaces =~= before.model().namespaces.union(
                                    new_namespaces(before.model(), ts),
                                )) by {
                                    assert forall|q: Seq<char>| self.model().namespaces.contains(q) <==> before.model().namespaces.union(
                                        new_namespaces(before.model(), ts)).contains(q) by {
                                        if new_type_namespace(&before, ts, q) {
                                            let t = choose|t: Seq<char>| #[trigger] ts.contains(t) && !before.has_type_path(t)
                                                && is_ns_prefix(type_namespace(t), q);
                                            assert(new_namespaces(before.model(), ts).contains(q));
                                        }
                                        if new_namespaces(before.model(), ts).contains(q) {
                                            let t = choose|t: Seq<char>| #[trigger] ts.contains(t) && !before.model().types.contains(t)
                                                && is_ns_prefix(type_namespace(t), q);
                                            assert(new_type_namespace(&before, ts, q));
                                        }
                                    }
                                }
                                assert(self.model().types =~= before.model().types.union(ts));
                            }
                        },
                        Err(e) => {
                            return Err(e);
                        },
                    }
                },
            }
            k = k + 1;
        }
        proof {
            let m = self.model();
            assert(apply_items_spec(m, current@, iv.subrange(k as int, iv.len() as int)) == Ok::<ForestModel, SchemaError>(m));
        }
        Ok(())
    }

    /// Reads the schemas `sources`, in order, into a new forest.
    pub fn from_fbs_sources(sources: &Vec<String>) -> (r: Result<Forest, SchemaError>)
        ensures
            match r {
                Ok(f) => f.wf() && f.services_linked() && build_spec(sources.deep_view()) == Ok::<ForestModel, SchemaError>(f.model()),
                Err(e) => build_spec(sources.deep_view()) == Err::<
                    ForestModel,
                    SchemaError,
                >(e),
            },
    {
        let ghost sv = sources.deep_view();
        let mut forest = Forest::new();
        let mut i: usize = 0;
        proof {
            let f = forest;
            assert(f.model().namespaces =~= Set::<Seq<char>>::empty());
            assert(f.model().types =~= Set::<Seq<char>>::empty());
            assert(f.model().services =~= Seq::<ServiceView>::empty());
            assert(sv.subrange(0, 0) =~= Seq::<Seq<char>>::empty());
        }
        while i < sources.len()
            invariant
                forest.wf(),
                forest.services_linked(),
                sv == sources.deep_view(),
                i <= sources@.len(),
                build_spec(sv.subrange(0, i as int)) == Ok::<ForestModel, SchemaError>(forest.model()),
            decreases sources@.len() - i,
        {
            proof {
                let pre = sv.subrange(0, i + 1);
                assert(pre.drop_last() =~= sv.subrange(0, i as int));
                assert(pre.last() == sources@[i as int]@);
            }
            let items = match scan_schema(sources[i].as_str()) {
                Ok(items) => items,
                Err(e) => {
                    proof { lemma_build_err(sv, i + 1, e); }
                    return Err(e);
                },
            };
            match forest.apply_items(&items) {
                Ok(()) => {},
                Err(e) => {
                    proof { lemma_build_err(sv, i + 1, e); }
                    return Err(e);
                },
            }
            i = i + 1;
        }
        assert(sv.subrange(0, sv.len() as int) =~= sv);
        Ok(forest)
    }
}

/// Name and parent namespace of the nodes that hang in the namespace tree.
pub trait TreeNode {
    fn name(&self) -> &str;

    fn parent_namespace(&self) -> Option<usize>;
}

impl TreeNode for NamespaceNode {
    fn name(&self) -> (r: &str)
        ensures
            r@ == self.name@,
    {
        self.name.as_str()
    }

    fn parent_namespace(&self) -> (r: Option<usize>)
        ensures
            r == self.parent,
    {
        self.parent
    }
}

impl TreeNode for TypeNode {
    fn name(&self) -> (r: &str)
        ensures
            r@ == self.name@,
    {
        self.name.as_str()
    }

    fn parent_namespace(&self) -> (r: Option<usize>)
        ensures
            r == self.parent,
    {
        self.parent
    }
}

impl TreeNode for ServiceNode {
    fn name(&self) -> (r: &str)
        ensures
            r@ == self.name@,
    {
        self.name.as_str()
    }

    fn parent_namespace(&self) -> (r: Option<usize>)
        ensures
            r == self.parent,
    {
        self.parent
    }
}

/// The names of the namespaces above a node with parent `parent`, outermost first.
pub open spec fn ancestors(f: &Forest, parent: Option<usize>) -> Seq<Seq<char>> {
    match parent {
        Some(p) => f.ns_chain(p as int),
        None => Seq::empty(),
    }
}

/// `parent` is no parent or a namespace of `f`.
pub open spec fn parent_in(f: &Forest, parent: Option<usize>) -> bool {
    match parent {
        Some(p) => p < f.namespaces@.len(),
        None => true,
    }
}

impl Forest {
    /// The names of namespace `i` and its ancestors, outermost first.
    fn chain_names(&self, i: usize) -> (r: Vec<String>)
        requires
            self.wf(),
            i < self.namespaces@.len(),
        ensures
            r.deep_view() == self.ns_chain(i as int),
        decreases i,
    {
        let node = &self.namespaces[i];
        match node.parent {
            Some(p) => {
                let mut v = self.chain_names(p);
                v.push(node.name.clone());
                assert(v.deep_view() =~= self.ns_chain(p as int).push(node.name@));
                v
            },
            None => {
                let v = vec![node.name.clone()];
                assert(v.deep_view() =~= seq![node.name@]);
                v
            },
        }
    }

    /// The names of the namespaces above a node with parent `parent`.
    fn ancestor_names(&self, parent: Option<usize>) -> (r: Vec<String>)
        requires
            self.wf(),
            parent_in(self, parent),
        ensures
            r.deep_view() == ancestors(self, parent),
    {
        match parent {
            Some(p) => self.chain_names(p),
            None => {
                let v: Vec<String> = Vec::new();
                assert(v.deep_view() =~= Seq::<Seq<char>>::empty());
                v
            },
        }
    }
}

impl NamespaceNode {
    /// The names of the namespaces above this one, outermost first; its own
    /// name is not among them.
    pub fn path_segments(&self, forest: &Forest) -> (r: Vec<String>)
        requires
            forest.wf(),
            parent_in(forest, self.parent),
        ensures
            r.deep_view() == ancestors(forest, self.parent),
    {
        forest.ancestor_names(self.parent)
    }

    /// The segments of `path_segments` joined by dots.
    pub fn path(&self, forest: &Forest) -> (r: String)
        requires
            forest.wf(),
            parent_in(forest, self.parent),
        ensures
            r@ == join_spec(ancestors(forest, self.parent), dot()),
    {
        proof {
            reveal_strlit(".");
            assert("."@ =~= dot());
        }
        join(&self.path_segments(forest), ".")
    }
}

impl TypeNode {
    /// The names of the namespaces above the type, outermost first, and its own name.
    pub fn path_segments(&self, forest: &Forest) -> (r: Vec<String>)
        requires
            forest.wf(),
            parent_in(forest, self.parent),
        ensures
            r.deep_view() == ancestors(forest, self.parent).push(self.name@),
    {
        let mut v = forest.ancestor_names(self.parent);
        v.push(self.name.clone());
        assert(v.deep_view() =~= ancestors(forest, self.parent).push(self.name@));
        v
    }

    /// The fully qualified name of the type.
    pub fn path(&self, forest: &Forest) -> (r: String)
        requires
            forest.wf(),
            parent_in(forest, self.parent),
        ensures
            r@ == join_spec(ancestors(forest, self.parent).push(self.name@), dot()),
    {
        proof {
            reveal_strlit(".");
            assert("."@ =~= dot());
        }
        join(&self.path_segments(forest), ".")
    }
}

impl ServiceNode {
    /// The names of the namespaces above the service, outermost first, and its own name.
    pub fn path_segments(&self, forest: &Forest) -> (r: Vec<String>)
        requires
            forest.wf(),
            parent_in(forest, self.parent),
        ensures
            r.deep_view() == ancestors(forest, self.parent).push(self.name@),
    {
        let mut v = forest.ancestor_names(self.parent);
        v.push(self.name.clone());
        assert(v.deep_view() =~= ancestors(forest, self.parent).push(self.name@));
        v
    }

    /// The fully qualified name of the service.
    pub fn path(&self, forest: &Forest) -> (r: String)
        requires
            forest.wf(),
            parent_in(forest, self.parent),
        ensures
            r@ == join_spec(ancestors(forest, self.parent).push(self.name@), dot()),
    {
        proof {
            reveal_strlit(".");
            assert("."@ =~= dot());
        }
        join(&self.path_segments(forest), ".")
    }
}

/// The fully qualified name of service `s` of `f`.
pub open spec fn service_path(f: &Forest, s: int) -> Seq<char> {
    join_spec(ancestors(f, f.services@[s].parent).push(f.services@[s].name@), dot())
}

impl EndpointNode {
    /// The fully qualified name of the service, a dot and the endpoint's
    /// name; the name alone for an endpoint without a service.
    pub fn path(&self, forest: &Forest) -> (r: String)
        requires
            forest.wf(),
        ensures
            r@ == match self.parent {
                Some(s) => if s < forest.services@.len() {
                    service_path(forest, s as int) + dot() + self.name@
                } else {
                    self.name@
                },
                None => self.name@,
            },
    {
        match self.parent {
            Some(s) => {
                if s < forest.services.len() {
                    let mut r = forest.services[s].path(forest);
                    push_char(&mut r, '.');
                    r.append(self.name.as_str());
                    r
                } else {
                    self.name.clone()
                }
            },
            None => self.name.clone(),
        }
    }
}

/// Namespace `i` of the arena `ns` followed by everything below it, depth first.
pub open spec fn subtree_of(ns: Seq<NamespaceNode>, i: usize) -> Seq<NamespaceChild>
    decreases ns.len() - i, 1int, 0int,
{
    if i < ns.len() {
        seq![NamespaceChild::Namespace(i)] + flat_children(ns, i as int, ns[i as int].children@)
    } else {
        seq![NamespaceChild::Namespace(i)]
    }
}

/// The children `cs` of namespace `bound`, each followed by what lies below it.
pub open spec fn flat_children(ns: Seq<NamespaceNode>, bound: int, cs: Seq<NamespaceChild>) -> Seq<
    NamespaceChild,
>
    decreases ns.len() - bound, 0int, cs.len(),
{
    if cs.len() == 0 {
        Seq::empty()
    } else {
        let head = match cs[0] {
            NamespaceChild::Namespace(j) => if bound < j < ns.len() {
                subtree_of(ns, j)
            } else {
                seq![cs[0]]
            },
            _ => seq![cs[0]],
        };
        head + flat_children(ns, bound, cs.drop_first())
    }
}

/// A node followed by what lies below it.
pub open spec fn expand(ns: Seq<NamespaceNode>, c: NamespaceChild) -> Seq<NamespaceChild> {
    match c {
        NamespaceChild::Namespace(j) => subtree_of(ns, j),
        _ => seq![c],
    }
}

/// The nodes `cs`, in order, each followed by what lies below it.
pub open spec fn list_flat(ns: Seq<NamespaceNode>, cs: Seq<NamespaceChild>) -> Seq<NamespaceChild>
    decreases cs.len(),
{
    if cs.len() == 0 {
        Seq::empty()
    } else {
        expand(ns, cs[0]) + list_flat(ns, cs.drop_first())
    }
}

/// A stack of nodes, top last, each followed by what lies below it, top first.
pub open spec fn stack_flat(ns: Seq<NamespaceNode>, st: Seq<NamespaceChild>) -> Seq<NamespaceChild>
    decreases st.len(),
{
    if st.len() == 0 {
        Seq::empty()
    } else {
        expand(ns, st.last()) + stack_flat(ns, st.drop_last())
    }
}

/// Every node of the forest below its roots, depth first, children in order.
pub open spec fn forest_preorder(f: &Forest) -> Seq<NamespaceChild> {
    list_flat(f.namespaces@, f.roots@.map_values(|r: usize| NamespaceChild::Namespace(r)))
}

/// The children of a namespace of a well-formed forest, flattened, are the
/// flattening of each child in turn.
proof fn lemma_flat_children(f: &Forest, i: int, cs: Seq<NamespaceChild>)
    requires
        f.wf(),
        0 <= i < f.namespaces@.len(),
        forall|k: int| 0 <= k < cs.len() ==> f.child_ok(i, #[trigger] cs[k]),
    ensures
        flat_children(f.namespaces@, i, cs) == list_flat(f.namespaces@, cs),
    decreases cs.len(),
{
    if cs.len() > 0 {
        assert(f.child_ok(i, cs[0]));
        assert forall|k: int| 0 <= k < cs.drop_first().len() implies f.child_ok(i, #[trigger] cs.drop_first()[k]) by {
            assert(cs.drop_first()[k] == cs[k + 1]);
        }
        lemma_flat_children(f, i, cs.drop_first());
    }
}

/// Pushing `c` on a stack puts what `c` expands to in front.
proof fn lemma_stack_push(ns: Seq<NamespaceNode>, st: Seq<NamespaceChild>, c: NamespaceChild)
    ensures
        stack_flat(ns, st.push(c)) == expand(ns, c) + stack_flat(ns, st),
{
    assert(st.push(c).drop_last() =~= st);
}

/// What lies below a stack element is never empty.
proof fn lemma_expand_nonempty(ns: Seq<NamespaceNode>, c: NamespaceChild)
    ensures
        expand(ns, c).len() >= 1,
        expand(ns, c)[0] == c,
{
    match c {
        NamespaceChild::Namespace(j) => {
            if j < ns.len() {
                assert((seq![c] + flat_children(ns, j as int, ns[j as int].children@))[0] == c);
            }
        },
        _ => {},
    }
}

/// A depth-first walk over the nodes of a forest.
pub struct ForestIter {
    stack: Vec<NamespaceChild>,
}

impl ForestIter {
    /// Every namespace on the stack belongs to `f`.
    pub closed spec fn valid(&self, f: &Forest) -> bool {
        forall|k: int|
            0 <= k < self.stack@.len() ==> match #[trigger] self.stack@[k] {
                NamespaceChild::Namespace(j) => j < f.namespaces@.len(),
                _ => true,
            }
    }

    /// The nodes the walk has yet to yield, in order.
    pub closed spec fn remaining(&self, f: &Forest) -> Seq<NamespaceChild> {
        stack_flat(f.namespaces@, self.stack@)
    }

    /// Pushes the children `cs` of namespace `i` so that the first comes out first.
    fn push_children(&mut self, f: &Forest, i: usize)
        requires
            f.wf(),
            i < f.namespaces@.len(),
            old(self).valid(f),
        ensures
            final(self).valid(f),
            final(self).remaining(f) == list_flat(f.namespaces@, f.namespaces@[i as int].children@)
                + old(self).remaining(f),
    {
        let cs = &f.namespaces[i].children;
        let ghost csv = cs@;
        let mut k: usize = cs.len();
        proof {
            assert(csv.subrange(k as int, csv.len() as int) =~= Seq::<NamespaceChild>::empty());
            assert(list_flat(f.namespaces@, Seq::<NamespaceChild>::empty()) + old(self).remaining(f)
                =~= old(self).remaining(f));
        }
        while k > 0
            invariant
                f.wf(),
                i < f.namespaces@.len(),
                csv == f.namespaces@[i as int].children@,
                *cs == f.namespaces@[i as int].children,
                k <= csv.len(),
                self.valid(f),
                self.remaining(f) == list_flat(f.namespaces@, csv.subrange(k as int, csv.len() as int))
                    + old(self).remaining(f),
            decreases k,
        {
            let c = cs[k - 1];
            let ghost before = self.stack@;
            self.stack.push(c);
            proof {
                lemma_stack_push(f.namespaces@, before, c);
                let sub = csv.subrange(k - 1, csv.len() as int);
                assert(sub.drop_first() =~= csv.subrange(k as int, csv.len() as int));
                assert(sub[0] == c);
                assert(f.child_ok(i as int, csv[k - 1]));
                assert forall|kk: int| 0 <= kk < self.stack@.len() implies match #[trigger] self.stack@[kk] {
                    NamespaceChild::Namespace(j) => j < f.namespaces@.len(),
                    _ => true,
                } by {
                    if kk < before.len() {
                        assert(self.stack@[kk] == before[kk]);
                    }
                }
            }
            k = k - 1;
        }
        assert(csv.subrange(0, csv.len() as int) =~= csv);
    }

    /// The next node of the walk: a namespace comes before its children.
    pub fn next(&mut self, forest: &Forest) -> (r: Option<NamespaceChild>)
        requires
            forest.wf(),
            old(self).valid(forest),
        ensures
            final(self).valid(forest),
            match r {
                None => old(self).remaining(forest).len() == 0 && final(self).remaining(forest)
                    == old(self).remaining(forest),
                Some(c) => old(self).remaining(forest).len() > 0 && c == old(self).remaining(
                    forest,
                )[0] && final(self).remaining(forest) == old(self).remaining(forest).drop_first(),
            },
    {
        let ghost ns = forest.namespaces@;
        match self.stack.pop() {
            Some(node) => {
                let ghost rest = self.stack@;
                proof {
                    assert(old(self).stack@.drop_last() =~= rest);
                    lemma_expand_nonempty(ns, node);
                    assert forall|kk: int| 0 <= kk < self.stack@.len() implies match #[trigger] self.stack@[kk] {
                        NamespaceChild::Namespace(j) => j < forest.namespaces@.len(),
                        _ => true,
                    } by {
                        assert(self.stack@[kk] == old(self).stack@[kk]);
                    }
                }
                match node {
                    NamespaceChild::Namespace(i) => {
                        proof {
                            assert(old(self).stack@[old(self).stack@.len() - 1] == node);
                            assert forall|k: int| 0 <= k < ns[i as int].children@.len() implies forest.child_ok(
                                i as int,
                                #[trigger] ns[i as int].children@[k],
                            ) by {}
                            lemma_flat_children(forest, i as int, ns[i as int].children@);
                        }
                        self.push_children(forest, i);
                        proof {
                            let old_r = old(self).remaining(forest);
                            assert(old_r == seq![node] + list_flat(ns, ns[i as int].children@) + stack_flat(ns, rest));
                            assert(old_r.drop_first() =~= list_flat(ns, ns[i as int].children@) + stack_flat(ns, rest));
                        }
                    },
                    _ => {
                        proof {
                            let old_r = old(self).remaining(forest);
                            assert(old_r.drop_first() =~= stack_flat(ns, rest));
                        }
                    },
                }
                Some(node)
            },
            None => None,
        }
    }
}

impl Forest {
    /// A walk over every node below the roots, roots in order.
    pub fn iter(&self) -> (r: ForestIter)
        requires
            self.wf(),
        ensures
            r.valid(self),
            r.remaining(self) == forest_preorder(self),
    {
        let mut it = ForestIter { stack: Vec::new() };
        let ghost rv = self.roots@.map_values(|r: usize| NamespaceChild::Namespace(r));
        let mut k: usize = self.roots.len();
        proof {
            assert(rv.subrange(k as int, rv.len() as int) =~= Seq::<NamespaceChild>::empty());
        }
        while k > 0
            invariant
                self.wf(),
                rv == self.roots@.map_values(|r: usize| NamespaceChild::Namespace(r)),
                k <= self.roots@.len(),
                it.valid(self),
                it.remaining(self) == list_flat(self.namespaces@, rv.subrange(k as int, rv.len() as int)),
            decreases k,
        {
            let c = NamespaceChild::Namespace(self.roots[k - 1]);
            let ghost before = it.stack@;
            it.stack.push(c);
            proof {
                lemma_stack_push(self.namespaces@, before, c);
                let sub = rv.subrange(k - 1, rv.len() as int);
                assert(sub.drop_first() =~= rv.subrange(k as int, rv.len() as int));
                assert(sub[0] == c);
                assert forall|kk: int| 0 <= kk < it.stack@.len() implies match #[trigger] it.stack@[kk] {
                    NamespaceChild::Namespace(j) => j < self.namespaces@.len(),
                    _ => true,
                } by {
                    if kk < before.len() {
                        assert(it.stack@[kk] == before[kk]);
                    }
                }
                assert(list_flat(self.namespaces@, sub) =~= expand(self.namespaces@, c) + list_flat(
                    self.namespaces@,
                    rv.subrange(k as int, rv.len() as int),
                ));
            }
            k = k - 1;
        }
        assert(rv.subrange(0, rv.len() as int) =~= rv);
        it
    }

    /// Every node below the roots, depth first: each namespace is followed by
    /// its children in order, a child namespace by its own subtree.
    pub fn preorder(&self) -> (r: Vec<NamespaceChild>)
        requires
            self.wf(),
        ensures
            r@ == forest_preorder(self),
    {
        let mut it = self.iter();
        let mut out: Vec<NamespaceChild> = Vec::new();
        loop
            invariant
                self.wf(),
                it.valid(self),
                out@ + it.remaining(self) == forest_preorder(self),
            decreases it.remaining(self).len(),
        {
            let ghost before = it.remaining(self);
            match it.next(self) {
                Some(c) => {
                    out.push(c);
                    assert(out@ + it.remaining(self) =~= forest_preorder(self)) by {
                        assert(before =~= seq![c] + before.drop_first());
                    }
                },
                None => {
                    assert(out@ + before =~= out@);
                    return out;
                },
            }
        }
    }
}

/// The dotted path of the namespace type `t` lies in.
pub open spec fn type_ns(f: &Forest, t: int) -> Seq<char> {
    match f.types@[t].parent {
        Some(p) => f.ns_path(p as int),
        None => Seq::empty(),
    }
}

impl Forest {
    /// The dotted path of namespace `i`.
    pub fn namespace_path(&self, i: usize) -> (r: String)
        requires
            self.wf(),
            i < self.namespaces@.len(),
        ensures
            r@ == self.ns_path(i as int),
    {
        proof {
            reveal_strlit(".");
            assert("."@ =~= dot());
        }
        join(&self.chain_names(i), ".")
    }

    /// The dotted path of the namespace type `t` lies in.
    pub fn type_namespace_path(&self, t: usize) -> (r: String)
        requires
            self.wf(),
            t < self.types@.len(),
        ensures
            r@ == type_ns(self, t as int),
    {
        match self.types[t].parent {
            Some(p) => self.namespace_path(p),
            None => String::new(),
        }
    }
}

/// `c` is a node of `f`.
pub open spec fn node_valid(f: &Forest, c: NamespaceChild) -> bool {
    match c {
        NamespaceChild::Namespace(j) => j < f.namespaces@.len(),
        NamespaceChild::Service(s) => s < f.services@.len(),
        NamespaceChild::Type(t) => t < f.types@.len(),
    }
}

proof fn lemma_concat_valid(f: &Forest, a: Seq<NamespaceChild>, b: Seq<NamespaceChild>)
    requires
        forall|k: int| 0 <= k < a.len() ==> node_valid(f, #[trigger] a[k]),
        forall|k: int| 0 <= k < b.len() ==> node_valid(f, #[trigger] b[k]),
    ensures
        forall|k: int| 0 <= k < (a + b).len() ==> node_valid(f, #[trigger] (a + b)[k]),
{
    assert forall|k: int| 0 <= k < (a + b).len() implies node_valid(f, #[trigger] (a + b)[k]) by {
        if k < a.len() {
            assert((a + b)[k] == a[k]);
        } else {
            assert((a + b)[k] == b[k - a.len()]);
        }
    }
}

proof fn lemma_subtree_valid(f: &Forest, i: usize)
    requires
        f.wf(),
        i < f.namespaces@.len(),
    ensures
        forall|k: int| 0 <= k < subtree_of(f.namespaces@, i).len() ==> node_valid(f, #[trigger] subtree_of(f.namespaces@, i)[k]),
    decreases f.namespaces@.len() - i, 1int, 0int,
{
    let ns = f.namespaces@;
    let cs = ns[i as int].children@;
    assert forall|k: int| 0 <= k < cs.len() implies f.child_ok(i as int, #[trigger] cs[k]) by {}
    lemma_flat_valid(f, i as int, cs);
    lemma_concat_valid(f, seq![NamespaceChild::Namespace(i)], flat_children(ns, i as int, cs));
}

proof fn lemma_flat_valid(f: &Forest, bound: int, cs: Seq<NamespaceChild>)
    requires
        f.wf(),
        0 <= bound < f.namespaces@.len(),
        forall|k: int| 0 <= k < cs.len() ==> f.child_ok(bound, #[trigger] cs[k]),
    ensures
        forall|k: int| 0 <= k < flat_children(f.namespaces@, bound, cs).len() ==> node_valid(f, #[trigger] flat_children(f.namespaces@, bound, cs)[k]),
    decreases f.namespaces@.len() - bound, 0int, cs.len(),
{
    let ns = f.namespaces@;
    if cs.len() > 0 {
        assert(f.child_ok(bound, cs[0]));
        let head = match cs[0] {
            NamespaceChild::Namespace(j) => if bound < j < ns.len() {
                subtree_of(ns, j)
            } else {
                seq![cs[0]]
            },
            _ => seq![cs[0]],
        };
        match cs[0] {
            NamespaceChild::Namespace(j) => {
                lemma_subtree_valid(f, j);
            },
            _ => {},
        }
        assert forall|k: int| 0 <= k < cs.drop_first().len() implies f.child_ok(bound, #[trigger] cs.drop_first()[k]) by {
            assert(cs.drop_first()[k] == cs[k + 1]);
        }
        lemma_flat_valid(f, bound, cs.drop_first());
        lemma_concat_valid(f, head, flat_children(ns, bound, cs.drop_first()));
    }
}

proof fn lemma_list_flat_valid(f: &Forest, cs: Seq<NamespaceChild>)
    requires
        f.wf(),
        forall|k: int| 0 <= k < cs.len() ==> node_valid(f, #[trigger] cs[k]),
    ensures
        forall|k: int| 0 <= k < list_flat(f.namespaces@, cs).len() ==> node_valid(f, #[trigger] list_flat(f.namespaces@, cs)[k]),
    decreases cs.len(),
{
    if cs.len() > 0 {
        assert(node_valid(f, cs[0]));
        match cs[0] {
            NamespaceChild::Namespace(j) => {
                lemma_subtree_valid(f, j);
            },
            _ => {},
        }
        assert forall|k: int| 0 <= k < cs.drop_first().len() implies node_valid(f, #[trigger] cs.drop_first()[k]) by {
            assert(cs.drop_first()[k] == cs[k + 1]);
        }
        lemma_list_flat_valid(f, cs.drop_first());
        lemma_concat_valid(f, expand(f.namespaces@, cs[0]), list_flat(f.namespaces@, cs.drop_first()));
    }
}

/// Every node the walk yields belongs to the forest.
pub proof fn lemma_preorder_valid(f: &Forest)
    requires
        f.wf(),
    ensures
        forall|k: int| 0 <= k < forest_preorder(f).len() ==> node_valid(f, #[trigger] forest_preorder(f)[k]),
{
    let rv = f.roots@.map_values(|r: usize| NamespaceChild::Namespace(r));
    assert forall|k: int| 0 <= k < rv.len() implies node_valid(f, #[trigger] rv[k]) by {
        assert(f.roots@[k] < f.namespaces@.len());
    }
    lemma_list_flat_valid(f, rv);
}

/// The top-level namespace above namespace `i` of the arena `ns`.
pub open spec fn top_of(ns: Seq<NamespaceNode>, i: int) -> int
    decreases i,
{
    if 0 <= i < ns.len() {
        match ns[i].parent {
            Some(p) => if p < i {
                top_of(ns, p as int)
            } else {
                i
            },
            None => i,
        }
    } else {
        i
    }
}

proof fn lemma_top_of(f: &Forest, i: int)
    requires
        f.wf(),
        0 <= i < f.namespaces@.len(),
    ensures
        0 <= top_of(f.namespaces@, i) < f.namespaces@.len(),
        f.namespaces@[top_of(f.namespaces@, i)].parent is None,
        f.ns_chain(i)[0] == f.namespaces@[top_of(f.namespaces@, i)].name@,
        f.ns_chain(top_of(f.namespaces@, i)) == seq![f.namespaces@[top_of(f.namespaces@, i)].name@],
    decreases i,
{
    let ns = f.namespaces@;
    assert(match ns[i].parent {
        Some(p) => p < i,
        None => true,
    });
    if let Some(p) = ns[i].parent {
        lemma_top_of(f, p as int);
        lemma_chain_nonempty(f, p as int);
    }
}

/// The roots of a forest are its top-level namespaces, each listed once,
/// and no two of them share a name; so namespaces whose paths start with
/// the same segment hang below one and the same root.
pub proof fn lemma_roots_are_top_level(f: &Forest)
    requires
        f.wf(),
    ensures
        f.roots@.no_duplicates(),
        forall|i: int|
            0 <= i < f.namespaces@.len() ==> ((#[trigger] f.namespaces@[i]).parent is None
                <==> f.roots@.contains(i as usize)),
        forall|a: int, b: int|
            0 <= a < f.roots@.len() && 0 <= b < f.roots@.len() && a != b
                ==> f.namespaces@[#[trigger] f.roots@[a] as int].name@
                != f.namespaces@[#[trigger] f.roots@[b] as int].name@,
        forall|i: int|
            0 <= i < f.namespaces@.len() ==> f.roots@.contains(
                #[trigger] top_of(f.namespaces@, i) as usize,
            ),
        forall|i: int, j: int|
            0 <= i < f.namespaces@.len() && 0 <= j < f.namespaces@.len() && f.ns_chain(i)[0]
                == f.ns_chain(j)[0] ==> #[trigger] top_of(f.namespaces@, i) == #[trigger] top_of(
                f.namespaces@,
                j,
            ),
{
    let ns = f.namespaces@;
    assert forall|i: int| 0 <= i < ns.len() implies ((#[trigger] ns[i]).parent is None
        <==> f.roots@.contains(i as usize)) by {
        assert(ns.len() == f.namespaces.len());
        assert((i as usize) as int == i);
        if ns[i].parent is None {
            assert(f.roots@.contains(i as usize));
        }
        if f.roots@.contains(i as usize) {
            let k = choose|k: int| 0 <= k < f.roots@.len() && f.roots@[k] == i as usize;
            assert(ns[f.roots@[k] as int].parent is None);
        }
    }
    assert forall|a: int, b: int|
        0 <= a < f.roots@.len() && 0 <= b < f.roots@.len() && a != b
        implies ns[#[trigger] f.roots@[a] as int].name@ != ns[#[trigger] f.roots@[b] as int].name@ by {
        let ra = f.roots@[a] as int;
        let rb = f.roots@[b] as int;
        assert(ns[ra].parent is None);
        assert(ns[rb].parent is None);
        assert(f.ns_chain(ra) == seq![ns[ra].name@]);
        assert(f.ns_chain(rb) == seq![ns[rb].name@]);
        assert(ra != rb);
        assert(f.ns_path(ra) != f.ns_path(rb));
    }
    assert forall|i: int| 0 <= i < ns.len() implies f.roots@.contains(#[trigger] top_of(ns, i) as usize) by {
        lemma_top_of(f, i);
    }
    assert forall|i: int, j: int|
        0 <= i < ns.len() && 0 <= j < ns.len() && f.ns_chain(i)[0] == f.ns_chain(j)[0]
        implies #[trigger] top_of(ns, i) == #[trigger] top_of(ns, j) by {
        lemma_top_of(f, i);
        lemma_top_of(f, j);
        let ti = top_of(ns, i);
        let tj = top_of(ns, j);
        if ti != tj {
            assert(f.ns_path(ti) == ns[ti].name@);
            assert(f.ns_path(tj) == ns[tj].name@);
            assert(f.ns_path(ti) != f.ns_path(tj));
        }
    }
}

/// Every type an endpoint of `m` names is a type of `m`, every service of
/// `m` lies in one of its namespaces, and the namespace of every type of `m`
/// is a namespace of `m` together with all its ancestors.
pub open spec fn model_closed(m: ForestModel) -> bool {
    &&& forall|s: int, e: int|
        0 <= s < m.services.len() && 0 <= e < m.services[s].endpoints.len() ==> m.types.contains(
            (#[trigger] m.services[s].endpoints[e]).request,
        ) && m.types.contains(m.services[s].endpoints[e].response)
    &&& forall|s: int| 0 <= s < m.services.len() ==> m.namespaces.contains((#[trigger] m.services[s]).namespace)
    &&& forall|t: Seq<char>, q: Seq<char>|
        m.types.contains(t) && #[trigger] is_ns_prefix(type_namespace(t), q) ==> #[trigger] m.namespaces.contains(q)
}

proof fn lemma_apply_item_closed(m: ForestModel, current: Seq<char>, item: ItemView)
    requires
        model_closed(m),
    ensures
        apply_item_spec(m, current, item) matches Ok((m2, _)) ==> model_closed(m2),
{
    if let Ok((m2, _)) = apply_item_spec(m, current, item) {
        match item {
            ItemView::Namespace(p) => {},
            ItemView::Service(name, ms) => {
                let ts = method_types(current, ms);
                let sv = service_spec(current, name, ms);
                assert forall|s: int, e: int|
                    0 <= s < m2.services.len() && 0 <= e < m2.services[s].endpoints.len()
                    implies m2.types.contains((#[trigger] m2.services[s].endpoints[e]).request)
                        && m2.types.contains(m2.services[s].endpoints[e].response) by {
                    if s < m.services.len() {
                        assert(m2.services[s] == m.services[s]);
                    } else {
                        assert(m2.services[s] == sv);
                        assert(sv.endpoints[e] == endpoint_spec(current, ms[e]));
                        assert(ts.contains(resolve_type_name(current, ms[e].request)));
                        assert(ts.contains(resolve_type_name(current, ms[e].response)));
                    }
                }
                assert forall|s: int| 0 <= s < m2.services.len()
                    implies m2.namespaces.contains((#[trigger] m2.services[s]).namespace) by {
                    if s < m.services.len() {
                        assert(m2.services[s] == m.services[s]);
                    }
                }
                assert forall|t: Seq<char>, q: Seq<char>|
                    m2.types.contains(t) && #[trigger] is_ns_prefix(type_namespace(t), q)
                    implies #[trigger] m2.namespaces.contains(q) by {
                    if m.types.contains(t) {
                        assert(m.namespaces.contains(q));
                    } else {
                        assert(ts.contains(t));
                        assert(new_namespaces(m, ts).contains(q));
                    }
                }
            },
        }
    }
}

proof fn lemma_apply_items_closed(m: ForestModel, current: Seq<char>, items: Seq<ItemView>)
    requires
        model_closed(m),
    ensures
        apply_items_spec(m, current, items) matches Ok(m2) ==> model_closed(m2),
    decreases items.len(),
{
    if items.len() > 0 {
        lemma_apply_item_closed(m, current, items[0]);
        if let Ok((m2, c2)) = apply_item_spec(m, current, items[0]) {
            lemma_apply_items_closed(m2, c2, items.drop_first());
        }
    }
}

/// Whatever schemas a forest is read from, every type that one of its
/// endpoints names is one of its types, every service lies in one of its
/// namespaces, and every type's namespace is there with all its ancestors.
pub proof fn lemma_built_model_closed(sources: Seq<Seq<char>>)
    ensures
        build_spec(sources) matches Ok(m) ==> model_closed(m),
    decreases sources.len(),
{
    if sources.len() > 0 {
        lemma_built_model_closed(sources.drop_last());
        if let Ok(m) = build_spec(sources.drop_last()) {
            if let Ok(items) = scan_spec(sources.last()) {
                lemma_apply_items_closed(m, Seq::empty(), items);
            }
        }
    }
}

/// The number of service declarations in the schemas `sources`, each read
/// on its own.
pub open spec fn declared_services(sources: Seq<Seq<char>>) -> nat
    decreases sources.len(),
{
    if sources.len() == 0 {
        0
    } else {
        declared_services(sources.drop_last()) + match scan_spec(sources.last()) {
            Ok(items) => service_count(items),
            Err(_) => 0nat,
        }
    }
}

/// Reading declarations keeps the services read before, in front, and adds
/// one service per service declaration.
pub proof fn lemma_apply_items_services(m: ForestModel, current: Seq<char>, items: Seq<ItemView>)
    ensures
        apply_items_spec(m, current, items) matches Ok(m2) ==> {
            &&& m2.services.len() == m.services.len() + service_count(items)
            &&& m2.services.subrange(0, m.services.len() as int) == m.services
        },
    decreases items.len(),
{
    if items.len() > 0 {
        assert(items =~= seq![items[0]] + items.drop_first());
        lemma_service_count_concat(seq![items[0]], items.drop_first());
        assert(seq![items[0]].drop_last() =~= Seq::<ItemView>::empty());
        assert(service_count(Seq::<ItemView>::empty()) == 0);
        if let Ok((m2, c2)) = apply_item_spec(m, current, items[0]) {
            lemma_apply_items_services(m2, c2, items.drop_first());
            if let Ok(m3) = apply_items_spec(m, current, items) {
                assert(m3.services.subrange(0, m2.services.len() as int) == m2.services);
                assert(m2.services.subrange(0, m.services.len() as int) =~= m.services);
                assert(m3.services.subrange(0, m.services.len() as int) =~= m2.services.subrange(
                    0,
                    m.services.len() as int,
                ));
            }
        }
    }
}

/// A forest read from schemas holds one service per service declaration in
/// them, across all the schemas.
pub proof fn lemma_built_services_counted(sources: Seq<Seq<char>>)
    ensures
        build_spec(sources) matches Ok(m) ==> m.services.len() == declared_services(sources),
    decreases sources.len(),
{
    if sources.len() > 0 {
        lemma_built_services_counted(sources.drop_last());
        if let Ok(m) = build_spec(sources.drop_last()) {
            if let Ok(items) = scan_spec(sources.last()) {
                lemma_apply_items_services(m, Seq::empty(), items);
            }
        }
    }
}

/// What `flat_children` puts in for child `c` of namespace `bound`.
pub open spec fn flat_head(ns: Seq<NamespaceNode>, bound: int, c: NamespaceChild) -> Seq<NamespaceChild> {
    match c {
        NamespaceChild::Namespace(j) => if bound < j < ns.len() {
            subtree_of(ns, j)
        } else {
            seq![c]
        },
        _ => seq![c],
    }
}

proof fn lemma_flat_children_has(ns: Seq<NamespaceNode>, bound: int, cs: Seq<NamespaceChild>, k: int, x: NamespaceChild)
    requires
        0 <= k < cs.len(),
        flat_head(ns, bound, cs[k]).contains(x),
    ensures
        flat_children(ns, bound, cs).contains(x),
    decreases cs.len(),
{
    let head = flat_head(ns, bound, cs[0]);
    let rest = flat_children(ns, bound, cs.drop_first());
    assert(flat_children(ns, bound, cs) == head + rest);
    if k == 0 {
        let m = choose|m: int| 0 <= m < head.len() && head[m] == x;
        assert((head + rest)[m] == x);
    } else {
        assert(cs.drop_first()[k - 1] == cs[k]);
        lemma_flat_children_has(ns, bound, cs.drop_first(), k - 1, x);
        let m = choose|m: int| 0 <= m < rest.len() && rest[m] == x;
        assert((head + rest)[head.len() + m] == x);
    }
}

proof fn lemma_list_flat_has(ns: Seq<NamespaceNode>, cs: Seq<NamespaceChild>, k: int, x: NamespaceChild)
    requires
        0 <= k < cs.len(),
        expand(ns, cs[k]).contains(x),
    ensures
        list_flat(ns, cs).contains(x),
    decreases cs.len(),
{
    let head = expand(ns, cs[0]);
    let rest = list_flat(ns, cs.drop_first());
    if k == 0 {
        let m = choose|m: int| 0 <= m < head.len() && head[m] == x;
        assert((head + rest)[m] == x);
    } else {
        assert(cs.drop_first()[k - 1] == cs[k]);
        lemma_list_flat_has(ns, cs.drop_first(), k - 1, x);
        let m = choose|m: int| 0 <= m < rest.len() && rest[m] == x;
        assert((head + rest)[head.len() + m] == x);
    }
}

proof fn lemma_subtree_in_walk(f: &Forest, i: int, x: NamespaceChild)
    requires
        f.wf(),
        0 <= i < f.namespaces@.len(),
        subtree_of(f.namespaces@, i as usize).contains(x),
    ensures
        forest_preorder(f).contains(x),
    decreases i,
{
    let ns = f.namespaces@;
    assert(f.namespaces.len() == ns.len());
    match ns[i].parent {
        None => {
            assert(f.roots@.contains(i as usize));
            let k = choose|k: int| 0 <= k < f.roots@.len() && f.roots@[k] == i as usize;
            let rv = f.roots@.map_values(|r: usize| NamespaceChild::Namespace(r));
            assert(rv[k] == NamespaceChild::Namespace(i as usize));
            lemma_list_flat_has(ns, rv, k, x);
        },
        Some(p) => {
            assert(p < i);
            let cs = ns[p as int].children@;
            assert(cs.contains(NamespaceChild::Namespace(i as usize)));
            let k = choose|k: int| 0 <= k < cs.len() && cs[k] == NamespaceChild::Namespace(i as usize);
            assert(flat_head(ns, p as int, cs[k]) == subtree_of(ns, i as usize));
            lemma_flat_children_has(ns, p as int, cs, k, x);
            let fl = flat_children(ns, p as int, cs);
            let m = choose|m: int| 0 <= m < fl.len() && fl[m] == x;
            assert(subtree_of(ns, p) == seq![NamespaceChild::Namespace(p)] + fl);
            assert(subtree_of(ns, p)[m + 1] == x);
            lemma_subtree_in_walk(f, p as int, x);
        },
    }
}

/// The walk over a forest reaches every namespace, every type and every
/// service of it, each exactly once.
#[verifier::rlimit(60)]
#[verifier::spinoff_prover]
pub proof fn lemma_walk_complete(f: &Forest)
    requires
        f.wf(),
        f.services_linked(),
    ensures
        forest_preorder(f).no_duplicates(),
        forall|i: int|
            0 <= i < f.namespaces@.len() ==> #[trigger] forest_preorder(f).contains(
                NamespaceChild::Namespace(i as usize),
            ),
        forall|t: int|
            0 <= t < f.types@.len() ==> #[trigger] forest_preorder(f).contains(NamespaceChild::Type(t as usize)),
        forall|s: int|
            0 <= s < f.services@.len() ==> #[trigger] forest_preorder(f).contains(
                NamespaceChild::Service(s as usize),
            ),
{
    lemma_walk_once(f);
    let ns = f.namespaces@;
    assert(f.namespaces.len() == ns.len());
    assert(f.types.len() == f.types@.len());
    assert(f.services.len() == f.services@.len());
    assert forall|i: int| 0 <= i < ns.len() implies #[trigger] forest_preorder(f).contains(NamespaceChild::Namespace(i as usize)) by {
        assert(subtree_of(ns, i as usize)[0] == NamespaceChild::Namespace(i as usize));
        lemma_subtree_in_walk(f, i, NamespaceChild::Namespace(i as usize));
    }
    assert forall|t: int| 0 <= t < f.types@.len() implies #[trigger] forest_preorder(f).contains(NamespaceChild::Type(t as usize)) by {
        let x = NamespaceChild::Type(t as usize);
        assert(f.types@[t].parent is Some);
        let p = f.types@[t].parent->0 as int;
        let cs = ns[p].children@;
        assert(cs.contains(x));
        let k = choose|k: int| 0 <= k < cs.len() && cs[k] == x;
        assert(flat_head(ns, p, cs[k]) == seq![x]);
        assert(flat_head(ns, p, cs[k])[0] == x);
        lemma_flat_children_has(ns, p, cs, k, x);
        let fl = flat_children(ns, p, cs);
        let m = choose|m: int| 0 <= m < fl.len() && fl[m] == x;
        assert(subtree_of(ns, p as usize)[m + 1] == x);
        lemma_subtree_in_walk(f, p, x);
    }
    assert forall|s: int| 0 <= s < f.services@.len() implies #[trigger] forest_preorder(f).contains(NamespaceChild::Service(s as usize)) by {
        let x = NamespaceChild::Service(s as usize);
        assert(f.services@[s].parent is Some);
        let p = f.services@[s].parent->0 as int;
        let cs = ns[p].children@;
        assert(cs.contains(x));
        let k = choose|k: int| 0 <= k < cs.len() && cs[k] == x;
        assert(flat_head(ns, p, cs[k]) == seq![x]);
        assert(flat_head(ns, p, cs[k])[0] == x);
        lemma_flat_children_has(ns, p, cs, k, x);
        let fl = flat_children(ns, p, cs);
        let m = choose|m: int| 0 <= m < fl.len() && fl[m] == x;
        assert(subtree_of(ns, p as usize)[m + 1] == x);
        lemma_subtree_in_walk(f, p, x);
    }
}

proof fn lemma_chain_no_dot(f: &Forest, i: int)
    requires
        f.wf(),
        0 <= i < f.namespaces@.len(),
    ensures
        forall|k: int, j: int|
            0 <= k < f.ns_chain(i).len() && 0 <= j < f.ns_chain(i)[k].len() ==> #[trigger] f.ns_chain(i)[k][j]
                != '.',
    decreases i,
{
    let ns = f.namespaces@;
    assert(no_dot(ns[i].name@));
    match ns[i].parent {
        Some(p) => {
            assert(p < i);
            lemma_chain_no_dot(f, p as int);
            let c = f.ns_chain(p as int);
            assert(f.ns_chain(i) == c.push(ns[i].name@));
            assert forall|k: int, j: int| 0 <= k < f.ns_chain(i).len() && 0 <= j < f.ns_chain(i)[k].len()
                implies #[trigger] f.ns_chain(i)[k][j] != '.' by {
                if k < c.len() {
                    assert(f.ns_chain(i)[k] == c[k]);
                }
            }
        },
        None => {},
    }
}

/// The dotted path of a namespace splits into the names from its root down
/// to it: its last segment is its name, the segments before it are the path
/// of its parent, and it is a single segment exactly when the namespace is
/// a root. What `NamespaceNode::path` gives, the path of the parent, is the
/// path up to its last dot, or empty for a root.
pub proof fn lemma_namespace_path(f: &Forest, i: int)
    requires
        f.wf(),
        0 <= i < f.namespaces@.len(),
    ensures
        split_spec(f.ns_path(i), '.') == f.ns_chain(i),
        f.ns_chain(i).last() == f.namespaces@[i].name@,
        f.namespaces@[i].parent is None <==> no_dot(f.ns_path(i)),
        f.namespaces@[i].parent is None <==> f.roots@.contains(i as usize),
        f.namespaces@[i].parent matches Some(p) ==> f.ns_path(i) == f.ns_path(p as int) + dot()
            + f.namespaces@[i].name@,
        join_spec(ancestors(f, f.namespaces@[i].parent), dot()) == match rsplit_once_spec(f.ns_path(i), '.') {
            Some((a, _)) => a,
            None => Seq::<char>::empty(),
        },
{
    let ns = f.namespaces@;
    assert(f.namespaces.len() == ns.len());
    lemma_chain_no_dot(f, i);
    lemma_chain_nonempty(f, i);
    lemma_split_join(f.ns_chain(i), '.');
    lemma_roots_are_top_level(f);
    assert(f.ns_path(i) == join_spec(f.ns_chain(i), seq!['.']));
    assert(split_spec(f.ns_path(i), '.') == f.ns_chain(i));
    match ns[i].parent {
        Some(p) => {
            assert(p < i);
            let c = f.ns_chain(p as int);
            lemma_chain_nonempty(f, p as int);
            lemma_chain_no_dot(f, p as int);
            assert(f.ns_chain(i) == c.push(ns[i].name@));
            lemma_join_push(c, ns[i].name@, dot());
            assert(f.ns_path(i) == f.ns_path(p as int) + dot() + ns[i].name@);
            assert forall|j: int| 0 <= j < ns[i].name@.len() implies #[trigger] ns[i].name@[j] != '.' by {
                assert(no_dot(ns[i].name@));
            }
            lemma_rsplit_joined(f.ns_path(p as int), ns[i].name@, '.');
            let path = f.ns_path(i);
            assert(path[f.ns_path(p as int).len() as int] == '.');
            assert(!no_dot(path));
        },
        None => {
            assert(f.ns_chain(i) == seq![ns[i].name@]);
            assert(f.ns_path(i) == ns[i].name@);
            assert(no_dot(ns[i].name@));
            lemma_rfind_char(f.ns_path(i), '.');
        },
    }
}

/// The fully qualified name of a type splits into the names from its root
/// namespace down to the type, which is what `TypeNode::path_segments`
/// gives; its last segment is the type's name and the rest is the path of
/// its namespace.
pub proof fn lemma_type_path(f: &Forest, t: int)
    requires
        f.wf(),
        0 <= t < f.types@.len(),
    ensures
        split_spec(f.type_path(t), '.') == ancestors(f, f.types@[t].parent).push(f.types@[t].name@),
        f.types@[t].parent matches Some(p) ==> f.type_path(t) == f.ns_path(p as int) + dot()
            + f.types@[t].name@,
{
    let ty = f.types@[t];
    let p = ty.parent->0;
    assert(p < f.namespaces@.len());
    lemma_chain_no_dot(f, p as int);
    lemma_chain_nonempty(f, p as int);
    assert(no_dot(ty.name@));
    let c = f.ns_chain(p as int);
    let tc = c.push(ty.name@);
    assert(f.type_chain(t) == tc);
    assert forall|k: int, j: int| 0 <= k < tc.len() && 0 <= j < tc[k].len() implies #[trigger] tc[k][j] != '.' by {
        if k < c.len() {
            assert(tc[k] == c[k]);
        }
    }
    lemma_split_join(tc, '.');
    lemma_join_push(c, ty.name@, dot());
}

/// The roots of a forest are its one-segment namespaces: a path is the path
/// of a root exactly when it is a namespace path without a dot. With the
/// roots listed once each and paths told apart, the forest has one root per
/// distinct first segment of its namespaces.
pub proof fn lemma_root_paths(f: &Forest)
    requires
        f.wf(),
    ensures
        forall|q: Seq<char>|
            (exists|k: int| 0 <= k < f.roots@.len() && #[trigger] f.ns_path(f.roots@[k] as int) == q)
                <==> (#[trigger] f.has_ns_path(q) && no_dot(q)),
{
    lemma_roots_are_top_level(f);
    assert forall|q: Seq<char>|
        (exists|k: int| 0 <= k < f.roots@.len() && #[trigger] f.ns_path(f.roots@[k] as int) == q)
            <==> (#[trigger] f.has_ns_path(q) && no_dot(q)) by {
        if exists|k: int| 0 <= k < f.roots@.len() && #[trigger] f.ns_path(f.roots@[k] as int) == q {
            let k = choose|k: int| 0 <= k < f.roots@.len() && #[trigger] f.ns_path(f.roots@[k] as int) == q;
            let r = f.roots@[k] as int;
            lemma_namespace_path(f, r);
            assert(f.roots@.contains(r as usize));
        }
        if f.has_ns_path(q) && no_dot(q) {
            let i = choose|i: int| 0 <= i < f.namespaces@.len() && #[trigger] f.ns_path(i) == q;
            lemma_namespace_path(f, i);
            assert(f.namespaces.len() == f.namespaces@.len());
            assert(f.roots@.contains(i as usize));
            let k = choose|k: int| 0 <= k < f.roots@.len() && f.roots@[k] == i as usize;
            assert(f.ns_path(f.roots@[k] as int) == q);
        }
    }
}

/// The qualified names of an endpoint's request and response types are
/// the paths of exactly the type nodes it holds, so `get_type` on the name
/// written in the method, resolved in its namespace, finds the node that the
/// endpoint shares with every other endpoint naming that type.
pub proof fn lemma_endpoint_types_found(f: &Forest, e: int)
    requires
        f.wf(),
        0 <= e < f.endpoints@.len(),
    ensures
        f.has_type_path(f.endpoint_view(e).request),
        f.has_type_path(f.endpoint_view(e).response),
        forall|t: int|
            0 <= t < f.types@.len() && #[trigger] f.type_path(t) == f.endpoint_view(e).request ==> t
                == f.endpoints@[e].request_type,
        forall|t: int|
            0 <= t < f.types@.len() && #[trigger] f.type_path(t) == f.endpoint_view(e).response ==> t
                == f.endpoints@[e].response_type,
{
    let ep = f.endpoints@[e];
    assert(f.type_path(ep.request_type as int) == f.endpoint_view(e).request);
    assert(f.type_path(ep.response_type as int) == f.endpoint_view(e).response);
}

/// Namespace `i` is namespace `j` or one of its ancestors.
pub open spec fn reaches(ns: Seq<NamespaceNode>, j: int, i: int) -> bool
    decreases j,
{
    if j == i {
        true
    } else if 0 <= j < ns.len() {
        match ns[j].parent {
            Some(p) => if p < j {
                reaches(ns, p as int, i)
            } else {
                false
            },
            None => false,
        }
    } else {
        false
    }
}

/// Node `x` is namespace `i` or lies below it.
pub open spec fn below(f: &Forest, x: NamespaceChild, i: int) -> bool {
    match x {
        NamespaceChild::Namespace(j) => reaches(f.namespaces@, j as int, i),
        NamespaceChild::Type(t) => t < f.types@.len() && (f.types@[t as int].parent matches Some(p)
            && reaches(f.namespaces@, p as int, i)),
        NamespaceChild::Service(s) => s < f.services@.len() && (f.services@[s as int].parent matches Some(
            p,
        ) && reaches(f.namespaces@, p as int, i)),
    }
}

/// Node `x` is child `c` or, for a namespace child, lies below it.
pub open spec fn below_child(f: &Forest, x: NamespaceChild, c: NamespaceChild) -> bool {
    match c {
        NamespaceChild::Namespace(j) => below(f, x, j as int),
        _ => x == c,
    }
}

proof fn lemma_reaches_le(ns: Seq<NamespaceNode>, j: int, i: int)
    requires
        reaches(ns, j, i),
    ensures
        i <= j,
    decreases j,
{
    if j != i {
        let p = ns[j].parent->0;
        lemma_reaches_le(ns, p as int, i);
    }
}

proof fn lemma_reaches_linear(ns: Seq<NamespaceNode>, j: int, a: int, b: int)
    requires
        reaches(ns, j, a),
        reaches(ns, j, b),
    ensures
        reaches(ns, a, b) || reaches(ns, b, a),
    decreases j,
{
    if j != a && j != b {
        let p = ns[j].parent->0;
        lemma_reaches_linear(ns, p as int, a, b);
    }
}

proof fn lemma_reaches_trans(ns: Seq<NamespaceNode>, j: int, k: int, i: int)
    requires
        reaches(ns, j, k),
        reaches(ns, k, i),
    ensures
        reaches(ns, j, i),
    decreases j,
{
    if j != k && j != i {
        let p = ns[j].parent->0;
        lemma_reaches_trans(ns, p as int, k, i);
    }
}

/// The namespace that `x` hangs from directly, or `x` itself for a namespace.
pub open spec fn base_of(f: &Forest, x: NamespaceChild) -> int {
    match x {
        NamespaceChild::Namespace(j) => j as int,
        NamespaceChild::Type(t) => f.types@[t as int].parent->0 as int,
        NamespaceChild::Service(s) => f.services@[s as int].parent->0 as int,
    }
}

proof fn lemma_below_base(f: &Forest, x: NamespaceChild, i: int)
    requires
        below(f, x, i),
    ensures
        reaches(f.namespaces@, base_of(f, x), i),
{
}

/// Two different children of one namespace have nothing below them in common.
proof fn lemma_children_disjoint(f: &Forest, i: int, c1: NamespaceChild, c2: NamespaceChild, x: NamespaceChild)
    requires
        f.wf(),
        0 <= i < f.namespaces@.len(),
        f.child_ok(i, c1),
        f.child_ok(i, c2),
        c1 != c2,
    ensures
        !(below_child(f, x, c1) && below_child(f, x, c2)),
{
    let ns = f.namespaces@;
    if below_child(f, x, c1) && below_child(f, x, c2) {
        match (c1, c2) {
            (NamespaceChild::Namespace(j1), NamespaceChild::Namespace(j2)) => {
                let b = base_of(f, x);
                lemma_reaches_linear(ns, b, j1 as int, j2 as int);
                if reaches(ns, j1 as int, j2 as int) {
                    assert(ns[j1 as int].parent == Some(i as usize));
                    lemma_reaches_le(ns, i, j2 as int);
                } else {
                    assert(ns[j2 as int].parent == Some(i as usize));
                    lemma_reaches_le(ns, i, j1 as int);
                }
            },
            (NamespaceChild::Namespace(j1), _) => {
                assert(x == c2);
                assert(reaches(ns, i, j1 as int));
                lemma_reaches_le(ns, i, j1 as int);
            },
            (_, NamespaceChild::Namespace(j2)) => {
                assert(x == c1);
                assert(reaches(ns, i, j2 as int));
                lemma_reaches_le(ns, i, j2 as int);
            },
            _ => {},
        }
    }
}

proof fn lemma_concat_no_dup(a: Seq<NamespaceChild>, b: Seq<NamespaceChild>)
    requires
        a.no_duplicates(),
        b.no_duplicates(),
        forall|x: NamespaceChild| #[trigger] a.contains(x) ==> !b.contains(x),
    ensures
        (a + b).no_duplicates(),
{
    let c = a + b;
    assert forall|m: int, n: int| 0 <= m < c.len() && 0 <= n < c.len() && m != n implies c[m] != c[n] by {
        if m < a.len() && n >= a.len() {
            assert(a.contains(c[m]));
            assert(b[n - a.len()] == c[n]);
        } else if n < a.len() && m >= a.len() {
            assert(a.contains(c[n]));
            assert(b[m - a.len()] == c[m]);
        } else if m >= a.len() {
            assert(c[m] == b[m - a.len()]);
            assert(c[n] == b[n - a.len()]);
        }
    }
}

proof fn lemma_subtree_unique(f: &Forest, i: int)
    requires
        f.wf(),
        0 <= i < f.namespaces@.len(),
    ensures
        subtree_of(f.namespaces@, i as usize).no_duplicates(),
        forall|m: int|
            0 <= m < subtree_of(f.namespaces@, i as usize).len() ==> below(
                f,
                #[trigger] subtree_of(f.namespaces@, i as usize)[m],
                i,
            ),
    decreases f.namespaces@.len() - i, 1int, 0int,
{
    let ns = f.namespaces@;
    assert(f.namespaces.len() == ns.len());
    assert((i as usize) as int == i);
    let cs = ns[i].children@;
    assert forall|k: int| 0 <= k < cs.len() implies f.child_ok(i, #[trigger] cs[k]) by {}
    lemma_flat_unique(f, i, cs);
    let fl = flat_children(ns, i, cs);
    let head = seq![NamespaceChild::Namespace(i as usize)];
    assert(subtree_of(ns, i as usize) == head + fl);
    assert forall|x: NamespaceChild| head.contains(x) implies !fl.contains(x) by {
        if fl.contains(x) {
            let m = choose|m: int| 0 <= m < fl.len() && fl[m] == x;
            let k = choose|k: int| 0 <= k < cs.len() && below_child(f, fl[m], #[trigger] cs[k]);
            assert(x == NamespaceChild::Namespace(i as usize));
            match cs[k] {
                NamespaceChild::Namespace(j) => {
                    lemma_reaches_le(ns, i, j as int);
                },
                _ => {},
            }
        }
    }
    lemma_concat_no_dup(head, fl);
    assert forall|m: int| 0 <= m < (head + fl).len() implies below(f, #[trigger] (head + fl)[m], i) by {
        if m >= 1 {
            assert((head + fl)[m] == fl[m - 1]);
            let x = fl[m - 1];
            let k = choose|k: int| 0 <= k < cs.len() && below_child(f, x, #[trigger] cs[k]);
            assert(f.child_ok(i, cs[k]));
            match cs[k] {
                NamespaceChild::Namespace(j) => {
                    assert(ns[j as int].parent == Some(i as usize));
                    assert(i < j < ns.len());
                    assert(reaches(ns, i, i));
                    assert(reaches(ns, j as int, i));
                    lemma_reaches_trans(ns, base_of(f, x), j as int, i);
                },
                _ => {},
            }
        }
    }
}

proof fn lemma_flat_unique(f: &Forest, i: int, cs: Seq<NamespaceChild>)
    requires
        f.wf(),
        0 <= i < f.namespaces@.len(),
        forall|k: int| 0 <= k < cs.len() ==> f.child_ok(i, #[trigger] cs[k]),
        cs.no_duplicates(),
    ensures
        flat_children(f.namespaces@, i, cs).no_duplicates(),
        forall|m: int|
            #![trigger flat_children(f.namespaces@, i, cs)[m]]
            0 <= m < flat_children(f.namespaces@, i, cs).len() ==> exists|k: int|
                0 <= k < cs.len() && below_child(f, flat_children(f.namespaces@, i, cs)[m], #[trigger] cs[k]),
    decreases f.namespaces@.len() - i, 0int, cs.len(),
{
    let ns = f.namespaces@;
    assert(f.namespaces.len() == ns.len());
    if cs.len() > 0 {
        let c0 = cs[0];
        let rest = cs.drop_first();
        assert forall|k: int| 0 <= k < rest.len() implies f.child_ok(i, #[trigger] rest[k]) by {
            assert(rest[k] == cs[k + 1]);
        }
        assert(rest.no_duplicates()) by {
            assert forall|a: int, b: int| 0 <= a < rest.len() && 0 <= b < rest.len() && a != b implies rest[a] != rest[b] by {
                assert(rest[a] == cs[a + 1]);
                assert(rest[b] == cs[b + 1]);
            }
        }
        lemma_flat_unique(f, i, rest);
        let head = flat_head(ns, i, c0);
        let fr = flat_children(ns, i, rest);
        assert(flat_children(ns, i, cs) == head + fr);
        assert(f.child_ok(i, c0));
        match c0 {
            NamespaceChild::Namespace(j) => {
                lemma_subtree_unique(f, j as int);
                assert(head == subtree_of(ns, j));
            },
            _ => {
                assert(head == seq![c0]);
            },
        }
        assert(head.no_duplicates());
        assert forall|m: int| 0 <= m < head.len() implies below_child(f, #[trigger] head[m], c0) by {
            match c0 {
                NamespaceChild::Namespace(j) => {},
                _ => {},
            }
        }
        assert forall|x: NamespaceChild| head.contains(x) implies !fr.contains(x) by {
            if fr.contains(x) {
                let m = choose|m: int| 0 <= m < fr.len() && fr[m] == x;
                let k = choose|k: int| 0 <= k < rest.len() && below_child(f, fr[m], #[trigger] rest[k]);
                let mh = choose|mh: int| 0 <= mh < head.len() && head[mh] == x;
                assert(below_child(f, head[mh], c0));
                assert(rest[k] == cs[k + 1]);
                assert(cs[0] != cs[k + 1]);
                lemma_children_disjoint(f, i, c0, rest[k], x);
            }
        }
        lemma_concat_no_dup(head, fr);
        assert forall|m: int| #![trigger (head + fr)[m]] 0 <= m < (head + fr).len() implies exists|k: int|
            0 <= k < cs.len() && below_child(f, (head + fr)[m], #[trigger] cs[k]) by {
            if m < head.len() {
                assert((head + fr)[m] == head[m]);
                assert(below_child(f, head[m], cs[0]));
            } else {
                assert((head + fr)[m] == fr[m - head.len()]);
                let k = choose|k: int| 0 <= k < rest.len() && below_child(f, fr[m - head.len()], #[trigger] rest[k]);
                assert(rest[k] == cs[k + 1]);
                assert(below_child(f, (head + fr)[m], cs[k + 1]));
            }
        }
    }
}

proof fn lemma_list_flat_unique(f: &Forest, cs: Seq<NamespaceChild>)
    requires
        f.wf(),
        cs.no_duplicates(),
        forall|k: int|
            0 <= k < cs.len() ==> (#[trigger] cs[k] matches NamespaceChild::Namespace(r) && r
                < f.namespaces@.len() && f.namespaces@[r as int].parent is None),
    ensures
        list_flat(f.namespaces@, cs).no_duplicates(),
        forall|m: int|
            #![trigger list_flat(f.namespaces@, cs)[m]]
            0 <= m < list_flat(f.namespaces@, cs).len() ==> exists|k: int|
                0 <= k < cs.len() && below_child(f, list_flat(f.namespaces@, cs)[m], #[trigger] cs[k]),
    decreases cs.len(),
{
    let ns = f.namespaces@;
    if cs.len() > 0 {
        let c0 = cs[0];
        let rest = cs.drop_first();
        assert forall|k: int| 0 <= k < rest.len() implies (#[trigger] rest[k] matches NamespaceChild::Namespace(r) && r
            < f.namespaces@.len() && f.namespaces@[r as int].parent is None) by {
            assert(rest[k] == cs[k + 1]);
        }
        assert forall|a: int, b: int| 0 <= a < rest.len() && 0 <= b < rest.len() && a != b implies rest[a] != rest[b] by {
            assert(rest[a] == cs[a + 1]);
            assert(rest[b] == cs[b + 1]);
        }
        lemma_list_flat_unique(f, rest);
        let r0 = c0->Namespace_0;
        assert(c0 == NamespaceChild::Namespace(r0));
        lemma_subtree_unique(f, r0 as int);
        let head = expand(ns, c0);
        let fr = list_flat(ns, rest);
        assert(head == subtree_of(ns, r0));
        assert forall|x: NamespaceChild| head.contains(x) implies !fr.contains(x) by {
            if fr.contains(x) {
                let m = choose|m: int| 0 <= m < fr.len() && fr[m] == x;
                let k = choose|k: int| 0 <= k < rest.len() && below_child(f, fr[m], #[trigger] rest[k]);
                let mh = choose|mh: int| 0 <= mh < head.len() && head[mh] == x;
                assert(below(f, x, r0 as int));
                assert(rest[k] == cs[k + 1]);
                let r1 = rest[k]->Namespace_0;
                assert(r1 != r0);
                assert(below(f, x, r1 as int));
                lemma_reaches_linear(ns, base_of(f, x), r0 as int, r1 as int);
            }
        }
        lemma_concat_no_dup(head, fr);
        assert forall|m: int| #![trigger (head + fr)[m]] 0 <= m < (head + fr).len() implies exists|k: int|
            0 <= k < cs.len() && below_child(f, (head + fr)[m], #[trigger] cs[k]) by {
            if m < head.len() {
                assert((head + fr)[m] == head[m]);
                assert(below_child(f, head[m], cs[0]));
            } else {
                assert((head + fr)[m] == fr[m - head.len()]);
                let k = choose|k: int| 0 <= k < rest.len() && below_child(f, fr[m - head.len()], #[trigger] rest[k]);
                assert(rest[k] == cs[k + 1]);
                assert(below_child(f, (head + fr)[m], cs[k + 1]));
            }
        }
    }
}

/// The walk over a forest yields nothing twice.
proof fn lemma_walk_once(f: &Forest)
    requires
        f.wf(),
    ensures
        forest_preorder(f).no_duplicates(),
{
    let rv = f.roots@.map_values(|r: usize| NamespaceChild::Namespace(r));
    assert forall|k: int| 0 <= k < rv.len() implies (#[trigger] rv[k] matches NamespaceChild::Namespace(r) && r
        < f.namespaces@.len() && f.namespaces@[r as int].parent is None) by {
        assert(rv[k] == NamespaceChild::Namespace(f.roots@[k]));
    }
    assert forall|a: int, b: int| 0 <= a < rv.len() && 0 <= b < rv.len() && a != b implies rv[a] != rv[b] by {
        assert(f.roots@[a] != f.roots@[b]);
    }
    lemma_list_flat_unique(f, rv);
}

} // verus!
