//! The texts that a build writes beside the generated code: the main proto
//! file of a schema, the messages that name what is generated, and the types
//! that each namespace of the schemas defines.
use vstd::prelude::*;
use crate::builder::Builder;
use crate::tree::{
    ancestors, dot, forest_preorder, lemma_preorder_valid, node_valid, Forest, NamespaceChild,
};
use crate::text::{
    find_char, find_char_spec, join, join_spec, lemma_find_char, lines, lines_spec, starts_with,
    starts_with_spec, str_eq, strip_prefix, strs_view, trim, trim_spec,
};

verus! {

/// The import line for the proto file of namespace `ns`.
pub open spec fn import_line(ns: Seq<char>) -> Seq<char> {
    "import \"fake_"@ + trim_spec(ns) + ".proto\";"@
}

/// The import lines of the non-empty namespaces of `refs`, in order.
pub open spec fn include_lines(refs: Seq<Seq<char>>) -> Seq<Seq<char>>
    decreases refs.len(),
{
    if refs.len() == 0 {
        Seq::empty()
    } else {
        let rest = include_lines(refs.drop_last());
        if refs.last().len() == 0 {
            rest
        } else {
            rest.push(import_line(refs.last()))
        }
    }
}

/// The main proto file: the syntax line, one import per referenced
/// namespace, the package line and the service definitions.
pub open spec fn main_proto_spec(file_ns: Seq<char>, service_proto: Seq<char>, refs: Seq<Seq<char>>) -> Seq<
    char,
> {
    "syntax = \"proto3\";\n"@ + join_spec(include_lines(refs), "\n"@) + "\npackage "@ + trim_spec(file_ns)
        + ";\n\n"@ + service_proto
}

impl Builder {
    /// The main proto file of namespace `file_namespace`, importing the
    /// proto file of each non-empty namespace of `referenced_namespaces`.
    pub fn generate_main_proto(
        file_namespace: &str,
        service_proto: &str,
        referenced_namespaces: &Vec<String>,
    ) -> (r: String)
        ensures
            r@ == main_proto_spec(file_namespace@, service_proto@, referenced_namespaces.deep_view()),
    {
        let ghost refs = referenced_namespaces.deep_view();
        let mut lines: Vec<String> = Vec::new();
        let mut i: usize = 0;
        assert(refs.subrange(0, 0) =~= Seq::<Seq<char>>::empty());
        while i < referenced_namespaces.len()
            invariant
                refs == referenced_namespaces.deep_view(),
                i <= referenced_namespaces.len(),
                lines.deep_view() == include_lines(refs.subrange(0, i as int)),
            decreases referenced_namespaces.len() - i,
        {
            let ns = referenced_namespaces[i].as_str();
            let ghost before = lines.deep_view();
            proof {
                assert(refs.subrange(0, i + 1).drop_last() =~= refs.subrange(0, i as int));
                assert(refs.subrange(0, i + 1).last() == ns@);
            }
            if ns.unicode_len() > 0 {
                let mut line = String::new();
                line.append("import \"fake_");
                line.append(trim(ns));
                line.append(".proto\";");
                lines.push(line);
                assert(lines.deep_view() =~= before.push(import_line(ns@)));
            }
            i = i + 1;
        }
        assert(refs.subrange(0, refs.len() as int) =~= refs);
        let includes = join(&lines, "\n");
        let mut r = String::new();
        r.append("syntax = \"proto3\";\n");
        r.append(includes.as_str());
        r.append("\npackage ");
        r.append(trim(file_namespace));
        r.append(";\n\n");
        r.append(service_proto);
        r
    }
}

/// The dotted path of node `c`, as its `path` method gives it.
pub open spec fn node_path(f: &Forest, c: NamespaceChild) -> Seq<char> {
    match c {
        NamespaceChild::Namespace(i) => join_spec(ancestors(f, f.namespaces@[i as int].parent), dot()),
        NamespaceChild::Service(s) => join_spec(
            ancestors(f, f.services@[s as int].parent).push(f.services@[s as int].name@),
            dot(),
        ),
        NamespaceChild::Type(t) => join_spec(
            ancestors(f, f.types@[t as int].parent).push(f.types@[t as int].name@),
            dot(),
        ),
    }
}

/// The line that announces the generation of node `c`.
pub open spec fn node_message(f: &Forest, c: NamespaceChild) -> Seq<char> {
    match c {
        NamespaceChild::Namespace(_) => "Generating module for namespace: "@ + node_path(f, c),
        NamespaceChild::Service(_) => "Generating service: "@ + node_path(f, c),
        NamespaceChild::Type(_) => "Generating type: "@ + node_path(f, c),
    }
}

/// One announcement per node of the forest, in walking order.
pub open spec fn generation_log_spec(f: &Forest) -> Seq<Seq<char>> {
    forest_preorder(f).map_values(|c: NamespaceChild| node_message(f, c))
}

impl Builder {
    /// The lines that announce, node by node in walking order, what the
    /// build generates for the forest.
    pub fn generation_log(forest: &Forest) -> (r: Vec<String>)
        requires
            forest.wf(),
        ensures
            r.deep_view() == generation_log_spec(forest),
    {
        let nodes = forest.preorder();
        proof { lemma_preorder_valid(forest); }
        let mut out: Vec<String> = Vec::new();
        let mut k: usize = 0;
        while k < nodes.len()
            invariant
                forest.wf(),
                nodes@ == forest_preorder(forest),
                forall|j: int| 0 <= j < nodes@.len() ==> node_valid(forest, #[trigger] nodes@[j]),
                k <= nodes.len(),
                out.deep_view() == generation_log_spec(forest).subrange(0, k as int),
            decreases nodes.len() - k,
        {
            let c = nodes[k];
            assert(node_valid(forest, nodes@[k as int]));
            let mut line = String::new();
            match c {
                NamespaceChild::Namespace(i) => {
                    line.append("Generating module for namespace: ");
                    let p = forest.namespaces[i].path(forest);
                    line.append(p.as_str());
                },
                NamespaceChild::Service(s) => {
                    line.append("Generating service: ");
                    let p = forest.services[s].path(forest);
                    line.append(p.as_str());
                },
                NamespaceChild::Type(t) => {
                    line.append("Generating type: ");
                    let p = forest.types[t].path(forest);
                    line.append(p.as_str());
                },
            }
            let ghost before = out.deep_view();
            out.push(line);
            assert(out.deep_view() =~= generation_log_spec(forest).subrange(0, k + 1)) by {
                assert(out.deep_view() =~= before.push(node_message(forest, c)));
            }
            k = k + 1;
        }
        assert(generation_log_spec(forest).subrange(0, k as int) =~= generation_log_spec(forest));
        out
    }
}

/// The namespace that a schema line declares: the trimmed text between
/// `namespace ` and the first `;`.
pub open spec fn line_namespace(line: Seq<char>) -> Option<Seq<char>> {
    let t = trim_spec(line);
    if starts_with_spec(t, "namespace "@) {
        let ns = t.subrange("namespace "@.len() as int, t.len() as int);
        match find_char_spec(ns, ';') {
            Some(e) => Some(trim_spec(ns.subrange(0, e))),
            None => None,
        }
    } else {
        None
    }
}

/// The type that a schema line defines: for a line that starts with
/// `table ` or `struct `, the trimmed text from its seventh character up to
/// the first `{`.
pub open spec fn line_type(line: Seq<char>) -> Option<Seq<char>> {
    let t = trim_spec(line);
    if starts_with_spec(t, "table "@) || starts_with_spec(t, "struct "@) {
        let rest = t.subrange(6, t.len() as int);
        match find_char_spec(rest, '{') {
            Some(e) => Some(trim_spec(rest.subrange(0, e))),
            None => None,
        }
    } else {
        None
    }
}

/// Index of the entry of `acc` under `key`, the first one.
pub open spec fn entry_find(acc: Seq<(Seq<char>, Seq<Seq<char>>)>, key: Seq<char>) -> Option<int>
    decreases acc.len(),
{
    if acc.len() == 0 {
        None
    } else if acc[0].0 == key {
        Some(0)
    } else {
        match entry_find(acc.drop_first(), key) {
            Some(k) => Some(k + 1),
            None => None,
        }
    }
}

/// `acc` with `name` recorded under namespace `ns`, once.
pub open spec fn add_defined(acc: Seq<(Seq<char>, Seq<Seq<char>>)>, ns: Seq<char>, name: Seq<char>) -> Seq<
    (Seq<char>, Seq<Seq<char>>),
> {
    match entry_find(acc, ns) {
        Some(k) => if acc[k].1.contains(name) {
            acc
        } else {
            acc.update(k, (ns, acc[k].1.push(name)))
        },
        None => acc.push((ns, seq![name])),
    }
}

/// The types that `lines` define, added to `acc`, read in the namespace
/// `cur` until a line declares another.
pub open spec fn scan_defined_lines(
    lines: Seq<Seq<char>>,
    cur: Seq<char>,
    acc: Seq<(Seq<char>, Seq<Seq<char>>)>,
) -> Seq<(Seq<char>, Seq<Seq<char>>)>
    decreases lines.len(),
{
    if lines.len() == 0 {
        acc
    } else {
        let l = lines[0];
        let cur2 = match line_namespace(l) {
            Some(ns) => ns,
            None => cur,
        };
        let acc2 = match line_type(l) {
            Some(name) => add_defined(acc, cur2, name),
            None => acc,
        };
        scan_defined_lines(lines.drop_first(), cur2, acc2)
    }
}

/// The namespace in effect after `lines`, read from namespace `cur`: the
/// one the last namespace line among them declares, `cur` if none does.
pub open spec fn namespace_after(lines: Seq<Seq<char>>, cur: Seq<char>) -> Seq<char>
    decreases lines.len(),
{
    if lines.len() == 0 {
        cur
    } else {
        match line_namespace(lines.last()) {
            Some(ns) => ns,
            None => namespace_after(lines.drop_last(), cur),
        }
    }
}

proof fn lemma_namespace_after_front(l: Seq<char>, rest: Seq<Seq<char>>, cur: Seq<char>)
    ensures
        namespace_after(seq![l] + rest, cur) == namespace_after(
            rest,
            match line_namespace(l) {
                Some(ns) => ns,
                None => cur,
            },
        ),
    decreases rest.len(),
{
    let all = seq![l] + rest;
    if rest.len() == 0 {
        assert(all =~= seq![l]);
        assert(all.drop_last() =~= Seq::<Seq<char>>::empty());
        assert(all.last() == l);
        assert(namespace_after(all.drop_last(), cur) == cur);
    } else {
        assert(all.drop_last() =~= seq![l] + rest.drop_last());
        assert(all.last() == rest.last());
        lemma_namespace_after_front(l, rest.drop_last(), cur);
    }
}

/// Reading two runs of lines is reading the first and then the second, in
/// the namespace in effect after the first.
pub proof fn lemma_scan_defined_concat(
    a: Seq<Seq<char>>,
    b: Seq<Seq<char>>,
    cur: Seq<char>,
    acc: Seq<(Seq<char>, Seq<Seq<char>>)>,
)
    ensures
        scan_defined_lines(a + b, cur, acc) == scan_defined_lines(
            b,
            namespace_after(a, cur),
            scan_defined_lines(a, cur, acc),
        ),
    decreases a.len(),
{
    if a.len() == 0 {
        assert(a + b =~= b);
    } else {
        let l = a[0];
        let next = if let Some(ns) = line_namespace(l) {
            ns
        } else {
            cur
        };
        let next_acc = if let Some(name) = line_type(l) {
            add_defined(acc, next, name)
        } else {
            acc
        };
        assert((a + b)[0] == l);
        assert((a + b).drop_first() =~= a.drop_first() + b);
        lemma_scan_defined_concat(a.drop_first(), b, next, next_acc);
        assert(a =~= seq![l] + a.drop_first());
        lemma_namespace_after_front(l, a.drop_first(), cur);
    }
}

/// A type line is recorded under the namespace of the nearest namespace
/// line at or before it (the starting namespace if there is none): each
/// namespace line replaces the namespace in effect.
pub proof fn lemma_type_line_recorded(
    lines: Seq<Seq<char>>,
    k: int,
    cur: Seq<char>,
    acc: Seq<(Seq<char>, Seq<Seq<char>>)>,
)
    requires
        0 <= k < lines.len(),
        line_type(lines[k]) is Some,
    ensures
        ({
            let ns = namespace_after(lines.subrange(0, k + 1), cur);
            let before = scan_defined_lines(lines.subrange(0, k), cur, acc);
            scan_defined_lines(lines, cur, acc) == scan_defined_lines(
                lines.subrange(k + 1, lines.len() as int),
                ns,
                add_defined(before, ns, line_type(lines[k])->0),
            )
        }),
{
    let pre = lines.subrange(0, k);
    let post = lines.subrange(k + 1, lines.len() as int);
    let l = lines[k];
    assert(lines =~= pre + (seq![l] + post));
    lemma_scan_defined_concat(pre, seq![l] + post, cur, acc);
    let c = namespace_after(pre, cur);
    assert((seq![l] + post)[0] == l);
    assert((seq![l] + post).drop_first() =~= post);
    let upto = lines.subrange(0, k + 1);
    assert(upto.drop_last() =~= pre);
    assert(upto.last() == l);
}

/// A namespace line replaces the namespace in effect: what follows it is
/// read the same whatever namespace was in effect before it.
pub proof fn lemma_namespace_line_resets(
    l: Seq<char>,
    rest: Seq<Seq<char>>,
    cur1: Seq<char>,
    cur2: Seq<char>,
    acc: Seq<(Seq<char>, Seq<Seq<char>>)>,
)
    requires
        line_namespace(l) is Some,
    ensures
        scan_defined_lines(seq![l] + rest, cur1, acc) == scan_defined_lines(seq![l] + rest, cur2, acc),
{
    let all = seq![l] + rest;
    assert(all[0] == l);
    assert(all.drop_first() =~= rest);
}

/// The types that the schema texts `files` define, added to `acc`; each
/// file starts in the empty namespace.
pub open spec fn scan_defined_files(files: Seq<Seq<char>>, acc: Seq<(Seq<char>, Seq<Seq<char>>)>) -> Seq<
    (Seq<char>, Seq<Seq<char>>),
>
    decreases files.len(),
{
    if files.len() == 0 {
        acc
    } else {
        scan_defined_files(files.drop_first(), scan_defined_lines(lines_spec(files[0]), Seq::empty(), acc))
    }
}

/// The types that the schema texts `files` define, grouped by namespace;
/// namespaces and types in the order of first mention.
pub open spec fn defined_types_spec(files: Seq<Seq<char>>) -> Seq<(Seq<char>, Seq<Seq<char>>)> {
    scan_defined_files(files, Seq::empty())
}

pub open spec fn defined_view(v: Seq<(String, Vec<String>)>) -> Seq<(Seq<char>, Seq<Seq<char>>)> {
    v.map_values(|e: (String, Vec<String>)| (e.0@, e.1.deep_view()))
}

/// No namespace occurs twice, and no type twice under one namespace.
pub open spec fn defined_valid(acc: Seq<(Seq<char>, Seq<Seq<char>>)>) -> bool {
    &&& forall|a: int, b: int| 0 <= a < b < acc.len() ==> acc[a].0 != acc[b].0
    &&& forall|a: int| 0 <= a < acc.len() ==> (#[trigger] acc[a]).1.no_duplicates()
}

pub proof fn lemma_entry_find(acc: Seq<(Seq<char>, Seq<Seq<char>>)>, key: Seq<char>)
    ensures
        entry_find(acc, key) matches Some(k) ==> 0 <= k < acc.len() && acc[k].0 == key && forall|j: int|
            0 <= j < k ==> acc[j].0 != key,
        entry_find(acc, key) is None ==> forall|j: int| 0 <= j < acc.len() ==> acc[j].0 != key,
    decreases acc.len(),
{
    if acc.len() > 0 && acc[0].0 != key {
        lemma_entry_find(acc.drop_first(), key);
        assert forall|j: int| 1 <= j < acc.len() implies acc[j] == acc.drop_first()[j - 1] by {}
    }
}

/// Recording type `name` under namespace `ns` puts it in the entry of `ns`,
/// a new last entry when there was none, and leaves every other entry and
/// every type recorded before as it was.
pub proof fn lemma_add_defined_records(acc: Seq<(Seq<char>, Seq<Seq<char>>)>, ns: Seq<char>, name: Seq<char>)
    ensures
        ({
            let r = add_defined(acc, ns, name);
            &&& entry_find(r, ns) matches Some(k) && r[k].1.contains(name)
                && (k < acc.len() ==> r[k].1.subrange(0, acc[k].1.len() as int) == acc[k].1)
            &&& r.len() == acc.len() + if entry_find(acc, ns) is Some { 0int } else { 1int }
            &&& forall|j: int| 0 <= j < acc.len() && acc[j].0 != ns ==> #[trigger] r[j] == acc[j]
            &&& forall|j: int| 0 <= j < acc.len() ==> (#[trigger] r[j]).0 == acc[j].0
        }),
{
    lemma_entry_find(acc, ns);
    let r = add_defined(acc, ns, name);
    lemma_entry_find(r, ns);
    match entry_find(acc, ns) {
        Some(k) => {
            assert(r[k].0 == ns);
            if acc[k].1.contains(name) {
            } else {
                assert(r[k].1 == acc[k].1.push(name));
                assert(r[k].1[acc[k].1.len() as int] == name);
                assert(r[k].1.subrange(0, acc[k].1.len() as int) =~= acc[k].1);
            }
            if entry_find(r, ns) != Some(k) {
                assert(r[k].0 == ns);
            }
        },
        None => {
            assert(r[acc.len() as int].1 =~= seq![name]);
            assert(r[acc.len() as int].1[0] == name);
            if entry_find(r, ns) != Some(acc.len() as int) {
                assert(r[acc.len() as int].0 == ns);
            }
        },
    }
}

/// Recording a type keeps namespaces and types free of repetition.
pub proof fn lemma_add_defined_valid(acc: Seq<(Seq<char>, Seq<Seq<char>>)>, ns: Seq<char>, name: Seq<char>)
    requires
        defined_valid(acc),
    ensures
        defined_valid(add_defined(acc, ns, name)),
{
    lemma_entry_find(acc, ns);
    let r = add_defined(acc, ns, name);
    match entry_find(acc, ns) {
        Some(k) => {
            if !acc[k].1.contains(name) {
                assert forall|a: int| 0 <= a < r.len() implies (#[trigger] r[a]).1.no_duplicates() by {
                    if a == k {
                        let l = acc[k].1.push(name);
                        assert(acc[k].1.no_duplicates());
                        assert forall|i: int, j: int| 0 <= i < l.len() && 0 <= j < l.len() && i != j
                            implies l[i] != l[j] by {
                            if i < acc[k].1.len() && j < acc[k].1.len() {
                            } else if i == acc[k].1.len() as int {
                                assert(l[i] == name);
                                assert(l[j] == acc[k].1[j]);
                            } else {
                                assert(l[j] == name);
                                assert(l[i] == acc[k].1[i]);
                            }
                        }
                    } else {
                        assert(r[a] == acc[a]);
                    }
                }
            }
        },
        None => {
            assert forall|a: int| 0 <= a < r.len() implies (#[trigger] r[a]).1.no_duplicates() by {
                if a < acc.len() {
                    assert(r[a] == acc[a]);
                } else {
                    assert(r[a].1 =~= seq![name]);
                }
            }
        },
    }
}

/// Whether `v` holds `name`.
pub fn contains_name(v: &Vec<String>, name: &str) -> (r: bool)
    ensures
        r == v.deep_view().contains(name@),
{
    let mut i: usize = 0;
    while i < v.len()
        invariant
            i <= v.len(),
            forall|j: int| 0 <= j < i ==> v.deep_view()[j] != name@,
        decreases v.len() - i,
    {
        if str_eq(v[i].as_str(), name) {
            assert(v.deep_view()[i as int] == name@);
            return true;
        }
        i = i + 1;
    }
    false
}

/// Records type `name` under namespace `ns`.
fn insert_defined(acc: &mut Vec<(String, Vec<String>)>, ns: &str, name: &str)
    ensures
        defined_view(final(acc)@) == add_defined(defined_view(old(acc)@), ns@, name@),
{
    let ghost av = defined_view(acc@);
    let mut k: usize = 0;
    while k < acc.len()
        invariant
            acc@ == old(acc)@,
            av == defined_view(acc@),
            k <= acc@.len(),
            forall|j: int| 0 <= j < k ==> av[j].0 != ns@,
        decreases acc@.len() - k,
    {
        if str_eq(acc[k].0.as_str(), ns) {
            proof {
                lemma_entry_find(av, ns@);
                if entry_find(av, ns@) != Some(k as int) {
                    lemma_entry_find(av, ns@);
                }
            }
            if !contains_name(&acc[k].1, name) {
                let owned = name.to_owned();
                let ghost inner = acc@[k as int].1.deep_view();
                acc[k].1.push(owned);
                proof {
                    assert(acc@[k as int].1.deep_view() =~= inner.push(name@));
                    assert forall|j: int| 0 <= j < acc@.len() && j != k implies acc@[j] == old(acc)@[j] by {}
                    assert(defined_view(acc@) =~= av.update(k as int, (ns@, av[k as int].1.push(name@))));
                }
            }
            return;
        }
        k = k + 1;
    }
    proof { lemma_entry_find(av, ns@); }
    let mut list: Vec<String> = Vec::new();
    list.push(name.to_owned());
    assert(list.deep_view() =~= seq![name@]);
    acc.push((ns.to_owned(), list));
    assert(defined_view(acc@) =~= av.push((ns@, seq![name@])));
}

/// The namespace a schema line declares.
fn namespace_of_line(line: &str) -> (r: Option<&str>)
    ensures
        match r {
            Some(ns) => line_namespace(line@) == Some(ns@),
            None => line_namespace(line@) is None,
        },
{
    let t = trim(line);
    match strip_prefix(t, "namespace ") {
        Some(ns) => {
            proof { lemma_find_char(ns@, ';'); }
            match find_char(ns, ';') {
                Some(e) => Some(trim(ns.substring_char(0, e))),
                None => None,
            }
        },
        None => None,
    }
}

/// The type a schema line defines.
fn type_of_line(line: &str) -> (r: Option<&str>)
    ensures
        match r {
            Some(name) => line_type(line@) == Some(name@),
            None => line_type(line@) is None,
        },
{
    let t = trim(line);
    if starts_with(t, "table ") || starts_with(t, "struct ") {
        proof {
            reveal_strlit("table ");
            reveal_strlit("struct ");
        }
        let rest = t.substring_char(6, t.unicode_len());
        proof { lemma_find_char(rest@, '{'); }
        match find_char(rest, '{') {
            Some(e) => Some(trim(rest.substring_char(0, e))),
            None => None,
        }
    } else {
        None
    }
}

impl Builder {
    /// The types that the schema texts `contents` define (`table` and
    /// `struct` lines), grouped by the namespace each is declared in.
    pub fn collect_defined_types(contents: &Vec<String>) -> (r: Vec<(String, Vec<String>)>)
        ensures
            defined_view(r@) == defined_types_spec(contents.deep_view()),
            defined_valid(defined_view(r@)),
    {
        let ghost files = contents.deep_view();
        let mut acc: Vec<(String, Vec<String>)> = Vec::new();
        let mut f: usize = 0;
        assert(files.subrange(0, files.len() as int) =~= files);
        assert(defined_view(acc@) =~= Seq::<(Seq<char>, Seq<Seq<char>>)>::empty());
        while f < contents.len()
            invariant
                files == contents.deep_view(),
                f <= contents.len(),
                scan_defined_files(files.subrange(f as int, files.len() as int), defined_view(acc@))
                    == defined_types_spec(files),
                defined_valid(defined_view(acc@)),
            decreases contents.len() - f,
        {
            let ls = lines(contents[f].as_str());
            let ghost lv = strs_view(ls@);
            let ghost acc0 = defined_view(acc@);
            let mut cur: &str = "";
            let mut i: usize = 0;
            proof {
                reveal_strlit("");
                assert(cur@ =~= Seq::<char>::empty());
                assert(lv.subrange(0, lv.len() as int) =~= lv);
                let fs = files.subrange(f as int, files.len() as int);
                assert(fs.drop_first() =~= files.subrange(f + 1, files.len() as int));
                assert(fs[0] == contents.deep_view()[f as int]);
            }
            while i < ls.len()
                invariant
                    lv == strs_view(ls@),
                    i <= ls.len(),
                    scan_defined_lines(lv.subrange(i as int, lv.len() as int), cur@, defined_view(acc@))
                        == scan_defined_lines(lv, Seq::empty(), acc0),
                    defined_valid(defined_view(acc@)),
                decreases ls.len() - i,
            {
                let line = ls[i];
                let ghost rest = lv.subrange(i as int, lv.len() as int);
                proof {
                    assert(rest[0] == line@);
                    assert(rest.drop_first() =~= lv.subrange(i + 1, lv.len() as int));
                }
                match namespace_of_line(line) {
                    Some(ns) => {
                        cur = ns;
                    },
                    None => {},
                }
                match type_of_line(line) {
                    Some(name) => {
                        proof { lemma_add_defined_valid(defined_view(acc@), cur@, name@); }
                        insert_defined(&mut acc, cur, name);
                    },
                    None => {},
                }
                i = i + 1;
            }
            assert(lv.subrange(ls.len() as int, lv.len() as int) =~= Seq::<Seq<char>>::empty());
            f = f + 1;
        }
        acc
    }
}

} // verus!
