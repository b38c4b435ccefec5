use vstd::prelude::*;
use crate::error::YariError;
use crate::graph::{value_of_plain, FunctionPrototype, YrGraph, YrNode};
use crate::module::{spec_module_name, Module};
use crate::text::{chars_of, dec_seq, u64_to_string};
use crate::value::YrValue;

verus! {

// ---------------------------------------------------------------------
// The engine data a context evaluates over.
// ---------------------------------------------------------------------
/// One recorded match of a declared string: where it matched and how
/// many bytes it covered.
#[derive(Debug, Clone, Copy, PartialEq, Eq)]
pub struct YrMatch {
    pub offset: i64,
    pub length: i64,
}

/// One declared string of a compiled rule: its identifier without the
/// leading sigil, and its recorded matches in scan order.
#[derive(Debug, Clone, PartialEq)]
pub struct YrString {
    pub identifier: String,
    pub matches: Vec<YrMatch>,
}

/// One compiled rule: its identifier and its declared strings in
/// declaration order.
#[derive(Debug, Clone, PartialEq)]
pub struct YrRule {
    pub identifier: String,
    pub strings: Vec<YrString>,
}

/// A compiled rule set as the engine reports it.
#[derive(Debug, Clone, PartialEq)]
pub struct CompiledRules {
    pub rules: Vec<YrRule>,
}

/// What a fallback scan reported: the rules that matched and the rules
/// that did not.
#[derive(Debug, Clone, PartialEq)]
pub struct ScanReport {
    pub matching: Vec<String>,
    pub not_matching: Vec<String>,
}

/// The outcome of one evaluation step: either a finished value, or the
/// instruction to compile `rules`, scan the input, and resolve `name`
/// against the scan report with [`ScanReport::resolve`].
#[derive(Debug, PartialEq)]
pub enum Evaluation {
    Value(YrValue),
    NeedsScan { rules: String, name: String },
}

// ---------------------------------------------------------------------
// The path cache.
// ---------------------------------------------------------------------
/// The ghost rendering of the cache: each entry's path and node index.
pub open spec fn cache_view(s: Seq<(String, usize)>) -> Seq<(Seq<char>, int)> {
    s.map_values(|p: (String, usize)| (p.0@, p.1 as int))
}

/// The node the cache resolves `path` to: the first entry with that
/// path.
pub open spec fn cache_lookup(entries: Seq<(Seq<char>, int)>, path: Seq<char>) -> Option<
    int,
>
    decreases entries.len(),
{
    if entries.len() == 0 {
        None
    } else if entries[0].0 == path {
        Some(entries[0].1)
    } else {
        cache_lookup(entries.drop_first(), path)
    }
}

/// The first cache entry whose node is `id`, read backwards: the path
/// under which node `id` was inserted.
pub open spec fn cache_reverse_lookup(entries: Seq<(Seq<char>, int)>, id: int) -> Option<
    Seq<char>,
>
    decreases entries.len(),
{
    if entries.len() == 0 {
        None
    } else if entries[0].1 == id {
        Some(entries[0].0)
    } else {
        cache_reverse_lookup(entries.drop_first(), id)
    }
}

/// Law: entries already in the cache keep resolving as before when
/// further entries are appended — populating the cache for one more
/// module never changes what an existing path resolves to.
pub proof fn lemma_cache_lookup_stable(
    entries: Seq<(Seq<char>, int)>,
    extra: Seq<(Seq<char>, int)>,
    path: Seq<char>,
)
    requires
        cache_lookup(entries, path) is Some,
    ensures
        cache_lookup(entries + extra, path) == cache_lookup(entries, path),
    decreases entries.len(),
{
    if entries.len() > 0 {
        assert((entries + extra)[0] == entries[0]);
        if entries[0].0 == path {
        } else {
            assert((entries + extra).drop_first() =~= entries.drop_first() + extra);
            lemma_cache_lookup_stable(entries.drop_first(), extra, path);
        }
    }
}

// ---------------------------------------------------------------------
// What one module import inserts.
// ---------------------------------------------------------------------
/// The cache entries a traversal from node `id` under the canonical
/// path `path` inserts: the node itself first, then its children in
/// order — a structure member under `path.name`, an array element
/// under `path[index]`, a dictionary value under `path["key"]`.
pub open spec fn populate_entries(g: YrGraph, id: int, path: Seq<char>) -> Seq<
    (Seq<char>, int),
>
    decreases g.nodes@.len() - id, 1int, 0int,
{
    if !(0 <= id < g.nodes@.len()) {
        Seq::empty()
    } else {
        seq![(path, id)] + match g.nodes@[id] {
            YrNode::Array(ch) => populate_array(g, id, ch@, path, 0),
            YrNode::Dictionary(ps) => populate_members(g, id, ps@, path, false),
            YrNode::Structure(ps) => populate_members(g, id, ps@, path, true),
            _ => Seq::empty(),
        }
    }
}

/// The entries of the array elements `ch` of parent `pid`, numbering
/// from `idx`.
pub open spec fn populate_array(
    g: YrGraph,
    pid: int,
    ch: Seq<usize>,
    path: Seq<char>,
    idx: int,
) -> Seq<(Seq<char>, int)>
    decreases g.nodes@.len() - pid, 0int, ch.len(),
{
    if ch.len() == 0 {
        Seq::empty()
    } else if pid < ch[0] < g.nodes@.len() && 0 <= idx {
        populate_entries(g, ch[0] as int, path + "["@ + dec_seq(idx as nat) + "]"@)
            + populate_array(g, pid, ch.drop_first(), path, idx + 1)
    } else {
        Seq::empty()
    }
}

/// The entries of the named members `ps` of parent `pid`: a structure
/// member extends the path with a dot, a dictionary key with quoted
/// brackets.
pub open spec fn populate_members(
    g: YrGraph,
    pid: int,
    ps: Seq<(String, usize)>,
    path: Seq<char>,
    dotted: bool,
) -> Seq<(Seq<char>, int)>
    decreases g.nodes@.len() - pid, 0int, ps.len(),
{
    if ps.len() == 0 {
        Seq::empty()
    } else if pid < ps[0].1 < g.nodes@.len() {
        let sub = if dotted {
            path + "."@ + ps[0].0@
        } else {
            path + "[\""@ + ps[0].0@ + "\"]"@
        };
        populate_entries(g, ps[0].1 as int, sub) + populate_members(
            g,
            pid,
            ps.drop_first(),
            path,
            dotted,
        )
    } else {
        Seq::empty()
    }
}

/// Every node index among `entries` lies inside the arena.
pub open spec fn entries_in_range(entries: Seq<(Seq<char>, int)>, n: int) -> bool {
    forall|k: int| 0 <= k < entries.len() ==> 0 <= #[trigger] entries[k].1 < n
}

fn collect_entries(g: &YrGraph, id: usize, path: String) -> (out: Vec<(String, usize)>)
    requires
        g.wf(),
        id < g.nodes@.len(),
    ensures
        cache_view(out@) == populate_entries(*g, id as int, path@),
        entries_in_range(cache_view(out@), g.nodes@.len() as int),
    decreases g.nodes@.len() - id, 1int, 0int,
{
    proof {
        assert(g.node_wf(id as int));
    }
    let mut out: Vec<(String, usize)> = Vec::new();
    out.push((path.clone(), id));
    proof {
        assert(cache_view(out@) =~= seq![(path@, id as int)]);
    }
    let rest: Vec<(String, usize)> = match &g.nodes[id] {
        YrNode::Array(ch) => {
            proof {
                assert(ch@.skip(0) =~= ch@);
            }
            collect_array(g, id, ch, &path, 0)
        },
        YrNode::Dictionary(ps) => {
            proof {
                assert(ps@.skip(0) =~= ps@);
            }
            collect_members(g, id, ps, &path, false, 0)
        },
        YrNode::Structure(ps) => {
            proof {
                assert(ps@.skip(0) =~= ps@);
            }
            collect_members(g, id, ps, &path, true, 0)
        },
        _ => {
            let empty: Vec<(String, usize)> = Vec::new();
            proof {
                assert(cache_view(empty@) =~= Seq::<(Seq<char>, int)>::empty());
            }
            empty
        },
    };
    let ghost restv = cache_view(rest@);
    let mut rest = rest;
    out.append(&mut rest);
    proof {
        assert(cache_view(out@) =~= seq![(path@, id as int)] + restv);
    }
    out
}

fn collect_array(g: &YrGraph, pid: usize, ch: &Vec<usize>, path: &String, from: usize) -> (out:
    Vec<(String, usize)>)
    requires
        g.wf(),
        pid < g.nodes@.len(),
        forall|k: int| 0 <= k < ch@.len() ==> pid < #[trigger] ch@[k] < g.nodes@.len(),
        from <= ch@.len(),
    ensures
        cache_view(out@) == populate_array(*g, pid as int, ch@.skip(from as int), path@, from as int),
        entries_in_range(cache_view(out@), g.nodes@.len() as int),
    decreases g.nodes@.len() - pid, 0int, ch@.len() - from,
{
    if from == ch.len() {
        let out: Vec<(String, usize)> = Vec::new();
        proof {
            assert(ch@.skip(from as int) =~= Seq::<usize>::empty());
            assert(cache_view(out@) =~= Seq::<(Seq<char>, int)>::empty());
        }
        out
    } else {
        let mut sub = path.clone();
        sub.append("[");
        let num = u64_to_string(from as u64);
        sub.append(num.as_str());
        sub.append("]");
        let mut out = collect_entries(g, ch[from], sub);
        let ghost head = cache_view(out@);
        let mut rest = collect_array(g, pid, ch, path, from + 1);
        let ghost tail = cache_view(rest@);
        out.append(&mut rest);
        proof {
            assert(ch@.skip(from as int)[0] == ch@[from as int]);
            assert(ch@.skip(from as int).drop_first() =~= ch@.skip(from as int + 1));
            assert(cache_view(out@) =~= head + tail);
        }
        out
    }
}

fn collect_members(
    g: &YrGraph,
    pid: usize,
    ps: &Vec<(String, usize)>,
    path: &String,
    dotted: bool,
    from: usize,
) -> (out: Vec<(String, usize)>)
    requires
        g.wf(),
        pid < g.nodes@.len(),
        forall|k: int| 0 <= k < ps@.len() ==> pid < #[trigger] ps@[k].1 < g.nodes@.len(),
        from <= ps@.len(),
    ensures
        cache_view(out@) == populate_members(
            *g,
            pid as int,
            ps@.skip(from as int),
            path@,
            dotted,
        ),
        entries_in_range(cache_view(out@), g.nodes@.len() as int),
    decreases g.nodes@.len() - pid, 0int, ps@.len() - from,
{
    if from == ps.len() {
        let out: Vec<(String, usize)> = Vec::new();
        proof {
            assert(ps@.skip(from as int) =~= Seq::<(String, usize)>::empty());
            assert(cache_view(out@) =~= Seq::<(Seq<char>, int)>::empty());
        }
        out
    } else {
        let mut sub = path.clone();
        if dotted {
            sub.append(".");
            sub.append(ps[from].0.as_str());
        } else {
            sub.append("[\"");
            sub.append(ps[from].0.as_str());
            sub.append("\"]");
        }
        let mut out = collect_entries(g, ps[from].1, sub);
        let ghost head = cache_view(out@);
        let mut rest = collect_members(g, pid, ps, path, dotted, from + 1);
        let ghost tail = cache_view(rest@);
        out.append(&mut rest);
        proof {
            assert(ps@.skip(from as int)[0] == ps@[from as int]);
            assert(ps@.skip(from as int).drop_first() =~= ps@.skip(from as int + 1));
            assert(cache_view(out@) =~= head + tail);
        }
        out
    }
}

// ---------------------------------------------------------------------
// The evaluation context.
// ---------------------------------------------------------------------
/// Well-formedness of one compiled rule: match counts stay countable.
pub open spec fn rule_wf(r: YrRule) -> bool {
    forall|j: int|
        0 <= j < r.strings@.len() ==> #[trigger] r.strings@[j].matches@.len()
            <= 0x7fff_ffff_ffff_ffff
}

/// Well-formedness of an optional compiled rule set.
pub open spec fn rules_wf(r: Option<CompiledRules>) -> bool {
    match r {
        Some(cr) => forall|i: int|
            0 <= i < cr.rules@.len() ==> rule_wf(#[trigger] cr.rules@[i]),
        None => true,
    }
}

/// The evaluation context: the imported object graph and the path
/// cache over it, the set of modules already imported, and the
/// compiled rule set with its source text.  The engine's own state
/// stays outside; this type holds the data the evaluator decides over.
#[derive(Debug)]
pub struct Context {
    pub graph: YrGraph,
    pub module_roots: Vec<(Module, usize)>,
    pub imported: Vec<Module>,
    pub objects: Vec<(String, usize)>,
    pub rules: Option<CompiledRules>,
    pub rule_string: Option<String>,
}

/// The root node of module `m`, if the engine provided one.
pub open spec fn find_root(roots: Seq<(Module, usize)>, m: Module) -> Option<usize>
    decreases roots.len(),
{
    if roots.len() == 0 {
        None
    } else if roots[0].0 == m {
        Some(roots[0].1)
    } else {
        find_root(roots.drop_first(), m)
    }
}

/// How one module import changes the context: nothing when `m` was
/// already imported; otherwise `m` is recorded and, when the engine
/// provided a root for it, the traversal's entries are appended to the
/// cache.
pub open spec fn import_effect(pre: Context, post: Context, m: Module) -> bool {
    &&& post.graph == pre.graph
    &&& post.module_roots == pre.module_roots
    &&& post.rules == pre.rules
    &&& post.rule_string == pre.rule_string
    &&& if pre.imported@.contains(m) {
        post.imported == pre.imported && post.objects == pre.objects
    } else {
        post.imported@ == pre.imported@.push(m) && match find_root(
            pre.module_roots@,
            m,
        ) {
            Some(root) => cache_view(post.objects@) == cache_view(pre.objects@)
                + populate_entries(pre.graph, root as int, spec_module_name(m)),
            None => post.objects == pre.objects,
        }
    }
}

/// How an optional import changes the context.
pub open spec fn import_opt_effect(pre: Context, post: Context, om: Option<Module>) -> bool {
    match om {
        Some(m) => import_effect(pre, post, m),
        None => post == pre,
    }
}

proof fn lemma_find_root_in_range(roots: Seq<(Module, usize)>, m: Module, n: int)
    requires
        forall|k: int| 0 <= k < roots.len() ==> #[trigger] roots[k].1 < n,
    ensures
        find_root(roots, m) matches Some(root) ==> root < n,
    decreases roots.len(),
{
    if roots.len() > 0 && roots[0].0 != m {
        lemma_find_root_in_range(roots.drop_first(), m, n);
    }
}

proof fn lemma_cache_lookup_in_range(entries: Seq<(Seq<char>, int)>, path: Seq<char>, n: int)
    requires
        entries_in_range(entries, n),
    ensures
        cache_lookup(entries, path) matches Some(id) ==> 0 <= id < n,
    decreases entries.len(),
{
    if entries.len() > 0 && entries[0].0 != path {
        assert(entries_in_range(entries.drop_first(), n)) by {
            assert(forall|k: int|
                0 <= k < entries.drop_first().len() ==> #[trigger] entries.drop_first()[k]
                    == entries[k + 1]);
        }
        lemma_cache_lookup_in_range(entries.drop_first(), path, n);
    }
}

impl Context {
    /// Well-formedness: the graph is well-formed, every module root and
    /// cache entry points into it, and the compiled rules are sane.
    pub open spec fn wf(self) -> bool {
        &&& self.graph.wf()
        &&& forall|k: int|
            0 <= k < self.module_roots@.len() ==> #[trigger] self.module_roots@[k].1
                < self.graph.nodes@.len()
        &&& entries_in_range(cache_view(self.objects@), self.graph.nodes@.len() as int)
        &&& rules_wf(self.rules)
    }

    /// A fresh context over engine-provided data: nothing imported yet,
    /// an empty path cache.
    pub fn new(
        graph: YrGraph,
        module_roots: Vec<(Module, usize)>,
        rules: Option<CompiledRules>,
        rule_string: Option<String>,
    ) -> (r: Context)
        requires
            graph.wf(),
            forall|k: int|
                0 <= k < module_roots@.len() ==> #[trigger] module_roots@[k].1
                    < graph.nodes@.len(),
            rules_wf(rules),
        ensures
            r.wf(),
            r.graph == graph,
            r.module_roots == module_roots,
            r.rules == rules,
            r.rule_string == rule_string,
            r.imported@ == Seq::<Module>::empty(),
            r.objects@ == Seq::<(String, usize)>::empty(),
    {
        let r = Context {
            graph,
            module_roots,
            imported: Vec::new(),
            objects: Vec::new(),
            rules,
            rule_string,
        };
        proof {
            assert(cache_view(r.objects@) =~= Seq::<(Seq<char>, int)>::empty());
        }
        r
    }

    /// Import `m` once: populate the path cache from its root by one
    /// preorder traversal.  Importing an already-imported module
    /// changes nothing, and importing never disturbs existing entries.
    pub fn import_module(&mut self, m: Module)
        requires
            old(self).wf(),
        ensures
            final(self).wf(),
            import_effect(*old(self), *final(self), m),
    {
        let mut already = false;
        let mut k: usize = 0;
        while k < self.imported.len()
            invariant
                k <= self.imported@.len(),
                already == exists|j: int| 0 <= j < k && self.imported@[j] == m,
                *self == *old(self),
            decreases self.imported@.len() - k,
        {
            if self.imported[k] == m {
                already = true;
            }
            k += 1;
        }
        if already {
            return ;
        }
        assert(!old(self).imported@.contains(m));
        self.imported.push(m);
        let root = self.find_root_ex(m);
        match root {
            Some(root) => {
                proof {
                    lemma_find_root_in_range(
                        self.module_roots@,
                        m,
                        self.graph.nodes@.len() as int,
                    );
                }
                let path = String::from_str(m.as_ref());
                let mut extra = collect_entries(&self.graph, root, path);
                let ghost extrav = cache_view(extra@);
                let ghost prev = cache_view(self.objects@);
                self.objects.append(&mut extra);
                proof {
                    assert(cache_view(self.objects@) =~= prev + extrav);
                }
            },
            None => {},
        }
    }

    fn find_root_ex(&self, m: Module) -> (r: Option<usize>)
        ensures
            r == find_root(self.module_roots@, m),
    {
        proof {
            assert(self.module_roots@.skip(0) =~= self.module_roots@);
        }
        let mut k: usize = 0;
        while k < self.module_roots.len()
            invariant
                k <= self.module_roots@.len(),
                find_root(self.module_roots@, m) == find_root(
                    self.module_roots@.skip(k as int),
                    m,
                ),
            decreases self.module_roots@.len() - k,
        {
            proof {
                assert(self.module_roots@.skip(k as int)[0] == self.module_roots@[k as int]);
                assert(self.module_roots@.skip(k as int).drop_first() =~= self.module_roots@.skip(
                    k as int + 1,
                ));
            }
            if self.module_roots[k].0 == m {
                return Some(self.module_roots[k].1);
            }
            k += 1;
        }
        proof {
            assert(self.module_roots@.skip(self.module_roots@.len() as int) =~= Seq::<
                (Module, usize),
            >::empty());
        }
        None
    }

    /// Look a canonical path up in the cache.
    pub fn get_object(&self, path: &str) -> (r: Option<usize>)
        ensures
            match cache_lookup(cache_view(self.objects@), path@) {
                Some(id) => r matches Some(p) && p as int == id,
                None => r is None,
            },
    {
        proof {
            assert(cache_view(self.objects@).skip(0) =~= cache_view(self.objects@));
        }
        let mut k: usize = 0;
        while k < self.objects.len()
            invariant
                k <= self.objects@.len(),
                cache_lookup(cache_view(self.objects@), path@) == cache_lookup(
                    cache_view(self.objects@).skip(k as int),
                    path@,
                ),
            decreases self.objects@.len() - k,
        {
            proof {
                assert(cache_view(self.objects@).skip(k as int)[0] == cache_view(
                    self.objects@,
                )[k as int]);
                assert(cache_view(self.objects@).skip(k as int).drop_first() =~= cache_view(
                    self.objects@,
                ).skip(k as int + 1));
            }
            if crate::text::str_eq(self.objects[k].0.as_str(), path) {
                return Some(self.objects[k].1);
            }
            k += 1;
        }
        proof {
            assert(cache_view(self.objects@).skip(cache_view(self.objects@).len() as int)
                =~= Seq::<(Seq<char>, int)>::empty());
        }
        None
    }

    fn reverse_lookup(&self, id: usize) -> (r: Option<String>)
        ensures
            match cache_reverse_lookup(cache_view(self.objects@), id as int) {
                Some(p) => r matches Some(q) && q@ == p,
                None => r is None,
            },
    {
        proof {
            assert(cache_view(self.objects@).skip(0) =~= cache_view(self.objects@));
        }
        let mut k: usize = 0;
        while k < self.objects.len()
            invariant
                k <= self.objects@.len(),
                cache_reverse_lookup(cache_view(self.objects@), id as int)
                    == cache_reverse_lookup(
                    cache_view(self.objects@).skip(k as int),
                    id as int,
                ),
            decreases self.objects@.len() - k,
        {
            proof {
                assert(cache_view(self.objects@).skip(k as int)[0] == cache_view(
                    self.objects@,
                )[k as int]);
                assert(cache_view(self.objects@).skip(k as int).drop_first() =~= cache_view(
                    self.objects@,
                ).skip(k as int + 1));
            }
            if self.objects[k].1 == id {
                return Some(self.objects[k].0.clone());
            }
            k += 1;
        }
        proof {
            assert(cache_view(self.objects@).skip(cache_view(self.objects@).len() as int)
                =~= Seq::<(Seq<char>, int)>::empty());
        }
        None
    }
}

// ---------------------------------------------------------------------
// Direct value resolution, with a single reference hop.
// ---------------------------------------------------------------------
/// Outcome of the best-effort reference chase over a path's dotted
/// prefixes: a rewritten path, nothing to chase, or a dangling
/// reference.
pub enum Chase {
    CNew(Seq<char>),
    CNone,
    CErr,
}

/// Walk the dotted prefixes of `name` from position `i`: the first
/// prefix cached as a reference node has the name rewritten to the
/// reference target's own path.  A reference without a cached target
/// is an evaluation error; a path without such a prefix is left to
/// fail as unknown.
pub open spec fn spec_chase(ctx: Context, name: Seq<char>, i: int) -> Chase
    decreases name.len() - i,
{
    if !(0 <= i <= name.len()) {
        Chase::CNone
    } else {
        let d = crate::parser::dot_to(name, i);
        if !(i <= d < name.len()) {
            Chase::CNone
        } else {
            let pref = name.subrange(0, d);
            match cache_lookup(cache_view(ctx.objects@), pref) {
                Some(id) => if 0 <= id < ctx.graph.nodes@.len() && ctx.graph.nodes@[id]
                    is Reference {
                    match ctx.graph.nodes@[id] {
                        YrNode::Reference(t) => match t {
                            Some(tid) => match cache_reverse_lookup(
                                cache_view(ctx.objects@),
                                tid as int,
                            ) {
                                Some(key) => Chase::CNew(key + name.skip(d)),
                                None => Chase::CErr,
                            },
                            None => Chase::CErr,
                        },
                        _ => Chase::CNone,
                    }
                } else {
                    spec_chase(ctx, name, d + 1)
                },
                None => spec_chase(ctx, name, d + 1),
            }
        }
    }
}

/// Outcome of resolving a path: a node, an unknown symbol under its
/// final (possibly rewritten) name, or an evaluation error.
pub enum Resolved {
    RId(int),
    RNotFound(Seq<char>),
    REval,
}

/// Resolve `name` against the cache: directly, or after one reference
/// hop over its dotted prefixes.
pub open spec fn spec_resolve(ctx: Context, name: Seq<char>) -> Resolved {
    match cache_lookup(cache_view(ctx.objects@), name) {
        Some(id) => Resolved::RId(id),
        None => match spec_chase(ctx, name, 0) {
            Chase::CNone => Resolved::RNotFound(name),
            Chase::CErr => Resolved::REval,
            Chase::CNew(n2) => match cache_lookup(cache_view(ctx.objects@), n2) {
                Some(id) => Resolved::RId(id),
                None => Resolved::RNotFound(n2),
            },
        },
    }
}

/// May a node stand as a direct lookup result?  Functions and
/// references may not.
pub open spec fn node_direct_ok(n: YrNode) -> bool {
    !(n is Function) && !(n is Reference)
}

/// What `get_value` returns: the rendered node, an unknown-symbol
/// error carrying the final name, or an evaluation error for a node
/// kind that is no direct result.
pub open spec fn spec_get_value_ok(
    ctx: Context,
    name: Seq<char>,
    r: Result<YrValue, YariError>,
) -> bool {
    match spec_resolve(ctx, name) {
        Resolved::RId(id) => if 0 <= id < ctx.graph.nodes@.len() && node_direct_ok(
            ctx.graph.nodes@[id],
        ) {
            r matches Ok(v) && ctx.graph.node_matches(id, v)
        } else {
            r == Err::<YrValue, YariError>(YariError::EvalError)
        },
        Resolved::RNotFound(n) => r matches Err(YariError::SymbolNotFound(s)) && s@ == n,
        Resolved::REval => r == Err::<YrValue, YariError>(YariError::EvalError),
    }
}

enum ChaseRes {
    New(String),
    Stop,
    Fail,
}

impl Context {
    fn chase_ex(&self, name: &str, v: &Vec<char>) -> (r: ChaseRes)
        requires
            self.wf(),
            v@ == name@,
        ensures
            match spec_chase(*self, name@, 0) {
                Chase::CNew(n2) => r matches ChaseRes::New(s) && s@ == n2,
                Chase::CNone => r is Stop,
                Chase::CErr => r is Fail,
            },
    {
        let mut i: usize = 0;
        loop
            invariant
                self.wf(),
                v@ == name@,
                i <= v@.len(),
                spec_chase(*self, name@, 0) == spec_chase(*self, name@, i as int),
            decreases v@.len() - i,
        {
            let mut d: usize = i;
            while d < v.len() && v[d] != '.'
                invariant
                    i <= d <= v@.len(),
                    crate::parser::dot_to(v@, i as int) == crate::parser::dot_to(
                        v@,
                        d as int,
                    ),
                decreases v@.len() - d,
            {
                d += 1;
            }
            if d >= v.len() {
                return ChaseRes::Stop;
            }
            let pref = name.substring_char(0, d);
            match self.get_object(pref) {
                Some(id) => {
                    proof {
                        lemma_cache_lookup_in_range(
                            cache_view(self.objects@),
                            pref@,
                            self.graph.nodes@.len() as int,
                        );
                    }
                    let is_ref = match &self.graph.nodes[id] {
                        YrNode::Reference(_) => true,
                        _ => false,
                    };
                    if is_ref {
                        match &self.graph.nodes[id] {
                            YrNode::Reference(t) => match t {
                                Some(tid) => match self.reverse_lookup(*tid) {
                                    Some(key) => {
                                        let mut out = key;
                                        out.append(name.substring_char(d, v.len()));
                                        return ChaseRes::New(out);
                                    },
                                    None => {
                                        return ChaseRes::Fail;
                                    },
                                },
                                None => {
                                    return ChaseRes::Fail;
                                },
                            },
                            _ => {
                                return ChaseRes::Fail;
                            },
                        }
                    }
                },
                None => {},
            }
            i = d + 1;
        }
    }

    /// Resolve a canonical path to a value: look it up directly, or —
    /// when a dotted prefix turns out to be a reference node — follow
    /// that reference once and retry.  Function and reference nodes are
    /// no valid direct results.
    pub fn get_value(&self, name: &str) -> (r: Result<YrValue, YariError>)
        requires
            self.wf(),
        ensures
            spec_get_value_ok(*self, name@, r),
    {
        let v = chars_of(name);
        let (fname, id_opt): (String, Option<usize>) = match self.get_object(name) {
            Some(id) => (String::from_str(name), Some(id)),
            None => match self.chase_ex(name, &v) {
                ChaseRes::New(n2) => {
                    let o = self.get_object(n2.as_str());
                    (n2, o)
                },
                ChaseRes::Stop => (String::from_str(name), None),
                ChaseRes::Fail => {
                    return Err(YariError::EvalError);
                },
            },
        };
        match id_opt {
            None => Err(YariError::SymbolNotFound(fname)),
            Some(id) => {
                proof {
                    lemma_cache_lookup_in_range(
                        cache_view(self.objects@),
                        fname@,
                        self.graph.nodes@.len() as int,
                    );
                }
                match &self.graph.nodes[id] {
                    YrNode::Function(_) => Err(YariError::EvalError),
                    YrNode::Reference(_) => Err(YariError::EvalError),
                    _ => Ok(value_of_plain(&self.graph, id)),
                }
            },
        }
    }
}

// ---------------------------------------------------------------------
// Function calls.
// ---------------------------------------------------------------------
/// The format string of an argument list: one tag per argument.
pub open spec fn args_fmt(args: Seq<crate::parser::Argument>) -> Seq<char> {
    args.map_values(|a: crate::parser::Argument| a.spec_tag())
}

/// The return node of the first overload whose format matches `fmt`.
pub open spec fn find_overload(protos: Seq<FunctionPrototype>, fmt: Seq<char>) -> Option<
    int,
>
    decreases protos.len(),
{
    if protos.len() == 0 {
        None
    } else if protos[0].arguments_fmt@ == fmt {
        Some(protos[0].return_obj as int)
    } else {
        find_overload(protos.drop_first(), fmt)
    }
}

/// Outcome of dispatching a call: the selected overload's return node,
/// a matched overload with unsupported float arguments, or no match.
pub enum CallOut {
    CRet(int),
    CFloaty,
    CNF,
}

/// Dispatch a call of `name` with argument format `fmt`: the callee
/// must be a cached function node, and one of its overloads must match
/// the format exactly — no coercion, no partial match.  Float-typed
/// arguments are accepted by the grammar but unsupported here.
pub open spec fn spec_call_out(ctx: Context, name: Seq<char>, fmt: Seq<char>) -> CallOut {
    match cache_lookup(cache_view(ctx.objects@), name) {
        Some(id) => if 0 <= id < ctx.graph.nodes@.len() {
            match ctx.graph.nodes@[id] {
                YrNode::Function(protos) => match find_overload(protos@, fmt) {
                    Some(ret) => if fmt.contains('f') {
                        CallOut::CFloaty
                    } else {
                        CallOut::CRet(ret)
                    },
                    None => CallOut::CNF,
                },
                _ => CallOut::CNF,
            }
        } else {
            CallOut::CNF
        },
        None => CallOut::CNF,
    }
}

impl Context {
    /// Call the function at path `name` with `args`: select the
    /// overload whose parameter format equals the arguments' tags, and
    /// render its return node (one reference hop allowed).
    #[verifier::loop_isolation(false)]
    pub fn call_function_with_args(&self, name: &str, args: &Vec<crate::parser::Argument>) -> (r:
        Result<YrValue, YariError>)
        requires
            self.wf(),
        ensures
            match spec_call_out(*self, name@, args_fmt(args@)) {
                CallOut::CRet(ret) => r matches Ok(v) && 0 <= ret
                    < self.graph.nodes@.len() && self.graph.value_matches(ret, v),
                CallOut::CFloaty => r == Err::<YrValue, YariError>(YariError::EvalError),
                CallOut::CNF => r matches Err(YariError::SymbolNotFound(s)) && s@
                    == name@,
            },
    {
        let id = match self.get_object(name) {
            Some(id) => id,
            None => {
                return Err(YariError::SymbolNotFound(String::from_str(name)));
            },
        };
        proof {
            lemma_cache_lookup_in_range(
                cache_view(self.objects@),
                name@,
                self.graph.nodes@.len() as int,
            );
        }
        let mut fmt = String::new();
        let mut k: usize = 0;
        while k < args.len()
            invariant
                k <= args@.len(),
                fmt@ == args_fmt(args@.subrange(0, k as int)),
            decreases args@.len() - k,
        {
            fmt.append(args[k].to_str());
            proof {
                assert(args@.subrange(0, k + 1 as int).map_values(
                    |a: crate::parser::Argument| a.spec_tag(),
                ) =~= args@.subrange(0, k as int).map_values(
                    |a: crate::parser::Argument| a.spec_tag(),
                ) + seq![args@[k as int].spec_tag()]);
            }
            k += 1;
        }
        proof {
            assert(args@.subrange(0, args@.len() as int) =~= args@);
        }
        let mut has_float = false;
        let mut k2: usize = 0;
        while k2 < args.len()
            invariant
                k2 <= args@.len(),
                fmt@ == args_fmt(args@),
                has_float == exists|j: int|
                    0 <= j < k2 && #[trigger] args@[j].spec_tag() == 'f',
            decreases args@.len() - k2,
        {
            match &args[k2] {
                crate::parser::Argument::Float(_) => {
                    has_float = true;
                    proof {
                        assert(args@[k2 as int].spec_tag() == 'f');
                    }
                },
                _ => {
                    proof {
                        assert(args@[k2 as int].spec_tag() != 'f');
                    }
                },
            }
            k2 += 1;
        }
        proof {
            if has_float {
                let j = choose|j: int| 0 <= j < args@.len() && #[trigger] args@[
                    j
                ].spec_tag() == 'f';
                assert(args_fmt(args@)[j] == 'f');
                assert(args_fmt(args@).contains('f'));
            } else {
                if args_fmt(args@).contains('f') {
                    let j = choose|j: int|
                        0 <= j < args_fmt(args@).len() && args_fmt(args@)[j] == 'f';
                    assert(args@[j].spec_tag() == 'f');
                }
            }
        }
        match &self.graph.nodes[id] {
            YrNode::Function(protos) => {
                proof {
                    assert(self.graph.node_wf(id as int));
                    assert(protos@.skip(0) =~= protos@);
                }
                let mut p: usize = 0;
                while p < protos.len()
                    invariant
                        p <= protos@.len(),
                        forall|k3: int|
                            0 <= k3 < protos@.len() ==> #[trigger] protos@[k3].return_obj
                                < self.graph.nodes@.len(),
                        find_overload(protos@, fmt@) == find_overload(
                            protos@.skip(p as int),
                            fmt@,
                        ),
                    decreases protos@.len() - p,
                {
                    proof {
                        assert(protos@.skip(p as int)[0] == protos@[p as int]);
                        assert(protos@.skip(p as int).drop_first() =~= protos@.skip(
                            p as int + 1,
                        ));
                    }
                    if protos[p].arguments_fmt == fmt {
                        if has_float {
                            return Err(YariError::EvalError);
                        }
                        proof {
                            assert(protos@[p as int].return_obj < self.graph.nodes@.len());
                        }
                        return Ok(crate::graph::value_of(&self.graph, protos[p].return_obj));
                    }
                    p += 1;
                }
                proof {
                    assert(protos@.skip(protos@.len() as int) =~= Seq::<
                        FunctionPrototype,
                    >::empty());
                }
                Err(YariError::SymbolNotFound(String::from_str(name)))
            },
            _ => Err(YariError::SymbolNotFound(String::from_str(name))),
        }
    }
}

// ---------------------------------------------------------------------
// Rule context and string predicates.
// ---------------------------------------------------------------------
/// The index of the first rule named `name`.
pub open spec fn find_rule_index(rules: Seq<YrRule>, name: Seq<char>) -> Option<int>
    decreases rules.len(),
{
    if rules.len() == 0 {
        None
    } else if rules[0].identifier@ == name {
        Some(0)
    } else {
        match find_rule_index(rules.drop_first(), name) {
            Some(i) => Some(i + 1),
            None => None,
        }
    }
}

proof fn lemma_find_rule_index_bounds(rules: Seq<YrRule>, name: Seq<char>)
    ensures
        find_rule_index(rules, name) matches Some(i) ==> 0 <= i < rules.len()
            && rules[i].identifier@ == name,
    decreases rules.len(),
{
    if rules.len() > 0 && rules[0].identifier@ != name {
        lemma_find_rule_index_bounds(rules.drop_first(), name);
    }
}

/// The length of the common prefix of `a` and `b`.
pub open spec fn common_prefix_len(a: Seq<char>, b: Seq<char>) -> int
    decreases a.len(),
{
    if a.len() > 0 && b.len() > 0 && a[0] == b[0] {
        1 + common_prefix_len(a.drop_first(), b.drop_first())
    } else {
        0
    }
}

/// Does the query prefix `pref` select the declared string `id`?
/// Either they are equal, or `pref` carries a `*` at the point where
/// the comparison stopped, which matches any remaining suffix.
pub open spec fn prefix_selects(id: Seq<char>, pref: Seq<char>) -> bool {
    let k = common_prefix_len(id, pref);
    (k == id.len() && k == pref.len()) || (k < pref.len() && pref[k] == '*')
}

/// The index of the first declared string `pref` selects.
pub open spec fn find_string_index(strings: Seq<YrString>, pref: Seq<char>) -> Option<int>
    decreases strings.len(),
{
    if strings.len() == 0 {
        None
    } else if prefix_selects(strings[0].identifier@, pref) {
        Some(0)
    } else {
        match find_string_index(strings.drop_first(), pref) {
            Some(i) => Some(i + 1),
            None => None,
        }
    }
}

proof fn lemma_find_string_index_bounds(strings: Seq<YrString>, pref: Seq<char>)
    ensures
        find_string_index(strings, pref) matches Some(i) ==> 0 <= i < strings.len()
            && prefix_selects(strings[i].identifier@, pref),
    decreases strings.len(),
{
    if strings.len() > 0 && !prefix_selects(strings[0].identifier@, pref) {
        lemma_find_string_index_bounds(strings.drop_first(), pref);
    }
}

/// Outcome of a string predicate over a rule's recorded matches.
pub enum StrOut {
    SVal(i64),
    SUndeclared,
    SOutOfBounds,
}

/// Evaluate a string predicate over the matches of the string `pref`
/// selects in `rule`: whether it matched, how often, or the offset or
/// length of the 1-based `index`-th match.
pub open spec fn spec_string_out(
    rule: YrRule,
    op: crate::parser::StrOperation,
    pref: Seq<char>,
    index: Option<i64>,
) -> StrOut {
    match find_string_index(rule.strings@, pref) {
        None => StrOut::SUndeclared,
        Some(si) => {
            let ms = rule.strings@[si].matches@;
            match op {
                crate::parser::StrOperation::MatchesOnce => StrOut::SVal(
                    if ms.len() > 0 {
                        1
                    } else {
                        0
                    },
                ),
                crate::parser::StrOperation::MatchesCount => StrOut::SVal(ms.len() as i64),
                crate::parser::StrOperation::MatchOffset => match index {
                    Some(ix) => if 1 <= ix && ix <= ms.len() {
                        StrOut::SVal(ms[ix - 1].offset)
                    } else {
                        StrOut::SOutOfBounds
                    },
                    None => StrOut::SOutOfBounds,
                },
                crate::parser::StrOperation::MatchLength => match index {
                    Some(ix) => if 1 <= ix && ix <= ms.len() {
                        StrOut::SVal(ms[ix - 1].length)
                    } else {
                        StrOut::SOutOfBounds
                    },
                    None => StrOut::SOutOfBounds,
                },
            }
        },
    }
}

fn prefix_selects_ex(id: &str, pref_chars: &Vec<char>, ghost_pref: Ghost<Seq<char>>) -> (r:
    bool)
    requires
        pref_chars@ == ghost_pref@,
    ensures
        r == prefix_selects(id@, ghost_pref@),
{
    let a = chars_of(id);
    let b = pref_chars;
    proof {
        assert(a@.skip(0) =~= a@);
        assert(b@.skip(0) =~= b@);
    }
    let mut k: usize = 0;
    while k < a.len() && k < b.len() && a[k] == b[k]
        invariant
            k <= a@.len(),
            k <= b@.len(),
            a@ == id@,
            b@ == ghost_pref@,
            common_prefix_len(a@, b@) == k + common_prefix_len(
                a@.skip(k as int),
                b@.skip(k as int),
            ),
        decreases a@.len() - k,
    {
        proof {
            assert(a@.skip(k as int)[0] == a@[k as int]);
            assert(b@.skip(k as int)[0] == b@[k as int]);
            assert(a@.skip(k as int).drop_first() =~= a@.skip(k as int + 1));
            assert(b@.skip(k as int).drop_first() =~= b@.skip(k as int + 1));
        }
        k += 1;
    }
    proof {
        assert(common_prefix_len(a@.skip(k as int), b@.skip(k as int)) == 0);
        assert(common_prefix_len(a@, b@) == k);
    }
    (k == a.len() && k == b.len()) || (k < b.len() && b[k] == '*')
}

impl Context {
    /// Resolve an optional rule context against the compiled rule set:
    /// requesting a context with no rule set compiled at all is an
    /// error; a missing rule among compiled ones resolves to nothing.
    pub fn get_rule_context(&self, rule_name: Option<&str>) -> (r: Result<
        Option<usize>,
        YariError,
    >)
        ensures
            match rule_name {
                None => r == Ok::<Option<usize>, YariError>(None),
                Some(n) => match self.rules {
                    None => r == Err::<Option<usize>, YariError>(
                        YariError::RuleMissingError,
                    ),
                    Some(cr) => match find_rule_index(cr.rules@, n@) {
                        Some(i) => r matches Ok(Some(ix)) && ix as int == i && i
                            < cr.rules@.len(),
                        None => r == Ok::<Option<usize>, YariError>(None),
                    },
                },
            },
    {
        let n = match rule_name {
            None => {
                return Ok(None);
            },
            Some(n) => n,
        };
        let cr = match &self.rules {
            None => {
                return Err(YariError::RuleMissingError);
            },
            Some(cr) => cr,
        };
        proof {
            lemma_find_rule_index_bounds(cr.rules@, n@);
            assert(cr.rules@.skip(0) =~= cr.rules@);
        }
        let mut k: usize = 0;
        #[verifier::loop_isolation(false)]
        while k < cr.rules.len()
            invariant
                k <= cr.rules@.len(),
                forall|j: int| 0 <= j < k ==> #[trigger] cr.rules@[j].identifier@ != n@,
                match find_rule_index(cr.rules@.skip(k as int), n@) {
                    Some(i) => find_rule_index(cr.rules@, n@) == Some(i + k),
                    None => find_rule_index(cr.rules@, n@) is None,
                },
            decreases cr.rules@.len() - k,
        {
            proof {
                assert(cr.rules@.skip(k as int)[0] == cr.rules@[k as int]);
                assert(cr.rules@.skip(k as int).drop_first() =~= cr.rules@.skip(
                    k as int + 1,
                ));
            }
            if crate::text::str_eq(cr.rules[k].identifier.as_str(), n) {
                return Ok(Some(k));
            }
            k += 1;
        }
        proof {
            assert(cr.rules@.skip(cr.rules@.len() as int) =~= Seq::<YrRule>::empty());
        }
        Ok(None)
    }

    /// Evaluate a string predicate against `rule`'s recorded matches:
    /// find the declared string the prefix selects, then report its
    /// match count, first-match flag, or the chosen match's offset or
    /// length, as an integer value.
    #[verifier::loop_isolation(false)]
    pub fn get_string(
        &self,
        rule: &YrRule,
        op: crate::parser::StrOperation,
        prefix: &str,
        index: Option<i64>,
    ) -> (r: Result<YrValue, YariError>)
        requires
            rule_wf(*rule),
        ensures
            match spec_string_out(*rule, op, prefix@, index) {
                StrOut::SVal(x) => r == Ok::<YrValue, YariError>(YrValue::Integer(x)),
                StrOut::SUndeclared => r == Err::<YrValue, YariError>(
                    YariError::UndeclaredStringError,
                ),
                StrOut::SOutOfBounds => r == Err::<YrValue, YariError>(
                    YariError::IndexOutOfBounds,
                ),
            },
    {
        proof {
            lemma_find_string_index_bounds(rule.strings@, prefix@);
            assert(rule.strings@.skip(0) =~= rule.strings@);
        }
        let pref_chars = chars_of(prefix);
        let mut k: usize = 0;
        let mut found: Option<usize> = None;
        while k < rule.strings.len() && found.is_none()
            invariant
                k <= rule.strings@.len(),
                match found {
                    Some(si) => si == k - 1 && find_string_index(rule.strings@, prefix@)
                        == Some(si as int),
                    None => match find_string_index(rule.strings@.skip(k as int), prefix@) {
                        Some(i) => find_string_index(rule.strings@, prefix@) == Some(
                            i + k,
                        ),
                        None => find_string_index(rule.strings@, prefix@) is None,
                    },
                },
            decreases rule.strings@.len() - k,
        {
            proof {
                assert(rule.strings@.skip(k as int)[0] == rule.strings@[k as int]);
                assert(rule.strings@.skip(k as int).drop_first() =~= rule.strings@.skip(
                    k as int + 1,
                ));
            }
            if prefix_selects_ex(
                rule.strings[k].identifier.as_str(),
                &pref_chars,
                Ghost(prefix@),
            ) {
                found = Some(k);
            }
            k += 1;
        }
        let si = match found {
            Some(si) => si,
            None => {
                proof {
                    assert(rule.strings@.skip(rule.strings@.len() as int) =~= Seq::<
                        YrString,
                    >::empty());
                }
                return Err(YariError::UndeclaredStringError);
            },
        };
        let ms = &rule.strings[si].matches;
        proof {
            assert(rule.strings@[si as int].matches@.len() <= 0x7fff_ffff_ffff_ffff);
        }
        match op {
            crate::parser::StrOperation::MatchesOnce => Ok(
                YrValue::Integer(
                    if ms.len() > 0 {
                        1
                    } else {
                        0
                    },
                ),
            ),
            crate::parser::StrOperation::MatchesCount => Ok(
                YrValue::Integer(ms.len() as i64),
            ),
            crate::parser::StrOperation::MatchOffset => match index {
                Some(ix) => {
                    if 1 <= ix && ix <= ms.len() as i64 {
                        Ok(YrValue::Integer(ms[(ix - 1) as usize].offset))
                    } else {
                        Err(YariError::IndexOutOfBounds)
                    }
                },
                None => Err(YariError::IndexOutOfBounds),
            },
            crate::parser::StrOperation::MatchLength => match index {
                Some(ix) => {
                    if 1 <= ix && ix <= ms.len() as i64 {
                        Ok(YrValue::Integer(ms[(ix - 1) as usize].length))
                    } else {
                        Err(YariError::IndexOutOfBounds)
                    }
                },
                None => Err(YariError::IndexOutOfBounds),
            },
        }
    }
}

// ---------------------------------------------------------------------
// Fallback scan reports.
// ---------------------------------------------------------------------
/// Does one of the names in `v` read `n`?
pub open spec fn names_contain(v: Seq<String>, n: Seq<char>) -> bool {
    exists|i: int| 0 <= i < v.len() && #[trigger] v[i]@ == n
}

fn names_contain_ex(v: &Vec<String>, n: &str) -> (r: bool)
    ensures
        r == names_contain(v@, n@),
{
    let mut k: usize = 0;
    while k < v.len()
        invariant
            k <= v@.len(),
            forall|j: int| 0 <= j < k ==> #[trigger] v@[j]@ != n@,
        decreases v@.len() - k,
    {
        if crate::text::str_eq(v[k].as_str(), n) {
            return true;
        }
        k += 1;
    }
    false
}

impl ScanReport {
    /// Resolve a bare identifier in fallback mode: `1` when the scan
    /// reported the rule of that name as matching, `0` when it was
    /// reported as not matching, and an unknown symbol otherwise.
    pub fn resolve(&self, name: &str) -> (r: Result<YrValue, YariError>)
        ensures
            names_contain(self.matching@, name@) ==> r == Ok::<YrValue, YariError>(
                YrValue::Integer(1),
            ),
            !names_contain(self.matching@, name@) && names_contain(
                self.not_matching@,
                name@,
            ) ==> r == Ok::<YrValue, YariError>(YrValue::Integer(0)),
            !names_contain(self.matching@, name@) && !names_contain(
                self.not_matching@,
                name@,
            ) ==> (r matches Err(YariError::SymbolNotFound(s)) && s@ == name@),
    {
        if names_contain_ex(&self.matching, name) {
            Ok(YrValue::Integer(1))
        } else if names_contain_ex(&self.not_matching, name) {
            Ok(YrValue::Integer(0))
        } else {
            Err(YariError::SymbolNotFound(String::from_str(name)))
        }
    }
}

// ---------------------------------------------------------------------
// The orchestrator.
// ---------------------------------------------------------------------
/// The module an expression's leading path segment names, if any.
pub open spec fn spec_module_of(e: crate::parser::ExprSpec) -> Option<Module> {
    match e {
        crate::parser::ExprSpec::EFunction(n, _) => crate::module::spec_module_from(
            crate::parser::first_segment(n),
        ),
        crate::parser::ExprSpec::EValue(n) => crate::module::spec_module_from(
            crate::parser::first_segment(n),
        ),
        _ => None,
    }
}

/// The format tag of a ghost argument.
pub open spec fn argspec_tag(a: crate::parser::ArgSpec) -> char {
    match a {
        crate::parser::ArgSpec::AString(_) => 's',
        crate::parser::ArgSpec::ARegexp(_, _) => 'r',
        crate::parser::ArgSpec::AInteger(_) => 'i',
        crate::parser::ArgSpec::AFloat(_) => 'f',
    }
}

/// The format string of a ghost argument list.
pub open spec fn argspecs_fmt(args: Seq<crate::parser::ArgSpec>) -> Seq<char> {
    args.map_values(|a: crate::parser::ArgSpec| argspec_tag(a))
}

/// Resolution of an optional rule context.
pub enum RcOut {
    RcMissing,
    RcNone,
    RcIdx(int),
}

/// Resolve an optional rule context name against the compiled rules.
pub open spec fn spec_rule_ctx(ctx: Context, octx: Option<Seq<char>>) -> RcOut {
    match octx {
        None => RcOut::RcNone,
        Some(n) => match ctx.rules {
            None => RcOut::RcMissing,
            Some(cr) => match find_rule_index(cr.rules@, n) {
                Some(i) => RcOut::RcIdx(i),
                None => RcOut::RcNone,
            },
        },
    }
}

/// What `eval` answers for the parsed query `(octx, e)` over the
/// post-import context `ctx`: the whole dispatch of one evaluation,
/// including when a fallback compile-and-scan is requested instead of
/// a direct value.
pub open spec fn spec_eval_ok(
    ctx: Context,
    octx: Option<Seq<char>>,
    e: crate::parser::ExprSpec,
    r: Result<Evaluation, YariError>,
) -> bool {
    if spec_rule_ctx(ctx, octx) is RcMissing {
        r == Err::<Evaluation, YariError>(YariError::RuleMissingError)
    } else {
        match e {
            crate::parser::ExprSpec::EFunction(name, args) => match spec_call_out(
                ctx,
                name,
                argspecs_fmt(args),
            ) {
                CallOut::CRet(ret) => r matches Ok(Evaluation::Value(v))
                    && ctx.graph.value_matches(ret, v),
                CallOut::CFloaty => r == Err::<Evaluation, YariError>(
                    YariError::EvalError,
                ),
                CallOut::CNF => r matches Err(YariError::SymbolNotFound(s)) && s@ == name,
            },
            crate::parser::ExprSpec::EValue(name) => match spec_resolve(ctx, name) {
                Resolved::RId(id) => if 0 <= id < ctx.graph.nodes@.len() && node_direct_ok(
                    ctx.graph.nodes@[id],
                ) {
                    r matches Ok(Evaluation::Value(v)) && ctx.graph.node_matches(id, v)
                } else {
                    spec_value_fallback(ctx, octx, name, r)
                },
                Resolved::RNotFound(_) => spec_value_fallback(ctx, octx, name, r),
                Resolved::REval => spec_value_fallback(ctx, octx, name, r),
            },
            crate::parser::ExprSpec::EString(op, pref, ix) => match spec_rule_ctx(
                ctx,
                octx,
            ) {
                RcOut::RcIdx(i) => match ctx.rules {
                    Some(cr) => if 0 <= i < cr.rules@.len() {
                        match spec_string_out(cr.rules@[i], op, pref, ix) {
                            StrOut::SVal(x) => r == Ok::<Evaluation, YariError>(
                                Evaluation::Value(YrValue::Integer(x)),
                            ),
                            StrOut::SUndeclared => r == Err::<Evaluation, YariError>(
                                YariError::UndeclaredStringError,
                            ),
                            StrOut::SOutOfBounds => r == Err::<Evaluation, YariError>(
                                YariError::IndexOutOfBounds,
                            ),
                        }
                    } else {
                        true
                    },
                    None => true,
                },
                _ => r == Err::<Evaluation, YariError>(YariError::RuleMissingError),
            },
            crate::parser::ExprSpec::EComplex(text) => match octx {
                Some(rn) => match ctx.rule_string {
                    None => r == Err::<Evaluation, YariError>(YariError::RuleMissingError),
                    Some(rs) => r matches Ok(Evaluation::NeedsScan { rules, name }) && rules@
                        == crate::rewrite::spec_rewrite(rs@, rn, text) && name@ == rn,
                },
                None => r == Err::<Evaluation, YariError>(YariError::RuleMissingError),
            },
        }
    }
}

/// The fallback a failed direct lookup takes: with a rule context, the
/// rule source is rewritten around the access and handed out for a
/// scan; without one, the unchanged rule source is scanned so the name
/// can be read as a rule of its own — or, with no rule source at all,
/// the symbol is unknown.
pub open spec fn spec_value_fallback(
    ctx: Context,
    octx: Option<Seq<char>>,
    name: Seq<char>,
    r: Result<Evaluation, YariError>,
) -> bool {
    match octx {
        Some(rn) => match ctx.rule_string {
            None => r == Err::<Evaluation, YariError>(YariError::RuleMissingError),
            Some(rs) => r matches Ok(Evaluation::NeedsScan { rules, name: nm }) && rules@
                == crate::rewrite::spec_rewrite(rs@, rn, name) && nm@ == rn,
        },
        None => match ctx.rule_string {
            Some(rs) => r matches Ok(Evaluation::NeedsScan { rules, name: nm }) && rules@
                == rs@ && nm@ == name,
            None => r matches Err(YariError::SymbolNotFound(s)) && s@ == name,
        },
    }
}

/// Law: a path the cache already resolves keeps resolving to the very
/// same node across any later module import — entries are only ever
/// appended, never evicted or shadowed, until the context is dropped.
pub proof fn lemma_import_preserves_lookup(
    pre: Context,
    post: Context,
    m: Module,
    path: Seq<char>,
)
    requires
        import_effect(pre, post, m),
        cache_lookup(cache_view(pre.objects@), path) is Some,
    ensures
        cache_lookup(cache_view(post.objects@), path) == cache_lookup(
            cache_view(pre.objects@),
            path,
        ),
{
    if !pre.imported@.contains(m) {
        match find_root(pre.module_roots@, m) {
            Some(root) => {
                lemma_cache_lookup_stable(
                    cache_view(pre.objects@),
                    populate_entries(pre.graph, root as int, spec_module_name(m)),
                    path,
                );
            },
            None => {},
        }
    }
}

impl Context {
    /// Evaluate one query.  Parse it; import the module its leading
    /// segment names (once per context); resolve the rule context; and
    /// dispatch: function calls and value accesses resolve through the
    /// path cache, string predicates read the rule's match records,
    /// and everything the direct path cannot answer comes back as a
    /// `NeedsScan` request for the engine, to be finished with
    /// [`ScanReport::resolve`].
    pub fn eval(&mut self, query: &str) -> (r: Result<Evaluation, YariError>)
        requires
            old(self).wf(),
        ensures
            final(self).wf(),
            match crate::parser::spec_parse(query@) {
                None => r == Err::<Evaluation, YariError>(YariError::ParserError)
                    && *final(self) == *old(self),
                Some((octx, e)) => import_opt_effect(
                    *old(self),
                    *final(self),
                    spec_module_of(e),
                ) && spec_eval_ok(*final(self), octx, e, r),
            },
    {
        let (octx, e) = match crate::parser::parse(query) {
            Ok(p) => p,
            Err(_) => {
                return Err(YariError::ParserError);
            },
        };
        match e.get_module() {
            Some(m) => self.import_module(m),
            None => {},
        }
        let rcv: Option<usize> = match self.get_rule_context(
            match &octx {
                Some(n) => Some(n.as_str()),
                None => None,
            },
        ) {
            Ok(x) => x,
            Err(er) => {
                return Err(er);
            },
        };
        match e {
            crate::parser::Expression::Function { name, args } => {
                proof {
                    assert(args_fmt(args@) =~= argspecs_fmt(
                        args@.map_values(|a: crate::parser::Argument| crate::parser::arg_view(a)),
                    ));
                }
                match self.call_function_with_args(name.as_str(), &args) {
                    Ok(v) => Ok(Evaluation::Value(v)),
                    Err(er) => Err(er),
                }
            },
            crate::parser::Expression::Value(name) => {
                match self.get_value(name.as_str()) {
                    Ok(v) => Ok(Evaluation::Value(v)),
                    Err(_) => match octx {
                        Some(rn) => match &self.rule_string {
                            None => Err(YariError::RuleMissingError),
                            Some(rs) => {
                                match crate::rewrite::expression_to_rules_with_condition(
                                    rs.as_str(),
                                    rn.as_str(),
                                    name.as_str(),
                                ) {
                                    Ok(rr) => Ok(
                                        Evaluation::NeedsScan { rules: rr, name: rn },
                                    ),
                                    Err(er) => Err(er),
                                }
                            },
                        },
                        None => match &self.rule_string {
                            Some(rs) => Ok(
                                Evaluation::NeedsScan { rules: rs.clone(), name },
                            ),
                            None => Err(YariError::SymbolNotFound(name)),
                        },
                    },
                }
            },
            crate::parser::Expression::String { operator, prefix, index } => {
                match rcv {
                    Some(i) => match &self.rules {
                        Some(cr) => {
                            let rule = &cr.rules[i];
                            match self.get_string(rule, operator, prefix.as_str(), index) {
                                Ok(v) => Ok(Evaluation::Value(v)),
                                Err(er) => Err(er),
                            }
                        },
                        None => Err(YariError::RuleMissingError),
                    },
                    None => Err(YariError::RuleMissingError),
                }
            },
            crate::parser::Expression::Complex(text) => {
                match octx {
                    Some(rn) => match &self.rule_string {
                        None => Err(YariError::RuleMissingError),
                        Some(rs) => {
                            match crate::rewrite::expression_to_rules_with_condition(
                                rs.as_str(),
                                rn.as_str(),
                                text.as_str(),
                            ) {
                                Ok(rr) => Ok(Evaluation::NeedsScan { rules: rr, name: rn }),
                                Err(er) => Err(er),
                            }
                        },
                    },
                    None => Err(YariError::RuleMissingError),
                }
            },
        }
    }
}

// ---------------------------------------------------------------------
// The builder for evaluation contexts.
// ---------------------------------------------------------------------
/// Construction-time configuration: the rule source, the sample path,
/// and per-module auxiliary data paths.  The surrounding program reads
/// the files, asks the engine to compile and import, and builds the
/// [`Context`] from the results.
#[derive(Debug, PartialEq)]
pub struct ContextBuilder {
    pub rule_string: Option<String>,
    pub sample: Option<String>,
    pub module_data: Vec<(Module, String)>,
}

/// The index of the first configured data entry for module `m`.
pub open spec fn find_module_data_index(v: Seq<(Module, String)>, m: Module) -> Option<int>
    decreases v.len(),
{
    if v.len() == 0 {
        None
    } else if v[0].0 == m {
        Some(0)
    } else {
        match find_module_data_index(v.drop_first(), m) {
            Some(i) => Some(i + 1),
            None => None,
        }
    }
}

proof fn lemma_find_module_data_index_bounds(v: Seq<(Module, String)>, m: Module)
    ensures
        find_module_data_index(v, m) matches Some(i) ==> 0 <= i < v.len(),
    decreases v.len(),
{
    if v.len() > 0 && v[0].0 != m {
        lemma_find_module_data_index_bounds(v.drop_first(), m);
    }
}

/// The end of the run of characters other than `=` at `i`.
pub open spec fn eq_to(s: Seq<char>, i: int) -> int
    decreases s.len() - i,
{
    if 0 <= i < s.len() && s[i] != '=' {
        eq_to(s, i + 1)
    } else {
        i
    }
}

/// What a `MODULE=DATA` argument parses to: exactly one `=`, a known
/// module name before it, and the data path after it.
pub open spec fn spec_module_data(s: Seq<char>) -> Option<(Module, Seq<char>)> {
    let d = eq_to(s, 0);
    if 0 <= d < s.len() && eq_to(s, d + 1) == s.len() {
        match crate::module::spec_module_from(s.subrange(0, d)) {
            Some(m) => Some((m, s.subrange(d + 1, s.len() as int))),
            None => None,
        }
    } else {
        None
    }
}

impl ContextBuilder {
    /// An empty configuration.
    pub fn new() -> (r: ContextBuilder)
        ensures
            r.rule_string is None,
            r.sample is None,
            r.module_data@ == Seq::<(Module, String)>::empty(),
    {
        ContextBuilder { rule_string: None, sample: None, module_data: Vec::new() }
    }

    /// Use `rule_string` as the rule source; `None` keeps the context
    /// bare.
    pub fn with_rule_string(self, rule_string: Option<String>) -> (r: ContextBuilder)
        ensures
            r.rule_string == rule_string,
            r.sample == self.sample,
            r.module_data == self.module_data,
    {
        ContextBuilder { rule_string, ..self }
    }

    /// Use `sample` as the input path; `None` scans nothing.
    pub fn with_sample(self, sample: Option<String>) -> (r: ContextBuilder)
        ensures
            r.sample == sample,
            r.rule_string == self.rule_string,
            r.module_data == self.module_data,
    {
        ContextBuilder { sample, ..self }
    }

    /// Register a module/data-path pair, replacing an earlier entry
    /// for the same module.
    #[verifier::loop_isolation(false)]
    pub fn with_module_data(self, module: Module, data: String) -> (r: ContextBuilder)
        ensures
            r.rule_string == self.rule_string,
            r.sample == self.sample,
            match find_module_data_index(self.module_data@, module) {
                Some(i) => r.module_data@ == self.module_data@.update(i, (module, data)),
                None => r.module_data@ == self.module_data@.push((module, data)),
            },
    {
        proof {
            lemma_find_module_data_index_bounds(self.module_data@, module);
            assert(self.module_data@.skip(0) =~= self.module_data@);
        }
        let mut md = self.module_data;
        let ghost orig = md@;
        let mut k: usize = 0;
        while k < md.len()
            invariant
                k <= orig.len(),
                md@ == orig,
                match find_module_data_index(orig.skip(k as int), module) {
                    Some(i) => find_module_data_index(orig, module) == Some(i + k),
                    None => find_module_data_index(orig, module) is None,
                },
            decreases orig.len() - k,
        {
            proof {
                assert(orig.skip(k as int)[0] == orig[k as int]);
                assert(orig.skip(k as int).drop_first() =~= orig.skip(k as int + 1));
            }
            if md[k].0 == module {
                md.set(k, (module, data));
                return ContextBuilder {
                    rule_string: self.rule_string,
                    sample: self.sample,
                    module_data: md,
                };
            }
            k += 1;
        }
        proof {
            assert(orig.skip(orig.len() as int) =~= Seq::<(Module, String)>::empty());
        }
        md.push((module, data));
        ContextBuilder { rule_string: self.rule_string, sample: self.sample, module_data: md }
    }

    /// Parse a `MODULE=DATA` argument as the engine's own command line
    /// writes it.
    pub fn parse_module_data_str(data_string: &str) -> (r: Option<(Module, String)>)
        ensures
            match spec_module_data(data_string@) {
                Some((m, dt)) => r matches Some(p) && p.0 == m && p.1@ == dt,
                None => r is None,
            },
    {
        let v = chars_of(data_string);
        let mut d: usize = 0;
        while d < v.len() && v[d] != '='
            invariant
                d <= v@.len(),
                eq_to(v@, 0) == eq_to(v@, d as int),
            decreases v@.len() - d,
        {
            d += 1;
        }
        if d >= v.len() {
            return None;
        }
        let mut d2: usize = d + 1;
        while d2 < v.len() && v[d2] != '='
            invariant
                d + 1 <= d2 <= v@.len(),
                eq_to(v@, d as int + 1) == eq_to(v@, d2 as int),
            decreases v@.len() - d2,
        {
            d2 += 1;
        }
        if d2 < v.len() {
            return None;
        }
        let module_part = data_string.substring_char(0, d);
        match Module::from_str(module_part) {
            Ok(m) => Some((m, String::from_str(data_string.substring_char(d + 1, v.len())))),
            Err(_) => None,
        }
    }
}

} // verus!
