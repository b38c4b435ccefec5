use vstd::prelude::*;
use crate::value::YrValue;

verus! {

/// One overload of a function node: the engine's per-parameter format
/// tags (one character per parameter: `i`, `f`, `s`, `r`) and the node
/// that carries the overload's return value once the engine has run it.
#[derive(Debug, Clone)]
pub struct FunctionPrototype {
    pub arguments_fmt: String,
    pub return_obj: usize,
}

/// One node of an imported module's object graph, addressed by its
/// index in the owning [`YrGraph`].  Children are indices too, and a
/// well-formed graph keeps every child strictly after its parent, so
/// the graph is a forest laid out in preorder.  A `Reference` node is a
/// non-owning link to any node of the same graph.
#[derive(Debug, Clone)]
pub enum YrNode {
    Integer(i64),
    Float(u64),
    String(Option<String>),
    Array(Vec<usize>),
    Dictionary(Vec<(String, usize)>),
    Structure(Vec<(String, usize)>),
    Function(Vec<FunctionPrototype>),
    Reference(Option<usize>),
}

/// An object graph as handed over by the engine after a module import:
/// an arena of nodes.
#[derive(Debug, Clone)]
pub struct YrGraph {
    pub nodes: Vec<YrNode>,
}

impl YrGraph {
    /// Well-formedness of the node at index `i`: children stay inside
    /// the arena and strictly after their parent; reference targets
    /// stay inside the arena (anywhere, so back-references are fine).
    pub open spec fn node_wf(self, i: int) -> bool {
        match self.nodes@[i] {
            YrNode::Array(ch) => forall|k: int|
                0 <= k < ch@.len() ==> i < #[trigger] ch@[k] < self.nodes@.len(),
            YrNode::Dictionary(ps) => forall|k: int|
                0 <= k < ps@.len() ==> i < #[trigger] ps@[k].1 < self.nodes@.len(),
            YrNode::Structure(ps) => forall|k: int|
                0 <= k < ps@.len() ==> i < #[trigger] ps@[k].1 < self.nodes@.len(),
            YrNode::Function(protos) => forall|k: int|
                0 <= k < protos@.len() ==> #[trigger] protos@[k].return_obj
                    < self.nodes@.len(),
            YrNode::Reference(t) => t matches Some(c) ==> c < self.nodes@.len(),
            _ => true,
        }
    }

    /// The whole arena is well-formed.
    pub open spec fn wf(self) -> bool {
        forall|i: int| 0 <= i < self.nodes@.len() ==> self.node_wf(i)
    }

    /// Does `v` render the node at `id`, without following references?
    /// A reference or function node renders as the undefined structure;
    /// function members of a structure are left out of its rendering.
    pub open spec fn node_matches(self, id: int, v: YrValue) -> bool
        decreases self.nodes@.len() - id, 1int, 0int,
    {
        0 <= id < self.nodes@.len() && match self.nodes@[id] {
            YrNode::Integer(i) => v == YrValue::Integer(i),
            YrNode::Float(b) => v == YrValue::Float(b),
            YrNode::String(s) => v matches YrValue::String(t) && match (s, t) {
                (Some(a), Some(b)) => a@ == b@,
                (None, None) => true,
                _ => false,
            },
            YrNode::Array(ch) => v matches YrValue::Array(vs) && self.items_match(
                id,
                ch@,
                vs@,
            ),
            YrNode::Dictionary(ps) => v matches YrValue::Dictionary(vs)
                && self.members_match(id, ps@, vs@, false),
            YrNode::Structure(ps) => v matches YrValue::Structure(o) && o matches Some(vs)
                && self.members_match(id, ps@, vs@, true),
            YrNode::Function(_) => v == YrValue::Structure(
                None::<Vec<(String, YrValue)>>,
            ),
            YrNode::Reference(_) => v == YrValue::Structure(
                None::<Vec<(String, YrValue)>>,
            ),
        }
    }

    /// Do the values `vs` render the child nodes `ch` of parent `pid`,
    /// in order?
    pub open spec fn items_match(self, pid: int, ch: Seq<usize>, vs: Seq<YrValue>) -> bool
        decreases self.nodes@.len() - pid, 0int, ch.len(),
    {
        if ch.len() == 0 {
            vs.len() == 0
        } else {
            pid < ch[0] < self.nodes@.len() && vs.len() > 0 && self.node_matches(
                ch[0] as int,
                vs[0],
            ) && self.items_match(pid, ch.drop_first(), vs.drop_first())
        }
    }

    /// Do the named values `vs` render the named child nodes `ps` of
    /// parent `pid`, in order?  With `skip_functions`, members whose
    /// node is a function are absent from `vs`.
    pub open spec fn members_match(
        self,
        pid: int,
        ps: Seq<(String, usize)>,
        vs: Seq<(String, YrValue)>,
        skip_functions: bool,
    ) -> bool
        decreases self.nodes@.len() - pid, 0int, ps.len(),
    {
        if ps.len() == 0 {
            vs.len() == 0
        } else {
            pid < ps[0].1 < self.nodes@.len() && if skip_functions && self.nodes@[ps[0].1
                as int] is Function {
                self.members_match(pid, ps.drop_first(), vs, skip_functions)
            } else {
                vs.len() > 0 && vs[0].0@ == ps[0].0@ && self.node_matches(
                    ps[0].1 as int,
                    vs[0].1,
                ) && self.members_match(pid, ps.drop_first(), vs.drop_first(), skip_functions)
            }
        }
    }

    /// Does `v` render the node at `id` with one reference hop allowed
    /// at the root, the way a direct lookup result is produced?
    pub open spec fn value_matches(self, id: int, v: YrValue) -> bool {
        match self.nodes@[id] {
            YrNode::Reference(t) => match t {
                Some(c) => self.node_matches(c as int, v),
                None => v == YrValue::Structure(None::<Vec<(String, YrValue)>>),
            },
            _ => self.node_matches(id, v),
        }
    }
}

fn convert_items(g: &YrGraph, pid: usize, ch: &Vec<usize>, from: usize) -> (vs: Vec<
    YrValue,
>)
    requires
        g.wf(),
        pid < g.nodes@.len(),
        forall|k: int| from <= k < ch@.len() ==> pid < #[trigger] ch@[k] < g.nodes@.len(),
        from <= ch@.len(),
    ensures
        g.items_match(pid as int, ch@.skip(from as int), vs@),
    decreases g.nodes@.len() - pid, 0int, ch@.len() - from,
{
    if from == ch.len() {
        let vs: Vec<YrValue> = Vec::new();
        assert(ch@.skip(from as int) =~= Seq::<usize>::empty());
        vs
    } else {
        let head = value_of_plain(g, ch[from]);
        let mut vs = convert_items(g, pid, ch, from + 1);
        let ghost tail = vs@;
        vs.insert(0, head);
        proof {
            let chs = ch@.skip(from as int);
            assert(chs[0] == ch@[from as int]);
            assert(chs.drop_first() =~= ch@.skip(from as int + 1));
            assert(vs@[0] == head);
            assert(vs@.drop_first() =~= tail);
        }
        vs
    }
}

fn convert_members(
    g: &YrGraph,
    pid: usize,
    ps: &Vec<(String, usize)>,
    from: usize,
    skip_functions: bool,
) -> (vs: Vec<(String, YrValue)>)
    requires
        g.wf(),
        pid < g.nodes@.len(),
        forall|k: int| from <= k < ps@.len() ==> pid < #[trigger] ps@[k].1 < g.nodes@.len(),
        from <= ps@.len(),
    ensures
        g.members_match(pid as int, ps@.skip(from as int), vs@, skip_functions),
    decreases g.nodes@.len() - pid, 0int, ps@.len() - from,
{
    if from == ps.len() {
        let vs: Vec<(String, YrValue)> = Vec::new();
        assert(ps@.skip(from as int) =~= Seq::<(String, usize)>::empty());
        vs
    } else {
        let child: usize = ps[from].1;
        let is_function = match &g.nodes[child] {
            YrNode::Function(_) => true,
            _ => false,
        };
        proof {
            assert(ps@.skip(from as int)[0] == ps@[from as int]);
            assert(ps@.skip(from as int).drop_first() =~= ps@.skip(from as int + 1));
        }
        if skip_functions && is_function {
            convert_members(g, pid, ps, from + 1, skip_functions)
        } else {
            let name = ps[from].0.clone();
            let head = value_of_plain(g, child);
            let mut vs = convert_members(g, pid, ps, from + 1, skip_functions);
            let ghost tail = vs@;
            vs.insert(0, (name, head));
            proof {
                assert(vs@[0] == (name, head));
                assert(vs@.drop_first() =~= tail);
            }
            vs
        }
    }
}

/// Render the node at `id` as a value, without following references:
/// the walk the engine's object-to-value conversion performs below the
/// root.
pub fn value_of_plain(g: &YrGraph, id: usize) -> (v: YrValue)
    requires
        g.wf(),
        id < g.nodes@.len(),
    ensures
        g.node_matches(id as int, v),
    decreases g.nodes@.len() - id, 1int, 0int,
{
    proof {
        assert(g.node_wf(id as int));
    }
    match &g.nodes[id] {
        YrNode::Integer(i) => YrValue::Integer(*i),
        YrNode::Float(b) => YrValue::Float(*b),
        YrNode::String(s) => YrValue::String(
            match s {
                Some(t) => Some(t.clone()),
                None => None,
            },
        ),
        YrNode::Array(ch) => {
            proof {
                assert(ch@.skip(0) =~= ch@);
            }
            YrValue::Array(convert_items(g, id, ch, 0))
        },
        YrNode::Dictionary(ps) => {
            proof {
                assert(ps@.skip(0) =~= ps@);
            }
            YrValue::Dictionary(convert_members(g, id, ps, 0, false))
        },
        YrNode::Structure(ps) => {
            proof {
                assert(ps@.skip(0) =~= ps@);
            }
            YrValue::Structure(Some(convert_members(g, id, ps, 0, true)))
        },
        YrNode::Function(_) => YrValue::Structure(None),
        YrNode::Reference(_) => YrValue::Structure(None),
    }
}

/// The name of an engine object-type tag.  The engine numbers its node
/// kinds from integer to reference.
pub fn object_type_to_string(object_type: i8) -> (r: &'static str)
    requires
        1 <= object_type <= 8,
    ensures
        object_type == 1 ==> r@ == "integer"@,
        object_type == 2 ==> r@ == "string"@,
        object_type == 3 ==> r@ == "structure"@,
        object_type == 4 ==> r@ == "array"@,
        object_type == 5 ==> r@ == "function"@,
        object_type == 6 ==> r@ == "dictionary"@,
        object_type == 7 ==> r@ == "float"@,
        object_type == 8 ==> r@ == "reference"@,
{
    match object_type {
        1 => "integer",
        2 => "string",
        3 => "structure",
        4 => "array",
        5 => "function",
        6 => "dictionary",
        7 => "float",
        _ => "reference",
    }
}

/// Render the node at `id` as a value, following at most one reference
/// hop at the root.
pub fn value_of(g: &YrGraph, id: usize) -> (v: YrValue)
    requires
        g.wf(),
        id < g.nodes@.len(),
    ensures
        g.value_matches(id as int, v),
{
    proof {
        assert(g.node_wf(id as int));
    }
    match &g.nodes[id] {
        YrNode::Reference(t) => match t {
            Some(c) => value_of_plain(g, *c),
            None => YrValue::Structure(None),
        },
        _ => value_of_plain(g, id),
    }
}

} // verus!
