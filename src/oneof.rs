//! Oneofs: which members a oneof has, and which members must be boxed because
//! the message type they hold can contain the owning type again.
use vstd::prelude::*;
use vstd::set_lib::{lemma_int_range, set_int_range};
use vstd::string::StringExecFns;
use crate::field::FieldDeclaration;

verus! {

/// The message types of a schema as the boxing decision sees them: for each
/// type, the types held by the members of its oneofs, by index.
pub open spec fn type_graph(types: &Vec<Vec<usize>>) -> Seq<Seq<usize>> {
    types@.map_values(|v: Vec<usize>| v@)
}

/// Every referenced type exists.
pub open spec fn graph_wf(g: Seq<Seq<usize>>) -> bool {
    forall|u: int, j: int| 0 <= u < g.len() && 0 <= j < g[u].len() ==> #[trigger] g[u][j] < g.len()
}

/// A oneof member of type `u` holds type `v`.
pub open spec fn edge(g: Seq<Seq<usize>>, u: int, v: int) -> bool {
    0 <= u < g.len() && exists|j: int| 0 <= j < g[u].len() && #[trigger] g[u][j] == v
}

/// Each type of `p` holds the next through a oneof member.
pub open spec fn is_path(g: Seq<Seq<usize>>, p: Seq<int>) -> bool {
    p.len() >= 1 && forall|i: int| 0 <= i < p.len() - 1 ==> #[trigger] edge(g, p[i], p[i + 1])
}

/// Type `b` can be reached from type `a` through oneof members (or is `a`).
pub open spec fn reachable(g: Seq<Seq<usize>>, a: int, b: int) -> bool {
    exists|p: Seq<int>| #[trigger] is_path(g, p) && p[0] == a && p.last() == b
}

/// Every successor of a type in `vis` is in `vis` too.
pub open spec fn closed(g: Seq<Seq<usize>>, vis: Set<int>) -> bool {
    forall|u: int, j: int|
        vis.contains(u) && 0 <= u < g.len() && 0 <= j < g[u].len() ==> vis.contains(#[trigger] g[u][j] as int)
}

proof fn lemma_reach_self(g: Seq<Seq<usize>>, a: int)
    ensures
        reachable(g, a, a),
{
    let p = seq![a];
    assert(is_path(g, p));
}

proof fn lemma_reach_step(g: Seq<Seq<usize>>, a: int, m: int, w: int)
    requires
        reachable(g, a, m),
        edge(g, m, w),
    ensures
        reachable(g, a, w),
{
    let p = choose|p: Seq<int>| #[trigger] is_path(g, p) && p[0] == a && p.last() == m;
    let q = p.push(w);
    assert forall|i: int| 0 <= i < q.len() - 1 implies #[trigger] edge(g, q[i], q[i + 1]) by {
        if i < p.len() - 1 {
            assert(q[i] == p[i] && q[i + 1] == p[i + 1]);
        } else {
            assert(q[i] == m && q[i + 1] == w);
        }
    }
    assert(is_path(g, q));
}

proof fn lemma_closed_path(g: Seq<Seq<usize>>, vis: Set<int>, p: Seq<int>)
    requires
        is_path(g, p),
        vis.contains(p[0]),
        closed(g, vis),
    ensures
        vis.contains(p.last()),
    decreases p.len(),
{
    if p.len() > 1 {
        let z: int = 0;
        assert(edge(g, p[z], p[z + 1]));
        let j = choose|j: int| 0 <= j < g[p[0]].len() && #[trigger] g[p[0]][j] == p[1];
        assert(vis.contains(g[p[0]][j] as int));
        let q = p.drop_first();
        assert forall|i: int| 0 <= i < q.len() - 1 implies #[trigger] edge(g, q[i], q[i + 1]) by {
            let k = i + 1;
            assert(edge(g, p[k], p[k + 1]));
            assert(q[i] == p[k] && q[i + 1] == p[k + 1]);
        }
        lemma_closed_path(g, vis, q);
    }
}

/// Whether a oneof member holding type `field_type` must be boxed inside the
/// type `owner`: it must exactly where `owner` can be reached from
/// `field_type` through oneof members, so that the type's layout stays finite.
pub fn need_boxed(types: &Vec<Vec<usize>>, field_type: usize, owner: usize) -> (r: bool)
    requires
        graph_wf(type_graph(types)),
        field_type < types@.len(),
    ensures
        r == reachable(type_graph(types), field_type as int, owner as int),
{
    let ghost g = type_graph(types);
    let n = types.len();
    let mut visited: Vec<bool> = vec![false; n];
    let mut stack: Vec<usize> = vec![field_type];
    let ghost mut vis: Set<int> = Set::empty();
    let ghost full = set_int_range(0, n as int);
    proof {
        lemma_int_range(0, n as int);
        lemma_reach_self(g, field_type as int);
    }
    while stack.len() > 0
        invariant
            g == type_graph(types),
            graph_wf(g),
            n == g.len(),
            full == set_int_range(0, n as int),
            full.finite(),
            visited@.len() == n,
            forall|i: int| 0 <= i < n ==> (visited@[i] <==> #[trigger] vis.contains(i)),
            vis.subset_of(full),
            forall|i: int| 0 <= i < stack@.len() ==> #[trigger] stack@[i] < n && reachable(g, field_type as int, stack@[i] as int),
            forall|v: int| #[trigger] vis.contains(v) ==> reachable(g, field_type as int, v),
            !vis.contains(owner as int),
            vis.contains(field_type as int) || stack@.contains(field_type),
            forall|u: int, j: int|
                vis.contains(u) && 0 <= u < g.len() && 0 <= j < g[u].len() ==> vis.contains(#[trigger] g[u][j] as int)
                    || stack@.contains(g[u][j]),
        decreases full.difference(vis).len(), stack@.len(),
    {
        let ghost old_stack = stack@;
        let m = stack.pop().unwrap();
        proof {
            assert(old_stack == stack@.push(m));
            assert(old_stack[old_stack.len() - 1] == m);
        }
        if visited[m] {
            proof {
                assert forall|u: int, j: int|
                    vis.contains(u) && 0 <= u < g.len() && 0 <= j < g[u].len() implies vis.contains(#[trigger] g[u][j] as int)
                        || stack@.contains(g[u][j]) by {
                    if !vis.contains(g[u][j] as int) {
                        let k = choose|k: int| 0 <= k < old_stack.len() && old_stack[k] == g[u][j];
                        if k < old_stack.len() - 1 {
                            assert(stack@[k] == g[u][j]);
                        }
                    }
                }
                if !vis.contains(field_type as int) {
                    let k = choose|k: int| 0 <= k < old_stack.len() && old_stack[k] == field_type;
                    if k < old_stack.len() - 1 {
                        assert(stack@[k] == field_type);
                    }
                }
            }
            continue;
        }
        if m == owner {
            return true;
        }
        visited.set(m, true);
        proof {
            full.lemma_set_insert_diff_decreases(vis, m as int);
            vis = vis.insert(m as int);
        }
        let succ = &types[m];
        assert(succ@ == g[m as int]);
        let mut j: usize = 0;
        while j < succ.len()
            invariant
                g == type_graph(types),
                graph_wf(g),
                n == g.len(),
                (m as int) < n,
                succ@ == g[m as int],
                j <= succ@.len(),
                old_stack.len() > 0,
                vis.contains(m as int),
                reachable(g, field_type as int, m as int),
                forall|i: int| 0 <= i < stack@.len() ==> #[trigger] stack@[i] < n && reachable(g, field_type as int, stack@[i] as int),
                forall|k: int| 0 <= k < j ==> stack@.contains(#[trigger] g[m as int][k]),
                forall|x: usize| old_stack.drop_last().contains(x) ==> #[trigger] stack@.contains(x),
            decreases succ@.len() - j,
        {
            let w = succ[j];
            proof {
                assert(edge(g, m as int, w as int));
                lemma_reach_step(g, field_type as int, m as int, w as int);
            }
            let ghost before = stack@;
            stack.push(w);
            proof {
                assert(stack@ == before.push(w));
                assert(stack@[stack@.len() - 1] == w);
                assert forall|x: usize| before.contains(x) implies #[trigger] stack@.contains(x) by {
                    let k = choose|k: int| 0 <= k < before.len() && before[k] == x;
                    assert(stack@[k] == x);
                }
            }
            j = j + 1;
        }
        proof {
            assert forall|u: int, k: int|
                vis.contains(u) && 0 <= u < g.len() && 0 <= k < g[u].len() implies vis.contains(#[trigger] g[u][k] as int)
                    || stack@.contains(g[u][k]) by {
                if u != m as int && !vis.contains(g[u][k] as int) {
                    let x = g[u][k];
                    let i = choose|i: int| 0 <= i < old_stack.len() && old_stack[i] == x;
                    if i < old_stack.len() - 1 {
                        assert(old_stack.drop_last()[i] == x);
                    }
                }
            }
            if !vis.contains(field_type as int) {
                let i = choose|i: int| 0 <= i < old_stack.len() && old_stack[i] == field_type;
                if i < old_stack.len() - 1 {
                    assert(old_stack.drop_last()[i] == field_type);
                }
            }
        }
    }
    proof {
        assert(vis.contains(field_type as int));
        assert(closed(g, vis));
        if reachable(g, field_type as int, owner as int) {
            let p = choose|p: Seq<int>| #[trigger] is_path(g, p) && p[0] == field_type as int && p.last() == owner as int;
            lemma_closed_path(g, vis, p);
        }
    }
    false
}

/// A oneof as the schema declares it.
#[derive(Debug, PartialEq, Eq)]
pub struct OneofDescriptorProto {
    pub name: String,
}

/// The fields of `fields` that belong to oneof `index`, in declaration order.
pub open spec fn oneof_members(fields: Seq<FieldDeclaration>, index: u32) -> Seq<FieldDeclaration>
    decreases fields.len(),
{
    if fields.len() == 0 {
        Seq::empty()
    } else {
        oneof_members(fields.drop_last(), index) + if fields.last().oneof_index == Some(index) {
            seq![fields.last()]
        } else {
            Seq::empty()
        }
    }
}

/// Description of one oneof of a message type.
#[derive(Debug, PartialEq, Eq)]
pub struct OneofDescriptor {
    message_full_name: String,
    message_fields: Vec<FieldDeclaration>,
    proto: OneofDescriptorProto,
    index: u32,
}

impl OneofDescriptor {
    pub closed spec fn spec_name(&self) -> Seq<char> {
        self.proto.name@
    }

    pub closed spec fn spec_message_full_name(&self) -> Seq<char> {
        self.message_full_name@
    }

    pub closed spec fn spec_message_fields(&self) -> Seq<FieldDeclaration> {
        self.message_fields@
    }

    pub closed spec fn spec_index(&self) -> u32 {
        self.index
    }

    /// Oneof number `index`, declared by `proto`, of the message type named
    /// `message_full_name` whose fields are `message_fields`.
    pub fn new(
        message_full_name: String,
        message_fields: Vec<FieldDeclaration>,
        proto: OneofDescriptorProto,
        index: u32,
    ) -> (r: OneofDescriptor)
        ensures
            r.spec_name() == proto.name@,
            r.spec_message_full_name() == message_full_name@,
            r.spec_message_fields() == message_fields@,
            r.spec_index() == index,
    {
        OneofDescriptor { message_full_name, message_fields, proto, index }
    }

    /// The declaration of the oneof.
    pub fn proto(&self) -> (r: &OneofDescriptorProto)
        ensures
            r.name@ == self.spec_name(),
    {
        &self.proto
    }

    /// Name of the oneof as declared.
    pub fn name(&self) -> (r: &str)
        ensures
            r@ == self.spec_name(),
    {
        self.proto.name.as_str()
    }

    /// Fully qualified name: the message's fully qualified name, a dot, then
    /// the oneof's name.
    pub fn full_name(&self) -> (r: String)
        ensures
            r@ == self.spec_message_full_name() + seq!['.'] + self.spec_name(),
    {
        let mut r = self.message_full_name.clone();
        proof {
            reveal_strlit(".");
        }
        r.append(".");
        r.append(self.proto.name.as_str());
        r
    }

    /// The message's fields that belong to this oneof, in declaration order.
    pub fn fields(&self) -> (r: Vec<FieldDeclaration>)
        ensures
            r@ == oneof_members(self.spec_message_fields(), self.spec_index()),
    {
        let mut out: Vec<FieldDeclaration> = Vec::new();
        let mut i: usize = 0;
        while i < self.message_fields.len()
            invariant
                i <= self.message_fields@.len(),
                out@ == oneof_members(self.message_fields@.take(i as int), self.index),
            decreases self.message_fields@.len() - i,
        {
            let f = self.message_fields[i];
            proof {
                assert(self.message_fields@.take(i + 1).drop_last() =~= self.message_fields@.take(i as int));
                assert(self.message_fields@.take(i + 1).last() == f);
            }
            if f.oneof_index == Some(self.index) {
                out.push(f);
                assert(out@ =~= oneof_members(self.message_fields@.take(i + 1), self.index));
            } else {
                assert(out@ =~= oneof_members(self.message_fields@.take(i + 1), self.index));
            }
            i = i + 1;
        }
        assert(self.message_fields@.take(i as int) =~= self.message_fields@);
        out
    }
}

} // verus!
