//! Group descriptors: a static tree of named component sets.
//!
//! Groups are configuration, fixed before any serialize or deserialize call.
//! They live in an arena: every node names its subgroups by index, and a
//! well-formed arena places every child after its parent, so the reference
//! graph cannot contain a cycle.  A group flattens into the ordered list of
//! component identifiers it owns: its local identifiers first, then, for each
//! subgroup in declared order, that subgroup's full list (depth-first,
//! pre-order).  Nothing here detects one identifier declared by two groups;
//! such a tree is a modeling error and the first owner in flattening order
//! wins deterministically.

use vstd::prelude::*;

verus! {

/// One group: its name, the component identifiers it directly owns, and the
/// arena indices of its subgroups, all in declaration order.
pub struct Group {
    /// The group's own name.
    pub name: String,
    /// Identifiers of the components this group directly owns.
    pub local: Vec<String>,
    /// Arena indices of the immediate subgroups.
    pub subgroups: Vec<usize>,
}

/// An arena of group nodes; children are named by index.
pub struct GroupTree {
    /// The nodes; a well-formed arena lists every child after its parent.
    pub nodes: Vec<Group>,
}

/// The identifiers a group directly owns, as character sequences.
pub open spec fn local_ids(g: Group) -> Seq<Seq<char>> {
    g.local.deep_view()
}

/// Every subgroup index points past its own node and into the arena, so
/// following subgroup references always moves forward: the graph is acyclic.
pub open spec fn wf_nodes(nodes: Seq<Group>) -> bool {
    forall|i: int, j: int|
        0 <= i < nodes.len() && 0 <= j < nodes[i].subgroups@.len() ==> i < (
        #[trigger] nodes[i].subgroups@[j]) < nodes.len()
}

/// The full component list of node `i`: its local identifiers followed by
/// the full list of each subgroup, in declaration order.
pub open spec fn spec_components(nodes: Seq<Group>, i: int) -> Seq<Seq<char>>
    decreases nodes.len() - i, 1int, 0int,
        when 0 <= i < nodes.len() && wf_nodes(nodes)
{
    local_ids(nodes[i]) + spec_subgroup_components(nodes, i, nodes[i].subgroups@, 0)
}

/// The concatenation, from position `j` on, of the full component lists of
/// the subgroups `subs` of node `i`.
pub open spec fn spec_subgroup_components(
    nodes: Seq<Group>,
    i: int,
    subs: Seq<usize>,
    j: int,
) -> Seq<Seq<char>>
    decreases nodes.len() - i, 0int, subs.len() - j,
        when 0 <= i < nodes.len() && wf_nodes(nodes) && (forall|k: int|
            j <= k < subs.len() ==> i < (#[trigger] subs[k]) < nodes.len())
{
    if j < 0 || j >= subs.len() {
        Seq::empty()
    } else {
        spec_components(nodes, subs[j] as int) + spec_subgroup_components(nodes, i, subs, j + 1)
    }
}

/// Whether the identifier `id` occurs in the component list `comps`.
pub open spec fn contains_id(comps: Seq<Seq<char>>, id: Seq<char>) -> bool {
    exists|k: int| 0 <= k < comps.len() && comps[k] == id
}

/// Order determinism: a group's component list is always its local
/// identifiers followed by the depth-first, declaration-order concatenation
/// of each subgroup's component list.
pub proof fn lemma_order_determinism(nodes: Seq<Group>, i: int, j: int)
    requires
        wf_nodes(nodes),
        0 <= i < nodes.len(),
        0 <= j <= nodes[i].subgroups@.len(),
    ensures
        spec_components(nodes, i) == local_ids(nodes[i]) + spec_subgroup_components(
            nodes,
            i,
            nodes[i].subgroups@,
            0,
        ),
        j < nodes[i].subgroups@.len() ==> spec_subgroup_components(
            nodes,
            i,
            nodes[i].subgroups@,
            j,
        ) == spec_components(nodes, nodes[i].subgroups@[j] as int) + spec_subgroup_components(
            nodes,
            i,
            nodes[i].subgroups@,
            j + 1,
        ),
        j == nodes[i].subgroups@.len() ==> spec_subgroup_components(
            nodes,
            i,
            nodes[i].subgroups@,
            j,
        ) == Seq::<Seq<char>>::empty(),
{
}

/// An identifier occurs in a concatenation exactly when it occurs in one of
/// the parts.
pub proof fn lemma_contains_concat(a: Seq<Seq<char>>, b: Seq<Seq<char>>, id: Seq<char>)
    ensures
        contains_id(a + b, id) <==> (contains_id(a, id) || contains_id(b, id)),
{
    if contains_id(a + b, id) {
        let k = choose|k: int| 0 <= k < (a + b).len() && (a + b)[k] == id;
        if k < a.len() {
            assert(a[k] == id);
        } else {
            assert(b[k - a.len()] == id);
        }
    }
    if contains_id(a, id) {
        let k = choose|k: int| 0 <= k < a.len() && a[k] == id;
        assert((a + b)[k] == id);
    }
    if contains_id(b, id) {
        let k = choose|k: int| 0 <= k < b.len() && b[k] == id;
        assert((a + b)[a.len() + k] == id);
    }
}

/// An identifier occurs in the tail of subgroup lists exactly when some
/// listed subgroup's component list carries it.
pub proof fn lemma_contains_subgroups(
    nodes: Seq<Group>,
    i: int,
    subs: Seq<usize>,
    j: int,
    id: Seq<char>,
)
    requires
        wf_nodes(nodes),
        0 <= i < nodes.len(),
        0 <= j <= subs.len(),
        forall|k: int| j <= k < subs.len() ==> i < (#[trigger] subs[k]) < nodes.len(),
    ensures
        contains_id(spec_subgroup_components(nodes, i, subs, j), id) <==> exists|q: int|
            j <= q < subs.len() && contains_id(spec_components(nodes, subs[q] as int), id),
    decreases subs.len() - j,
{
    if j < subs.len() {
        lemma_contains_subgroups(nodes, i, subs, j + 1, id);
        lemma_contains_concat(
            spec_components(nodes, subs[j] as int),
            spec_subgroup_components(nodes, i, subs, j + 1),
            id,
        );
        if contains_id(spec_components(nodes, subs[j] as int), id) {
            assert(contains_id(spec_components(nodes, subs[j] as int), id));
        }
    }
}

/// An identifier occurs in a group's component list exactly when the group
/// owns it locally or some subgroup's subtree owns it.
pub proof fn lemma_contains_decompose(nodes: Seq<Group>, i: int, id: Seq<char>)
    requires
        wf_nodes(nodes),
        0 <= i < nodes.len(),
    ensures
        contains_id(spec_components(nodes, i), id) <==> (contains_id(local_ids(nodes[i]), id)
            || exists|q: int|
            0 <= q < nodes[i].subgroups@.len() && contains_id(
                spec_components(nodes, nodes[i].subgroups@[q] as int),
                id,
            )),
{
    lemma_contains_concat(
        local_ids(nodes[i]),
        spec_subgroup_components(nodes, i, nodes[i].subgroups@, 0),
        id,
    );
    lemma_contains_subgroups(nodes, i, nodes[i].subgroups@, 0, id);
}

impl GroupTree {
    /// A well-formed arena: every subgroup reference moves forward.
    pub open spec fn wf(self) -> bool {
        wf_nodes(self.nodes@)
    }

    /// How many nodes the arena holds.
    pub fn len(&self) -> (n: usize)
        ensures
            n == self.nodes@.len(),
    {
        self.nodes.len()
    }

    /// The identifiers node `i` directly owns, in declaration order.
    pub fn local_components(&self, i: usize) -> (r: Vec<String>)
        requires
            i < self.nodes@.len(),
        ensures
            r.deep_view() == local_ids(self.nodes@[i as int]),
    {
        let node = &self.nodes[i];
        let mut r: Vec<String> = Vec::new();
        let mut j: usize = 0;
        while j < node.local.len()
            invariant
                j <= node.local@.len(),
                r@.len() == j,
                forall|k: int| 0 <= k < j ==> (#[trigger] r@[k])@ == node.local@[k]@,
            decreases node.local@.len() - j,
        {
            r.push(node.local[j].clone());
            j = j + 1;
        }
        proof {
            assert(r.deep_view() =~= node.local.deep_view());
        }
        r
    }

    /// The names of node `i`'s immediate subgroups, in declaration order.
    pub fn subgroups(&self, i: usize) -> (r: Vec<String>)
        requires
            self.wf(),
            i < self.nodes@.len(),
        ensures
            r.deep_view() == Seq::new(
                self.nodes@[i as int].subgroups@.len(),
                |j: int| self.nodes@[self.nodes@[i as int].subgroups@[j] as int].name@,
            ),
    {
        let node = &self.nodes[i];
        let mut r: Vec<String> = Vec::new();
        let mut j: usize = 0;
        while j < node.subgroups.len()
            invariant
                self.wf(),
                i < self.nodes@.len(),
                node == &self.nodes@[i as int],
                j <= node.subgroups@.len(),
                r@.len() == j,
                forall|k: int|
                    0 <= k < j ==> (#[trigger] r@[k])@ == self.nodes@[self.nodes@[i as int].subgroups@[k] as int].name@,
            decreases node.subgroups@.len() - j,
        {
            let sub = node.subgroups[j];
            r.push(self.nodes[sub].name.clone());
            j = j + 1;
        }
        proof {
            assert(r.deep_view() =~= Seq::new(
                self.nodes@[i as int].subgroups@.len(),
                |k: int| self.nodes@[self.nodes@[i as int].subgroups@[k] as int].name@,
            ));
        }
        r
    }

    /// The full component list of node `i`: local identifiers first, then
    /// each subgroup's full list, depth-first in declaration order.
    pub fn components(&self, i: usize) -> (r: Vec<String>)
        requires
            self.wf(),
            i < self.nodes@.len(),
        ensures
            r.deep_view() == spec_components(self.nodes@, i as int),
        decreases self.nodes@.len() - i,
    {
        let mut r = self.local_components(i);
        let node = &self.nodes[i];
        let ghost subs = node.subgroups@;
        let mut j: usize = 0;
        proof {
            assert(r.deep_view() + spec_subgroup_components(self.nodes@, i as int, subs, 0)
                =~= spec_components(self.nodes@, i as int));
        }
        while j < node.subgroups.len()
            invariant
                self.wf(),
                i < self.nodes@.len(),
                node == &self.nodes@[i as int],
                subs == node.subgroups@,
                j <= subs.len(),
                r.deep_view() + spec_subgroup_components(self.nodes@, i as int, subs, j as int)
                    == spec_components(self.nodes@, i as int),
            decreases subs.len() - j,
        {
            let sub_idx = node.subgroups[j];
            let mut sub = self.components(sub_idx);
            let ghost r_old = r.deep_view();
            let ghost sub_dv = sub.deep_view();
            r.append(&mut sub);
            proof {
                assert(r.deep_view() =~= r_old + sub_dv);
                assert((r_old + sub_dv) + spec_subgroup_components(
                    self.nodes@,
                    i as int,
                    subs,
                    j + 1,
                ) =~= r_old + spec_subgroup_components(self.nodes@, i as int, subs, j as int));
            }
            j = j + 1;
        }
        proof {
            assert(r.deep_view() =~= spec_components(self.nodes@, i as int));
        }
        r
    }
}

} // verus!
