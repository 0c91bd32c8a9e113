//! Subgraph ownership: every node belongs to the deepest subgraph that
//! lists it, searching children before their parent; a node no subgraph
//! lists belongs to the diagram itself.
use vstd::prelude::*;

verus! {

/// The nesting of subgraphs, each numbered by its place in a depth-first
/// listing (a parent before its children): the top-level subgraphs in
/// order, the children of each subgraph in order, and the nodes the
/// diagram lists directly inside each subgraph.
pub struct SubgraphTree {
    pub top: Vec<usize>,
    pub children: Vec<Vec<usize>>,
    pub members: Vec<Vec<usize>>,
}

impl SubgraphTree {
    /// Number of subgraphs.
    pub open spec fn size(&self) -> int {
        self.children@.len() as int
    }

    /// The lists agree in length, top-level subgraphs exist, and every
    /// child comes after its parent in the listing.
    pub open spec fn wf(&self) -> bool {
        &&& self.members@.len() == self.children@.len()
        &&& forall|j: int| 0 <= j < self.top@.len() ==> (#[trigger] self.top@[j] as int) < self.size()
        &&& forall|s: int, j: int|
            0 <= s < self.size() && 0 <= j < self.children@[s]@.len() ==> s < (
            #[trigger] self.children@[s]@[j] as int) < self.size()
    }
}

/// The deepest subgraph within subgraph `s` (itself included) that lists
/// `node`: its children are searched first, in order, then `s` itself.
pub open spec fn deepest_owner(t: SubgraphTree, node: usize, s: int) -> Option<usize>
    decreases t.size() - s, 1int, 0int,
{
    if s < 0 || s >= t.size() {
        None
    } else {
        match owner_in_children(t, node, s, 0) {
            Some(f) => Some(f),
            None => if t.members@[s]@.contains(node) {
                Some(s as usize)
            } else {
                None
            },
        }
    }
}

/// The first owner found under the children `j..` of subgraph `s`.
pub open spec fn owner_in_children(t: SubgraphTree, node: usize, s: int, j: int) -> Option<usize>
    decreases t.size() - s, 0int, t.children@[s]@.len() - j,
{
    if s < 0 || s >= t.size() || j < 0 || j >= t.children@[s]@.len() {
        None
    } else {
        let c = t.children@[s]@[j] as int;
        if c <= s || c >= t.size() {
            None
        } else {
            match deepest_owner(t, node, c) {
                Some(f) => Some(f),
                None => owner_in_children(t, node, s, j + 1),
            }
        }
    }
}

/// The first owner found under the top-level subgraphs `j..`; `None`
/// means the diagram itself.
pub open spec fn owner_from_top(t: SubgraphTree, node: usize, j: int) -> Option<usize>
    decreases t.top@.len() - j,
{
    if j < 0 || j >= t.top@.len() {
        None
    } else {
        match deepest_owner(t, node, t.top@[j] as int) {
            Some(f) => Some(f),
            None => owner_from_top(t, node, j + 1),
        }
    }
}

fn lists_node(members: &Vec<usize>, node: usize) -> (b: bool)
    ensures
        b == members@.contains(node),
{
    let mut i: usize = 0;
    while i < members.len()
        invariant
            i <= members@.len(),
            forall|k: int| 0 <= k < i ==> members@[k] != node,
        decreases members.len() - i,
    {
        if members[i] == node {
            return true;
        }
        i = i + 1;
    }
    false
}

fn find_deepest(t: &SubgraphTree, node: usize, s: usize) -> (r: Option<usize>)
    requires
        t.wf(),
        s < t.size(),
    ensures
        r == deepest_owner(*t, node, s as int),
    decreases t.size() - s,
{
    let kids = &t.children[s];
    let mut j: usize = 0;
    while j < kids.len()
        invariant
            t.wf(),
            s < t.size(),
            *kids == t.children@[s as int],
            j <= kids@.len(),
            owner_in_children(*t, node, s as int, 0) == owner_in_children(*t, node, s as int, j as int),
        decreases kids.len() - j,
    {
        let c = kids[j];
        assert(s < c);
        match find_deepest(t, node, c) {
            Some(f) => {
                return Some(f);
            },
            None => {},
        }
        j = j + 1;
    }
    if lists_node(&t.members[s], node) {
        Some(s)
    } else {
        None
    }
}

/// The subgraph that owns `node`: the first top-level subgraph, in order,
/// under which a subgraph lists the node, and there the deepest such
/// (children searched before their parent); `None` for the diagram itself.
pub fn find_owner(t: &SubgraphTree, node: usize) -> (r: Option<usize>)
    requires
        t.wf(),
    ensures
        r == owner_from_top(*t, node, 0),
{
    let mut j: usize = 0;
    while j < t.top.len()
        invariant
            t.wf(),
            j <= t.top@.len(),
            owner_from_top(*t, node, 0) == owner_from_top(*t, node, j as int),
        decreases t.top.len() - j,
    {
        match find_deepest(t, node, t.top[j]) {
            Some(f) => {
                return Some(f);
            },
            None => {},
        }
        j = j + 1;
    }
    None
}

/// The owner of every node `0..node_count` (see `find_owner`).
pub fn subgraph_owners(t: &SubgraphTree, node_count: usize) -> (owners: Vec<Option<usize>>)
    requires
        t.wf(),
    ensures
        owners@.len() == node_count,
        forall|x: int| 0 <= x < node_count ==> #[trigger] owners@[x] == owner_from_top(*t, x as usize, 0),
{
    let mut owners: Vec<Option<usize>> = Vec::new();
    let mut x: usize = 0;
    while x < node_count
        invariant
            t.wf(),
            x <= node_count,
            owners@.len() == x,
            forall|y: int| 0 <= y < x ==> #[trigger] owners@[y] == owner_from_top(*t, y as usize, 0),
        decreases node_count - x,
    {
        owners.push(find_owner(t, x));
        x = x + 1;
    }
    owners
}

/// The nodes `owners` gives to `owner`, in node order: the nodes laid out
/// directly inside that subgraph (or, for `None`, outside every subgraph).
pub fn direct_nodes(owners: &Vec<Option<usize>>, owner: Option<usize>) -> (nodes: Vec<usize>)
    ensures
        nodes@ == Seq::new(owners@.len() as nat, |x: int| x as usize).filter(
            |x: usize| owners@[x as int] == owner,
        ),
{
    let ghost all = Seq::new(owners@.len() as nat, |x: int| x as usize);
    let mut nodes: Vec<usize> = Vec::new();
    let mut x: usize = 0;
    while x < owners.len()
        invariant
            x <= owners@.len(),
            all == Seq::new(owners@.len() as nat, |y: int| y as usize),
            nodes@ == all.subrange(0, x as int).filter(|y: usize| owners@[y as int] == owner),
        decreases owners.len() - x,
    {
        proof {
            assert(all.subrange(0, x + 1) =~= all.subrange(0, x as int).push(x));
            reveal(Seq::filter);
            assert(all.subrange(0, x + 1).drop_last() =~= all.subrange(0, x as int));
        }
        if owners[x] == owner {
            nodes.push(x);
        }
        x = x + 1;
    }
    proof {
        assert(all.subrange(0, owners@.len() as int) =~= all);
    }
    nodes
}

/// The last of the first `k` subgraphs, in listing order, that lists `node`.
pub open spec fn last_listing_upto(t: SubgraphTree, node: usize, k: int) -> Option<usize>
    decreases k,
{
    if k <= 0 {
        None
    } else if t.members@[k - 1]@.contains(node) {
        Some((k - 1) as usize)
    } else {
        last_listing_upto(t, node, k - 1)
    }
}

/// The boundary of every node `0..node_count` in a C4 diagram: the last
/// subgraph, in listing order, that lists the node (`None` when none does).
pub fn build_containment_map(t: &SubgraphTree, node_count: usize) -> (map: Vec<Option<usize>>)
    requires
        t.wf(),
    ensures
        map@.len() == node_count,
        forall|x: int| 0 <= x < node_count ==> #[trigger] map@[x] == last_listing_upto(*t, x as usize, t.size()),
{
    let mut map: Vec<Option<usize>> = Vec::new();
    let mut x: usize = 0;
    while x < node_count
        invariant
            t.wf(),
            x <= node_count,
            map@.len() == x,
            forall|y: int| 0 <= y < x ==> #[trigger] map@[y] == last_listing_upto(*t, y as usize, t.size()),
        decreases node_count - x,
    {
        let mut found: Option<usize> = None;
        let mut s: usize = 0;
        while s < t.members.len()
            invariant
                t.wf(),
                s <= t.size(),
                found == last_listing_upto(*t, x, s as int),
            decreases t.members.len() - s,
        {
            if lists_node(&t.members[s], x) {
                found = Some(s);
            }
            s = s + 1;
        }
        map.push(found);
        x = x + 1;
    }
    map
}

proof fn lemma_deepest_lists(t: SubgraphTree, node: usize, s: int)
    ensures
        deepest_owner(t, node, s) matches Some(f) ==> (f as int) < t.size() && t.members@[f as int]@.contains(
            node,
        ),
    decreases t.size() - s, 1int, 0int,
{
    if 0 <= s < t.size() {
        assert(t.children@.len() == t.children.len());
        lemma_children_lists(t, node, s, 0);
    }
}

proof fn lemma_children_lists(t: SubgraphTree, node: usize, s: int, j: int)
    ensures
        owner_in_children(t, node, s, j) matches Some(f) ==> (f as int) < t.size()
            && t.members@[f as int]@.contains(node),
    decreases t.size() - s, 0int, t.children@[s]@.len() - j,
{
    if 0 <= s < t.size() && 0 <= j < t.children@[s]@.len() {
        let c = t.children@[s]@[j] as int;
        if s < c < t.size() {
            lemma_deepest_lists(t, node, c);
            lemma_children_lists(t, node, s, j + 1);
        }
    }
}

proof fn lemma_top_lists(t: SubgraphTree, node: usize, j: int)
    ensures
        owner_from_top(t, node, j) matches Some(f) ==> (f as int) < t.size() && t.members@[f as int]@.contains(
            node,
        ),
    decreases t.top@.len() - j,
{
    if 0 <= j < t.top@.len() {
        lemma_deepest_lists(t, node, t.top@[j] as int);
        lemma_top_lists(t, node, j + 1);
    }
}

/// A node is only ever given to a subgraph that lists it: the owner found
/// for a node is one of the subgraphs and lists the node.
pub proof fn lemma_owner_lists_node(t: SubgraphTree, node: usize)
    ensures
        owner_from_top(t, node, 0) matches Some(f) ==> (f as int) < t.size() && t.members@[f as int]@.contains(
            node,
        ),
{
    lemma_top_lists(t, node, 0);
}

/// The nodes among `0..k`, in order, whose owner is `owner`.
pub open spec fn owned_upto(t: SubgraphTree, owner: Option<usize>, k: int) -> Seq<usize>
    decreases k,
{
    if k <= 0 {
        seq![]
    } else if owner_from_top(t, (k - 1) as usize, 0) == owner {
        owned_upto(t, owner, k - 1).push((k - 1) as usize)
    } else {
        owned_upto(t, owner, k - 1)
    }
}

/// Which nodes each part of the diagram lays out directly.
pub struct Ownership {
    /// Nodes outside every subgraph, in node order.
    pub root_nodes: Vec<usize>,
    /// For each subgraph, the nodes it owns, in node order.
    pub direct_nodes: Vec<Vec<usize>>,
}

/// The direct nodes of the diagram and of every subgraph: each node goes to
/// its owner (see `find_owner`), nodes kept in node order.
pub fn build_subgraph_tree_with_ownership(t: &SubgraphTree, node_count: usize) -> (o: Ownership)
    requires
        t.wf(),
    ensures
        o.root_nodes@ == owned_upto(*t, None, node_count as int),
        o.direct_nodes@.len() == t.size(),
        forall|s: int|
            0 <= s < t.size() ==> (#[trigger] o.direct_nodes@[s])@ == owned_upto(
                *t,
                Some(s as usize),
                node_count as int,
            ),
{
    let size = t.children.len();
    let mut direct: Vec<Vec<usize>> = Vec::new();
    let mut s: usize = 0;
    while s < size
        invariant
            size == t.size(),
            s <= size,
            direct@.len() == s,
            forall|q: int| 0 <= q < s ==> (#[trigger] direct@[q])@ == Seq::<usize>::empty(),
        decreases size - s,
    {
        direct.push(Vec::new());
        s = s + 1;
    }
    let mut root: Vec<usize> = Vec::new();
    let mut x: usize = 0;
    while x < node_count
        invariant
            t.wf(),
            size == t.size(),
            x <= node_count,
            direct@.len() == size,
            root@ == owned_upto(*t, None, x as int),
            forall|q: int|
                0 <= q < size ==> (#[trigger] direct@[q])@ == owned_upto(*t, Some(q as usize), x as int),
        decreases node_count - x,
    {
        let owner = find_owner(t, x);
        proof {
            lemma_owner_lists_node(*t, x);
        }
        let ghost before = direct@;
        match owner {
            None => {
                root.push(x);
            },
            Some(f) => {
                direct[f].push(x);
            },
        }
        proof {
            assert forall|q: int| 0 <= q < size implies (#[trigger] direct@[q])@ == owned_upto(
                *t,
                Some(q as usize),
                x + 1,
            ) by {
                if owner == Some(q as usize) {
                    assert(direct@[q]@ == before[q]@.push(x));
                } else {
                    assert(direct@[q] == before[q]);
                }
            }
        }
        x = x + 1;
    }
    Ownership { root_nodes: root, direct_nodes: direct }
}

} // verus!
