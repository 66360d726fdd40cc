//! The category forest: the parent and child hierarchy that the categories'
//! `parent_id` links describe, as a list of owned trees.

use std::collections::BTreeMap;
use vstd::prelude::*;
use crate::models::Category;
use crate::ordered::{lists_ascending, sorted_keys, strictly_ascending};

verus! {

broadcast use vstd::laws_cmp::group_laws_cmp;

/// A category in the forest, with the categories that name it as parent.
#[derive(Debug, PartialEq, Eq)]
pub struct CategoryNode {
    pub id: u32,
    pub children: Vec<CategoryNode>,
}

/// The ids of the categories whose parent is `parent`; with `None`, the
/// roots.
pub open spec fn child_ids(cats: Map<u32, Category>, parent: Option<u32>) -> Set<u32> {
    Set::new(|c: u32| cats.contains_key(c) && cats[c].parent_id == parent)
}

/// The ids of a list of nodes, in the list's order.
pub open spec fn node_ids(nodes: Seq<CategoryNode>) -> Seq<u32> {
    Seq::new(nodes.len(), |i: int| nodes[i].id)
}

/// `nodes` is the part of the forest of `cats` that stands under `parent`:
/// its nodes are the categories with that parent, by ascending id, and the
/// children of each node are the part of the forest under that node.
pub open spec fn is_level(
    nodes: Seq<CategoryNode>,
    cats: Map<u32, Category>,
    parent: Option<u32>,
) -> bool
    decreases nodes,
{
    &&& lists_ascending(node_ids(nodes), child_ids(cats, parent))
    &&& forall|i: int|
        0 <= i < nodes.len() ==> is_level(
            (#[trigger] nodes[i]).children@,
            cats,
            Some(nodes[i].id),
        )
}

/// `nodes` is the whole forest of `cats`.
pub open spec fn is_forest(nodes: Seq<CategoryNode>, cats: Map<u32, Category>) -> bool {
    is_level(nodes, cats, None)
}

/// `q` leads from a root down to its last element, each element the parent
/// of the next.
pub open spec fn is_root_chain(cats: Map<u32, Category>, q: Seq<u32>) -> bool {
    &&& q.len() > 0
    &&& forall|i: int| 0 <= i < q.len() ==> cats.contains_key(#[trigger] q[i])
    &&& cats[q[0]].parent_id is None
    &&& forall|i: int| 1 <= i < q.len() ==> cats[#[trigger] q[i]].parent_id == Some(q[i - 1])
}

/// No category occurs twice on a chain that starts at a root.
pub proof fn lemma_root_chain_distinct(cats: Map<u32, Category>, q: Seq<u32>, i: int, j: int)
    requires
        is_root_chain(cats, q),
        0 <= i < j < q.len(),
    ensures
        q[i] != q[j],
    decreases i,
{
    if q[i] == q[j] {
        if i == 0 {
            assert(cats[q[j]].parent_id == Some(q[j - 1]));
        } else {
            assert(cats[q[i]].parent_id == Some(q[i - 1]));
            assert(cats[q[j]].parent_id == Some(q[j - 1]));
            lemma_root_chain_distinct(cats, q, i - 1, j - 1);
        }
    }
}

/// A chain that starts at a root is no longer than the number of
/// categories.
pub proof fn lemma_root_chain_bounded(cats: Map<u32, Category>, q: Seq<u32>)
    requires
        is_root_chain(cats, q),
        cats.dom().finite(),
    ensures
        q.len() <= cats.dom().len(),
{
    assert forall|i: int, j: int| 0 <= i < q.len() && 0 <= j < q.len() && i != j implies q[i]
        != q[j] by {
        if i < j {
            lemma_root_chain_distinct(cats, q, i, j);
        } else {
            lemma_root_chain_distinct(cats, q, j, i);
        }
    }
    assert(q.no_duplicates());
    q.unique_seq_to_set();
    assert(q.to_set().subset_of(cats.dom())) by {
        assert forall|k: u32| q.to_set().contains(k) implies cats.dom().contains(k) by {
            assert(q.contains(k));
            let i = choose|i: int| 0 <= i < q.len() && q[i] == k;
            assert(cats.contains_key(q[i]));
        }
    }
    vstd::set_lib::lemma_len_subset(q.to_set(), cats.dom());
}

/// Whether a node with the id `id` stands in `nodes` or below, directly
/// under `under`, where `nodes` themselves stand under `parent`.
pub open spec fn occurs(
    nodes: Seq<CategoryNode>,
    parent: Option<u32>,
    id: u32,
    under: Option<u32>,
) -> bool
    decreases nodes,
{
    exists|i: int|
        0 <= i < nodes.len() && (((#[trigger] nodes[i]).id == id && under == parent) || occurs(
            nodes[i].children@,
            Some(nodes[i].id),
            id,
            under,
        ))
}

/// Every node of the forest stands for a category, and stands under the
/// node of the category that is its parent, or among the roots where it
/// has none.
pub proof fn lemma_nodes_follow_parents(
    nodes: Seq<CategoryNode>,
    cats: Map<u32, Category>,
    parent: Option<u32>,
    id: u32,
    under: Option<u32>,
)
    requires
        is_level(nodes, cats, parent),
        occurs(nodes, parent, id, under),
    ensures
        cats.contains_key(id),
        cats[id].parent_id == under,
    decreases nodes,
{
    let i = choose|i: int|
        0 <= i < nodes.len() && (((#[trigger] nodes[i]).id == id && under == parent) || occurs(
            nodes[i].children@,
            Some(nodes[i].id),
            id,
            under,
        ));
    if nodes[i].id == id && under == parent {
        assert(node_ids(nodes)[i] == id);
        assert(node_ids(nodes).contains(id));
        assert(child_ids(cats, parent).contains(id));
    } else {
        assert(0 <= i < nodes.len());
        assert(occurs(nodes[i].children@, Some(nodes[i].id), id, under));
        assert(is_level(nodes[i].children@, cats, Some(nodes[i].id)));
        lemma_nodes_follow_parents(nodes[i].children@, cats, Some(nodes[i].id), id, under);
    }
}

/// How many nodes have the id `id`, among the first `n` of `nodes` and
/// all that stands below them.
pub open spec fn count_first(nodes: Seq<CategoryNode>, n: nat, id: u32) -> nat
    decreases nodes, n,
{
    if n == 0 || n > nodes.len() {
        0
    } else {
        count_first(nodes, (n - 1) as nat, id) + (if nodes[n - 1].id == id {
            1nat
        } else {
            0nat
        }) + count_first(nodes[n - 1].children@, nodes[n - 1].children@.len(), id)
    }
}

/// How many nodes of the forest have the id `id`.
pub open spec fn count_in(nodes: Seq<CategoryNode>, id: u32) -> nat {
    count_first(nodes, nodes.len(), id)
}

/// How many nodes have the id `id` in the tree of one node.
pub open spec fn weight(node: CategoryNode, id: u32) -> nat {
    (if node.id == id {
        1nat
    } else {
        0nat
    }) + count_in(node.children@, id)
}

/// The category `id` is a root or descends from one: a chain leads from
/// a root down to it.
pub open spec fn rooted(cats: Map<u32, Category>, id: u32) -> bool {
    exists|q: Seq<u32>| is_root_chain(cats, q) && q.last() == id
}

/// `path` is the chain from a root down to `parent`; it is empty where
/// `parent` is `None`.
pub open spec fn leads_to(cats: Map<u32, Category>, path: Seq<u32>, parent: Option<u32>) -> bool {
    match parent {
        None => path.len() == 0,
        Some(p) => is_root_chain(cats, path) && path.last() == p,
    }
}

/// `q` goes on from where `path` ends.
pub open spec fn extends(q: Seq<u32>, path: Seq<u32>) -> bool {
    q.len() > path.len() && q.take(path.len() as int) == path
}

/// Only one chain leads from a root down to a given category.
pub proof fn lemma_root_chain_unique(cats: Map<u32, Category>, a: Seq<u32>, b: Seq<u32>)
    requires
        is_root_chain(cats, a),
        is_root_chain(cats, b),
        a.last() == b.last(),
    ensures
        a == b,
    decreases a.len(),
{
    let id = a.last();
    if a.len() == 1 {
        assert(a[0] == id);
        if b.len() > 1 {
            assert(cats[b[b.len() - 1]].parent_id == Some(b[b.len() - 2]));
        }
        assert(a =~= b);
    } else {
        assert(cats[a[a.len() - 1]].parent_id == Some(a[a.len() - 2]));
        if b.len() == 1 {
            assert(b[0] == id);
        }
        assert(cats[b[b.len() - 1]].parent_id == Some(b[b.len() - 2]));
        let a0 = a.drop_last();
        let b0 = b.drop_last();
        assert(is_root_chain(cats, a0)) by {
            assert forall|i: int| 0 <= i < a0.len() implies cats.contains_key(#[trigger] a0[i]) by {
                assert(a0[i] == a[i]);
            }
            assert forall|i: int| 1 <= i < a0.len() implies cats[#[trigger] a0[i]].parent_id == Some(
                a0[i - 1],
            ) by {
                assert(a0[i] == a[i]);
            }
            assert(a0[0] == a[0]);
        }
        assert(is_root_chain(cats, b0)) by {
            assert forall|i: int| 0 <= i < b0.len() implies cats.contains_key(#[trigger] b0[i]) by {
                assert(b0[i] == b[i]);
            }
            assert forall|i: int| 1 <= i < b0.len() implies cats[#[trigger] b0[i]].parent_id == Some(
                b0[i - 1],
            ) by {
                assert(b0[i] == b[i]);
            }
            assert(b0[0] == b[0]);
        }
        lemma_root_chain_unique(cats, a0, b0);
        assert(a =~= a0.push(id));
        assert(b =~= b0.push(id));
    }
}

/// A child of the category at the end of a chain makes the chain one
/// longer.
pub proof fn lemma_chain_step(
    cats: Map<u32, Category>,
    path: Seq<u32>,
    parent: Option<u32>,
    child: u32,
)
    requires
        leads_to(cats, path, parent),
        child_ids(cats, parent).contains(child),
    ensures
        is_root_chain(cats, path.push(child)),
        leads_to(cats, path.push(child), Some(child)),
        extends(path.push(child), path),
{
    let next = path.push(child);
    assert forall|k: int| 0 <= k < next.len() implies cats.contains_key(#[trigger] next[k]) by {
        if k < path.len() {
            assert(next[k] == path[k]);
        }
    }
    assert forall|k: int| 1 <= k < next.len() implies cats[#[trigger] next[k]].parent_id == Some(
        next[k - 1],
    ) by {
        if k < path.len() {
            assert(next[k] == path[k]);
        }
    }
    if path.len() > 0 {
        assert(next[0] == path[0]);
    }
    assert(next.take(path.len() as int) =~= path);
}

/// Where the count is not zero, one of the nodes has the id in its tree.
pub proof fn lemma_count_positive(nodes: Seq<CategoryNode>, n: nat, id: u32) -> (k: int)
    requires
        count_first(nodes, n, id) > 0,
    ensures
        0 <= k < n,
        k < nodes.len(),
        weight(nodes[k], id) > 0,
    decreases n,
{
    if count_first(nodes, (n - 1) as nat, id) > 0 {
        lemma_count_positive(nodes, (n - 1) as nat, id)
    } else {
        n - 1
    }
}

/// A node that has the id `id` in its tree shows a chain from a root down
/// to `id` that passes through the node.
pub proof fn lemma_chain_through(
    nodes: Seq<CategoryNode>,
    cats: Map<u32, Category>,
    parent: Option<u32>,
    path: Seq<u32>,
    k: int,
    id: u32,
) -> (q: Seq<u32>)
    requires
        is_level(nodes, cats, parent),
        leads_to(cats, path, parent),
        0 <= k < nodes.len(),
        weight(nodes[k], id) > 0,
    ensures
        is_root_chain(cats, q),
        q.last() == id,
        extends(q, path.push(nodes[k].id)) || q == path.push(nodes[k].id),
        q == path.push(nodes[k].id) <==> nodes[k].id == id,
    decreases nodes,
{
    let node = nodes[k];
    assert(node_ids(nodes)[k] == node.id);
    assert(node_ids(nodes).contains(node.id));
    lemma_chain_step(cats, path, parent, node.id);
    let here = path.push(node.id);
    if node.id == id {
        here
    } else {
        let j = lemma_count_positive(node.children@, node.children@.len(), id);
        let q = lemma_chain_through(node.children@, cats, Some(node.id), here, j, id);
        let deeper = here.push(node.children@[j].id);
        assert(q.take(here.len() as int) =~= here) by {
            if q != deeper {
                assert(q.take(deeper.len() as int) == deeper);
                assert(q.take(here.len() as int) =~= deeper.take(here.len() as int));
            }
            assert(deeper.take(here.len() as int) =~= here);
        }
        q
    }
}

/// Every id that the forest holds is the id of a category that is a root
/// or descends from one.
pub proof fn lemma_forest_holds_rooted(nodes: Seq<CategoryNode>, cats: Map<u32, Category>, id: u32)
    requires
        is_forest(nodes, cats),
        count_in(nodes, id) > 0,
    ensures
        cats.contains_key(id),
        rooted(cats, id),
{
    let k = lemma_count_positive(nodes, nodes.len(), id);
    let q = lemma_chain_through(nodes, cats, None, Seq::empty(), k, id);
    assert(cats.contains_key(q[q.len() - 1]));
}

/// Where the tree of node `i` holds the id once and the chain down to the
/// id passes through node `i`, the first `n` nodes hold it once if node
/// `i` is among them, and not at all otherwise.
proof fn lemma_count_prefix(
    nodes: Seq<CategoryNode>,
    cats: Map<u32, Category>,
    parent: Option<u32>,
    path: Seq<u32>,
    q: Seq<u32>,
    i: int,
    n: nat,
)
    requires
        is_level(nodes, cats, parent),
        leads_to(cats, path, parent),
        is_root_chain(cats, q),
        extends(q, path),
        0 <= i < nodes.len(),
        nodes[i].id == q[path.len() as int],
        weight(nodes[i], q.last()) == 1,
        n <= nodes.len(),
    ensures
        count_first(nodes, n, q.last()) == (if n > i {
            1nat
        } else {
            0nat
        }),
    decreases n,
{
    let id = q.last();
    if n > 0 {
        lemma_count_prefix(nodes, cats, parent, path, q, i, (n - 1) as nat);
        let j = n - 1;
        if j != i {
            if weight(nodes[j], id) > 0 {
                let other = lemma_chain_through(nodes, cats, parent, path, j, id);
                lemma_root_chain_unique(cats, other, q);
                let here = path.push(nodes[j].id);
                assert(here[path.len() as int] == nodes[j].id);
                assert(q.take(here.len() as int)[path.len() as int] == q[path.len() as int]);
                assert(nodes[j].id == nodes[i].id);
                assert(node_ids(nodes)[j] == nodes[j].id);
                assert(node_ids(nodes)[i] == nodes[i].id);
                if j < i {
                    assert(node_ids(nodes)[j] < node_ids(nodes)[i]);
                } else {
                    assert(node_ids(nodes)[i] < node_ids(nodes)[j]);
                }
            }
        }
    }
}

/// A category to which a chain leads from a root stands in the forest
/// exactly once: `nodes` is the part of the forest under the category at
/// which `path` ends, and the chain `q` goes on from there.
pub proof fn lemma_counted_once(
    nodes: Seq<CategoryNode>,
    cats: Map<u32, Category>,
    parent: Option<u32>,
    path: Seq<u32>,
    q: Seq<u32>,
)
    requires
        is_level(nodes, cats, parent),
        leads_to(cats, path, parent),
        is_root_chain(cats, q),
        extends(q, path),
    ensures
        count_in(nodes, q.last()) == 1,
    decreases nodes,
{
    let id = q.last();
    let at = path.len() as int;
    let c = q[at];
    assert(child_ids(cats, parent).contains(c)) by {
        assert(cats.contains_key(q[at]));
        if at > 0 {
            assert(cats[q[at]].parent_id == Some(q[at - 1]));
            assert(q.take(at)[at - 1] == q[at - 1]);
        }
    }
    assert(node_ids(nodes).contains(c));
    let i = choose|i: int| 0 <= i < node_ids(nodes).len() && node_ids(nodes)[i] == c;
    let node = nodes[i];
    lemma_chain_step(cats, path, parent, c);
    let here = path.push(c);
    assert(q.take(here.len() as int) =~= here) by {
        assert forall|k: int| 0 <= k < here.len() implies q.take(here.len() as int)[k]
            == here[k] by {
            if k < at {
                assert(q.take(at)[k] == q[k]);
            }
        }
    }
    if q.len() == at + 1 {
        if count_in(node.children@, id) > 0 {
            let j = lemma_count_positive(node.children@, node.children@.len(), id);
            let other = lemma_chain_through(node.children@, cats, Some(c), here, j, id);
            lemma_root_chain_unique(cats, other, q);
        }
    } else {
        lemma_root_chain_distinct(cats, q, at, q.len() - 1);
        lemma_counted_once(node.children@, cats, Some(c), here, q);
    }
    lemma_count_prefix(nodes, cats, parent, path, q, i, nodes.len());
}

/// Every category that is a root or descends from one stands in the
/// forest exactly once.
pub proof fn lemma_forest_holds_once(nodes: Seq<CategoryNode>, cats: Map<u32, Category>, id: u32)
    requires
        is_forest(nodes, cats),
        rooted(cats, id),
    ensures
        count_in(nodes, id) == 1,
{
    let q = choose|q: Seq<u32>| is_root_chain(cats, q) && q.last() == id;
    assert(q.take(0) =~= Seq::<u32>::empty());
    lemma_counted_once(nodes, cats, None, Seq::empty(), q);
}

/// `children_map` holds, for each category that is a parent, its children
/// by ascending id, and nothing for a category that has none.
pub open spec fn lists_children(
    children_map: Map<u32, Vec<u32>>,
    cats: Map<u32, Category>,
) -> bool {
    forall|p: u32|
        if #[trigger] children_map.contains_key(p) {
            lists_ascending(children_map[p]@, child_ids(cats, Some(p)))
        } else {
            forall|c: u32| !#[trigger] child_ids(cats, Some(p)).contains(c)
        }
}

impl CategoryNode {
    /// The tree below the category `id`. `path` is the chain from a root
    /// down to `id`: it shows that the descent ends.
    fn new(
        id: u32,
        children_map: &BTreeMap<u32, Vec<u32>>,
        Ghost(cats): Ghost<Map<u32, Category>>,
        Ghost(path): Ghost<Seq<u32>>,
    ) -> (r: CategoryNode)
        requires
            cats.dom().finite(),
            lists_children(children_map@, cats),
            is_root_chain(cats, path),
            path.last() == id,
        ensures
            r.id == id,
            is_level(r.children@, cats, Some(id)),
        decreases cats.dom().len() - path.len(),
    {
        let mut children: Vec<CategoryNode> = Vec::new();
        match children_map.get(&id) {
            Some(ids) => {
                let mut i: usize = 0;
                while i < ids.len()
                    invariant
                        cats.dom().finite(),
                        lists_children(children_map@, cats),
                        is_root_chain(cats, path),
                        path.last() == id,
                        children_map@.contains_key(id),
                        ids == children_map@[id],
                        0 <= i <= ids@.len(),
                        children@.len() == i,
                        forall|j: int|
                            0 <= j < i ==> (#[trigger] children@[j]).id == ids@[j] && is_level(
                                children@[j].children@,
                                cats,
                                Some(ids@[j]),
                            ),
                    decreases ids@.len() - i,
                {
                    let child_id = ids[i];
                    proof {
                        let next = path.push(child_id);
                        assert(ids@.contains(child_id));
                        assert(child_ids(cats, Some(id)).contains(child_id));
                        assert forall|k: int| 0 <= k < next.len() implies cats.contains_key(
                            #[trigger] next[k],
                        ) by {
                            if k < path.len() {
                                assert(next[k] == path[k]);
                            }
                        }
                        assert forall|k: int| 1 <= k < next.len() implies cats[#[trigger] next[k]].parent_id
                            == Some(next[k - 1]) by {
                            if k < path.len() {
                                assert(next[k] == path[k]);
                            }
                        }
                        assert(next[0] == path[0]);
                        assert(is_root_chain(cats, next));
                        lemma_root_chain_bounded(cats, next);
                    }
                    let child = CategoryNode::new(
                        child_id,
                        children_map,
                        Ghost(cats),
                        Ghost(path.push(child_id)),
                    );
                    children.push(child);
                    i += 1;
                }
                proof {
                    assert(node_ids(children@) =~= ids@);
                }
            },
            None => {
                proof {
                    assert(node_ids(children@) =~= Seq::<u32>::empty());
                    assert(!children_map@.contains_key(id));
                    assert forall|k: u32|
                        node_ids(children@).contains(k) <==> child_ids(cats, Some(id)).contains(
                            k,
                        ) by {}
                }
            },
        }
        CategoryNode { id, children }
    }
}

/// The categories among the first `i` of `keys` whose parent is `parent`.
pub open spec fn prefix_children(
    cats: Map<u32, Category>,
    keys: Seq<u32>,
    i: int,
    parent: Option<u32>,
) -> Set<u32> {
    Set::new(
        |c: u32| keys.take(i).contains(c) && cats.contains_key(c) && cats[c].parent_id == parent,
    )
}

/// A listing stays one when an element greater than all of its members is
/// put at its end.
pub proof fn lemma_push_listing(list: Seq<u32>, set: Set<u32>, x: u32)
    requires
        lists_ascending(list, set),
        forall|k: u32| set.contains(k) ==> k < x,
    ensures
        lists_ascending(list.push(x), set.insert(x)),
{
    let next = list.push(x);
    assert forall|i: int, j: int| 0 <= i < j < next.len() implies next[i] < next[j] by {
        assert(list.contains(list[i]));
        if j < list.len() {
            assert(next[j] == list[j]);
        }
    }
    assert forall|k: u32| next.contains(k) <==> set.insert(x).contains(k) by {
        if next.contains(k) {
            let i = choose|i: int| 0 <= i < next.len() && next[i] == k;
            if i < list.len() {
                assert(list[i] == k);
                assert(list.contains(k));
            }
        }
        if set.insert(x).contains(k) {
            if k == x {
                assert(next[list.len() as int] == x);
            } else {
                assert(list.contains(k));
                let i = choose|i: int| 0 <= i < list.len() && list[i] == k;
                assert(next[i] == k);
            }
        }
    }
}

/// What one more key adds to the children seen so far.
proof fn lemma_prefix_step(cats: Map<u32, Category>, keys: Seq<u32>, i: int, parent: Option<u32>)
    requires
        0 <= i < keys.len(),
        strictly_ascending(keys),
        cats.contains_key(keys[i]),
    ensures
        cats[keys[i]].parent_id == parent ==> prefix_children(cats, keys, i + 1, parent)
            == prefix_children(cats, keys, i, parent).insert(keys[i]),
        cats[keys[i]].parent_id != parent ==> prefix_children(cats, keys, i + 1, parent)
            == prefix_children(cats, keys, i, parent),
        forall|k: u32| prefix_children(cats, keys, i, parent).contains(k) ==> k < keys[i],
{
    crate::ordered::lemma_take_step(keys, i);
    if cats[keys[i]].parent_id == parent {
        assert(prefix_children(cats, keys, i + 1, parent) =~= prefix_children(
            cats,
            keys,
            i,
            parent,
        ).insert(keys[i]));
    } else {
        assert(prefix_children(cats, keys, i + 1, parent) =~= prefix_children(
            cats,
            keys,
            i,
            parent,
        ));
    }
}

/// `roots` and `children_map` group the first `i` of `keys` by parent.
pub open spec fn groups_prefix(
    roots: Seq<u32>,
    children_map: Map<u32, Vec<u32>>,
    cats: Map<u32, Category>,
    keys: Seq<u32>,
    i: int,
) -> bool {
    &&& lists_ascending(roots, prefix_children(cats, keys, i, None))
    &&& forall|p: u32|
        if #[trigger] children_map.contains_key(p) {
            lists_ascending(children_map[p]@, prefix_children(cats, keys, i, Some(p)))
        } else {
            forall|c: u32| !#[trigger] prefix_children(cats, keys, i, Some(p)).contains(c)
        }
}

/// The forest of `categories`: the roots by ascending id, and under each
/// node its children by ascending id. A category whose chain of parents
/// does not end at a root is in no tree.
pub fn build_forest(categories: &BTreeMap<u32, Category>) -> (trees: Vec<CategoryNode>)
    ensures
        is_forest(trees@, categories@),
{
    let ghost cats = categories@;
    let keys = sorted_keys(categories);
    let mut roots: Vec<u32> = Vec::new();
    let mut children_map: BTreeMap<u32, Vec<u32>> = BTreeMap::new();
    let mut i: usize = 0;
    proof {
        assert(keys@.take(0) =~= Seq::<u32>::empty());
    }
    while i < keys.len()
        invariant
            cats == categories@,
            lists_ascending(keys@, cats.dom()),
            0 <= i <= keys@.len(),
            groups_prefix(roots@, children_map@, cats, keys@, i as int),
        decreases keys@.len() - i,
    {
        let id = keys[i];
        proof {
            assert(keys@.contains(id));
        }
        let parent_id = match categories.get(&id) {
            Some(category) => category.parent_id,
            None => None,
        };
        let ghost old_map = children_map@;
        match parent_id {
            Some(p) => {
                let mut list = match children_map.remove(&p) {
                    Some(list) => list,
                    None => Vec::new(),
                };
                proof {
                    lemma_prefix_step(cats, keys@, i as int, Some(p));
                    if old_map.contains_key(p) {
                        assert(list == old_map[p]);
                    } else {
                        assert(list@ =~= Seq::<u32>::empty());
                        assert(lists_ascending(list@, prefix_children(cats, keys@, i as int, Some(p))));
                    }
                    lemma_push_listing(list@, prefix_children(cats, keys@, i as int, Some(p)), id);
                }
                list.push(id);
                children_map.insert(p, list);
                proof {
                    lemma_prefix_step(cats, keys@, i as int, None);
                    assert forall|q: u32|
                        if #[trigger] children_map@.contains_key(q) {
                            lists_ascending(
                                children_map@[q]@,
                                prefix_children(cats, keys@, i + 1, Some(q)),
                            )
                        } else {
                            forall|c: u32| !#[trigger] prefix_children(cats, keys@, i + 1, Some(q)).contains(c)
                        } by {
                        if q != p {
                            lemma_prefix_step(cats, keys@, i as int, Some(q));
                            assert(children_map@.contains_key(q) == old_map.contains_key(q));
                        }
                    }
                }
            },
            None => {
                proof {
                    lemma_prefix_step(cats, keys@, i as int, None);
                    lemma_push_listing(roots@, prefix_children(cats, keys@, i as int, None), id);
                }
                roots.push(id);
                proof {
                    assert forall|q: u32|
                        if #[trigger] children_map@.contains_key(q) {
                            lists_ascending(
                                children_map@[q]@,
                                prefix_children(cats, keys@, i + 1, Some(q)),
                            )
                        } else {
                            forall|c: u32| !#[trigger] prefix_children(cats, keys@, i + 1, Some(q)).contains(c)
                        } by {
                        lemma_prefix_step(cats, keys@, i as int, Some(q));
                    }
                }
            },
        }
        i += 1;
    }
    proof {
        assert(keys@.take(keys@.len() as int) =~= keys@);
        assert forall|parent: Option<u32>| #[trigger]
            prefix_children(cats, keys@, keys@.len() as int, parent) == child_ids(cats, parent) by {
            assert(prefix_children(cats, keys@, keys@.len() as int, parent) =~= child_ids(
                cats,
                parent,
            ));
        }
        assert(lists_children(children_map@, cats)) by {
            assert forall|q: u32|
                if #[trigger] children_map@.contains_key(q) {
                    lists_ascending(children_map@[q]@, child_ids(cats, Some(q)))
                } else {
                    forall|c: u32| !#[trigger] child_ids(cats, Some(q)).contains(c)
                } by {
                assert(prefix_children(cats, keys@, keys@.len() as int, Some(q)) == child_ids(
                    cats,
                    Some(q),
                ));
            }
        }
        assert(prefix_children(cats, keys@, keys@.len() as int, None) == child_ids(cats, None));
    }
    let mut trees: Vec<CategoryNode> = Vec::new();
    let mut k: usize = 0;
    while k < roots.len()
        invariant
            cats == categories@,
            cats.dom().finite(),
            lists_children(children_map@, cats),
            lists_ascending(roots@, child_ids(cats, None)),
            0 <= k <= roots@.len(),
            trees@.len() == k,
            forall|j: int|
                0 <= j < k ==> (#[trigger] trees@[j]).id == roots@[j] && is_level(
                    trees@[j].children@,
                    cats,
                    Some(roots@[j]),
                ),
        decreases roots@.len() - k,
    {
        let root = roots[k];
        let ghost path = Seq::<u32>::empty().push(root);
        proof {
            assert(roots@.contains(root));
            assert(child_ids(cats, None).contains(root));
            assert(is_root_chain(cats, path));
        }
        let tree = CategoryNode::new(root, &children_map, Ghost(cats), Ghost(path));
        trees.push(tree);
        k += 1;
    }
    proof {
        assert(node_ids(trees@) =~= roots@);
    }
    trees
}

} // verus!
