use std::collections::HashMap;
use std::num::NonZeroUsize;

use indextree::Arena;
use vstd::multiset::Multiset;
use vstd::prelude::*;

use crate::category::{Category, CategoryView};
use crate::text::{lemma_seq_lt_transitive, seq_lt, str_lt};

verus! {

broadcast use vstd::std_specs::hash::group_hash_axioms;

#[verifier::external_type_specification]
#[verifier::external_body]
#[verifier::reject_recursive_types(T)]
pub struct ExArena<T>(Arena<T>);

/// A node of the category arena: its category, the handle of its parent,
/// and the handles of its children in order.
pub type ArenaNode = (CategoryView, Option<usize>, Seq<usize>);

/// The nodes of a category arena in slot order: each node's category, the
/// handle of its parent, and the handles of its children in sibling order.
/// A handle is the 1-based slot number, the value
/// `usize::from` gives for an `indextree::NodeId`.
pub uninterp spec fn arena_nodes(a: Arena<Category>) -> Seq<((u32, Seq<char>, Seq<char>, Option<u32>), Option<usize>, Seq<usize>)>;

/// No slot of the arena was ever freed by a removal.
pub uninterp spec fn arena_all_live(a: Arena<Category>) -> bool;

// ---------------------------------------------------------------------
// Trusted items: the calls into `indextree`.
// ---------------------------------------------------------------------

/// `indextree::Arena::new`: a new arena has no nodes and no freed slots.
#[verifier::external_body]
fn arena_new() -> (a: Arena<Category>)
    ensures
        arena_nodes(a) == Seq::<ArenaNode>::empty(),
        arena_all_live(a),
{
    Arena::new()
}

/// `indextree::Arena::new_node`: with no freed slot to reuse, the node is
/// pushed after the others, without a parent or children, and its handle is the new
/// number of slots. It panics only when that number would not fit a `usize`.
#[verifier::external_body]
fn arena_new_node(a: &mut Arena<Category>, c: Category) -> (h: usize)
    requires
        arena_all_live(*old(a)),
        arena_nodes(*old(a)).len() + 1 < usize::MAX,
    ensures
        arena_all_live(*final(a)),
        arena_nodes(*final(a)) == arena_nodes(*old(a)).push((c@, None, Seq::empty())),
        h == arena_nodes(*final(a)).len(),
{
    usize::from(a.new_node(c))
}

/// `indextree::Arena::len`: the number of slots, removed ones included.
#[verifier::external_body]
fn arena_len(a: &Arena<Category>) -> (n: usize)
    ensures
        n == arena_nodes(*a).len(),
{
    a.len()
}

/// `indextree::NodeId::append`: `child` is detached from its old parent
/// (leaving that parent's other children in order) and becomes the last
/// child of `parent`; no other parent link changes. The
/// call panics exactly when `child` is `parent` or one of its ancestors,
/// which `requires` leaves out.
#[verifier::external_body]
fn arena_append(a: &mut Arena<Category>, parent: usize, child: usize)
    requires
        arena_all_live(*old(a)),
        1 <= parent <= arena_nodes(*old(a)).len(),
        1 <= child <= arena_nodes(*old(a)).len(),
        !is_ancestor_or_self(parent_links(arena_nodes(*old(a))), child, parent),
    ensures
        arena_all_live(*final(a)),
        categories_of(arena_nodes(*final(a))) == categories_of(arena_nodes(*old(a))),
        parent_links(arena_nodes(*final(a))) == parent_links(arena_nodes(*old(a))).update(child - 1, Some(parent)),
        child_lists(arena_nodes(*final(a))) == moved_children(
            parent_links(arena_nodes(*old(a))),
            child_lists(arena_nodes(*old(a))),
            child,
            parent,
        ),
{
    let p = a.get_node_id_at(NonZeroUsize::new(parent).unwrap()).unwrap();
    let c = a.get_node_id_at(NonZeroUsize::new(child).unwrap()).unwrap();
    p.append(c, a);
}

/// `indextree::NodeId::is_leaf`: a node is a leaf when it has no
/// children.
#[verifier::external_body]
fn arena_is_leaf(a: &Arena<Category>, h: usize) -> (r: bool)
    requires
        arena_all_live(*a),
        1 <= h <= arena_nodes(*a).len(),
    ensures
        r == (child_lists(arena_nodes(*a))[h - 1].len() == 0),
{
    a.get_node_id_at(NonZeroUsize::new(h).unwrap()).unwrap().is_leaf(a)
}

/// `indextree::NodeId::ancestors`, collected: the node itself, then its
/// parent, and so on up to a node without a parent.
#[verifier::external_body]
fn arena_ancestors(a: &Arena<Category>, h: usize) -> (r: Vec<usize>)
    requires
        arena_all_live(*a),
        1 <= h <= arena_nodes(*a).len(),
    ensures
        is_chain(parent_links(arena_nodes(*a)), h, r@),
{
    a.get_node_id_at(NonZeroUsize::new(h).unwrap()).unwrap().ancestors(a).map(usize::from).collect()
}

/// `indextree::Arena::get_data`: the category held by the node.
#[verifier::external_body]
fn arena_category(a: &Arena<Category>, h: usize) -> (r: &Category)
    requires
        arena_all_live(*a),
        1 <= h <= arena_nodes(*a).len(),
    ensures
        r@ == arena_nodes(*a)[h - 1].0,
{
    a.get_data(a.get_node_id_at(NonZeroUsize::new(h).unwrap()).unwrap()).unwrap()
}

// ---------------------------------------------------------------------
// The tree model.
// ---------------------------------------------------------------------

/// The category of each node, by slot.
pub open spec fn categories_of(nodes: Seq<ArenaNode>) -> Seq<CategoryView> {
    nodes.map_values(|n: ArenaNode| n.0)
}

/// The children of each node in sibling order, by slot.
pub open spec fn child_lists(nodes: Seq<ArenaNode>) -> Seq<Seq<usize>> {
    nodes.map_values(|n: ArenaNode| n.2)
}

/// The child lists after moving `c` under `p`: `c` leaves its old
/// parent's list, the others keeping their order, and ends `p`'s list.
pub open spec fn moved_children(links: Seq<Option<usize>>, kids: Seq<Seq<usize>>, c: usize, p: usize) -> Seq<Seq<usize>> {
    let left = match parent_of(links, c) {
        Some(o) => kids.update(o - 1, kids[o - 1].filter(|x: usize| x != c)),
        None => kids,
    };
    left.update(p - 1, left[p - 1].push(c))
}

/// The parent handle of each node, by slot.
pub open spec fn parent_links(nodes: Seq<ArenaNode>) -> Seq<Option<usize>> {
    nodes.map_values(|n: ArenaNode| n.1)
}

/// The parent of the node with handle `h`.
pub open spec fn parent_of(links: Seq<Option<usize>>, h: usize) -> Option<usize> {
    if 1 <= h <= links.len() {
        links[h - 1]
    } else {
        None
    }
}

/// Every parent link names a node of the arena.
pub open spec fn links_in_range(links: Seq<Option<usize>>) -> bool {
    forall|j: int| 0 <= j < links.len() && #[trigger] links[j] is Some ==> 1 <= links[j]->0 <= links.len()
}

/// Walking up from `x` at most `fuel` steps meets `a`.
pub open spec fn meets(links: Seq<Option<usize>>, x: usize, a: usize, fuel: nat) -> bool
    decreases fuel,
{
    x == a || (fuel > 0 && parent_of(links, x) is Some && meets(
        links,
        parent_of(links, x)->0,
        a,
        (fuel - 1) as nat,
    ))
}

/// `a` is `x` or one of its ancestors.
pub open spec fn is_ancestor_or_self(links: Seq<Option<usize>>, a: usize, x: usize) -> bool {
    exists|fuel: nat| meets(links, x, a, fuel)
}

/// `chain` lists `h`, its parent, its parent's parent, and so on, ending at
/// a node without a parent.
pub open spec fn is_chain(links: Seq<Option<usize>>, h: usize, chain: Seq<usize>) -> bool {
    &&& chain.len() >= 1
    &&& chain[0] == h
    &&& forall|k: int| 0 <= k < chain.len() - 1 ==> parent_of(links, #[trigger] chain[k]) == Some(chain[k + 1])
    &&& parent_of(links, chain[chain.len() - 1]) is None
}

// ---------------------------------------------------------------------
// What loading a list of categories builds.
// ---------------------------------------------------------------------

/// The id index: each id maps to the handle of its first category.
pub open spec fn first_handles(cats: Seq<CategoryView>) -> Map<u32, usize>
    decreases cats.len(),
{
    if cats.len() == 0 {
        Map::empty()
    } else {
        let m = first_handles(cats.drop_last());
        let id = cats.last().0;
        if m.contains_key(id) {
            m
        } else {
            m.insert(id, cats.len() as usize)
        }
    }
}

/// The (child id, parent id) pairs of the categories that name a parent,
/// in list order.
pub open spec fn child_parent_pairs(cats: Seq<CategoryView>) -> Seq<(u32, u32)>
    decreases cats.len(),
{
    if cats.len() == 0 {
        Seq::empty()
    } else {
        let rest = child_parent_pairs(cats.drop_last());
        match cats.last().3 {
            Some(p) => rest.push((cats.last().0, p)),
            None => rest,
        }
    }
}

/// One linking step: when both ids are known, the child's node moves under
/// the parent's node; `None` when that would close a cycle.
pub open spec fn link_step(links: Seq<Option<usize>>, ids: Map<u32, usize>, pair: (u32, u32)) -> Option<Seq<Option<usize>>> {
    if ids.contains_key(pair.0) && ids.contains_key(pair.1) {
        let c = ids[pair.0];
        let p = ids[pair.1];
        if is_ancestor_or_self(links, c, p) {
            None
        } else {
            Some(links.update(c - 1, Some(p)))
        }
    } else {
        Some(links)
    }
}

/// The parent links after applying the pairs in order; `None` when some
/// step would close a cycle.
pub open spec fn linked(start: Seq<Option<usize>>, ids: Map<u32, usize>, pairs: Seq<(u32, u32)>) -> Option<Seq<Option<usize>>>
    decreases pairs.len(),
{
    if pairs.len() == 0 {
        Some(start)
    } else {
        match linked(start, ids, pairs.drop_last()) {
            Some(links) => link_step(links, ids, pairs.last()),
            None => None,
        }
    }
}

/// The child lists after applying the pairs in order (while no step closes
/// a cycle).
pub open spec fn linked_children(start: Seq<Option<usize>>, ids: Map<u32, usize>, pairs: Seq<(u32, u32)>) -> Seq<Seq<usize>>
    decreases pairs.len(),
{
    if pairs.len() == 0 {
        Seq::new(start.len(), |i: int| Seq::<usize>::empty())
    } else {
        let kids = linked_children(start, ids, pairs.drop_last());
        let pair = pairs.last();
        match linked(start, ids, pairs.drop_last()) {
            Some(links) => if ids.contains_key(pair.0) && ids.contains_key(pair.1) && !is_ancestor_or_self(
                links,
                ids[pair.0],
                ids[pair.1],
            ) {
                moved_children(links, kids, ids[pair.0], ids[pair.1])
            } else {
                kids
            },
            None => kids,
        }
    }
}

/// The child lists that loading `cats` builds.
pub open spec fn loaded_children(cats: Seq<CategoryView>) -> Seq<Seq<usize>> {
    linked_children(unlinked(cats.len()), first_handles(cats), child_parent_pairs(cats))
}

/// The parent links of the loaded categories, before any pair is applied.
pub open spec fn unlinked(n: nat) -> Seq<Option<usize>> {
    Seq::new(n, |i: int| None::<usize>)
}

/// The parent links that loading `cats` builds, if no step closes a cycle.
pub open spec fn loaded_links(cats: Seq<CategoryView>) -> Option<Seq<Option<usize>>> {
    linked(unlinked(cats.len()), first_handles(cats), child_parent_pairs(cats))
}

/// The category tree: an `indextree` arena holding every category, and an
/// index from category id to the handle of its node.
pub struct CategoryManager {
    pub arena: Arena<Category>,
    pub node_ids: HashMap<u32, usize>,
}

impl CategoryManager {
    /// The arena has no freed slot and the index only names its nodes.
    pub open spec fn wf(&self) -> bool {
        &&& arena_all_live(self.arena)
        &&& arena_nodes(self.arena).len() + 1 < usize::MAX
        &&& forall|id: u32| #[trigger] self.node_ids@.contains_key(id) ==> 1 <= self.node_ids@[id] <= arena_nodes(self.arena).len()
        &&& links_in_range(parent_links(arena_nodes(self.arena)))
    }

    /// Builds the tree: one node per category, in list order; the index
    /// keeps the first node of each id; then every category that names a
    /// parent is moved under the first node of that parent id, in list
    /// order, where both ids are known: it leaves its old parent's children
    /// and becomes the last child of the new parent.
    pub fn load(categories: Vec<Category>) -> (cm: Self)
        requires
            categories@.len() + 1 < usize::MAX,
            loaded_links(categories@.map_values(|c: Category| c@)) is Some,
        ensures
            cm.wf(),
            arena_nodes(cm.arena).map_values(|n: ArenaNode| n.0)
                == categories@.map_values(|c: Category| c@),
            parent_links(arena_nodes(cm.arena)) == loaded_links(categories@.map_values(|c: Category| c@))->0,
            child_lists(arena_nodes(cm.arena)) == loaded_children(categories@.map_values(|c: Category| c@)),
            cm.node_ids@ == first_handles(categories@.map_values(|c: Category| c@)),
    {
        let ghost cats = categories@.map_values(|c: Category| c@);
        let mut arena = arena_new();
        let mut node_ids: HashMap<u32, usize> = HashMap::new();
        let mut child_parent: Vec<(u32, u32)> = Vec::with_capacity(categories.len());
        for category in iter: categories.into_iter()
            invariant
                cats == iter.seq().map_values(|c: Category| c@),
                cats.len() + 1 < usize::MAX,
                arena_all_live(arena),
                arena_nodes(arena).map_values(|n: ArenaNode| n.0) == cats.take(iter.index() as int),
                parent_links(arena_nodes(arena)) == unlinked(iter.index() as nat),
                child_lists(arena_nodes(arena)) == Seq::new(iter.index() as nat, |j: int| Seq::<usize>::empty()),
                node_ids@ == first_handles(cats.take(iter.index() as int)),
                child_parent@ == child_parent_pairs(cats.take(iter.index() as int)),
        {
            let ghost i = iter.index() as int;
            proof {
                assert(cats.take(i + 1).drop_last() =~= cats.take(i));
                assert(cats[i] == category@);
            }
            let id = category.id;
            if let Some(parent) = category.parent {
                child_parent.push((id, parent));
            }
            let ghost before = arena_nodes(arena);
            let handle = arena_new_node(&mut arena, category);
            if !node_ids.contains_key(&id) {
                node_ids.insert(id, handle);
            }
            proof {
                assert(arena_nodes(arena).map_values(|n: ArenaNode| n.0) =~= cats.take(i + 1));
                assert forall|j: int| 0 <= j < i + 1 implies #[trigger] parent_links(arena_nodes(arena))[j]
                    == unlinked((i + 1) as nat)[j] by {
                    if j < i {
                        assert(parent_links(before)[j] == unlinked(i as nat)[j]);
                    }
                }
                assert(parent_links(arena_nodes(arena)) =~= unlinked((i + 1) as nat));
                assert forall|j: int| 0 <= j < i + 1 implies #[trigger] child_lists(arena_nodes(arena))[j]
                    == Seq::<usize>::empty() by {
                    if j < i {
                        assert(child_lists(before)[j] == Seq::new(i as nat, |j: int| Seq::<usize>::empty())[j]);
                    }
                }
                assert(child_lists(arena_nodes(arena)) =~= Seq::new((i + 1) as nat, |j: int| Seq::<usize>::empty()));
            }
        }
        proof {
            assert(cats.take(cats.len() as int) =~= cats);
            lemma_first_handles_range(cats);
        }
        let ghost ids = node_ids@;
        let ghost pairs = child_parent@;
        let ghost start = parent_links(arena_nodes(arena));
        let n = child_parent.len();
        let mut k: usize = 0;
        while k < n
            invariant
                n == pairs.len(),
                k <= n,
                child_parent@ == pairs,
                node_ids@ == ids,
                ids == first_handles(cats),
                pairs == child_parent_pairs(cats),
                start == unlinked(cats.len()),
                linked(start, ids, pairs) is Some,
                forall|id: u32| #[trigger] ids.contains_key(id) ==> 1 <= ids[id] <= cats.len(),
                arena_all_live(arena),
                cats.len() + 1 < usize::MAX,
                arena_nodes(arena).map_values(|n: ArenaNode| n.0) == cats,
                linked(start, ids, pairs.take(k as int)) == Some(parent_links(arena_nodes(arena))),
                linked_children(start, ids, pairs.take(k as int)) == child_lists(arena_nodes(arena)),
                links_in_range(parent_links(arena_nodes(arena))),
            decreases n - k,
        {
            let (child, parent) = child_parent[k];
            proof {
                assert(pairs.take(k + 1).drop_last() =~= pairs.take(k as int));
                lemma_linked_prefix(start, ids, pairs, (k + 1) as nat);
            }
            let ghost before = arena_nodes(arena);
            match (node_ids.get(&child), node_ids.get(&parent)) {
                (Some(c), Some(p)) => {
                    let c = *c;
                    let p = *p;
                    arena_append(&mut arena, p, c);
                    proof {
                        assert(arena_nodes(arena).map_values(|n: ArenaNode| n.0) =~= cats);
                    }
                },
                _ => {},
            }
            k = k + 1;
        }
        proof {
            assert(pairs.take(n as int) =~= pairs);
        }
        CategoryManager { arena, node_ids }
    }
}

/// Every handle in the id index names a loaded category.
proof fn lemma_first_handles_range(cats: Seq<CategoryView>)
    requires
        cats.len() < usize::MAX,
    ensures
        forall|id: u32| #[trigger] first_handles(cats).contains_key(id) ==> 1 <= first_handles(cats)[id] <= cats.len(),
    decreases cats.len(),
{
    if cats.len() > 0 {
        let m = first_handles(cats.drop_last());
        lemma_first_handles_range(cats.drop_last());
        assert forall|id: u32| #[trigger] first_handles(cats).contains_key(id) implies 1 <= first_handles(cats)[id]
            <= cats.len() by {
            if m.contains_key(id) {
                assert(1 <= m[id] <= cats.len() - 1);
            }
        }
    }
}

/// The id index maps exactly the ids of the list, each to the handle of
/// its first category.
pub proof fn lemma_first_handles_are_first(cats: Seq<CategoryView>, id: u32)
    requires
        cats.len() < usize::MAX,
    ensures
        first_handles(cats).contains_key(id) <==> exists|i: int| 0 <= i < cats.len() && #[trigger] cats[i].0 == id,
        first_handles(cats).contains_key(id) ==> {
            let h = first_handles(cats)[id];
            &&& 1 <= h <= cats.len()
            &&& cats[h - 1].0 == id
            &&& forall|j: int| 0 <= j < h - 1 ==> #[trigger] cats[j].0 != id
        },
    decreases cats.len(),
{
    if cats.len() > 0 {
        let rest = cats.drop_last();
        lemma_first_handles_are_first(rest, id);
        if first_handles(rest).contains_key(id) {
            let i = choose|i: int| 0 <= i < rest.len() && #[trigger] rest[i].0 == id;
            assert(cats[i].0 == id);
            let h = first_handles(rest)[id];
            assert(cats[h - 1] == rest[h - 1]);
            assert forall|j: int| 0 <= j < h - 1 implies #[trigger] cats[j].0 != id by {
                assert(cats[j] == rest[j]);
            }
        } else {
            assert forall|j: int| 0 <= j < cats.len() - 1 implies #[trigger] cats[j].0 != id by {
                assert(cats[j] == rest[j]);
            }
            if exists|i: int| 0 <= i < cats.len() && #[trigger] cats[i].0 == id {
                let i = choose|i: int| 0 <= i < cats.len() && #[trigger] cats[i].0 == id;
                if i < cats.len() - 1 {
                    assert(rest[i].0 == id);
                }
            }
        }
    }
}

/// When applying all pairs succeeds, applying any prefix of them succeeds.
proof fn lemma_linked_prefix(start: Seq<Option<usize>>, ids: Map<u32, usize>, pairs: Seq<(u32, u32)>, k: nat)
    requires
        k <= pairs.len(),
        linked(start, ids, pairs) is Some,
    ensures
        linked(start, ids, pairs.take(k as int)) is Some,
    decreases pairs.len() - k,
{
    if k < pairs.len() {
        lemma_linked_prefix(start, ids, pairs, k + 1);
        assert(pairs.take((k + 1) as int).drop_last() =~= pairs.take(k as int));
    } else {
        assert(pairs.take(k as int) =~= pairs);
    }
}

// ---------------------------------------------------------------------
// Sibling order.
// ---------------------------------------------------------------------

/// No two categories of the list share an id.
pub open spec fn ids_distinct(cats: Seq<CategoryView>) -> bool {
    forall|i: int, j: int| 0 <= i < j < cats.len() ==> #[trigger] cats[i].0 != #[trigger] cats[j].0
}

/// The handles of the listed categories that name `pid` as their parent,
/// in list order.
pub open spec fn listed_children(cats: Seq<CategoryView>, pid: u32) -> Seq<usize>
    decreases cats.len(),
{
    if cats.len() == 0 {
        Seq::empty()
    } else {
        let rest = listed_children(cats.drop_last(), pid);
        if cats.last().3 == Some(pid) {
            rest.push(cats.len() as usize)
        } else {
            rest
        }
    }
}

/// The child handles that the pairs attach to the node with handle `h`,
/// in pair order.
spec fn pair_children(ids: Map<u32, usize>, pairs: Seq<(u32, u32)>, h: usize) -> Seq<usize>
    decreases pairs.len(),
{
    if pairs.len() == 0 {
        Seq::empty()
    } else {
        let rest = pair_children(ids, pairs.drop_last(), h);
        let pr = pairs.last();
        if ids.contains_key(pr.0) && ids.contains_key(pr.1) && ids[pr.1] == h {
            rest.push(ids[pr.0])
        } else {
            rest
        }
    }
}

/// A node that no pair moves keeps its starting parent link.
proof fn lemma_linked_untouched(start: Seq<Option<usize>>, ids: Map<u32, usize>, pairs: Seq<(u32, u32)>, j: int)
    requires
        0 <= j < start.len(),
        linked(start, ids, pairs) is Some,
        forall|id: u32| #[trigger] ids.contains_key(id) ==> 1 <= ids[id] <= start.len(),
        forall|m: int| 0 <= m < pairs.len() && ids.contains_key(#[trigger] pairs[m].0) ==> ids[pairs[m].0] != j + 1,
    ensures
        linked(start, ids, pairs)->0.len() == start.len(),
        linked(start, ids, pairs)->0[j] == start[j],
    decreases pairs.len(),
{
    if pairs.len() > 0 {
        let prev = pairs.drop_last();
        assert forall|m: int| 0 <= m < prev.len() && ids.contains_key(#[trigger] prev[m].0) implies ids[prev[m].0] != j + 1 by {
            assert(prev[m] == pairs[m]);
        }
        assert(linked(start, ids, prev) is Some);
        lemma_linked_untouched(start, ids, prev, j);
        let links = linked(start, ids, prev)->0;
        let pr = pairs.last();
        assert(pairs[pairs.len() - 1] == pr);
        assert(linked(start, ids, pairs) == link_step(links, ids, pr));
        if ids.contains_key(pr.0) && ids.contains_key(pr.1) {
            assert(ids[pr.0] != j + 1);
        }
    }
}

/// When every pair names a different child and no child has a parent yet,
/// each node's children are the children the pairs give it, in pair order.
proof fn lemma_linked_children_in_pair_order(start: Seq<Option<usize>>, ids: Map<u32, usize>, pairs: Seq<(u32, u32)>)
    requires
        start.len() < usize::MAX,
        forall|j: int| 0 <= j < start.len() ==> #[trigger] start[j] is None,
        linked(start, ids, pairs) is Some,
        forall|id: u32| #[trigger] ids.contains_key(id) ==> 1 <= ids[id] <= start.len(),
        forall|a: u32, b: u32| ids.contains_key(a) && ids.contains_key(b) && #[trigger] ids[a] == #[trigger] ids[b] ==> a == b,
        forall|m1: int, m2: int| 0 <= m1 < m2 < pairs.len() ==> #[trigger] pairs[m1].0 != #[trigger] pairs[m2].0,
    ensures
        linked_children(start, ids, pairs).len() == start.len(),
        forall|h: int| 1 <= h <= start.len() ==> #[trigger] linked_children(start, ids, pairs)[h - 1] == pair_children(ids, pairs, h as usize),
    decreases pairs.len(),
{
    if pairs.len() > 0 {
        let prev = pairs.drop_last();
        let pr = pairs.last();
        assert(pairs.take(pairs.len() - 1) =~= prev);
        lemma_linked_prefix(start, ids, pairs, (pairs.len() - 1) as nat);
        assert forall|m1: int, m2: int| 0 <= m1 < m2 < prev.len() implies #[trigger] prev[m1].0 != #[trigger] prev[m2].0 by {
            assert(prev[m1] == pairs[m1] && prev[m2] == pairs[m2]);
        }
        lemma_linked_children_in_pair_order(start, ids, prev);
        let links = linked(start, ids, prev)->0;
        let kids = linked_children(start, ids, prev);
        if ids.contains_key(pr.0) && ids.contains_key(pr.1) {
            let c = ids[pr.0];
            let p = ids[pr.1];
            assert(!is_ancestor_or_self(links, c, p));
            assert forall|m: int| 0 <= m < prev.len() && ids.contains_key(#[trigger] prev[m].0) implies ids[prev[m].0] != c by {
                assert(prev[m] == pairs[m]);
                assert(pairs[pairs.len() - 1] == pr);
            }
            lemma_linked_untouched(start, ids, prev, c - 1);
            assert(parent_of(links, c) is None);
            assert(linked_children(start, ids, pairs) == kids.update(p - 1, kids[p - 1].push(c)));
            assert forall|h: int| 1 <= h <= start.len() implies #[trigger] linked_children(start, ids, pairs)[h - 1]
                == pair_children(ids, pairs, h as usize) by {
                assert(kids[h - 1] == pair_children(ids, prev, h as usize));
            }
        } else {
            assert(linked_children(start, ids, pairs) == kids);
            assert forall|h: int| 1 <= h <= start.len() implies #[trigger] linked_children(start, ids, pairs)[h - 1]
                == pair_children(ids, pairs, h as usize) by {
                assert(kids[h - 1] == pair_children(ids, prev, h as usize));
            }
        }
    }
}

/// With ids that name their own handles, the pairs of a list give the node
/// of `pid` the listed children of `pid`.
proof fn lemma_pair_children_listed(ids: Map<u32, usize>, cs: Seq<CategoryView>, pid: u32)
    requires
        cs.len() < usize::MAX,
        ids.contains_key(pid),
        forall|a: u32, b: u32| ids.contains_key(a) && ids.contains_key(b) && #[trigger] ids[a] == #[trigger] ids[b] ==> a == b,
        forall|i: int| 0 <= i < cs.len() ==> ids.contains_key(#[trigger] cs[i].0) && ids[cs[i].0] == i + 1,
    ensures
        pair_children(ids, child_parent_pairs(cs), ids[pid]) == listed_children(cs, pid),
    decreases cs.len(),
{
    if cs.len() > 0 {
        let rest = cs.drop_last();
        assert forall|i: int| 0 <= i < rest.len() implies ids.contains_key(#[trigger] rest[i].0) && ids[rest[i].0] == i + 1 by {
            assert(rest[i] == cs[i]);
        }
        lemma_pair_children_listed(ids, rest, pid);
        let last = cs.last();
        assert(cs[cs.len() - 1] == last);
        match last.3 {
            Some(q) => {
                let pairs = child_parent_pairs(rest).push((last.0, q));
                assert(pairs.drop_last() =~= child_parent_pairs(rest));
                if ids.contains_key(q) && ids[q] == ids[pid] {
                    assert(q == pid);
                }
            },
            None => {},
        }
    }
}

/// Some category of the list has the id `x`.
spec fn lists_id(cs: Seq<CategoryView>, x: u32) -> bool {
    exists|i: int| 0 <= i < cs.len() && #[trigger] cs[i].0 == x
}

/// Each pair of a list with distinct ids names a different child, one of
/// the listed ids.
proof fn lemma_pairs_children_distinct(cs: Seq<CategoryView>)
    requires
        ids_distinct(cs),
    ensures
        forall|m: int| 0 <= m < child_parent_pairs(cs).len() ==> lists_id(cs, #[trigger] child_parent_pairs(cs)[m].0),
        forall|m1: int, m2: int| 0 <= m1 < m2 < child_parent_pairs(cs).len() ==> #[trigger] child_parent_pairs(cs)[m1].0 != #[trigger] child_parent_pairs(cs)[m2].0,
    decreases cs.len(),
{
    if cs.len() > 0 {
        let rest = cs.drop_last();
        assert forall|i: int, j: int| 0 <= i < j < rest.len() implies #[trigger] rest[i].0 != #[trigger] rest[j].0 by {
            assert(rest[i] == cs[i] && rest[j] == cs[j]);
        }
        lemma_pairs_children_distinct(rest);
        let prs = child_parent_pairs(rest);
        let all = child_parent_pairs(cs);
        let last = cs.last();
        assert(cs[cs.len() - 1] == last);
        assert(all.len() == prs.len() || all.len() == prs.len() + 1);
        assert(forall|m: int| 0 <= m < prs.len() ==> #[trigger] all[m] == prs[m]);
        assert(all.len() == prs.len() + 1 ==> all[prs.len() as int].0 == last.0);
        assert forall|m: int| 0 <= m < all.len() implies lists_id(cs, #[trigger] all[m].0) by {
            if m < prs.len() {
                assert(all[m] == prs[m]);
                assert(lists_id(rest, prs[m].0));
                let i = choose|i: int| 0 <= i < rest.len() && #[trigger] rest[i].0 == prs[m].0;
                assert(cs[i] == rest[i]);
            } else {
                assert(cs[cs.len() - 1].0 == all[m].0);
            }
        }
        assert forall|m1: int, m2: int| 0 <= m1 < m2 < all.len() implies #[trigger] all[m1].0 != #[trigger] all[m2].0 by {
            assert(all[m1] == prs[m1]);
            assert(lists_id(rest, prs[m1].0));
            let i = choose|i: int| 0 <= i < rest.len() && #[trigger] rest[i].0 == prs[m1].0;
            assert(cs[i] == rest[i]);
            if m2 < prs.len() {
                assert(all[m2] == prs[m2]);
            }
        }
    } else {
        assert(child_parent_pairs(cs).len() == 0);
    }
}

/// The parent that the pairs leave the node with handle `h`: that of the
/// last pair that moves it, or `dflt` when none does.
spec fn pair_parent(ids: Map<u32, usize>, pairs: Seq<(u32, u32)>, h: usize, dflt: Option<usize>) -> Option<usize>
    decreases pairs.len(),
{
    if pairs.len() == 0 {
        dflt
    } else {
        let pr = pairs.last();
        if ids.contains_key(pr.0) && ids.contains_key(pr.1) && ids[pr.0] == h {
            Some(ids[pr.1])
        } else {
            pair_parent(ids, pairs.drop_last(), h, dflt)
        }
    }
}

/// The parent of the node of category `c` after loading, given the id
/// index: the node of its parent id when that id is known, else none.
pub open spec fn expected_parent(ids: Map<u32, usize>, c: CategoryView) -> Option<usize> {
    match c.3 {
        Some(q) => if ids.contains_key(q) {
            Some(ids[q])
        } else {
            None
        },
        None => None,
    }
}

/// Each node's parent link is the one the last pair that moves it sets.
proof fn lemma_linked_parent(start: Seq<Option<usize>>, ids: Map<u32, usize>, pairs: Seq<(u32, u32)>, j: int)
    requires
        0 <= j < start.len() < usize::MAX,
        linked(start, ids, pairs) is Some,
        forall|id: u32| #[trigger] ids.contains_key(id) ==> 1 <= ids[id] <= start.len(),
    ensures
        linked(start, ids, pairs)->0.len() == start.len(),
        linked(start, ids, pairs)->0[j] == pair_parent(ids, pairs, (j + 1) as usize, start[j]),
    decreases pairs.len(),
{
    if pairs.len() > 0 {
        let prev = pairs.drop_last();
        assert(pairs.take(pairs.len() - 1) =~= prev);
        lemma_linked_prefix(start, ids, pairs, (pairs.len() - 1) as nat);
        lemma_linked_parent(start, ids, prev, j);
        let links = linked(start, ids, prev)->0;
        assert(linked(start, ids, pairs) == link_step(links, ids, pairs.last()));
    }
}

/// With ids that name their own handles, the pairs of a list leave each
/// listed node under the node of its parent id.
proof fn lemma_pair_parent_listed(ids: Map<u32, usize>, cs: Seq<CategoryView>, h: int)
    requires
        cs.len() < usize::MAX,
        1 <= h < usize::MAX,
        forall|i: int| 0 <= i < cs.len() ==> ids.contains_key(#[trigger] cs[i].0) && ids[cs[i].0] == i + 1,
    ensures
        pair_parent(ids, child_parent_pairs(cs), h as usize, None) == if h <= cs.len() {
            expected_parent(ids, cs[h - 1])
        } else {
            None
        },
    decreases cs.len(),
{
    if cs.len() > 0 {
        let rest = cs.drop_last();
        assert forall|i: int| 0 <= i < rest.len() implies ids.contains_key(#[trigger] rest[i].0) && ids[rest[i].0] == i + 1 by {
            assert(rest[i] == cs[i]);
        }
        lemma_pair_parent_listed(ids, rest, h);
        let last = cs.last();
        assert(cs[cs.len() - 1] == last);
        if h < cs.len() {
            assert(rest[h - 1] == cs[h - 1]);
        }
        match last.3 {
            Some(q) => {
                let pairs = child_parent_pairs(rest).push((last.0, q));
                assert(pairs.drop_last() =~= child_parent_pairs(rest));
            },
            None => {},
        }
    }
}

/// With pairwise distinct ids, loading puts each category's node under the
/// node of its parent id when some category has that id, and leaves it a
/// root otherwise.
pub proof fn lemma_loaded_parent_by_id(cats: Seq<CategoryView>, i: int)
    requires
        cats.len() + 1 < usize::MAX,
        ids_distinct(cats),
        loaded_links(cats) is Some,
        0 <= i < cats.len(),
    ensures
        loaded_links(cats)->0[i] == expected_parent(first_handles(cats), cats[i]),
{
    let ids = first_handles(cats);
    lemma_first_handles_range(cats);
    assert forall|k: int| 0 <= k < cats.len() implies ids.contains_key(#[trigger] cats[k].0) && ids[cats[k].0] == k + 1 by {
        lemma_first_handles_are_first(cats, cats[k].0);
        let g = ids[cats[k].0];
        if g - 1 != k {
            assert(cats[g - 1].0 == cats[k].0);
        }
    }
    lemma_linked_parent(unlinked(cats.len()), ids, child_parent_pairs(cats), i);
    lemma_pair_parent_listed(ids, cats, i + 1);
}

/// With pairwise distinct ids, loading gives each node as its children
/// exactly the categories that name its id as their parent, in list order,
/// whether the parent is listed before or after them.
pub proof fn lemma_loaded_children_in_list_order(cats: Seq<CategoryView>, h: int)
    requires
        cats.len() + 1 < usize::MAX,
        ids_distinct(cats),
        loaded_links(cats) is Some,
        1 <= h <= cats.len(),
    ensures
        loaded_children(cats)[h - 1] == listed_children(cats, cats[h - 1].0),
{
    let ids = first_handles(cats);
    let pairs = child_parent_pairs(cats);
    lemma_first_handles_range(cats);
    assert forall|a: u32, b: u32| ids.contains_key(a) && ids.contains_key(b) && #[trigger] ids[a] == #[trigger] ids[b] implies a == b by {
        lemma_first_handles_are_first(cats, a);
        lemma_first_handles_are_first(cats, b);
    }
    assert forall|i: int| 0 <= i < cats.len() implies ids.contains_key(#[trigger] cats[i].0) && ids[cats[i].0] == i + 1 by {
        lemma_first_handles_are_first(cats, cats[i].0);
        let g = ids[cats[i].0];
        if g - 1 != i {
            assert(cats[g - 1].0 == cats[i].0);
        }
    }
    lemma_pairs_children_distinct(cats);
    lemma_linked_children_in_pair_order(unlinked(cats.len()), ids, pairs);
    let pid = cats[h - 1].0;
    lemma_pair_children_listed(ids, cats, pid);
    assert(ids[pid] == h);
}

// ---------------------------------------------------------------------
// The choosable categories: leaves, each with its path from the root.
// ---------------------------------------------------------------------

/// The chain from `h` up to its root.
pub open spec fn chain_of(links: Seq<Option<usize>>, h: usize) -> Seq<usize> {
    choose|c: Seq<usize>| is_chain(links, h, c)
}

/// Two chains from the same node agree at every position they share.
proof fn lemma_chain_prefix(links: Seq<Option<usize>>, h: usize, c1: Seq<usize>, c2: Seq<usize>, k: int)
    requires
        is_chain(links, h, c1),
        is_chain(links, h, c2),
        0 <= k < c1.len(),
        k < c2.len(),
    ensures
        c1[k] == c2[k],
    decreases k,
{
    if k > 0 {
        lemma_chain_prefix(links, h, c1, c2, k - 1);
        assert(parent_of(links, c1[k - 1]) == Some(c1[k]));
        assert(parent_of(links, c2[k - 1]) == Some(c2[k]));
    }
}

/// Two chains from the same node are the same.
pub proof fn lemma_chain_unique(links: Seq<Option<usize>>, h: usize, c1: Seq<usize>, c2: Seq<usize>)
    requires
        is_chain(links, h, c1),
        is_chain(links, h, c2),
    ensures
        c1 == c2,
{
    if c1.len() < c2.len() {
        let m = c1.len() - 1;
        lemma_chain_prefix(links, h, c1, c2, m);
        assert(parent_of(links, c2[m]) == Some(c2[m + 1]));
    } else if c2.len() < c1.len() {
        let m = c2.len() - 1;
        lemma_chain_prefix(links, h, c1, c2, m);
        assert(parent_of(links, c1[m]) == Some(c1[m + 1]));
    }
    assert forall|k: int| 0 <= k < c1.len() implies c1[k] == c2[k] by {
        lemma_chain_prefix(links, h, c1, c2, k);
    }
    assert(c1 =~= c2);
}

/// The titles along a chain, from the root down to its first node.
pub open spec fn titles_root_first(nodes: Seq<ArenaNode>, chain: Seq<usize>) -> Seq<Seq<char>> {
    Seq::new(chain.len(), |k: int| nodes[chain[chain.len() - 1 - k] - 1].0.1)
}

/// The parts joined by " -> ".
pub open spec fn joined_path(parts: Seq<Seq<char>>) -> Seq<char>
    decreases parts.len(),
{
    if parts.len() == 0 {
        Seq::empty()
    } else if parts.len() == 1 {
        parts[0]
    } else {
        joined_path(parts.drop_last()) + " -> "@ + parts.last()
    }
}

/// The entry offered for the node `h`: its path of titles from the root,
/// and its own title.
pub open spec fn leaf_entry(nodes: Seq<ArenaNode>, h: usize) -> (Seq<char>, Seq<char>) {
    (joined_path(titles_root_first(nodes, chain_of(parent_links(nodes), h))), nodes[h - 1].0.1)
}

/// A joined path ends with its last part.
proof fn lemma_joined_path_ends_with_last(parts: Seq<Seq<char>>)
    requires
        parts.len() >= 1,
    ensures
        joined_path(parts).len() >= parts.last().len(),
        joined_path(parts).subrange(
            joined_path(parts).len() - parts.last().len(),
            joined_path(parts).len() as int,
        ) == parts.last(),
{
    let j = joined_path(parts);
    if parts.len() > 1 {
        let prefix = joined_path(parts.drop_last()) + " -> "@;
        assert(j == prefix + parts.last());
        assert(j.subrange(prefix.len() as int, j.len() as int) =~= parts.last());
    }
}

/// An entry's path ends with the entry's title: the leaf is the last part
/// of its path.
pub proof fn lemma_entry_path_ends_with_title(nodes: Seq<ArenaNode>, h: usize)
    requires
        1 <= h <= nodes.len(),
        exists|c: Seq<usize>| is_chain(parent_links(nodes), h, c),
    ensures
        ({
            let (path, title) = leaf_entry(nodes, h);
            path.len() >= title.len() && path.subrange(path.len() - title.len(), path.len() as int) == title
        }),
{
    let chain = chain_of(parent_links(nodes), h);
    let parts = titles_root_first(nodes, chain);
    assert(parts.last() == nodes[chain[0] - 1].0.1);
    lemma_joined_path_ends_with_last(parts);
}

impl CategoryManager {
    /// The index lists node `h` under its category's id.
    pub open spec fn indexed(&self, h: usize) -> bool {
        let id = arena_nodes(self.arena)[h - 1].0.0;
        self.node_ids@.contains_key(id) && self.node_ids@[id] == h
    }

    /// The indexed leaves among the first `upto` nodes, as entries, in
    /// slot order.
    pub open spec fn leaf_entries_upto(&self, upto: nat) -> Seq<(Seq<char>, Seq<char>)>
        decreases upto,
    {
        if upto == 0 {
            Seq::empty()
        } else {
            let rest = self.leaf_entries_upto((upto - 1) as nat);
            let h = upto as usize;
            if self.indexed(h) && child_lists(arena_nodes(self.arena))[h - 1].len() == 0 {
                rest.push(leaf_entry(arena_nodes(self.arena), h))
            } else {
                rest
            }
        }
    }

    /// The path and title of every indexed leaf: the categories a new
    /// expense can be filed under, ordered by path.
    pub fn leaf_entries(&self) -> (r: Vec<(String, String)>)
        requires
            self.wf(),
        ensures
            sorted_by_path(r@.map_values(|e: (String, String)| (e.0@, e.1@))),
            r@.map_values(|e: (String, String)| (e.0@, e.1@)).to_multiset()
                == self.leaf_entries_upto(arena_nodes(self.arena).len()).to_multiset(),
    {
        let ghost nodes = arena_nodes(self.arena);
        let ghost links = parent_links(nodes);
        let n = arena_len(&self.arena);
        let mut entries: Vec<(String, String)> = Vec::new();
        let mut h: usize = 1;
        while h <= n
            invariant
                self.wf(),
                nodes == arena_nodes(self.arena),
                links == parent_links(nodes),
                n == nodes.len(),
                1 <= h <= n + 1,
                entries@.map_values(|e: (String, String)| (e.0@, e.1@)) == self.leaf_entries_upto((h - 1) as nat),
            decreases n + 1 - h,
        {
            let cat = arena_category(&self.arena, h);
            let listed = match self.node_ids.get(&cat.id) {
                Some(v) => *v == h,
                None => false,
            };
            if listed && arena_is_leaf(&self.arena, h) {
                let entry = self.path_entry(h);
                entries.push(entry);
                proof {
                    assert(entries@.map_values(|e: (String, String)| (e.0@, e.1@)) =~= self.leaf_entries_upto((h - 1) as nat).push(leaf_entry(nodes, h)));
                }
            } else {
                proof {
                    assert(entries@.map_values(|e: (String, String)| (e.0@, e.1@)) =~= self.leaf_entries_upto(h as nat));
                }
            }
            h = h + 1;
        }
        sort_by_path(entries)
    }

    /// The entry for node `h`: the titles from its root down to it, joined
    /// by " -> ", and its own title.
    fn path_entry(&self, h: usize) -> (e: (String, String))
        requires
            self.wf(),
            1 <= h <= arena_nodes(self.arena).len(),
        ensures
            (e.0@, e.1@) == leaf_entry(arena_nodes(self.arena), h),
    {
        let ghost nodes = arena_nodes(self.arena);
        let ghost links = parent_links(nodes);
        let chain = arena_ancestors(&self.arena, h);
        proof {
            lemma_chain_unique(links, h, chain@, chain_of(links, h));
            lemma_chain_in_range(links, h, chain@);
        }
        let len = chain.len();
        let ghost parts = titles_root_first(nodes, chain@);
        let mut path = String::new();
        let mut k: usize = 0;
        while k < len
            invariant
                self.wf(),
                nodes == arena_nodes(self.arena),
                len == chain@.len(),
                parts == titles_root_first(nodes, chain@),
                forall|j: int| 0 <= j < chain@.len() ==> 1 <= #[trigger] chain@[j] <= nodes.len(),
                k <= len,
                path@ == joined_path(parts.take(k as int)),
            decreases len - k,
        {
            let node = chain[len - 1 - k];
            let title = &arena_category(&self.arena, node).title;
            if k == 0 {
                path.append(title.as_str());
                proof {
                    assert(parts.take(1) =~= seq![parts[0]]);
                }
            } else {
                path.append(" -> ");
                path.append(title.as_str());
                proof {
                    assert(parts.take(k + 1).drop_last() =~= parts.take(k as int));
                }
            }
            k = k + 1;
        }
        proof {
            assert(parts.take(len as int) =~= parts);
        }
        let own = arena_category(&self.arena, h).title.clone();
        (path, own)
    }
}

/// Every node on a chain from a node of the arena is a node of the arena.
proof fn lemma_chain_in_range(links: Seq<Option<usize>>, h: usize, chain: Seq<usize>)
    requires
        links_in_range(links),
        1 <= h <= links.len(),
        is_chain(links, h, chain),
    ensures
        forall|j: int| 0 <= j < chain.len() ==> 1 <= #[trigger] chain[j] <= links.len(),
{
    assert forall|j: int| 0 <= j < chain.len() implies 1 <= #[trigger] chain[j] <= links.len() by {
        if j > 0 {
            assert(parent_of(links, chain[j - 1]) == Some(chain[j]));
            assert(links[chain[j - 1] - 1] is Some);
        }
    }
}

/// The entries are in non-decreasing order of path.
pub open spec fn sorted_by_path(s: Seq<(Seq<char>, Seq<char>)>) -> bool {
    forall|i: int, j: int| 0 <= i < j < s.len() ==> !seq_lt(#[trigger] s[j].0, #[trigger] s[i].0)
}

/// Stable insertion sort of the entries by path.
fn sort_by_path(entries: Vec<(String, String)>) -> (r: Vec<(String, String)>)
    ensures
        sorted_by_path(r@.map_values(|e: (String, String)| (e.0@, e.1@))),
        r@.map_values(|e: (String, String)| (e.0@, e.1@)).to_multiset()
            == entries@.map_values(|e: (String, String)| (e.0@, e.1@)).to_multiset(),
{
    let ghost input = entries@.map_values(|e: (String, String)| (e.0@, e.1@));
    let mut sorted: Vec<(String, String)> = Vec::new();
    let mut rest = entries;
    proof {
        broadcast use vstd::seq_lib::group_to_multiset_ensures;
        broadcast use vstd::multiset::group_multiset_axioms;
        assert(sorted@.map_values(|e: (String, String)| (e.0@, e.1@)) =~= Seq::empty());
        assert(sorted@.map_values(|e: (String, String)| (e.0@, e.1@)).to_multiset() =~= Multiset::empty());
        assert(Multiset::<(Seq<char>, Seq<char>)>::empty().add(input.to_multiset()) =~= input.to_multiset());
    }
    while rest.len() > 0
        invariant
            sorted_by_path(sorted@.map_values(|e: (String, String)| (e.0@, e.1@))),
            sorted@.map_values(|e: (String, String)| (e.0@, e.1@)).to_multiset().add(
                rest@.map_values(|e: (String, String)| (e.0@, e.1@)).to_multiset(),
            ) == input.to_multiset(),
        decreases rest.len(),
    {
        let ghost old_sorted = sorted@.map_values(|e: (String, String)| (e.0@, e.1@));
        let ghost old_rest = rest@.map_values(|e: (String, String)| (e.0@, e.1@));
        let e = rest.remove(0);
        let mut pos: usize = 0;
        let len = sorted.len();
        while pos < len && !str_lt(e.0.as_str(), sorted[pos].0.as_str())
            invariant
                len == sorted.len(),
                pos <= len,
                old_sorted == sorted@.map_values(|e: (String, String)| (e.0@, e.1@)),
                forall|i: int| 0 <= i < pos ==> !seq_lt(e.0@, #[trigger] old_sorted[i].0),
            decreases len - pos,
        {
            pos = pos + 1;
        }
        sorted.insert(pos, e);
        proof {
            let ev = (e.0@, e.1@);
            let new_sorted = sorted@.map_values(|e: (String, String)| (e.0@, e.1@));
            assert(new_sorted =~= old_sorted.insert(pos as int, ev));
            assert forall|i: int, j: int| 0 <= i < j < new_sorted.len() implies !seq_lt(
                #[trigger] new_sorted[j].0,
                #[trigger] new_sorted[i].0,
            ) by {
                if j < pos {
                } else if j == pos {
                    assert(new_sorted[i] == old_sorted[i]);
                } else if i < pos {
                    assert(new_sorted[j] == old_sorted[j - 1]);
                } else if i == pos {
                    assert(pos < len);
                    assert(seq_lt(e.0@, old_sorted[pos as int].0));
                    assert(new_sorted[j] == old_sorted[j - 1]);
                    if seq_lt(old_sorted[j - 1].0, e.0@) {
                        if j - 1 > pos {
                            lemma_seq_lt_transitive(old_sorted[j - 1].0, e.0@, old_sorted[pos as int].0);
                        } else {
                            lemma_seq_lt_transitive(old_sorted[j - 1].0, e.0@, old_sorted[j - 1].0);
                            crate::text::lemma_seq_lt_irreflexive(old_sorted[j - 1].0);
                        }
                    }
                } else {
                    assert(new_sorted[i] == old_sorted[i - 1]);
                    assert(new_sorted[j] == old_sorted[j - 1]);
                }
            }
            broadcast use vstd::seq_lib::group_to_multiset_ensures;
            broadcast use vstd::multiset::group_multiset_axioms;
            assert(rest@.map_values(|e: (String, String)| (e.0@, e.1@)) =~= old_rest.remove(0));
            assert(old_rest[0] == ev);
            assert(new_sorted.to_multiset() == old_sorted.to_multiset().insert(ev));
            assert(old_rest.remove(0).to_multiset() == old_rest.to_multiset().remove(ev));
            assert(old_rest.to_multiset().count(ev) > 0);
            assert(new_sorted.to_multiset().add(old_rest.remove(0).to_multiset()) =~= old_sorted.to_multiset().add(old_rest.to_multiset()));
        }
    }
    proof {
        broadcast use vstd::seq_lib::group_to_multiset_ensures;
        broadcast use vstd::multiset::group_multiset_axioms;
        let r = sorted@.map_values(|e: (String, String)| (e.0@, e.1@));
        assert(rest@.map_values(|e: (String, String)| (e.0@, e.1@)) =~= Seq::empty());
        assert(r.to_multiset().add(Multiset::empty()) =~= r.to_multiset());
    }
    sorted
}


// ---------------------------------------------------------------------
// The loaded categories form a forest.
// ---------------------------------------------------------------------

/// Walking up from `x` reaches a node without a parent within `fuel` steps.
pub open spec fn reaches_root(links: Seq<Option<usize>>, x: usize, fuel: nat) -> bool
    decreases fuel,
{
    parent_of(links, x) is None || (fuel > 0 && reaches_root(links, parent_of(links, x)->0, (fuel - 1) as nat))
}

/// Walking up from `x` reaches a root.
pub open spec fn reaches_a_root(links: Seq<Option<usize>>, x: usize) -> bool {
    exists|fuel: nat| reaches_root(links, x, fuel)
}

/// Every node reaches a root: the parent links form no cycle.
pub open spec fn is_forest(links: Seq<Option<usize>>) -> bool {
    forall|x: usize| 1 <= x <= links.len() ==> #[trigger] reaches_a_root(links, x)
}

/// A walk that avoids `c` is not changed by moving `c`.
proof fn lemma_walk_avoiding(links: Seq<Option<usize>>, c: usize, p: usize, y: usize, fuel: nat)
    requires
        1 <= c <= links.len(),
        reaches_root(links, y, fuel),
        !meets(links, y, c, fuel),
    ensures
        reaches_root(links.update(c - 1, Some(p)), y, fuel),
    decreases fuel,
{
    let moved = links.update(c - 1, Some(p));
    assert(parent_of(moved, y) == parent_of(links, y));
    if parent_of(links, y) is Some {
        lemma_walk_avoiding(links, c, p, parent_of(links, y)->0, (fuel - 1) as nat);
    }
}

/// After moving `c` under `p`, where `c` is not `p` or an ancestor of it,
/// every node that reached a root still does.
proof fn lemma_reach_after_move(links: Seq<Option<usize>>, c: usize, p: usize, x: usize, fuel: nat) -> (g: nat)
    requires
        is_forest(links),
        1 <= c <= links.len(),
        1 <= p <= links.len(),
        !is_ancestor_or_self(links, c, p),
        reaches_root(links, x, fuel),
    ensures
        reaches_root(links.update(c - 1, Some(p)), x, g),
    decreases fuel,
{
    let moved = links.update(c - 1, Some(p));
    if x == c {
        assert(parent_of(moved, c) == Some(p));
        assert(reaches_a_root(links, p));
        let fp = choose|f: nat| reaches_root(links, p, f);
        assert(!meets(links, p, c, fp));
        lemma_walk_avoiding(links, c, p, p, fp);
        fp + 1
    } else {
        assert(parent_of(moved, x) == parent_of(links, x));
        if parent_of(links, x) is None {
            0
        } else {
            let g = lemma_reach_after_move(links, c, p, parent_of(links, x)->0, (fuel - 1) as nat);
            g + 1
        }
    }
}

/// One linking step keeps the links a forest.
proof fn lemma_link_step_forest(links: Seq<Option<usize>>, ids: Map<u32, usize>, pair: (u32, u32))
    requires
        is_forest(links),
        forall|id: u32| #[trigger] ids.contains_key(id) ==> 1 <= ids[id] <= links.len(),
        link_step(links, ids, pair) is Some,
    ensures
        is_forest(link_step(links, ids, pair)->0),
        link_step(links, ids, pair)->0.len() == links.len(),
{
    if ids.contains_key(pair.0) && ids.contains_key(pair.1) {
        let c = ids[pair.0];
        let p = ids[pair.1];
        let moved = links.update(c - 1, Some(p));
        assert forall|x: usize| 1 <= x <= moved.len() implies #[trigger] reaches_a_root(moved, x) by {
            assert(reaches_a_root(links, x));
            let f = choose|f: nat| reaches_root(links, x, f);
            let g = lemma_reach_after_move(links, c, p, x, f);
        }
    }
}

/// Applying any prefix of the pairs keeps the links a forest.
proof fn lemma_linked_forest(start: Seq<Option<usize>>, ids: Map<u32, usize>, pairs: Seq<(u32, u32)>)
    requires
        is_forest(start),
        forall|id: u32| #[trigger] ids.contains_key(id) ==> 1 <= ids[id] <= start.len(),
        linked(start, ids, pairs) is Some,
    ensures
        is_forest(linked(start, ids, pairs)->0),
        linked(start, ids, pairs)->0.len() == start.len(),
    decreases pairs.len(),
{
    if pairs.len() > 0 {
        lemma_linked_forest(start, ids, pairs.drop_last());
        lemma_link_step_forest(linked(start, ids, pairs.drop_last())->0, ids, pairs.last());
    }
}

/// Loading categories builds a forest: from every node, walking up the
/// parent links reaches a category without a parent.
pub proof fn lemma_loaded_is_forest(cats: Seq<CategoryView>)
    requires
        cats.len() < usize::MAX,
        loaded_links(cats) is Some,
    ensures
        is_forest(loaded_links(cats)->0),
{
    let start = unlinked(cats.len());
    assert forall|x: usize| 1 <= x <= start.len() implies #[trigger] reaches_a_root(start, x) by {
        assert(reaches_root(start, x, 0));
    }
    lemma_first_handles_range(cats);
    lemma_linked_forest(start, first_handles(cats), child_parent_pairs(cats));
}

// ---------------------------------------------------------------------
// Checking a list before loading it.
// ---------------------------------------------------------------------

/// Walking up from a node that is not `a` meets `a` exactly when walking
/// up from its parent does.
proof fn lemma_ancestor_step(links: Seq<Option<usize>>, a: usize, x: usize)
    requires
        x != a,
        parent_of(links, x) is Some,
    ensures
        is_ancestor_or_self(links, a, x) == is_ancestor_or_self(links, a, parent_of(links, x)->0),
{
    let q = parent_of(links, x)->0;
    if is_ancestor_or_self(links, a, x) {
        let k = choose|k: nat| meets(links, x, a, k);
        assert(meets(links, q, a, (k - 1) as nat));
    }
    if is_ancestor_or_self(links, a, q) {
        let k = choose|k: nat| meets(links, q, a, k);
        assert(meets(links, x, a, k + 1));
    }
}

/// Walking up from a root other than `a` never meets `a`.
proof fn lemma_ancestor_at_root(links: Seq<Option<usize>>, a: usize, x: usize)
    requires
        x != a,
        parent_of(links, x) is None,
    ensures
        !is_ancestor_or_self(links, a, x),
{
    assert forall|k: nat| !meets(links, x, a, k) by {}
}

/// Whether `a` is `x` or one of its ancestors, by walking up from `x`.
fn is_ancestor_or_self_of(links: &Vec<Option<usize>>, a: usize, x: usize) -> (r: bool)
    requires
        is_forest(links@),
        links_in_range(links@),
        1 <= x <= links@.len(),
    ensures
        r == is_ancestor_or_self(links@, a, x),
{
    assert(reaches_a_root(links@, x));
    let ghost mut fuel: nat = choose|f: nat| reaches_root(links@, x, f);
    let mut cur = x;
    loop
        invariant
            links_in_range(links@),
            1 <= cur <= links@.len(),
            reaches_root(links@, cur, fuel),
            is_ancestor_or_self(links@, a, x) == is_ancestor_or_self(links@, a, cur),
        decreases fuel,
    {
        if cur == a {
            proof {
                assert(meets(links@, cur, a, 0));
            }
            return true;
        }
        match links[cur - 1] {
            None => {
                proof {
                    lemma_ancestor_at_root(links@, a, cur);
                }
                return false;
            },
            Some(q) => {
                proof {
                    lemma_ancestor_step(links@, a, cur);
                    fuel = (fuel - 1) as nat;
                }
                cur = q;
            },
        }
    }
}

impl CategoryManager {
    /// Whether loading the list succeeds: `false` exactly when moving some
    /// category under its parent would make it its own ancestor (the case
    /// in which `indextree` refuses the move and `load` cannot proceed).
    pub fn can_load(categories: &Vec<Category>) -> (r: bool)
        requires
            categories@.len() + 1 < usize::MAX,
        ensures
            r == (loaded_links(categories@.map_values(|c: Category| c@)) is Some),
    {
        let ghost cats = categories@.map_values(|c: Category| c@);
        let n = categories.len();
        let mut ids: HashMap<u32, usize> = HashMap::new();
        let mut pairs: Vec<(u32, u32)> = Vec::new();
        let mut links: Vec<Option<usize>> = Vec::new();
        let mut i: usize = 0;
        while i < n
            invariant
                n == cats.len(),
                cats == categories@.map_values(|c: Category| c@),
                n + 1 < usize::MAX,
                i <= n,
                ids@ == first_handles(cats.take(i as int)),
                pairs@ == child_parent_pairs(cats.take(i as int)),
                links@ == unlinked(i as nat),
            decreases n - i,
        {
            proof {
                assert(cats.take(i + 1).drop_last() =~= cats.take(i as int));
                assert(cats[i as int] == categories@[i as int]@);
            }
            let id = categories[i].id;
            if let Some(parent) = categories[i].parent {
                pairs.push((id, parent));
            }
            if !ids.contains_key(&id) {
                ids.insert(id, i + 1);
            }
            links.push(None);
            proof {
                assert(links@ =~= unlinked((i + 1) as nat));
            }
            i = i + 1;
        }
        proof {
            assert(cats.take(n as int) =~= cats);
            lemma_first_handles_range(cats);
            assert forall|x: usize| 1 <= x <= links@.len() implies #[trigger] reaches_a_root(links@, x) by {
                assert(reaches_root(links@, x, 0));
            }
        }
        let ghost start = links@;
        let ghost all = pairs@;
        let m = pairs.len();
        let mut k: usize = 0;
        while k < m
            invariant
                m == all.len(),
                all == pairs@,
                k <= m,
                cats == categories@.map_values(|c: Category| c@),
                start == unlinked(cats.len()),
                ids@ == first_handles(cats),
                all == child_parent_pairs(cats),
                forall|id: u32| #[trigger] ids@.contains_key(id) ==> 1 <= ids@[id] <= cats.len(),
                linked(start, ids@, all.take(k as int)) == Some(links@),
                links@.len() == cats.len(),
                is_forest(links@),
                links_in_range(links@),
            decreases m - k,
        {
            let (child, parent) = pairs[k];
            proof {
                assert(all.take(k + 1).drop_last() =~= all.take(k as int));
            }
            match (ids.get(&child), ids.get(&parent)) {
                (Some(c), Some(p)) => {
                    let c = *c;
                    let p = *p;
                    if is_ancestor_or_self_of(&links, c, p) {
                        proof {
                            assert(all.take(k + 1).last() == (child, parent));
                            assert(link_step(links@, ids@, (child, parent)) is None);
                            assert(linked(start, ids@, all.take(k + 1)) is None);
                            if linked(start, ids@, all) is Some {
                                lemma_linked_prefix(start, ids@, all, (k + 1) as nat);
                            }
                            assert(linked(start, ids@, all) is None);
                            assert(loaded_links(cats) == linked(start, ids@, all));
                        }
                        return false;
                    }
                    proof {
                        lemma_link_step_forest(links@, ids@, (child, parent));
                    }
                    links.set(c - 1, Some(p));
                },
                _ => {},
            }
            k = k + 1;
        }
        proof {
            assert(all.take(m as int) =~= all);
        }
        true
    }
}

} // verus!
