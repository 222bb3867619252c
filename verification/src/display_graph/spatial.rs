//! The spatial index: an R-tree of region entries.

use crate::display_graph::region::{IndexItem, RegionRef};
use crate::element_id::ElementId;
use crate::geometry::{in_scene, Point};
use rstar::primitives::{GeomWithData, Rectangle};
use rstar::RTree;
use vstd::multiset::Multiset;
use vstd::prelude::*;

verus! {

/// An R-tree (`rstar::RTree`) over region entries. Each entry is stored as an
/// `rstar::primitives::GeomWithData` of a `Rectangle` with integer corners and
/// the pair of the element's kind and id. Verus does not look inside: what the
/// tree holds is named by `stored_items`, whether it can take more by
/// `evenly_deep`, and the five functions below are the only ones that touch
/// it.
#[verifier::external_body]
pub struct SpatialIndex {
    tree: RTree<GeomWithData<Rectangle<(i64, i64)>, (bool, u128)>>,
}

/// The items that the R-tree holds, each as often as it was put in and not
/// taken out again.
pub uninterp spec fn stored_items(index: SpatialIndex) -> Multiset<IndexItem>;

/// Whether all items of the R-tree lie at the same depth below its root and
/// no tree node but the root is without children. `RTree::insert` counts on
/// this: it tells from a node's first child whether the node holds items or
/// further nodes, and panics where it then meets the other kind.
pub uninterp spec fn evenly_deep(index: SpatialIndex) -> bool;

/// An item whose lower corner is not above its upper corner. The R-tree
/// stores such an item as it is given; other corners it would put in order.
pub open spec fn item_ordered(item: IndexItem) -> bool {
    item.2 <= item.4 && item.3 <= item.5
}

/// An item whose corners are in order and lie in the scene. When it inserts,
/// the R-tree adds up the areas of the at most seven boxes of one tree node
/// and the squared distances between their centres; for boxes of the scene
/// those sums stay inside `i64`.
pub open spec fn item_fits(item: IndexItem) -> bool {
    &&& item_ordered(item)
    &&& in_scene(item.2 as int)
    &&& in_scene(item.3 as int)
    &&& in_scene(item.4 as int)
    &&& in_scene(item.5 as int)
}

/// Whether the point `(x, y)` lies in the item's box, its border included.
pub open spec fn item_covers(item: IndexItem, x: i64, y: i64) -> bool {
    &&& item.2 <= x <= item.4
    &&& item.3 <= y <= item.5
}

/// Calls `rstar::RTree::new`. Trusted: the new tree holds nothing, and a tree
/// of a root without children is evenly deep.
#[verifier::external_body]
fn tree_new() -> (index: SpatialIndex)
    ensures
        stored_items(index) == Multiset::<IndexItem>::empty(),
        evenly_deep(index),
{
    SpatialIndex { tree: RTree::new() }
}

/// Calls `rstar::RTree::bulk_load` on the items, each turned into a
/// rectangle with its data. Trusted: the tree holds exactly the given items,
/// each as often as it occurs among them. Nothing is claimed of the tree's
/// depth: the loader cuts a batch into four groups and loads each by itself,
/// and a group of seven items gets a level more than a group of six.
#[verifier::external_body]
fn tree_bulk_load(items: Vec<IndexItem>) -> (index: SpatialIndex)
    requires
        forall|i: int| 0 <= i < items@.len() ==> item_ordered(#[trigger] items@[i]),
    ensures
        stored_items(index) == items@.to_multiset(),
{
    let elements = items
        .into_iter()
        .map(|i| GeomWithData::new(Rectangle::from_corners((i.2, i.3), (i.4, i.5)), (i.0, i.1)))
        .collect();
    SpatialIndex { tree: RTree::bulk_load(elements) }
}

/// Calls `rstar::RTree::insert`. Trusted: the tree holds the item once more
/// than before and everything else as before, and is evenly deep again: the
/// item goes into a node that holds items, an overfull node gives two children
/// to nodes of its own depth or splits in two beside each other, and a split
/// root gets a new root above both halves. The item and all that the tree
/// holds must fit the scene, so that the tree's arithmetic stays in range, and
/// the tree must be evenly deep, so that insertion meets no node of mixed
/// children.
#[verifier::external_body]
fn tree_insert(index: &mut SpatialIndex, item: IndexItem)
    requires
        item_fits(item),
        forall|i: IndexItem| stored_items(*old(index)).contains(i) ==> item_fits(i),
        evenly_deep(*old(index)),
    ensures
        stored_items(*final(index)) == stored_items(*old(index)).insert(item),
        evenly_deep(*final(index)),
{
    index.tree.insert(
        GeomWithData::new(
            Rectangle::from_corners((item.2, item.3), (item.4, item.5)),
            (item.0, item.1),
        ),
    );
}

/// Calls `rstar::RTree::remove`, which looks for a stored element equal to the
/// given one and takes one such element out. Elements are equal when kind, id
/// and both corners are. Trusted: the result says whether the tree held the
/// item; if it did, the tree holds it once less, and else the tree is as it
/// was. An evenly deep tree stays so: the other items keep their depth, and a
/// node that loses its last child leaves the tree with it.
#[verifier::external_body]
fn tree_remove(index: &mut SpatialIndex, item: IndexItem) -> (found: bool)
    requires
        item_ordered(item),
    ensures
        found == stored_items(*old(index)).contains(item),
        found ==> stored_items(*final(index)) == stored_items(*old(index)).remove(item),
        !found ==> stored_items(*final(index)) == stored_items(*old(index)),
        evenly_deep(*old(index)) ==> evenly_deep(*final(index)),
{
    let probe = GeomWithData::new(
        Rectangle::from_corners((item.2, item.3), (item.4, item.5)),
        (item.0, item.1),
    );
    index.tree.remove(&probe).is_some()
}

/// Calls `rstar::RTree::locate_all_at_point` and writes each element that it
/// yields out as an item. Trusted: the result holds the stored items whose box
/// contains the point, border included, each as often as it is stored. The
/// order is the tree's own and nothing is said of it.
#[verifier::external_body]
fn tree_locate_all_at_point(index: &SpatialIndex, x: i64, y: i64) -> (hits: Vec<IndexItem>)
    ensures
        hits@.to_multiset() == stored_items(*index).filter(|i: IndexItem| item_covers(i, x, y)),
{
    index
        .tree
        .locate_all_at_point((x, y))
        .map(|g| {
            let lower = g.geom().lower();
            let upper = g.geom().upper();
            (g.data.0, g.data.1, lower.0, lower.1, upper.0, upper.1)
        })
        .collect()
}

/// Each item of `items` is the flat form of the entry at the same place in
/// `entries`, so an entry occurs in `entries` as often as its flat form occurs
/// in `items`.
proof fn lemma_flat_counts(entries: Seq<RegionRef>, items: Seq<IndexItem>)
    requires
        entries.len() == items.len(),
        forall|j: int| 0 <= j < entries.len() ==> items[j] == (#[trigger] entries[j]).flat(),
    ensures
        forall|r: RegionRef|
            items.to_multiset().count(r.flat()) == #[trigger] entries.to_multiset().count(r),
    decreases entries.len(),
{
    if entries.len() == 0 {
        entries.to_multiset_ensures();
        items.to_multiset_ensures();
    } else {
        let e0 = entries.drop_last();
        let i0 = items.drop_last();
        let e = entries.last();
        lemma_flat_counts(e0, i0);
        assert(entries =~= e0.push(e));
        assert(items =~= i0.push(e.flat()));
        e0.to_multiset_ensures();
        i0.to_multiset_ensures();
        assert forall|r: RegionRef|
            items.to_multiset().count(r.flat()) == #[trigger] entries.to_multiset().count(
                r,
            ) by {
            RegionRef::lemma_flat_unflat(r, r.flat());
            RegionRef::lemma_flat_unflat(e, e.flat());
            assert(r.flat() == e.flat() <==> r == e);
            assert(i0.to_multiset().count(r.flat()) == e0.to_multiset().count(r));
        }
    }
}

impl SpatialIndex {
    /// How often the entry `r` is stored.
    pub open spec fn count(&self, r: RegionRef) -> nat {
        stored_items(*self).count(r.flat())
    }

    /// Every stored entry has a well-formed box.
    pub open spec fn wf(&self) -> bool {
        forall|r: RegionRef| #[trigger] self.count(r) > 0 ==> r.region.wf()
    }

    /// Whether the index can take further entries: its tree is evenly deep.
    /// An index made by `new` can, and `insert` and `remove` keep it so; one
    /// made by `bulk_load` is not known to.
    pub open spec fn is_level(&self) -> bool {
        evenly_deep(*self)
    }

    /// In a well-formed index every stored item fits the scene.
    proof fn lemma_items_fit(&self)
        requires
            self.wf(),
        ensures
            forall|i: IndexItem| stored_items(*self).contains(i) ==> item_fits(i),
    {
        assert forall|i: IndexItem| stored_items(*self).contains(i) implies item_fits(i) by {
            let r = RegionRef::unflat(i);
            RegionRef::lemma_flat_unflat(r, i);
            assert(self.count(r) > 0);
            assert(r.region.wf());
        }
    }

    /// An index that holds nothing.
    pub fn new() -> (index: SpatialIndex)
        ensures
            index.wf(),
            index.is_level(),
            forall|r: RegionRef| index.count(r) == 0,
    {
        tree_new()
    }

    /// An index that holds `entries`, built in one pass. It answers queries
    /// and gives entries up; it is not known to take further entries.
    pub fn bulk_load(entries: Vec<RegionRef>) -> (index: SpatialIndex)
        requires
            forall|i: int| 0 <= i < entries@.len() ==> (#[trigger] entries@[i]).region.wf(),
        ensures
            index.wf(),
            forall|r: RegionRef| index.count(r) == entries@.to_multiset().count(r),
    {
        let mut items: Vec<IndexItem> = Vec::new();
        let mut i: usize = 0;
        while i < entries.len()
            invariant
                i <= entries@.len(),
                items@.len() == i,
                forall|j: int| 0 <= j < i ==> items@[j] == (#[trigger] entries@[j]).flat(),
            decreases entries@.len() - i,
        {
            items.push(entries[i].to_item());
            i += 1;
        }
        proof {
            lemma_flat_counts(entries@, items@);
            assert forall|j: int| 0 <= j < items@.len() implies item_ordered(
                #[trigger] items@[j],
            ) by {
                assert(entries@[j].region.wf());
                match entries@[j].id {
                    ElementId::Node(_) => {},
                    ElementId::Edge(_) => {},
                }
            }
        }
        let index = tree_bulk_load(items);
        proof {
            entries@.to_multiset_ensures();
            assert forall|r: RegionRef| #[trigger] index.count(r) > 0 implies r.region.wf() by {
                assert(entries@.to_multiset().count(r) > 0);
                assert(entries@.contains(r));
            }
        }
        index
    }

    /// Stores `r` once more.
    pub fn insert(&mut self, r: RegionRef)
        requires
            old(self).wf(),
            old(self).is_level(),
            r.region.wf(),
        ensures
            final(self).wf(),
            final(self).is_level(),
            forall|q: RegionRef|
                final(self).count(q) == old(self).count(q) + (if q == r {
                    1nat
                } else {
                    0nat
                }),
    {
        let item = r.to_item();
        proof {
            self.lemma_items_fit();
            match r.id {
                ElementId::Node(_) => {},
                ElementId::Edge(_) => {},
            }
        }
        tree_insert(self, item);
        proof {
            assert forall|q: RegionRef|
                self.count(q) == old(self).count(q) + (if q == r {
                    1nat
                } else {
                    0nat
                }) by {
                RegionRef::lemma_flat_unflat(q, q.flat());
                RegionRef::lemma_flat_unflat(r, r.flat());
                assert(q.flat() == r.flat() <==> q == r);
            }
            assert forall|q: RegionRef| #[trigger] self.count(q) > 0 implies q.region.wf() by {
                if q != r {
                    assert(old(self).count(q) > 0);
                }
            }
        }
    }

    /// Takes out one stored copy of `r`, found by its id and its box, and
    /// says whether there was one. Without one the index stays as it was: an
    /// entry has to be taken out with the box under which it went in.
    pub fn remove(&mut self, r: &RegionRef) -> (found: bool)
        requires
            r.region.lower.x <= r.region.upper.x,
            r.region.lower.y <= r.region.upper.y,
        ensures
            found == (old(self).count(*r) > 0),
            old(self).wf() ==> final(self).wf(),
            old(self).is_level() ==> final(self).is_level(),
            forall|q: RegionRef|
                final(self).count(q) == (if found && q == *r {
                    (old(self).count(q) - 1) as nat
                } else {
                    old(self).count(q)
                }),
    {
        let item = r.to_item();
        let found = tree_remove(self, item);
        proof {
            assert forall|q: RegionRef|
                self.count(q) == (if found && q == *r {
                    (old(self).count(q) - 1) as nat
                } else {
                    old(self).count(q)
                }) by {
                RegionRef::lemma_flat_unflat(q, q.flat());
                RegionRef::lemma_flat_unflat(*r, r.flat());
                assert(q.flat() == r.flat() <==> q == *r);
            }
            if old(self).wf() {
                assert forall|q: RegionRef| #[trigger] self.count(q) > 0 implies q.region.wf() by {
                    assert(old(self).count(q) > 0);
                }
            }
        }
        found
    }

    /// The stored entries whose box contains `p`, each as often as it is
    /// stored, in the order in which the tree yields them.
    pub fn locate_all_at_point(&self, p: Point) -> (hits: Vec<RegionRef>)
        ensures
            forall|q: RegionRef|
                hits@.to_multiset().count(q) == (if q.region.contains(p) {
                    self.count(q)
                } else {
                    0nat
                }),
    {
        let items = tree_locate_all_at_point(self, p.x, p.y);
        let mut hits: Vec<RegionRef> = Vec::new();
        let mut i: usize = 0;
        while i < items.len()
            invariant
                i <= items@.len(),
                hits@.len() == i,
                forall|j: int| 0 <= j < i ==> items@[j] == (#[trigger] hits@[j]).flat(),
            decreases items@.len() - i,
        {
            let r = RegionRef::from_item(items[i]);
            proof {
                RegionRef::lemma_flat_unflat(r, items@[i as int]);
            }
            hits.push(r);
            i += 1;
        }
        proof {
            lemma_flat_counts(hits@, items@);
            assert forall|q: RegionRef|
                hits@.to_multiset().count(q) == (if q.region.contains(p) {
                    self.count(q)
                } else {
                    0nat
                }) by {
                assert(item_covers(q.flat(), p.x, p.y) == q.region.contains(p));
            }
        }
        hits
    }
}

} // verus!
