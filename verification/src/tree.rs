//! The branching path tree: an index of node points by position, paired
//! with a map of node records by identifier.

use crate::math::{in_range, point_in_range, sq_dist, squared_distance, Point2D};
use crate::rrtnode::{first_nearest, is_first_nearest, lemma_first_nearest_is, Node};
use std::collections::BTreeMap;
use vstd::prelude::*;

verus! {

/// Why a point could not be registered.
#[derive(Debug, Clone, Copy, PartialEq, Eq, Structural)]
pub enum IndexError {
    /// Another entry already lies at the point.
    DuplicateCoordinate,
    /// A coordinate of the point is beyond the coordinate limit.
    CoordinateOutOfRange,
    /// A record with the identifier is already registered.
    DuplicateId,
}

/// The points of the entries, in the order of the entries.
pub open spec fn entry_points(entries: Seq<(Point2D, usize)>) -> Seq<Point2D> {
    Seq::new(entries.len(), |j: int| entries[j].0)
}

/// The items of the entries whose squared distance to `p` is at most
/// `radius`, in the order of the entries.
pub open spec fn within_of(entries: Seq<(Point2D, usize)>, p: Point2D, radius: int) -> Seq<usize>
    decreases entries.len(),
{
    if entries.len() == 0 {
        Seq::empty()
    } else {
        let rest = within_of(entries.drop_last(), p, radius);
        let e = entries.last();
        if sq_dist(p, e.0) <= radius {
            rest.push(e.1)
        } else {
            rest
        }
    }
}

/// Some entry within `radius` of `p` carries `item`.
pub open spec fn carried_within(
    entries: Seq<(Point2D, usize)>,
    p: Point2D,
    radius: int,
    item: usize,
) -> bool {
    exists|i: int|
        0 <= i < entries.len() && sq_dist(p, (#[trigger] entries[i]).0) <= radius && entries[i].1
            == item
}

/// Every item found by a range query belongs to an entry within the
/// radius, and the item of every such entry is found.
pub proof fn lemma_within_of_members(entries: Seq<(Point2D, usize)>, p: Point2D, radius: int)
    ensures
        within_of(entries, p, radius).len() <= entries.len(),
        forall|k: int|
            0 <= k < within_of(entries, p, radius).len() ==> carried_within(
                entries,
                p,
                radius,
                #[trigger] within_of(entries, p, radius)[k],
            ),
        forall|i: int|
            0 <= i < entries.len() && sq_dist(p, (#[trigger] entries[i]).0) <= radius
                ==> within_of(entries, p, radius).contains(entries[i].1),
    decreases entries.len(),
{
    if entries.len() > 0 {
        let shorter = entries.drop_last();
        lemma_within_of_members(shorter, p, radius);
        let rest = within_of(shorter, p, radius);
        let all = within_of(entries, p, radius);
        let e = entries.last();
        assert forall|k: int| 0 <= k < all.len() implies carried_within(
            entries,
            p,
            radius,
            #[trigger] all[k],
        ) by {
            if k < rest.len() {
                assert(all[k] == rest[k]);
                assert(carried_within(shorter, p, radius, rest[k]));
                let i = choose|i: int|
                    0 <= i < shorter.len() && sq_dist(p, (#[trigger] shorter[i]).0) <= radius
                        && shorter[i].1 == rest[k];
                assert(entries[i] == shorter[i]);
            } else {
                assert(entries[entries.len() - 1] == e);
            }
        }
        assert forall|i: int|
            0 <= i < entries.len() && sq_dist(p, (#[trigger] entries[i]).0)
                <= radius implies all.contains(entries[i].1) by {
            if i < shorter.len() {
                assert(entries[i] == shorter[i]);
                let k = choose|k: int| 0 <= k < rest.len() && rest[k] == shorter[i].1;
                assert(all[k] == rest[k]);
            } else {
                assert(all[all.len() - 1] == e.1);
            }
        }
    } else {
        assert(within_of(entries, p, radius).len() == 0);
    }
}

/// An index of identified points by position. No two entries lie at the
/// same point.
pub struct SpatialIndex {
    pub entries: Vec<(Point2D, usize)>,
}

impl SpatialIndex {
    /// Every entry is in range, and no two entries lie at the same point.
    pub open spec fn well_formed(&self) -> bool {
        &&& forall|i: int|
            0 <= i < self.entries@.len() ==> point_in_range((#[trigger] self.entries@[i]).0)
        &&& forall|i: int, j: int|
            0 <= i < self.entries@.len() && 0 <= j < self.entries@.len() && i != j ==> (
            #[trigger] self.entries@[i]).0 != (#[trigger] self.entries@[j]).0
    }

    /// Some entry lies at `point`.
    pub open spec fn has_point(&self, point: Point2D) -> bool {
        exists|i: int| 0 <= i < self.entries@.len() && (#[trigger] self.entries@[i]).0 == point
    }

    /// The entry `(point, item)` is in the index.
    pub open spec fn holds(&self, point: Point2D, item: usize) -> bool {
        self.entries@.contains((point, item))
    }

    /// An empty index.
    pub fn new() -> (r: Self)
        ensures
            r.entries@.len() == 0,
            r.well_formed(),
    {
        SpatialIndex { entries: Vec::new() }
    }

    /// The number of entries.
    pub fn size(&self) -> (r: usize)
        ensures
            r == self.entries@.len(),
    {
        self.entries.len()
    }

    /// Whether some entry lies at `point`.
    pub fn contains_point(&self, point: &Point2D) -> (r: bool)
        ensures
            r == self.has_point(*point),
    {
        let mut i: usize = 0;
        while i < self.entries.len()
            invariant
                i <= self.entries.len(),
                forall|j: int| 0 <= j < i ==> (#[trigger] self.entries@[j]).0 != *point,
            decreases self.entries.len() - i,
        {
            if self.entries[i].0.0 == point.0 && self.entries[i].0.1 == point.1 {
                return true;
            }
            i += 1;
        }
        false
    }

    /// The item of the entry at `point`.
    pub fn item_at(&self, point: &Point2D) -> (r: Option<usize>)
        requires
            self.well_formed(),
        ensures
            match r {
                Some(item) => self.holds(*point, item),
                None => !self.has_point(*point),
            },
            r matches Some(item) ==> forall|other: usize|
                self.holds(*point, other) ==> other == item,
    {
        let mut i: usize = 0;
        while i < self.entries.len()
            invariant
                i <= self.entries.len(),
                self.well_formed(),
                forall|j: int| 0 <= j < i ==> (#[trigger] self.entries@[j]).0 != *point,
            decreases self.entries.len() - i,
        {
            if self.entries[i].0.0 == point.0 && self.entries[i].0.1 == point.1 {
                let item = self.entries[i].1;
                proof {
                    assert(self.entries@[i as int] == (*point, item));
                    assert forall|other: usize| self.holds(*point, other) implies other
                        == item by {
                        let k = choose|k: int|
                            0 <= k < self.entries@.len() && self.entries@[k] == (*point, other);
                        if k != i {
                            assert(self.entries@[k].0 == self.entries@[i as int].0);
                        }
                    }
                }
                return Some(item);
            }
            i += 1;
        }
        None
    }

    /// Registers `item` at `point`. A point out of range, and a point at
    /// which an entry already lies, is refused, and the index stays as it
    /// was.
    pub fn add(&mut self, point: &Point2D, item: usize) -> (r: Result<(), IndexError>)
        requires
            old(self).well_formed(),
        ensures
            final(self).well_formed(),
            match r {
                Ok(()) => {
                    &&& point_in_range(*point)
                    &&& !old(self).has_point(*point)
                    &&& final(self).entries@ == old(self).entries@.push((*point, item))
                },
                Err(e) => {
                    &&& final(self).entries@ == old(self).entries@
                    &&& e == (if !point_in_range(*point) {
                        IndexError::CoordinateOutOfRange
                    } else {
                        IndexError::DuplicateCoordinate
                    })
                    &&& !point_in_range(*point) || old(self).has_point(*point)
                },
            },
    {
        if !in_range(point) {
            return Err(IndexError::CoordinateOutOfRange);
        }
        if self.contains_point(point) {
            return Err(IndexError::DuplicateCoordinate);
        }
        self.entries.push((*point, item));
        Ok(())
    }

    /// Takes the entry `(point, item)` out of the index, and tells how many
    /// entries left: one, or none where there was no such entry.
    pub fn remove(&mut self, point: &Point2D, item: usize) -> (r: usize)
        requires
            old(self).well_formed(),
        ensures
            final(self).well_formed(),
            r <= 1,
            r == 1 <==> old(self).holds(*point, item),
            r == 0 ==> final(self).entries@ == old(self).entries@,
            r == 1 ==> exists|i: int|
                0 <= i < old(self).entries@.len() && #[trigger] old(self).entries@[i] == (
                    *point,
                    item,
                ) && final(self).entries@ == old(self).entries@.remove(i),
    {
        let mut i: usize = 0;
        while i < self.entries.len()
            invariant
                i <= self.entries.len(),
                self.entries@ == old(self).entries@,
                self.well_formed(),
                forall|j: int| 0 <= j < i ==> #[trigger] self.entries@[j] != (*point, item),
            decreases self.entries.len() - i,
        {
            let e = &self.entries[i];
            if e.0.0 == point.0 && e.0.1 == point.1 && e.1 == item {
                self.entries.remove(i);
                proof {
                    let before = old(self).entries@;
                    let after = self.entries@;
                    assert(before[i as int] == (*point, item));
                    assert forall|j: int| 0 <= j < after.len() implies #[trigger] after[j]
                        == before[if j < i {
                        j
                    } else {
                        j + 1
                    }] by {}
                    assert forall|j: int, k: int|
                        0 <= j < after.len() && 0 <= k < after.len() && j != k implies (
                    #[trigger] after[j]).0 != (#[trigger] after[k]).0 by {
                        let j2 = if j < i {
                            j
                        } else {
                            j + 1
                        };
                        let k2 = if k < i {
                            k
                        } else {
                            k + 1
                        };
                        assert(before[j2].0 != before[k2].0);
                    }
                }
                return 1;
            }
            i += 1;
        }
        0
    }

    /// The entry nearest to `point` with its squared distance, the oldest
    /// of them where several are equally near. There is none in an empty
    /// index.
    pub fn nearest_one(&self, point: &Point2D) -> (r: Option<(u64, usize)>)
        requires
            self.well_formed(),
            point_in_range(*point),
        ensures
            r is None <==> self.entries@.len() == 0,
            r matches Some(found) ==> {
                let i = first_nearest(entry_points(self.entries@), *point);
                &&& is_first_nearest(entry_points(self.entries@), *point, i)
                &&& found.1 == self.entries@[i].1
                &&& found.0 == sq_dist(*point, self.entries@[i].0)
            },
    {
        if self.entries.len() == 0 {
            return None;
        }
        let ghost pts = entry_points(self.entries@);
        let mut min_dist: u64 = squared_distance(point, &self.entries[0].0);
        let mut min_ind: usize = 0;
        let mut idx: usize = 1;
        while idx < self.entries.len()
            invariant
                1 <= idx <= self.entries.len(),
                min_ind < idx,
                self.well_formed(),
                point_in_range(*point),
                pts == entry_points(self.entries@),
                min_dist == sq_dist(*point, pts[min_ind as int]),
                forall|j: int| 0 <= j < idx ==> min_dist <= sq_dist(*point, #[trigger] pts[j]),
                forall|j: int| 0 <= j < min_ind ==> min_dist < sq_dist(*point, #[trigger] pts[j]),
            decreases self.entries.len() - idx,
        {
            assert(pts[idx as int] == self.entries@[idx as int].0);
            let d = squared_distance(point, &self.entries[idx].0);
            if d < min_dist {
                min_dist = d;
                min_ind = idx;
            }
            idx += 1;
        }
        proof {
            lemma_first_nearest_is(pts, *point, min_ind as int);
        }
        Some((min_dist, self.entries[min_ind].1))
    }

    /// The items of the entries whose squared distance to `point` is at
    /// most `radius`, oldest first. The radius is measured in the unit of
    /// the squared distance.
    pub fn within(&self, point: &Point2D, radius: i64) -> (r: Vec<usize>)
        requires
            self.well_formed(),
            point_in_range(*point),
        ensures
            r@ == within_of(self.entries@, *point, radius as int),
    {
        assert(radius * 1 == radius);
        self.within_scaled(point, radius, 1)
    }

    /// The items of the entries whose squared distance to `point` is at
    /// most `radius` times `unit`, oldest first: the range query for a
    /// radius that is a length, where `unit` of the coordinates' units make
    /// one unit of that length.
    pub fn within_scaled(&self, point: &Point2D, radius: i64, unit: i64) -> (r: Vec<usize>)
        requires
            self.well_formed(),
            point_in_range(*point),
        ensures
            r@ == within_of(self.entries@, *point, radius * unit),
    {
        assert(-85070591730234615865843651857942052864 <= radius * unit
            <= 85070591730234615865843651857942052864) by (nonlinear_arith)
            requires
                -9223372036854775808 <= radius <= 9223372036854775807,
                -9223372036854775808 <= unit <= 9223372036854775807,
        ;
        let limit: i128 = (radius as i128) * (unit as i128);
        let mut out: Vec<usize> = Vec::new();
        let mut idx: usize = 0;
        while idx < self.entries.len()
            invariant
                idx <= self.entries.len(),
                self.well_formed(),
                point_in_range(*point),
                limit == radius * unit,
                out@ == within_of(self.entries@.subrange(0, idx as int), *point, limit as int),
            decreases self.entries.len() - idx,
        {
            let e = &self.entries[idx];
            let d = squared_distance(point, &e.0);
            proof {
                let longer = self.entries@.subrange(0, idx + 1);
                assert(longer.drop_last() == self.entries@.subrange(0, idx as int));
                assert(longer.last() == *e);
            }
            if d as i128 <= limit {
                out.push(e.1);
            }
            idx += 1;
        }
        assert(self.entries@.subrange(0, idx as int) == self.entries@);
        out
    }
}

/// A point of the index is its own nearest entry: every other entry lies
/// elsewhere, and so farther away.
pub proof fn lemma_nearest_of_held_point(index: SpatialIndex, point: Point2D, item: usize)
    requires
        index.well_formed(),
        index.holds(point, item),
    ensures
        index.entries@[first_nearest(entry_points(index.entries@), point)] == (point, item),
{
    let pts = entry_points(index.entries@);
    let i = choose|i: int| 0 <= i < index.entries@.len() && index.entries@[i] == (point, item);
    assert forall|j: int| 0 <= j < pts.len() implies sq_dist(point, pts[i]) <= sq_dist(
        point,
        #[trigger] pts[j],
    ) by {
        crate::math::lemma_dist_zero_iff_same(point, pts[i]);
        crate::math::lemma_dist_zero_iff_same(point, pts[j]);
    }
    assert forall|j: int| 0 <= j < i implies sq_dist(point, pts[i]) < sq_dist(
        point,
        #[trigger] pts[j],
    ) by {
        crate::math::lemma_dist_zero_iff_same(point, pts[i]);
        crate::math::lemma_dist_zero_iff_same(point, pts[j]);
        assert(index.entries@[j].0 != index.entries@[i].0);
    }
    lemma_first_nearest_is(pts, point, i);
}

/// The place of the entry that carries `item`.
pub open spec fn place_of(entries: Seq<(Point2D, usize)>, item: usize) -> int {
    choose|i: int| 0 <= i < entries.len() && (#[trigger] entries[i]).1 == item
}

/// Some entry carries `item`.
pub open spec fn carries(entries: Seq<(Point2D, usize)>, item: usize) -> bool {
    exists|i: int| 0 <= i < entries.len() && (#[trigger] entries[i]).1 == item
}

/// The entries without the one that carries `item`.
pub open spec fn without_item(entries: Seq<(Point2D, usize)>, item: usize) -> Seq<
    (Point2D, usize),
> {
    if carries(entries, item) {
        entries.remove(place_of(entries, item))
    } else {
        entries
    }
}

/// Some entry at `point` carries another item than `item`.
pub open spec fn taken_by_other(
    entries: Seq<(Point2D, usize)>,
    point: Point2D,
    item: usize,
) -> bool {
    exists|i: int|
        0 <= i < entries.len() && (#[trigger] entries[i]).0 == point && entries[i].1 != item
}

/// What is left after the entry at the place `i` is taken out: the other
/// entries, in their order.
pub proof fn lemma_removed_entries(entries: Seq<(Point2D, usize)>, i: int)
    requires
        0 <= i < entries.len(),
    ensures
        forall|k: int|
            0 <= k < entries.remove(i).len() ==> entries.contains(#[trigger] entries.remove(i)[k]),
        forall|m: int|
            0 <= m < entries.len() && m != i ==> entries.remove(i).contains(#[trigger] entries[m]),
{
    let rest = entries.remove(i);
    assert forall|k: int| 0 <= k < rest.len() implies entries.contains(#[trigger] rest[k]) by {
        if k < i {
            assert(entries[k] == rest[k]);
        } else {
            assert(entries[k + 1] == rest[k]);
        }
    }
    assert forall|m: int| 0 <= m < entries.len() && m != i implies rest.contains(
        #[trigger] entries[m],
    ) by {
        if m < i {
            assert(rest[m] == entries[m]);
        } else {
            assert(rest[m - 1] == entries[m]);
        }
    }
}

/// The entries without the one that carries `item` are entries, and hold
/// every entry that carries another item.
pub proof fn lemma_without_item_members(entries: Seq<(Point2D, usize)>, item: usize)
    ensures
        forall|k: int|
            0 <= k < without_item(entries, item).len() ==> entries.contains(
                #[trigger] without_item(entries, item)[k],
            ),
        forall|m: int|
            0 <= m < entries.len() && (#[trigger] entries[m]).1 != item ==> without_item(
                entries,
                item,
            ).contains(entries[m]),
{
    if carries(entries, item) {
        lemma_removed_entries(entries, place_of(entries, item));
    } else {
        assert forall|k: int| 0 <= k < entries.len() implies entries.contains(
            #[trigger] entries[k],
        ) by {}
    }
}

/// The points on the way from a node at `point` up through its parents,
/// the node's own point first, for as long as a parent is registered and
/// `fuel` lasts.
pub open spec fn climb<T: Node>(
    records: Map<usize, T>,
    point: Point2D,
    parent_id: Option<usize>,
    fuel: nat,
) -> Seq<Point2D>
    decreases fuel,
{
    match parent_id {
        Some(p) => if fuel > 0 && records.contains_key(p) {
            seq![point] + climb(
                records,
                records[p].spec_point(),
                records[p].spec_parent_id(),
                (fuel - 1) as nat,
            )
        } else {
            seq![point]
        },
        None => seq![point],
    }
}

/// A branching path tree: node records by identifier, and their points in
/// an index by position. The two always hold the same nodes.
pub struct PathTree<T: Node> {
    pub index: SpatialIndex,
    pub b_map: BTreeMap<usize, T>,
}

impl<T: Node> PathTree<T> {
    /// The index and the map hold the same nodes: each entry of the index
    /// is the point and identifier of a record, each record has one entry,
    /// and no identifier has two.
    pub open spec fn well_formed(&self) -> bool {
        let entries = self.index.entries@;
        &&& self.index.well_formed()
        &&& entries.len() == self.b_map@.dom().len()
        &&& forall|i: int|
            0 <= i < entries.len() ==> self.b_map@.contains_key((#[trigger] entries[i]).1)
                && self.b_map@[entries[i].1].spec_point() == entries[i].0
        &&& forall|i: int, j: int|
            0 <= i < entries.len() && 0 <= j < entries.len() && i != j ==> (
            #[trigger] entries[i]).1 != (#[trigger] entries[j]).1
        &&& forall|id: usize| #[trigger]
            self.b_map@.contains_key(id) ==> self.b_map@[id].spec_id() == id && self.index.holds(
                self.b_map@[id].spec_point(),
                id,
            )
    }

    /// An empty tree.
    pub fn new() -> (r: Self)
        ensures
            r.well_formed(),
            r.b_map@ == Map::<usize, T>::empty(),
            r.index.entries@.len() == 0,
    {
        let r = Self { index: SpatialIndex::new(), b_map: BTreeMap::new() };
        assert(r.b_map@.dom() == Set::<usize>::empty());
        r
    }

    /// Registers `node`: its point in the index and its record in the map.
    /// Where the index refuses the point, or a record with the node's
    /// identifier is already there, neither is changed.
    pub fn add_node(&mut self, node: T) -> (r: Result<(), IndexError>)
        requires
            old(self).well_formed(),
        ensures
            final(self).well_formed(),
            match r {
                Ok(()) => {
                    &&& !old(self).b_map@.contains_key(node.spec_id())
                    &&& point_in_range(node.spec_point())
                    &&& !old(self).index.has_point(node.spec_point())
                    &&& final(self).b_map@ == old(self).b_map@.insert(node.spec_id(), node)
                    &&& final(self).index.entries@ == old(self).index.entries@.push(
                        (node.spec_point(), node.spec_id()),
                    )
                },
                Err(e) => {
                    &&& final(self).b_map@ == old(self).b_map@
                    &&& final(self).index.entries@ == old(self).index.entries@
                    &&& e == (if old(self).b_map@.contains_key(node.spec_id()) {
                        IndexError::DuplicateId
                    } else if !point_in_range(node.spec_point()) {
                        IndexError::CoordinateOutOfRange
                    } else {
                        IndexError::DuplicateCoordinate
                    })
                    &&& old(self).b_map@.contains_key(node.spec_id()) || !point_in_range(
                        node.spec_point(),
                    ) || old(self).index.has_point(node.spec_point())
                },
            },
    {
        let point = node.point();
        let id = node.id();
        if self.b_map.contains_key(&id) {
            return Err(IndexError::DuplicateId);
        }
        let res = self.index.add(&point, id);
        match res {
            Ok(_) => {
                self.b_map.insert(id, node);
                proof {
                    let before = old(self).index.entries@;
                    let after = self.index.entries@;
                    assert(after.last() == (point, id));
                    assert forall|i: int| 0 <= i < after.len() implies self.b_map@.contains_key(
                        (#[trigger] after[i]).1,
                    ) && self.b_map@[after[i].1].spec_point() == after[i].0 by {
                        if i < before.len() {
                            assert(after[i] == before[i]);
                        }
                    }
                    assert forall|i: int, j: int|
                        0 <= i < after.len() && 0 <= j < after.len() && i != j implies (
                    #[trigger] after[i]).1 != (#[trigger] after[j]).1 by {
                        if i < before.len() {
                            assert(after[i] == before[i]);
                        }
                        if j < before.len() {
                            assert(after[j] == before[j]);
                        }
                    }
                    assert forall|k: usize| #[trigger]
                        self.b_map@.contains_key(k) implies self.b_map@[k].spec_id() == k
                        && self.index.holds(self.b_map@[k].spec_point(), k) by {
                        if k == id {
                            assert(after[after.len() - 1] == (point, id));
                        } else {
                            assert(old(self).b_map@.contains_key(k));
                            let pk = old(self).b_map@[k].spec_point();
                            let i = choose|i: int| 0 <= i < before.len() && before[i] == (pk, k);
                            assert(after[i] == (pk, k));
                        }
                    }
                }
                Ok(())
            },
            Err(e) => Err(e),
        }
    }

    /// The record with the identifier `index`.
    pub fn get(&self, index: usize) -> (r: Option<&T>)
        ensures
            match r {
                Some(v) => self.b_map@.contains_key(index) && *v == self.b_map@[index],
                None => !self.b_map@.contains_key(index),
            },
    {
        self.b_map.get(&index)
    }

    /// The identifier of the node nearest to `node`, by squared distance,
    /// the longest registered of them where several are equally near. There
    /// is none in an empty tree.
    pub fn get_nearest_node_index(&self, node: &T) -> (r: Option<usize>)
        requires
            self.well_formed(),
            point_in_range(node.spec_point()),
        ensures
            r is None <==> self.index.entries@.len() == 0,
            r matches Some(id) ==> {
                let i = first_nearest(entry_points(self.index.entries@), node.spec_point());
                &&& is_first_nearest(entry_points(self.index.entries@), node.spec_point(), i)
                &&& id == self.index.entries@[i].1
                &&& self.b_map@.contains_key(id)
            },
    {
        let point = node.point();
        let res = self.index.nearest_one(&point);
        match res {
            Some(s) => Some(s.1),
            None => None,
        }
    }

    /// The identifiers of the nodes whose squared distance to `node` is at
    /// most `radius`, the longest registered first. The radius is measured
    /// in the unit of the squared distance.
    pub fn get_within(&self, node: &T, radius: i64) -> (r: Vec<usize>)
        requires
            self.well_formed(),
            point_in_range(node.spec_point()),
        ensures
            r@ == within_of(self.index.entries@, node.spec_point(), radius as int),
            forall|k: int| 0 <= k < r@.len() ==> self.b_map@.contains_key(#[trigger] r@[k]),
    {
        assert(radius * 1 == radius);
        self.get_within_scaled(node, radius, 1)
    }

    /// The identifiers of the nodes whose squared distance to `node` is at
    /// most `radius` times `unit`, the longest registered first: the range
    /// query for a radius that is a length, where `unit` of the
    /// coordinates' units make one unit of that length.
    pub fn get_within_scaled(&self, node: &T, radius: i64, unit: i64) -> (r: Vec<usize>)
        requires
            self.well_formed(),
            point_in_range(node.spec_point()),
        ensures
            r@ == within_of(self.index.entries@, node.spec_point(), radius * unit),
            forall|k: int| 0 <= k < r@.len() ==> self.b_map@.contains_key(#[trigger] r@[k]),
    {
        let point = node.point();
        let r = self.index.within_scaled(&point, radius, unit);
        proof {
            lemma_within_of_members(self.index.entries@, point, radius * unit);
            assert forall|k: int| 0 <= k < r@.len() implies self.b_map@.contains_key(
                #[trigger] r@[k],
            ) by {
                assert(carried_within(self.index.entries@, point, radius * unit, r@[k]));
            }
        }
        r
    }

    /// Puts `node` in the place of the record with its identifier. Where
    /// the node lies at the point of that record, the index stays as it is;
    /// where it lies elsewhere, the stale entry leaves the index and the
    /// point of `node` enters it. A node whose identifier is new is
    /// registered. A point out of range, and a point at which another node
    /// lies, is refused, and the tree stays as it was.
    pub fn set(&mut self, node: T) -> (r: Result<(), IndexError>)
        requires
            old(self).well_formed(),
        ensures
            final(self).well_formed(),
            match r {
                Ok(()) => {
                    &&& point_in_range(node.spec_point())
                    &&& !taken_by_other(
                        old(self).index.entries@,
                        node.spec_point(),
                        node.spec_id(),
                    )
                    &&& final(self).b_map@ == old(self).b_map@.insert(node.spec_id(), node)
                    &&& final(self).index.entries@ == if old(self).index.holds(
                        node.spec_point(),
                        node.spec_id(),
                    ) {
                        old(self).index.entries@
                    } else {
                        without_item(old(self).index.entries@, node.spec_id()).push(
                            (node.spec_point(), node.spec_id()),
                        )
                    }
                },
                Err(e) => {
                    &&& final(self).b_map@ == old(self).b_map@
                    &&& final(self).index.entries@ == old(self).index.entries@
                    &&& e == (if !point_in_range(node.spec_point()) {
                        IndexError::CoordinateOutOfRange
                    } else {
                        IndexError::DuplicateCoordinate
                    })
                    &&& !point_in_range(node.spec_point()) || taken_by_other(
                        old(self).index.entries@,
                        node.spec_point(),
                        node.spec_id(),
                    )
                },
            },
    {
        let id = node.id();
        let point = node.point();
        let ghost entries = self.index.entries@;
        if !in_range(&point) {
            return Err(IndexError::CoordinateOutOfRange);
        }
        let holder = self.index.item_at(&point);
        match holder {
            Some(h) => {
                if h != id {
                    proof {
                        let i = choose|i: int| 0 <= i < entries.len() && entries[i] == (point, h);
                        assert(entries[i].0 == point && entries[i].1 != id);
                    }
                    return Err(IndexError::DuplicateCoordinate);
                }
            },
            None => {},
        }
        proof {
            assert(!taken_by_other(entries, point, id)) by {
                if taken_by_other(entries, point, id) {
                    let i = choose|i: int|
                        0 <= i < entries.len() && (#[trigger] entries[i]).0 == point
                            && entries[i].1 != id;
                    if self.index.has_point(point) {
                        let j = choose|j: int|
                            0 <= j < entries.len() && entries[j] == (point, id);
                        assert(entries[j].0 == entries[i].0);
                    }
                }
            }
        }
        if holder.is_some() {
            proof {
                assert(self.index.holds(point, id));
                let j = choose|j: int| 0 <= j < entries.len() && entries[j] == (point, id);
                assert(self.b_map@.contains_key(entries[j].1));
            }
            self.b_map.insert(id, node);
            proof {
                assert(old(self).b_map@.dom().insert(id) == old(self).b_map@.dom());
                assert forall|i: int| 0 <= i < entries.len() implies self.b_map@.contains_key(
                    (#[trigger] entries[i]).1,
                ) && self.b_map@[entries[i].1].spec_point() == entries[i].0 by {
                    assert(old(self).b_map@.contains_key(entries[i].1));
                    if entries[i].1 == id {
                        let j = choose|j: int| 0 <= j < entries.len() && entries[j] == (point, id);
                        if i != j {
                            assert(entries[i].1 != entries[j].1);
                        }
                    }
                }
                assert forall|k: usize| #[trigger]
                    self.b_map@.contains_key(k) implies self.b_map@[k].spec_id() == k
                    && self.index.holds(self.b_map@[k].spec_point(), k) by {
                    if k != id {
                        assert(old(self).b_map@.contains_key(k));
                    }
                }
            }
            return Ok(());
        }
        proof {
            assert(!self.index.holds(point, id)) by {
                if self.index.holds(point, id) {
                    let j = choose|j: int| 0 <= j < entries.len() && entries[j] == (point, id);
                    assert(entries[j].0 == point);
                }
            }
        }
        if self.b_map.contains_key(&id) {
            let old_point = self.b_map.get(&id).unwrap().point();
            let removed = self.index.remove(&old_point, id);
            proof {
                assert(old(self).index.holds(old_point, id));
                let i = choose|i: int|
                    0 <= i < entries.len() && #[trigger] entries[i] == (old_point, id)
                        && self.index.entries@ == entries.remove(i);
                assert(carries(entries, id));
                let c = place_of(entries, id);
                assert(c == i) by {
                    if c != i {
                        assert(entries[c].1 != entries[i].1);
                    }
                }
                assert(self.index.entries@ == without_item(entries, id));
                lemma_removed_entries(entries, i);
            }
        } else {
            proof {
                assert(!carries(entries, id)) by {
                    if carries(entries, id) {
                        let i = place_of(entries, id);
                        assert(self.b_map@.contains_key(entries[i].1));
                    }
                }
            }
        }
        let ghost rest = self.index.entries@;
        proof {
            assert(rest == without_item(entries, id));
            assert(!self.index.has_point(point)) by {
                if self.index.has_point(point) {
                    let k = choose|k: int| 0 <= k < rest.len() && (#[trigger] rest[k]).0 == point;
                    lemma_without_item_members(entries, id);
                    assert(entries.contains(rest[k]));
                    let m = choose|m: int| 0 <= m < entries.len() && entries[m] == rest[k];
                    assert(entries[m].0 == point && entries[m].1 != id);
                }
            }
        }
        self.b_map.remove(&id);
        self.b_map.insert(id, node);
        let added = self.index.add(&point, id);
        proof {
            assert(added is Ok);
            assert(self.b_map@ == old(self).b_map@.insert(id, node));
            let after = self.index.entries@;
            lemma_without_item_members(entries, id);
            assert(after.last() == (point, id));
            assert forall|i: int| 0 <= i < after.len() implies self.b_map@.contains_key(
                (#[trigger] after[i]).1,
            ) && self.b_map@[after[i].1].spec_point() == after[i].0 by {
                if i < rest.len() {
                    assert(after[i] == rest[i]);
                    assert(entries.contains(rest[i]));
                    let m = choose|m: int| 0 <= m < entries.len() && entries[m] == rest[i];
                    assert(old(self).b_map@.contains_key(entries[m].1));
                }
            }
            assert forall|i: int, j: int|
                0 <= i < after.len() && 0 <= j < after.len() && i != j implies (
            #[trigger] after[i]).1 != (#[trigger] after[j]).1 by {
                if i < rest.len() {
                    assert(after[i] == rest[i]);
                }
                if j < rest.len() {
                    assert(after[j] == rest[j]);
                }
            }
            assert forall|k: usize| #[trigger]
                self.b_map@.contains_key(k) implies self.b_map@[k].spec_id() == k
                && self.index.holds(self.b_map@[k].spec_point(), k) by {
                if k == id {
                    assert(after[after.len() - 1] == (point, id));
                } else {
                    assert(old(self).b_map@.contains_key(k));
                    let pk = old(self).b_map@[k].spec_point();
                    assert(old(self).index.holds(pk, k));
                    let m = choose|m: int| 0 <= m < entries.len() && entries[m] == (pk, k);
                    assert(entries[m].1 != id);
                    assert(rest.contains(entries[m]));
                    let i = choose|i: int| 0 <= i < rest.len() && rest[i] == entries[m];
                    assert(after[i] == (pk, k));
                }
            }
            if old(self).b_map@.contains_key(id) {
                assert(old(self).b_map@.dom().insert(id) == old(self).b_map@.dom());
            }
        }
        Ok(())
    }

    /// The record with the greatest identifier.
    pub fn last(&self) -> (r: Option<&T>)
        requires
            self.well_formed(),
        ensures
            r is None <==> self.b_map@.dom().len() == 0,
            r matches Some(v) ==> {
                &&& self.b_map@.contains_key(v.spec_id())
                &&& *v == self.b_map@[v.spec_id()]
                &&& forall|id: usize| #[trigger] self.b_map@.contains_key(id) ==> id <= v.spec_id()
            },
    {
        if self.index.entries.len() == 0 {
            return None;
        }
        let mut best: usize = self.index.entries[0].1;
        let mut i: usize = 1;
        while i < self.index.entries.len()
            invariant
                1 <= i <= self.index.entries.len(),
                self.well_formed(),
                carries(self.index.entries@, best),
                forall|j: int| 0 <= j < i ==> (#[trigger] self.index.entries@[j]).1 <= best,
            decreases self.index.entries.len() - i,
        {
            if self.index.entries[i].1 > best {
                best = self.index.entries[i].1;
            }
            i += 1;
        }
        proof {
            let c = place_of(self.index.entries@, best);
            assert(self.b_map@.contains_key(self.index.entries@[c].1));
            assert forall|id: usize| #[trigger] self.b_map@.contains_key(id) implies id <= best by {
                let pk = self.b_map@[id].spec_point();
                assert(self.index.holds(pk, id));
                let m = choose|m: int|
                    0 <= m < self.index.entries@.len() && self.index.entries@[m] == (pk, id);
                assert(self.index.entries@[m].1 <= best);
            }
        }
        self.get(best)
    }

    /// The records of the tree in ascending order of their identifiers.
    pub fn node_list(&self) -> (r: Vec<&T>)
        requires
            self.well_formed(),
        ensures
            forall|k: int|
                0 <= k < r@.len() ==> self.b_map@.contains_key((#[trigger] r@[k]).spec_id())
                    && *r@[k] == self.b_map@[r@[k].spec_id()],
            forall|i: int, j: int|
                0 <= i < j < r@.len() ==> (#[trigger] r@[i]).spec_id() < (
                #[trigger] r@[j]).spec_id(),
            forall|id: usize| #[trigger]
                self.b_map@.contains_key(id) ==> exists|k: int|
                    0 <= k < r@.len() && (#[trigger] r@[k]).spec_id() == id,
    {
        let mut out: Vec<&T> = Vec::new();
        let mut floor: Option<usize> = None;
        loop
            invariant
                self.well_formed(),
                forall|k: int|
                    0 <= k < out@.len() ==> self.b_map@.contains_key((#[trigger] out@[k]).spec_id())
                        && *out@[k] == self.b_map@[out@[k].spec_id()],
                forall|i: int, j: int|
                    0 <= i < j < out@.len() ==> (#[trigger] out@[i]).spec_id() < (
                    #[trigger] out@[j]).spec_id(),
                floor is None ==> out@.len() == 0,
                floor matches Some(f) ==> out@.len() >= 1 && out@.last().spec_id() == f,
                forall|id: usize| #[trigger]
                    self.b_map@.contains_key(id) && (floor matches Some(f) && id <= f)
                        ==> exists|k: int|
                        0 <= k < out@.len() && (#[trigger] out@[k]).spec_id() == id,
            ensures
                forall|k: int|
                    0 <= k < out@.len() ==> self.b_map@.contains_key((#[trigger] out@[k]).spec_id())
                        && *out@[k] == self.b_map@[out@[k].spec_id()],
                forall|i: int, j: int|
                    0 <= i < j < out@.len() ==> (#[trigger] out@[i]).spec_id() < (
                    #[trigger] out@[j]).spec_id(),
                forall|id: usize| #[trigger]
                    self.b_map@.contains_key(id) ==> exists|k: int|
                        0 <= k < out@.len() && (#[trigger] out@[k]).spec_id() == id,
            decreases
                    (match floor {
                        Some(f) => usize::MAX - f,
                        None => usize::MAX + 1,
                    }),
        {
            let next = self.next_above(floor);
            match next {
                None => {
                    proof {
                        assert forall|id: usize| #[trigger]
                            self.b_map@.contains_key(id) implies exists|k: int|
                            0 <= k < out@.len() && (#[trigger] out@[k]).spec_id() == id by {
                            let pk = self.b_map@[id].spec_point();
                            assert(self.index.holds(pk, id));
                            let m = choose|m: int|
                                0 <= m < self.index.entries@.len() && self.index.entries@[m] == (
                                    pk,
                                    id,
                                );
                            assert(self.index.entries@[m].1 == id);
                        }
                    }
                    break ;
                },
                Some(b) => {
                    let record = self.get(b).unwrap();
                    let ghost shorter = out@;
                    out.push(record);
                    proof {
                        assert forall|id: usize| #[trigger]
                            self.b_map@.contains_key(id) && id <= b implies exists|k: int|
                            0 <= k < out@.len() && (#[trigger] out@[k]).spec_id() == id by {
                            if id == b {
                                assert(out@[out@.len() - 1].spec_id() == id);
                            } else {
                                let pk = self.b_map@[id].spec_point();
                                assert(self.index.holds(pk, id));
                                let m = choose|m: int|
                                    0 <= m < self.index.entries@.len() && self.index.entries@[m]
                                        == (pk, id);
                                assert(self.index.entries@[m].1 == id);
                                assert(floor matches Some(f) && id <= f);
                                let k = choose|k: int|
                                    0 <= k < shorter.len() && (#[trigger] shorter[k]).spec_id()
                                        == id;
                                assert(out@[k] == shorter[k]);
                            }
                        }
                        assert forall|i: int, j: int| 0 <= i < j < out@.len() implies (
                        #[trigger] out@[i]).spec_id() < (#[trigger] out@[j]).spec_id() by {
                            if j < shorter.len() {
                                assert(out@[i] == shorter[i] && out@[j] == shorter[j]);
                            } else if shorter.len() > 0 {
                                assert(out@[i] == shorter[i]);
                                if i < shorter.len() - 1 {
                                    assert(shorter[i].spec_id() < shorter[shorter.len()
                                        - 1].spec_id());
                                }
                            }
                        }
                    }
                    floor = Some(b);
                },
            }
        }
        out
    }

    /// The least identifier of the tree above `floor`, or the least of all
    /// where there is no floor.
    fn next_above(&self, floor: Option<usize>) -> (r: Option<usize>)
        requires
            self.well_formed(),
        ensures
            match r {
                Some(b) => {
                    &&& self.b_map@.contains_key(b)
                    &&& floor matches Some(f) ==> b > f
                    &&& forall|j: int|
                        0 <= j < self.index.entries@.len() ==> (floor matches Some(f) && (
                        #[trigger] self.index.entries@[j]).1 <= f) || self.index.entries@[j].1 >= b
                },
                None => forall|j: int|
                    0 <= j < self.index.entries@.len() ==> (floor matches Some(f) && (
                    #[trigger] self.index.entries@[j]).1 <= f),
            },
    {
        let mut best: Option<usize> = None;
        let mut i: usize = 0;
        while i < self.index.entries.len()
            invariant
                i <= self.index.entries.len(),
                self.well_formed(),
                match best {
                    Some(b) => {
                        &&& carries(self.index.entries@, b)
                        &&& floor matches Some(f) ==> b > f
                        &&& forall|j: int|
                            0 <= j < i ==> (floor matches Some(f) && (
                            #[trigger] self.index.entries@[j]).1 <= f) || self.index.entries@[j].1
                                >= b
                    },
                    None => forall|j: int|
                        0 <= j < i ==> (floor matches Some(f) && (
                        #[trigger] self.index.entries@[j]).1 <= f),
                },
            decreases self.index.entries.len() - i,
        {
            let item = self.index.entries[i].1;
            let above = match floor {
                Some(f) => item > f,
                None => true,
            };
            let better = match best {
                Some(b) => item < b,
                None => true,
            };
            if above && better {
                best = Some(item);
            }
            i += 1;
        }
        proof {
            if let Some(b) = best {
                let c = place_of(self.index.entries@, b);
                assert(self.b_map@.contains_key(self.index.entries@[c].1));
            } else if floor is None && self.index.entries@.len() > 0 {
                assert(self.index.entries@[0].1 >= 0);
            }
        }
        best
    }

    /// The number of nodes in the tree.
    pub fn len(&self) -> (r: usize)
        requires
            self.well_formed(),
        ensures
            r == self.b_map@.dom().len(),
            r == self.index.entries@.len(),
    {
        self.index.size()
    }

    /// The points on the way from `goal_node` up through its parents,
    /// appended to `path`: the node's own point first. The walk ends at a
    /// node without a parent, at a parent that is not registered, and after
    /// as many steps as the tree has nodes.
    pub fn get_path(&self, goal_node: &T, path: Vec<Point2D>) -> (r: Vec<Point2D>)
        requires
            self.well_formed(),
        ensures
            r@ == path@ + climb(
                self.b_map@,
                goal_node.spec_point(),
                goal_node.spec_parent_id(),
                self.b_map@.dom().len(),
            ),
    {
        let mut path = path;
        let ghost before = path@;
        let ghost whole = climb(
            self.b_map@,
            goal_node.spec_point(),
            goal_node.spec_parent_id(),
            self.b_map@.dom().len(),
        );
        path.push(goal_node.point());
        let mut parent = goal_node.parent_id();
        let mut fuel: usize = self.len();
        loop
            invariant
                self.well_formed(),
                before + whole == path@.drop_last() + climb(
                    self.b_map@,
                    path@.last(),
                    parent,
                    fuel as nat,
                ),
                path@.len() >= 1,
            ensures
                path@ == before + whole,
            decreases fuel,
        {
            let next = match parent {
                Some(idx) => if fuel > 0 {
                    self.get(idx)
                } else {
                    None
                },
                None => None,
            };
            match next {
                Some(record) => {
                    let ghost shorter = path@;
                    path.push(record.point());
                    parent = record.parent_id();
                    fuel = fuel - 1;
                    proof {
                        assert(path@.drop_last() == shorter);
                        assert(shorter == shorter.drop_last() + seq![shorter.last()]);
                        assert(before + whole == shorter.drop_last() + (seq![shorter.last()]
                            + climb(self.b_map@, path@.last(), parent, fuel as nat)));
                    }
                },
                None => {
                    proof {
                        assert(climb(self.b_map@, path@.last(), parent, fuel as nat) == seq![
                            path@.last(),
                        ]);
                        assert(path@ == path@.drop_last() + seq![path@.last()]);
                    }
                    break ;
                },
            }
        }
        path
    }
}

/// After a node is registered it is its own nearest node.
pub proof fn lemma_nearest_after_add<T: Node>(before: PathTree<T>, after: PathTree<T>, node: T)
    requires
        after.well_formed(),
        after.index.entries@ == before.index.entries@.push((node.spec_point(), node.spec_id())),
    ensures
        after.index.entries@[first_nearest(
            entry_points(after.index.entries@),
            node.spec_point(),
        )].1 == node.spec_id(),
{
    assert(after.index.entries@[after.index.entries@.len() - 1] == (
        node.spec_point(),
        node.spec_id(),
    ));
    lemma_nearest_of_held_point(after.index, node.spec_point(), node.spec_id());
}

} // verus!
