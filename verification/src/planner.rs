//! What every planner offers: its obstacles, the collision tests derived
//! from them, and the planning call.

use crate::bound::Collision;
use crate::math::{point_in_range, Point2D};
use crate::path::Path2D;
use vstd::prelude::*;

verus! {

/// Every obstacle of the list has its parameters in range.
pub open spec fn obstacles_well_formed(obs: Seq<&dyn Collision>) -> bool {
    forall|i: int| 0 <= i < obs.len() ==> (#[trigger] obs[i]).well_formed()
}

/// The point lies in one of the obstacles.
pub open spec fn hits_any(obs: Seq<&dyn Collision>, pt: Point2D) -> bool {
    exists|i: int| 0 <= i < obs.len() && (#[trigger] obs[i]).collides(pt)
}

/// The edge between the two points is barred by one of the obstacles.
pub open spec fn blocked_by_any(obs: Seq<&dyn Collision>, start: Point2D, end: Point2D) -> bool {
    exists|i: int| 0 <= i < obs.len() && (#[trigger] obs[i]).blocks(start, end)
}

/// Whether `pt` lies in one of the obstacles.
pub fn any_collision(obs: &Vec<&dyn Collision>, pt: &Point2D) -> (r: bool)
    requires
        obstacles_well_formed(obs@),
        point_in_range(*pt),
    ensures
        r == hits_any(obs@, *pt),
{
    let mut i: usize = 0;
    while i < obs.len()
        invariant
            i <= obs.len(),
            obstacles_well_formed(obs@),
            point_in_range(*pt),
            forall|j: int| 0 <= j < i ==> !(#[trigger] obs@[j]).collides(*pt),
        decreases obs.len() - i,
    {
        if obs[i].is_collision(pt) {
            return true;
        }
        i += 1;
    }
    false
}

/// Whether the edge from `start` to `end` is barred by one of the obstacles.
pub fn any_collision_segment(obs: &Vec<&dyn Collision>, start: &Point2D, end: &Point2D) -> (r:
    bool)
    requires
        obstacles_well_formed(obs@),
        point_in_range(*start),
        point_in_range(*end),
    ensures
        r == blocked_by_any(obs@, *start, *end),
{
    let mut i: usize = 0;
    while i < obs.len()
        invariant
            i <= obs.len(),
            obstacles_well_formed(obs@),
            point_in_range(*start),
            point_in_range(*end),
            forall|j: int| 0 <= j < i ==> !(#[trigger] obs@[j]).blocks(*start, *end),
        decreases obs.len() - i,
    {
        if obs[i].is_collision_segment(start, end) {
            return true;
        }
        i += 1;
    }
    false
}

/// A planner knows its obstacles and may find a path.
pub trait Planner<'a> {
    /// The obstacle list, as a sequence.
    spec fn spec_obstacles(&self) -> Seq<&dyn Collision>;

    /// The planner is configured and has not planned yet.
    spec fn ready(&self) -> bool;

    /// What holds of the planner `self` and of `result` after a planning
    /// call that began in the state `before`.
    spec fn planned(&self, before: &Self, result: Option<Path2D>) -> bool;

    /// The obstacles that the planner keeps clear of.
    fn obstacles(&self) -> (r: &Vec<&dyn Collision>)
        ensures
            r@ == self.spec_obstacles(),
    ;

    /// Whether `point` lies in one of the planner's obstacles. It lies in
    /// none where there are no obstacles.
    fn is_collision(&self, point: &Point2D) -> (r: bool)
        requires
            obstacles_well_formed(self.spec_obstacles()),
            point_in_range(*point),
        ensures
            r == hits_any(self.spec_obstacles(), *point),
    {
        if self.obstacles().len() == 0 {
            return false;
        }
        any_collision(self.obstacles(), point)
    }

    /// Whether the edge from `start` to `end` is barred by one of the
    /// planner's obstacles.
    fn is_collision_segment(&self, start: &Point2D, end: &Point2D) -> (r: bool)
        requires
            obstacles_well_formed(self.spec_obstacles()),
            point_in_range(*start),
            point_in_range(*end),
        ensures
            r == blocked_by_any(self.spec_obstacles(), *start, *end),
    {
        any_collision_segment(self.obstacles(), start, end)
    }

    /// Searches for a path. A planner may find none: none may exist, or
    /// the search may end before one is found.
    fn plan(&mut self) -> (r: Option<Path2D>)
        requires
            old(self).ready(),
        ensures
            final(self).planned(old(self), r),
    ;
}

} // verus!
