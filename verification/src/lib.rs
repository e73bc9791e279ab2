//! Sampling-based motion planning on the integer plane.
//!
//! Coordinates are signed integers in a unit that the caller chooses. A
//! distance between two points is the floor of the Euclidean distance; the
//! length of a path rounds each leg up instead, so that no path is shorter
//! than the distance between its ends. Planners grow a parent-linked tree
//! from a start point toward a goal point between obstacles, and a
//! shortcut pass smooths the path they return.
//!
//! The choice of the unit is not free of consequence. Lengths are whole
//! numbers of it, so a finer unit rounds less. And the range queries of the
//! index compare a radius, which is a length, with a squared distance: the
//! nodes within the near radius of the optimising planner, and those it
//! takes for close enough to the goal, are the nodes whose squared distance
//! is at most that length. So that a scene finds the same neighbours in a
//! finer unit, the optimising planner holds the number of the coordinates'
//! units in one unit of length, and multiplies every such radius by it; a
//! planner that is made with the unit 1 counts lengths in the unit of the
//! coordinates.
//!
//! - [`math`]: points, distances and the segment test;
//! - [`logarithm`]: the natural logarithm in fixed point, with its error;
//! - [`bound`]: circles, rectangles and convex polygons as obstacles;
//! - [`rrtnode`]: tree nodes, with and without a cost;
//! - [`tree`]: the index of node points and the tree of node records;
//! - [`planner`]: what every planner offers;
//! - [`rrt`]: the tree planner;
//! - [`rrtstar`]: the optimising tree planner, which rewires its tree;
//! - [`path`]: path length, target points and shortcut smoothing;
//! - [`rng`]: the random source.

pub mod bound;
pub mod logarithm;
pub mod math;
pub mod path;
pub mod planner;
pub mod rng;
pub mod rrt;
pub mod rrtnode;
pub mod rrtstar;
pub mod tree;
