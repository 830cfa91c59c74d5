//! Verified k-means clustering of points in the plane.
//!
//! All numbers are integers. Statistics are taken of signed 64-bit values;
//! the coordinates of a point are signed 32-bit values, so that sums of
//! squared distances stay within 128 bits. The library is indifferent to the
//! unit that values are expressed in, with one exception: standardised values
//! are produced in fixed point, as multiples of `1 / UNIT` of a standard
//! deviation.
//!
//! * `math`: integer square root, mean, standard deviation, standardisation.
//! * `geom`: points, bounding boxes and Euclidean distance.
//! * `random`: the seeded random source and the two draws taken from it.
//! * `kmeans`: seeding, assignment, centroid update and the restart loop.
//! * `rows`: the fields of a row of delimited text.
//! * `pairs`: what clustering makes of two well-separated pairs of points.
pub mod geom;
pub mod kmeans;
pub mod math;
pub mod pairs;
pub mod random;
pub mod rows;
