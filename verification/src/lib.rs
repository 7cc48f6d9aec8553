//! Segmented diploid genomes with verified recombination, identical-by-descent
//! segment computation, pedigree bookkeeping, and the integer core of a
//! genealogy privacy simulator.

pub mod diploid;
pub mod segments;
pub mod set_intersection;
pub mod generator;
pub mod population;
pub mod descendants;
pub mod founders;
pub mod kinship;
pub mod fit;
pub mod serializer;
pub mod stats;
