//! A collection of small verified puzzle solvers: a pipe-maze walker and
//! interior classifier, an almanac of range translations, card hands,
//! spring records, star fields, lotto tickets, toy races, a junction
//! network, cube games, and the text utilities their parsers share.
//!
//! Every function carries its contract; the executable code is verified
//! against it.  The one call into an outside crate, the combination
//! listing of the spring solver, stands behind a single trusted wrapper.

pub mod almanac;
pub mod cards;
pub mod cubes;
pub mod galaxies;
pub mod lotto;
pub mod matrix;
pub mod network;
pub mod pipes;
pub mod races;
pub mod readings;
pub mod schematic;
pub mod springs;
pub mod text;
