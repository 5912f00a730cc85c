//! Reachability of terrain for unpowered flight: grid indexing, an index-keyed
//! priority queue, the relaxation decisions of the flight-cone search, line
//! rasterisation, elevation tile decoding and a fuzzy place-name index.
pub mod grid;
pub mod height_data;
pub mod line;
pub mod map_like;
pub mod pqueue;
pub mod relax;
pub mod textsearch;
