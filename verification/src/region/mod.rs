pub mod delta;
pub mod packed_data;
pub mod palette;
pub mod segment_info;
pub mod tile_entities;
pub mod unpacked_view;
pub mod delta_sequence;
pub mod segment;
