//! Boxes of MP4 files and the tables of file offsets in them.
pub mod box_ops;
pub mod media;
pub mod offset;

pub use box_ops::{
    build_skip_box, find_all_boxes, find_boxes_recursive, find_png_offset, insert_box_after_ftyp,
    replace_ftyp_box,
};
pub use offset::update_stco_offsets;
