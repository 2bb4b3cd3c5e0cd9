//! Verified core of a git-history forest visualiser: the commit graph model
//! built from a repository's commits, an even layout, author colours, merge-storm detection,
//! text panels, the terminal picture, and what the SVG pictures show.

pub mod decimal;
pub mod text;
pub mod order;
pub mod strmap;
pub mod types;
pub mod color;
pub mod scan;
pub mod interact;
pub mod inspect;
pub mod render;
pub mod layout;
pub mod svg;
pub mod summary;
pub mod merge_storm;
pub mod export;
