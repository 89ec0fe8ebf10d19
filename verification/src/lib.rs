//! Codecs for four asset databases of a rhythm game: animation sets, object
//! sets, sprite sets and texture names.
//!
//! Each database is a map from 32-bit ids to records. On disk it is a header
//! and one or two tables behind pointers: a table of sets and, for three of
//! the four, a table of the children of all sets, each child naming its set
//! by a compact reference. The modules `aet`, `obj`, `spr` and `tex` hold
//! the databases, their record tables, and the functions between the two;
//! the `_laws` modules state what holds of those functions; the `_layout`
//! modules say how the records lie in a file.
//!
//! No module touches a file. A database is decoded from records, or from
//! the rows of fields that a cursor has read by a read plan; it is encoded
//! to records, or to the steps that a cursor is to carry out.

pub mod aet;
pub mod aet_laws;
pub mod aet_layout;
pub mod layout;
pub mod obj;
pub mod obj_laws;
pub mod obj_layout;
pub mod order;
pub mod spr;
pub mod spr_laws;
pub mod spr_layout;
pub mod table;
pub mod tex;
pub mod tex_laws;
pub mod tex_layout;

pub use aet::AetDb;
pub use obj::ObjDb;
pub use spr::SprDb;
pub use tex::TexDb;
