//! Rejoining two views of one storage that lie side by side.
//!
//! A buffer is often cut into views that borrow from it, and some of those
//! views later have to be read, or written, as one. Two views can be joined
//! without copying when the first ends exactly where the second begins. This
//! crate decides that and hands out the joined view: of a slice, of a slice
//! held exclusively, and of a text.
//!
//! A view is named by the storage it borrows from and by its [`Span`], the
//! position of its first element and the number of its elements.
pub mod slices;
pub mod span;
pub mod text;

pub use slices::SliceExt;
pub use span::Span;
pub use text::StrExt;
