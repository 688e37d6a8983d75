//! A small task list: records keyed by one-character ids, minted at random
//! from a fixed alphabet, with the rules for adding, removing, completing and
//! listing them stated as contracts and proved.
//!
//! The library keeps the list and decides; reading and writing the file, the
//! command line and the colours of a listing are left to the program that
//! uses it.
//!
//! Four choices are worth knowing:
//! - A description loses the white space at its end and nothing else.
//! - Toggling a record notes the time as that of its last change.
//! - A list read where no file was found belongs to the path it was looked
//!   for at, not to the default file.
//! - A batch of descriptions is added as far as ids are left; what was added
//!   stays when the rest is rejected.

pub mod batch;
pub mod clock;
pub mod ids;
pub mod item;
pub mod listing;
pub mod text;
pub mod todo;

pub use batch::AddReport;
pub use clock::Timestamp;
pub use item::{Status, TodoItem};
pub use listing::Row;
pub use todo::{StoreError, TodoList};
