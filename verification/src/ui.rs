pub mod editor;
pub mod formatting;
pub mod indentation;
