pub mod text;
pub mod markup;
pub mod highlight;
pub mod ui;
pub mod import;
pub mod note;
pub mod search;
pub mod export;
pub mod storage;
pub mod theme;
pub mod session;
pub mod layout;
