pub mod changes;
pub mod diff;
pub mod format;
pub mod highlight;
pub mod normalize;
pub mod properties;
pub mod recents;
pub mod render;
pub mod session;
pub mod text;
