//! Casting system: spell lists, the casting VM, actions and mishaps.

pub mod actions;
pub mod mishaps;
pub mod spell_list;
pub mod vm;

pub use actions::ActionRegistry;
pub use mishaps::Mishap;
pub use spell_list::SpellList;
