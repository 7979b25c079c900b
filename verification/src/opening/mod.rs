pub mod first;
pub mod second;
pub mod side;
pub mod ordering;
pub mod stealth;
pub mod traps;
