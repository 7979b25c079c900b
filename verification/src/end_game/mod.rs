pub mod ordering;
