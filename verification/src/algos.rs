pub mod recursive_backtracking;
pub mod sidewinder;
