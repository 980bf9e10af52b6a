pub mod a_star;
pub mod hierarchical_a_star;
pub mod open_list;
