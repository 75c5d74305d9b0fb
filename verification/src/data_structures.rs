pub mod queue;
pub mod stack;
pub mod weighted_adj_list;
pub mod weighted_adj_matrix;
