pub mod order;
pub mod b_tree;
pub mod node_lemmas;
pub mod text;
pub mod database;
pub mod statement;
pub mod meta;
