pub mod bound;
pub mod checks;
pub mod context;
pub mod engine;
pub mod flow;
pub mod forks;
pub mod ids;
pub mod ir;
pub mod limit;
pub mod machine;
pub mod memory;
pub mod model;
pub mod render;
pub mod reporter;
pub mod rules;
pub mod simplify;
pub mod sound;
pub mod state;
pub mod term;
pub mod text;
pub mod value;
pub mod wellformed;
