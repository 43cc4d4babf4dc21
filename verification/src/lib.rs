pub mod laws;
pub mod model;
pub mod scanner;
pub mod token;
