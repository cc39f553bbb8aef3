pub mod bug;
pub mod entities;
pub mod parsing;
