//! Dice expressions: parsing, random evaluation and exact outcome distributions.

pub mod expr;
pub mod parser;
pub mod normalize;
pub mod normal_form;
pub mod builder;
pub mod dist;
pub mod analysis;
pub mod throw;
pub mod hand;
pub mod dto;
pub mod laws;
pub mod totals;
pub mod text_laws;
