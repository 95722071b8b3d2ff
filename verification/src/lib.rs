#![allow(non_snake_case)]

pub mod grouping;
pub mod models;
pub mod randomness;
pub mod text;
pub mod valuation;
