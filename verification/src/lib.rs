//! Frequent itemset mining over transaction datasets, with two engines:
//! a level-wise candidate engine and a compressed prefix-tree engine.
//! Both are specified against the same mathematical model of support.

pub mod itemset;
pub mod canonical;
pub mod patterns;
pub mod combos;
pub mod tids;
pub mod frequency;
pub mod apriori;
pub mod fptree;
pub mod rooted;
pub mod conditional;
pub mod single_path;
pub mod fpgrowth;
pub mod dataset;
pub mod laws;
