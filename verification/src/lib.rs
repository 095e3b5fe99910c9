//! A multi-robot exploration and harvesting simulation on a grid map.
pub mod base;
pub mod cell;
pub mod collector;
pub mod map;
pub mod message;
pub mod path_order;
pub mod position;
mod random;
pub mod resource;
pub mod robot;
pub mod simulation;
