//! Deterministic core of a tower-defense arena: fixed-point geometry, a
//! quad-tree spatial index, collision resolution, flocking movement and
//! tower targeting.

pub mod fixed;
pub mod quad_tree;
pub mod cooldown;
pub mod health;
pub mod tower;
pub mod orb;
pub mod enemy;
pub mod collision;
