//! ENYO: the verified core of a deterministic, headless world-strategy simulation.

pub mod ai;
pub mod audit;
pub mod climate;
pub mod connect;
pub mod diplo;
pub mod director;
pub mod frontier;
pub mod gui;
pub mod llm;
pub mod march;
pub mod military;
pub mod nation;
pub mod path;
pub mod proto;
pub mod realm;
pub mod rng;
pub mod strategy;
pub mod tech;
pub mod text;
pub mod tile;
pub mod unit;
pub mod view;
pub mod works;
