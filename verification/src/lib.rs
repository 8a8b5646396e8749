#![allow(non_snake_case)]
#![allow(non_camel_case_types)]

pub mod edge;
pub mod walk;
pub mod node;
pub mod catalog;
pub mod nodes;
pub mod text;
pub mod graph;
pub mod commands;
pub mod modes;
pub mod pixel;
pub mod schedule;
pub mod util;
pub mod laws;
pub mod raster;
pub mod upload;
