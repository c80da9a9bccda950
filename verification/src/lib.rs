//! Verified core of a CorelDRAW outline and keyhole tool.

pub mod cli;
pub mod deployment;
pub mod desktop;
pub mod digest;
pub mod domain;
pub mod export_run;
pub mod first_met;
pub mod gap;
pub mod merge;
pub mod measure;
pub mod names;
pub mod page;
pub mod picture_export;
pub mod preview;
pub mod printflow;
pub mod process;
pub mod processor;
pub mod raster;
pub mod rings;
pub mod scan;
pub mod selection;
pub mod shapes;
pub mod svg_export;
pub mod svg_image;
pub mod svg_tag;
pub mod svg_transform;
pub mod text;
pub mod transaction;
pub mod trim;
pub mod updater;
pub mod verify;
pub mod xml;
