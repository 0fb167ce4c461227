//! A configurator for the build options of a ports tree.
pub mod cli;
pub mod config;
pub mod describe;
pub mod exporter;
pub mod facts;
pub mod glob;
pub mod graph;
pub mod indexer;
pub mod makeenv;
pub mod oracle;
pub mod order;
pub mod path;
pub mod poudriere;
pub mod reach;
pub mod reader;
pub mod reply;
pub mod resolve;
pub mod roundtrip;
pub mod text;
pub mod ui;
