//! Layout and emission of hierarchical KiCad schematics from a netlist.
//!
//! The library takes a flattened netlist, decides which sheets it is drawn on,
//! places and wires every sheet and writes the sheets as s-expression trees.
//! Lengths are whole KiCad internal units (see [`units`]), so that every
//! contract is about integers.

pub mod align;
pub mod anchors;
pub mod apart;
pub mod arrange;
pub mod band;
pub mod blocks;
pub mod canvas;
pub mod childpins;
pub mod columns;
pub mod compose;
pub mod config;
pub mod contacts;
pub mod document;
pub mod erc;
pub mod extract;
pub mod filters;
pub mod generate;
pub mod flowing;
pub mod geometry;
pub mod glyphs;
pub mod grow;
pub mod headed;
pub mod hierarchy;
pub mod keepout;
pub mod kinds;
pub mod labels;
pub mod linked;
pub mod manual;
pub mod model;
pub mod names;
pub mod netlaws;
pub mod netlist;
pub mod nets;
pub mod nodes;
pub mod order;
pub mod orientation;
pub mod outline;
pub mod pins;
pub mod place;
pub mod ported;
pub mod power;
pub mod powered;
pub mod project;
pub mod pulled;
pub mod rails;
pub mod reader;
pub mod repeat;
pub mod registry;
pub mod roles;
pub mod route;
pub mod schematic;
pub mod seats;
pub mod served;
pub mod sexpr;
pub mod sheets;
pub mod shown;
pub mod signals;
pub mod slid;
pub mod subsets;
pub mod supply;
pub mod symbols;
pub mod text;
pub mod textpass;
pub mod textplan;
pub mod texts;
pub mod tree;
pub mod treelabel;
pub mod units;
pub mod uuid;
pub mod warning;
pub mod wiring;
pub mod wording;
pub mod writer;
pub mod written;
pub mod zones;
