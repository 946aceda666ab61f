//! Combinational-loop analysis.
pub mod actuals;
pub mod affine;
pub mod analysis;
pub mod apply;
pub mod arena;
pub mod arms;
pub mod assign;
pub mod assigning;
pub mod bits;
pub mod bounds;
pub mod branches;
pub mod calling;
pub mod calls;
pub mod cases;
pub mod collect;
pub mod conjoin;
pub mod connecting;
pub mod controls;
pub mod dag;
pub mod drawing;
pub mod exits;
pub mod feedthrough;
pub mod ff_table;
pub mod flow;
pub mod flows;
pub mod footprint;
pub mod fragments;
pub mod frames;
pub mod graph;
pub mod imports;
pub mod instance;
pub mod ir;
pub mod layout;
pub mod lift;
pub mod lower;
pub mod looping;
pub mod machine;
pub mod masks;
pub mod module;
pub mod occurrences;
pub mod order;
pub mod outputs;
pub mod partition;
pub mod path;
pub mod paths;
pub mod predicates;
pub mod procedure;
pub mod project;
pub mod projection;
pub mod reach;
pub mod realize;
pub mod relation;
pub mod remap;
pub mod repeated;
pub mod requests;
pub mod results;
pub mod revision;
pub mod runtime;
pub mod selection;
pub mod self_reads;
pub mod sequence;
pub mod shapes;
pub mod snapshots;
pub mod sources;
pub mod span;
pub mod splice;
pub mod ssa;
pub mod state;
pub mod steps;
pub mod summarize;
pub mod summary;
pub mod targets;
pub mod terms;
pub mod through;
pub mod transfer;
pub mod values;
pub mod write_count;
pub mod wiring;
pub mod writes;
pub mod written;
