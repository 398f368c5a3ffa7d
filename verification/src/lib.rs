//! Verified pieces of a kernel scheduler.

pub mod accessing;
pub mod accumulate;
pub mod address;
pub mod algebra;
pub mod alike;
pub mod args;
pub mod bounds;
pub mod broadcast;
pub mod bufferize;
pub mod builders;
pub mod carried;
pub mod cfg;
pub mod closing;
pub mod collapse;
pub mod commit;
pub mod config;
pub mod context;
pub mod contexts;
pub mod coordinates;
pub mod counting;
pub mod dce;
pub mod decomps;
pub mod demote;
pub mod devices;
pub mod disjoint;
pub mod divide;
pub mod early;
pub mod encodings;
pub mod ends;
pub mod env;
pub mod expand;
pub mod finish;
pub mod fixed;
pub mod expanding;
pub mod flatten;
pub mod fold;
pub mod folding;
pub mod fp8;
pub mod fragmenting;
pub mod graph;
pub mod group;
pub mod grouping;
pub mod guarding;
pub mod halves;
pub mod heads;
pub mod helpers;
pub mod heuristics;
pub mod idlist;
pub mod indexing;
pub mod kernel_info;
pub mod kernel_shape;
pub mod kernels;
pub mod keys;
pub mod lanes;
pub mod late;
pub mod lift;
pub mod limiting;
pub mod limits;
pub mod linearize;
pub mod lines;
pub mod local;
pub mod longs;
pub mod meaning;
pub mod merge;
pub mod merging;
pub mod movement;
pub mod multi;
pub mod naming;
pub mod narrow;
pub mod optimizing;
pub mod opts;
pub mod pad;
pub mod params;
pub mod passes;
pub mod phi;
pub mod product;
pub mod product_shape;
pub mod quotients;
pub mod ranged;
pub mod ranked;
pub mod realize;
pub mod reduce;
pub mod registers;
pub mod resolve;
pub mod rounding;
pub mod scalarize;
pub mod scheduler;
pub mod scope;
pub mod settled;
pub mod shape;
pub mod shaped;
pub mod sharding;
pub mod shift;
pub mod sort;
pub mod short;
pub mod split;
pub mod staging;
pub mod storage;
pub mod stored_words;
pub mod subst;
pub mod symbolic;
pub mod text;
pub mod tiling;
pub mod topo;
pub mod values;
pub mod tracing;
pub mod viewing;
pub mod views;
pub mod window;
pub mod words;
pub mod writes;
