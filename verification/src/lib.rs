pub mod ltl_parser;
pub mod semantics;
pub mod pnf;
pub mod closure;
pub mod consistency;
pub mod gnba;
pub mod graph;
pub mod language;
pub mod nba;
pub mod nba_build;
pub mod nba_language;
pub mod net_language;
pub mod emptyness;
pub mod ndfs;
pub mod text;
pub mod petri_net;
pub mod marking_label;
pub mod counting;
pub mod product;
pub mod render;
pub mod render_laws;
pub mod explorer;
pub mod builder;
pub mod xml;
pub mod philosophers;
pub mod grammar;
pub mod memory_status;
