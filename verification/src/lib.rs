pub mod security_state;
pub mod text;
pub mod process_state;
pub mod graph;
pub mod event_bus;
pub mod runtime;
pub mod seq_facts;
pub mod clock;
pub mod process_events;
pub mod rules;
pub mod security_engine;
pub mod process_engine;
pub mod graph_build;
pub mod overview;
pub mod domains;
pub mod surfaces;
pub mod actions;
pub mod persistence;
pub mod runtime_cycle;
pub mod dashboard;
pub mod dashboard_text;
pub mod process_tree;
pub mod timeline;
pub mod bridge_model;
pub mod commands;
pub mod why_report;
pub mod collection;
