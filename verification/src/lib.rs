//! Verified core of the Hunger novelty-driven crawler.
pub mod text;
pub mod llm;
pub mod models;
pub mod control;
pub mod graph_view;
pub mod config;
pub mod settings;
pub mod backfill;
pub mod extractor;
pub mod novelty;
pub mod ui;
pub mod crawler;
pub mod rank;
