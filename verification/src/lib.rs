pub mod actions;
pub mod agent;
pub mod benchmarks;
pub mod bytes;
pub mod catalog;
pub mod chat;
pub mod chunker;
pub mod commands;
pub mod config;
pub mod crawler;
pub mod db;
pub mod decimal;
pub mod default_prompts;
pub mod embedding;
pub mod explorer;
pub mod extract;
pub mod folders;
pub mod gardener;
pub mod health;
pub mod installs;
pub mod json;
pub mod mcp;
pub mod media;
pub mod metrics;
pub mod ollama_catalog;
pub mod ollama_server;
pub mod order;
pub mod ort_setup;
pub mod parser;
pub mod pending;
pub mod reading;
pub mod search;
pub mod state;
pub mod text;
pub mod tree;
pub mod vectordb;
pub mod watchdog;
pub mod worker;
