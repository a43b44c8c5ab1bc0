//! The logic of a voice-driven resident assistant.
pub mod agent;
pub mod ask_user;
pub mod asr;
pub mod audio;
pub mod baidu;
pub mod bash;
pub mod cards;
pub mod config;
pub mod context;
pub mod cut;
pub mod dates;
pub mod decimal;
pub mod dream_trigger;
pub mod extract;
pub mod files;
pub mod history;
pub mod http;
pub mod input;
pub mod jobs;
pub mod json;
pub mod laws;
pub mod lines;
pub mod llm;
pub mod mem;
pub mod mem_cli;
pub mod notes;
pub mod pairing;
pub mod paths;
pub mod purify;
pub mod setup;
pub mod sse;
pub mod store;
pub mod tasks;
pub mod text;
pub mod thinking;
pub mod timers;
pub mod turn;
pub mod wire;
