//! QueryKey server core: the verified logic behind the local-first PRM
//! server — markdown vault framing, semantic wikilinks, dashboard
//! notes, broadcast cards, recurrence expansion, identity handles and
//! the lifecycle state machines.

pub mod calendar;
pub mod card;
pub mod config;
pub mod dashboard;
pub mod discord;
pub mod graph;
pub mod identity;
pub mod ingest;
pub mod loca;
pub mod mcp;
pub mod memory;
pub mod models;
pub mod openclaw;
pub mod text;
pub mod vault;
pub mod wikilink;
pub mod workflow;
pub mod ws;
