//! Match history for Team Fortress 2 Highlander: the parsing, matching and
//! classification rules behind the app, each stated and proved.
pub mod config;
pub mod error;
pub mod matchdata;
pub mod steamid;
pub mod text;
pub mod tfclass;
pub mod maps;
pub mod dedupe;
pub mod classify;
pub mod sync;
pub mod etf2l;
pub mod link;
pub mod cli;
pub mod rawlog;
pub mod context;
pub mod mapres;
pub mod situation;
pub mod kills;
pub mod lock;
pub mod seasons;
pub mod demostf;
pub mod scan;
pub mod backup;
pub mod owner;
pub mod query;
pub mod fights;
pub mod tfpath;
pub mod state;
pub mod normalize;
pub mod statecheck;
pub mod restore;
pub mod header;
pub mod analysis;
