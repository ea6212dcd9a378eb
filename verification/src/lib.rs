//! Verified core of a terminal network monitor.

pub mod acting;
pub mod axis;
pub mod conns;
pub mod double;
pub mod drawing;
pub mod files;
pub mod history;
pub mod keys;
pub mod laws;
pub mod layout;
pub mod listing;
pub mod matching;
pub mod measuring;
pub mod owners;
pub mod panel;
pub mod procfs;
pub mod rank;
pub mod rate;
pub mod reading;
pub mod rounding;
pub mod rows;
pub mod show;
pub mod showing;
pub mod ss;
pub mod state;
pub mod table;
pub mod text;
pub mod top;
pub mod tracking;
pub mod wave;
