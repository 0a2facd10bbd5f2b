//! Pairs subtitle files with video files by episode and plans their new names.

pub mod alignment;
pub mod apply;
pub mod applying;
pub mod calendar;
pub mod checksum;
pub mod config;
pub mod conservation;
pub mod cross;
pub mod execute;
pub mod extract;
pub mod extraction;
pub mod fields;
pub mod filling;
pub mod history;
pub mod key;
pub mod keying;
pub mod language;
pub mod matcher;
pub mod matching;
pub mod naming;
pub mod normalize;
pub mod pairing;
pub mod paths;
pub mod pattern;
pub mod plan;
pub mod planning;
pub mod registry;
pub mod remembering;
pub mod restore;
pub mod script;
pub mod session;
pub mod sorting;
pub mod state;
pub mod stem;
pub mod text;
pub mod timeline;
pub mod undo;
pub mod undoing;
pub mod unicode;
pub mod view;
pub mod workspace;
