//! Model and decisions behind a theme-conversion front end for Ableton Live
//! `.ask` theme files: the versions a theme can be converted between, the
//! list of uploaded files and the edits made to it, and what becomes of a
//! file once its conversion succeeded or failed.
pub mod decimal;
pub mod version;
pub mod ask;
pub mod conversion;
pub mod asks;
