//! Verified core of a RimWorld mod manager: mod metadata, SteamCMD
//! planning and output parsing, and Steam Workshop request building and
//! page/response interpretation.
pub mod text;
pub mod steamcmd;
pub mod mod_entry;
pub mod html;
pub mod json;
pub mod workshop;
pub mod images;
