//! Daily entries for a Diaryx workspace.

pub mod commands;
pub mod daily_logic;
pub mod date;
pub mod english;
pub mod entries;
pub mod files;
pub mod finding;
pub mod frontmatter;
pub mod hierarchy;
pub mod importing;
pub mod json;
pub mod keeping;
pub mod listing;
pub mod messages;
pub mod paths;
pub mod permissions;
pub mod places;
pub mod plugin;
pub mod reasons;
pub mod replay;
pub mod session;
pub mod settings;
pub mod surface;
pub mod text;
pub mod wording;
pub mod workspace;
