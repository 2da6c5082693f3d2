//! The logic of the BITE image-workflow editor, verified: its session log and log viewer,
//! picture headers, thumbnail cache and ImageMagick commands, workflow-graph searches, canvas
//! selection, menu shortcuts and the other rules the editor decides by.
use vstd::prelude::*;

pub mod calendar;
pub mod text;
pub mod logging;
pub mod log_window;
pub mod timings;
pub mod header;
pub mod nodes;
pub mod font;
pub mod paths;
pub mod texture;
pub mod persist;
pub mod words;
pub mod thumbnails;
pub mod menu;
pub mod widgets;
pub mod preview;
pub mod selection;
pub mod layout;
pub mod magick;
pub mod inspector;
pub mod batch;
