//! Timeline, edit-history and session model of the snd-review audio editor.

pub mod edit_op;
pub mod edit_ranges;
pub mod text;
pub mod session;
pub mod transport;
pub mod playhead;
pub mod buffer;
pub mod selection;
pub mod commands;
pub mod labels;
pub mod pcm;
pub mod script;
pub mod rfc3339;
pub mod markers;
pub mod clip;
pub mod tree;
pub mod edl;
pub mod media;
pub mod composition;
pub mod open_url;
pub mod paths;
pub mod multi_select;
pub mod anchors;
pub mod rates;
pub mod document;
pub mod keymap;
pub mod flac;
pub mod playback;
pub mod snap;
pub mod explorer;
pub mod block_cache;
pub mod readout;
pub mod progress;
