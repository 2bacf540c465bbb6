pub mod base_bpm;
pub mod bms;
pub mod chart;
pub mod census;
pub mod channel;
pub mod contents;
pub mod delay;
pub mod error;
pub mod event;
pub mod events;
pub mod flow;
pub mod heard;
pub mod inventory;
pub mod lines;
pub mod measure;
pub mod note;
pub mod num;
pub mod ordered;
pub mod places;
pub mod position;
pub mod process;
pub mod rounding;
pub mod sorting;
pub mod tempo;
pub mod text;
pub mod time;
pub mod timeline;
pub mod y_memo;
