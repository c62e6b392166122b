//! Verified core of the Kite ground-control video and vehicle-control paths: the Annex-B framing
//! and parameter-set tracking of the hardware decode sink, its per-frame decisions, presentation
//! pacing and output bookkeeping, the surface model the frontend publishes, the per-window host
//! tables, the aspect-locked resize geometry, and the MAVLink command-acknowledgement rules.

pub mod annexb;
pub mod apple_host;
pub mod sink_outputs;
pub mod apple_sink;
pub mod control;
pub mod decode_step;
pub mod linux_host;
pub mod surface;
pub mod video_commands;
pub mod win_aspect;
