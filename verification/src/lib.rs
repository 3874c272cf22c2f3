//! Verified core of a DAQ-and-video telemetry pipeline: calibration
//! metadata, configuration projection, trigger detection, archive
//! partitioning, video object naming, clip planning and retention.
//!
//! The modules fall into three groups. `text`, `civil`, `names`,
//! `timestamp` and `keys` carry the exact grammars of everything the
//! pipeline writes into subjects, object keys and file paths.
//! `trigger`, `frame`, `archiver`, `clip_plan`, `worker`, `config`
//! and `calibration` hold the services' decision logic, each function
//! specified against those grammars and the services' invariants.
//! `localtime` is the one trusted boundary: the time-zone database.

pub mod archiver;
pub mod calibration;
pub mod civil;
pub mod clip_plan;
pub mod config;
pub mod frame;
pub mod keys;
pub mod localtime;
pub mod names;
pub mod text;
pub mod timestamp;
pub mod trigger;
pub mod worker;
