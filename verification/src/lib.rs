//! Policy simulation library: the verified core of a sandbox in which
//! individuals, policies, metrics and rare events interact.
//!
//! - `policy`: reading policies and partial policies from YAML, and completing
//!   a partial policy from a template.
//! - `events`: when rare events start, how long they act, and which act on a tick.
//! - `metrics`: custom metric definitions, the refresh schedule, and formulas.
//! - `individual`: the plain facts about individuals, head counts, trait biases.
//! - `text`, `text_map`: text operations and a text-keyed map, with exact specifications.
//! - `yaml`: the calls into `serde_yaml`.
//! - `types`: shared enumerations.

pub mod text;
pub mod types;
pub mod text_map;
pub mod yaml;
pub mod policy;
pub mod events;
pub mod metrics;
pub mod individual;
