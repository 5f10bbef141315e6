//! The rules behind the `kit` command: plan progress, plugin state, scenario
//! manifests and contract publishing, as functions of plain values.

pub mod calendar;
pub mod contract;
pub mod contracts;
pub mod envelope;
pub mod git;
pub mod host;
pub mod json;
pub mod lockfile;
pub mod markdown;
pub mod openapi;
pub mod openapi_source;
pub mod ordered;
pub mod path;
pub mod plan_status;
pub mod plugin_status;
pub mod publish;
pub mod scenario;
pub mod scenarios;
pub mod scenarios_yaml;
pub mod spacing;
pub mod text;
pub mod yaml;
