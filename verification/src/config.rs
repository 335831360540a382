//! Runtime configuration records and their defaulting rules.
//!
//! Parsing the configuration file is the embedding program's concern; the
//! records here hold the parsed values, and the accessors pin down exactly
//! which defaults apply when a field is absent.

use vstd::prelude::*;

verus! {

/// Scheduler-wide settings, each optional in the configuration file.
#[derive(Debug, Clone)]
pub struct SchedulerConfig {
    /// Length of one scheduling slot, in minutes.
    pub slot_interval_minutes: Option<u32>,
    /// Port the query service listens on.
    pub rest_port: Option<u16>,
    /// Where the resource inventory file lives.
    pub resources_path: Option<String>,
    /// Extensions to load, in order.
    pub extensions: Option<Vec<ExtensionConfig>>,
}

/// One configured extension.
#[derive(Debug, Clone)]
pub struct ExtensionConfig {
    /// Identifier used in diagnostics.
    pub id: String,
    /// Path of the extension library.
    pub path: String,
    /// Whether the extension is loaded at all; absent means disabled.
    pub enabled: bool,
}

impl SchedulerConfig {
    /// The slot interval, defaulting to five minutes.
    pub fn slot_interval_minutes(&self) -> (r: u32)
        ensures
            r == match self.slot_interval_minutes {
                Some(v) => v,
                None => 5u32,
            },
    {
        match self.slot_interval_minutes {
            Some(v) => v,
            None => 5,
        }
    }

    /// The query-service port, defaulting to 8080.
    pub fn rest_port(&self) -> (r: u16)
        ensures
            r == match self.rest_port {
                Some(v) => v,
                None => 8080u16,
            },
    {
        match self.rest_port {
            Some(v) => v,
            None => 8080,
        }
    }

    /// The resource inventory path, with its conventional default.
    pub fn resources_path(&self) -> (r: String)
        ensures
            match self.resources_path {
                Some(p) => r@ == p@,
                None => r@ == "config/resources.yaml"@,
            },
    {
        match &self.resources_path {
            Some(p) => p.clone(),
            None => "config/resources.yaml".to_owned(),
        }
    }

    /// The configured extensions, if any were given.
    pub fn extensions(&self) -> (r: Option<&Vec<ExtensionConfig>>)
        ensures
            r is Some <==> self.extensions is Some,
            r matches Some(v) ==> (self.extensions matches Some(w) && v@ == w@),
    {
        match &self.extensions {
            Some(v) => Some(v),
            None => None,
        }
    }
}

} // verus!
