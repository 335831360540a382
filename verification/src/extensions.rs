//! Records exchanged with the dynamic-extension loader.
//!
//! Loading shared libraries and driving their entry points is the embedding
//! program's concern; verified code only prepares the loader's inputs.

use vstd::prelude::*;

use crate::config::ExtensionConfig;

verus! {

/// One extension the loader should consider.
#[derive(Debug, Clone)]
pub struct ExtensionEntry {
    /// Identifier used in diagnostics.
    pub id: String,
    /// Path of the extension library.
    pub path: String,
    /// Whether the loader should load it at all.
    pub enabled: bool,
}

/// Turn configuration records into loader entries, preserving order and
/// every field.
pub fn map_extension_entries(entries: &Vec<ExtensionConfig>) -> (r: Vec<ExtensionEntry>)
    ensures
        r@.len() == entries@.len(),
        forall|i: int|
            0 <= i < r@.len() ==> {
                &&& (#[trigger] r@[i]).id@ == entries@[i].id@
                &&& r@[i].path@ == entries@[i].path@
                &&& r@[i].enabled == entries@[i].enabled
            },
{
    let n = entries.len();
    let mut out: Vec<ExtensionEntry> = Vec::new();
    let mut i: usize = 0;
    while i < n
        invariant
            i <= n,
            n == entries@.len(),
            i == out@.len(),
            forall|k: int|
                0 <= k < i ==> {
                    &&& (#[trigger] out@[k]).id@ == entries@[k].id@
                    &&& out@[k].path@ == entries@[k].path@
                    &&& out@[k].enabled == entries@[k].enabled
                },
        decreases n - i,
    {
        let entry = ExtensionEntry {
            id: entries[i].id.clone(),
            path: entries[i].path.clone(),
            enabled: entries[i].enabled,
        };
        out.push(entry);
        i = i + 1;
    }
    out
}

} // verus!
