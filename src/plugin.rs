//! Sources of entries.
use vstd::prelude::*;

use crate::config::Config;
use crate::entry::{strs, ListEntry, RunFlags};

verus! {

/// A source of entries: started once with the configuration, then asked for
/// entries one at a time until it has none left.
pub trait EntryPlugin {
    /// A name for messages about this source.
    fn name(&self) -> String;

    /// Prepares the source.
    fn start(&mut self, config: &Config);

    /// The next entry, or none once the source is exhausted.
    fn next(&mut self) -> Option<ListEntry>;
}

/// A source that never yields anything.
pub struct DummyPlugin {}

impl EntryPlugin for DummyPlugin {
    fn name(&self) -> String {
        String::from_str("Dummy")
    }

    fn start(&mut self, _config: &Config) {
    }

    fn next(&mut self) -> Option<ListEntry> {
        None
    }
}

/// The entry for an executable found at `path`: no display name, the path
/// as the whole command, no flags, terms or children.
pub fn make_entry(path: String) -> (r: ListEntry)
    ensures
        r.display_name.is_none(),
        strs(r.exec_command@) == seq![path@],
        !r.exec_flags.term(),
        !r.exec_flags.fork(),
        r.search_terms@.len() == 0,
        r.children@.len() == 0,
{
    let ghost p = path@;
    let mut exec_command: Vec<String> = Vec::new();
    exec_command.push(path);
    assert(strs(exec_command@) =~= seq![p]);
    ListEntry {
        display_name: None,
        exec_command,
        exec_flags: RunFlags::new(),
        search_terms: Vec::new(),
        children: Vec::new(),
    }
}

} // verus!
