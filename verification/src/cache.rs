//! Per-project caches: the lowercase row-text vector and the IOC flag vector.
//! Both are rebuilt lazily; validity is judged by length against the row
//! count, and mutations invalidate them.

use vstd::prelude::*;

use crate::flags::FlagKind;

verus! {

/// The two caches of one project.
#[derive(Debug)]
pub struct ProjectCaches {
    pub row_text: Option<Vec<String>>,
    pub ioc_flags: Option<Vec<FlagKind>>,
}

impl ProjectCaches {
    /// Empty caches: nothing memoised yet.
    pub fn new() -> (r: ProjectCaches)
        ensures
            r.row_text is None,
            r.ioc_flags is None,
    {
        ProjectCaches { row_text: Option::None, ioc_flags: Option::None }
    }
}

/// Drops the row-text cache; called when the search scope changes (hidden
/// columns) and on project deletion.
pub fn clear_searchable_cache(c: &mut ProjectCaches)
    ensures
        final(c).row_text is None,
        final(c).ioc_flags == old(c).ioc_flags,
{
    c.row_text = Option::None;
}

/// Drops the IOC flag cache; called on any IOC rule mutation and on project
/// deletion.
pub fn clear_ioc_flag_cache(c: &mut ProjectCaches)
    ensures
        final(c).ioc_flags is None,
        final(c).row_text == old(c).row_text,
{
    c.ioc_flags = Option::None;
}

} // verus!
