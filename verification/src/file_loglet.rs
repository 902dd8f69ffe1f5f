//! The file-backed loglet provider: a placeholder for a future provider
//! that serves loglets from plain files, conforming to the common loglet
//! contract.

use vstd::prelude::*;

use std::sync::Arc;

use crate::chain::LogletParams;
use crate::config::Options;

verus! {

/// Provider of file-backed loglets. No segment is served from files yet;
/// the provider exists so that chains may already name the kind.
pub struct FileLogletProvider {}

impl FileLogletProvider {
    pub fn new(_options: &Options) -> (r: Arc<Self>)
        ensures
            true,
    {
        Arc::new(Self {})
    }
}

/// A loglet stored in plain files. It keeps its configuration; serving
/// reads and appends from files is left to a future provider version.
pub struct FileLoglet {
    pub params: LogletParams,
}

impl FileLoglet {
    pub fn new(params: LogletParams) -> (r: Self)
        ensures
            r.params == params,
    {
        FileLoglet { params }
    }
}

} // verus!
