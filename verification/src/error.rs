//! The errors a one-loop reduction reports.

use vstd::prelude::*;
use vstd::string::StringExecFns;

use crate::text::{decimal, decimal_string};

verus! {

/// Why a one-loop reduction could not be carried out.
#[derive(Debug)]
pub enum OneLoopError {
    /// The input graph is not one loop.
    UnsupportedLoopOrder { found: usize },
    /// A host-side graph could not be turned into an integral family.
    ExtractionFailed { reason: String },
    /// An underlying Symbolica error surfaced during extraction.
    Symbolica(String),
}

impl OneLoopError {
    /// The text the error is reported with.
    pub open spec fn message_text(&self) -> Seq<char> {
        match self {
            OneLoopError::UnsupportedLoopOrder { found } => "unsupported loop order: graph has "@
                + decimal(*found as nat) + " loops, only one-loop is supported"@,
            OneLoopError::ExtractionFailed { reason } =>
                "failed to extract integral family from graph: "@ + reason@,
            OneLoopError::Symbolica(m) => "symbolica error: "@ + m@,
        }
    }

    /// The text the error is reported with.
    pub fn message(&self) -> (res: String)
        ensures
            res@ == self.message_text(),
    {
        let mut s = String::new();
        match self {
            OneLoopError::UnsupportedLoopOrder { found } => {
                s.append("unsupported loop order: graph has ");
                let n = decimal_string(*found as u64);
                s.append(n.as_str());
                s.append(" loops, only one-loop is supported");
            },
            OneLoopError::ExtractionFailed { reason } => {
                s.append("failed to extract integral family from graph: ");
                s.append(reason.as_str());
            },
            OneLoopError::Symbolica(m) => {
                s.append("symbolica error: ");
                s.append(m.as_str());
            },
        }
        s
    }
}

} // verus!
