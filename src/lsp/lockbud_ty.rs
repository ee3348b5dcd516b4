//! The analysis result as the editor side reads it.
use vstd::prelude::*;

verus! {

#[derive(Hash, Eq, PartialEq, Copy, Clone, Debug, Structural)]
pub enum Suspicious {
    ChSend,
    ChRecv,
    CondVarWait,
    DoubleLock,
    ConflictLock,
}

/// The name of a kind, as its `Debug` form prints it.
pub open spec fn suspicious_name(s: Suspicious) -> Seq<char> {
    match s {
        Suspicious::ChSend => "ChSend"@,
        Suspicious::ChRecv => "ChRecv"@,
        Suspicious::CondVarWait => "CondVarWait"@,
        Suspicious::DoubleLock => "DoubleLock"@,
        Suspicious::ConflictLock => "ConflictLock"@,
    }
}

impl Suspicious {
    pub fn name(&self) -> (r: &'static str)
        ensures
            r@ == suspicious_name(*self),
    {
        match self {
            Suspicious::ChSend => "ChSend",
            Suspicious::ChRecv => "ChRecv",
            Suspicious::CondVarWait => "CondVarWait",
            Suspicious::DoubleLock => "DoubleLock",
            Suspicious::ConflictLock => "ConflictLock",
        }
    }
}

/// File name, start line and column, end line and column (1-based).
pub type RangeInFile = (String, u32, u32, u32, u32);

#[derive(Debug, Hash, PartialEq, Eq)]
pub struct SuspiciousCall {
    pub callchains: Vec<RangeInFile>,
    pub ty: Suspicious,
}

#[derive(Debug, PartialEq, Eq)]
pub struct HighlightArea {
    /// Where the cursor brings up this area.
    pub triggers: Vec<RangeInFile>,
    pub ranges: Vec<RangeInFile>,
}

#[derive(Debug, PartialEq, Eq)]
pub struct AnalysisResult {
    pub calls: Vec<SuspiciousCall>,
    pub critical_sections: Vec<HighlightArea>,
}

} // verus!
