//! The catalog store's recovery policy: how the bytes read from durable
//! storage (or the failure to read them) become a catalog, and what may be
//! done when they are corrupt.
//!
//! Opening, reading and writing the file is the caller's business; it
//! hands in what it found and receives the decision. Silent data loss
//! never happens here: a corrupt or unreadable file always surfaces a
//! decision point.

use vstd::prelude::*;
use crate::entry::Entry;
use crate::codec::parse_catalog;
use crate::codec::decode;
use crate::entry::models;

verus! {

/// What the caller found when it tried to read the persisted catalog.
pub enum StoredFile {
    /// No file exists yet: a fresh installation, not an error.
    Missing,
    /// A file exists but its bytes could not be read.
    Unreadable,
    /// The file's bytes, read completely.
    Contents(Vec<u8>),
}

/// What the stored bytes mean.
pub enum LoadOutcome {
    /// The usable catalog: empty for a missing file, decoded otherwise.
    Catalog(Vec<Entry>),
    /// The stored data is corrupt; a `CorruptionPolicy` decision is owed
    /// before the cycle may continue.
    Corrupt,
}

/// Interpret what was read from durable storage. A missing file is an
/// empty catalog; unreadable or undecodable bytes are corruption, never a
/// silently empty catalog.
pub fn interpret_load(f: StoredFile) -> (r: LoadOutcome)
    ensures
        match f {
            StoredFile::Missing => r matches LoadOutcome::Catalog(c) && c@.len() == 0,
            StoredFile::Unreadable => r is Corrupt,
            StoredFile::Contents(b) => match parse_catalog(b@) {
                Some(s) => r matches LoadOutcome::Catalog(c) && models(c@) == s,
                None => r is Corrupt,
            },
        },
{
    match f {
        StoredFile::Missing => LoadOutcome::Catalog(Vec::new()),
        StoredFile::Unreadable => LoadOutcome::Corrupt,
        StoredFile::Contents(b) => match decode(&b) {
            Ok(c) => LoadOutcome::Catalog(c),
            Err(_) => LoadOutcome::Corrupt,
        },
    }
}

/// The configured answer to catalog corruption, decided at startup.
#[derive(Clone, Copy, Debug, PartialEq, Eq, Structural)]
pub enum CorruptionPolicy {
    /// Terminate rather than lose data.
    AbortOnCorruption,
    /// Proceed with an empty catalog; the next save overwrites the file.
    OverwriteOnCorruption,
    /// Ask the operator for an explicit yes or no.
    PromptOperator,
}

/// The decision taken at a corruption decision point.
#[derive(Clone, Copy, Debug, PartialEq, Eq, Structural)]
pub enum CorruptionDecision {
    /// Continue the cycle with an empty catalog.
    ProceedEmpty,
    /// Terminate the process without writing anything.
    Abort,
}

/// The decision a policy yields, given what the operator answered when
/// asked (ignored unless the policy is `PromptOperator`).
pub open spec fn corruption_decision(p: CorruptionPolicy, operator_accepts: bool) -> CorruptionDecision {
    match p {
        CorruptionPolicy::AbortOnCorruption => CorruptionDecision::Abort,
        CorruptionPolicy::OverwriteOnCorruption => CorruptionDecision::ProceedEmpty,
        CorruptionPolicy::PromptOperator => if operator_accepts {
            CorruptionDecision::ProceedEmpty
        } else {
            CorruptionDecision::Abort
        },
    }
}

/// Decide what to do about a corrupt catalog.
pub fn decide_on_corruption(policy: &CorruptionPolicy, operator_accepts: bool) -> (r:
    CorruptionDecision)
    ensures
        r == corruption_decision(*policy, operator_accepts),
{
    match policy {
        CorruptionPolicy::AbortOnCorruption => CorruptionDecision::Abort,
        CorruptionPolicy::OverwriteOnCorruption => CorruptionDecision::ProceedEmpty,
        CorruptionPolicy::PromptOperator => if operator_accepts {
            CorruptionDecision::ProceedEmpty
        } else {
            CorruptionDecision::Abort
        },
    }
}

/// Whether a trimmed operator answer affirms the question.
pub open spec fn yes_answer(s: Seq<u8>) -> bool {
    ||| s == seq![121u8]
    ||| s == seq![89u8]
    ||| s == seq![121u8, 101u8, 115u8]
    ||| s == seq![89u8, 101u8, 115u8]
    ||| s == seq![89u8, 69u8, 83u8]
}

/// Whether a trimmed operator answer denies the question.
pub open spec fn no_answer(s: Seq<u8>) -> bool {
    ||| s == seq![110u8]
    ||| s == seq![78u8]
    ||| s == seq![110u8, 111u8]
    ||| s == seq![78u8, 111u8]
    ||| s == seq![78u8, 79u8]
}

/// What a trimmed line of operator input means at a yes/no prompt:
/// `None` asks the caller to prompt again.
pub open spec fn answer_meaning(s: Seq<u8>) -> Option<bool> {
    if yes_answer(s) {
        Some(true)
    } else if no_answer(s) {
        Some(false)
    } else {
        None
    }
}

/// Parse one trimmed line of operator input at a yes/no prompt.
pub fn parse_answer(answer: &Vec<u8>) -> (r: Option<bool>)
    ensures
        r == answer_meaning(answer@),
{
    if answer.len() == 1 {
        let c = answer[0];
        if c == 121u8 || c == 89u8 {
            proof {
                if c == 121u8 {
                    assert(answer@ =~= seq![121u8]);
                } else {
                    assert(answer@ =~= seq![89u8]);
                }
            }
            return Some(true);
        }
        if c == 110u8 || c == 78u8 {
            proof {
                if c == 110u8 {
                    assert(answer@ =~= seq![110u8]);
                } else {
                    assert(answer@ =~= seq![78u8]);
                }
            }
            return Some(false);
        }
        return None;
    }
    if answer.len() == 2 {
        let a = answer[0];
        let b = answer[1];
        if (a == 110u8 && b == 111u8) || (a == 78u8 && b == 111u8) || (a == 78u8 && b == 79u8) {
            proof {
                assert(answer@ =~= seq![a, b]);
            }
            return Some(false);
        }
        return None;
    }
    if answer.len() == 3 {
        let a = answer[0];
        let b = answer[1];
        let c = answer[2];
        if (a == 121u8 && b == 101u8 && c == 115u8) || (a == 89u8 && b == 101u8 && c == 115u8)
            || (a == 89u8 && b == 69u8 && c == 83u8) {
            proof {
                assert(answer@ =~= seq![a, b, c]);
            }
            return Some(true);
        }
        return None;
    }
    None
}

} // verus!
