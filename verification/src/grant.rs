//! Which callers get a shell, and which kind.

use vstd::prelude::*;

verus! {

/// The tiers as the grants service numbers them.
pub const TIER_NONE: i32 = 0;
pub const TIER_STANDARD: i32 = 1;
pub const TIER_UNRESTRICTED: i32 = 2;

pub const UNRESTRICTED_CONTEXT: &'static str = "u:r:benzened_shell_unrestricted:s0";

#[derive(Debug, Clone, Copy, PartialEq, Eq, Structural)]
#[non_exhaustive]
pub enum Decision {
    Allow(Tier),
    DenyNotGranted,
    DenyUnknownCaller,
}

/// Ordered so a drop from Unrestricted to Standard reads as a downgrade.
#[derive(Debug, Clone, Copy, PartialEq, Eq, PartialOrd, Ord, Structural)]
#[non_exhaustive]
pub enum Tier {
    Standard,
    Unrestricted,
}

impl Tier {
    /// The place of a tier in the order of privilege.
    pub open spec fn rank(self) -> int {
        match self {
            Tier::Standard => 0,
            Tier::Unrestricted => 1,
        }
    }

    /// Whether this tier grants less than the other.
    pub fn below(self, other: Tier) -> (r: bool)
        ensures
            r == (self.rank() < other.rank()),
    {
        matches!((self, other), (Tier::Standard, Tier::Unrestricted))
    }

    /// The security context that a shell of this tier runs in, where it is
    /// not the service's default.
    pub open spec fn context(self) -> Option<Seq<char>> {
        match self {
            Tier::Standard => None,
            Tier::Unrestricted => Some(UNRESTRICTED_CONTEXT@),
        }
    }

    /// The security context that a shell of this tier runs in, where it is
    /// not the service's default.
    #[must_use]
    pub fn exec_context(self) -> (r: Option<&'static str>)
        ensures
            match r {
                Some(context) => self.context() == Some(context@),
                None => self.context() is None,
            },
    {
        match self {
            Tier::Standard => None,
            Tier::Unrestricted => Some(UNRESTRICTED_CONTEXT),
        }
    }
}

/// Where grants are looked up. An answer may change between two calls.
pub trait Source {
    fn tier(&self, uid: u32) -> Option<i32>;
}

/// What an answer about a caller means. An unrecognised tier is never treated
/// as permissive.
pub open spec fn meaning(answer: Option<i32>) -> Decision {
    match answer {
        Some(tier) => if tier == TIER_STANDARD {
            Decision::Allow(Tier::Standard)
        } else if tier == TIER_UNRESTRICTED {
            Decision::Allow(Tier::Unrestricted)
        } else {
            Decision::DenyNotGranted
        },
        None => Decision::DenyUnknownCaller,
    }
}

/// What an answer about a caller means.
pub fn interpret(answer: Option<i32>) -> (r: Decision)
    ensures
        r == meaning(answer),
{
    match answer {
        Some(tier) => if tier == TIER_STANDARD {
            Decision::Allow(Tier::Standard)
        } else if tier == TIER_UNRESTRICTED {
            Decision::Allow(Tier::Unrestricted)
        } else {
            Decision::DenyNotGranted
        },
        None => Decision::DenyUnknownCaller,
    }
}

/// Asks `source` about a caller and decides by its answer.
pub fn decide<S>(source: &S, caller_uid: u32) -> (r: Decision) where S: Source
    ensures
        exists|answer: Option<i32>| #[trigger]
            call_ensures(S::tier, (source, caller_uid), answer) && r == meaning(answer),
{
    let answer = source.tier(caller_uid);
    interpret(answer)
}

/// Only an answer that names a known tier opens a shell, and then exactly at
/// that tier.
pub proof fn lemma_only_known_tiers_allow(answer: Option<i32>)
    ensures
        meaning(answer) is Allow <==> answer == Some(TIER_STANDARD) || answer == Some(
            TIER_UNRESTRICTED,
        ),
        meaning(answer) == Decision::Allow(Tier::Standard) <==> answer == Some(TIER_STANDARD),
        meaning(answer) == Decision::Allow(Tier::Unrestricted) <==> answer == Some(
            TIER_UNRESTRICTED,
        ),
{
}

/// An unrestricted shell runs in a context of its own, and no other one does.
pub proof fn lemma_context_of_a_tier()
    ensures
        Tier::Standard.context() is None,
        Tier::Unrestricted.context() == Some(UNRESTRICTED_CONTEXT@),
        meaning(None) == Decision::DenyUnknownCaller,
        Tier::Standard.rank() < Tier::Unrestricted.rank(),
{
}

} // verus!
