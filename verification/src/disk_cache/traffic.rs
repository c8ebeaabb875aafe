//! How much of what is appended are promotions.

use vstd::prelude::*;

use super::disk::PROMOTION_EARN_DIVISOR;
use super::store;
use crate::disk_cache::format::CacheFormat;

verus! {

/// One record that was appended.
pub enum Traffic {
    /// A replacement, which earns tokens.
    Replaced(u64),
    /// A promotion, which spends them.
    Promoted(u64),
}

/// The promotion tokens after some traffic.
pub open spec fn tokens_after(format: &CacheFormat, traffic: Seq<Traffic>) -> int
    decreases traffic.len(),
{
    if traffic.len() == 0 {
        0
    } else {
        let before = tokens_after(format, traffic.drop_last());
        match traffic.last() {
            Traffic::Replaced(bytes) => store::earned(format, before as u64, bytes) as int,
            Traffic::Promoted(bytes) => before - bytes,
        }
    }
}

/// Every promotion was covered by the tokens at the time.
pub open spec fn affordable(format: &CacheFormat, traffic: Seq<Traffic>) -> bool
    decreases traffic.len(),
{
    if traffic.len() == 0 {
        true
    } else {
        &&& affordable(format, traffic.drop_last())
        &&& traffic.last() matches Traffic::Promoted(bytes) ==> bytes <= tokens_after(
            format,
            traffic.drop_last(),
        )
    }
}

/// The bytes of the replacements.
pub open spec fn replaced_bytes(traffic: Seq<Traffic>) -> int
    decreases traffic.len(),
{
    if traffic.len() == 0 {
        0
    } else {
        replaced_bytes(traffic.drop_last()) + match traffic.last() {
            Traffic::Replaced(bytes) => bytes as int,
            Traffic::Promoted(_) => 0,
        }
    }
}

/// The bytes of the promotions.
pub open spec fn promoted_bytes(traffic: Seq<Traffic>) -> int
    decreases traffic.len(),
{
    if traffic.len() == 0 {
        0
    } else {
        promoted_bytes(traffic.drop_last()) + match traffic.last() {
            Traffic::Replaced(_) => 0,
            Traffic::Promoted(bytes) => bytes as int,
        }
    }
}

/// Tokens are worth no more than what earned them and was not spent.
proof fn lemma_tokens_are_earned(format: &CacheFormat, traffic: Seq<Traffic>)
    requires
        format.wf(),
        affordable(format, traffic),
    ensures
        0 <= tokens_after(format, traffic) <= u64::MAX,
        PROMOTION_EARN_DIVISOR * (promoted_bytes(traffic) + tokens_after(format, traffic))
            <= replaced_bytes(traffic),
    decreases traffic.len(),
{
    if traffic.len() > 0 {
        lemma_tokens_are_earned(format, traffic.drop_last());
    }
}

/// Law: promotions make up at most an eighth of the bytes that are appended.
pub proof fn law_promotions_are_an_eighth(format: &CacheFormat, traffic: Seq<Traffic>)
    requires
        format.wf(),
        affordable(format, traffic),
    ensures
        8 * promoted_bytes(traffic) <= promoted_bytes(traffic) + replaced_bytes(traffic),
{
    lemma_tokens_are_earned(format, traffic);
}

} // verus!
