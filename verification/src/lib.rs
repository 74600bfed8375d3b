//! Funding rounds of a tip jar.
//!
//! Two kinds of rounds hand out a pool of tokens to projects. In a round of quadratic funding the
//! pool matches contributions, which count by their square roots. A round of retroactive funding
//! rewards projects for what they have done, in proportion to the votes that they get.
//!
//! An operation works on an `Invocation`: the stored entries, the time, and the list of what the
//! host is asked to do. Each operation has a counterpart in the `model` of its module that says
//! when it is refused and what it leaves behind; `effects` says what it takes and does in terms of
//! its arguments and the stored entries, and `laws`, `payout_laws`, `solvency` and `keys` say what
//! follows for the rounds as a whole.
pub mod address;
pub mod amounts;
pub mod host_list;
pub mod invocation;
pub mod quadratic_funding;
pub mod retroactive_funding;
pub mod shares;
pub mod sqrt;
pub mod table;
pub mod wide;
