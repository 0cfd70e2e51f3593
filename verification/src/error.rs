//! Typed validation errors of the protocol.
//!
//! Every validation failure is recovered locally into a receipt carrying one
//! of these reasons; none of them aborts processing.

use vstd::prelude::*;
use crate::num::Num;
use crate::num_text::{dec_digits, spec_render};

verus! {

/// The reason an operation was rejected. Each variant carries enough context
/// (operand values, operation name) to be reported without re-deriving it.
#[derive(Debug, Clone, PartialEq, Eq)]
pub enum BRC20Error {
    /// A textual amount was not a valid bounded decimal.
    InvalidNum(String),
    /// A subtraction would have produced a negative value: `org < other`.
    Underflow { org: Num, other: Num },
    /// An exact result did not fit the machine representation, or a
    /// narrowing conversion exceeded the target's range (`other` is the
    /// largest representable value for conversions).
    Overflow { op: String, org: Num, other: Num },
    /// A deploy named a ticker that is already registered.
    DuplicateTick(String),
    /// An operation named a ticker that was never deployed.
    TickNotFound(String),
    /// A deploy's total supply was zero or above the protocol maximum.
    InvalidSupply(String),
    /// A deploy's decimal precision was above the protocol maximum.
    DecimalsTooLarge(u8),
    /// A mint or transfer amount was zero.
    InvalidAmount(String),
    /// A mint amount was above the ticker's per-mint limit.
    AmountExceedsLimit(String),
    /// A mint arrived after the ticker's supply cap was fully minted.
    SupplyExhausted(String),
    /// A debit asked for more than the balance held.
    InsufficientBalance { requested: Num, available: Num },
    /// A transfer moved an inscription that no outstanding lock matches.
    LockNotFound(String),
}

impl BRC20Error {
    /// The human-readable reason recorded on an error receipt.
    pub open spec fn spec_message(self) -> Seq<char> {
        match self {
            BRC20Error::InvalidNum(s) => "invalid number: "@ + s@,
            BRC20Error::Underflow { org, other } => "underflow: "@ + spec_render(org) + " - "@
                + spec_render(other),
            BRC20Error::Overflow { op, org, other } => "overflow in "@ + op@ + ": "@ + spec_render(
                org,
            ),
            BRC20Error::DuplicateTick(s) => "duplicate tick: "@ + s@,
            BRC20Error::TickNotFound(s) => "tick not found: "@ + s@,
            BRC20Error::InvalidSupply(s) => "invalid supply: "@ + s@,
            BRC20Error::DecimalsTooLarge(d) => "decimals too large: "@ + dec_digits(d as nat),
            BRC20Error::InvalidAmount(s) => "invalid amount: "@ + s@,
            BRC20Error::AmountExceedsLimit(s) => "amount exceeds limit: "@ + s@,
            BRC20Error::SupplyExhausted(s) => "supply exhausted: "@ + s@,
            BRC20Error::InsufficientBalance { requested, available } => "insufficient balance: "@
                + spec_render(requested) + " requested, "@ + spec_render(available) + " available"@,
            BRC20Error::LockNotFound(s) => "transferable inscription not found: "@ + s@,
        }
    }

    /// Renders the reason for a receipt's message field.
    pub fn message(&self) -> (r: String)
        ensures
            r@ == self.spec_message(),
    {
        match self {
            BRC20Error::InvalidNum(s) => String::from_str("invalid number: ").concat(s.as_str()),
            BRC20Error::Underflow { org, other } => {
                let mut m = String::from_str("underflow: ");
                m.append(org.to_string().as_str());
                m.append(" - ");
                m.append(other.to_string().as_str());
                m
            },
            BRC20Error::Overflow { op, org, other } => {
                let mut m = String::from_str("overflow in ");
                m.append(op.as_str());
                m.append(": ");
                m.append(org.to_string().as_str());
                m
            },
            BRC20Error::DuplicateTick(s) => String::from_str("duplicate tick: ").concat(s.as_str()),
            BRC20Error::TickNotFound(s) => String::from_str("tick not found: ").concat(s.as_str()),
            BRC20Error::InvalidSupply(s) => String::from_str("invalid supply: ").concat(s.as_str()),
            BRC20Error::DecimalsTooLarge(d) => {
                let n = Num { mantissa: *d as u128, scale: 0 };
                String::from_str("decimals too large: ").concat(n.to_string().as_str())
            },
            BRC20Error::InvalidAmount(s) => String::from_str("invalid amount: ").concat(s.as_str()),
            BRC20Error::AmountExceedsLimit(s) => String::from_str("amount exceeds limit: ").concat(
                s.as_str(),
            ),
            BRC20Error::SupplyExhausted(s) => String::from_str("supply exhausted: ").concat(
                s.as_str(),
            ),
            BRC20Error::InsufficientBalance { requested, available } => {
                let mut m = String::from_str("insufficient balance: ");
                m.append(requested.to_string().as_str());
                m.append(" requested, ");
                m.append(available.to_string().as_str());
                m.append(" available");
                m
            },
            BRC20Error::LockNotFound(s) => String::from_str(
                "transferable inscription not found: ",
            ).concat(s.as_str()),
        }
    }
}

} // verus!
