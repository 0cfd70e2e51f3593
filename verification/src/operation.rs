//! The four protocol operations and their strict JSON decoding.
//!
//! A payload is one JSON object of string fields. The `p` field must name
//! the protocol, the `op` field selects the variant, and duplicate keys
//! resolve to their last occurrence. Amounts stay raw text here — malformed
//! numbers are a validation concern of the state machine, not a parse
//! error, so that they can be recorded with a precise failure reason.

use vstd::prelude::*;
use crate::json::{last_val, parse_object_pairs, lookup_last, sp_object};

verus! {

/// Registers a new ticker: symbol, total supply cap, per-mint limit and
/// decimal precision, all as written in the payload.
#[derive(Debug, Clone, PartialEq, Eq)]
pub struct Deploy {
    pub tick: String,
    pub max_supply: String,
    pub mint_limit: String,
    pub decimals: String,
}

/// Mints an amount of a ticker to the receiver, possibly qualified by a
/// pool or ticker id.
#[derive(Debug, Clone, PartialEq, Eq)]
pub struct Mint {
    pub tick: String,
    pub tick_id: Option<String>,
    pub amount: String,
}

/// Locks an amount of the sender's balance for a later transfer.
#[derive(Debug, Clone, PartialEq, Eq)]
pub struct InscribeTransfer {
    pub tick: String,
    pub amount: String,
}

/// Moves a previously inscribed transfer between addresses.
#[derive(Debug, PartialEq, Clone, Eq)]
pub struct Transfer {
    /// 10 letter identifier of the pool id, pool number not included.
    pub tick_id: String,
    /// Ticker: 4-6 letter identifier of the token.
    pub tick: String,
    /// Amount to transfer, as written in the payload.
    pub amount: String,
}

/// One decoded protocol operation.
#[derive(Debug, Clone, PartialEq, Eq)]
pub enum Operation {
    Deploy(Deploy),
    Mint(Mint),
    InscribeTransfer(InscribeTransfer),
    Transfer(Transfer),
}

/// Why a payload failed to decode. Decode failures never reach the ledger:
/// no state is read or written on this path.
#[derive(Debug, Clone, PartialEq, Eq)]
pub enum JSONError {
    /// The payload is not an object of string fields.
    InvalidJson,
    /// The payload's protocol field is missing or names another protocol.
    NotBRC30Json,
    /// The discriminant field is missing or names no known operation.
    UnknownOperation,
    /// A required field of the selected variant is missing.
    ParseOperationJsonError(String),
}

/// What decoding owes for a payload that parsed into the pairs `ps`.
pub open spec fn decoded_as(
    ps: Seq<(Seq<char>, Seq<char>)>,
    r: Result<Operation, JSONError>,
) -> bool {
    if last_val(ps, "p"@) != Some("brc20-s"@) {
        r == Err::<Operation, JSONError>(JSONError::NotBRC30Json)
    } else {
        match last_val(ps, "op"@) {
            None => r == Err::<Operation, JSONError>(JSONError::UnknownOperation),
            Some(op) => {
                if op == "deploy"@ {
                    deploy_decoded_as(ps, r)
                } else if op == "mint"@ {
                    mint_decoded_as(ps, r)
                } else if op == "inscribeTransfer"@ {
                    inscribe_decoded_as(ps, r)
                } else if op == "transfer"@ {
                    transfer_decoded_as(ps, r)
                } else {
                    r == Err::<Operation, JSONError>(JSONError::UnknownOperation)
                }
            },
        }
    }
}

/// A missing-field rejection naming the field `f`.
pub open spec fn missing_field(r: Result<Operation, JSONError>, f: Seq<char>) -> bool {
    r matches Err(JSONError::ParseOperationJsonError(m)) && m@ == "missing field `"@ + f + "`"@
}

pub open spec fn deploy_decoded_as(
    ps: Seq<(Seq<char>, Seq<char>)>,
    r: Result<Operation, JSONError>,
) -> bool {
    if last_val(ps, "tick"@) is None {
        missing_field(r, "tick"@)
    } else if last_val(ps, "max"@) is None {
        missing_field(r, "max"@)
    } else if last_val(ps, "lim"@) is None {
        missing_field(r, "lim"@)
    } else if last_val(ps, "dec"@) is None {
        missing_field(r, "dec"@)
    } else {
        r matches Ok(Operation::Deploy(d)) && Some(d.tick@) == last_val(ps, "tick"@) && Some(
            d.max_supply@,
        ) == last_val(ps, "max"@) && Some(d.mint_limit@) == last_val(ps, "lim"@) && Some(
            d.decimals@,
        ) == last_val(ps, "dec"@)
    }
}

pub open spec fn mint_decoded_as(
    ps: Seq<(Seq<char>, Seq<char>)>,
    r: Result<Operation, JSONError>,
) -> bool {
    if last_val(ps, "tick"@) is None {
        missing_field(r, "tick"@)
    } else if last_val(ps, "amt"@) is None {
        missing_field(r, "amt"@)
    } else {
        r matches Ok(Operation::Mint(m)) && Some(m.tick@) == last_val(ps, "tick"@) && Some(
            m.amount@,
        ) == last_val(ps, "amt"@) && (match m.tick_id {
            Some(t) => Some(t@) == last_val(ps, "tid"@),
            None => last_val(ps, "tid"@) is None,
        })
    }
}

pub open spec fn inscribe_decoded_as(
    ps: Seq<(Seq<char>, Seq<char>)>,
    r: Result<Operation, JSONError>,
) -> bool {
    if last_val(ps, "tick"@) is None {
        missing_field(r, "tick"@)
    } else if last_val(ps, "amt"@) is None {
        missing_field(r, "amt"@)
    } else {
        r matches Ok(Operation::InscribeTransfer(t)) && Some(t.tick@) == last_val(ps, "tick"@)
            && Some(t.amount@) == last_val(ps, "amt"@)
    }
}

pub open spec fn transfer_decoded_as(
    ps: Seq<(Seq<char>, Seq<char>)>,
    r: Result<Operation, JSONError>,
) -> bool {
    if last_val(ps, "pid"@) is None && last_val(ps, "tid"@) is None {
        missing_field(r, "pid"@)
    } else if last_val(ps, "tick"@) is None {
        missing_field(r, "tick"@)
    } else if last_val(ps, "amt"@) is None {
        missing_field(r, "amt"@)
    } else {
        r matches Ok(Operation::Transfer(t)) && (Some(t.tick_id@) == (if last_val(
            ps,
            "pid"@,
        ) is Some {
            last_val(ps, "pid"@)
        } else {
            last_val(ps, "tid"@)
        })) && Some(t.tick@) == last_val(ps, "tick"@) && Some(t.amount@) == last_val(ps, "amt"@)
    }
}

/// Builds the rejection for a missing required field `f`.
fn missing_field_err(f: &str) -> (r: JSONError)
    ensures
        r matches JSONError::ParseOperationJsonError(m) && m@ == "missing field `"@ + f@ + "`"@,
{
    let mut m = String::from_str("missing field `");
    m.append(f);
    m.append("`");
    JSONError::ParseOperationJsonError(m)
}

/// Decodes one inscription payload into a protocol operation, strictly:
/// the payload must be a JSON object of string fields for the `brc20-s`
/// protocol, the `op` field selects the variant, each variant's required
/// fields must be present, and a key written twice resolves to its **last**
/// occurrence.
pub fn deserialize_brc30(s: &str) -> (r: Result<Operation, JSONError>)
    ensures
        match sp_object(s@) {
            None => r == Err::<Operation, JSONError>(JSONError::InvalidJson),
            Some(ps) => decoded_as(ps, r),
        },
{
    let pairs = match parse_object_pairs(s) {
        Some(ps) => ps,
        None => {
            return Err(JSONError::InvalidJson);
        },
    };
    let p = match lookup_last(&pairs, &String::from_str("p")) {
        Some(v) => v,
        None => {
            return Err(JSONError::NotBRC30Json);
        },
    };
    if !p.eq(&String::from_str("brc20-s")) {
        return Err(JSONError::NotBRC30Json);
    }
    let op = match lookup_last(&pairs, &String::from_str("op")) {
        Some(v) => v,
        None => {
            return Err(JSONError::UnknownOperation);
        },
    };
    if op.eq(&String::from_str("deploy")) {
        let tick = match lookup_last(&pairs, &String::from_str("tick")) {
            Some(v) => v,
            None => {
                return Err(missing_field_err("tick"));
            },
        };
        let max_supply = match lookup_last(&pairs, &String::from_str("max")) {
            Some(v) => v,
            None => {
                return Err(missing_field_err("max"));
            },
        };
        let mint_limit = match lookup_last(&pairs, &String::from_str("lim")) {
            Some(v) => v,
            None => {
                return Err(missing_field_err("lim"));
            },
        };
        let decimals = match lookup_last(&pairs, &String::from_str("dec")) {
            Some(v) => v,
            None => {
                return Err(missing_field_err("dec"));
            },
        };
        Ok(Operation::Deploy(Deploy { tick, max_supply, mint_limit, decimals }))
    } else if op.eq(&String::from_str("mint")) {
        let tick = match lookup_last(&pairs, &String::from_str("tick")) {
            Some(v) => v,
            None => {
                return Err(missing_field_err("tick"));
            },
        };
        let amount = match lookup_last(&pairs, &String::from_str("amt")) {
            Some(v) => v,
            None => {
                return Err(missing_field_err("amt"));
            },
        };
        let tick_id = lookup_last(&pairs, &String::from_str("tid"));
        Ok(Operation::Mint(Mint { tick, tick_id, amount }))
    } else if op.eq(&String::from_str("inscribeTransfer")) {
        let tick = match lookup_last(&pairs, &String::from_str("tick")) {
            Some(v) => v,
            None => {
                return Err(missing_field_err("tick"));
            },
        };
        let amount = match lookup_last(&pairs, &String::from_str("amt")) {
            Some(v) => v,
            None => {
                return Err(missing_field_err("amt"));
            },
        };
        Ok(Operation::InscribeTransfer(InscribeTransfer { tick, amount }))
    } else if op.eq(&String::from_str("transfer")) {
        let tick_id = match lookup_last(&pairs, &String::from_str("pid")) {
            Some(v) => Some(v),
            None => lookup_last(&pairs, &String::from_str("tid")),
        };
        let tick_id = match tick_id {
            Some(v) => v,
            None => {
                return Err(missing_field_err("pid"));
            },
        };
        let tick = match lookup_last(&pairs, &String::from_str("tick")) {
            Some(v) => v,
            None => {
                return Err(missing_field_err("tick"));
            },
        };
        let amount = match lookup_last(&pairs, &String::from_str("amt")) {
            Some(v) => v,
            None => {
                return Err(missing_field_err("amt"));
            },
        };
        Ok(Operation::Transfer(Transfer { tick_id, tick, amount }))
    } else {
        Err(JSONError::UnknownOperation)
    }
}

} // verus!
