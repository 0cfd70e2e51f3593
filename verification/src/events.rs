//! Client-facing event payloads: each receipt reshaped into the flat,
//! typed record that the query surface serves, grouped by transaction and
//! by block.

use vstd::prelude::*;
use crate::engine::{Event, OperationType, Receipt};
use crate::ledger::ScriptPubkey;
use crate::num_text::spec_render;

verus! {

/// One event of a transaction: a successful operation of any of the four
/// kinds, or the failure record of one.
#[derive(Debug, PartialEq, Eq)]
pub enum TxEvent {
    /// Event generated by a deployed ticker.
    Deploy(DeployEvent),
    /// Event generated by minting.
    Mint(MintEvent),
    /// Event generated by a pretransfer.
    InscribeTransfer(InscribeTransferEvent),
    /// Event generated by a transfer.
    Transfer(TransferEvent),
    /// Event generated when the execution has failed.
    Error(ErrorEvent),
}

/// The failure record of an operation.
#[derive(Debug, PartialEq, Eq)]
pub struct ErrorEvent {
    /// Event type.
    pub event: String,
    /// The inscription id.
    pub inscription_id: String,
    /// The inscription number.
    pub inscription_number: i64,
    /// The inscription satpoint of the transaction input.
    pub old_satpoint: String,
    /// The inscription satpoint of the transaction output.
    pub new_satpoint: String,
    /// The message sender which is an address or script pubkey hash.
    pub from: ScriptPubkey,
    /// The message receiver which is an address or script pubkey hash.
    pub to: ScriptPubkey,
    /// Executed state.
    pub valid: bool,
    /// Error message.
    pub msg: String,
}

/// The record of a successful deploy.
#[derive(Debug, PartialEq, Eq)]
pub struct DeployEvent {
    /// Event type.
    pub event: String,
    /// The ticker deployed.
    pub tick: String,
    /// The inscription id.
    pub inscription_id: String,
    /// The inscription number.
    pub inscription_number: i64,
    /// The inscription satpoint of the transaction input.
    pub old_satpoint: String,
    /// The inscription satpoint of the transaction output.
    pub new_satpoint: String,
    /// The total supply of the deployed ticker.
    pub supply: String,
    /// The limit per mint of the deployed ticker.
    pub limit_per_mint: String,
    /// The decimal of the deployed ticker.
    pub decimal: u8,
    /// The message sender which is an address or script pubkey hash.
    pub from: ScriptPubkey,
    /// The message receiver which is an address or script pubkey hash.
    pub to: ScriptPubkey,
    /// Executed state.
    pub valid: bool,
    /// Message generated during execution.
    pub msg: String,
}

/// The record of a successful mint.
#[derive(Debug, PartialEq, Eq)]
pub struct MintEvent {
    /// Event type.
    pub event: String,
    /// The ticker minted.
    pub tick: String,
    /// The inscription id.
    pub inscription_id: String,
    /// The inscription number.
    pub inscription_number: i64,
    /// The inscription satpoint of the transaction input.
    pub old_satpoint: String,
    /// The inscription satpoint of the transaction output.
    pub new_satpoint: String,
    /// The amount minted.
    pub amount: String,
    /// The message sender which is an address or script pubkey hash.
    pub from: ScriptPubkey,
    /// The message receiver which is an address or script pubkey hash.
    pub to: ScriptPubkey,
    /// Executed state.
    pub valid: bool,
    /// Message generated during execution.
    pub msg: String,
}

/// The record of a successful pretransfer.
#[derive(Debug, PartialEq, Eq)]
pub struct InscribeTransferEvent {
    /// Event type.
    pub event: String,
    /// The ticker of the pretransfer.
    pub tick: String,
    /// The inscription id.
    pub inscription_id: String,
    /// The inscription number.
    pub inscription_number: i64,
    /// The inscription satpoint of the transaction input.
    pub old_satpoint: String,
    /// The inscription satpoint of the transaction output.
    pub new_satpoint: String,
    /// The amount of the pretransfer.
    pub amount: String,
    /// The message sender which is an address or script pubkey hash.
    pub from: ScriptPubkey,
    /// The message receiver which is an address or script pubkey hash.
    pub to: ScriptPubkey,
    /// Executed state.
    pub valid: bool,
    /// Message generated during execution.
    pub msg: String,
}

/// The record of a successful transfer.
#[derive(Debug, PartialEq, Eq)]
pub struct TransferEvent {
    /// Event type.
    pub event: String,
    /// The ticker of the transfer.
    pub tick: String,
    /// The inscription id.
    pub inscription_id: String,
    /// The inscription number.
    pub inscription_number: i64,
    /// The inscription satpoint of the transaction input.
    pub old_satpoint: String,
    /// The inscription satpoint of the transaction output.
    pub new_satpoint: String,
    /// The amount of the transfer.
    pub amount: String,
    /// The message sender which is an address or script pubkey hash.
    pub from: ScriptPubkey,
    /// The message receiver which is an address or script pubkey hash.
    pub to: ScriptPubkey,
    /// Executed state.
    pub valid: bool,
    /// Message generated during execution.
    pub msg: String,
}

/// All events of one transaction.
#[derive(Debug, PartialEq, Eq)]
pub struct TxEvents {
    pub events: Vec<TxEvent>,
    pub txid: String,
}

/// All per-transaction event groups of one block.
#[derive(Debug, PartialEq, Eq)]
pub struct BlockEvents {
    pub block: Vec<TxEvents>,
}

/// The wire name of an operation kind.
pub open spec fn op_name(ot: OperationType) -> Seq<char> {
    match ot {
        OperationType::Deploy => "deploy"@,
        OperationType::Mint => "mint"@,
        OperationType::InscribeTransfer => "inscribeTransfer"@,
        OperationType::Transfer => "transfer"@,
    }
}

/// The context fields every projected event echoes from its receipt.
pub open spec fn echoes_context(
    inscription_id: Seq<char>,
    inscription_number: i64,
    old_satpoint: Seq<char>,
    new_satpoint: Seq<char>,
    from: Seq<char>,
    to: Seq<char>,
    r: Receipt,
) -> bool {
    &&& inscription_id == r.inscription_id@
    &&& inscription_number == r.inscription_number
    &&& old_satpoint == r.old_satpoint@
    &&& new_satpoint == r.new_satpoint@
    &&& from == r.from.script@
    &&& to == r.to.script@
}

/// What the projection of a receipt into a client-facing event owes: the
/// context echoed, amounts rendered as canonical decimal text, a marked
/// event kind, `valid` reflecting the outcome, and the failure reason — or
/// "ok" — as the message.
pub open spec fn is_projection(r: Receipt, e: TxEvent) -> bool {
    match r.result {
        Ok(Event::Deploy(d)) => e matches TxEvent::Deploy(de) && de.event@ == "deploy"@
            && de.tick@ == d.tick@ && de.supply@ == spec_render(d.supply) && de.limit_per_mint@
            == spec_render(d.limit_per_mint) && de.decimal == d.decimal && de.valid == true
            && de.msg@ == "ok"@ && echoes_context(
            de.inscription_id@,
            de.inscription_number,
            de.old_satpoint@,
            de.new_satpoint@,
            de.from.script@,
            de.to.script@,
            r,
        ),
        Ok(Event::Mint(m)) => e matches TxEvent::Mint(me) && me.event@ == "mint"@ && me.tick@
            == m.tick@ && me.amount@ == spec_render(m.amount) && me.valid == true && (match m.msg {
            Some(s) => me.msg@ == s@,
            None => me.msg@ == "ok"@,
        }) && echoes_context(
            me.inscription_id@,
            me.inscription_number,
            me.old_satpoint@,
            me.new_satpoint@,
            me.from.script@,
            me.to.script@,
            r,
        ),
        Ok(Event::InscribeTransfer(t)) => e matches TxEvent::InscribeTransfer(te) && te.event@
            == "inscribeTransfer"@ && te.tick@ == t.tick@ && te.amount@ == spec_render(t.amount)
            && te.valid == true && te.msg@ == "ok"@ && echoes_context(
            te.inscription_id@,
            te.inscription_number,
            te.old_satpoint@,
            te.new_satpoint@,
            te.from.script@,
            te.to.script@,
            r,
        ),
        Ok(Event::Transfer(t)) => e matches TxEvent::Transfer(te) && te.event@ == "transfer"@
            && te.tick@ == t.tick@ && te.amount@ == spec_render(t.amount) && te.valid == true && (
        match t.msg {
            Some(s) => te.msg@ == s@,
            None => te.msg@ == "ok"@,
        }) && echoes_context(
            te.inscription_id@,
            te.inscription_number,
            te.old_satpoint@,
            te.new_satpoint@,
            te.from.script@,
            te.to.script@,
            r,
        ),
        Err(err) => e matches TxEvent::Error(ee) && ee.event@ == op_name(r.op) && ee.valid == false
            && ee.msg@ == err.spec_message() && echoes_context(
            ee.inscription_id@,
            ee.inscription_number,
            ee.old_satpoint@,
            ee.new_satpoint@,
            ee.from.script@,
            ee.to.script@,
            r,
        ),
    }
}

impl TxEvent {
    /// Projects one receipt into its client-facing event, exactly as
    /// `is_projection` prescribes.
    pub fn from(event: &Receipt) -> (r: TxEvent)
        ensures
            is_projection(*event, r),
    {
        let inscription_id = event.inscription_id.clone();
        let inscription_number = event.inscription_number;
        let old_satpoint = event.old_satpoint.clone();
        let new_satpoint = event.new_satpoint.clone();
        let from = ScriptPubkey { script: event.from.script.clone() };
        let to = ScriptPubkey { script: event.to.script.clone() };
        match &event.result {
            Ok(Event::Deploy(d)) => TxEvent::Deploy(
                DeployEvent {
                    event: String::from_str("deploy"),
                    tick: d.tick.clone(),
                    inscription_id,
                    inscription_number,
                    old_satpoint,
                    new_satpoint,
                    supply: d.supply.to_string(),
                    limit_per_mint: d.limit_per_mint.to_string(),
                    decimal: d.decimal,
                    from,
                    to,
                    valid: true,
                    msg: String::from_str("ok"),
                },
            ),
            Ok(Event::Mint(m)) => TxEvent::Mint(
                MintEvent {
                    event: String::from_str("mint"),
                    tick: m.tick.clone(),
                    inscription_id,
                    inscription_number,
                    old_satpoint,
                    new_satpoint,
                    amount: m.amount.to_string(),
                    from,
                    to,
                    valid: true,
                    msg: match &m.msg {
                        Some(s) => s.clone(),
                        None => String::from_str("ok"),
                    },
                },
            ),
            Ok(Event::InscribeTransfer(t)) => TxEvent::InscribeTransfer(
                InscribeTransferEvent {
                    event: String::from_str("inscribeTransfer"),
                    tick: t.tick.clone(),
                    inscription_id,
                    inscription_number,
                    old_satpoint,
                    new_satpoint,
                    amount: t.amount.to_string(),
                    from,
                    to,
                    valid: true,
                    msg: String::from_str("ok"),
                },
            ),
            Ok(Event::Transfer(t)) => TxEvent::Transfer(
                TransferEvent {
                    event: String::from_str("transfer"),
                    tick: t.tick.clone(),
                    inscription_id,
                    inscription_number,
                    old_satpoint,
                    new_satpoint,
                    amount: t.amount.to_string(),
                    from,
                    to,
                    valid: true,
                    msg: match &t.msg {
                        Some(s) => s.clone(),
                        None => String::from_str("ok"),
                    },
                },
            ),
            Err(err) => TxEvent::Error(
                ErrorEvent {
                    event: match event.op {
                        OperationType::Deploy => String::from_str("deploy"),
                        OperationType::Mint => String::from_str("mint"),
                        OperationType::InscribeTransfer => String::from_str("inscribeTransfer"),
                        OperationType::Transfer => String::from_str("transfer"),
                    },
                    inscription_id,
                    inscription_number,
                    old_satpoint,
                    new_satpoint,
                    from,
                    to,
                    valid: false,
                    msg: err.message(),
                },
            ),
        }
    }
}

impl TxEvents {
    /// Projects all receipts of one transaction, in order.
    pub fn from_receipts(txid: &String, receipts: &Vec<Receipt>) -> (r: TxEvents)
        ensures
            r.txid@ == txid@,
            r.events@.len() == receipts@.len(),
            forall|i: int|
                0 <= i < receipts@.len() ==> is_projection(receipts@[i], #[trigger] r.events@[i]),
    {
        let mut events: Vec<TxEvent> = Vec::new();
        let mut i: usize = 0;
        while i < receipts.len()
            invariant
                i <= receipts@.len(),
                events@.len() == i,
                forall|j: int|
                    0 <= j < i ==> is_projection(receipts@[j], #[trigger] events@[j]),
            decreases receipts@.len() - i,
        {
            events.push(TxEvent::from(&receipts[i]));
            i = i + 1;
        }
        TxEvents { events, txid: txid.clone() }
    }
}

impl BlockEvents {
    /// Projects all receipts of one block, transaction group by
    /// transaction group, in order.
    pub fn from_block(entries: &Vec<(String, Vec<Receipt>)>) -> (r: BlockEvents)
        ensures
            r.block@.len() == entries@.len(),
            forall|i: int|
                0 <= i < entries@.len() ==> {
                    &&& (#[trigger] r.block@[i]).txid@ == entries@[i].0@
                    &&& r.block@[i].events@.len() == entries@[i].1@.len()
                    &&& forall|j: int|
                        0 <= j < entries@[i].1@.len() ==> is_projection(
                            entries@[i].1@[j],
                            #[trigger] r.block@[i].events@[j],
                        )
                },
    {
        let mut block: Vec<TxEvents> = Vec::new();
        let mut i: usize = 0;
        while i < entries.len()
            invariant
                i <= entries@.len(),
                block@.len() == i,
                forall|k: int|
                    0 <= k < i ==> {
                        &&& (#[trigger] block@[k]).txid@ == entries@[k].0@
                        &&& block@[k].events@.len() == entries@[k].1@.len()
                        &&& forall|j: int|
                            0 <= j < entries@[k].1@.len() ==> is_projection(
                                entries@[k].1@[j],
                                #[trigger] block@[k].events@[j],
                            )
                    },
            decreases entries@.len() - i,
        {
            let group = TxEvents::from_receipts(&entries[i].0, &entries[i].1);
            block.push(group);
            i = i + 1;
        }
        BlockEvents { block }
    }
}

} // verus!
