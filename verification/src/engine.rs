//! The protocol state machine: validates one decoded operation against the
//! ledger, applies its balance delta, and emits an immutable receipt.
//!
//! The whole transition is specified by the spec-level function
//! [`spec_apply`]: the executable [`Ledger::apply`] returns exactly the
//! state and receipt it prescribes, so any two replays of the same
//! operation sequence from the same state end in the same state with the
//! same receipts. A failed validation leaves the ledger untouched — there
//! is no partial application.

use vstd::prelude::*;
use crate::error::BRC20Error;
use crate::ledger::{
    bal_idx, find_balance, find_lock, find_ticker, lemma_bal_idx_props, lemma_lock_idx_props,
    lemma_ticker_idx_props, lock_idx, ticker_idx, Balance, BalanceV, Ledger, LedgerV, LockV,
    ledger_num, ScriptPubkey, TickerRecord, TickerV, TransferLock,
};
use crate::num::{
    canon, lemma_canon_le, lemma_canon_value, spec_add, spec_int_part, spec_lt, spec_sub, Num,
    MAX_DECIMAL_WIDTH,
};
use crate::num_text::spec_parse_dec;
use crate::operation::{Deploy, InscribeTransfer, Mint, Operation, Transfer};

verus! {

/// The kind of an operation, kept on every receipt so that failures still
/// name what was attempted.
#[derive(Debug, Clone, Copy, PartialEq, Eq, Structural)]
pub enum OperationType {
    Deploy,
    Mint,
    InscribeTransfer,
    Transfer,
}

/// Where an operation came from: the inscription's identity, its movement,
/// and the two parties.
#[derive(Debug, Clone, PartialEq, Eq)]
pub struct Context {
    pub inscription_id: String,
    pub inscription_number: i64,
    pub old_satpoint: String,
    pub new_satpoint: String,
    pub from: ScriptPubkey,
    pub to: ScriptPubkey,
}

/// What a successful deploy recorded.
#[derive(Debug, Clone, PartialEq, Eq)]
pub struct DeployData {
    pub tick: String,
    pub supply: Num,
    pub limit_per_mint: Num,
    pub decimal: u8,
}

/// What a successful mint recorded: `amount` is what was actually credited,
/// which may be the truncated remainder of the supply.
#[derive(Debug, Clone, PartialEq, Eq)]
pub struct MintData {
    pub tick: String,
    pub amount: Num,
    pub msg: Option<String>,
}

/// What a successful inscribed transfer recorded.
#[derive(Debug, Clone, PartialEq, Eq)]
pub struct InscribeTransferData {
    pub tick: String,
    pub amount: Num,
}

/// What a successful transfer recorded.
#[derive(Debug, Clone, PartialEq, Eq)]
pub struct TransferData {
    pub tick: String,
    pub amount: Num,
    pub msg: Option<String>,
}

/// A successful operation's typed outcome.
#[derive(Debug, Clone, PartialEq, Eq)]
pub enum Event {
    Deploy(DeployData),
    Mint(MintData),
    InscribeTransfer(InscribeTransferData),
    Transfer(TransferData),
}

/// The immutable record of one processed inscription: its identity and
/// movement, the parties, the operation kind, and either the typed event or
/// the typed reason it was rejected.
#[derive(Debug, PartialEq, Eq)]
pub struct Receipt {
    pub inscription_id: String,
    pub inscription_number: i64,
    pub old_satpoint: String,
    pub new_satpoint: String,
    pub from: ScriptPubkey,
    pub to: ScriptPubkey,
    pub op: OperationType,
    pub result: Result<Event, BRC20Error>,
}

/// Specification twin of [`Context`].
pub struct CtxV {
    pub inscription_id: Seq<char>,
    pub from: Seq<char>,
    pub to: Seq<char>,
}

impl View for Context {
    type V = CtxV;

    open spec fn view(&self) -> CtxV {
        CtxV {
            inscription_id: self.inscription_id@,
            from: self.from.script@,
            to: self.to.script@,
        }
    }
}

/// Specification twin of [`Operation`].
pub enum OpV {
    Deploy { tick: Seq<char>, max: Seq<char>, lim: Seq<char>, dec: Seq<char> },
    Mint { tick: Seq<char>, tid: Option<Seq<char>>, amt: Seq<char> },
    InscribeTransfer { tick: Seq<char>, amt: Seq<char> },
    Transfer { tid: Seq<char>, tick: Seq<char>, amt: Seq<char> },
}

impl View for Operation {
    type V = OpV;

    open spec fn view(&self) -> OpV {
        match self {
            Operation::Deploy(d) => OpV::Deploy {
                tick: d.tick@,
                max: d.max_supply@,
                lim: d.mint_limit@,
                dec: d.decimals@,
            },
            Operation::Mint(m) => OpV::Mint {
                tick: m.tick@,
                tid: match m.tick_id {
                    Some(t) => Some(t@),
                    None => None,
                },
                amt: m.amount@,
            },
            Operation::InscribeTransfer(t) => OpV::InscribeTransfer {
                tick: t.tick@,
                amt: t.amount@,
            },
            Operation::Transfer(t) => OpV::Transfer {
                tid: t.tick_id@,
                tick: t.tick@,
                amt: t.amount@,
            },
        }
    }
}

/// The operation kind a decoded operation belongs to.
pub open spec fn op_type_of(op: OpV) -> OperationType {
    match op {
        OpV::Deploy { .. } => OperationType::Deploy,
        OpV::Mint { .. } => OperationType::Mint,
        OpV::InscribeTransfer { .. } => OperationType::InscribeTransfer,
        OpV::Transfer { .. } => OperationType::Transfer,
    }
}

/// Specification twin of [`BRC20Error`].
pub enum ErrV {
    InvalidNum(Seq<char>),
    Underflow { org: Num, other: Num },
    Overflow { op: Seq<char>, org: Num, other: Num },
    DuplicateTick(Seq<char>),
    TickNotFound(Seq<char>),
    InvalidSupply(Seq<char>),
    DecimalsTooLarge(u8),
    InvalidAmount(Seq<char>),
    AmountExceedsLimit(Seq<char>),
    SupplyExhausted(Seq<char>),
    InsufficientBalance { requested: Num, available: Num },
    LockNotFound(Seq<char>),
}

impl View for BRC20Error {
    type V = ErrV;

    open spec fn view(&self) -> ErrV {
        match self {
            BRC20Error::InvalidNum(s) => ErrV::InvalidNum(s@),
            BRC20Error::Underflow { org, other } => ErrV::Underflow { org: *org, other: *other },
            BRC20Error::Overflow { op, org, other } => ErrV::Overflow {
                op: op@,
                org: *org,
                other: *other,
            },
            BRC20Error::DuplicateTick(s) => ErrV::DuplicateTick(s@),
            BRC20Error::TickNotFound(s) => ErrV::TickNotFound(s@),
            BRC20Error::InvalidSupply(s) => ErrV::InvalidSupply(s@),
            BRC20Error::DecimalsTooLarge(d) => ErrV::DecimalsTooLarge(*d),
            BRC20Error::InvalidAmount(s) => ErrV::InvalidAmount(s@),
            BRC20Error::AmountExceedsLimit(s) => ErrV::AmountExceedsLimit(s@),
            BRC20Error::SupplyExhausted(s) => ErrV::SupplyExhausted(s@),
            BRC20Error::InsufficientBalance { requested, available } => ErrV::InsufficientBalance {
                requested: *requested,
                available: *available,
            },
            BRC20Error::LockNotFound(s) => ErrV::LockNotFound(s@),
        }
    }
}

/// Specification twin of [`Event`].
pub enum EventV {
    Deploy { tick: Seq<char>, supply: Num, limit_per_mint: Num, decimal: u8 },
    Mint { tick: Seq<char>, amount: Num, msg: Option<Seq<char>> },
    InscribeTransfer { tick: Seq<char>, amount: Num },
    Transfer { tick: Seq<char>, amount: Num, msg: Option<Seq<char>> },
}

impl View for Event {
    type V = EventV;

    open spec fn view(&self) -> EventV {
        match self {
            Event::Deploy(d) => EventV::Deploy {
                tick: d.tick@,
                supply: d.supply,
                limit_per_mint: d.limit_per_mint,
                decimal: d.decimal,
            },
            Event::Mint(m) => EventV::Mint {
                tick: m.tick@,
                amount: m.amount,
                msg: match m.msg {
                    Some(s) => Some(s@),
                    None => None,
                },
            },
            Event::InscribeTransfer(t) => EventV::InscribeTransfer {
                tick: t.tick@,
                amount: t.amount,
            },
            Event::Transfer(t) => EventV::Transfer {
                tick: t.tick@,
                amount: t.amount,
                msg: match t.msg {
                    Some(s) => Some(s@),
                    None => None,
                },
            },
        }
    }
}

/// The view of an operation's outcome.
pub open spec fn result_view(r: Result<Event, BRC20Error>) -> Result<EventV, ErrV> {
    match r {
        Ok(e) => Ok(e@),
        Err(e) => Err(e@),
    }
}

/// The canonical decimal a textual amount denotes, or `InvalidNum` echoing
/// the text — exactly what `Num::from_str` computes.
pub open spec fn num_of_text(t: Seq<char>) -> Result<Num, ErrV> {
    match spec_parse_dec(t) {
        Some(p) => if p.1 <= MAX_DECIMAL_WIDTH && canon(p.0, p.1).0 <= u128::MAX {
            Ok(Num { mantissa: canon(p.0, p.1).0 as u128, scale: canon(p.0, p.1).1 as u32 })
        } else {
            Err(ErrV::InvalidNum(t))
        },
        None => Err(ErrV::InvalidNum(t)),
    }
}

/// Exact addition with its failure, as `Num::checked_add` reports it.
pub open spec fn add_r(a: Num, b: Num) -> Result<Num, ErrV> {
    match spec_add(a, b) {
        Some(c) => Ok(c),
        None => Err(ErrV::Overflow { op: "checked_add"@, org: a, other: b }),
    }
}

/// Exact subtraction with its failures, as `Num::checked_sub` reports them.
pub open spec fn sub_r(a: Num, b: Num) -> Result<Num, ErrV> {
    match spec_sub(a, b) {
        Some(c) => Ok(c),
        None => if spec_lt(a, b) {
            Err(ErrV::Underflow { org: a, other: b })
        } else {
            Err(ErrV::Overflow { op: "checked_sub"@, org: a, other: b })
        },
    }
}

pub open spec fn zero_num() -> Num {
    Num { mantissa: 0, scale: 0 }
}

/// The balances of `(tick, addr)`, both zero when no entry exists yet.
pub open spec fn bal_of(bs: Seq<BalanceV>, tick: Seq<char>, addr: Seq<char>) -> (Num, Num) {
    match bal_idx(bs, tick, addr) {
        Some(i) => (bs[i].available, bs[i].transferable),
        None => (zero_num(), zero_num()),
    }
}

/// Balances with the entry for `(tick, addr)` set to the given pair —
/// updated in place when present, appended when new.
pub open spec fn bal_set(
    bs: Seq<BalanceV>,
    tick: Seq<char>,
    addr: Seq<char>,
    available: Num,
    transferable: Num,
) -> Seq<BalanceV> {
    match bal_idx(bs, tick, addr) {
        Some(i) => bs.update(i, BalanceV { tick, address: addr, available, transferable }),
        None => bs.push(BalanceV { tick, address: addr, available, transferable }),
    }
}

/// The transition for a deploy, per the registry's rules: a fresh symbol,
/// a non-zero supply whose whole part fits 64 bits, a decimal precision of
/// at most `MAX_DECIMAL_WIDTH`, and a parsable limit register the ticker;
/// anything else rejects it and leaves the state as it was.
pub open spec fn spec_deploy(
    l: LedgerV,
    tick: Seq<char>,
    max: Seq<char>,
    lim: Seq<char>,
    dec: Seq<char>,
    ctx: CtxV,
) -> (LedgerV, Result<EventV, ErrV>) {
    if ticker_idx(l.tickers, tick) is Some {
        (l, Err(ErrV::DuplicateTick(tick)))
    } else {
        match num_of_text(max) {
            Err(e) => (l, Err(e)),
            Ok(supply) => if supply.mantissa == 0 {
                (l, Err(ErrV::InvalidSupply(max)))
            } else if spec_int_part(supply) > u64::MAX {
                (l, Err(ErrV::InvalidSupply(max)))
            } else {
                match num_of_text(dec) {
                    Err(e) => (l, Err(e)),
                    Ok(d) => if spec_int_part(d) > 255 {
                        (
                            l,
                            Err(
                                ErrV::Overflow {
                                    op: "to_u8"@,
                                    org: d,
                                    other: Num { mantissa: 255, scale: 0 },
                                },
                            ),
                        )
                    } else if spec_int_part(d) > MAX_DECIMAL_WIDTH {
                        (l, Err(ErrV::DecimalsTooLarge(spec_int_part(d) as u8)))
                    } else {
                        match num_of_text(lim) {
                            Err(e) => (l, Err(e)),
                            Ok(limit) => {
                                let t = TickerV {
                                    tick,
                                    supply,
                                    limit_per_mint: limit,
                                    decimal: spec_int_part(d) as u8,
                                    deploy_by: ctx.from,
                                    deploy_inscription: ctx.inscription_id,
                                    minted: zero_num(),
                                };
                                (
                                    LedgerV {
                                        tickers: l.tickers.push(t),
                                        balances: l.balances,
                                        locks: l.locks,
                                    },
                                    Ok(
                                        EventV::Deploy {
                                            tick,
                                            supply,
                                            limit_per_mint: limit,
                                            decimal: spec_int_part(d) as u8,
                                        },
                                    ),
                                )
                            },
                        }
                    },
                }
            },
        }
    }
}

/// The transition for a mint: the ticker must exist, the amount must be a
/// non-zero decimal at or below the per-mint limit, and some supply must
/// remain. A request beyond the remaining supply mints the remainder and
/// still succeeds — the protocol's partial-mint policy. The receiver's
/// available balance and the ticker's minted total grow by what was
/// actually minted.
pub open spec fn spec_mint(l: LedgerV, tick: Seq<char>, amt_text: Seq<char>, ctx: CtxV) -> (
    LedgerV,
    Result<EventV, ErrV>,
) {
    match ticker_idx(l.tickers, tick) {
        None => (l, Err(ErrV::TickNotFound(tick))),
        Some(ti) => {
            let t = l.tickers[ti];
            match num_of_text(amt_text) {
                Err(e) => (l, Err(e)),
                Ok(amt) => if amt.mantissa == 0 {
                    (l, Err(ErrV::InvalidAmount(amt_text)))
                } else if spec_lt(t.limit_per_mint, amt) {
                    (l, Err(ErrV::AmountExceedsLimit(amt_text)))
                } else {
                    match sub_r(t.supply, t.minted) {
                        Err(e) => (l, Err(e)),
                        Ok(remaining) => if remaining.mantissa == 0 {
                            (l, Err(ErrV::SupplyExhausted(tick)))
                        } else {
                            let actual = if spec_lt(remaining, amt) {
                                remaining
                            } else {
                                amt
                            };
                            match add_r(t.minted, actual) {
                                Err(e) => (l, Err(e)),
                                Ok(minted2) => {
                                    let avail = bal_of(l.balances, tick, ctx.to).0;
                                    let transf = bal_of(l.balances, tick, ctx.to).1;
                                    match add_r(avail, actual) {
                                        Err(e) => (l, Err(e)),
                                        Ok(avail2) => (
                                            LedgerV {
                                                tickers: l.tickers.update(
                                                    ti,
                                                    TickerV { minted: minted2, ..t },
                                                ),
                                                balances: bal_set(
                                                    l.balances,
                                                    tick,
                                                    ctx.to,
                                                    avail2,
                                                    transf,
                                                ),
                                                locks: l.locks,
                                            },
                                            Ok(
                                                EventV::Mint {
                                                    tick,
                                                    amount: actual,
                                                    msg: None,
                                                },
                                            ),
                                        ),
                                    }
                                },
                            }
                        },
                    }
                },
            }
        },
    }
}

/// The transition for an inscribed transfer: the ticker must exist and the
/// non-zero amount must be within the sender's available balance; it then
/// moves from available to transferable and a lock bound to this
/// inscription is created.
pub open spec fn spec_inscribe_transfer(
    l: LedgerV,
    tick: Seq<char>,
    amt_text: Seq<char>,
    ctx: CtxV,
) -> (LedgerV, Result<EventV, ErrV>) {
    match ticker_idx(l.tickers, tick) {
        None => (l, Err(ErrV::TickNotFound(tick))),
        Some(ti) => {
            match num_of_text(amt_text) {
                Err(e) => (l, Err(e)),
                Ok(amt) => if amt.mantissa == 0 {
                    (l, Err(ErrV::InvalidAmount(amt_text)))
                } else {
                    let avail = bal_of(l.balances, tick, ctx.from).0;
                    let transf = bal_of(l.balances, tick, ctx.from).1;
                    if spec_lt(avail, amt) {
                        (l, Err(ErrV::InsufficientBalance { requested: amt, available: avail }))
                    } else {
                        match sub_r(avail, amt) {
                            Err(e) => (l, Err(e)),
                            Ok(avail2) => match add_r(transf, amt) {
                                Err(e) => (l, Err(e)),
                                Ok(transf2) => (
                                    LedgerV {
                                        tickers: l.tickers,
                                        balances: bal_set(
                                            l.balances,
                                            tick,
                                            ctx.from,
                                            avail2,
                                            transf2,
                                        ),
                                        locks: l.locks.push(
                                            LockV {
                                                inscription_id: ctx.inscription_id,
                                                tick,
                                                owner: ctx.from,
                                                amount: amt,
                                            },
                                        ),
                                    },
                                    Ok(EventV::InscribeTransfer { tick, amount: amt }),
                                ),
                            },
                        }
                    }
                },
            }
        },
    }
}

/// The transition for a transfer: the moving inscription must carry an
/// outstanding lock; its amount then leaves the sender's transferable
/// balance for the receiver's available balance, and the lock is consumed
/// — exactly once.
pub open spec fn spec_transfer(l: LedgerV, ctx: CtxV) -> (LedgerV, Result<EventV, ErrV>) {
    match lock_idx(l.locks, ctx.inscription_id) {
        None => (l, Err(ErrV::LockNotFound(ctx.inscription_id))),
        Some(li) => {
            let lk = l.locks[li];
            let transf = bal_of(l.balances, lk.tick, ctx.from).1;
            let avail_f = bal_of(l.balances, lk.tick, ctx.from).0;
            if spec_lt(transf, lk.amount) {
                (l, Err(ErrV::InsufficientBalance { requested: lk.amount, available: transf }))
            } else {
                match sub_r(transf, lk.amount) {
                    Err(e) => (l, Err(e)),
                    Ok(transf2) => {
                        let bs2 = bal_set(l.balances, lk.tick, ctx.from, avail_f, transf2);
                        let avail_t = bal_of(bs2, lk.tick, ctx.to).0;
                        let transf_t = bal_of(bs2, lk.tick, ctx.to).1;
                        match add_r(avail_t, lk.amount) {
                            Err(e) => (l, Err(e)),
                            Ok(avail_t2) => (
                                LedgerV {
                                    tickers: l.tickers,
                                    balances: bal_set(bs2, lk.tick, ctx.to, avail_t2, transf_t),
                                    locks: l.locks.remove(li),
                                },
                                Ok(
                                    EventV::Transfer {
                                        tick: lk.tick,
                                        amount: lk.amount,
                                        msg: None,
                                    },
                                ),
                            ),
                        }
                    },
                }
            }
        },
    }
}

/// The full transition function of the protocol: one operation, applied to
/// one state, yields exactly one next state and one outcome.
pub open spec fn spec_apply(l: LedgerV, op: OpV, ctx: CtxV) -> (LedgerV, Result<EventV, ErrV>) {
    match op {
        OpV::Deploy { tick, max, lim, dec } => spec_deploy(l, tick, max, lim, dec, ctx),
        OpV::Mint { tick, tid, amt } => spec_mint(l, tick, amt, ctx),
        OpV::InscribeTransfer { tick, amt } => spec_inscribe_transfer(l, tick, amt, ctx),
        OpV::Transfer { tid, tick, amt } => spec_transfer(l, ctx),
    }
}

/// What a receipt owes: the context echoed, the operation kind named, and
/// the outcome exactly as prescribed.
pub open spec fn receipt_matches(
    r: Receipt,
    ctx: Context,
    ot: OperationType,
    res: Result<EventV, ErrV>,
) -> bool {
    &&& r.inscription_id@ == ctx.inscription_id@
    &&& r.inscription_number == ctx.inscription_number
    &&& r.old_satpoint@ == ctx.old_satpoint@
    &&& r.new_satpoint@ == ctx.new_satpoint@
    &&& r.from.script@ == ctx.from.script@
    &&& r.to.script@ == ctx.to.script@
    &&& r.op == ot
    &&& result_view(r.result) == res
}

/// Parses a textual amount, exactly as `num_of_text` prescribes.
fn parse_amount(t: &String) -> (r: Result<Num, BRC20Error>)
    ensures
        match r {
            Ok(n) => num_of_text(t@) == Ok::<Num, ErrV>(n) && ledger_num(n),
            Err(e) => num_of_text(t@) == Err::<Num, ErrV>(e@),
        },
{
    let r = Num::from_str(t.as_str());
    proof {
        lemma_num_of_text_wf(t@);
    }
    r
}

impl Ledger {
    /// Credits `amount` to the available balance of `(tick, address)`,
    /// creating the entry if need be. Never fails on protocol-bounded
    /// values; an exact sum beyond the machine representation is rejected
    /// and leaves the ledger untouched.
    pub fn credit_available(&mut self, tick: &String, address: &String, amount: &Num) -> (r: Result<
        (),
        BRC20Error,
    >)
        requires
            old(self)@.well_formed(),
            ledger_num(*amount),
        ensures
            final(self)@.well_formed(),
            ({
                let held = bal_of(old(self)@.balances, tick@, address@);
                match r {
                    Ok(()) => add_r(held.0, *amount) matches Ok(avail2) && final(self)@ == (LedgerV {
                        tickers: old(self)@.tickers,
                        balances: bal_set(old(self)@.balances, tick@, address@, avail2, held.1),
                        locks: old(self)@.locks,
                    }),
                    Err(e) => add_r(held.0, *amount) == Err::<Num, ErrV>(e@) && final(self)@ == old(
                        self,
                    )@,
                }
            }),
    {
        let bi = find_balance(&self.balances, tick, address);
        proof {
            if bi is Some {
                assert(old(self)@.balances[bi.unwrap() as int].nums_well_formed());
            }
        }
        let (avail, transf) = match bi {
            Some(i) => (self.balances[i].available, self.balances[i].transferable),
            None => (Num { mantissa: 0, scale: 0 }, Num { mantissa: 0, scale: 0 }),
        };
        let avail2 = match avail.checked_add(amount) {
            Ok(n) => n,
            Err(e) => {
                return Err(e);
            },
        };
        proof {
            lemma_arith_wf(avail, *amount);
        }
        match bi {
            Some(i) => {
                self.balances[i] = Balance {
                    tick: tick.clone(),
                    address: address.clone(),
                    available: avail2,
                    transferable: transf,
                };
            },
            None => {
                self.balances.push(
                    Balance {
                        tick: tick.clone(),
                        address: address.clone(),
                        available: avail2,
                        transferable: transf,
                    },
                );
            },
        }
        proof {
            assert(self@.balances =~= bal_set(
                old(self)@.balances,
                tick@,
                address@,
                avail2,
                transf,
            ));
            assert(self@.tickers =~= old(self)@.tickers);
            assert(self@.locks =~= old(self)@.locks);
            lemma_bal_set_wf(old(self)@.balances, tick@, address@, avail2, transf);
        }
        Ok(())
    }

    /// Debits `amount` from the available balance of `(tick, address)`;
    /// fails with `InsufficientBalance` when the balance cannot cover it,
    /// leaving the ledger untouched.
    pub fn debit_available(&mut self, tick: &String, address: &String, amount: &Num) -> (r: Result<
        (),
        BRC20Error,
    >)
        requires
            old(self)@.well_formed(),
            ledger_num(*amount),
        ensures
            final(self)@.well_formed(),
            ({
                let held = bal_of(old(self)@.balances, tick@, address@);
                match r {
                    Ok(()) => {
                        &&& !spec_lt(held.0, *amount)
                        &&& sub_r(held.0, *amount) matches Ok(avail2) && final(self)@ == (LedgerV {
                            tickers: old(self)@.tickers,
                            balances: bal_set(old(self)@.balances, tick@, address@, avail2, held.1),
                            locks: old(self)@.locks,
                        })
                    },
                    Err(e) => final(self)@ == old(self)@ && (if spec_lt(held.0, *amount) {
                        e == BRC20Error::InsufficientBalance {
                            requested: *amount,
                            available: held.0,
                        }
                    } else {
                        sub_r(held.0, *amount) == Err::<Num, ErrV>(e@)
                    }),
                }
            }),
    {
        let bi = find_balance(&self.balances, tick, address);
        proof {
            if bi is Some {
                assert(old(self)@.balances[bi.unwrap() as int].nums_well_formed());
            }
        }
        let (avail, transf) = match bi {
            Some(i) => (self.balances[i].available, self.balances[i].transferable),
            None => (Num { mantissa: 0, scale: 0 }, Num { mantissa: 0, scale: 0 }),
        };
        if avail.lt(amount) {
            return Err(BRC20Error::InsufficientBalance { requested: *amount, available: avail });
        }
        let avail2 = match avail.checked_sub(amount) {
            Ok(n) => n,
            Err(e) => {
                return Err(e);
            },
        };
        proof {
            lemma_arith_wf(avail, *amount);
        }
        match bi {
            Some(i) => {
                self.balances[i] = Balance {
                    tick: tick.clone(),
                    address: address.clone(),
                    available: avail2,
                    transferable: transf,
                };
            },
            None => {
                self.balances.push(
                    Balance {
                        tick: tick.clone(),
                        address: address.clone(),
                        available: avail2,
                        transferable: transf,
                    },
                );
            },
        }
        proof {
            assert(self@.balances =~= bal_set(
                old(self)@.balances,
                tick@,
                address@,
                avail2,
                transf,
            ));
            assert(self@.tickers =~= old(self)@.tickers);
            assert(self@.locks =~= old(self)@.locks);
            lemma_bal_set_wf(old(self)@.balances, tick@, address@, avail2, transf);
        }
        Ok(())
    }

    /// Moves `amount` of `(tick, address)` from available to transferable —
    /// the two halves applied atomically: on any failure, including an
    /// available balance that cannot cover the amount, nothing changes.
    pub fn lock_transferable(&mut self, tick: &String, address: &String, amount: &Num) -> (r:
        Result<(), BRC20Error>)
        requires
            old(self)@.well_formed(),
            ledger_num(*amount),
        ensures
            final(self)@.well_formed(),
            ({
                let held = bal_of(old(self)@.balances, tick@, address@);
                match r {
                    Ok(()) => {
                        &&& !spec_lt(held.0, *amount)
                        &&& sub_r(held.0, *amount) matches Ok(avail2) && (add_r(held.1, *amount)
                            matches Ok(transf2) && final(self)@ == (LedgerV {
                            tickers: old(self)@.tickers,
                            balances: bal_set(
                                old(self)@.balances,
                                tick@,
                                address@,
                                avail2,
                                transf2,
                            ),
                            locks: old(self)@.locks,
                        }))
                    },
                    Err(e) => final(self)@ == old(self)@ && (if spec_lt(held.0, *amount) {
                        e == BRC20Error::InsufficientBalance {
                            requested: *amount,
                            available: held.0,
                        }
                    } else if sub_r(held.0, *amount) is Err {
                        sub_r(held.0, *amount) == Err::<Num, ErrV>(e@)
                    } else {
                        add_r(held.1, *amount) == Err::<Num, ErrV>(e@)
                    }),
                }
            }),
    {
        let bi = find_balance(&self.balances, tick, address);
        proof {
            if bi is Some {
                assert(old(self)@.balances[bi.unwrap() as int].nums_well_formed());
            }
        }
        let (avail, transf) = match bi {
            Some(i) => (self.balances[i].available, self.balances[i].transferable),
            None => (Num { mantissa: 0, scale: 0 }, Num { mantissa: 0, scale: 0 }),
        };
        if avail.lt(amount) {
            return Err(BRC20Error::InsufficientBalance { requested: *amount, available: avail });
        }
        let avail2 = match avail.checked_sub(amount) {
            Ok(n) => n,
            Err(e) => {
                return Err(e);
            },
        };
        let transf2 = match transf.checked_add(amount) {
            Ok(n) => n,
            Err(e) => {
                return Err(e);
            },
        };
        proof {
            lemma_arith_wf(avail, *amount);
            lemma_arith_wf(transf, *amount);
        }
        match bi {
            Some(i) => {
                self.balances[i] = Balance {
                    tick: tick.clone(),
                    address: address.clone(),
                    available: avail2,
                    transferable: transf2,
                };
            },
            None => {
                self.balances.push(
                    Balance {
                        tick: tick.clone(),
                        address: address.clone(),
                        available: avail2,
                        transferable: transf2,
                    },
                );
            },
        }
        proof {
            assert(self@.balances =~= bal_set(
                old(self)@.balances,
                tick@,
                address@,
                avail2,
                transf2,
            ));
            assert(self@.tickers =~= old(self)@.tickers);
            assert(self@.locks =~= old(self)@.locks);
            lemma_bal_set_wf(old(self)@.balances, tick@, address@, avail2, transf2);
        }
        Ok(())
    }

    /// Debits `amount` from the transferable balance of `(tick, address)` —
    /// the sender's half of consuming a lock; fails with
    /// `InsufficientBalance` when the locked balance cannot cover it,
    /// leaving the ledger untouched.
    pub fn unlock_transferable(&mut self, tick: &String, address: &String, amount: &Num) -> (r:
        Result<(), BRC20Error>)
        requires
            old(self)@.well_formed(),
            ledger_num(*amount),
        ensures
            final(self)@.well_formed(),
            ({
                let held = bal_of(old(self)@.balances, tick@, address@);
                match r {
                    Ok(()) => {
                        &&& !spec_lt(held.1, *amount)
                        &&& sub_r(held.1, *amount) matches Ok(transf2) && final(self)@ == (LedgerV {
                            tickers: old(self)@.tickers,
                            balances: bal_set(
                                old(self)@.balances,
                                tick@,
                                address@,
                                held.0,
                                transf2,
                            ),
                            locks: old(self)@.locks,
                        })
                    },
                    Err(e) => final(self)@ == old(self)@ && (if spec_lt(held.1, *amount) {
                        e == BRC20Error::InsufficientBalance {
                            requested: *amount,
                            available: held.1,
                        }
                    } else {
                        sub_r(held.1, *amount) == Err::<Num, ErrV>(e@)
                    }),
                }
            }),
    {
        let bi = find_balance(&self.balances, tick, address);
        proof {
            if bi is Some {
                assert(old(self)@.balances[bi.unwrap() as int].nums_well_formed());
            }
        }
        let (avail, transf) = match bi {
            Some(i) => (self.balances[i].available, self.balances[i].transferable),
            None => (Num { mantissa: 0, scale: 0 }, Num { mantissa: 0, scale: 0 }),
        };
        if transf.lt(amount) {
            return Err(BRC20Error::InsufficientBalance { requested: *amount, available: transf });
        }
        let transf2 = match transf.checked_sub(amount) {
            Ok(n) => n,
            Err(e) => {
                return Err(e);
            },
        };
        proof {
            lemma_arith_wf(transf, *amount);
        }
        match bi {
            Some(i) => {
                self.balances[i] = Balance {
                    tick: tick.clone(),
                    address: address.clone(),
                    available: avail,
                    transferable: transf2,
                };
            },
            None => {
                self.balances.push(
                    Balance {
                        tick: tick.clone(),
                        address: address.clone(),
                        available: avail,
                        transferable: transf2,
                    },
                );
            },
        }
        proof {
            assert(self@.balances =~= bal_set(
                old(self)@.balances,
                tick@,
                address@,
                avail,
                transf2,
            ));
            assert(self@.tickers =~= old(self)@.tickers);
            assert(self@.locks =~= old(self)@.locks);
            lemma_bal_set_wf(old(self)@.balances, tick@, address@, avail, transf2);
        }
        Ok(())
    }
}

impl Ledger {
    /// Applies one operation in its context: validates it against the
    /// registry and the balances, applies the balance delta, and returns
    /// the receipt — all exactly as the transition function `spec_apply`
    /// prescribes. A rejected operation leaves the ledger untouched.
    pub fn apply(&mut self, op: &Operation, ctx: &Context) -> (r: Receipt)
        requires
            old(self)@.well_formed(),
        ensures
            final(self)@ == spec_apply(old(self)@, op@, ctx@).0,
            final(self)@.well_formed(),
            receipt_matches(r, *ctx, op_type_of(op@), spec_apply(old(self)@, op@, ctx@).1),
    {
        proof {
            lemma_spec_apply_wf(old(self)@, op@, ctx@);
        }
        let (ot, result) = match op {
            Operation::Deploy(d) => (OperationType::Deploy, self.apply_deploy(d, ctx)),
            Operation::Mint(m) => (OperationType::Mint, self.apply_mint(m, ctx)),
            Operation::InscribeTransfer(t) => (
                OperationType::InscribeTransfer,
                self.apply_inscribe_transfer(t, ctx),
            ),
            Operation::Transfer(_) => (OperationType::Transfer, self.apply_transfer(ctx)),
        };
        Receipt {
            inscription_id: ctx.inscription_id.clone(),
            inscription_number: ctx.inscription_number,
            old_satpoint: ctx.old_satpoint.clone(),
            new_satpoint: ctx.new_satpoint.clone(),
            from: ScriptPubkey { script: ctx.from.script.clone() },
            to: ScriptPubkey { script: ctx.to.script.clone() },
            op: ot,
            result,
        }
    }

    fn apply_deploy(&mut self, d: &Deploy, ctx: &Context) -> (r: Result<Event, BRC20Error>)
        requires
            old(self)@.well_formed(),
        ensures
            ({
                let (l2, res) = spec_deploy(
                    old(self)@,
                    d.tick@,
                    d.max_supply@,
                    d.mint_limit@,
                    d.decimals@,
                    ctx@,
                );
                final(self)@ == l2 && result_view(r) == res
            }),
    {
        if find_ticker(&self.tickers, &d.tick).is_some() {
            return Err(BRC20Error::DuplicateTick(d.tick.clone()));
        }
        let supply = match parse_amount(&d.max_supply) {
            Ok(n) => n,
            Err(e) => {
                return Err(e);
            },
        };
        if supply.is_zero() {
            return Err(BRC20Error::InvalidSupply(d.max_supply.clone()));
        }
        if supply.int_part_u128() > (u64::MAX as u128) {
            return Err(BRC20Error::InvalidSupply(d.max_supply.clone()));
        }
        let dec_num = match parse_amount(&d.decimals) {
            Ok(n) => n,
            Err(e) => {
                return Err(e);
            },
        };
        let dec = match dec_num.checked_to_u8() {
            Ok(v) => v,
            Err(e) => {
                return Err(e);
            },
        };
        if (dec as u32) > MAX_DECIMAL_WIDTH {
            return Err(BRC20Error::DecimalsTooLarge(dec));
        }
        let limit = match parse_amount(&d.mint_limit) {
            Ok(n) => n,
            Err(e) => {
                return Err(e);
            },
        };
        let rec = TickerRecord {
            tick: d.tick.clone(),
            supply,
            limit_per_mint: limit,
            decimal: dec,
            deploy_by: ScriptPubkey { script: ctx.from.script.clone() },
            deploy_inscription: ctx.inscription_id.clone(),
            minted: Num { mantissa: 0, scale: 0 },
        };
        let ghost gl = self@;
        self.tickers.push(rec);
        proof {
            let t2 = spec_deploy(gl, d.tick@, d.max_supply@, d.mint_limit@, d.decimals@, ctx@);
            assert(self@.tickers =~= t2.0.tickers);
            assert(self@.balances =~= t2.0.balances);
            assert(self@.locks =~= t2.0.locks);
        }
        Ok(
            Event::Deploy(
                DeployData { tick: d.tick.clone(), supply, limit_per_mint: limit, decimal: dec },
            ),
        )
    }

    fn apply_mint(&mut self, m: &Mint, ctx: &Context) -> (r: Result<Event, BRC20Error>)
        requires
            old(self)@.well_formed(),
        ensures
            ({
                let (l2, res) = spec_mint(old(self)@, m.tick@, m.amount@, ctx@);
                final(self)@ == l2 && result_view(r) == res
            }),
    {
        let ti = match find_ticker(&self.tickers, &m.tick) {
            Some(i) => i,
            None => {
                return Err(BRC20Error::TickNotFound(m.tick.clone()));
            },
        };
        proof {
            assert(old(self)@.tickers[ti as int].nums_well_formed());
        }
        let supply = self.tickers[ti].supply;
        let minted = self.tickers[ti].minted;
        let limit = self.tickers[ti].limit_per_mint;
        let amt = match parse_amount(&m.amount) {
            Ok(n) => n,
            Err(e) => {
                return Err(e);
            },
        };
        if amt.is_zero() {
            return Err(BRC20Error::InvalidAmount(m.amount.clone()));
        }
        if limit.lt(&amt) {
            return Err(BRC20Error::AmountExceedsLimit(m.amount.clone()));
        }
        let remaining = match supply.checked_sub(&minted) {
            Ok(n) => n,
            Err(e) => {
                return Err(e);
            },
        };
        if remaining.is_zero() {
            return Err(BRC20Error::SupplyExhausted(m.tick.clone()));
        }
        let actual = if remaining.lt(&amt) {
            remaining
        } else {
            amt
        };
        let minted2 = match minted.checked_add(&actual) {
            Ok(n) => n,
            Err(e) => {
                return Err(e);
            },
        };
        let ghost gl = self@;
        proof {
            lemma_arith_wf(supply, minted);
        }
        match self.credit_available(&m.tick, &ctx.to.script, &actual) {
            Ok(()) => {},
            Err(e) => {
                return Err(e);
            },
        }
        self.tickers[ti].minted = minted2;
        proof {
            let t2 = spec_mint(gl, m.tick@, m.amount@, ctx@);
            assert(self@.tickers =~= t2.0.tickers);
            assert(self@.balances =~= t2.0.balances);
            assert(self@.locks =~= t2.0.locks);
        }
        Ok(Event::Mint(MintData { tick: m.tick.clone(), amount: actual, msg: None }))
    }

    fn apply_inscribe_transfer(&mut self, t: &InscribeTransfer, ctx: &Context) -> (r: Result<
        Event,
        BRC20Error,
    >)
        requires
            old(self)@.well_formed(),
        ensures
            ({
                let (l2, res) = spec_inscribe_transfer(old(self)@, t.tick@, t.amount@, ctx@);
                final(self)@ == l2 && result_view(r) == res
            }),
    {
        if find_ticker(&self.tickers, &t.tick).is_none() {
            return Err(BRC20Error::TickNotFound(t.tick.clone()));
        }
        let amt = match parse_amount(&t.amount) {
            Ok(n) => n,
            Err(e) => {
                return Err(e);
            },
        };
        if amt.is_zero() {
            return Err(BRC20Error::InvalidAmount(t.amount.clone()));
        }
        let ghost gl = self@;
        match self.lock_transferable(&t.tick, &ctx.from.script, &amt) {
            Ok(()) => {},
            Err(e) => {
                return Err(e);
            },
        }
        self.locks.push(
            TransferLock {
                inscription_id: ctx.inscription_id.clone(),
                tick: t.tick.clone(),
                owner: ctx.from.script.clone(),
                amount: amt,
            },
        );
        proof {
            let t2 = spec_inscribe_transfer(gl, t.tick@, t.amount@, ctx@);
            assert(self@.tickers =~= t2.0.tickers);
            assert(self@.balances =~= t2.0.balances);
            assert(self@.locks =~= t2.0.locks);
        }
        Ok(Event::InscribeTransfer(InscribeTransferData { tick: t.tick.clone(), amount: amt }))
    }

    fn apply_transfer(&mut self, ctx: &Context) -> (r: Result<Event, BRC20Error>)
        requires
            old(self)@.well_formed(),
        ensures
            ({
                let (l2, res) = spec_transfer(old(self)@, ctx@);
                final(self)@ == l2 && result_view(r) == res
            }),
    {
        let li = match find_lock(&self.locks, &ctx.inscription_id) {
            Some(i) => i,
            None => {
                return Err(BRC20Error::LockNotFound(ctx.inscription_id.clone()));
            },
        };
        proof {
            assert(old(self)@.locks[li as int].amount.well_formed());
        }
        let lk_tick = self.locks[li].tick.clone();
        let lk_amount = self.locks[li].amount;
        let bi = find_balance(&self.balances, &lk_tick, &ctx.from.script);
        proof {
            if bi is Some {
                assert(old(self)@.balances[bi.unwrap() as int].nums_well_formed());
            }
        }
        let (avail_f, transf) = match bi {
            Some(i) => (self.balances[i].available, self.balances[i].transferable),
            None => (Num { mantissa: 0, scale: 0 }, Num { mantissa: 0, scale: 0 }),
        };
        if transf.lt(&lk_amount) {
            return Err(BRC20Error::InsufficientBalance { requested: lk_amount, available: transf });
        }
        let transf2 = match transf.checked_sub(&lk_amount) {
            Ok(n) => n,
            Err(e) => {
                return Err(e);
            },
        };
        let ghost gl = self@;
        // debit the sender's transferable balance
        match bi {
            Some(i) => {
                self.balances[i] = Balance {
                    tick: lk_tick.clone(),
                    address: ctx.from.script.clone(),
                    available: avail_f,
                    transferable: transf2,
                };
            },
            None => {
                self.balances.push(
                    Balance {
                        tick: lk_tick.clone(),
                        address: ctx.from.script.clone(),
                        available: avail_f,
                        transferable: transf2,
                    },
                );
            },
        }
        proof {
            lemma_arith_wf(transf, lk_amount);
            assert(self@.balances =~= bal_set(gl.balances, lk_tick@, ctx@.from, avail_f, transf2));
            lemma_bal_set_wf(gl.balances, lk_tick@, ctx@.from, avail_f, transf2);
        }
        // credit the receiver's available balance, reading the state the
        // debit left behind so that a self-transfer sees its own debit
        let bj = find_balance(&self.balances, &lk_tick, &ctx.to.script);
        proof {
            if bj is Some {
                assert(self@.balances[bj.unwrap() as int].nums_well_formed());
            }
        }
        let (avail_t, transf_t) = match bj {
            Some(j) => (self.balances[j].available, self.balances[j].transferable),
            None => (Num { mantissa: 0, scale: 0 }, Num { mantissa: 0, scale: 0 }),
        };
        let avail_t2 = match avail_t.checked_add(&lk_amount) {
            Ok(n) => n,
            Err(e) => {
                // no partial application: undo the debit before rejecting
                match bi {
                    Some(i) => {
                        self.balances[i] = Balance {
                            tick: lk_tick.clone(),
                            address: ctx.from.script.clone(),
                            available: avail_f,
                            transferable: transf,
                        };
                        proof {
                            lemma_bal_idx_props(gl.balances, lk_tick@, ctx@.from);
                            assert(gl.balances[bi.unwrap() as int].tick == lk_tick@);
                            assert(gl.balances[bi.unwrap() as int].address == ctx@.from);
                            assert(self@.balances =~= gl.balances);
                            assert(self@.tickers =~= gl.tickers);
                            assert(self@.locks =~= gl.locks);
                        }
                    },
                    None => {
                        self.balances.pop();
                        proof {
                            assert(self@.balances =~= gl.balances);
                            assert(self@.tickers =~= gl.tickers);
                            assert(self@.locks =~= gl.locks);
                        }
                    },
                }
                return Err(e);
            },
        };
        match bj {
            Some(j) => {
                self.balances[j] = Balance {
                    tick: lk_tick.clone(),
                    address: ctx.to.script.clone(),
                    available: avail_t2,
                    transferable: transf_t,
                };
            },
            None => {
                self.balances.push(
                    Balance {
                        tick: lk_tick.clone(),
                        address: ctx.to.script.clone(),
                        available: avail_t2,
                        transferable: transf_t,
                    },
                );
            },
        }
        self.locks.remove(li);
        proof {
            let t2 = spec_transfer(gl, ctx@);
            assert(self@.tickers =~= t2.0.tickers);
            assert(self@.balances =~= t2.0.balances);
            assert(self@.locks =~= t2.0.locks);
        }
        Ok(Event::Transfer(TransferData { tick: lk_tick, amount: lk_amount, msg: None }))
    }
}

/// A canonical pair read back as a `Num` is well-formed, at no more than
/// the scale it was canonicalized from.
proof fn lemma_canon_num_wf(m: nat, s: nat)
    requires
        canon(m, s).0 <= u128::MAX,
        s <= u32::MAX,
    ensures
        ({
            let c = Num { mantissa: canon(m, s).0 as u128, scale: canon(m, s).1 as u32 };
            c.well_formed() && c.spec_scale() <= s
        }),
{
    lemma_canon_le(m, s);
    lemma_canon_value(m, s);
}

/// Whatever a textual amount parses to is a valid ledger amount.
pub(crate) proof fn lemma_num_of_text_wf(t: Seq<char>)
    ensures
        num_of_text(t) matches Ok(n) ==> ledger_num(n),
{
    if num_of_text(t) is Ok {
        let p = spec_parse_dec(t).unwrap();
        lemma_canon_le(p.0, p.1);
        lemma_canon_num_wf(p.0, p.1);
    }
}

/// Whatever exact addition or subtraction yields is well-formed, at no
/// more than the wider of the operands' scales.
pub(crate) proof fn lemma_arith_wf(a: Num, b: Num)
    ensures
        add_r(a, b) matches Ok(c) ==> c.well_formed() && c.spec_scale() <= crate::num::max_scale(
            a,
            b,
        ),
        sub_r(a, b) matches Ok(c) ==> c.well_formed() && c.spec_scale() <= crate::num::max_scale(
            a,
            b,
        ),
{
    if add_r(a, b) is Ok {
        let s = crate::num::max_scale(a, b);
        let sum = (crate::num::aligned(a, s) + crate::num::aligned(b, s)) as nat;
        lemma_canon_le(sum, s);
        lemma_canon_num_wf(sum, s);
    }
    if sub_r(a, b) is Ok {
        let s = crate::num::max_scale(a, b);
        let d = (crate::num::aligned(a, s) - crate::num::aligned(b, s)) as nat;
        lemma_canon_le(d, s);
        lemma_canon_num_wf(d, s);
    }
}

/// Setting one balance entry to valid ledger amounts keeps every entry
/// valid.
pub(crate) proof fn lemma_bal_set_wf(
    bs: Seq<BalanceV>,
    tick: Seq<char>,
    addr: Seq<char>,
    available: Num,
    transferable: Num,
)
    requires
        forall|i: int| 0 <= i < bs.len() ==> (#[trigger] bs[i]).nums_well_formed(),
        ledger_num(available),
        ledger_num(transferable),
    ensures
        ({
            let bs2 = bal_set(bs, tick, addr, available, transferable);
            forall|i: int| 0 <= i < bs2.len() ==> (#[trigger] bs2[i]).nums_well_formed()
        }),
{
    lemma_bal_idx_props(bs, tick, addr);
}

/// The transition preserves well-formedness: every amount in the next
/// state is canonical.
pub proof fn lemma_spec_apply_wf(l: LedgerV, op: OpV, ctx: CtxV)
    requires
        l.well_formed(),
    ensures
        spec_apply(l, op, ctx).0.well_formed(),
{
    match op {
        OpV::Deploy { tick, max, lim, dec } => {
            lemma_num_of_text_wf(max);
            lemma_num_of_text_wf(dec);
            lemma_num_of_text_wf(lim);
        },
        OpV::Mint { tick, tid, amt } => {
            lemma_ticker_idx_props(l.tickers, tick);
            lemma_num_of_text_wf(amt);
            match ticker_idx(l.tickers, tick) {
                None => {},
                Some(ti) => {
                    let t = l.tickers[ti];
                    lemma_arith_wf(t.supply, t.minted);
                    match (sub_r(t.supply, t.minted), num_of_text(amt)) {
                        (Ok(remaining), Ok(amount)) => {
                            let actual = if spec_lt(remaining, amount) {
                                remaining
                            } else {
                                amount
                            };
                            lemma_arith_wf(t.minted, actual);
                            lemma_bal_idx_props(l.balances, tick, ctx.to);
                            let avail = bal_of(l.balances, tick, ctx.to).0;
                            let transf = bal_of(l.balances, tick, ctx.to).1;
                            lemma_arith_wf(avail, actual);
                            match add_r(avail, actual) {
                                Ok(avail2) => {
                                    lemma_bal_set_wf(l.balances, tick, ctx.to, avail2, transf);
                                },
                                Err(_) => {},
                            }
                        },
                        _ => {},
                    }
                },
            }
        },
        OpV::InscribeTransfer { tick, amt } => {
            lemma_num_of_text_wf(amt);
            match num_of_text(amt) {
                Err(_) => {},
                Ok(amount) => {
                    lemma_bal_idx_props(l.balances, tick, ctx.from);
                    let avail = bal_of(l.balances, tick, ctx.from).0;
                    let transf = bal_of(l.balances, tick, ctx.from).1;
                    lemma_arith_wf(avail, amount);
                    lemma_arith_wf(transf, amount);
                    match (sub_r(avail, amount), add_r(transf, amount)) {
                        (Ok(avail2), Ok(transf2)) => {
                            lemma_bal_set_wf(l.balances, tick, ctx.from, avail2, transf2);
                        },
                        _ => {},
                    }
                },
            }
        },
        OpV::Transfer { tid, tick, amt } => {
            lemma_lock_idx_props(l.locks, ctx.inscription_id);
            match lock_idx(l.locks, ctx.inscription_id) {
                None => {},
                Some(li) => {
                    let lk = l.locks[li];
                    lemma_bal_idx_props(l.balances, lk.tick, ctx.from);
                    let avail_f = bal_of(l.balances, lk.tick, ctx.from).0;
                    let transf = bal_of(l.balances, lk.tick, ctx.from).1;
                    lemma_arith_wf(transf, lk.amount);
                    match sub_r(transf, lk.amount) {
                        Err(_) => {},
                        Ok(transf2) => {
                            lemma_bal_set_wf(l.balances, lk.tick, ctx.from, avail_f, transf2);
                            let bs2 = bal_set(l.balances, lk.tick, ctx.from, avail_f, transf2);
                            lemma_bal_idx_props(bs2, lk.tick, ctx.to);
                            let avail_t = bal_of(bs2, lk.tick, ctx.to).0;
                            let transf_t = bal_of(bs2, lk.tick, ctx.to).1;
                            lemma_arith_wf(avail_t, lk.amount);
                            match add_r(avail_t, lk.amount) {
                                Err(_) => {},
                                Ok(avail_t2) => {
                                    lemma_bal_set_wf(bs2, lk.tick, ctx.to, avail_t2, transf_t);
                                    let ls2 = l.locks.remove(li);
                                    assert(forall|i: int|
                                        0 <= i < ls2.len() ==> (
                                        #[trigger] ls2[i]).amount.well_formed()) by {
                                        assert(forall|i: int|
                                            0 <= i < ls2.len() ==> ls2[i] == (if i < li {
                                                l.locks[i]
                                            } else {
                                                l.locks[i + 1]
                                            }));
                                    }
                                },
                            }
                        },
                    }
                },
            }
        },
    }
}

/// Deploying a ticker symbol that is already registered is rejected with
/// `DuplicateTick`, and the ledger is left exactly as it was — the second
/// deploy neither overwrites nor alters anything.
pub proof fn lemma_deploy_duplicate_tick(
    l: LedgerV,
    tick: Seq<char>,
    max: Seq<char>,
    lim: Seq<char>,
    dec: Seq<char>,
    ctx: CtxV,
)
    requires
        ticker_idx(l.tickers, tick) is Some,
    ensures
        spec_apply(l, OpV::Deploy { tick, max, lim, dec }, ctx) == (
            l,
            Err::<EventV, ErrV>(ErrV::DuplicateTick(tick)),
        ),
{
}

/// Minting beyond the remaining supply succeeds with the remainder: when a
/// ticker still has some supply left but less than the valid requested
/// amount, the mint is truncated to exactly that remainder, and the
/// ticker's minted total afterwards equals its full supply cap — the
/// supply is then exhausted.
pub proof fn lemma_mint_truncated_to_remainder(
    l: LedgerV,
    tick: Seq<char>,
    tid: Option<Seq<char>>,
    amt_text: Seq<char>,
    ctx: CtxV,
)
    requires
        l.well_formed(),
        ticker_idx(l.tickers, tick) is Some,
        num_of_text(amt_text) is Ok,
        ({
            let t = l.tickers[ticker_idx(l.tickers, tick).unwrap()];
            let amt = num_of_text(amt_text)->Ok_0;
            let remaining_r = sub_r(t.supply, t.minted);
            &&& amt.mantissa != 0
            &&& !spec_lt(t.limit_per_mint, amt)
            &&& remaining_r is Ok
            &&& remaining_r->Ok_0.mantissa != 0
            &&& spec_lt(remaining_r->Ok_0, amt)
            &&& spec_add(bal_of(l.balances, tick, ctx.to).0, remaining_r->Ok_0) is Some
        }),
    ensures
        ({
            let ti = ticker_idx(l.tickers, tick).unwrap();
            let t = l.tickers[ti];
            let remaining = sub_r(t.supply, t.minted)->Ok_0;
            let (l2, res) = spec_apply(l, OpV::Mint { tick, tid, amt: amt_text }, ctx);
            &&& res == Ok::<EventV, ErrV>(EventV::Mint { tick, amount: remaining, msg: None })
            &&& l2.tickers[ti].minted == t.supply
        }),
{
    let ti = ticker_idx(l.tickers, tick).unwrap();
    lemma_ticker_idx_props(l.tickers, tick);
    let t = l.tickers[ti];
    let remaining = sub_r(t.supply, t.minted)->Ok_0;
    assert(t.nums_well_formed());
    crate::num::lemma_sub_add_round_trip(t.supply, t.minted, remaining);
    assert(add_r(t.minted, remaining) == Ok::<Num, ErrV>(t.supply));
}

/// An inscribed transfer of more than the sender's available balance is
/// rejected with `InsufficientBalance`, naming the requested amount and
/// what was actually available, and the ledger — the sender's balances
/// included — is left exactly as it was.
pub proof fn lemma_inscribe_transfer_insufficient(
    l: LedgerV,
    tick: Seq<char>,
    amt_text: Seq<char>,
    ctx: CtxV,
)
    requires
        ticker_idx(l.tickers, tick) is Some,
        num_of_text(amt_text) is Ok,
        num_of_text(amt_text)->Ok_0.mantissa != 0,
        spec_lt(bal_of(l.balances, tick, ctx.from).0, num_of_text(amt_text)->Ok_0),
    ensures
        spec_apply(l, OpV::InscribeTransfer { tick, amt: amt_text }, ctx) == (
            l,
            Err::<EventV, ErrV>(
                ErrV::InsufficientBalance {
                    requested: num_of_text(amt_text)->Ok_0,
                    available: bal_of(l.balances, tick, ctx.from).0,
                },
            ),
        ),
{
}

/// The states a sequence of operations steps through, applied in order.
pub open spec fn spec_apply_seq(l: LedgerV, ops: Seq<(OpV, CtxV)>) -> LedgerV
    decreases ops.len(),
{
    if ops.len() == 0 {
        l
    } else {
        spec_apply_seq(spec_apply(l, ops[0].0, ops[0].1).0, ops.drop_first())
    }
}

/// The outcomes a sequence of operations produces, in order.
pub open spec fn spec_apply_outputs(l: LedgerV, ops: Seq<(OpV, CtxV)>) -> Seq<
    Result<EventV, ErrV>,
>
    decreases ops.len(),
{
    if ops.len() == 0 {
        Seq::empty()
    } else {
        seq![spec_apply(l, ops[0].0, ops[0].1).1] + spec_apply_outputs(
            spec_apply(l, ops[0].0, ops[0].1).0,
            ops.drop_first(),
        )
    }
}

/// Replay determinism: the transition is a function of the state and the
/// operation alone, so applying the same ordered operation sequence to
/// equal starting ledgers — in particular, replaying it from the empty
/// ledger — yields equal final ledgers and equal outcome sequences. The
/// executable `Ledger::apply` returns exactly what the transition function
/// prescribes, so two replays of one history agree receipt for receipt.
pub proof fn lemma_replay_deterministic(l1: LedgerV, l2: LedgerV, ops: Seq<(OpV, CtxV)>)
    requires
        l1 == l2,
    ensures
        spec_apply_seq(l1, ops) == spec_apply_seq(l2, ops),
        spec_apply_outputs(l1, ops) == spec_apply_outputs(l2, ops),
{
}

} // verus!
