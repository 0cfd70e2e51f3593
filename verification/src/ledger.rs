//! The ledger state: ticker registry, per-address balances, and the
//! outstanding transfer locks.
//!
//! Each collection is a plain vector looked up by key; the specification
//! twins (`TickerV`, `BalanceV`, `LockV`, `LedgerV`) carry the same data
//! over mathematical types so that the state machine's transition can be a
//! spec-level function.

use vstd::prelude::*;
use crate::num::{Num, MAX_DECIMAL_WIDTH};

verus! {

/// What every amount held in the ledger satisfies: canonical form, and a
/// fractional width within the protocol maximum. Parsing enforces the
/// width, and exact addition and subtraction never widen past their
/// operands, so the state machine maintains this for every stored amount.
pub open spec fn ledger_num(n: Num) -> bool {
    n.well_formed() && n.scale <= MAX_DECIMAL_WIDTH
}

/// An address, carried as its script pubkey or address text.
#[derive(Debug, Clone, PartialEq, Eq)]
pub struct ScriptPubkey {
    pub script: String,
}

/// A ticker registered by a successful deploy. The deploy parameters never
/// change afterwards; only `minted` grows as mints are applied.
#[derive(Debug, Clone, PartialEq, Eq)]
pub struct TickerRecord {
    pub tick: String,
    pub supply: Num,
    pub limit_per_mint: Num,
    pub decimal: u8,
    pub deploy_by: ScriptPubkey,
    pub deploy_inscription: String,
    pub minted: Num,
}

/// The two balances an address holds in one ticker: spendable, and locked
/// by an outstanding inscribed transfer.
#[derive(Debug, Clone, PartialEq, Eq)]
pub struct Balance {
    pub tick: String,
    pub address: String,
    pub available: Num,
    pub transferable: Num,
}

/// An outstanding inscribed transfer: a fixed amount moved out of the
/// owner's available balance, waiting for the inscription to move.
#[derive(Debug, Clone, PartialEq, Eq)]
pub struct TransferLock {
    pub inscription_id: String,
    pub tick: String,
    pub owner: String,
    pub amount: Num,
}

/// The whole ledger state.
#[derive(Debug, Clone, PartialEq, Eq)]
pub struct Ledger {
    pub tickers: Vec<TickerRecord>,
    pub balances: Vec<Balance>,
    pub locks: Vec<TransferLock>,
}

/// Specification twin of [`TickerRecord`].
pub struct TickerV {
    pub tick: Seq<char>,
    pub supply: Num,
    pub limit_per_mint: Num,
    pub decimal: u8,
    pub deploy_by: Seq<char>,
    pub deploy_inscription: Seq<char>,
    pub minted: Num,
}

/// Specification twin of [`Balance`].
pub struct BalanceV {
    pub tick: Seq<char>,
    pub address: Seq<char>,
    pub available: Num,
    pub transferable: Num,
}

/// Specification twin of [`TransferLock`].
pub struct LockV {
    pub inscription_id: Seq<char>,
    pub tick: Seq<char>,
    pub owner: Seq<char>,
    pub amount: Num,
}

/// Specification twin of [`Ledger`].
pub struct LedgerV {
    pub tickers: Seq<TickerV>,
    pub balances: Seq<BalanceV>,
    pub locks: Seq<LockV>,
}

impl View for TickerRecord {
    type V = TickerV;

    open spec fn view(&self) -> TickerV {
        TickerV {
            tick: self.tick@,
            supply: self.supply,
            limit_per_mint: self.limit_per_mint,
            decimal: self.decimal,
            deploy_by: self.deploy_by.script@,
            deploy_inscription: self.deploy_inscription@,
            minted: self.minted,
        }
    }
}

impl View for Balance {
    type V = BalanceV;

    open spec fn view(&self) -> BalanceV {
        BalanceV {
            tick: self.tick@,
            address: self.address@,
            available: self.available,
            transferable: self.transferable,
        }
    }
}

impl View for TransferLock {
    type V = LockV;

    open spec fn view(&self) -> LockV {
        LockV {
            inscription_id: self.inscription_id@,
            tick: self.tick@,
            owner: self.owner@,
            amount: self.amount,
        }
    }
}

impl View for Ledger {
    type V = LedgerV;

    open spec fn view(&self) -> LedgerV {
        LedgerV {
            tickers: self.tickers@.map_values(|t: TickerRecord| t@),
            balances: self.balances@.map_values(|b: Balance| b@),
            locks: self.locks@.map_values(|l: TransferLock| l@),
        }
    }
}

impl TickerV {
    pub open spec fn nums_well_formed(self) -> bool {
        ledger_num(self.supply) && ledger_num(self.limit_per_mint) && ledger_num(self.minted)
    }
}

impl BalanceV {
    pub open spec fn nums_well_formed(self) -> bool {
        ledger_num(self.available) && ledger_num(self.transferable)
    }
}

impl LedgerV {
    /// Every amount held anywhere in the state is a canonical decimal of at
    /// most the protocol's fractional width.
    pub open spec fn well_formed(self) -> bool {
        &&& forall|i: int| 0 <= i < self.tickers.len() ==> (#[trigger] self.tickers[i]).nums_well_formed()
        &&& forall|i: int| 0 <= i < self.balances.len() ==> (#[trigger] self.balances[i]).nums_well_formed()
        &&& forall|i: int| 0 <= i < self.locks.len() ==> ledger_num((#[trigger] self.locks[i]).amount)
    }
}

impl Ledger {
    /// A fresh, empty ledger.
    pub fn new() -> (r: Ledger)
        ensures
            r@.tickers.len() == 0,
            r@.balances.len() == 0,
            r@.locks.len() == 0,
            r@.well_formed(),
    {
        let r = Ledger { tickers: Vec::new(), balances: Vec::new(), locks: Vec::new() };
        proof {
            assert(r@.tickers =~= Seq::<TickerV>::empty());
            assert(r@.balances =~= Seq::<BalanceV>::empty());
            assert(r@.locks =~= Seq::<LockV>::empty());
        }
        r
    }
}

impl Ledger {
    /// The registered record of a ticker, if it was ever deployed.
    pub fn get_ticker(&self, tick: &String) -> (r: Option<&TickerRecord>)
        ensures
            match r {
                Some(t) => ticker_idx(self@.tickers, tick@) matches Some(i) && t@
                    == self@.tickers[i],
                None => ticker_idx(self@.tickers, tick@) is None,
            },
    {
        match find_ticker(&self.tickers, tick) {
            Some(i) => Some(&self.tickers[i]),
            None => None,
        }
    }

    /// The available and transferable balances of `address` in `tick`; both
    /// are zero when no entry exists.
    pub fn get_balance(&self, tick: &String, address: &String) -> (r: (Num, Num))
        ensures
            ({
                let held = match bal_idx(self@.balances, tick@, address@) {
                    Some(i) => (self@.balances[i].available, self@.balances[i].transferable),
                    None => (Num { mantissa: 0, scale: 0 }, Num { mantissa: 0, scale: 0 }),
                };
                r == held
            }),
    {
        match find_balance(&self.balances, tick, address) {
            Some(i) => (self.balances[i].available, self.balances[i].transferable),
            None => (Num { mantissa: 0, scale: 0 }, Num { mantissa: 0, scale: 0 }),
        }
    }
}

/// The position of the first ticker with symbol `tick`, if any.
pub open spec fn ticker_idx(ts: Seq<TickerV>, tick: Seq<char>) -> Option<int>
    decreases ts.len(),
{
    if ts.len() == 0 {
        None
    } else if ts[0].tick == tick {
        Some(0int)
    } else {
        match ticker_idx(ts.drop_first(), tick) {
            Some(i) => Some(i + 1),
            None => None,
        }
    }
}

/// The position of the first balance entry keyed `(tick, addr)`, if any.
pub open spec fn bal_idx(bs: Seq<BalanceV>, tick: Seq<char>, addr: Seq<char>) -> Option<int>
    decreases bs.len(),
{
    if bs.len() == 0 {
        None
    } else if bs[0].tick == tick && bs[0].address == addr {
        Some(0int)
    } else {
        match bal_idx(bs.drop_first(), tick, addr) {
            Some(i) => Some(i + 1),
            None => None,
        }
    }
}

/// The position of the **most recent** lock bound to `id`, if any.
pub open spec fn lock_idx(ls: Seq<LockV>, id: Seq<char>) -> Option<int>
    decreases ls.len(),
{
    if ls.len() == 0 {
        None
    } else if ls.last().inscription_id == id {
        Some(ls.len() - 1)
    } else {
        lock_idx(ls.drop_last(), id)
    }
}

/// What a found ticker position means: in range, a hit, and the first one.
pub proof fn lemma_ticker_idx_props(ts: Seq<TickerV>, tick: Seq<char>)
    ensures
        match ticker_idx(ts, tick) {
            Some(i) => 0 <= i < ts.len() && ts[i].tick == tick,
            None => forall|j: int| 0 <= j < ts.len() ==> (#[trigger] ts[j]).tick != tick,
        },
    decreases ts.len(),
{
    if ts.len() > 0 && ts[0].tick != tick {
        let rest = ts.drop_first();
        lemma_ticker_idx_props(rest, tick);
        assert(forall|j: int| 1 <= j < ts.len() ==> ts[j] == rest[j - 1]);
    }
}

/// A scan that found no match below `i` pins the spec lookup: a hit at `i`
/// is the answer, and a scan past the end means there is none.
proof fn lemma_ticker_idx_scan(ts: Seq<TickerV>, tick: Seq<char>, i: int)
    requires
        0 <= i <= ts.len(),
        forall|j: int| 0 <= j < i ==> (#[trigger] ts[j]).tick != tick,
    ensures
        i == ts.len() ==> ticker_idx(ts, tick) is None,
        i < ts.len() && ts[i].tick == tick ==> ticker_idx(ts, tick) == Some(i),
    decreases i,
{
    if i == 0 {
        if ts.len() > 0 && ts[0].tick != tick {
            lemma_ticker_idx_props(ts.drop_first(), tick);
        }
    } else {
        let rest = ts.drop_first();
        lemma_ticker_idx_scan(rest, tick, i - 1);
    }
}

proof fn lemma_bal_idx_scan(bs: Seq<BalanceV>, tick: Seq<char>, addr: Seq<char>, i: int)
    requires
        0 <= i <= bs.len(),
        forall|j: int|
            0 <= j < i ==> !((#[trigger] bs[j]).tick == tick && bs[j].address == addr),
    ensures
        i == bs.len() ==> bal_idx(bs, tick, addr) is None,
        i < bs.len() && bs[i].tick == tick && bs[i].address == addr ==> bal_idx(bs, tick, addr)
            == Some(i),
    decreases i,
{
    if i == 0 {
    } else {
        let rest = bs.drop_first();
        lemma_bal_idx_scan(rest, tick, addr, i - 1);
    }
}

/// What a found balance position means.
pub proof fn lemma_bal_idx_props(bs: Seq<BalanceV>, tick: Seq<char>, addr: Seq<char>)
    ensures
        match bal_idx(bs, tick, addr) {
            Some(i) => 0 <= i < bs.len() && bs[i].tick == tick && bs[i].address == addr,
            None => forall|j: int|
                0 <= j < bs.len() ==> !((#[trigger] bs[j]).tick == tick && bs[j].address == addr),
        },
    decreases bs.len(),
{
    if bs.len() > 0 && !(bs[0].tick == tick && bs[0].address == addr) {
        let rest = bs.drop_first();
        lemma_bal_idx_props(rest, tick, addr);
        assert(forall|j: int| 1 <= j < bs.len() ==> bs[j] == rest[j - 1]);
    }
}

/// What a found lock position means: the most recent lock for the id.
pub proof fn lemma_lock_idx_props(ls: Seq<LockV>, id: Seq<char>)
    ensures
        match lock_idx(ls, id) {
            Some(i) => 0 <= i < ls.len() && ls[i].inscription_id == id,
            None => forall|j: int|
                0 <= j < ls.len() ==> (#[trigger] ls[j]).inscription_id != id,
        },
    decreases ls.len(),
{
    if ls.len() > 0 && ls.last().inscription_id != id {
        let head = ls.drop_last();
        lemma_lock_idx_props(head, id);
        assert(forall|j: int| 0 <= j < ls.len() - 1 ==> ls[j] == head[j]);
    }
}

/// Finds the first ticker with the given symbol, as `ticker_idx` specifies.
pub fn find_ticker(ts: &Vec<TickerRecord>, tick: &String) -> (r: Option<usize>)
    ensures
        ({
            let tv = ts@.map_values(|t: TickerRecord| t@);
            match r {
                Some(i) => i < ts@.len() && ticker_idx(tv, tick@) == Some(i as int),
                None => ticker_idx(tv, tick@) is None,
            }
        }),
{
    let ghost tv = ts@.map_values(|t: TickerRecord| t@);
    let mut i: usize = 0;
    while i < ts.len()
        invariant
            i <= ts@.len(),
            tv == ts@.map_values(|t: TickerRecord| t@),
            forall|j: int| 0 <= j < i ==> (#[trigger] tv[j]).tick != tick@,
        decreases ts@.len() - i,
    {
        if ts[i].tick.eq(tick) {
            proof {
                lemma_ticker_idx_scan(tv, tick@, i as int);
            }
            return Some(i);
        }
        i = i + 1;
    }
    proof {
        lemma_ticker_idx_scan(tv, tick@, ts@.len() as int);
    }
    None
}

/// Finds the first balance entry for `(tick, addr)`, as `bal_idx` specifies.
pub fn find_balance(bs: &Vec<Balance>, tick: &String, addr: &String) -> (r: Option<usize>)
    ensures
        ({
            let bv = bs@.map_values(|b: Balance| b@);
            match r {
                Some(i) => i < bs@.len() && bal_idx(bv, tick@, addr@) == Some(i as int),
                None => bal_idx(bv, tick@, addr@) is None,
            }
        }),
{
    let ghost bv = bs@.map_values(|b: Balance| b@);
    let mut i: usize = 0;
    while i < bs.len()
        invariant
            i <= bs@.len(),
            bv == bs@.map_values(|b: Balance| b@),
            forall|j: int|
                0 <= j < i ==> !((#[trigger] bv[j]).tick == tick@ && bv[j].address == addr@),
        decreases bs@.len() - i,
    {
        if bs[i].tick.eq(tick) && bs[i].address.eq(addr) {
            proof {
                lemma_bal_idx_scan(bv, tick@, addr@, i as int);
            }
            return Some(i);
        }
        i = i + 1;
    }
    proof {
        lemma_bal_idx_scan(bv, tick@, addr@, bs@.len() as int);
    }
    None
}

/// Finds the most recent lock bound to `id`, as `lock_idx` specifies.
pub fn find_lock(ls: &Vec<TransferLock>, id: &String) -> (r: Option<usize>)
    ensures
        ({
            let lv = ls@.map_values(|l: TransferLock| l@);
            match r {
                Some(i) => i < ls@.len() && lock_idx(lv, id@) == Some(i as int),
                None => lock_idx(lv, id@) is None,
            }
        }),
{
    let ghost lv = ls@.map_values(|l: TransferLock| l@);
    let mut i = ls.len();
    proof {
        assert(lv.subrange(0, lv.len() as int) =~= lv);
    }
    while i > 0
        invariant
            i <= ls@.len(),
            lv == ls@.map_values(|l: TransferLock| l@),
            lock_idx(lv, id@) == lock_idx(lv.subrange(0, i as int), id@),
        decreases i,
    {
        i = i - 1;
        let hit = ls[i].inscription_id.eq(id);
        proof {
            let cur = lv.subrange(0, (i + 1) as int);
            assert(cur.last() == lv[i as int]);
            assert(cur.drop_last() =~= lv.subrange(0, i as int));
        }
        if hit {
            return Some(i);
        }
    }
    proof {
        assert(lv.subrange(0, 0) =~= Seq::<LockV>::empty());
    }
    None
}

} // verus!
