//! The conservation law of the ledger.
//!
//! Across all addresses, a ticker's available and transferable balances
//! together always equal its minted total, and the minted total never
//! exceeds its supply cap — no operation creates or destroys funds. The
//! empty ledger satisfies this trivially, and the transition function
//! preserves it, so every reachable state does.

use vstd::prelude::*;
use crate::engine::{
    add_r, bal_of, bal_set, lemma_arith_wf, lemma_bal_set_wf, lemma_num_of_text_wf, num_of_text,
    spec_apply, spec_deploy, spec_inscribe_transfer, spec_mint, spec_transfer, sub_r, CtxV, OpV,
};
use crate::ledger::{
    bal_idx, lemma_bal_idx_props, lemma_lock_idx_props, lemma_ticker_idx_props, lock_idx,
    ticker_idx, BalanceV, LedgerV, TickerV,
};
use crate::num::{
    aligned, lemma_add_exact_at, lemma_lt_at, lemma_sub_exact_at, spec_lt, Num, MAX_DECIMAL_WIDTH,
};

verus! {

/// What one balance entry holds, measured at the protocol width.
pub open spec fn entry_held(b: BalanceV) -> nat {
    aligned(b.available, MAX_DECIMAL_WIDTH as nat) + aligned(
        b.transferable,
        MAX_DECIMAL_WIDTH as nat,
    )
}

/// What all addresses together hold of `tick`, at the protocol width.
pub open spec fn tick_held(bs: Seq<BalanceV>, tick: Seq<char>) -> nat
    decreases bs.len(),
{
    if bs.len() == 0 {
        0
    } else {
        (if bs[0].tick == tick {
            entry_held(bs[0])
        } else {
            0
        }) + tick_held(bs.drop_first(), tick)
    }
}

/// The conservation invariant: ticker symbols are unique; what is held of
/// each ticker equals its minted total; no minted total exceeds its supply
/// cap; and every balance entry and every lock belongs to a registered
/// ticker.
pub open spec fn conserves(l: LedgerV) -> bool {
    &&& forall|i: int, j: int|
        0 <= i < j < l.tickers.len() ==> (#[trigger] l.tickers[i]).tick != (
        #[trigger] l.tickers[j]).tick
    &&& forall|i: int|
        0 <= i < l.tickers.len() ==> tick_held(l.balances, (#[trigger] l.tickers[i]).tick)
            == aligned(l.tickers[i].minted, MAX_DECIMAL_WIDTH as nat)
    &&& forall|i: int|
        0 <= i < l.tickers.len() ==> aligned(
            (#[trigger] l.tickers[i]).minted,
            MAX_DECIMAL_WIDTH as nat,
        ) <= aligned(l.tickers[i].supply, MAX_DECIMAL_WIDTH as nat)
    &&& forall|i: int|
        0 <= i < l.balances.len() ==> ticker_idx(
            l.tickers,
            (#[trigger] l.balances[i]).tick,
        ) is Some
    &&& forall|i: int|
        0 <= i < l.locks.len() ==> ticker_idx(l.tickers, (#[trigger] l.locks[i]).tick) is Some
}

/// The empty ledger conserves trivially.
pub proof fn lemma_empty_conserves(l: LedgerV)
    requires
        l.tickers.len() == 0,
        l.balances.len() == 0,
        l.locks.len() == 0,
    ensures
        conserves(l),
{
}

/// A ticker held by no entry is held in amount zero.
proof fn lemma_tick_held_absent(bs: Seq<BalanceV>, tick: Seq<char>)
    requires
        forall|i: int| 0 <= i < bs.len() ==> (#[trigger] bs[i]).tick != tick,
    ensures
        tick_held(bs, tick) == 0,
    decreases bs.len(),
{
    if bs.len() > 0 {
        let rest = bs.drop_first();
        assert(forall|i: int| 0 <= i < rest.len() ==> rest[i] == bs[i + 1]);
        lemma_tick_held_absent(rest, tick);
    }
}

/// Replacing one entry with another of the same ticker symbol trades its
/// contribution for the new one, and touches no other ticker's total.
proof fn lemma_tick_held_update(bs: Seq<BalanceV>, i: int, e2: BalanceV, qt: Seq<char>)
    requires
        0 <= i < bs.len(),
        bs[i].tick == e2.tick,
    ensures
        tick_held(bs.update(i, e2), qt) + (if bs[i].tick == qt {
            entry_held(bs[i])
        } else {
            0
        }) == tick_held(bs, qt) + (if e2.tick == qt {
            entry_held(e2)
        } else {
            0
        }),
    decreases bs.len(),
{
    let u = bs.update(i, e2);
    if i == 0 {
        assert(u.drop_first() =~= bs.drop_first());
        assert(u[0] == e2);
    } else {
        assert(u.drop_first() =~= bs.drop_first().update(i - 1, e2));
        assert(u[0] == bs[0]);
        lemma_tick_held_update(bs.drop_first(), i - 1, e2, qt);
        assert(bs.drop_first()[i - 1] == bs[i]);
    }
}

/// Appending an entry adds its contribution to its own ticker's total, and
/// touches no other ticker's total.
proof fn lemma_tick_held_push(bs: Seq<BalanceV>, e: BalanceV, qt: Seq<char>)
    ensures
        tick_held(bs.push(e), qt) == tick_held(bs, qt) + (if e.tick == qt {
            entry_held(e)
        } else {
            0
        }),
    decreases bs.len(),
{
    let u = bs.push(e);
    if bs.len() == 0 {
        assert(u[0] == e);
        assert(u.drop_first() =~= Seq::<BalanceV>::empty());
        assert(tick_held(Seq::<BalanceV>::empty(), qt) == 0);
    } else {
        assert(u.drop_first() =~= bs.drop_first().push(e));
        assert(u[0] == bs[0]);
        lemma_tick_held_push(bs.drop_first(), e, qt);
    }
}

/// Setting the entry for `(tick, addr)` trades its old contribution for
/// the new one, and touches no other ticker's total.
proof fn lemma_tick_held_set(
    bs: Seq<BalanceV>,
    tick: Seq<char>,
    addr: Seq<char>,
    a2: Num,
    t2: Num,
    qt: Seq<char>,
)
    ensures
        ({
            let w = MAX_DECIMAL_WIDTH as nat;
            let held = bal_of(bs, tick, addr);
            tick_held(bal_set(bs, tick, addr, a2, t2), qt) + (if tick == qt {
                aligned(held.0, w) + aligned(held.1, w)
            } else {
                0
            }) == tick_held(bs, qt) + (if tick == qt {
                aligned(a2, w) + aligned(t2, w)
            } else {
                0
            })
        }),
{
    let w = MAX_DECIMAL_WIDTH as nat;
    let e2 = BalanceV { tick, address: addr, available: a2, transferable: t2 };
    lemma_bal_idx_props(bs, tick, addr);
    match bal_idx(bs, tick, addr) {
        Some(i) => {
            lemma_tick_held_update(bs, i, e2, qt);
        },
        None => {
            lemma_tick_held_push(bs, e2, qt);
            let z = Num { mantissa: 0, scale: 0 };
            assert(aligned(z, w) == 0) by {
                assert(0 * crate::num::pow10((w - 0) as nat) == 0) by (nonlinear_arith);
            }
        },
    }
}

/// A lookup that succeeds keeps succeeding after a new ticker is appended.
proof fn lemma_ticker_idx_push(ts: Seq<TickerV>, t: TickerV, k: Seq<char>)
    requires
        ticker_idx(ts, k) is Some,
    ensures
        ticker_idx(ts.push(t), k) is Some,
    decreases ts.len(),
{
    let u = ts.push(t);
    if ts.len() > 0 {
        assert(u[0] == ts[0]);
        if ts[0].tick != k {
            assert(u.drop_first() =~= ts.drop_first().push(t));
            lemma_ticker_idx_push(ts.drop_first(), t, k);
        }
    }
}

/// Replacing a ticker record with one of the same symbol changes no
/// lookup.
proof fn lemma_ticker_idx_update_same(ts: Seq<TickerV>, i: int, t2: TickerV, k: Seq<char>)
    requires
        0 <= i < ts.len(),
        ts[i].tick == t2.tick,
    ensures
        ticker_idx(ts.update(i, t2), k) == ticker_idx(ts, k),
    decreases ts.len(),
{
    let u = ts.update(i, t2);
    if i == 0 {
        assert(u.drop_first() =~= ts.drop_first());
        assert(u[0].tick == ts[0].tick);
    } else {
        assert(u.drop_first() =~= ts.drop_first().update(i - 1, t2));
        assert(u[0] == ts[0]);
        lemma_ticker_idx_update_same(ts.drop_first(), i - 1, t2, k);
        assert(ts.drop_first()[i - 1] == ts[i]);
    }
}

/// The transition preserves conservation: no operation mints beyond the
/// cap, and none creates or destroys held funds.
pub proof fn lemma_apply_conserves(l: LedgerV, op: OpV, ctx: CtxV)
    requires
        l.well_formed(),
        conserves(l),
    ensures
        conserves(spec_apply(l, op, ctx).0),
{
    match op {
        OpV::Deploy { tick, max, lim, dec } => {
            lemma_deploy_conserves(l, tick, max, lim, dec, ctx);
        },
        OpV::Mint { tick, tid, amt } => {
            lemma_mint_conserves(l, tick, amt, ctx);
        },
        OpV::InscribeTransfer { tick, amt } => {
            lemma_inscribe_conserves(l, tick, amt, ctx);
        },
        OpV::Transfer { tid, tick, amt } => {
            lemma_transfer_conserves(l, ctx);
        },
    }
}

proof fn lemma_deploy_conserves(
    l: LedgerV,
    tick: Seq<char>,
    max: Seq<char>,
    lim: Seq<char>,
    dec: Seq<char>,
    ctx: CtxV,
)
    requires
        l.well_formed(),
        conserves(l),
    ensures
        conserves(spec_deploy(l, tick, max, lim, dec, ctx).0),
{
    let w = MAX_DECIMAL_WIDTH as nat;
    let l2 = spec_deploy(l, tick, max, lim, dec, ctx).0;
    if l2 != l {
        // the success branch: a fresh ticker was appended, nothing else
        // moved
        lemma_ticker_idx_props(l.tickers, tick);
        let ts2 = l2.tickers;
        assert(ts2 == l.tickers.push(ts2.last()));
        assert(ts2.last().tick == tick && ts2.last().minted == (Num { mantissa: 0, scale: 0 }));
        assert(forall|i: int| 0 <= i < l.tickers.len() ==> ts2[i] == l.tickers[i]);
        // no balance entry can belong to the fresh symbol
        assert(forall|i: int| 0 <= i < l.balances.len() ==> (#[trigger] l.balances[i]).tick != tick)
            by {
            assert(forall|i: int|
                0 <= i < l.balances.len() ==> ticker_idx(
                    l.tickers,
                    (#[trigger] l.balances[i]).tick,
                ) is Some);
        }
        lemma_tick_held_absent(l.balances, tick);
        assert(aligned(Num { mantissa: 0, scale: 0 }, w) == 0) by (nonlinear_arith);
        // old lookups keep succeeding in the longer registry
        assert(forall|i: int|
            0 <= i < l.balances.len() ==> ticker_idx(ts2, (#[trigger] l.balances[i]).tick)
                is Some) by {
            assert forall|i: int| 0 <= i < l.balances.len() implies ticker_idx(
                ts2,
                (#[trigger] l.balances[i]).tick,
            ) is Some by {
                lemma_ticker_idx_push(l.tickers, ts2.last(), l.balances[i].tick);
            }
        }
        assert(forall|i: int|
            0 <= i < l.locks.len() ==> ticker_idx(ts2, (#[trigger] l.locks[i]).tick) is Some) by {
            assert forall|i: int| 0 <= i < l.locks.len() implies ticker_idx(
                ts2,
                (#[trigger] l.locks[i]).tick,
            ) is Some by {
                lemma_ticker_idx_push(l.tickers, ts2.last(), l.locks[i].tick);
            }
        }
    }
}

proof fn lemma_mint_conserves(l: LedgerV, tick: Seq<char>, amt: Seq<char>, ctx: CtxV)
    requires
        l.well_formed(),
        conserves(l),
    ensures
        conserves(spec_mint(l, tick, amt, ctx).0),
{
    let w = MAX_DECIMAL_WIDTH as nat;
    let l2 = spec_mint(l, tick, amt, ctx).0;
    if l2 != l {
        lemma_ticker_idx_props(l.tickers, tick);
        let ti = ticker_idx(l.tickers, tick).unwrap();
        let t = l.tickers[ti];
        assert(t.nums_well_formed());
        lemma_num_of_text_wf(amt);
        let amount = num_of_text(amt)->Ok_0;
        let remaining = sub_r(t.supply, t.minted)->Ok_0;
        lemma_arith_wf(t.supply, t.minted);
        lemma_sub_exact_at(t.supply, t.minted, remaining, w);
        let actual = if spec_lt(remaining, amount) {
            remaining
        } else {
            amount
        };
        lemma_lt_at(remaining, amount, w);
        assert(aligned(actual, w) <= aligned(remaining, w));
        let minted2 = add_r(t.minted, actual)->Ok_0;
        lemma_add_exact_at(t.minted, actual, minted2, w);
        assert(aligned(minted2, w) <= aligned(t.supply, w));

        lemma_bal_idx_props(l.balances, tick, ctx.to);
        let held = bal_of(l.balances, tick, ctx.to);
        let avail2 = add_r(held.0, actual)->Ok_0;
        assert(held.0.well_formed() && held.0.scale <= MAX_DECIMAL_WIDTH && held.1.scale
            <= MAX_DECIMAL_WIDTH) by {
            if bal_idx(l.balances, tick, ctx.to) is Some {
                let bi = bal_idx(l.balances, tick, ctx.to).unwrap();
                assert(l.balances[bi].nums_well_formed());
            }
        }
        lemma_add_exact_at(held.0, actual, avail2, w);

        let ts2 = l.tickers.update(ti, TickerV { minted: minted2, ..t });
        let bs2 = bal_set(l.balances, tick, ctx.to, avail2, held.1);
        assert(l2.tickers == ts2 && l2.balances == bs2 && l2.locks == l.locks);

        // each ticker's held total and minted total move in step
        assert(forall|i: int|
            0 <= i < ts2.len() ==> tick_held(bs2, (#[trigger] ts2[i]).tick) == aligned(
                ts2[i].minted,
                w,
            )) by {
            assert forall|i: int| 0 <= i < ts2.len() implies tick_held(
                bs2,
                (#[trigger] ts2[i]).tick,
            ) == aligned(ts2[i].minted, w) by {
                lemma_tick_held_set(l.balances, tick, ctx.to, avail2, held.1, ts2[i].tick);
                if i != ti {
                    // symbols are unique, so this ticker's total is
                    // untouched
                    assert(l.tickers[i].tick != tick);
                }
            }
        }
        // lookups are unchanged by an update that keeps the symbol
        assert(forall|k: int|
            0 <= k < bs2.len() ==> ticker_idx(ts2, (#[trigger] bs2[k]).tick) is Some) by {
            assert forall|k: int| 0 <= k < bs2.len() implies ticker_idx(
                ts2,
                (#[trigger] bs2[k]).tick,
            ) is Some by {
                lemma_ticker_idx_update_same(l.tickers, ti, TickerV { minted: minted2, ..t },
                    bs2[k].tick);
                if bal_idx(l.balances, tick, ctx.to) is Some {
                    if k != bal_idx(l.balances, tick, ctx.to).unwrap() {
                        assert(bs2[k] == l.balances[k]);
                    }
                } else {
                    if k < l.balances.len() {
                        assert(bs2[k] == l.balances[k]);
                    } else {
                        assert(bs2[k].tick == tick);
                    }
                }
            }
        }
        assert(forall|k: int|
            0 <= k < l.locks.len() ==> ticker_idx(ts2, (#[trigger] l.locks[k]).tick) is Some) by {
            assert forall|k: int| 0 <= k < l.locks.len() implies ticker_idx(
                ts2,
                (#[trigger] l.locks[k]).tick,
            ) is Some by {
                lemma_ticker_idx_update_same(l.tickers, ti, TickerV { minted: minted2, ..t },
                    l.locks[k].tick);
            }
        }
    }
}

proof fn lemma_inscribe_conserves(l: LedgerV, tick: Seq<char>, amt: Seq<char>, ctx: CtxV)
    requires
        l.well_formed(),
        conserves(l),
    ensures
        conserves(spec_inscribe_transfer(l, tick, amt, ctx).0),
{
    let w = MAX_DECIMAL_WIDTH as nat;
    let l2 = spec_inscribe_transfer(l, tick, amt, ctx).0;
    if l2 != l {
        lemma_ticker_idx_props(l.tickers, tick);
        lemma_num_of_text_wf(amt);
        let amount = num_of_text(amt)->Ok_0;
        lemma_bal_idx_props(l.balances, tick, ctx.from);
        let held = bal_of(l.balances, tick, ctx.from);
        assert(held.0.well_formed() && held.0.scale <= MAX_DECIMAL_WIDTH && held.1.well_formed()
            && held.1.scale <= MAX_DECIMAL_WIDTH) by {
            if bal_idx(l.balances, tick, ctx.from) is Some {
                let bi = bal_idx(l.balances, tick, ctx.from).unwrap();
                assert(l.balances[bi].nums_well_formed());
            }
        }
        let avail2 = sub_r(held.0, amount)->Ok_0;
        let transf2 = add_r(held.1, amount)->Ok_0;
        lemma_sub_exact_at(held.0, amount, avail2, w);
        lemma_add_exact_at(held.1, amount, transf2, w);
        let bs2 = bal_set(l.balances, tick, ctx.from, avail2, transf2);
        assert(l2.tickers == l.tickers && l2.balances == bs2);
        assert(l2.locks == l.locks.push(l2.locks.last()) && l2.locks.last().tick == tick);

        // the move within one entry keeps every ticker's total unchanged
        assert(forall|i: int|
            0 <= i < l.tickers.len() ==> tick_held(bs2, (#[trigger] l.tickers[i]).tick) == aligned(
                l.tickers[i].minted,
                w,
            )) by {
            assert forall|i: int| 0 <= i < l.tickers.len() implies tick_held(
                bs2,
                (#[trigger] l.tickers[i]).tick,
            ) == aligned(l.tickers[i].minted, w) by {
                lemma_tick_held_set(l.balances, tick, ctx.from, avail2, transf2, l.tickers[i].tick);
            }
        }
        assert(forall|k: int|
            0 <= k < bs2.len() ==> ticker_idx(l.tickers, (#[trigger] bs2[k]).tick) is Some) by {
            assert forall|k: int| 0 <= k < bs2.len() implies ticker_idx(
                l.tickers,
                (#[trigger] bs2[k]).tick,
            ) is Some by {
                if bal_idx(l.balances, tick, ctx.from) is Some {
                    if k != bal_idx(l.balances, tick, ctx.from).unwrap() {
                        assert(bs2[k] == l.balances[k]);
                    }
                } else {
                    if k < l.balances.len() {
                        assert(bs2[k] == l.balances[k]);
                    } else {
                        assert(bs2[k].tick == tick);
                    }
                }
            }
        }
        assert(forall|k: int|
            0 <= k < l2.locks.len() ==> ticker_idx(l.tickers, (#[trigger] l2.locks[k]).tick)
                is Some) by {
            assert(forall|k: int| 0 <= k < l.locks.len() ==> l2.locks[k] == l.locks[k]);
        }
    }
}

proof fn lemma_transfer_conserves(l: LedgerV, ctx: CtxV)
    requires
        l.well_formed(),
        conserves(l),
    ensures
        conserves(spec_transfer(l, ctx).0),
{
    let w = MAX_DECIMAL_WIDTH as nat;
    let l2 = spec_transfer(l, ctx).0;
    if l2 != l {
        lemma_lock_idx_props(l.locks, ctx.inscription_id);
        let li = lock_idx(l.locks, ctx.inscription_id).unwrap();
        let lk = l.locks[li];
        assert(lk.amount.well_formed() && lk.amount.scale <= MAX_DECIMAL_WIDTH);
        assert(ticker_idx(l.tickers, lk.tick) is Some);
        lemma_bal_idx_props(l.balances, lk.tick, ctx.from);
        let held_f = bal_of(l.balances, lk.tick, ctx.from);
        assert(held_f.0.well_formed() && held_f.0.scale <= MAX_DECIMAL_WIDTH
            && held_f.1.well_formed() && held_f.1.scale <= MAX_DECIMAL_WIDTH) by {
            if bal_idx(l.balances, lk.tick, ctx.from) is Some {
                let bi = bal_idx(l.balances, lk.tick, ctx.from).unwrap();
                assert(l.balances[bi].nums_well_formed());
            }
        }
        let transf2 = sub_r(held_f.1, lk.amount)->Ok_0;
        lemma_sub_exact_at(held_f.1, lk.amount, transf2, w);
        lemma_arith_wf(held_f.1, lk.amount);
        let bs2 = bal_set(l.balances, lk.tick, ctx.from, held_f.0, transf2);
        lemma_bal_set_wf(l.balances, lk.tick, ctx.from, held_f.0, transf2);

        lemma_bal_idx_props(bs2, lk.tick, ctx.to);
        let held_t = bal_of(bs2, lk.tick, ctx.to);
        assert(held_t.0.well_formed() && held_t.0.scale <= MAX_DECIMAL_WIDTH
            && held_t.1.well_formed() && held_t.1.scale <= MAX_DECIMAL_WIDTH) by {
            if bal_idx(bs2, lk.tick, ctx.to) is Some {
                let bj = bal_idx(bs2, lk.tick, ctx.to).unwrap();
                assert(bs2[bj].nums_well_formed());
            }
        }
        let avail_t2 = add_r(held_t.0, lk.amount)->Ok_0;
        lemma_add_exact_at(held_t.0, lk.amount, avail_t2, w);
        let bs3 = bal_set(bs2, lk.tick, ctx.to, avail_t2, held_t.1);
        assert(l2.tickers == l.tickers && l2.balances == bs3 && l2.locks == l.locks.remove(li));

        // the debit and the credit cancel for the lock's ticker, and no
        // other ticker's entries moved
        assert(forall|i: int|
            0 <= i < l.tickers.len() ==> tick_held(bs3, (#[trigger] l.tickers[i]).tick) == aligned(
                l.tickers[i].minted,
                w,
            )) by {
            assert forall|i: int| 0 <= i < l.tickers.len() implies tick_held(
                bs3,
                (#[trigger] l.tickers[i]).tick,
            ) == aligned(l.tickers[i].minted, w) by {
                lemma_tick_held_set(
                    l.balances,
                    lk.tick,
                    ctx.from,
                    held_f.0,
                    transf2,
                    l.tickers[i].tick,
                );
                lemma_tick_held_set(bs2, lk.tick, ctx.to, avail_t2, held_t.1, l.tickers[i].tick);
            }
        }
        // every entry of the new balances still belongs to a registered
        // ticker
        assert(forall|k: int|
            0 <= k < bs3.len() ==> ticker_idx(l.tickers, (#[trigger] bs3[k]).tick) is Some) by {
            assert(forall|k: int|
                0 <= k < bs2.len() ==> ticker_idx(l.tickers, (#[trigger] bs2[k]).tick) is Some)
                by {
                assert forall|k: int| 0 <= k < bs2.len() implies ticker_idx(
                    l.tickers,
                    (#[trigger] bs2[k]).tick,
                ) is Some by {
                    if bal_idx(l.balances, lk.tick, ctx.from) is Some {
                        if k != bal_idx(l.balances, lk.tick, ctx.from).unwrap() {
                            assert(bs2[k] == l.balances[k]);
                        }
                    } else {
                        if k < l.balances.len() {
                            assert(bs2[k] == l.balances[k]);
                        } else {
                            assert(bs2[k].tick == lk.tick);
                        }
                    }
                }
            }
            assert forall|k: int| 0 <= k < bs3.len() implies ticker_idx(
                l.tickers,
                (#[trigger] bs3[k]).tick,
            ) is Some by {
                if bal_idx(bs2, lk.tick, ctx.to) is Some {
                    if k != bal_idx(bs2, lk.tick, ctx.to).unwrap() {
                        assert(bs3[k] == bs2[k]);
                    }
                } else {
                    if k < bs2.len() {
                        assert(bs3[k] == bs2[k]);
                    } else {
                        assert(bs3[k].tick == lk.tick);
                    }
                }
            }
        }
        // removing the consumed lock keeps only locks of registered tickers
        assert(forall|k: int|
            0 <= k < l2.locks.len() ==> ticker_idx(l.tickers, (#[trigger] l2.locks[k]).tick)
                is Some) by {
            assert(forall|k: int|
                0 <= k < l2.locks.len() ==> l2.locks[k] == (if k < li {
                    l.locks[k]
                } else {
                    l.locks[k + 1]
                }));
        }
    }
}

} // verus!
