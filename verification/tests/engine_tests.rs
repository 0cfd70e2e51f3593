use brc20_engine::engine::{Context, Event, OperationType, Receipt};
use brc20_engine::error::BRC20Error;
use brc20_engine::ledger::{Ledger, ScriptPubkey};
use brc20_engine::num::Num;
use brc20_engine::operation::{Deploy, InscribeTransfer, Mint, Operation, Transfer};

fn ctx(id: &str, from: &str, to: &str) -> Context {
    Context {
        inscription_id: id.to_string(),
        inscription_number: 1,
        old_satpoint: format!("{}:0:0", id),
        new_satpoint: format!("{}:1:0", id),
        from: ScriptPubkey {
            script: from.to_string(),
        },
        to: ScriptPubkey {
            script: to.to_string(),
        },
    }
}

fn deploy(tick: &str, max: &str, lim: &str, dec: &str) -> Operation {
    Operation::Deploy(Deploy {
        tick: tick.to_string(),
        max_supply: max.to_string(),
        mint_limit: lim.to_string(),
        decimals: dec.to_string(),
    })
}

fn mint(tick: &str, amt: &str) -> Operation {
    Operation::Mint(Mint {
        tick: tick.to_string(),
        tick_id: None,
        amount: amt.to_string(),
    })
}

fn inscribe(tick: &str, amt: &str) -> Operation {
    Operation::InscribeTransfer(InscribeTransfer {
        tick: tick.to_string(),
        amount: amt.to_string(),
    })
}

fn transfer(tick: &str, amt: &str) -> Operation {
    Operation::Transfer(Transfer {
        tick_id: "tid".to_string(),
        tick: tick.to_string(),
        amount: amt.to_string(),
    })
}

fn balances_of(l: &Ledger, tick: &str, addr: &str) -> (Num, Num) {
    l.get_balance(&tick.to_string(), &addr.to_string())
}

fn num(s: &str) -> Num {
    Num::from_str(s).unwrap()
}

#[test]
fn test_deploy_and_duplicate() {
    let mut l = Ledger::new();
    let r1 = l.apply(&deploy("ordi", "21000000", "1000", "18"), &ctx("i1", "a", "a"));
    assert!(r1.result.is_ok());
    assert_eq!(l.tickers.len(), 1);
    assert_eq!(l.tickers[0].tick, "ordi");
    assert_eq!(l.tickers[0].decimal, 18);

    // a second deploy of the same symbol is rejected and changes nothing
    let before = l.clone();
    let r2 = l.apply(&deploy("ordi", "5", "5", "0"), &ctx("i2", "b", "b"));
    assert_eq!(
        r2.result.unwrap_err(),
        BRC20Error::DuplicateTick("ordi".to_string())
    );
    assert_eq!(l, before);
}

#[test]
fn test_deploy_validation() {
    let mut l = Ledger::new();
    let r = l.apply(&deploy("x", "0", "1", "0"), &ctx("i1", "a", "a"));
    assert_eq!(
        r.result.unwrap_err(),
        BRC20Error::InvalidSupply("0".to_string())
    );
    let r = l.apply(&deploy("x", "18446744073709551616", "1", "0"), &ctx("i2", "a", "a"));
    assert_eq!(
        r.result.unwrap_err(),
        BRC20Error::InvalidSupply("18446744073709551616".to_string())
    );
    let r = l.apply(&deploy("x", "10", "1", "19"), &ctx("i3", "a", "a"));
    assert_eq!(r.result.unwrap_err(), BRC20Error::DecimalsTooLarge(19));
    let r = l.apply(&deploy("x", "10", "1", "not-a-number"), &ctx("i4", "a", "a"));
    assert_eq!(
        r.result.unwrap_err(),
        BRC20Error::InvalidNum("not-a-number".to_string())
    );
    assert_eq!(l.tickers.len(), 0);
}

#[test]
fn test_mint_validation() {
    let mut l = Ledger::new();
    let r = l.apply(&mint("ghost", "1"), &ctx("i0", "a", "a"));
    assert_eq!(
        r.result.unwrap_err(),
        BRC20Error::TickNotFound("ghost".to_string())
    );

    l.apply(&deploy("ordi", "1000", "100", "0"), &ctx("i1", "a", "a"));
    let r = l.apply(&mint("ordi", "0"), &ctx("i2", "a", "a"));
    assert_eq!(
        r.result.unwrap_err(),
        BRC20Error::InvalidAmount("0".to_string())
    );
    let r = l.apply(&mint("ordi", "101"), &ctx("i3", "a", "a"));
    assert_eq!(
        r.result.unwrap_err(),
        BRC20Error::AmountExceedsLimit("101".to_string())
    );
}

#[test]
fn test_mint_truncates_to_remaining_supply() {
    let mut l = Ledger::new();
    l.apply(&deploy("ordi", "1000", "1000", "0"), &ctx("i1", "a", "a"));
    let r = l.apply(&mint("ordi", "900"), &ctx("i2", "a", "a"));
    match r.result.unwrap() {
        Event::Mint(m) => assert_eq!(m.amount, num("900")),
        _ => panic!("expected a mint event"),
    }
    // requesting 200 with only 100 left mints 100, and still succeeds
    let r = l.apply(&mint("ordi", "200"), &ctx("i3", "a", "a"));
    match r.result.unwrap() {
        Event::Mint(m) => assert_eq!(m.amount, num("100")),
        _ => panic!("expected a mint event"),
    }
    let rec = l.get_ticker(&"ordi".to_string()).unwrap();
    assert_eq!(rec.minted, num("1000"));
    assert_eq!(rec.supply, num("1000"));
    assert_eq!(balances_of(&l, "ordi", "a").0, num("1000"));

    // the supply is now exhausted
    let r = l.apply(&mint("ordi", "1"), &ctx("i4", "a", "a"));
    assert_eq!(
        r.result.unwrap_err(),
        BRC20Error::SupplyExhausted("ordi".to_string())
    );
}

#[test]
fn test_inscribe_transfer_insufficient_balance() {
    let mut l = Ledger::new();
    l.apply(&deploy("ordi", "1000", "1000", "0"), &ctx("i1", "a", "a"));
    l.apply(&mint("ordi", "100"), &ctx("i2", "a", "a"));
    let before = l.clone();
    let r = l.apply(&inscribe("ordi", "150"), &ctx("i3", "a", "a"));
    assert_eq!(
        r.result.unwrap_err(),
        BRC20Error::InsufficientBalance {
            requested: num("150"),
            available: num("100"),
        }
    );
    assert_eq!(l, before);
    assert_eq!(balances_of(&l, "ordi", "a"), (num("100"), num("0")));
}

#[test]
fn test_full_transfer_lifecycle() {
    let mut l = Ledger::new();
    let r = l.apply(&deploy("X", "1000", "1000", "0"), &ctx("i1", "a", "a"));
    assert!(r.result.is_ok());
    let r = l.apply(&mint("X", "500"), &ctx("i2", "a", "a"));
    assert!(r.result.is_ok());
    assert_eq!(balances_of(&l, "X", "a"), (num("500"), num("0")));

    let r = l.apply(&inscribe("X", "200"), &ctx("i3", "a", "a"));
    assert!(r.result.is_ok());
    assert_eq!(balances_of(&l, "X", "a"), (num("300"), num("200")));
    assert_eq!(l.locks.len(), 1);

    // the inscribed transfer now moves from a to b
    let r = l.apply(&transfer("X", "200"), &ctx("i3", "a", "b"));
    match r.result.unwrap() {
        Event::Transfer(t) => {
            assert_eq!(t.tick, "X");
            assert_eq!(t.amount, num("200"));
        }
        _ => panic!("expected a transfer event"),
    }
    assert_eq!(balances_of(&l, "X", "a"), (num("300"), num("0")));
    assert_eq!(balances_of(&l, "X", "b"), (num("200"), num("0")));
    assert_eq!(l.locks.len(), 0);

    // the lock is consumed exactly once: a replayed move finds none
    let r = l.apply(&transfer("X", "200"), &ctx("i3", "b", "c"));
    assert_eq!(
        r.result.unwrap_err(),
        BRC20Error::LockNotFound("i3".to_string())
    );
}

#[test]
fn test_transfer_by_address_without_transferable_balance() {
    let mut l = Ledger::new();
    l.apply(&deploy("X", "1000", "1000", "0"), &ctx("i1", "a", "a"));
    l.apply(&mint("X", "500"), &ctx("i2", "a", "a"));
    l.apply(&inscribe("X", "200"), &ctx("i3", "a", "a"));
    // the inscription moves, but the stated sender holds nothing transferable
    let r = l.apply(&transfer("X", "200"), &ctx("i3", "c", "b"));
    assert_eq!(
        r.result.unwrap_err(),
        BRC20Error::InsufficientBalance {
            requested: num("200"),
            available: num("0"),
        }
    );
    // nothing moved and the lock is still outstanding
    assert_eq!(balances_of(&l, "X", "a"), (num("300"), num("200")));
    assert_eq!(l.locks.len(), 1);
}

#[test]
fn test_reinscribed_lock_resolves_to_most_recent() {
    let mut l = Ledger::new();
    l.apply(&deploy("X", "1000", "1000", "0"), &ctx("i1", "a", "a"));
    l.apply(&mint("X", "500"), &ctx("i2", "a", "a"));
    l.apply(&inscribe("X", "200"), &ctx("dup", "a", "a"));
    l.apply(&inscribe("X", "50"), &ctx("dup", "a", "a"));
    assert_eq!(l.locks.len(), 2);
    // the same inscription id was inscribed twice: the move consumes the
    // most recent lock
    let r = l.apply(&transfer("X", "50"), &ctx("dup", "a", "b"));
    match r.result.unwrap() {
        Event::Transfer(t) => assert_eq!(t.amount, num("50")),
        _ => panic!("expected a transfer event"),
    }
    assert_eq!(l.locks.len(), 1);
    assert_eq!(balances_of(&l, "X", "b").0, num("50"));
    assert_eq!(balances_of(&l, "X", "a"), (num("250"), num("200")));
}

#[test]
fn test_transfer_without_lock() {
    let mut l = Ledger::new();
    let r = l.apply(&transfer("X", "5"), &ctx("never-inscribed", "a", "b"));
    assert_eq!(
        r.result.unwrap_err(),
        BRC20Error::LockNotFound("never-inscribed".to_string())
    );
}

#[test]
fn test_invalid_amount_text_is_validation_not_parse() {
    let mut l = Ledger::new();
    l.apply(&deploy("ordi", "1000", "1000", "0"), &ctx("i1", "a", "a"));
    let r = l.apply(&mint("ordi", "12a"), &ctx("i2", "a", "a"));
    assert_eq!(r.op, OperationType::Mint);
    assert_eq!(
        r.result.unwrap_err(),
        BRC20Error::InvalidNum("12a".to_string())
    );
}

fn scripted_history() -> Vec<(Operation, Context)> {
    vec![
        (deploy("ordi", "1000", "1000", "2"), ctx("i1", "a", "a")),
        (mint("ordi", "400.25"), ctx("i2", "a", "a")),
        (mint("ordi", "400.25"), ctx("i3", "a", "b")),
        (inscribe("ordi", "100.5"), ctx("i4", "a", "a")),
        (transfer("ordi", "100.5"), ctx("i4", "a", "b")),
        (mint("ordi", "999"), ctx("i5", "b", "b")),
        (inscribe("ordi", "1000000"), ctx("i6", "b", "b")),
    ]
}

#[test]
fn test_replay_determinism() {
    // the same ordered history, replayed from the empty ledger, produces
    // the same ledger and the same receipts
    let mut l1 = Ledger::new();
    let mut r1: Vec<Receipt> = Vec::new();
    for (op, c) in scripted_history() {
        r1.push(l1.apply(&op, &c));
    }
    let mut l2 = Ledger::new();
    let mut r2: Vec<Receipt> = Vec::new();
    for (op, c) in scripted_history() {
        r2.push(l2.apply(&op, &c));
    }
    assert_eq!(l1, l2);
    assert_eq!(r1, r2);
}

#[test]
fn test_balance_ledger_operations() {
    let mut l = Ledger::new();
    let tick = "ordi".to_string();
    let addr = "a".to_string();
    l.credit_available(&tick, &addr, &num("10")).unwrap();
    l.credit_available(&tick, &addr, &num("2.5")).unwrap();
    assert_eq!(l.get_balance(&tick, &addr), (num("12.5"), num("0")));

    l.debit_available(&tick, &addr, &num("2")).unwrap();
    assert_eq!(l.get_balance(&tick, &addr), (num("10.5"), num("0")));
    assert_eq!(
        l.debit_available(&tick, &addr, &num("100")).unwrap_err(),
        BRC20Error::InsufficientBalance {
            requested: num("100"),
            available: num("10.5"),
        }
    );

    l.lock_transferable(&tick, &addr, &num("4")).unwrap();
    assert_eq!(l.get_balance(&tick, &addr), (num("6.5"), num("4")));
    assert_eq!(
        l.unlock_transferable(&tick, &addr, &num("5")).unwrap_err(),
        BRC20Error::InsufficientBalance {
            requested: num("5"),
            available: num("4"),
        }
    );
    l.unlock_transferable(&tick, &addr, &num("4")).unwrap();
    assert_eq!(l.get_balance(&tick, &addr), (num("6.5"), num("0")));
}

#[test]
fn test_receipt_echoes_context() {
    let mut l = Ledger::new();
    let c = ctx("abc123", "sender", "receiver");
    let r = l.apply(&deploy("ordi", "1000", "1000", "0"), &c);
    assert_eq!(r.inscription_id, "abc123");
    assert_eq!(r.inscription_number, 1);
    assert_eq!(r.old_satpoint, c.old_satpoint);
    assert_eq!(r.new_satpoint, c.new_satpoint);
    assert_eq!(r.from.script, "sender");
    assert_eq!(r.to.script, "receiver");
    assert_eq!(r.op, OperationType::Deploy);
}
