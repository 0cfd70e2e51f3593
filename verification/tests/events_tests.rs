use brc20_engine::engine::{Context, Receipt};
use brc20_engine::events::{BlockEvents, TxEvent, TxEvents};
use brc20_engine::ledger::{Ledger, ScriptPubkey};
use brc20_engine::operation::{deserialize_brc30, Deploy, Mint, Operation};

fn ctx(id: &str, from: &str, to: &str) -> Context {
    Context {
        inscription_id: id.to_string(),
        inscription_number: 7,
        old_satpoint: format!("{}:0:0", id),
        new_satpoint: format!("{}:1:0", id),
        from: ScriptPubkey {
            script: from.to_string(),
        },
        to: ScriptPubkey {
            script: to.to_string(),
        },
    }
}

fn deploy_receipt(valid: bool) -> Receipt {
    let mut l = Ledger::new();
    let op = Operation::Deploy(Deploy {
        tick: "ordi".to_string(),
        max_supply: if valid { "1000".to_string() } else { "0".to_string() },
        mint_limit: "10.5".to_string(),
        decimals: "6".to_string(),
    });
    l.apply(&op, &ctx("ins1", "alice", "bob"))
}

#[test]
fn test_deploy_event_projection() {
    let e = TxEvent::from(&deploy_receipt(true));
    match e {
        TxEvent::Deploy(d) => {
            assert_eq!(d.event, "deploy");
            assert_eq!(d.tick, "ordi");
            assert_eq!(d.inscription_id, "ins1");
            assert_eq!(d.inscription_number, 7);
            assert_eq!(d.supply, "1000");
            assert_eq!(d.limit_per_mint, "10.5");
            assert_eq!(d.decimal, 6);
            assert_eq!(d.from.script, "alice");
            assert_eq!(d.to.script, "bob");
            assert!(d.valid);
            assert_eq!(d.msg, "ok");
        }
        _ => panic!("expected a deploy event"),
    }
}

#[test]
fn test_error_event_projection() {
    let e = TxEvent::from(&deploy_receipt(false));
    match e {
        TxEvent::Error(err) => {
            assert_eq!(err.event, "deploy");
            assert!(!err.valid);
            assert_eq!(err.msg, "invalid supply: 0");
            assert_eq!(err.from.script, "alice");
            assert_eq!(err.to.script, "bob");
        }
        _ => panic!("expected an error event"),
    }
}

#[test]
fn test_mint_event_renders_normalized_amount() {
    let mut l = Ledger::new();
    let payload = r##"{"p":"brc20-s","op":"deploy","tick":"ordi","max":"1000","lim":"1000","dec":"4"}"##;
    let op = deserialize_brc30(payload).unwrap();
    l.apply(&op, &ctx("d1", "alice", "alice"));
    let op = Operation::Mint(Mint {
        tick: "ordi".to_string(),
        tick_id: None,
        amount: "12.3400".to_string(),
    });
    let r = l.apply(&op, &ctx("m1", "alice", "alice"));
    match TxEvent::from(&r) {
        TxEvent::Mint(m) => {
            assert_eq!(m.event, "mint");
            assert_eq!(m.amount, "12.34");
            assert_eq!(m.msg, "ok");
        }
        _ => panic!("expected a mint event"),
    }
}

#[test]
fn test_tx_and_block_events() {
    let r1 = deploy_receipt(true);
    let r2 = deploy_receipt(false);
    let txid = "t1".to_string();
    let group = TxEvents::from_receipts(&txid, &vec![r1, r2]);
    assert_eq!(group.txid, "t1");
    assert_eq!(group.events.len(), 2);
    assert!(matches!(group.events[0], TxEvent::Deploy(_)));
    assert!(matches!(group.events[1], TxEvent::Error(_)));

    let entries = vec![
        ("t1".to_string(), vec![deploy_receipt(true)]),
        ("t2".to_string(), vec![deploy_receipt(false)]),
    ];
    let block = BlockEvents::from_block(&entries);
    assert_eq!(block.block.len(), 2);
    assert_eq!(block.block[0].txid, "t1");
    assert_eq!(block.block[1].txid, "t2");
    assert_eq!(block.block[1].events.len(), 1);
}
