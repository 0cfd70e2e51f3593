use brc20_engine::operation::{deserialize_brc30, JSONError, Operation, Transfer};

#[test]
fn test_deserialize() {
    let json_str = format!(
        r##"{{
        "p": "brc20-s",
        "op": "transfer",
        "tid": "tid",
        "tick": "tick",
        "amt": "amt"
      }}"##
    );

    assert!(!deserialize_brc30(&json_str).is_err());

    assert_eq!(
        deserialize_brc30(&json_str).unwrap(),
        Operation::Transfer(Transfer {
            tick: "tick".to_string(),
            tick_id: "tid".to_string(),
            amount: "amt".to_string(),
        })
    );
}

#[test]
fn test_loss_require_key() {
    let json_str = format!(
        r##"{{
        "p": "brc20-s",
        "op": "transfer",
        "tick": "tick",
        "amt": "amt"
      }}"##
    );

    assert_eq!(
        deserialize_brc30(&json_str).unwrap_err(),
        JSONError::ParseOperationJsonError("missing field `pid`".to_string())
    );
}

#[test]
fn test_duplicate_key() {
    let json_str = format!(
        r##"{{
        "p": "brc20-s",
        "op": "transfer",
        "tid": "tid",
        "tick": "tick-1",
        "tick": "tick-2",
        "amt": "amt"
      }}"##
    );
    assert_eq!(
        deserialize_brc30(&json_str).unwrap(),
        Operation::Transfer(Transfer {
            tick: "tick-2".to_string(),
            tick_id: "tid".to_string(),
            amount: "amt".to_string(),
        })
    );
}

#[test]
fn test_deserialize_deploy() {
    let json_str = r##"{"p":"brc20-s","op":"deploy","tick":"abcd","max":"1000","lim":"10","dec":"2"}"##;
    let op = deserialize_brc30(json_str).unwrap();
    match op {
        Operation::Deploy(d) => {
            assert_eq!(d.tick, "abcd");
            assert_eq!(d.max_supply, "1000");
            assert_eq!(d.mint_limit, "10");
            assert_eq!(d.decimals, "2");
        }
        _ => panic!("expected a deploy"),
    }
}

#[test]
fn test_deserialize_mint_with_and_without_tid() {
    let with = r##"{"p":"brc20-s","op":"mint","tick":"abcd","tid":"pool7","amt":"5"}"##;
    match deserialize_brc30(with).unwrap() {
        Operation::Mint(m) => {
            assert_eq!(m.tick, "abcd");
            assert_eq!(m.tick_id, Some("pool7".to_string()));
            assert_eq!(m.amount, "5");
        }
        _ => panic!("expected a mint"),
    }
    let without = r##"{"p":"brc20-s","op":"mint","tick":"abcd","amt":"5"}"##;
    match deserialize_brc30(without).unwrap() {
        Operation::Mint(m) => assert_eq!(m.tick_id, None),
        _ => panic!("expected a mint"),
    }
}

#[test]
fn test_deserialize_inscribe_transfer() {
    let json_str = r##"{"p":"brc20-s","op":"inscribeTransfer","tick":"abcd","amt":"3.5"}"##;
    match deserialize_brc30(json_str).unwrap() {
        Operation::InscribeTransfer(t) => {
            assert_eq!(t.tick, "abcd");
            assert_eq!(t.amount, "3.5");
        }
        _ => panic!("expected an inscribe transfer"),
    }
}

#[test]
fn test_invalid_json() {
    assert_eq!(
        deserialize_brc30("not json at all").unwrap_err(),
        JSONError::InvalidJson
    );
    assert_eq!(
        deserialize_brc30(r##"{"p":"brc20-s","op":"mint","n":5}"##).unwrap_err(),
        JSONError::InvalidJson
    );
}

#[test]
fn test_wrong_protocol() {
    assert_eq!(
        deserialize_brc30(r##"{"p":"brc20","op":"mint","tick":"x","amt":"1"}"##).unwrap_err(),
        JSONError::NotBRC30Json
    );
    assert_eq!(
        deserialize_brc30(r##"{"op":"mint","tick":"x","amt":"1"}"##).unwrap_err(),
        JSONError::NotBRC30Json
    );
}

#[test]
fn test_unknown_operation() {
    assert_eq!(
        deserialize_brc30(r##"{"p":"brc20-s","op":"stake","tick":"x"}"##).unwrap_err(),
        JSONError::UnknownOperation
    );
    assert_eq!(
        deserialize_brc30(r##"{"p":"brc20-s","tick":"x"}"##).unwrap_err(),
        JSONError::UnknownOperation
    );
}

#[test]
fn test_missing_fields() {
    assert_eq!(
        deserialize_brc30(r##"{"p":"brc20-s","op":"deploy","tick":"x"}"##).unwrap_err(),
        JSONError::ParseOperationJsonError("missing field `max`".to_string())
    );
    assert_eq!(
        deserialize_brc30(r##"{"p":"brc20-s","op":"mint","tick":"x"}"##).unwrap_err(),
        JSONError::ParseOperationJsonError("missing field `amt`".to_string())
    );
    assert_eq!(
        deserialize_brc30(r##"{"p":"brc20-s","op":"inscribeTransfer","amt":"1"}"##).unwrap_err(),
        JSONError::ParseOperationJsonError("missing field `tick`".to_string())
    );
}

#[test]
fn test_escapes_and_whitespace() {
    let json_str = "  {\t\"p\" : \"brc20-s\",\n \"op\": \"mint\", \"tick\": \"a\\\"b\", \"amt\": \"1\" }  ";
    match deserialize_brc30(json_str).unwrap() {
        Operation::Mint(m) => assert_eq!(m.tick, "a\"b"),
        _ => panic!("expected a mint"),
    }
}
