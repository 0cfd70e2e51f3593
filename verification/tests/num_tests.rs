use brc20_engine::error::BRC20Error;
use brc20_engine::num::{Num, Sign};

#[test]
fn test_num_from_str() {
    assert!(Num::from_str(".1").is_err());
    assert_eq!(Num::new(11, 1), Num::from_str("1.1").unwrap());
    assert_eq!(Num::new(11, 1), Num::from_str("1.1000").unwrap());
    assert_eq!(Num::new(101, 2), Num::from_str("1.01").unwrap());

    // can not be negative
    assert!(Num::from_str("-1.1").is_err());

    // number of decimal fractional can not exceed 18
    assert_eq!(
        Num::new(1_0000000000_00000001u64 as u128, 18),
        Num::from_str("1.000000000000000001").unwrap()
    );
    assert!(Num::from_str("1.0000000000000000001").is_err());
}

#[test]
fn test_num_checked_add() {
    assert_eq!(
        Num::from_str("2"),
        Num::from_str("1")
            .unwrap()
            .checked_add(&Num::from_str("1").unwrap())
    );
    assert_eq!(
        Num::from_str("2.1"),
        Num::from_str("1")
            .unwrap()
            .checked_add(&Num::from_str("1.1").unwrap())
    );
    assert_eq!(
        Num::from_str("2.1"),
        Num::from_str("1.1")
            .unwrap()
            .checked_add(&Num::from_str("1").unwrap())
    );
    assert_eq!(
        Num::from_str("2.222"),
        Num::from_str("1.101")
            .unwrap()
            .checked_add(&Num::from_str("1.121").unwrap())
    );
}

#[test]
fn test_num_checked_sub() {
    assert_eq!(
        Num::from_str("2"),
        Num::from_str("3")
            .unwrap()
            .checked_sub(&Num::from_str("1").unwrap())
    );
    assert_eq!(
        Num::from_str("2.1"),
        Num::from_str("3")
            .unwrap()
            .checked_sub(&Num::from_str("0.9").unwrap())
    );
    assert_eq!(
        Num::from_str("2.1"),
        Num::from_str("3.1")
            .unwrap()
            .checked_sub(&Num::from_str("1").unwrap())
    );
    assert_eq!(
        Num::from_str("2.222"),
        Num::from_str("3.303")
            .unwrap()
            .checked_sub(&Num::from_str("1.081").unwrap())
    );
}

#[test]
fn test_to_u8() {
    assert_eq!(Num::from_str("2").unwrap().checked_to_u8().unwrap(), 2);
    assert_eq!(Num::from_str("255").unwrap().checked_to_u8().unwrap(), 255);
    assert_eq!(
        Num::from_str("256").unwrap().checked_to_u8().unwrap_err(),
        BRC20Error::Overflow {
            op: String::from("to_u8"),
            org: Num::from_str("256").unwrap(),
            other: Num::new(255, 0),
        }
    );
}

#[test]
fn test_max_value() {
    // the protocol stipulates a max integer value of 64 bits, with at most
    // 18 fractional digits
    let max = format!("{}.999999999999999999", u64::MAX);

    Num::from_str(&max).unwrap();
}

#[test]
fn test_checked_powu_floatpoint() {
    let n = Num::from_str("3.7").unwrap();
    assert_eq!(n.checked_powu(0).unwrap(), Num::from_str("0").unwrap());
    assert_eq!(n.checked_powu(1).unwrap(), n);
    assert_eq!(n.checked_powu(2).unwrap(), Num::from_str("13.69").unwrap());
    assert_eq!(n.checked_powu(3).unwrap(), Num::from_str("50.653").unwrap());
    assert_eq!(
        n.checked_powu(5).unwrap(),
        Num::from_str("693.43957").unwrap()
    );
    assert_eq!(
        n.checked_powu(18).unwrap(),
        Num::from_str("16890053810.563300749953435929").unwrap()
    );
}

#[test]
fn test_checked_powu_integer() {
    let n = Num::from_str("10").unwrap();
    assert_eq!(n.checked_powu(0).unwrap(), Num::from_str("0").unwrap());
    assert_eq!(n.checked_powu(1).unwrap(), n);
    assert_eq!(n.checked_powu(2).unwrap(), Num::from_str("100").unwrap());
    assert_eq!(n.checked_powu(3).unwrap(), Num::from_str("1000").unwrap());
    assert_eq!(n.checked_powu(5).unwrap(), Num::from_str("100000").unwrap());
    assert_eq!(
        n.checked_powu(18).unwrap(),
        Num::from_str("1000000000000000000").unwrap()
    );
}

#[test]
fn test_checked_to_u128() {
    let n = Num::from_str(&format!("{}", u128::MAX)).unwrap();
    assert_eq!(n.checked_to_u128().unwrap(), u128::MAX);
}

#[test]
fn test_to_string_normalizes() {
    // trailing fractional zeros are stripped, the leading zero is kept
    assert_eq!(Num::from_str("1.1000").unwrap().to_string(), "1.1");
    assert_eq!(Num::from_str("0.500").unwrap().to_string(), "0.5");
    assert_eq!(Num::from_str("120").unwrap().to_string(), "120");
    assert_eq!(Num::from_str("1.01").unwrap().to_string(), "1.01");
    assert_eq!(Num::from_str("7.000").unwrap().to_string(), "7");
}

#[test]
fn test_round_trip() {
    // parse, render, parse again: the same value, in normalized text
    for s in ["0", "1.1000", "18446744073709551615.999999999999999999", "0.000000000000000001"] {
        let n = Num::from_str(s).unwrap();
        let rendered = n.to_string();
        assert_eq!(Num::from_str(&rendered).unwrap(), n);
        assert_eq!(Num::from_str(&rendered).unwrap().to_string(), rendered);
    }
}

#[test]
fn test_add_sub_round_trip() {
    // checked_sub(checked_add(a, b), b) == a, exactly
    let cases = [("1.101", "2.9"), ("0.000000000000000001", "7"), ("1000", "0.5")];
    for (a, b) in cases {
        let a = Num::from_str(a).unwrap();
        let b = Num::from_str(b).unwrap();
        let c = a.checked_add(&b).unwrap();
        assert_eq!(c.checked_sub(&b).unwrap(), a);
    }
}

#[test]
fn test_checked_sub_underflow() {
    let a = Num::from_str("1").unwrap();
    let b = Num::from_str("1.5").unwrap();
    assert_eq!(
        a.checked_sub(&b).unwrap_err(),
        BRC20Error::Underflow { org: a, other: b }
    );
}

#[test]
fn test_sign_and_scale() {
    assert_eq!(Num::from_str("0").unwrap().sign(), Sign::NoSign);
    assert_eq!(Num::from_str("0.1").unwrap().sign(), Sign::Plus);
    assert_eq!(Num::from_str("1.1000").unwrap().scale(), 1);
    assert_eq!(Num::from_str("12").unwrap().scale(), 0);
}
