use bridge_proof::{i32_to_dec, u64_to_dec, Transaction};

#[test]
fn hash_only_values() {
    let t = Transaction::Hash("tx-abc".to_string());
    assert_eq!(t.values(), vec!["tx-abc".to_string()]);
}

#[test]
fn transfer_values_in_order() {
    let t = Transaction::CrossChainTransfer {
        who: "alice".to_string(),
        amount: 42,
        dest_chain_id: 99,
    };
    assert_eq!(
        t.values(),
        vec!["alice".to_string(), "42".to_string(), "99".to_string()]
    );
}

#[test]
fn negative_amount_has_leading_minus() {
    let t = Transaction::CrossChainTransfer {
        who: "bob".to_string(),
        amount: -42,
        dest_chain_id: 0,
    };
    assert_eq!(
        t.values(),
        vec!["bob".to_string(), "-42".to_string(), "0".to_string()]
    );
}

#[test]
fn decimal_rendering_is_canonical() {
    assert_eq!(u64_to_dec(0), "0");
    assert_eq!(u64_to_dec(7), "7");
    assert_eq!(u64_to_dec(10), "10");
    assert_eq!(u64_to_dec(100), "100");
    assert_eq!(u64_to_dec(18446744073709551615), "18446744073709551615");
    assert_eq!(i32_to_dec(0), "0");
    assert_eq!(i32_to_dec(-1), "-1");
    assert_eq!(i32_to_dec(2147483647), "2147483647");
    assert_eq!(i32_to_dec(-2147483648), "-2147483648");
}

#[test]
fn decimal_rendering_matches_std() {
    for v in [-1000001i32, -256, -10, -9, -1, 0, 1, 9, 10, 99, 100, 65535, 2147483647, -2147483648]
    {
        assert_eq!(i32_to_dec(v), v.to_string());
    }
    for n in [0u64, 1, 9, 10, 11, 255, 1000, 123456789] {
        assert_eq!(u64_to_dec(n), n.to_string());
    }
}

#[test]
fn extreme_chain_ids_render() {
    let t = Transaction::CrossChainTransfer {
        who: "x".to_string(),
        amount: 1,
        dest_chain_id: 255,
    };
    assert_eq!(t.values()[2], "255");
}
