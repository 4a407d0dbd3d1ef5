use kmeans::ledger_struct::{Header, Ledger, User, UserIPAddr, MAX_DATA_SIZE};

#[test]
fn ledger_records_hold_their_fields() {
    let header = Header {
        parent_hash: [1; 32],
        state_root: [2; 32],
        transactions_root: [3; 32],
        receipts_root: [4; 32],
        difficulty: 5,
        number: [6; 32],
        gas_limit: 7,
        gas_used: 8,
        timestamp: 9,
        extra_data: [10; 32],
        mix_hash: [11; 32],
        nonce: [12; 32],
    };
    let ledger = Ledger { header, data: [0; MAX_DATA_SIZE] };
    assert_eq!(ledger.data.len(), 32);
    assert_eq!(ledger.header.gas_used, 8);
    let child = User {
        area: "a".to_string(),
        main_user_id: Some("root".to_string()),
        id: "c".to_string(),
        next_id_hash: "h".to_string(),
        permissions: 1,
        subusers: None,
        subusers_permissions: 0,
    };
    let user = User {
        area: "a".to_string(),
        main_user_id: None,
        id: "root".to_string(),
        next_id_hash: "h0".to_string(),
        permissions: 7,
        subusers: Some(vec![child]),
        subusers_permissions: 1,
    };
    assert_eq!(user.subusers.as_ref().map(|s| s.len()), Some(1));
    let addr = UserIPAddr { user: "root".to_string(), ip_addr: "::1".to_string() };
    assert_eq!(addr.ip_addr, "::1");
}
