use chat_core::registry::{PeerAddress, Registry, RegistryError};

fn address(port: u16) -> PeerAddress {
    PeerAddress { ip: 0x7f00_0001, port, v6: false }
}

#[test]
fn a_new_registry_is_empty() {
    let registry = Registry::new();
    assert_eq!(registry.len(), 0);
    assert!(registry.snapshot().is_empty());
    assert!(!registry.contains_identity(1));
}

#[test]
fn insert_connection_refuses_a_number_it_holds() {
    let mut registry = Registry::new();
    assert!(registry.insert_connection(1, address(1000)));
    assert!(!registry.insert_connection(1, address(2000)));
    assert!(registry.insert_connection(2, address(1000)));
    assert_eq!(registry.len(), 2);
}

#[test]
fn pending_members_get_no_broadcast() {
    let mut registry = Registry::new();
    assert!(registry.insert_connection(1, address(1000)));
    assert!(registry.snapshot().is_empty());
}

#[test]
fn promote_registers_and_snapshot_keeps_the_order_of_arrival() {
    let mut registry = Registry::new();
    assert!(registry.insert_connection(7, address(1)));
    assert!(registry.insert_connection(8, address(2)));
    assert!(registry.insert_connection(9, address(3)));
    // Registered in another order than they arrived in.
    assert_eq!(registry.promote(9, 100, b"carol".to_vec()), Ok(()));
    assert_eq!(registry.promote(7, 200, b"alice".to_vec()), Ok(()));
    let recipients = registry.snapshot();
    assert_eq!(recipients.len(), 2);
    assert_eq!(recipients[0].connection, 7);
    assert_eq!(recipients[0].identity, 200);
    assert_eq!(recipients[0].name, b"alice".to_vec());
    assert_eq!(recipients[1].connection, 9);
    assert_eq!(recipients[1].identity, 100);
    assert_eq!(recipients[1].name, b"carol".to_vec());
    assert!(registry.contains_identity(100));
    assert!(registry.contains_identity(200));
    assert!(!registry.contains_identity(300));
}

#[test]
fn promote_says_why_it_refuses() {
    let mut registry = Registry::new();
    assert!(registry.insert_connection(1, address(1)));
    assert!(registry.insert_connection(2, address(2)));
    assert_eq!(registry.promote(3, 10, b"x".to_vec()), Err(RegistryError::UnknownConnection));
    assert_eq!(registry.promote(1, 10, b"x".to_vec()), Ok(()));
    assert_eq!(registry.promote(1, 11, b"y".to_vec()), Err(RegistryError::AlreadyRegistered));
    assert_eq!(registry.promote(2, 10, b"z".to_vec()), Err(RegistryError::StaleIdentity));
    assert_eq!(registry.promote(2, 9, b"z".to_vec()), Err(RegistryError::StaleIdentity));
    // A connection that is unknown is reported before anything else.
    assert_eq!(registry.promote(3, 5, b"x".to_vec()), Err(RegistryError::UnknownConnection));
    // One that is registered is reported before a stale identity.
    assert_eq!(registry.promote(1, 5, b"x".to_vec()), Err(RegistryError::AlreadyRegistered));
    assert_eq!(registry.promote(2, 11, b"z".to_vec()), Ok(()));
    let recipients = registry.snapshot();
    assert_eq!(recipients[0].name, b"x".to_vec());
    assert_eq!(recipients[1].name, b"z".to_vec());
}

#[test]
fn an_identity_is_never_assigned_again() {
    let mut registry = Registry::new();
    assert!(registry.insert_connection(1, address(1)));
    assert_eq!(registry.promote(1, 50, b"a".to_vec()), Ok(()));
    assert!(registry.remove_by_identity(50));
    assert!(registry.insert_connection(2, address(2)));
    // 50 has left, and still nobody else can have it.
    assert_eq!(registry.promote(2, 50, b"b".to_vec()), Err(RegistryError::StaleIdentity));
    assert_eq!(registry.promote(2, 51, b"b".to_vec()), Ok(()));
}

#[test]
fn the_first_identity_may_be_any_number() {
    let mut registry = Registry::new();
    assert!(registry.insert_connection(1, address(1)));
    assert_eq!(registry.promote(1, 0, b"zero".to_vec()), Ok(()));
    assert!(registry.insert_connection(2, address(2)));
    assert_eq!(registry.promote(2, 0, b"again".to_vec()), Err(RegistryError::StaleIdentity));
    assert_eq!(registry.promote(2, u128::MAX, b"max".to_vec()), Ok(()));
}

#[test]
fn remove_by_identity_twice_is_no_error() {
    let mut registry = Registry::new();
    assert!(registry.insert_connection(1, address(1)));
    assert!(registry.insert_connection(2, address(2)));
    assert_eq!(registry.promote(1, 10, b"a".to_vec()), Ok(()));
    assert_eq!(registry.promote(2, 20, b"b".to_vec()), Ok(()));
    assert!(registry.remove_by_identity(10));
    assert_eq!(registry.len(), 1);
    assert!(!registry.remove_by_identity(10));
    assert_eq!(registry.len(), 1);
    assert!(!registry.contains_identity(10));
    assert!(registry.contains_identity(20));
    let recipients = registry.snapshot();
    assert_eq!(recipients.len(), 1);
    assert_eq!(recipients[0].connection, 2);
}

#[test]
fn remove_by_identity_does_not_touch_pending_members() {
    let mut registry = Registry::new();
    assert!(registry.insert_connection(1, address(1)));
    assert!(!registry.remove_by_identity(0));
    assert_eq!(registry.len(), 1);
}

#[test]
fn remove_by_address_takes_pending_members_only() {
    let mut registry = Registry::new();
    assert!(registry.insert_connection(1, address(1)));
    assert!(registry.insert_connection(2, address(2)));
    assert!(registry.insert_connection(3, address(1)));
    assert!(registry.insert_connection(4, address(1)));
    assert_eq!(registry.promote(3, 10, b"kept".to_vec()), Ok(()));
    assert_eq!(registry.remove_by_address(address(1)), 2);
    assert_eq!(registry.len(), 2);
    assert_eq!(registry.remove_by_address(address(1)), 0);
    assert_eq!(registry.len(), 2);
    // Connection 1 is free again, connection 2 and 3 are not.
    assert!(!registry.insert_connection(2, address(9)));
    assert!(!registry.insert_connection(3, address(9)));
    assert!(registry.insert_connection(1, address(9)));
    assert_eq!(registry.snapshot()[0].connection, 3);
}

#[test]
fn remove_by_address_tells_addresses_apart() {
    let mut registry = Registry::new();
    let v4 = PeerAddress { ip: 1, port: 80, v6: false };
    let v6 = PeerAddress { ip: 1, port: 80, v6: true };
    let other_port = PeerAddress { ip: 1, port: 81, v6: false };
    assert!(registry.insert_connection(1, v4));
    assert!(registry.insert_connection(2, v6));
    assert!(registry.insert_connection(3, other_port));
    assert_eq!(registry.remove_by_address(v6), 1);
    assert_eq!(registry.len(), 2);
    assert!(registry.insert_connection(2, v6));
    assert!(!registry.insert_connection(1, v4));
}
