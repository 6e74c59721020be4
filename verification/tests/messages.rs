use dbc_rs::kernel_mock::kernel_alloc::string::String as KString;
use dbc_rs::kernel_mock::kernel_alloc::vec::Vec as KVec;
use dbc_rs::kernel_mock::kernel_alloc::TryReserveErrorKind;
use dbc_rs::messages::{
    duplicate_message_id, format_invalid_data, format_nodes_error, format_number_with_commas,
    message_id_out_of_range, replace_placeholders, sender_not_in_nodes,
    signal_extends_beyond_message, signal_overlap,
};

#[test]
fn placeholders_are_filled_in_order() {
    assert_eq!(replace_placeholders("a {} b {} c", &["1", "2"]), "a 1 b 2 c");
    assert_eq!(replace_placeholders("{} {}", &["x"]), "x {}");
    assert_eq!(replace_placeholders("no holes", &["x"]), "no holes");
    assert_eq!(replace_placeholders("{", &[]), "{");
}

#[test]
fn formatted_messages() {
    assert_eq!(
        duplicate_message_id(256, "EngineData", "BrakeData"),
        "Duplicate message ID: 256 (messages 'EngineData' and 'BrakeData')"
    );
    assert_eq!(
        sender_not_in_nodes("Test", "TCM"),
        "Message 'Test' has sender 'TCM' which is not in the nodes list"
    );
    assert_eq!(
        signal_extends_beyond_message("S", 60, 8, 67, 64, 8),
        "Signal 'S' extends beyond message boundary: start_bit 60 + length 8 = 67 > 64 (DLC 8 bytes)"
    );
    assert_eq!(signal_overlap("A", "B", "M"), "Signals 'A' and 'B' overlap in message 'M'");
    assert_eq!(format_invalid_data("x"), "Data Error: x");
    assert_eq!(format_nodes_error("y"), "Nodes Error: y");
}

#[test]
fn numbers_with_commas() {
    assert_eq!(format_number_with_commas("1234567"), "1,234,567");
    assert_eq!(format_number_with_commas("123"), "123");
    assert_eq!(format_number_with_commas("1234"), "1,234");
    assert_eq!(format_number_with_commas(""), "");
}

#[test]
fn message_id_out_of_range_text() {
    assert_eq!(
        message_id_out_of_range(0x2000_0000),
        "Message ID 0x2000_0000 is out of valid range (standard 11-bit: 0-2047, extended 29-bit: 2048-536870911)"
    );
    assert!(message_id_out_of_range(0xABCD_EF01).starts_with("Message ID 0xABCD_EF01 "));
}

#[test]
fn kernel_string_and_vec() {
    let mut s = KString::from_str("ab");
    s.push_str("cd");
    assert_eq!(s.as_str(), "abcd");
    assert!(s.try_reserve(10).is_ok());
    assert_eq!(&*s.clone().into_boxed_str(), "abcd");
    let mut v: KVec<u8> = KVec::new();
    assert!(v.is_empty());
    v.push(1);
    v.extend_from_slice(&[2, 3]);
    v.extend(vec![4]);
    assert_eq!(v.len(), 4);
    assert!(v.try_reserve_exact(4).is_ok());
    assert_eq!(&*v.clone().into_boxed_slice(), &[1, 2, 3, 4]);
    v.clear();
    assert_eq!(v.len(), 0);
    let e = KVec::<u8>::new().try_reserve((isize::MAX as usize) - 1);
    if let Err(e) = e {
        assert_eq!(e.kind(), &TryReserveErrorKind::AllocError { size: (isize::MAX as usize) - 1, align: 1 });
        assert_eq!(e.to_string(), "memory allocation failed");
    }
}

#[test]
fn kernel_reservations_of_nothing_succeed_and_overflows_fail() {
    let mut s = KString::from_str("a");
    assert!(s.try_reserve(0).is_ok());
    assert!(s.try_reserve_exact(0).is_ok());
    let big = isize::MAX as usize;
    let e = s.try_reserve(big).unwrap_err();
    assert_eq!(e.kind(), &TryReserveErrorKind::AllocError { size: big, align: 1 });
    assert!(s.try_reserve_exact(big).is_err());
    assert_eq!(s.as_str(), "a");
    let mut v: KVec<u64> = KVec::new();
    v.push(7);
    assert!(v.try_reserve(0).is_ok());
    assert!(v.try_reserve_exact(0).is_ok());
    assert_eq!(v.len(), 1);
}

#[test]
fn kernel_vec_of_zero_sized_items_reserves_past_isize_max() {
    let mut z: KVec<()> = KVec::new();
    z.push(());
    assert!(z.try_reserve(usize::MAX - 1).is_ok());
    assert!(z.try_reserve_exact(usize::MAX - 1).is_ok());
    assert_eq!(z.len(), 1);
}
