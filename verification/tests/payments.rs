use minimint_bridge::payments::{
    decode_payment_record, encode_payment_record, Payment, PaymentDirection, PaymentStatus,
};

fn sample(status: PaymentStatus, direction: PaymentDirection) -> Payment {
    Payment::new(String::from("lnbc1test"), (0u8..32).collect(), status, direction, 1_700_000_000)
}

#[test]
fn payment_record_roundtrip() {
    for status in [PaymentStatus::Paid, PaymentStatus::Pending, PaymentStatus::Failed, PaymentStatus::Expired] {
        for direction in [PaymentDirection::Outgoing, PaymentDirection::Incoming] {
            let p = sample(status, direction);
            let bytes = encode_payment_record(&p);
            let q = decode_payment_record(&bytes).unwrap();
            assert_eq!(q.invoice, p.invoice);
            assert_eq!(q.payment_hash, p.payment_hash);
            assert_eq!(q.status, status);
            assert_eq!(q.direction, direction);
            assert_eq!(q.created_at, 1_700_000_000);
        }
    }
}

#[test]
fn payment_record_layout() {
    let p = sample(PaymentStatus::Failed, PaymentDirection::Incoming);
    let bytes = encode_payment_record(&p);
    assert_eq!(bytes.len(), 42 + 9);
    assert_eq!(bytes[0], 2);
    assert_eq!(bytes[1], 1);
    assert_eq!(&bytes[2..10], &1_700_000_000u64.to_le_bytes());
    assert_eq!(&bytes[10..42], &p.payment_hash[..]);
    assert_eq!(&bytes[42..], b"lnbc1test");
}

#[test]
fn malformed_records_are_refused() {
    assert!(decode_payment_record(&[0u8; 41]).is_none());
    let mut bytes = encode_payment_record(&sample(PaymentStatus::Paid, PaymentDirection::Outgoing));
    bytes[0] = 4;
    assert!(decode_payment_record(&bytes).is_none());
    bytes[0] = 0;
    bytes[1] = 2;
    assert!(decode_payment_record(&bytes).is_none());
    bytes[1] = 0;
    bytes.push(0xff);
    assert!(decode_payment_record(&bytes).is_none());
}

#[test]
fn payment_predicates() {
    let p = sample(PaymentStatus::Paid, PaymentDirection::Outgoing);
    assert!(p.paid() && p.outgoing() && !p.incoming() && !p.expired());
    let q = sample(PaymentStatus::Expired, PaymentDirection::Incoming);
    assert!(!q.paid() && !q.outgoing() && q.incoming() && q.expired());
}
