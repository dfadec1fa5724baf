use minimint_bridge::api::decode_invoice_inner;
use minimint_bridge::invoice::{amount_overflows, calculate_fee, decode_bolt11, decode_bolt11_with_expiry, sat_rounded, Currency};
use minimint_bridge::error::BridgeError;

const NO_AMOUNT: &str = "lnbc1pvjluezsp5zyg3zyg3zyg3zyg3zyg3zyg3zyg3zyg3zyg3zyg3zyg3zyg3zygspp5qqqsyqcyq5rqwzqfqqqsyqcyq5rqwzqfqqqsyqcyq5rqwzqfqypqdpl2pkx2ctnv5sxxmmwwd5kgetjypeh2ursdae8g6twvus8g6rfwvs8qun0dfjkxaq9qrsgq357wnc5r2ueh7ck6q93dj32dlqnls087fxdwk8qakdyafkq3yap9us6v52vjjsrvywa6rt52cm9r9zqt8r2t7mlcwspyetp5h2tztugp9lfyql";

const COFFEE: &str = "lnbc2500u1pvjluezsp5zyg3zyg3zyg3zyg3zyg3zyg3zyg3zyg3zyg3zyg3zyg3zyg3zygspp5qqqsyqcyq5rqwzqfqqqsyqcyq5rqwzqfqqqsyqcyq5rqwzqfqypqdq5xysxxatsyp3k7enxv4jsxqzpu9qrsgquk0rl77nj30yxdy8j9vdx85fkpmdla2087ne0xh8nhedh8w27kyke0lp53ut353s06fv3qfegext0eh0ymjpf39tuven09sam30g4vgpfna3rh";

const HASHED_DESCRIPTION: &str = "lnbc20m1pvjluezsp5zyg3zyg3zyg3zyg3zyg3zyg3zyg3zyg3zyg3zyg3zyg3zyg3zygspp5qqqsyqcyq5rqwzqfqqqsyqcyq5rqwzqfqqqsyqcyq5rqwzqfqypqhp58yjmdan79s6qqdhdzgynm4zwqd5d7xmw5fk98klysy043l2ahrqs9qrsgq7ea976txfraylvgzuxs8kgcw23ezlrszfnh8r6qtfpr6cxga50aj6txm9rxrydzd06dfeawfk6swupvz4erwnyutnjq7x39ymw6j38gp7ynn44";

const TESTNET: &str = "lntb20m1pvjluezsp5zyg3zyg3zyg3zyg3zyg3zyg3zyg3zyg3zyg3zyg3zyg3zyg3zygshp58yjmdan79s6qqdhdzgynm4zwqd5d7xmw5fk98klysy043l2ahrqspp5qqqsyqcyq5rqwzqfqqqsyqcyq5rqwzqfqqqsyqcyq5rqwzqfqypqfpp3x9et2e20v6pu37c5d9vax37wxq72un989qrsgqdj545axuxtnfemtpwkc45hx9d2ft7x04mt8q7y6t0k2dge9e7h8kpy9p34ytyslj3yu569aalz2xdk8xkd7ltxqld94u8h2esmsmacgpghe9k8";

const HASH_HEX: &str = "0001020304050607080900010203040506070809000102030405060708090102";

#[test]
fn decodes_invoice_fields() {
    let d = decode_bolt11(COFFEE).unwrap();
    assert_eq!(d.amount_msat, Some(250_000_000));
    assert_eq!(d.description, Some(String::from("1 cup coffee")));
    assert_eq!(d.bolt11, COFFEE);
    assert_eq!(d.currency, Currency::Bitcoin);
    assert_eq!(d.payment_hash.len(), 32);
    assert_eq!(d.payment_hash[0], 0);
    assert_eq!(d.payment_hash[31], 2);
}

#[test]
fn invalid_invoice_is_refused() {
    assert!(decode_bolt11("lnbc1notaninvoice").is_none());
    assert!(decode_bolt11("").is_none());
    assert!(decode_bolt11_with_expiry("hello").is_none());
}

#[test]
fn invoice_from_2017_has_expired() {
    let (d, expired) = decode_bolt11_with_expiry(COFFEE).unwrap();
    assert!(expired);
    assert_eq!(d.amount_msat, Some(250_000_000));
}

#[test]
fn testnet_invoice_currency() {
    assert_eq!(decode_bolt11(TESTNET).unwrap().currency, Currency::BitcoinTestnet);
}

#[test]
fn bridge_invoice_view() {
    let d = decode_bolt11(COFFEE).unwrap();
    let b = decode_invoice_inner(&d).unwrap();
    assert_eq!(b.amount, 250_000);
    assert_eq!(b.description, "1 cup coffee");
    assert_eq!(b.invoice, COFFEE);
    assert_eq!(b.payment_hash, HASH_HEX);
}

#[test]
fn bridge_invoice_with_description_hash_has_empty_description() {
    let d = decode_bolt11(HASHED_DESCRIPTION).unwrap();
    assert_eq!(d.description, None);
    let b = decode_invoice_inner(&d).unwrap();
    assert_eq!(b.description, "");
    assert_eq!(b.amount, 2_000_000);
}

#[test]
fn bridge_invoice_needs_amount() {
    let d = decode_bolt11(NO_AMOUNT).unwrap();
    assert_eq!(d.amount_msat, None);
    assert!(matches!(decode_invoice_inner(&d), Err(BridgeError::InvoiceMissingAmount)));
}

#[test]
fn fee_is_one_percent_rounded() {
    assert_eq!(calculate_fee(COFFEE).unwrap(), Some(2500));
    assert_eq!(calculate_fee(HASHED_DESCRIPTION).unwrap(), Some(20000));
    assert_eq!(calculate_fee(NO_AMOUNT).unwrap(), None);
    assert!(matches!(calculate_fee("nope"), Err(BridgeError::InvalidInvoice)));
}

#[test]
fn msat_rounding() {
    assert_eq!(sat_rounded(0), 0);
    assert_eq!(sat_rounded(499), 0);
    assert_eq!(sat_rounded(500), 1);
    assert_eq!(sat_rounded(1499), 1);
    assert_eq!(sat_rounded(1500), 2);
    assert_eq!(sat_rounded(250_000_000), 250_000);
    assert_eq!(sat_rounded(u64::MAX), 18_446_744_073_709_552);
}

#[test]
fn amount_without_multiplier_beyond_u64_pico_is_refused() {
    // 20000000000 bitcoin, written without a multiplier: parsing it would multiply
    // the amount by 10^12 past u64.
    let text = "lnbc200000000001pvjluezsp5zyg3zyg3zyg3zyg3zyg3zyg3zyg3zyg3zyg3zyg3zyg3zyg3zygs";
    assert!(amount_overflows(text));
    assert!(decode_bolt11(text).is_none());
    assert!(matches!(calculate_fee(text), Err(BridgeError::InvalidInvoice)));
    assert!(!amount_overflows(COFFEE));
    assert!(!amount_overflows("lnbc184467441pvjlue"));
    assert!(amount_overflows("lnbc184467451pvjlue"));
}
