use minimint_bridge::api::{
    list_federations, switch_federation, BridgeFederationInfo,
    balance, configured_status, connection_status, decode_invoice, fetch_payment, get_client,
    get_clients, invoice, invoice_request, join_federation, leave_federation, list_payments,
    network, outgoing_check_due, pay, record_claim_result, record_payment_outcome, update_balance,
    Api,
};
use minimint_bridge::client::{ConnectionStatus, FederationInfo, Network};
use minimint_bridge::error::BridgeError;
use minimint_bridge::invoice::decode_bolt11;
use minimint_bridge::payments::{PaymentDirection, PaymentStatus};

const COFFEE: &str = "lnbc2500u1pvjluezsp5zyg3zyg3zyg3zyg3zyg3zyg3zyg3zyg3zyg3zyg3zyg3zyg3zygspp5qqqsyqcyq5rqwzqfqqqsyqcyq5rqwzqfqqqsyqcyq5rqwzqfqypqdq5xysxxatsyp3k7enxv4jsxqzpu9qrsgquk0rl77nj30yxdy8j9vdx85fkpmdla2087ne0xh8nhedh8w27kyke0lp53ut353s06fv3qfegext0eh0ymjpf39tuven09sam30g4vgpfna3rh";

const TESTNET: &str = "lntb20m1pvjluezsp5zyg3zyg3zyg3zyg3zyg3zyg3zyg3zyg3zyg3zyg3zyg3zyg3zygshp58yjmdan79s6qqdhdzgynm4zwqd5d7xmw5fk98klysy043l2ahrqspp5qqqsyqcyq5rqwzqfqqqsyqcyq5rqwzqfqqqsyqcyq5rqwzqfqypqfpp3x9et2e20v6pu37c5d9vax37wxq72un989qrsgqdj545axuxtnfemtpwkc45hx9d2ft7x04mt8q7y6t0k2dge9e7h8kpy9p34ytyslj3yu569aalz2xdk8xkd7ltxqld94u8h2esmsmacgpghe9k8";

const HASH_HEX: &str = "0001020304050607080900010203040506070809000102030405060708090102";

const CONFIG: &str = "{\"members\":[[0,\"wss://fm-signet.sirion.io:443\"]]}";

fn open_api(name: &str) -> Api {
    let nanos = std::time::SystemTime::now()
        .duration_since(std::time::UNIX_EPOCH)
        .unwrap()
        .as_nanos();
    Api::open(&format!("/tmp/minimint_bridge_tests/api_{}_{}/client.db", name, nanos)).unwrap()
}

fn members() -> Vec<(u16, String)> {
    vec![(0, String::from("wss://fm-signet.sirion.io:443"))]
}

fn info(network: Network) -> FederationInfo {
    FederationInfo { federation_name: String::from("Fed"), network, balance_msat: 1_999_999 }
}

#[test]
fn join_and_inspect() {
    let mut api = open_api("join");
    let joined = join_federation(&mut api, CONFIG, &members(), Some(info(Network::Bitcoin))).unwrap();
    assert_eq!(joined.label, "7d2ce1a7dec8");
    assert_eq!(joined.balance, 1_999);
    assert_eq!(joined.federation_name, "Fed");
    assert_eq!(joined.user_data, "");
    let again = get_client(&api, "7d2ce1a7dec8").unwrap();
    assert_eq!(again.label, joined.label);
    assert_eq!(get_clients(&api).len(), 1);
    assert_eq!(balance(&api, "7d2ce1a7dec8").unwrap(), 1_999);
    assert_eq!(network(&api, "7d2ce1a7dec8").unwrap(), "bitcoin");
    assert!(configured_status(&api, "7d2ce1a7dec8"));
    assert!(!configured_status(&api, "other"));
}

#[test]
fn unknown_client_errors() {
    let mut api = open_api("unknown");
    assert!(matches!(get_client(&api, "x"), Err(BridgeError::NoSuchClient)));
    assert!(matches!(balance(&api, "x"), Err(BridgeError::JoinFederationFirst)));
    join_federation(&mut api, CONFIG, &members(), None).unwrap();
    assert!(matches!(balance(&api, "x"), Err(BridgeError::NoSuchClient)));
    assert!(matches!(network(&api, "7d2ce1a7dec8"), Err(BridgeError::ClientNotConnected)));
    assert!(matches!(leave_federation(&mut api, "x"), Err(BridgeError::ClientDoesNotExist)));
}

#[test]
fn connection_statuses() {
    let mut api = open_api("status");
    assert_eq!(connection_status(&api, "7d2ce1a7dec8", true), ConnectionStatus::NotConfigured);
    join_federation(&mut api, CONFIG, &members(), Some(info(Network::Signet))).unwrap();
    assert_eq!(connection_status(&api, "7d2ce1a7dec8", true), ConnectionStatus::Connected);
    assert_eq!(connection_status(&api, "7d2ce1a7dec8", false), ConnectionStatus::NotConnected);
}

#[test]
fn leaving_forgets_the_client() {
    let mut api = open_api("leave");
    join_federation(&mut api, CONFIG, &members(), None).unwrap();
    assert!(leave_federation(&mut api, "7d2ce1a7dec8").is_ok());
    assert!(!configured_status(&api, "7d2ce1a7dec8"));
    assert!(api.client_manager.get_client_labels_from_db().is_empty());
}

#[test]
fn mainnet_invoices_are_limited() {
    let mut api = open_api("limit");
    join_federation(&mut api, CONFIG, &members(), Some(info(Network::Bitcoin))).unwrap();
    assert!(invoice_request(&api, "7d2ce1a7dec8", 60000).is_ok());
    assert!(matches!(invoice_request(&api, "7d2ce1a7dec8", 60001), Err(BridgeError::InvoiceTooLarge)));
}

#[test]
fn testnet_invoices_are_not_limited() {
    let mut api = open_api("nolimit");
    join_federation(&mut api, CONFIG, &members(), Some(info(Network::Testnet))).unwrap();
    assert!(invoice_request(&api, "7d2ce1a7dec8", 1_000_000).is_ok());
}

#[test]
fn unreachable_client_cannot_issue_invoices() {
    let mut api = open_api("noinvoice");
    join_federation(&mut api, CONFIG, &members(), None).unwrap();
    assert!(matches!(invoice_request(&api, "7d2ce1a7dec8", 1), Err(BridgeError::ClientNotConnected)));
}

#[test]
fn issued_invoice_is_recorded_pending() {
    let mut api = open_api("issued");
    join_federation(&mut api, CONFIG, &members(), Some(info(Network::Bitcoin))).unwrap();
    let generated = decode_bolt11(COFFEE).unwrap();
    let text = invoice(&mut api, "7d2ce1a7dec8", 250_000, &generated, 1_650_000_000);
    assert!(matches!(text, Err(BridgeError::InvoiceTooLarge)));
    let mut api = open_api("issued_testnet");
    join_federation(&mut api, CONFIG, &members(), Some(info(Network::Testnet))).unwrap();
    let text = invoice(&mut api, "7d2ce1a7dec8", 250_000, &generated, 1_650_000_000).unwrap();
    assert_eq!(text, COFFEE);
    let p = fetch_payment(&api, "7d2ce1a7dec8", HASH_HEX).unwrap();
    assert_eq!(p.status, PaymentStatus::Pending);
    assert_eq!(p.direction, PaymentDirection::Incoming);
    assert!(!p.paid);
    assert_eq!(p.created_at, 1_650_000_000);
    assert_eq!(p.invoice.amount, 250_000);
    assert_eq!(p.invoice.payment_hash, HASH_HEX);
    let all = list_payments(&api, "7d2ce1a7dec8").unwrap();
    assert_eq!(all.len(), 1);
    assert_eq!(all[0].invoice.description, "1 cup coffee");
}

#[test]
fn payments_are_recorded_and_not_repeated() {
    let mut api = open_api("pay");
    join_federation(&mut api, CONFIG, &members(), Some(info(Network::Bitcoin))).unwrap();
    let d = pay(&api, "7d2ce1a7dec8", COFFEE).unwrap();
    assert_eq!(d.amount_msat, Some(250_000_000));
    record_payment_outcome(&mut api, "7d2ce1a7dec8", &d, Ok(()), 1_650_000_001).unwrap();
    let p = fetch_payment(&api, "7d2ce1a7dec8", HASH_HEX).unwrap();
    assert_eq!(p.status, PaymentStatus::Paid);
    assert!(p.paid);
    assert_eq!(p.direction, PaymentDirection::Outgoing);
    assert!(matches!(pay(&api, "7d2ce1a7dec8", COFFEE), Err(BridgeError::CannotPayTwice)));
    assert!(matches!(decode_invoice(&api, "7d2ce1a7dec8", COFFEE), Err(BridgeError::CannotPayTwice)));
}

#[test]
fn failed_payment_is_recorded_failed() {
    let mut api = open_api("failed");
    join_federation(&mut api, CONFIG, &members(), Some(info(Network::Bitcoin))).unwrap();
    let d = pay(&api, "7d2ce1a7dec8", COFFEE).unwrap();
    let r = record_payment_outcome(&mut api, "7d2ce1a7dec8", &d, Err(String::from("no route")), 7);
    assert!(matches!(r, Err(BridgeError::PaymentFailed(_))));
    let p = fetch_payment(&api, "7d2ce1a7dec8", HASH_HEX).unwrap();
    assert_eq!(p.status, PaymentStatus::Failed);
    assert_eq!(p.created_at, 7);
}

#[test]
fn pay_checks() {
    let mut api = open_api("pay_checks");
    join_federation(&mut api, CONFIG, &members(), None).unwrap();
    assert!(matches!(pay(&api, "7d2ce1a7dec8", "garbage"), Err(BridgeError::InvalidInvoice)));
    assert!(matches!(pay(&api, "7d2ce1a7dec8", COFFEE), Err(BridgeError::ClientNotConnected)));
}

#[test]
fn decode_invoice_checks() {
    let mut api = open_api("decode");
    join_federation(&mut api, CONFIG, &members(), Some(info(Network::Bitcoin))).unwrap();
    assert!(matches!(decode_invoice(&api, "7d2ce1a7dec8", "garbage"), Err(BridgeError::InvalidInvoice)));
    assert!(matches!(
        decode_invoice(&api, "7d2ce1a7dec8", TESTNET),
        Err(BridgeError::WrongNetwork { .. })
    ));
    // The invoice dates from 2017 and has expired.
    assert!(matches!(decode_invoice(&api, "7d2ce1a7dec8", COFFEE), Err(BridgeError::InvoiceExpired)));
}

#[test]
fn fetch_payment_checks() {
    let mut api = open_api("fetch_checks");
    assert!(matches!(fetch_payment(&api, "x", "zz"), Err(BridgeError::InvalidPaymentHash)));
    assert!(matches!(fetch_payment(&api, "x", HASH_HEX), Err(BridgeError::JoinFederationFirst)));
    join_federation(&mut api, CONFIG, &members(), Some(info(Network::Bitcoin))).unwrap();
    assert!(matches!(fetch_payment(&api, "7d2ce1a7dec8", HASH_HEX), Err(BridgeError::PaymentNotFound)));
    assert!(list_payments(&api, "7d2ce1a7dec8").unwrap().is_empty());
}

#[test]
fn claimed_invoice_is_recorded_paid() {
    let mut api = open_api("claimed");
    join_federation(&mut api, CONFIG, &members(), Some(info(Network::Testnet))).unwrap();
    let generated = decode_bolt11(COFFEE).unwrap();
    invoice(&mut api, "7d2ce1a7dec8", 250_000, &generated, 7).unwrap();
    let hash = generated.payment_hash.clone();
    assert!(record_claim_result(&mut api, "7d2ce1a7dec8", &hash, false, false).is_ok());
    assert_eq!(fetch_payment(&api, "7d2ce1a7dec8", HASH_HEX).unwrap().status, PaymentStatus::Pending);
    assert!(record_claim_result(&mut api, "7d2ce1a7dec8", &hash, true, false).is_ok());
    let p = fetch_payment(&api, "7d2ce1a7dec8", HASH_HEX).unwrap();
    assert_eq!(p.status, PaymentStatus::Paid);
    assert!(p.paid);
    assert_eq!(p.created_at, 7);
    assert!(matches!(
        record_claim_result(&mut api, "other", &hash, true, false),
        Err(BridgeError::NoSuchClient)
    ));
}

#[test]
fn unclaimed_expired_invoice_is_recorded_expired() {
    let mut api = open_api("expired");
    join_federation(&mut api, CONFIG, &members(), Some(info(Network::Testnet))).unwrap();
    let generated = decode_bolt11(COFFEE).unwrap();
    invoice(&mut api, "7d2ce1a7dec8", 250_000, &generated, 7).unwrap();
    let hash = generated.payment_hash.clone();
    assert!(record_claim_result(&mut api, "7d2ce1a7dec8", &hash, false, true).is_ok());
    assert_eq!(fetch_payment(&api, "7d2ce1a7dec8", HASH_HEX).unwrap().status, PaymentStatus::Expired);
}

#[test]
fn balance_follows_the_federation() {
    let mut api = open_api("rebalance");
    assert!(matches!(update_balance(&mut api, "7d2ce1a7dec8", 5), Err(BridgeError::JoinFederationFirst)));
    join_federation(&mut api, CONFIG, &members(), Some(info(Network::Testnet))).unwrap();
    assert!(update_balance(&mut api, "7d2ce1a7dec8", 42_500).is_ok());
    assert_eq!(balance(&api, "7d2ce1a7dec8").unwrap(), 42);
}

#[test]
fn refunds_are_looked_for_once_a_minute() {
    assert!(!outgoing_check_due(1_000, 61_000));
    assert!(outgoing_check_due(1_000, 61_001));
    assert!(!outgoing_check_due(5, 5));
}

#[test]
fn decode_invoice_needs_a_reached_federation() {
    let mut api = open_api("decode_unreached");
    join_federation(&mut api, CONFIG, &members(), None).unwrap();
    assert!(matches!(
        decode_invoice(&api, "7d2ce1a7dec8", COFFEE),
        Err(BridgeError::ClientNotConnected)
    ));
    assert!(matches!(
        join_federation(&mut api, CONFIG, &members(), None),
        Err(BridgeError::ClientAlreadyExists)
    ));
}

#[test]
fn federations_listed_are_those_joined() {
    let mut api = open_api("federations");
    assert!(list_federations(&api).is_empty());
    join_federation(&mut api, CONFIG, &members(), Some(info(Network::Signet))).unwrap();
    let f = list_federations(&api);
    assert_eq!(f.len(), 1);
    assert_eq!(f[0].name, "Fed");
    assert_eq!(f[0].network, "signet");
    assert!(!f[0].current);
    assert!(f[0].guardians.is_empty());
}

#[test]
fn switching_makes_a_joined_federation_current() {
    let mut api = open_api("switch");
    join_federation(&mut api, CONFIG, &members(), Some(info(Network::Signet))).unwrap();
    let f: BridgeFederationInfo = list_federations(&api)[0].clone();
    assert!(switch_federation(&mut api, f).is_ok());
    assert!(list_federations(&api)[0].current);
    let other = BridgeFederationInfo {
        name: String::from("CypherU"),
        network: String::from("signet"),
        current: false,
        guardians: vec![],
    };
    assert!(switch_federation(&mut api, other).is_ok());
    assert!(list_federations(&api)[0].current);
    leave_federation(&mut api, "7d2ce1a7dec8").unwrap();
    assert!(api.current.is_none());
}

#[test]
fn switching_with_nothing_joined_succeeds() {
    let mut api = open_api("switch_empty");
    let f = BridgeFederationInfo {
        name: String::from("CypherU"),
        network: String::from("signet"),
        current: false,
        guardians: vec![],
    };
    assert!(switch_federation(&mut api, f).is_ok());
    assert!(api.current.is_none());
}

#[test]
fn claim_result_leaves_a_paid_outgoing_payment_alone() {
    let mut api = open_api("claim_outgoing");
    join_federation(&mut api, CONFIG, &members(), Some(info(Network::Bitcoin))).unwrap();
    let d = pay(&api, "7d2ce1a7dec8", COFFEE).unwrap();
    record_payment_outcome(&mut api, "7d2ce1a7dec8", &d, Ok(()), 3).unwrap();
    assert!(record_claim_result(&mut api, "7d2ce1a7dec8", &d.payment_hash, false, true).is_ok());
    let p = fetch_payment(&api, "7d2ce1a7dec8", HASH_HEX).unwrap();
    assert_eq!(p.status, PaymentStatus::Paid);
    assert_eq!(p.direction, PaymentDirection::Outgoing);
}
