//! The operations that the front end calls, over the bridge's state: the client
//! manager and the database it keeps.
//!
//! Work that reaches a federation or the lightning network is done by the caller; the
//! operations here take its outcome as arguments.

use vstd::prelude::*;
use vstd::string::StringSliceAdditionalSpecFns;

use crate::client::{
    network_name, network_to_currency, network_to_string, spec_network_to_currency, stored_payment,
    stored_user_data,
    Client, ConnectionStatus, FederationInfo,
};
use crate::client_manager::{client_with_label, has_label, ClientManager};
use crate::database::{SledDatabase, SledTree};
use crate::error::BridgeError;
use crate::hex::hex_lower;
use crate::invoice::{
    bolt11_accepted, bolt11_amount_msat, bolt11_canonical, bolt11_currency, decode_bolt11,
    decode_bolt11_with_expiry, describes, msat_to_sat_rounded, payment_hash_hex, sat_rounded,
    InvoiceData,
};
use crate::payments::{Payment, PaymentDirection, PaymentStatus, PaymentView};

verus! {

/// The client kept under `label` (meaningful where there is one).
pub open spec fn the_client(clients: Seq<Client>, label: Seq<char>) -> Client {
    client_with_label(clients, label)->Some_0
}

/// A client as the front end sees it.
#[derive(Clone, Debug)]
pub struct BridgeClientInfo {
    /// The unique label of the client.
    pub label: String,
    /// The balance in satoshis.
    pub balance: u64,
    pub federation_name: String,
    /// Data that the user stores with the client.
    pub user_data: String,
}

/// A payment as the front end sees it.
#[derive(Clone, Debug)]
pub struct BridgePayment {
    pub invoice: BridgeInvoice,
    pub status: PaymentStatus,
    pub created_at: u64,
    pub paid: bool,
    pub direction: PaymentDirection,
}

/// An invoice as the front end sees it.
#[derive(Clone, Debug)]
pub struct BridgeInvoice {
    pub payment_hash: String,
    /// The amount in satoshis.
    pub amount: u64,
    pub description: String,
    pub invoice: String,
}

/// A guardian of a federation, as the front end sees it.
#[derive(Clone, Debug)]
pub struct BridgeGuardianInfo {
    pub name: String,
    pub address: String,
    pub online: bool,
}

/// A federation, as the front end sees it.
#[derive(Clone, Debug)]
pub struct BridgeFederationInfo {
    pub name: String,
    pub network: String,
    pub current: bool,
    pub guardians: Vec<BridgeGuardianInfo>,
}

/// The state behind the front end: the clients, the database they are stored in, and
/// the database's default tree.
pub struct Api {
    pub client_manager: ClientManager,
    pub db_default_tree: SledTree,
    /// The label of the client of the current federation, where one was switched to.
    pub current: Option<String>,
}

/// The value of a hexadecimal digit, in either case.
pub open spec fn hex_value(c: char) -> Option<u8> {
    if '0' <= c && c <= '9' {
        Some((c as u32 - 48) as u8)
    } else if 'a' <= c && c <= 'f' {
        Some((c as u32 - 87) as u8)
    } else if 'A' <= c && c <= 'F' {
        Some((c as u32 - 55) as u8)
    } else {
        None
    }
}

/// `s` is a payment hash in hexadecimal: 64 hexadecimal digits.
pub open spec fn is_hex_hash(s: Seq<char>) -> bool {
    s.len() == 64 && forall|i: int| 0 <= i < s.len() ==> #[trigger] hex_value(s[i]) is Some
}

/// The bytes that the hexadecimal digits `s` spell, two digits per byte.
pub open spec fn hex_decode(s: Seq<char>) -> Seq<u8> {
    Seq::new(
        s.len() / 2,
        |i: int| (hex_value(s[2 * i])->0 * 16 + hex_value(s[2 * i + 1])->0) as u8,
    )
}

/// `sha256::Hash::from_str` of bitcoin_hashes: 64 hexadecimal digits (either case),
/// decoded in order (SHA-256 hashes are not displayed backwards).
#[verifier::external_body]
fn parse_payment_hash(s: &str) -> (r: Option<Vec<u8>>)
    ensures
        r is Some <==> is_hex_hash(s@),
        r matches Some(v) ==> v@ == hex_decode(s@) && v@.len() == 32,
{
    match s.parse::<bitcoin::hashes::sha256::Hash>() {
        Ok(h) => Some(<bitcoin::hashes::sha256::Hash as bitcoin::hashes::Hash>::into_inner(h).to_vec()),
        Err(_) => None,
    }
}

/// The invoice as the front end sees it: amount in satoshis (rounded to the nearest),
/// description (empty for a description hash), text and payment hash in hex.
pub open spec fn bridge_invoice_fields(
    d: InvoiceData,
    payment_hash: Seq<char>,
    amount: u64,
    description: Seq<char>,
    invoice: Seq<char>,
) -> bool {
    &&& d.amount_msat matches Some(msat) && amount == msat_to_sat_rounded(msat)
    &&& description == match d.description {
        Some(s) => s@,
        None => Seq::<char>::empty(),
    }
    &&& invoice == d.bolt11@
    &&& payment_hash == hex_lower(d.payment_hash@)
}

/// The invoice `invoice` as the front end sees it; fails where it names no amount.
pub fn decode_invoice_inner(invoice: &InvoiceData) -> (r: Result<BridgeInvoice, BridgeError>)
    requires
        invoice.payment_hash@.len() == 32,
    ensures
        invoice.amount_msat is None <==> r is Err,
        r matches Err(e) ==> e is InvoiceMissingAmount,
        r matches Ok(b) ==> bridge_invoice_fields(
            *invoice,
            b.payment_hash@,
            b.amount,
            b.description@,
            b.invoice@,
        ),
{
    let amount = match invoice.amount_msat {
        Some(msat) => sat_rounded(msat),
        None => {
            return Err(BridgeError::InvoiceMissingAmount);
        },
    };
    let description = match &invoice.description {
        Some(d) => d.clone(),
        None => String::new(),
    };
    Ok(
        BridgeInvoice {
            amount,
            description,
            invoice: invoice.bolt11.clone(),
            payment_hash: payment_hash_hex(&invoice.payment_hash),
        },
    )
}

/// The text of an optional string, empty where there is none.
pub open spec fn text_or_empty(o: Option<Seq<char>>) -> Seq<char> {
    match o {
        Some(s) => s,
        None => Seq::empty(),
    }
}

/// `info` describes the client `c`: its label, balance in whole satoshis, federation
/// name (empty before the federation was reached) and user data: the text its storage
/// holds, exactly that where the client knows it, and otherwise empty where none is
/// stored or it cannot be read.
pub open spec fn describes_client(info: BridgeClientInfo, c: Client) -> bool {
    &&& info.label@ == c.label@
    &&& info.balance == if c.connected() {
        c.balance_msat() / 1000
    } else {
        0
    }
    &&& info.federation_name@ == if c.connected() {
        c.name()
    } else {
        Seq::<char>::empty()
    }
    &&& (info.user_data@ == Seq::<char>::empty() || (c.connected() && stored_user_data(
        c.entries(),
    ) == Some(info.user_data@)))
    &&& (!c.connected() || stored_user_data(c.entries()) is None ==> info.user_data@
        == Seq::<char>::empty())
    &&& (c.connected() && c.user_data_known() && stored_user_data(c.entries()) is Some
        ==> stored_user_data(c.entries()) == Some(info.user_data@))
}

/// Once the user data of a client that keeps storage was saved, the client's info
/// (as `get_client` and `get_clients` give it) carries exactly that data.
pub proof fn law_saved_user_data_shown(
    before: Seq<Client>,
    after: Seq<Client>,
    label: Seq<char>,
    data: Seq<char>,
    info: BridgeClientInfo,
)
    requires
        crate::client_manager::user_data_saved(before, after, label, data),
        client_with_label(after, label) matches Some(c) && c.connected() && describes_client(
            info,
            c,
        ),
    ensures
        info.user_data@ == data,
{
    vstd::utf8::encode_utf8_valid_utf8(data);
    vstd::utf8::encode_utf8_decode_utf8(data);
}

/// Builds the front end's view of a client.
pub fn client_info(c: &Client) -> (r: BridgeClientInfo)
    ensures
        describes_client(r, *c),
{
    let federation_name = match c.federation_name() {
        Some(n) => n,
        None => String::new(),
    };
    let user_data = match c.fetch_user_data() {
        Some(d) => d,
        None => String::new(),
    };
    BridgeClientInfo { label: c.label.clone(), balance: c.balance(), federation_name, user_data }
}

impl Api {
    /// Opens the database at `db_path` and its default tree.
    pub fn open(db_path: &str) -> (r: Result<Api, BridgeError>)
        ensures
            r matches Ok(api) ==> api.client_manager.wf() && api.client_manager.clients().len() == 0,
            r matches Ok(api) ==> crate::database::opened_at(api.client_manager.db_id()) == db_path@
                && api.db_default_tree.name() == crate::database::default_tree_id()
                && api.db_default_tree.owner() == api.client_manager.db_id() && api.current is None,
            r matches Err(e) ==> e is Database,
    {
        let mut db = match SledDatabase::open(db_path) {
            Ok(db) => db,
            Err(e) => {
                return Err(BridgeError::Database(e));
            },
        };
        let default_name = "__sled__default";
        proof {
            reveal_strlit("__sled__default");
            assert(default_name@ =~= crate::database::default_tree_name());
            crate::database::lemma_default_tree_bytes(default_name);
        }
        let tree = match db.open_tree(default_name) {
            Ok(t) => t,
            Err(e) => {
                return Err(BridgeError::Database(e));
            },
        };
        Ok(Api { client_manager: ClientManager::new(db), db_default_tree: tree, current: None })
    }
}

/// The client kept under `label`; any failure to find it reads "no such client".
pub fn get_client(api: &Api, label: &str) -> (r: Result<BridgeClientInfo, BridgeError>)
    requires
        api.client_manager.wf(),
    ensures
        !has_label(api.client_manager.clients(), label@) <==> r is Err,
        r matches Err(e) ==> e is NoSuchClient,
        r matches Ok(info) ==> client_with_label(api.client_manager.clients(), label@) matches Some(
            c,
        ) && describes_client(info, c),
{
    match api.client_manager.get_client_by_label(label) {
        Ok(c) => Ok(client_info(c)),
        Err(_) => Err(BridgeError::NoSuchClient),
    }
}

/// All clients kept, in the order they were added.
pub fn get_clients(api: &Api) -> (r: Vec<BridgeClientInfo>)
    requires
        api.client_manager.wf(),
    ensures
        r@.len() == api.client_manager.clients().len(),
        forall|i: int|
            0 <= i < r@.len() ==> describes_client(#[trigger] r@[i], api.client_manager.clients()[i]),
{
    let labels = api.client_manager.get_client_labels();
    let mut out: Vec<BridgeClientInfo> = Vec::new();
    let mut i: usize = 0;
    proof {
        assert(labels@.map_values(|s: String| s@).len() == labels@.len());
    }
    while i < labels.len()
        invariant
            api.client_manager.wf(),
            labels@.len() == api.client_manager.clients().len(),
            i <= labels@.len(),
            labels@.map_values(|s: String| s@) == crate::client_manager::labels_of(
                api.client_manager.clients(),
            ),
            out@.len() == i,
            forall|j: int|
                0 <= j < i ==> describes_client(#[trigger] out@[j], api.client_manager.clients()[j]),
        decreases labels@.len() - i,
    {
        proof {
            assert(labels@.map_values(|s: String| s@)[i as int] == labels@[i as int]@);
            assert(api.client_manager.clients()[i as int].label@ == labels@[i as int]@);
            crate::client_manager::lemma_client_with_label(api.client_manager.clients(), i as int);
        }
        match api.client_manager.get_client_by_label(labels[i].as_str()) {
            Ok(c) => {
                out.push(client_info(c));
            },
            Err(_) => {
                proof {
                    assert(false);
                }
            },
        }
        i = i + 1;
    }
    out
}

/// Joins the federation with config `config_url` and guardians `members`, given what
/// the federation answered to the config.
pub fn join_federation(
    api: &mut Api,
    config_url: &str,
    members: &Vec<(u16, String)>,
    fetched: Option<FederationInfo>,
) -> (r: Result<BridgeClientInfo, BridgeError>)
    requires
        old(api).client_manager.wf(),
    ensures
        final(api).client_manager.wf(),
        crate::federation::federation_label(crate::federation::members_view(members@)) is None ==> (
        r matches Err(e) && e is InvalidFederationCode),
        crate::federation::federation_label(crate::federation::members_view(members@)) matches Some(
            l,
        ) ==> has_label(old(api).client_manager.clients(), l) ==> (r matches Err(e)
            && e is ClientAlreadyExists),
        r matches Err(e) ==> e is InvalidFederationCode || e is ClientAlreadyExists || e is Database,
        r matches Err(e) ==> e is InvalidFederationCode ==> crate::federation::federation_label(
            crate::federation::members_view(members@),
        ) is None,
        r matches Err(e) ==> e is ClientAlreadyExists ==> (crate::federation::federation_label(
            crate::federation::members_view(members@),
        ) matches Some(l) && has_label(old(api).client_manager.clients(), l)),
        r matches Ok(info) ==> {
            &&& crate::federation::federation_label(crate::federation::members_view(members@))
                == Some(info.label@)
            &&& !has_label(old(api).client_manager.clients(), info.label@)
            &&& has_label(final(api).client_manager.clients(), info.label@)
            &&& client_with_label(final(api).client_manager.clients(), info.label@) matches Some(c)
                && describes_client(info, c) && c.cfg_json@ == config_url@ && (c.connected()
                <==> fetched is Some)
        },
        r matches Err(e) ==> final(api).client_manager.clients() == old(
            api,
        ).client_manager.clients(),
{
    let label = match api.client_manager.add_client(config_url, members, fetched) {
        Ok(l) => l,
        Err(e) => {
            return Err(e);
        },
    };
    proof {
        let s = api.client_manager.clients();
        crate::client_manager::lemma_client_with_label(s, s.len() - 1);
    }
    match api.client_manager.get_client_by_label(label.as_str()) {
        Ok(c) => Ok(client_info(c)),
        Err(e) => {
            proof {
                assert(false);
            }
            Err(e)
        },
    }
}

/// Leaves the federation of the client `label`: forgets the client and drops its
/// storage. Its e-cash is lost.
pub fn leave_federation(api: &mut Api, label: &str) -> (r: Result<(), BridgeError>)
    requires
        old(api).client_manager.wf(),
    ensures
        final(api).client_manager.wf(),
        !has_label(old(api).client_manager.clients(), label@) ==> (r matches Err(e)
            && e is ClientDoesNotExist),
        final(api).client_manager.clients() == crate::client_manager::without_label(
            old(api).client_manager.clients(),
            label@,
        ),
        r is Ok ==> final(api).client_manager.tree_names() == old(
            api,
        ).client_manager.tree_names().remove(vstd::utf8::encode_utf8(label@)),
        !has_label(old(api).client_manager.clients(), label@) ==> final(api).client_manager.tree_names()
            == old(api).client_manager.tree_names() && final(api).current == old(api).current,
        r matches Err(e) ==> e is ClientDoesNotExist || e is Database,
        has_label(old(api).client_manager.clients(), label@) ==> (r is Ok || (r matches Err(e)
            && e is Database)),
        has_label(old(api).client_manager.clients(), label@) ==> final(api).current == (if old(
            api,
        ).current matches Some(l) && l@ == label@ {
            None
        } else {
            old(api).current
        }),
{
    match api.client_manager.remove_client(label) {
        Ok(()) => {},
        Err(e) => {
            return Err(e);
        },
    }
    let lab = label.to_string();
    let was_current = match &api.current {
        Some(l) => *l == lab,
        None => false,
    };
    if was_current {
        api.current = None;
    }
    match api.client_manager.delete_client_database(label) {
        Ok(_) => Ok(()),
        Err(e) => Err(e),
    }
}

/// The balance of the client `label` in whole satoshis.
pub fn balance(api: &Api, label: &str) -> (r: Result<u64, BridgeError>)
    requires
        api.client_manager.wf(),
    ensures
        api.client_manager.clients().len() == 0 ==> (r matches Err(e) && e is JoinFederationFirst),
        api.client_manager.clients().len() > 0 && !has_label(api.client_manager.clients(), label@)
            ==> (r matches Err(e) && e is NoSuchClient),
        r matches Ok(b) ==> client_with_label(api.client_manager.clients(), label@) matches Some(c)
            && b == if c.connected() {
            c.balance_msat() / 1000
        } else {
            0
        },
        r is Ok <==> has_label(api.client_manager.clients(), label@),
{
    match api.client_manager.get_client_by_label(label) {
        Ok(c) => Ok(c.balance()),
        Err(e) => Err(e),
    }
}

/// Checks that the client `label` may pay the invoice `bolt11` and gives back the
/// decoded invoice, for the payment to be made; its outcome is then recorded with
/// `record_payment_outcome`.
pub fn pay(api: &Api, label: &str, bolt11: &str) -> (r: Result<InvoiceData, BridgeError>)
    requires
        api.client_manager.wf(),
    ensures
        api.client_manager.clients().len() == 0 ==> (r matches Err(e) && e is JoinFederationFirst),
        api.client_manager.clients().len() > 0 && !has_label(api.client_manager.clients(), label@)
            ==> (r matches Err(e) && e is NoSuchClient),
        has_label(api.client_manager.clients(), label@) && !bolt11_accepted(bolt11@) ==> (r matches Err(
            e,
        ) && e is InvalidInvoice),
        has_label(api.client_manager.clients(), label@) && bolt11_accepted(bolt11@) && !the_client(
            api.client_manager.clients(),
            label@,
        ).connected() ==> (r matches Err(e) && e is ClientNotConnected),
        r matches Err(e) ==> e is CannotPayTwice ==> {
            let c = the_client(api.client_manager.clients(), label@);
            &&& has_label(api.client_manager.clients(), label@)
            &&& c.connected()
            &&& exists|ps: Seq<PaymentView>|
                crate::client::is_payment_listing(c.entries(), ps) && !crate::client::may_pay(
                    ps,
                    bolt11_canonical(bolt11@),
                )
        },
        r matches Err(e) ==> e is CorruptRecord ==> {
            let c = the_client(api.client_manager.clients(), label@);
            &&& has_label(api.client_manager.clients(), label@)
            &&& c.connected()
            &&& crate::client::has_corrupt_payment(c.entries())
        },
        r matches Err(e) ==> e is JoinFederationFirst || e is NoSuchClient || e is InvalidInvoice
            || e is ClientNotConnected || e is CannotPayTwice || e is CorruptRecord || e is Database,
        r matches Err(e) ==> e is InvalidInvoice ==> !bolt11_accepted(bolt11@),
        r matches Err(e) ==> e is ClientNotConnected ==> !the_client(
            api.client_manager.clients(),
            label@,
        ).connected(),
        r matches Err(e) ==> e is CannotPayTwice ==> crate::client::recorded_outgoing(
            the_client(api.client_manager.clients(), label@).entries(),
            bolt11_canonical(bolt11@),
        ),
        has_label(api.client_manager.clients(), label@) && bolt11_accepted(bolt11@) && the_client(
            api.client_manager.clients(),
            label@,
        ).connected() ==> if crate::client::recorded_outgoing(
            the_client(api.client_manager.clients(), label@).entries(),
            bolt11_canonical(bolt11@),
        ) {
            r matches Err(e) && (e is CannotPayTwice || is_storage_or_corrupt(e))
        } else {
            r is Ok || (r matches Err(e) && is_storage_or_corrupt(e))
        },
        r matches Ok(d) ==> {
            let c = the_client(api.client_manager.clients(), label@);
            &&& describes(d, bolt11@)
            &&& has_label(api.client_manager.clients(), label@)
            &&& c.connected()
            &&& exists|ps: Seq<PaymentView>|
                crate::client::is_payment_listing(c.entries(), ps) && crate::client::may_pay(
                    ps,
                    d.bolt11@,
                )
        },
{
    match api.client_manager.get_client_by_label(label) {
        Ok(c) => c.pay(bolt11),
        Err(e) => Err(e),
    }
}

/// Records the outcome of paying `invoice` from the client `label`: a paid outgoing
/// payment where `outcome` is `Ok`, a failed one otherwise (and the failure is handed
/// on).
pub fn record_payment_outcome(
    api: &mut Api,
    label: &str,
    invoice: &InvoiceData,
    outcome: Result<(), String>,
    now: u64,
) -> (r: Result<(), BridgeError>)
    requires
        old(api).client_manager.wf(),
    ensures
        final(api).client_manager.wf(),
        crate::client_manager::labels_of(final(api).client_manager.clients())
            == crate::client_manager::labels_of(old(api).client_manager.clients()),
        !has_label(old(api).client_manager.clients(), label@) ==> r is Err,
        old(api).client_manager.clients().len() == 0 ==> (r matches Err(e) && e is JoinFederationFirst),
        old(api).client_manager.clients().len() > 0 && !has_label(
            old(api).client_manager.clients(),
            label@,
        ) ==> (r matches Err(e) && e is NoSuchClient),
        outcome is Err ==> r is Err,
        r is Ok ==> {
            let c = the_client(old(api).client_manager.clients(), label@);
            let d = the_client(final(api).client_manager.clients(), label@);
            &&& has_label(old(api).client_manager.clients(), label@)
            &&& has_label(final(api).client_manager.clients(), label@)
            &&& c.same_but_storage(&d)
            &&& c.connected() ==> d.entries() == c.entries().insert(
                crate::client::payment_key(invoice.payment_hash@),
                crate::payments::encode_payment(
                    crate::client::payment_of(
                        *invoice,
                        PaymentStatus::Paid,
                        PaymentDirection::Outgoing,
                        now,
                    ),
                ),
            )
        },
        (r matches Err(e) && e is PaymentFailed) ==> {
            let c = the_client(old(api).client_manager.clients(), label@);
            let d = the_client(final(api).client_manager.clients(), label@);
            &&& outcome is Err
            &&& has_label(old(api).client_manager.clients(), label@)
            &&& has_label(final(api).client_manager.clients(), label@)
            &&& c.same_but_storage(&d)
            &&& c.connected() ==> d.entries() == c.entries().insert(
                crate::client::payment_key(invoice.payment_hash@),
                crate::payments::encode_payment(
                    crate::client::payment_of(
                        *invoice,
                        PaymentStatus::Failed,
                        PaymentDirection::Outgoing,
                        now,
                    ),
                ),
            )
        },
        r matches Err(e) ==> e is JoinFederationFirst || e is NoSuchClient || e is PaymentFailed
            || e is Database,
{
    let i = match api.client_manager.position(label) {
        Ok(i) => i,
        Err(e) => {
            return Err(e);
        },
    };
    let ghost before = api.client_manager.clients();
    let mut c = api.client_manager.take_client(i);
    let res = c.finish_pay(invoice, outcome, now);
    proof {
        lemma_put_back_same_label(before, i as int, c);
        lemma_put_back_owned(before, i as int, c, api.client_manager.db_id());
    }
    api.client_manager.put_back(i, c);
    proof {
        lemma_replaced_client(before, i as int, c);
    }
    res
}

/// Records what claiming the incoming payment `payment_hash` of the client `label`
/// gave: paid where the claim succeeded, expired where it failed on an expired
/// invoice, unchanged otherwise. Only a payment that may still be claimed is changed.
pub fn record_claim_result(
    api: &mut Api,
    label: &str,
    payment_hash: &[u8],
    claimed: bool,
    invoice_expired: bool,
) -> (r: Result<(), BridgeError>)
    requires
        old(api).client_manager.wf(),
    ensures
        final(api).client_manager.wf(),
        crate::client_manager::labels_of(final(api).client_manager.clients())
            == crate::client_manager::labels_of(old(api).client_manager.clients()),
        !has_label(old(api).client_manager.clients(), label@) ==> r is Err,
        old(api).client_manager.clients().len() == 0 ==> (r matches Err(e) && e is JoinFederationFirst),
        old(api).client_manager.clients().len() > 0 && !has_label(
            old(api).client_manager.clients(),
            label@,
        ) ==> (r matches Err(e) && e is NoSuchClient),
        has_label(old(api).client_manager.clients(), label@) ==> {
            let c = the_client(old(api).client_manager.clients(), label@);
            let d = the_client(final(api).client_manager.clients(), label@);
            &&& has_label(final(api).client_manager.clients(), label@)
            &&& c.same_but_storage(&d)
            &&& (!claimed && !invoice_expired) ==> r is Ok && d.entries() == c.entries()
            &&& !c.connected() ==> r is Ok && d.entries() == c.entries()
            &&& (r is Ok && c.connected() && (claimed || invoice_expired)) ==> match stored_payment(
                c.entries(),
                payment_hash@,
            ) {
                Some(Some(p)) => if crate::client::claimable(p) {
                    d.entries() == c.entries().insert(
                        crate::client::payment_key(payment_hash@),
                        crate::payments::encode_payment(
                            PaymentView {
                                status: if claimed {
                                    PaymentStatus::Paid
                                } else {
                                    PaymentStatus::Expired
                                },
                                ..p
                            },
                        ),
                    )
                } else {
                    d.entries() == c.entries()
                },
                _ => d.entries() == c.entries(),
            }
        },
{
    let i = match api.client_manager.position(label) {
        Ok(i) => i,
        Err(e) => {
            return Err(e);
        },
    };
    let ghost before = api.client_manager.clients();
    let mut c = api.client_manager.take_client(i);
    let res = c.apply_claim_result(payment_hash, claimed, invoice_expired);
    proof {
        lemma_put_back_same_label(before, i as int, c);
        lemma_put_back_owned(before, i as int, c, api.client_manager.db_id());
    }
    api.client_manager.put_back(i, c);
    proof {
        lemma_replaced_client(before, i as int, c);
    }
    res
}

/// Records the e-cash of the client `label` after its federation reported it anew.
pub fn update_balance(api: &mut Api, label: &str, balance_msat: u64) -> (r: Result<(), BridgeError>)
    requires
        old(api).client_manager.wf(),
    ensures
        final(api).client_manager.wf(),
        crate::client_manager::labels_of(final(api).client_manager.clients())
            == crate::client_manager::labels_of(old(api).client_manager.clients()),
        r is Ok <==> has_label(old(api).client_manager.clients(), label@),
        old(api).client_manager.clients().len() == 0 ==> (r matches Err(e) && e is JoinFederationFirst),
        old(api).client_manager.clients().len() > 0 && !has_label(
            old(api).client_manager.clients(),
            label@,
        ) ==> (r matches Err(e) && e is NoSuchClient),
        has_label(old(api).client_manager.clients(), label@) ==> {
            let c = the_client(old(api).client_manager.clients(), label@);
            let d = the_client(final(api).client_manager.clients(), label@);
            &&& has_label(final(api).client_manager.clients(), label@)
            &&& d.label@ == c.label@
            &&& d.cfg_json@ == c.cfg_json@
            &&& d.connection_status == c.connection_status
            &&& d.connected() == c.connected()
            &&& d.entries() == c.entries()
            &&& d.name() == c.name()
            &&& d.net() == c.net()
            &&& c.connected() ==> d.balance_msat() == balance_msat
        },
{
    let i = match api.client_manager.position(label) {
        Ok(i) => i,
        Err(e) => {
            return Err(e);
        },
    };
    let ghost before = api.client_manager.clients();
    let mut c = api.client_manager.take_client(i);
    c.set_balance_msat(balance_msat);
    proof {
        lemma_put_back_same_label(before, i as int, c);
        lemma_put_back_owned(before, i as int, c, api.client_manager.db_id());
    }
    api.client_manager.put_back(i, c);
    proof {
        lemma_replaced_client(before, i as int, c);
    }
    Ok(())
}

/// Whether the refunds of failed outgoing payments are due again: more than a minute
/// (60000 milliseconds) has passed since they were last looked for.
pub fn outgoing_check_due(last_check_ms: u64, now_ms: u64) -> (r: bool)
    requires
        last_check_ms <= now_ms,
    ensures
        r == (now_ms - last_check_ms > 60000),
{
    now_ms - last_check_ms > 60000
}

/// `clients` with position `i` replaced by `c`, of the same label, as `remove` and
/// `insert` leave it.
proof fn lemma_put_back_same_label(clients: Seq<Client>, i: int, c: Client)
    requires
        crate::client_manager::unique_labels(clients),
        0 <= i < clients.len(),
        c.label@ == clients[i].label@,
    ensures
        clients.remove(i).insert(i, c) == clients.update(i, c),
        crate::client_manager::unique_labels(clients.remove(i).insert(i, c)),
{
    assert(clients.remove(i).insert(i, c) =~= clients.update(i, c));
    let s = clients.update(i, c);
    assert forall|a: int, b: int| 0 <= a < b < s.len() implies #[trigger] s[a].label@ != #[trigger] s[b].label@ by {
        assert(s[a].label@ == clients[a].label@);
        assert(s[b].label@ == clients[b].label@);
    }
}

/// Putting back at position `i` a client that keeps storage of the same database keeps
/// every client's storage in that database.
proof fn lemma_put_back_owned(clients: Seq<Client>, i: int, c: Client, id: sled::Db)
    requires
        crate::client_manager::owned_storage(clients, id),
        0 <= i < clients.len(),
        c.connected() ==> c.storage_owner() == id,
    ensures
        crate::client_manager::owned_storage(clients.remove(i).insert(i, c), id),
{
    let s = clients.remove(i).insert(i, c);
    assert(s =~= clients.update(i, c));
    assert forall|k: int| 0 <= k < s.len() && #[trigger] s[k].connected() implies s[k].storage_owner()
        == id by {
        if k != i {
            assert(s[k] == clients[k]);
        }
    }
}

/// Replacing the client at position `i` by one of the same label keeps the labels and
/// makes it the client found under that label.
proof fn lemma_replaced_client(clients: Seq<Client>, i: int, c: Client)
    requires
        crate::client_manager::unique_labels(clients),
        0 <= i < clients.len(),
        c.label@ == clients[i].label@,
    ensures
        crate::client_manager::labels_of(clients.update(i, c)) == crate::client_manager::labels_of(
            clients,
        ),
        client_with_label(clients, clients[i].label@) == Some(clients[i]),
        client_with_label(clients.update(i, c), c.label@) == Some(c),
{
    let s = clients.update(i, c);
    assert(crate::client_manager::labels_of(s) =~= crate::client_manager::labels_of(clients));
    lemma_put_back_same_label(clients, i, c);
    crate::client_manager::lemma_client_with_label(clients, i);
    crate::client_manager::lemma_client_with_label(s, i);
}

/// Invoices on mainnet are limited to this many satoshis.
pub const MAINNET_INVOICE_LIMIT_SAT: u64 = 60000;

/// Checks that the client `label` may issue an invoice of `amount` satoshis: it must
/// have reached its federation, and on mainnet the amount is limited to 60000.
pub fn invoice_request(api: &Api, label: &str, amount: u64) -> (r: Result<(), BridgeError>)
    requires
        api.client_manager.wf(),
    ensures
        api.client_manager.clients().len() == 0 ==> (r matches Err(e) && e is JoinFederationFirst),
        api.client_manager.clients().len() > 0 && !has_label(api.client_manager.clients(), label@)
            ==> (r matches Err(e) && e is NoSuchClient),
        client_with_label(api.client_manager.clients(), label@) matches Some(c) ==> {
            &&& c.connected() && c.net() == crate::client::Network::Bitcoin && amount > 60000 ==> (
            r matches Err(e) && e is InvoiceTooLarge)
            &&& !c.connected() ==> (r matches Err(e) && e is ClientNotConnected)
            &&& r is Ok <==> c.connected() && !(c.net() == crate::client::Network::Bitcoin
                && amount > 60000)
        },
{
    let c = match api.client_manager.get_client_by_label(label) {
        Ok(c) => c,
        Err(e) => {
            return Err(e);
        },
    };
    match c.network() {
        Some(crate::client::Network::Bitcoin) => {
            if amount > MAINNET_INVOICE_LIMIT_SAT {
                return Err(BridgeError::InvoiceTooLarge);
            }
            Ok(())
        },
        Some(_) => Ok(()),
        None => Err(BridgeError::ClientNotConnected),
    }
}

/// Records the invoice `generated` of `amount` satoshis, issued for the client
/// `label`, as a pending incoming payment, and gives back its text.
pub fn invoice(
    api: &mut Api,
    label: &str,
    amount: u64,
    generated: &InvoiceData,
    now: u64,
) -> (r: Result<String, BridgeError>)
    requires
        old(api).client_manager.wf(),
    ensures
        final(api).client_manager.wf(),
        crate::client_manager::labels_of(final(api).client_manager.clients())
            == crate::client_manager::labels_of(old(api).client_manager.clients()),
        client_with_label(old(api).client_manager.clients(), label@) matches Some(c) ==> (
        c.connected() && c.net() == crate::client::Network::Bitcoin && amount > 60000 ==> (
        r matches Err(e) && e is InvoiceTooLarge)),
        client_with_label(old(api).client_manager.clients(), label@) matches Some(c) ==> (
        !c.connected() ==> (r matches Err(e) && e is ClientNotConnected)),
        old(api).client_manager.clients().len() == 0 ==> (r matches Err(e) && e is JoinFederationFirst),
        old(api).client_manager.clients().len() > 0 && !has_label(
            old(api).client_manager.clients(),
            label@,
        ) ==> (r matches Err(e) && e is NoSuchClient),
        r matches Err(e) ==> e is JoinFederationFirst || e is NoSuchClient || e is InvoiceTooLarge
            || e is ClientNotConnected || e is Database,
        r matches Err(e) ==> e is InvoiceTooLarge ==> {
            let c = the_client(old(api).client_manager.clients(), label@);
            &&& has_label(old(api).client_manager.clients(), label@)
            &&& c.connected()
            &&& c.net() == crate::client::Network::Bitcoin
            &&& amount > 60000
        },
        r matches Err(e) ==> e is ClientNotConnected ==> !the_client(
            old(api).client_manager.clients(),
            label@,
        ).connected(),
        r matches Err(e) ==> !(e is Database) ==> final(api).client_manager.clients() == old(
            api,
        ).client_manager.clients(),
        !has_label(old(api).client_manager.clients(), label@) ==> r is Err,
        r matches Ok(s) ==> {
            let c = the_client(old(api).client_manager.clients(), label@);
            let d = the_client(final(api).client_manager.clients(), label@);
            &&& s@ == generated.bolt11@
            &&& has_label(old(api).client_manager.clients(), label@)
            &&& has_label(final(api).client_manager.clients(), label@)
            &&& c.same_but_storage(&d)
            &&& c.connected()
            &&& d.entries() == c.entries().insert(
                crate::client::payment_key(generated.payment_hash@),
                crate::payments::encode_payment(
                    crate::client::payment_of(
                        *generated,
                        PaymentStatus::Pending,
                        PaymentDirection::Incoming,
                        now,
                    ),
                ),
            )
        },
{
    match invoice_request(api, label, amount) {
        Ok(()) => {},
        Err(e) => {
            return Err(e);
        },
    }
    let i = match api.client_manager.position(label) {
        Ok(i) => i,
        Err(e) => {
            return Err(e);
        },
    };
    let ghost before = api.client_manager.clients();
    let mut c = api.client_manager.take_client(i);
    let res = c.invoice(generated, now);
    proof {
        lemma_put_back_same_label(before, i as int, c);
        lemma_put_back_owned(before, i as int, c, api.client_manager.db_id());
    }
    api.client_manager.put_back(i, c);
    proof {
        lemma_replaced_client(before, i as int, c);
    }
    res
}

/// `b` shows the invoice with text `s`: its amount in satoshis (rounded to the
/// nearest), description (empty for a description hash), canonical text and payment
/// hash in hex.
pub open spec fn shows_invoice(b: BridgeInvoice, s: Seq<char>) -> bool {
    &&& bolt11_accepted(s)
    &&& bolt11_amount_msat(s) matches Some(msat) && b.amount == msat_to_sat_rounded(msat)
    &&& b.description@ == text_or_empty(crate::invoice::bolt11_description(s))
    &&& b.invoice@ == bolt11_canonical(s)
    &&& b.payment_hash@ == hex_lower(crate::invoice::bolt11_payment_hash(s))
}

/// `b` shows the payment `p`.
pub open spec fn shows_payment(b: BridgePayment, p: PaymentView) -> bool {
    &&& shows_invoice(b.invoice, p.invoice)
    &&& b.status == p.status
    &&& b.created_at == p.created_at
    &&& b.paid == (p.status == PaymentStatus::Paid)
    &&& b.direction == p.direction
}

/// The front end's view of a stored payment; fails where its invoice does not decode
/// or names no amount.
pub fn bridge_payment(p: &Payment) -> (r: Result<BridgePayment, BridgeError>)
    ensures
        r matches Ok(b) ==> shows_payment(b, p@),
        r is Err <==> !bolt11_accepted(p.invoice@) || bolt11_amount_msat(p.invoice@) is None,
        r matches Err(e) ==> e is CorruptRecord || e is InvoiceMissingAmount,
{
    let d = match decode_bolt11(p.invoice.as_str()) {
        Some(d) => d,
        None => {
            return Err(BridgeError::CorruptRecord);
        },
    };
    let invoice = match decode_invoice_inner(&d) {
        Ok(b) => b,
        Err(e) => {
            return Err(e);
        },
    };
    Ok(
        BridgePayment {
            invoice,
            status: p.status,
            created_at: p.created_at,
            paid: p.paid(),
            direction: p.direction,
        },
    )
}

/// The payment of the client `label` with the payment hash `payment_hash` (64
/// hexadecimal digits).
pub fn fetch_payment(api: &Api, label: &str, payment_hash: &str) -> (r: Result<
    BridgePayment,
    BridgeError,
>)
    requires
        api.client_manager.wf(),
    ensures
        !is_hex_hash(payment_hash@) ==> (r matches Err(e) && e is InvalidPaymentHash),
        is_hex_hash(payment_hash@) && api.client_manager.clients().len() == 0 ==> (r matches Err(e)
            && e is JoinFederationFirst),
        is_hex_hash(payment_hash@) && api.client_manager.clients().len() > 0 && !has_label(
            api.client_manager.clients(),
            label@,
        ) ==> (r matches Err(e) && e is NoSuchClient),
        r matches Ok(b) ==> {
            let c = the_client(api.client_manager.clients(), label@);
            let stored = crate::client::stored_payment(c.entries(), hex_decode(payment_hash@));
            &&& has_label(api.client_manager.clients(), label@)
            &&& c.connected()
            &&& stored is Some
            &&& stored->Some_0 is Some
            &&& shows_payment(b, stored->Some_0->Some_0)
        },
        (r matches Err(e) && e is PaymentNotFound) ==> {
            let c = the_client(api.client_manager.clients(), label@);
            &&& has_label(api.client_manager.clients(), label@)
            &&& (!c.connected() || crate::client::stored_payment(
                c.entries(),
                hex_decode(payment_hash@),
            ) == Some(None::<PaymentView>))
        },
        (r matches Err(e) && (e is CorruptRecord || e is InvoiceMissingAmount)) ==> {
            let c = the_client(api.client_manager.clients(), label@);
            let stored = crate::client::stored_payment(c.entries(), hex_decode(payment_hash@));
            &&& has_label(api.client_manager.clients(), label@)
            &&& c.connected()
            &&& (stored is None || (stored matches Some(Some(p)) && !presentable(Some(p))))
        },
        is_hex_hash(payment_hash@) && has_label(api.client_manager.clients(), label@) && the_client(
            api.client_manager.clients(),
            label@,
        ).connected() && (crate::client::stored_payment(
            the_client(api.client_manager.clients(), label@).entries(),
            hex_decode(payment_hash@),
        ) matches Some(Some(p)) && presentable(Some(p))) ==> (r is Ok || (r matches Err(e)
            && e is Database)),
        r matches Err(e) ==> e is InvalidPaymentHash || e is JoinFederationFirst || e is NoSuchClient
            || e is PaymentNotFound || e is CorruptRecord || e is InvoiceMissingAmount || e is Database,
{
    let hash = match parse_payment_hash(payment_hash) {
        Some(h) => h,
        None => {
            return Err(BridgeError::InvalidPaymentHash);
        },
    };
    let c = match api.client_manager.get_client_by_label(label) {
        Ok(c) => c,
        Err(e) => {
            return Err(e);
        },
    };
    let payment = match c.fetch_payment(hash.as_slice()) {
        Ok(Some(p)) => p,
        Ok(None) => {
            return Err(BridgeError::PaymentNotFound);
        },
        Err(e) => {
            return Err(e);
        },
    };
    bridge_payment(&payment)
}

/// Every payment that `entries` store decodes, and its invoice is accepted and names an
/// amount.
pub open spec fn payments_presentable(entries: Map<Seq<u8>, Seq<u8>>) -> bool {
    forall|k: Seq<u8>|
        #[trigger] entries.contains_key(k) && crate::database::has_prefix(
            k,
            crate::client::payment_prefix(),
        ) ==> presentable(crate::payments::decode_payment(entries[k]))
}

/// `d` is a payment whose invoice is accepted and names an amount.
pub open spec fn presentable(d: Option<PaymentView>) -> bool {
    d matches Some(p) && bolt11_accepted(p.invoice) && bolt11_amount_msat(p.invoice) is Some
}

/// The payments of the client `label`, in storage order.
pub fn list_payments(api: &Api, label: &str) -> (r: Result<Vec<BridgePayment>, BridgeError>)
    requires
        api.client_manager.wf(),
    ensures
        api.client_manager.clients().len() == 0 ==> (r matches Err(e) && e is JoinFederationFirst),
        api.client_manager.clients().len() > 0 && !has_label(api.client_manager.clients(), label@)
            ==> (r matches Err(e) && e is NoSuchClient),
        r matches Ok(v) ==> client_with_label(api.client_manager.clients(), label@) matches Some(c)
            && (!c.connected() ==> v@.len() == 0) && (c.connected() ==> exists|ps: Seq<PaymentView>|
            crate::client::is_payment_listing(c.entries(), ps) && ps.len() == v@.len() && forall|
                i: int,
            |
                0 <= i < ps.len() ==> shows_payment(#[trigger] v@[i], ps[i])),
        has_label(api.client_manager.clients(), label@) && (!the_client(
            api.client_manager.clients(),
            label@,
        ).connected() || payments_presentable(
            the_client(api.client_manager.clients(), label@).entries(),
        )) ==> (r is Ok || (r matches Err(e) && e is Database)),
        r matches Err(e) ==> e is JoinFederationFirst || e is NoSuchClient || e is CorruptRecord
            || e is InvoiceMissingAmount || e is Database,
{
    let c = match api.client_manager.get_client_by_label(label) {
        Ok(c) => c,
        Err(e) => {
            return Err(e);
        },
    };
    let payments = match c.list_payments() {
        Ok(ps) => ps,
        Err(e) => {
            return Err(e);
        },
    };
    let ghost ps = crate::client::payment_views(payments@);
    let mut out: Vec<BridgePayment> = Vec::new();
    let mut i: usize = 0;
    while i < payments.len()
        invariant
            has_label(api.client_manager.clients(), label@),
            client_with_label(api.client_manager.clients(), label@) == Some(*c),
            !c.connected() ==> payments@.len() == 0,
            c.connected() ==> crate::client::is_payment_listing(c.entries(), ps),
            i <= payments@.len(),
            ps == crate::client::payment_views(payments@),
            out@.len() == i,
            forall|j: int| 0 <= j < i ==> shows_payment(#[trigger] out@[j], ps[j]),
        decreases payments@.len() - i,
    {
        match bridge_payment(&payments[i]) {
            Ok(b) => {
                out.push(b);
            },
            Err(e) => {
                proof {
                    if c.connected() && payments_presentable(c.entries()) {
                        let l = choose|l: Seq<(Seq<u8>, Seq<u8>)>|
                            {
                                &&& crate::database::is_prefix_listing(
                                    c.entries(),
                                    crate::client::payment_prefix(),
                                    l,
                                )
                                &&& l.len() == ps.len()
                                &&& forall|j: int|
                                    0 <= j < l.len() ==> crate::payments::decode_payment(
                                        #[trigger] l[j].1,
                                    ) == Some(ps[j])
                            };
                        let k = l[i as int].0;
                        assert(crate::payments::decode_payment(l[i as int].1) == Some(ps[i as int]));
                        assert(c.entries().contains_key(k) && crate::database::has_prefix(
                            k,
                            crate::client::payment_prefix(),
                        ));
                        assert(c.entries()[k] == l[i as int].1);
                        assert(presentable(crate::payments::decode_payment(c.entries()[k])));
                        assert(ps[i as int] == payments@[i as int]@);
                        assert(false);
                    }
                }
                return Err(e);
            },
        }
        i = i + 1;
    }
    Ok(out)
}

/// Whether a client is kept under `label`.
pub fn configured_status(api: &Api, label: &str) -> (r: bool)
    ensures
        r == has_label(api.client_manager.clients(), label@),
{
    api.client_manager.client_exists(label)
}

/// The connection status of the client `label`, given `reachable`, whether its
/// federation answered a request just now: not configured where no such client is
/// kept, connected where it has reached its federation and the federation answered.
pub fn connection_status(api: &Api, label: &str, reachable: bool) -> (r: ConnectionStatus)
    requires
        api.client_manager.wf(),
    ensures
        !has_label(api.client_manager.clients(), label@) ==> r == ConnectionStatus::NotConfigured,
        client_with_label(api.client_manager.clients(), label@) matches Some(c) ==> r == if c.connected()
            && reachable {
            ConnectionStatus::Connected
        } else {
            ConnectionStatus::NotConnected
        },
{
    if !api.client_manager.client_exists(label) {
        return ConnectionStatus::NotConfigured;
    }
    match api.client_manager.get_client_by_label(label) {
        Ok(c) => if c.is_connected() && reachable {
            ConnectionStatus::Connected
        } else {
            ConnectionStatus::NotConnected
        },
        Err(_) => ConnectionStatus::NotConnected,
    }
}

/// The name of the network of the client `label`.
pub fn network(api: &Api, label: &str) -> (r: Result<String, BridgeError>)
    requires
        api.client_manager.wf(),
    ensures
        api.client_manager.clients().len() == 0 ==> (r matches Err(e) && e is JoinFederationFirst),
        api.client_manager.clients().len() > 0 && !has_label(api.client_manager.clients(), label@)
            ==> (r matches Err(e) && e is NoSuchClient),
        client_with_label(api.client_manager.clients(), label@) matches Some(c) ==> (if c.connected() {
            r matches Ok(s) && s@ == network_name(c.net())
        } else {
            r matches Err(e) && e is ClientNotConnected
        }),
{
    let c = match api.client_manager.get_client_by_label(label) {
        Ok(c) => c,
        Err(e) => {
            return Err(e);
        },
    };
    match c.network() {
        Some(n) => Ok(network_to_string(n)),
        None => Err(BridgeError::ClientNotConnected),
    }
}

/// The name under which the front end lists the federation of `c`: its name once the
/// client has reached it, empty before.
pub open spec fn shown_name(c: Client) -> Seq<char> {
    if c.connected() {
        c.name()
    } else {
        Seq::empty()
    }
}

/// The network under which the front end lists the federation of `c`: its name once
/// the client has reached it, empty before.
pub open spec fn shown_network(c: Client) -> Seq<char> {
    if c.connected() {
        network_name(c.net())
    } else {
        Seq::empty()
    }
}

/// `f` names the federation of `c`.
pub open spec fn names_federation(f: BridgeFederationInfo, c: Client) -> bool {
    f.name@ == shown_name(c) && f.network@ == shown_network(c)
}

/// The federation's name and network as the front end lists them.
fn shown_fields(c: &Client) -> (r: (String, String))
    ensures
        r.0@ == shown_name(*c),
        r.1@ == shown_network(*c),
{
    let name = match c.federation_name() {
        Some(n) => n,
        None => String::new(),
    };
    let network = match c.network() {
        Some(n) => network_to_string(n),
        None => String::new(),
    };
    (name, network)
}

/// Switches to a federation already joined: the client of the first federation kept
/// whose name and network are those of `federation` becomes the current one. Where no
/// such federation was joined, nothing changes. It always succeeds.
pub fn switch_federation(api: &mut Api, federation: BridgeFederationInfo) -> (r: Result<
    (),
    BridgeError,
>)
    requires
        old(api).client_manager.wf(),
    ensures
        final(api).client_manager == old(api).client_manager,
        r is Ok,
        !(exists|i: int|
            0 <= i < old(api).client_manager.clients().len() && names_federation(
                federation,
                #[trigger] old(api).client_manager.clients()[i],
            )) ==> final(api).current == old(api).current,
        (exists|i: int|
            0 <= i < old(api).client_manager.clients().len() && names_federation(
                federation,
                #[trigger] old(api).client_manager.clients()[i],
            )) ==> exists|i: int|
            0 <= i < old(api).client_manager.clients().len() && names_federation(
                federation,
                #[trigger] old(api).client_manager.clients()[i],
            ) && (final(api).current matches Some(l) && l@ == old(
                api,
            ).client_manager.clients()[i].label@),
{
    let labels = api.client_manager.get_client_labels();
    let mut i: usize = 0;
    proof {
        assert(labels@.map_values(|s: String| s@).len() == labels@.len());
    }
    while i < labels.len()
        invariant
            api.client_manager.wf(),
            labels@.len() == api.client_manager.clients().len(),
            i <= labels@.len(),
            labels@.map_values(|s: String| s@) == crate::client_manager::labels_of(
                api.client_manager.clients(),
            ),
            forall|j: int|
                0 <= j < i ==> !names_federation(federation, #[trigger] api.client_manager.clients()[j]),
            api.client_manager == old(api).client_manager,
            api.current == old(api).current,
        decreases labels@.len() - i,
    {
        proof {
            assert(labels@.map_values(|s: String| s@)[i as int] == labels@[i as int]@);
            crate::client_manager::lemma_client_with_label(api.client_manager.clients(), i as int);
        }
        let found = match api.client_manager.get_client_by_label(labels[i].as_str()) {
            Ok(c) => {
                let (name, network) = shown_fields(c);
                name == federation.name && network == federation.network
            },
            Err(_) => false,
        };
        if found {
            api.current = Some(labels[i].clone());
            return Ok(());
        }
        i = i + 1;
    }
    Ok(())
}

/// Checks a decoded invoice against the client `c` that is to pay it: not paid
/// before, on the client's network, and not expired (`expired` tells whether it has
/// expired by the clock). Gives back the front end's view of it.
pub fn check_invoice(c: &Client, d: &InvoiceData, expired: bool) -> (r: Result<
    BridgeInvoice,
    BridgeError,
>)
    requires
        d.payment_hash@.len() == 32,
    ensures
        r matches Ok(b) ==> {
            &&& c.connected()
            &&& exists|ps: Seq<PaymentView>|
                crate::client::is_payment_listing(c.entries(), ps) && crate::client::may_pay(
                    ps,
                    d.bolt11@,
                )
            &&& spec_network_to_currency(c.net()) == d.currency
            &&& !expired
            &&& bridge_invoice_fields(*d, b.payment_hash@, b.amount, b.description@, b.invoice@)
        },
        r matches Err(e) && e is WrongNetwork ==> c.connected() && spec_network_to_currency(c.net())
            != d.currency,
        c.connected() && spec_network_to_currency(c.net()) == d.currency && expired ==> (r matches Err(
            e,
        ) && (e is InvoiceExpired || e is CannotPayTwice || is_storage_or_corrupt(e))),
        r matches Err(e) && e is InvoiceExpired ==> expired,
        r matches Err(e) && e is InvoiceMissingAmount ==> d.amount_msat is None,
        r matches Err(e) && e is CannotPayTwice ==> c.connected() && exists|ps: Seq<PaymentView>|
            crate::client::is_payment_listing(c.entries(), ps) && !crate::client::may_pay(
                ps,
                d.bolt11@,
            ),
        !c.connected() ==> (r matches Err(e) && e is ClientNotConnected),
        c.connected() && !expired && spec_network_to_currency(c.net()) == d.currency
            && d.amount_msat is None ==> (r matches Err(e) && (e is InvoiceMissingAmount
            || e is CannotPayTwice || is_storage_or_corrupt(e))),
        r matches Err(e) ==> e is CannotPayTwice ==> crate::client::recorded_outgoing(
            c.entries(),
            d.bolt11@,
        ),
        r matches Err(BridgeError::WrongNetwork { expected, got }) ==> expected
            == spec_network_to_currency(c.net()) && got == d.currency,
        r matches Err(e) ==> e is ClientNotConnected ==> !c.connected(),
        r matches Err(e) ==> e is CannotPayTwice || e is ClientNotConnected || e is WrongNetwork
            || e is InvoiceExpired || e is InvoiceMissingAmount || is_storage_or_corrupt(e),
        c.connected() ==> if crate::client::recorded_outgoing(c.entries(), d.bolt11@) {
            r matches Err(e) && (e is CannotPayTwice || is_storage_or_corrupt(e))
        } else if spec_network_to_currency(c.net()) != d.currency {
            r matches Err(e) && (e is WrongNetwork || is_storage_or_corrupt(e))
        } else if expired {
            r matches Err(e) && (e is InvoiceExpired || is_storage_or_corrupt(e))
        } else if d.amount_msat is None {
            r matches Err(e) && (e is InvoiceMissingAmount || is_storage_or_corrupt(e))
        } else {
            r is Ok || (r matches Err(e) && is_storage_or_corrupt(e))
        },
{
    match c.can_pay(d) {
        Ok(true) => {},
        Ok(false) => {
            return Err(BridgeError::CannotPayTwice);
        },
        Err(e) => {
            return Err(e);
        },
    }
    let net = match c.network() {
        Some(n) => n,
        None => {
            return Err(BridgeError::ClientNotConnected);
        },
    };
    let expected = network_to_currency(net);
    if expected != d.currency {
        return Err(BridgeError::WrongNetwork { expected, got: d.currency });
    }
    if expired {
        return Err(BridgeError::InvoiceExpired);
    }
    decode_invoice_inner(d)
}

/// A failure of storage or a corrupt record.
pub open spec fn is_storage_or_corrupt(e: BridgeError) -> bool {
    e is Database || e is CorruptRecord
}

/// Checks that the client `label` can pay the invoice `bolt11`, given what decoding it
/// gave (`decoded`: its fields and whether it has expired by the clock, `None` where it
/// is not accepted): not paid before, on the client's network and not expired.
pub fn decode_invoice_checked(
    api: &Api,
    label: &str,
    bolt11: &str,
    decoded: Option<(InvoiceData, bool)>,
) -> (r: Result<BridgeInvoice, BridgeError>)
    requires
        api.client_manager.wf(),
        decoded is Some <==> bolt11_accepted(bolt11@),
        decoded matches Some(x) ==> describes(x.0, bolt11@),
    ensures
        api.client_manager.clients().len() == 0 ==> (r matches Err(e) && e is JoinFederationFirst),
        api.client_manager.clients().len() > 0 && !has_label(api.client_manager.clients(), label@)
            ==> (r matches Err(e) && e is NoSuchClient),
        has_label(api.client_manager.clients(), label@) && !bolt11_accepted(bolt11@) ==> (r matches Err(
            e,
        ) && e is InvalidInvoice),
        has_label(api.client_manager.clients(), label@) && bolt11_accepted(bolt11@) && !the_client(
            api.client_manager.clients(),
            label@,
        ).connected() ==> (r matches Err(e) && e is ClientNotConnected),
        r matches Ok(b) ==> client_with_label(api.client_manager.clients(), label@) matches Some(c)
            && c.connected() && spec_network_to_currency(c.net()) == bolt11_currency(bolt11@)
            && shows_invoice(b, bolt11@) && exists|ps: Seq<PaymentView>|
            crate::client::is_payment_listing(c.entries(), ps) && crate::client::may_pay(
                ps,
                bolt11_canonical(bolt11@),
            ),
        r matches Err(e) && e is WrongNetwork ==> {
            let c = the_client(api.client_manager.clients(), label@);
            &&& has_label(api.client_manager.clients(), label@)
            &&& c.connected()
            &&& spec_network_to_currency(c.net()) != bolt11_currency(bolt11@)
        },
        r matches Err(e) && e is CannotPayTwice ==> {
            let c = the_client(api.client_manager.clients(), label@);
            &&& has_label(api.client_manager.clients(), label@)
            &&& c.connected()
            &&& exists|ps: Seq<PaymentView>|
                crate::client::is_payment_listing(c.entries(), ps) && !crate::client::may_pay(
                    ps,
                    bolt11_canonical(bolt11@),
                )
        },
        r matches Err(e) && e is InvoiceMissingAmount ==> bolt11_amount_msat(bolt11@) is None,
        r matches Err(e) && e is InvoiceExpired ==> {
            let c = the_client(api.client_manager.clients(), label@);
            &&& has_label(api.client_manager.clients(), label@)
            &&& c.connected()
            &&& !crate::client::recorded_outgoing(c.entries(), bolt11_canonical(bolt11@))
            &&& spec_network_to_currency(c.net()) == bolt11_currency(bolt11@)
        },
        r matches Err(e) && e is InvalidInvoice ==> !bolt11_accepted(bolt11@),
        has_label(api.client_manager.clients(), label@) && bolt11_accepted(bolt11@) && the_client(
            api.client_manager.clients(),
            label@,
        ).connected() ==> {
            let c = the_client(api.client_manager.clients(), label@);
            if crate::client::recorded_outgoing(c.entries(), bolt11_canonical(bolt11@)) {
                r matches Err(e) && (e is CannotPayTwice || is_storage_or_corrupt(e))
            } else if spec_network_to_currency(c.net()) != bolt11_currency(bolt11@) {
                r matches Err(e) && (e is WrongNetwork || is_storage_or_corrupt(e))
            } else if bolt11_amount_msat(bolt11@) is None {
                r matches Err(e) && (e is InvoiceExpired || e is InvoiceMissingAmount
                    || is_storage_or_corrupt(e))
            } else {
                r is Ok || (r matches Err(e) && (e is InvoiceExpired || is_storage_or_corrupt(e)))
            }
        },
        r is Ok ==> (decoded matches Some(x) && !x.1),
        r matches Err(e) && e is InvoiceExpired ==> (decoded matches Some(x) && x.1),
        has_label(api.client_manager.clients(), label@) && (decoded matches Some(x) && x.1) && the_client(
            api.client_manager.clients(),
            label@,
        ).connected() ==> r is Err,
        has_label(api.client_manager.clients(), label@) && (decoded matches Some(x) && x.1) && {
            let c = the_client(api.client_manager.clients(), label@);
            &&& c.connected()
            &&& !crate::client::recorded_outgoing(c.entries(), bolt11_canonical(bolt11@))
            &&& spec_network_to_currency(c.net()) == bolt11_currency(bolt11@)
        } ==> (r matches Err(e) && (e is InvoiceExpired || is_storage_or_corrupt(e))),
{
    let c = match api.client_manager.get_client_by_label(label) {
        Ok(c) => c,
        Err(e) => {
            return Err(e);
        },
    };
    let (d, expired) = match decoded {
        Some(x) => x,
        None => {
            return Err(BridgeError::InvalidInvoice);
        },
    };
    check_invoice(c, &d, expired)
}

/// Decodes the invoice `bolt11` and checks that the client `label` can pay it: not
/// paid before, on the client's network and not expired by the clock.
pub fn decode_invoice(api: &Api, label: &str, bolt11: &str) -> (r: Result<
    BridgeInvoice,
    BridgeError,
>)
    requires
        api.client_manager.wf(),
    ensures
        api.client_manager.clients().len() == 0 ==> (r matches Err(e) && e is JoinFederationFirst),
        api.client_manager.clients().len() > 0 && !has_label(api.client_manager.clients(), label@)
            ==> (r matches Err(e) && e is NoSuchClient),
        has_label(api.client_manager.clients(), label@) && !bolt11_accepted(bolt11@) ==> (r matches Err(
            e,
        ) && e is InvalidInvoice),
        has_label(api.client_manager.clients(), label@) && bolt11_accepted(bolt11@) && !the_client(
            api.client_manager.clients(),
            label@,
        ).connected() ==> (r matches Err(e) && e is ClientNotConnected),
        r matches Ok(b) ==> client_with_label(api.client_manager.clients(), label@) matches Some(c)
            && c.connected() && spec_network_to_currency(c.net()) == bolt11_currency(bolt11@)
            && shows_invoice(b, bolt11@) && exists|ps: Seq<PaymentView>|
            crate::client::is_payment_listing(c.entries(), ps) && crate::client::may_pay(
                ps,
                bolt11_canonical(bolt11@),
            ),
        r matches Err(e) && e is WrongNetwork ==> {
            let c = the_client(api.client_manager.clients(), label@);
            &&& has_label(api.client_manager.clients(), label@)
            &&& c.connected()
            &&& spec_network_to_currency(c.net()) != bolt11_currency(bolt11@)
        },
        r matches Err(e) && e is CannotPayTwice ==> {
            let c = the_client(api.client_manager.clients(), label@);
            &&& has_label(api.client_manager.clients(), label@)
            &&& c.connected()
            &&& exists|ps: Seq<PaymentView>|
                crate::client::is_payment_listing(c.entries(), ps) && !crate::client::may_pay(
                    ps,
                    bolt11_canonical(bolt11@),
                )
        },
        r matches Err(e) && e is InvoiceMissingAmount ==> bolt11_amount_msat(bolt11@) is None,
        r matches Err(e) && e is InvoiceExpired ==> {
            let c = the_client(api.client_manager.clients(), label@);
            &&& has_label(api.client_manager.clients(), label@)
            &&& c.connected()
            &&& !crate::client::recorded_outgoing(c.entries(), bolt11_canonical(bolt11@))
            &&& spec_network_to_currency(c.net()) == bolt11_currency(bolt11@)
        },
        r matches Err(e) && e is InvalidInvoice ==> !bolt11_accepted(bolt11@),
        has_label(api.client_manager.clients(), label@) && bolt11_accepted(bolt11@) && the_client(
            api.client_manager.clients(),
            label@,
        ).connected() ==> {
            let c = the_client(api.client_manager.clients(), label@);
            if crate::client::recorded_outgoing(c.entries(), bolt11_canonical(bolt11@)) {
                r matches Err(e) && (e is CannotPayTwice || is_storage_or_corrupt(e))
            } else if spec_network_to_currency(c.net()) != bolt11_currency(bolt11@) {
                r matches Err(e) && (e is WrongNetwork || is_storage_or_corrupt(e))
            } else if bolt11_amount_msat(bolt11@) is None {
                r matches Err(e) && (e is InvoiceExpired || e is InvoiceMissingAmount
                    || is_storage_or_corrupt(e))
            } else {
                r is Ok || (r matches Err(e) && (e is InvoiceExpired || is_storage_or_corrupt(e)))
            }
        },
{
    let decoded = decode_bolt11_with_expiry(bolt11);
    decode_invoice_checked(api, label, bolt11, decoded)
}

/// Returns the federations joined, one for each client kept, in the order they were
/// joined: the federation's name and network (empty before the client has reached its
/// federation) and whether it is the current one. At most one is current. The
/// guardians are not kept by the library, so none are listed.
pub fn list_federations(api: &Api) -> (r: Vec<BridgeFederationInfo>)
    requires
        api.client_manager.wf(),
    ensures
        r@.len() == api.client_manager.clients().len(),
        forall|i: int|
            0 <= i < r@.len() ==> {
                &&& names_federation(#[trigger] r@[i], api.client_manager.clients()[i])
                &&& r@[i].current == (api.current matches Some(l) && l@
                    == api.client_manager.clients()[i].label@)
                &&& r@[i].guardians@.len() == 0
            },
        forall|i: int, j: int| 0 <= i < j < r@.len() ==> !(#[trigger] r@[i].current && #[trigger] r@[j].current),
{
    let labels = api.client_manager.get_client_labels();
    let mut out: Vec<BridgeFederationInfo> = Vec::new();
    let mut i: usize = 0;
    proof {
        assert(labels@.map_values(|s: String| s@).len() == labels@.len());
    }
    while i < labels.len()
        invariant
            api.client_manager.wf(),
            labels@.len() == api.client_manager.clients().len(),
            i <= labels@.len(),
            labels@.map_values(|s: String| s@) == crate::client_manager::labels_of(
                api.client_manager.clients(),
            ),
            out@.len() == i,
            forall|j: int|
                0 <= j < i ==> {
                    &&& names_federation(#[trigger] out@[j], api.client_manager.clients()[j])
                    &&& out@[j].current == (api.current matches Some(l) && l@
                        == api.client_manager.clients()[j].label@)
                    &&& out@[j].guardians@.len() == 0
                },
        decreases labels@.len() - i,
    {
        proof {
            assert(labels@.map_values(|s: String| s@)[i as int] == labels@[i as int]@);
            assert(api.client_manager.clients()[i as int].label@ == labels@[i as int]@);
            crate::client_manager::lemma_client_with_label(api.client_manager.clients(), i as int);
        }
        let current = match &api.current {
            Some(l) => *l == labels[i],
            None => false,
        };
        match api.client_manager.get_client_by_label(labels[i].as_str()) {
            Ok(c) => {
                let (name, network) = shown_fields(c);
                let guardians: Vec<BridgeGuardianInfo> = Vec::new();
                let ghost before = out@;
                out.push(BridgeFederationInfo { name, network, current, guardians });
                proof {
                    assert(out@[i as int].current == current);
                    assert(out@[i as int].guardians@.len() == 0);
                    assert(forall|j: int| 0 <= j < i ==> out@[j] == before[j]);
                }
            },
            Err(_) => {
                proof {
                    assert(false);
                }
            },
        }
        i = i + 1;
    }
    proof {
        assert forall|a: int, b: int| 0 <= a < b < out@.len() implies !(#[trigger] out@[a].current
            && #[trigger] out@[b].current) by {
            assert(api.client_manager.clients()[a].label@ != api.client_manager.clients()[b].label@);
        }
    }
    out
}

/// Once the client at position `i` is the current one, its federation is the only one
/// that `list_federations` shows as current.
pub proof fn law_switched_is_only_current(clients: Seq<Client>, current: Option<String>, i: int)
    requires
        crate::client_manager::unique_labels(clients),
        0 <= i < clients.len(),
        current matches Some(l) && l@ == clients[i].label@,
    ensures
        forall|j: int|
            0 <= j < clients.len() ==> ((current matches Some(l) && l@ == #[trigger] clients[j].label@)
                <==> j == i),
{
    assert forall|j: int|
        0 <= j < clients.len() implies ((current matches Some(l) && l@ == #[trigger] clients[j].label@)
            <==> j == i) by {
        if j < i {
            assert(clients[j].label@ != clients[i].label@);
        } else if j > i {
            assert(clients[i].label@ != clients[j].label@);
        }
    }
}

} // verus!
