//! A client of one federation: its label and config, and, once it has reached the
//! federation, its storage of payments and user data.
//!
//! The storage belongs to the federation client: a client that has not reached its
//! federation keeps no storage, records nothing and lists nothing.

use vstd::prelude::*;
use vstd::utf8::*;
use vstd::string::StringSliceAdditionalSpecFns;

use crate::database::{is_prefix_listing, lookup, opt_bytes, SledTree};
use crate::error::BridgeError;
use crate::invoice::{Currency, InvoiceData};
use crate::payments::{
    append_bytes, copy_range, decode_payment, decode_payment_record, encode_payment,
    encode_payment_record, Payment, PaymentDirection, PaymentStatus, PaymentView,
};
use crate::text::string_from_utf8;

verus! {

/// Whether a client has reached its federation.
#[derive(Clone, Copy, Debug, PartialEq, Eq, Structural)]
pub enum ConnectionStatus {
    NotConnected,
    Connected,
    NotConfigured,
}

/// The bitcoin network a federation runs on.
#[derive(Clone, Copy, Debug, PartialEq, Eq, Structural)]
pub enum Network {
    Bitcoin,
    Testnet,
    Signet,
    Regtest,
}

/// What a federation told the client when it was reached: its name and network, and
/// the amount of e-cash the client holds in it.
pub struct FederationInfo {
    pub federation_name: String,
    pub network: Network,
    pub balance_msat: u64,
}

/// The federation client: its storage and what the federation told it.
pub struct UserClient {
    db: SledTree,
    info: FederationInfo,
    /// The user data, once it is known what the storage holds of it (`Some(None)`:
    /// none, or none in UTF-8).
    user_data: Option<Option<String>>,
}

/// The text of an optional string.
pub open spec fn opt_text(o: Option<String>) -> Option<Seq<char>> {
    match o {
        Some(s) => Some(s@),
        None => None,
    }
}

impl UserClient {
    /// What the client knows of its user data is what its storage holds.
    #[verifier::type_invariant]
    closed spec fn user_data_agrees(self) -> bool {
        self.user_data matches Some(v) ==> opt_text(v) == stored_user_data(self.db@)
    }
}

/// A copy of an optional string.
fn copy_opt_text(o: &Option<String>) -> (r: Option<String>)
    ensures
        opt_text(r) == opt_text(*o),
{
    match o {
        Some(s) => Some(s.clone()),
        None => None,
    }
}

/// Stores `value` under `key` in the storage of `user`. Where the write succeeds and
/// `key` is not the user data's key, what `user` knew of its user data stays known; a
/// failed write forgets it, as the storage may then hold anything.
fn insert_entry_of(user: UserClient, key: &[u8], value: Vec<u8>) -> (res: (
    UserClient,
    Result<(), BridgeError>,
))
    ensures
        res.0.info == user.info,
        res.0.db.owner() == user.db.owner(),
        res.0.db.name() == user.db.name(),
        res.1 is Ok ==> res.0.db@ == user.db@.insert(key@, value@),
        res.1 matches Err(e) ==> is_storage_error(e),
        res.1 is Ok && key@ != user_data_key() ==> (res.0.user_data is Some <==> user.user_data is Some),
{
    proof {
        use_type_invariant(&user);
    }
    let UserClient { mut db, info, user_data } = user;
    let ghost db0 = db@;
    let ghost v = value@;
    match db.raw_insert_entry(key, value) {
        Ok(_) => {
            proof {
                if key@ != user_data_key() {
                    assert(lookup(db@, user_data_key()) == lookup(db0, user_data_key()));
                }
            }
            if key.len() == 1 && key[0] == USER_DATA_KEY_PREFIX {
                proof {
                    assert(key@ =~= user_data_key());
                }
                (UserClient { db, info, user_data: None }, Ok(()))
            } else {
                proof {
                    if key@ == user_data_key() {
                        assert(key@.len() == 1 && key@[0] == USER_DATA_KEY_PREFIX);
                    }
                }
                (UserClient { db, info, user_data }, Ok(()))
            }
        },
        Err(e) => (UserClient { db, info, user_data: None }, Err(BridgeError::Database(e))),
    }
}

/// A client of one federation.
pub struct Client {
    /// The label the client is kept under.
    pub label: String,
    pub connection_status: ConnectionStatus,
    /// The federation config the client was made from.
    pub cfg_json: String,
    /// The federation client, once the federation has been reached.
    pub client: Option<UserClient>,
}

/// `user` knowing that its user data is `data`, which its storage holds.
fn remember_user_data(user: UserClient, data: &str) -> (r: UserClient)
    requires
        lookup(user.db@, user_data_key()) == Some(encode_utf8(data@)),
    ensures
        r.db == user.db,
        r.info == user.info,
        r.user_data is Some,
{
    proof {
        encode_utf8_valid_utf8(data@);
        encode_utf8_decode_utf8(data@);
    }
    let UserClient { db, info, user_data: _ } = user;
    UserClient { db, info, user_data: Some(Some(data.to_string())) }
}

/// The storage key of a client's federation config.
pub struct ConfigKey;

/// The storage key of a client's user data.
pub struct UserDataKey;

/// The prefix byte of the config key.
pub const CONFIG_KEY_PREFIX: u8 = 0x50;

/// The prefix byte of the user data key.
pub const USER_DATA_KEY_PREFIX: u8 = 0x60;

/// The prefix byte of payment keys.
pub const PAYMENT_KEY_PREFIX: u8 = 0x70;

/// The storage key of the config.
pub open spec fn config_key() -> Seq<u8> {
    seq![CONFIG_KEY_PREFIX]
}

/// The storage key of the user data.
pub open spec fn user_data_key() -> Seq<u8> {
    seq![USER_DATA_KEY_PREFIX]
}

/// The prefix of all payment keys.
pub open spec fn payment_prefix() -> Seq<u8> {
    seq![PAYMENT_KEY_PREFIX]
}

/// The storage key of the payment with hash `hash`.
pub open spec fn payment_key(hash: Seq<u8>) -> Seq<u8> {
    payment_prefix() + hash
}

impl ConfigKey {
    /// The key bytes.
    pub fn db_key() -> (r: Vec<u8>)
        ensures
            r@ == config_key(),
    {
        let mut r: Vec<u8> = Vec::new();
        r.push(CONFIG_KEY_PREFIX);
        proof {
            assert(r@ =~= config_key());
        }
        r
    }
}

impl UserDataKey {
    /// The key bytes.
    pub fn db_key() -> (r: Vec<u8>)
        ensures
            r@ == user_data_key(),
    {
        let mut r: Vec<u8> = Vec::new();
        r.push(USER_DATA_KEY_PREFIX);
        proof {
            assert(r@ =~= user_data_key());
        }
        r
    }
}

/// The key bytes of the payment with hash `hash`.
pub fn payment_key_bytes(hash: &[u8]) -> (r: Vec<u8>)
    ensures
        r@ == payment_key(hash@),
{
    let mut r: Vec<u8> = Vec::new();
    r.push(PAYMENT_KEY_PREFIX);
    append_bytes(&mut r, hash);
    proof {
        assert(r@ =~= payment_key(hash@));
    }
    r
}

/// The currency of invoices on a network.
pub open spec fn spec_network_to_currency(n: Network) -> Currency {
    match n {
        Network::Bitcoin => Currency::Bitcoin,
        Network::Testnet => Currency::BitcoinTestnet,
        Network::Signet => Currency::Signet,
        Network::Regtest => Currency::Regtest,
    }
}

/// Each network's client expects invoices of that network's own currency, and of no
/// other: mainnet invoices only on mainnet, testnet invoices only on testnet, signet
/// invoices only on signet, regtest invoices only on regtest, and simnet invoices on
/// none. So no two networks expect the same currency, and a client never refuses an
/// invoice of its own network as being of the wrong network.
pub proof fn law_network_currency(a: Network, b: Network)
    ensures
        spec_network_to_currency(a) == spec_network_to_currency(b) ==> a == b,
        (spec_network_to_currency(a) == Currency::Bitcoin) <==> (a == Network::Bitcoin),
        (spec_network_to_currency(a) == Currency::BitcoinTestnet) <==> (a == Network::Testnet),
        (spec_network_to_currency(a) == Currency::Signet) <==> (a == Network::Signet),
        (spec_network_to_currency(a) == Currency::Regtest) <==> (a == Network::Regtest),
        spec_network_to_currency(a) != Currency::Simnet,
{
}

/// The currency of invoices on a network.
pub fn network_to_currency(n: Network) -> (c: Currency)
    ensures
        c == spec_network_to_currency(n),
{
    match n {
        Network::Bitcoin => Currency::Bitcoin,
        Network::Testnet => Currency::BitcoinTestnet,
        Network::Signet => Currency::Signet,
        Network::Regtest => Currency::Regtest,
    }
}

/// The name of a network, as bitcoin's `Network` displays it.
pub open spec fn network_name(n: Network) -> Seq<char> {
    match n {
        Network::Bitcoin => seq!['b', 'i', 't', 'c', 'o', 'i', 'n'],
        Network::Testnet => seq!['t', 'e', 's', 't', 'n', 'e', 't'],
        Network::Signet => seq!['s', 'i', 'g', 'n', 'e', 't'],
        Network::Regtest => seq!['r', 'e', 'g', 't', 'e', 's', 't'],
    }
}

/// `bitcoin::Network`'s `Display`, whose documented output is the lower-case network
/// name.
#[verifier::external_body]
pub(crate) fn network_to_string(n: Network) -> (r: String)
    ensures
        r@ == network_name(n),
{
    let b = match n {
        Network::Bitcoin => bitcoin::Network::Bitcoin,
        Network::Testnet => bitcoin::Network::Testnet,
        Network::Signet => bitcoin::Network::Signet,
        Network::Regtest => bitcoin::Network::Regtest,
    };
    b.to_string()
}

/// The payments views of `ps`.
pub open spec fn payment_views(ps: Seq<Payment>) -> Seq<PaymentView> {
    ps.map_values(|p: Payment| p@)
}

/// `ps` are the payments that `entries` stores, in key order.
pub open spec fn is_payment_listing(entries: Map<Seq<u8>, Seq<u8>>, ps: Seq<PaymentView>) -> bool {
    exists|l: Seq<(Seq<u8>, Seq<u8>)>|
        {
            &&& is_prefix_listing(entries, payment_prefix(), l)
            &&& l.len() == ps.len()
            &&& forall|i: int| 0 <= i < l.len() ==> decode_payment(#[trigger] l[i].1) == Some(ps[i])
        }
}

/// Some entry under the payment prefix does not decode.
pub open spec fn has_corrupt_payment(entries: Map<Seq<u8>, Seq<u8>>) -> bool {
    exists|k: Seq<u8>|
        #[trigger] entries.contains_key(k) && crate::database::has_prefix(k, payment_prefix())
            && decode_payment(entries[k]) is None
}

/// An invoice with text `text` may be paid: no outgoing payment of it is recorded.
pub open spec fn may_pay(ps: Seq<PaymentView>, text: Seq<char>) -> bool {
    !exists|i: int|
        0 <= i < ps.len() && #[trigger] ps[i].direction == PaymentDirection::Outgoing
            && ps[i].invoice == text
}

/// `entries` record an outgoing payment of the invoice with text `text`.
pub open spec fn recorded_outgoing(entries: Map<Seq<u8>, Seq<u8>>, text: Seq<char>) -> bool {
    exists|k: Seq<u8>|
        #[trigger] entries.contains_key(k) && crate::database::has_prefix(k, payment_prefix())
            && outgoing_of(decode_payment(entries[k]), text)
}

/// `d` is an outgoing payment of the invoice with text `text`.
pub open spec fn outgoing_of(d: Option<PaymentView>, text: Seq<char>) -> bool {
    d matches Some(p) && p.direction == PaymentDirection::Outgoing && p.invoice == text
}

/// A listing of the payments shows an outgoing payment of `text` exactly when one is
/// recorded.
pub proof fn lemma_listing_recorded_outgoing(
    entries: Map<Seq<u8>, Seq<u8>>,
    ps: Seq<PaymentView>,
    text: Seq<char>,
)
    requires
        is_payment_listing(entries, ps),
    ensures
        may_pay(ps, text) <==> !recorded_outgoing(entries, text),
{
    let l = choose|l: Seq<(Seq<u8>, Seq<u8>)>|
        {
            &&& is_prefix_listing(entries, payment_prefix(), l)
            &&& l.len() == ps.len()
            &&& forall|i: int| 0 <= i < l.len() ==> decode_payment(#[trigger] l[i].1) == Some(ps[i])
        };
    if !may_pay(ps, text) {
        let i = choose|i: int|
            0 <= i < ps.len() && #[trigger] ps[i].direction == PaymentDirection::Outgoing
                && ps[i].invoice == text;
        assert(decode_payment(l[i].1) == Some(ps[i]));
        let k = l[i].0;
        assert(entries.contains_key(k) && crate::database::has_prefix(k, payment_prefix()));
        assert(entries[k] == l[i].1);
        assert(recorded_outgoing(entries, text));
    }
    if recorded_outgoing(entries, text) {
        let k = choose|k: Seq<u8>|
            #[trigger] entries.contains_key(k) && crate::database::has_prefix(k, payment_prefix())
                && outgoing_of(decode_payment(entries[k]), text);
        let i = choose|i: int| 0 <= i < l.len() && #[trigger] l[i].0 == k;
        assert(entries[l[i].0] == l[i].1);
        assert(decode_payment(l[i].1) == Some(ps[i]));
        assert(ps[i].direction == PaymentDirection::Outgoing);
        assert(!may_pay(ps, text));
    }
}

/// The payments of `ps` that may still be claimed: incoming, neither paid nor expired.
pub open spec fn claimable(p: PaymentView) -> bool {
    p.direction == PaymentDirection::Incoming && p.status != PaymentStatus::Paid && p.status
        != PaymentStatus::Expired
}

/// The stored payment with hash `hash`: `Some(None)` where none is stored, `None` where
/// the stored record does not decode.
pub open spec fn stored_payment(entries: Map<Seq<u8>, Seq<u8>>, hash: Seq<u8>) -> Option<
    Option<PaymentView>,
> {
    match lookup(entries, payment_key(hash)) {
        None => Some(None),
        Some(b) => match decode_payment(b) {
            Some(p) => Some(Some(p)),
            None => None,
        },
    }
}

/// The view of an optional payment.
pub open spec fn opt_payment(o: Option<Payment>) -> Option<PaymentView> {
    match o {
        Some(p) => Some(p@),
        None => None,
    }
}

/// The user data stored in `entries`, where there is well-formed text.
pub open spec fn stored_user_data(entries: Map<Seq<u8>, Seq<u8>>) -> Option<Seq<char>> {
    match lookup(entries, user_data_key()) {
        Some(b) => if valid_utf8(b) {
            Some(decode_utf8(b))
        } else {
            None
        },
        None => None,
    }
}

/// The payment recorded when `invoice` is paid, issued or attempted.
pub open spec fn payment_of(
    invoice: InvoiceData,
    status: PaymentStatus,
    direction: PaymentDirection,
    now: u64,
) -> PaymentView {
    PaymentView {
        invoice: invoice.bolt11@,
        payment_hash: invoice.payment_hash@,
        status,
        created_at: now,
        direction,
    }
}

/// An error that stands for a failed storage call.
pub open spec fn is_storage_error(e: BridgeError) -> bool {
    e is Database
}

/// The user data that a read of the user data key gave: the stored text where the read
/// found well-formed UTF-8; `None` where it found none, found bytes that are not text,
/// or failed.
pub fn user_data_from_read(read: Result<Option<Vec<u8>>, crate::database::DbError>) -> (r: Option<
    String,
>)
    ensures
        match read {
            Ok(Some(b)) => (r is Some <==> valid_utf8(b@)) && (r matches Some(s) ==> s@
                == decode_utf8(b@)),
            _ => r is None,
        },
{
    match read {
        Ok(Some(bytes)) => string_from_utf8(bytes),
        Ok(None) => None,
        Err(_) => None,
    }
}

impl Client {
    /// The client has reached its federation and keeps storage.
    pub closed spec fn connected(&self) -> bool {
        self.client is Some
    }

    /// The entries of the client's storage (meaningful when connected).
    pub closed spec fn entries(&self) -> Map<Seq<u8>, Seq<u8>> {
        self.client->0.db@
    }

    /// The client knows, without reading its storage, what user data the storage holds
    /// (meaningful when connected).
    pub closed spec fn user_data_known(&self) -> bool {
        self.client->0.user_data is Some
    }

    /// The federation's name (meaningful when connected).
    pub closed spec fn name(&self) -> Seq<char> {
        self.client->0.info.federation_name@
    }

    /// The federation's network (meaningful when connected).
    pub closed spec fn net(&self) -> Network {
        self.client->0.info.network
    }

    /// The client's e-cash in millisatoshis (meaningful when connected).
    pub closed spec fn balance_msat(&self) -> u64 {
        self.client->0.info.balance_msat
    }

    /// The name of the client's storage tree (meaningful when connected).
    pub closed spec fn storage_name(&self) -> Seq<u8> {
        self.client->0.db.name()
    }

    /// The database that the client's storage tree was opened from (meaningful when
    /// connected).
    pub closed spec fn storage_owner(&self) -> sled::Db {
        self.client->0.db.owner()
    }

    /// `other` is this client with the same label, config, status and federation; only
    /// its storage may differ.
    pub open spec fn same_but_storage(&self, other: &Client) -> bool {
        &&& other.label@ == self.label@
        &&& other.cfg_json@ == self.cfg_json@
        &&& other.connection_status == self.connection_status
        &&& other.connected() == self.connected()
        &&& other.name() == self.name()
        &&& other.net() == self.net()
        &&& other.balance_msat() == self.balance_msat()
        &&& other.storage_owner() == self.storage_owner()
    }

    /// The payment stored under `payment_hash`, where there is one.
    pub fn fetch_payment(&self, payment_hash: &[u8]) -> (r: Result<Option<Payment>, BridgeError>)
        ensures
            !self.connected() ==> r matches Ok(None),
            r matches Ok(o) ==> self.connected() ==> stored_payment(self.entries(), payment_hash@)
                == Some(opt_payment(o)),
            r matches Err(e) ==> is_storage_error(e) || (e is CorruptRecord && self.connected()
                && stored_payment(self.entries(), payment_hash@) is None),
    {
        match &self.client {
            None => Ok(None),
            Some(user) => {
                let key = payment_key_bytes(payment_hash);
                match user.db.raw_get_value(key.as_slice()) {
                    Ok(Some(bytes)) => match decode_payment_record(bytes.as_slice()) {
                        Some(p) => Ok(Some(p)),
                        None => Err(BridgeError::CorruptRecord),
                    },
                    Ok(None) => Ok(None),
                    Err(e) => Err(BridgeError::Database(e)),
                }
            },
        }
    }

    /// All stored payments, in key order.
    pub fn list_payments(&self) -> (r: Result<Vec<Payment>, BridgeError>)
        ensures
            !self.connected() ==> (r matches Ok(v) && v@.len() == 0),
            r matches Ok(v) ==> self.connected() ==> is_payment_listing(
                self.entries(),
                payment_views(v@),
            ),
            r matches Err(e) ==> is_storage_error(e) || (e is CorruptRecord && self.connected()
                && has_corrupt_payment(self.entries())),
    {
        match &self.client {
            None => Ok(Vec::new()),
            Some(user) => {
                let prefix = payment_key_bytes(&[]);
                proof {
                    assert(payment_key(Seq::<u8>::empty()) =~= payment_prefix());
                }
                let raw = match user.db.raw_find_by_prefix(prefix.as_slice()) {
                    Ok(raw) => raw,
                    Err(e) => {
                        return Err(BridgeError::Database(e));
                    },
                };
                let ghost l = raw@.map_values(|p: (Vec<u8>, Vec<u8>)| (p.0@, p.1@));
                let mut out: Vec<Payment> = Vec::new();
                let mut i: usize = 0;
                while i < raw.len()
                    invariant
                        self.client is Some,
                        self.entries() == user.db@,
                        i <= raw@.len(),
                        l == raw@.map_values(|p: (Vec<u8>, Vec<u8>)| (p.0@, p.1@)),
                        is_prefix_listing(user.db@, payment_prefix(), l),
                        out@.len() == i,
                        forall|j: int| 0 <= j < i ==> decode_payment(#[trigger] l[j].1) == Some(out@[j]@),
                    decreases raw@.len() - i,
                {
                    match decode_payment_record(raw[i].1.as_slice()) {
                        Some(p) => {
                            out.push(p);
                        },
                        None => {
                            proof {
                                assert(l[i as int].1 == raw@[i as int].1@);
                                assert(user.db@.contains_key(l[i as int].0));
                                assert(crate::database::has_prefix(l[i as int].0, payment_prefix()));
                                assert(decode_payment(user.db@[l[i as int].0]) is None);
                                assert(has_corrupt_payment(self.entries()));
                            }
                            return Err(BridgeError::CorruptRecord);
                        },
                    }
                    i = i + 1;
                }
                proof {
                    assert forall|j: int| 0 <= j < l.len() implies decode_payment(#[trigger] l[j].1)
                        == Some(payment_views(out@)[j]) by {}
                }
                Ok(out)
            },
        }
    }

    /// Stores `payment` under its payment hash; does nothing without storage.
    pub fn save_payment(&mut self, payment: &Payment) -> (r: Result<(), BridgeError>)
        ensures
            old(self).same_but_storage(final(self)),
            !old(self).connected() ==> r is Ok && final(self).entries() == old(self).entries(),
            r is Ok && old(self).connected() ==> final(self).entries() == old(self).entries().insert(
                payment_key(payment.payment_hash@),
                encode_payment(payment@),
            ),
            r is Ok && old(self).connected() ==> final(self).user_data_known()
                == old(self).user_data_known(),
            r matches Err(e) ==> is_storage_error(e),
    {
        match self.client.take() {
            None => Ok(()),
            Some(user) => {
                let key = payment_key_bytes(payment.payment_hash.as_slice());
                let value = encode_payment_record(payment);
                proof {
                    assert(key@[0] == PAYMENT_KEY_PREFIX);
                    assert(key@ != user_data_key()) by {
                        if key@ == user_data_key() {
                            assert(key@[0] == USER_DATA_KEY_PREFIX);
                        }
                    }
                }
                let (user, r) = insert_entry_of(user, key.as_slice(), value);
                self.client = Some(user);
                r
            },
        }
    }

    /// Sets the status of the payment stored under `payment_hash`, where there is one.
    pub fn update_payment_status(&mut self, payment_hash: &[u8], status: PaymentStatus) -> (r:
        Result<(), BridgeError>)
        ensures
            old(self).same_but_storage(final(self)),
            !old(self).connected() ==> r is Ok && final(self).entries() == old(self).entries(),
            r is Ok && old(self).connected() ==> match stored_payment(
                old(self).entries(),
                payment_hash@,
            ) {
                Some(Some(p)) => final(self).entries() == old(self).entries().insert(
                    payment_key(payment_hash@),
                    encode_payment(PaymentView { status, ..p }),
                ),
                _ => final(self).entries() == old(self).entries(),
            },
            r is Ok && old(self).connected() ==> final(self).user_data_known()
                == old(self).user_data_known(),
            r matches Err(e) ==> is_storage_error(e) || (e is CorruptRecord && stored_payment(
                old(self).entries(),
                payment_hash@,
            ) is None && final(self).entries() == old(self).entries()),
    {
        match self.fetch_payment(payment_hash) {
            Ok(Some(mut p)) => {
                p.status = status;
                match self.client.take() {
                    None => Ok(()),
                    Some(user) => {
                        let key = payment_key_bytes(payment_hash);
                        let value = encode_payment_record(&p);
                        proof {
                            assert(key@[0] == PAYMENT_KEY_PREFIX);
                            assert(key@ != user_data_key()) by {
                                if key@ == user_data_key() {
                                    assert(key@[0] == USER_DATA_KEY_PREFIX);
                                }
                            }
                        }
                        let (user, r) = insert_entry_of(user, key.as_slice(), value);
                        self.client = Some(user);
                        r
                    },
                }
            },
            Ok(None) => Ok(()),
            Err(e) => Err(e),
        }
    }

    /// Stores the user's data; does nothing without storage.
    pub fn save_user_data(&mut self, user_data: &str) -> (r: Result<(), BridgeError>)
        ensures
            old(self).same_but_storage(final(self)),
            !old(self).connected() ==> r is Ok && final(self).entries() == old(self).entries(),
            r is Ok && old(self).connected() ==> final(self).entries() == old(self).entries().insert(
                user_data_key(),
                encode_utf8(user_data@),
            ),
            r is Ok && old(self).connected() ==> final(self).user_data_known(),
            r matches Err(e) ==> is_storage_error(e),
    {
        match self.client.take() {
            None => Ok(()),
            Some(user) => {
                let key = UserDataKey::db_key();
                let value = copy_range(user_data.as_bytes(), 0, user_data.as_bytes().len());
                proof {
                    assert(value@ =~= encode_utf8(user_data@));
                }
                let (user, r) = insert_entry_of(user, key.as_slice(), value);
                match r {
                    Ok(()) => {
                        self.client = Some(remember_user_data(user, user_data));
                        Ok(())
                    },
                    Err(e) => {
                        self.client = Some(user);
                        Err(e)
                    },
                }
            },
        }
    }

    /// The stored user data; `None` without storage, without data, where the data is
    /// not text, or where the storage fails.
    pub fn fetch_user_data(&self) -> (r: Option<String>)
        ensures
            r matches Some(s) ==> self.connected() && stored_user_data(self.entries()) == Some(s@),
            !self.connected() || stored_user_data(self.entries()) is None ==> r is None,
            self.connected() && self.user_data_known() ==> opt_text(r) == stored_user_data(
                self.entries(),
            ),
    {
        match &self.client {
            None => None,
            Some(user) => {
                proof {
                    use_type_invariant(user);
                }
                match &user.user_data {
                    Some(known) => copy_opt_text(known),
                    None => {
                        let key = UserDataKey::db_key();
                        user_data_from_read(user.db.raw_get_value(key.as_slice()))
                    },
                }
            },
        }
    }

    /// The config stored in `db`: `Ok(None)` where there is none.
    pub fn stored_config(db: &SledTree) -> (r: Result<Option<String>, BridgeError>)
        ensures
            r matches Ok(None) ==> !db@.contains_key(config_key()),
            r matches Ok(Some(s)) ==> lookup(db@, config_key()) == Some(encode_utf8(s@)),
            r matches Err(e) ==> is_storage_error(e) || (e is CorruptRecord && db@.contains_key(
                config_key(),
            ) && !valid_utf8(db@[config_key()])),
    {
        let key = ConfigKey::db_key();
        match db.raw_get_value(key.as_slice()) {
            Ok(Some(bytes)) => {
                let ghost b = bytes@;
                match string_from_utf8(bytes) {
                    Some(s) => {
                        proof {
                            decode_utf8_encode_utf8(b);
                        }
                        Ok(Some(s))
                    },
                    None => Err(BridgeError::CorruptRecord),
                }
            },
            Ok(None) => Ok(None),
            Err(e) => Err(BridgeError::Database(e)),
        }
    }

    /// Loads the client stored in `db` under `label`: its stored config, and `fetched`,
    /// what its federation answered to that config (`None` where it did not answer).
    pub fn try_load(db: SledTree, label: &str, fetched: Option<FederationInfo>) -> (r: Result<
        Client,
        BridgeError,
    >)
        ensures
            !db@.contains_key(config_key()) ==> (r matches Err(e) && (e is NoConfigString
                || is_storage_error(e))),
            r matches Ok(c) ==> {
                &&& lookup(db@, config_key()) == Some(encode_utf8(c.cfg_json@))
                &&& c.label@ == label@
                &&& (fetched is Some <==> c.connection_status == ConnectionStatus::Connected)
                &&& (fetched is None <==> c.connection_status == ConnectionStatus::NotConnected)
                &&& (c.connected() <==> fetched is Some)
                &&& fetched matches Some(info) ==> c.entries() == db@ && c.name()
                    == info.federation_name@ && c.net() == info.network && c.balance_msat()
                    == info.balance_msat && c.storage_owner() == db.owner()
            },
            r matches Err(e) ==> e is NoConfigString || e is CorruptRecord || is_storage_error(e),
            r matches Err(e) ==> e is NoConfigString ==> !db@.contains_key(config_key()),
            r matches Err(e) ==> e is CorruptRecord ==> db@.contains_key(config_key()) && !valid_utf8(
                db@[config_key()],
            ),
    {
        match Client::stored_config(&db) {
            Ok(Some(cfg_json)) => {
                let ghost cfg = cfg_json@;
                let r = Client::new(db, cfg_json.as_str(), label, fetched);
                proof {
                    if r is Ok {
                        let c = r->Ok_0;
                        assert(c.cfg_json@ == cfg);
                        if fetched is Some {
                            assert(c.entries() == db@.insert(config_key(), encode_utf8(cfg)));
                            assert(db@.insert(config_key(), encode_utf8(cfg)) =~= db@);
                        }
                    }
                }
                match r {
                    Ok(c) => Ok(c),
                    Err(e) => Err(e),
                }
            },
            Ok(None) => Err(BridgeError::NoConfigString),
            Err(e) => Err(e),
        }
    }

    /// Makes the client `label` from the federation config `cfg_json`, given `fetched`,
    /// what the federation answered to it (`None` where it did not answer). A client
    /// whose federation answered stores the config and keeps `db`; another keeps no
    /// storage, and the handle `db` is dropped without going back to its database, which
    /// then keeps the tree in use (the client manager closes the tree itself instead).
    pub fn new(db: SledTree, cfg_json: &str, label: &str, fetched: Option<FederationInfo>) -> (r:
        Result<Client, BridgeError>)
        ensures
            fetched is None ==> r is Ok,
            r matches Ok(c) ==> {
                &&& c.label@ == label@
                &&& c.cfg_json@ == cfg_json@
                &&& (fetched is Some <==> c.connection_status == ConnectionStatus::Connected)
                &&& (fetched is None <==> c.connection_status == ConnectionStatus::NotConnected)
                &&& (c.connected() <==> fetched is Some)
                &&& fetched matches Some(info) ==> {
                    &&& c.entries() == db@.insert(config_key(), encode_utf8(cfg_json@))
                    &&& c.storage_owner() == db.owner()
                    &&& c.storage_name() == db.name()
                    &&& c.name() == info.federation_name@
                    &&& c.net() == info.network
                    &&& c.balance_msat() == info.balance_msat
                }
            },
            r matches Err(e) ==> is_storage_error(e),
    {
        match fetched {
            Some(info) => {
                let mut db = db;
                let key = ConfigKey::db_key();
                let value = copy_range(cfg_json.as_bytes(), 0, cfg_json.as_bytes().len());
                proof {
                    assert(value@ =~= encode_utf8(cfg_json@));
                }
                match db.raw_insert_entry(key.as_slice(), value) {
                    Ok(_) => Ok(
                        Client {
                            label: label.to_string(),
                            connection_status: ConnectionStatus::Connected,
                            cfg_json: cfg_json.to_string(),
                            client: Some(UserClient { db, info, user_data: None }),
                        },
                    ),
                    Err(e) => Err(BridgeError::Database(e)),
                }
            },
            None => Ok(
                Client {
                    label: label.to_string(),
                    connection_status: ConnectionStatus::NotConnected,
                    cfg_json: cfg_json.to_string(),
                    client: None,
                },
            ),
        }
    }

    /// A client of the federation config `cfg_json` whose federation did not answer; it
    /// keeps no storage.
    pub(crate) fn without_federation(cfg_json: &str, label: &str) -> (c: Client)
        ensures
            c.label@ == label@,
            c.cfg_json@ == cfg_json@,
            c.connection_status == ConnectionStatus::NotConnected,
            !c.connected(),
    {
        Client {
            label: label.to_string(),
            connection_status: ConnectionStatus::NotConnected,
            cfg_json: cfg_json.to_string(),
            client: None,
        }
    }

    /// The client's storage tree, given back when the client is dropped.
    pub(crate) fn into_storage(self) -> (r: Option<SledTree>)
        ensures
            r is Some <==> self.connected(),
            r matches Some(t) ==> t.owner() == self.storage_owner(),
    {
        match self.client {
            Some(user) => Some(user.db),
            None => None,
        }
    }

    /// Whether the client has reached its federation.
    pub fn is_connected(&self) -> (r: bool)
        ensures
            r == self.connected(),
    {
        self.client.is_some()
    }

    /// The federation's name, where the client has reached it.
    pub fn federation_name(&self) -> (r: Option<String>)
        ensures
            match r {
                Some(n) => self.connected() && n@ == self.name(),
                None => !self.connected(),
            },
    {
        match &self.client {
            Some(user) => Some(user.info.federation_name.clone()),
            None => None,
        }
    }

    /// The client's e-cash in whole satoshis (millisatoshis rounded down); 0 where the
    /// client has not reached its federation.
    pub fn balance(&self) -> (r: u64)
        ensures
            r == if self.connected() {
                self.balance_msat() / 1000
            } else {
                0
            },
    {
        match &self.client {
            Some(user) => user.info.balance_msat / 1000,
            None => 0,
        }
    }

    /// Records the client's e-cash after the federation reported it anew.
    pub fn set_balance_msat(&mut self, balance_msat: u64)
        ensures
            final(self).label@ == old(self).label@,
            final(self).cfg_json@ == old(self).cfg_json@,
            final(self).connection_status == old(self).connection_status,
            final(self).connected() == old(self).connected(),
            final(self).entries() == old(self).entries(),
            final(self).name() == old(self).name(),
            final(self).net() == old(self).net(),
            final(self).storage_owner() == old(self).storage_owner(),
            old(self).connected() ==> final(self).balance_msat() == balance_msat,
            final(self).user_data_known() == old(self).user_data_known(),
    {
        match self.client.take() {
            Some(user) => {
                proof {
                    use_type_invariant(&user);
                }
                let UserClient { db, mut info, user_data } = user;
                info.balance_msat = balance_msat;
                self.client = Some(UserClient { db, info, user_data });
            },
            None => {},
        }
    }

    /// The federation's network, where the client has reached it.
    pub fn network(&self) -> (r: Option<Network>)
        ensures
            match r {
                Some(n) => self.connected() && n == self.net(),
                None => !self.connected(),
            },
    {
        match &self.client {
            Some(user) => Some(user.info.network),
            None => None,
        }
    }

    /// Whether `invoice` may be paid: no outgoing payment of it is recorded.
    pub fn can_pay(&self, invoice: &InvoiceData) -> (r: Result<bool, BridgeError>)
        ensures
            !self.connected() ==> r matches Ok(true),
            r matches Ok(b) ==> self.connected() ==> exists|ps: Seq<PaymentView>|
                is_payment_listing(self.entries(), ps) && b == may_pay(ps, invoice.bolt11@),
            r matches Ok(b) ==> self.connected() ==> (b <==> !recorded_outgoing(
                self.entries(),
                invoice.bolt11@,
            )),
            r matches Err(e) ==> is_storage_error(e) || (e is CorruptRecord && self.connected()
                && has_corrupt_payment(self.entries())),
    {
        let payments = match self.list_payments() {
            Ok(ps) => ps,
            Err(e) => {
                return Err(e);
            },
        };
        let ghost ps = payment_views(payments@);
        let mut i: usize = 0;
        while i < payments.len()
            invariant
                i <= payments@.len(),
                ps == payment_views(payments@),
                !self.connected() ==> payments@.len() == 0,
                self.connected() ==> is_payment_listing(self.entries(), ps),
                forall|j: int|
                    0 <= j < i ==> !(#[trigger] ps[j].direction == PaymentDirection::Outgoing
                        && ps[j].invoice == invoice.bolt11@),
            decreases payments@.len() - i,
        {
            if payments[i].outgoing() && payments[i].invoice == invoice.bolt11 {
                proof {
                    assert(ps[i as int].direction == PaymentDirection::Outgoing);
                    assert(!may_pay(ps, invoice.bolt11@));
                    if self.connected() {
                        lemma_listing_recorded_outgoing(self.entries(), ps, invoice.bolt11@);
                    }
                }
                return Ok(false);
            }
            i = i + 1;
        }
        proof {
            assert(may_pay(ps, invoice.bolt11@));
            if self.connected() {
                lemma_listing_recorded_outgoing(self.entries(), ps, invoice.bolt11@);
            }
        }
        Ok(true)
    }

    /// Checks that the invoice `bolt11` may be paid by this client: it must be a valid
    /// invoice, not paid before, and the client must have reached its federation.
    /// Gives back the decoded invoice. The federation client then makes the payment,
    /// and `finish_pay` records how it went.
    pub fn pay(&self, bolt11: &str) -> (r: Result<InvoiceData, BridgeError>)
        ensures
            !crate::invoice::bolt11_accepted(bolt11@) ==> (r matches Err(e) && e is InvalidInvoice),
            r matches Ok(d) ==> self.connected() && crate::invoice::describes(d, bolt11@)
                && exists|ps: Seq<PaymentView>|
                is_payment_listing(self.entries(), ps) && may_pay(ps, d.bolt11@),
            crate::invoice::bolt11_accepted(bolt11@) && !self.connected() ==> (r matches Err(e)
                && e is ClientNotConnected),
            r matches Err(e) ==> e is InvalidInvoice || e is ClientNotConnected || e is CannotPayTwice
                || e is CorruptRecord || is_storage_error(e),
            r matches Err(e) ==> e is CannotPayTwice ==> self.connected() && exists|
                ps: Seq<PaymentView>,
            |
                is_payment_listing(self.entries(), ps) && !may_pay(
                    ps,
                    crate::invoice::bolt11_canonical(bolt11@),
                ),
            r matches Err(e) ==> e is CorruptRecord ==> self.connected() && has_corrupt_payment(
                self.entries(),
            ),
            r matches Err(e) ==> e is InvalidInvoice ==> !crate::invoice::bolt11_accepted(bolt11@),
            r matches Err(e) ==> e is ClientNotConnected ==> !self.connected(),
            r matches Err(e) ==> e is CannotPayTwice ==> recorded_outgoing(
                self.entries(),
                crate::invoice::bolt11_canonical(bolt11@),
            ),
            crate::invoice::bolt11_accepted(bolt11@) && self.connected() ==> if recorded_outgoing(
                self.entries(),
                crate::invoice::bolt11_canonical(bolt11@),
            ) {
                r matches Err(e) && (e is CannotPayTwice || e is CorruptRecord || is_storage_error(e))
            } else {
                r is Ok || (r matches Err(e) && (e is CorruptRecord || is_storage_error(e)))
            },
    {
        let invoice = match crate::invoice::decode_bolt11(bolt11) {
            Some(d) => d,
            None => {
                return Err(BridgeError::InvalidInvoice);
            },
        };
        match self.can_pay(&invoice) {
            Ok(true) => {},
            Ok(false) => {
                return Err(BridgeError::CannotPayTwice);
            },
            Err(e) => {
                return Err(e);
            },
        }
        match &self.client {
            Some(_) => Ok(invoice),
            None => Err(BridgeError::ClientNotConnected),
        }
    }

    /// Records the outcome of paying `invoice`: a paid outgoing payment where
    /// `outcome` is `Ok`, a failed one otherwise; the failure is handed on.
    pub fn finish_pay(&mut self, invoice: &InvoiceData, outcome: Result<(), String>, now: u64) -> (r:
        Result<(), BridgeError>)
        ensures
            old(self).same_but_storage(final(self)),
            old(self).connected() && r is Ok ==> outcome is Ok && final(self).entries()
                == old(self).entries().insert(
                payment_key(invoice.payment_hash@),
                encode_payment(
                    payment_of(*invoice, PaymentStatus::Paid, PaymentDirection::Outgoing, now),
                ),
            ),
            old(self).connected() && (r matches Err(e) && e is PaymentFailed) ==> outcome is Err
                && final(self).entries() == old(self).entries().insert(
                payment_key(invoice.payment_hash@),
                encode_payment(
                    payment_of(*invoice, PaymentStatus::Failed, PaymentDirection::Outgoing, now),
                ),
            ),
            outcome is Err ==> r is Err,
            r is Ok ==> outcome is Ok,
            (r matches Err(e) && e is PaymentFailed) ==> outcome is Err,
            r matches Err(BridgeError::PaymentFailed(m)) ==> (outcome matches Err(o) && m@ == o@),
            r matches Err(e) ==> e is PaymentFailed || is_storage_error(e),
    {
        let ok = outcome.is_ok();
        let status = if ok {
            PaymentStatus::Paid
        } else {
            PaymentStatus::Failed
        };
        let payment = Payment::new(
            invoice.bolt11.clone(),
            crate::database::copy_bytes(&invoice.payment_hash),
            status,
            PaymentDirection::Outgoing,
            now,
        );
        match self.save_payment(&payment) {
            Ok(()) => {},
            Err(e) => {
                return Err(e);
            },
        }
        match outcome {
            Ok(()) => Ok(()),
            Err(msg) => Err(BridgeError::PaymentFailed(msg)),
        }
    }

    /// Records a newly issued invoice as a pending incoming payment and gives back its
    /// text; fails where the client has not reached its federation.
    pub fn invoice(&mut self, generated: &InvoiceData, now: u64) -> (r: Result<String, BridgeError>)
        ensures
            old(self).same_but_storage(final(self)),
            !old(self).connected() ==> (r matches Err(e) && e is ClientNotConnected),
            r matches Ok(s) ==> s@ == generated.bolt11@ && final(self).entries() == old(
                self,
            ).entries().insert(
                payment_key(generated.payment_hash@),
                encode_payment(
                    payment_of(
                        *generated,
                        PaymentStatus::Pending,
                        PaymentDirection::Incoming,
                        now,
                    ),
                ),
            ),
            r matches Err(e) ==> e is ClientNotConnected || is_storage_error(e),
            r matches Err(e) ==> e is ClientNotConnected ==> !old(self).connected(),
    {
        if self.client.is_none() {
            return Err(BridgeError::ClientNotConnected);
        }
        let payment = Payment::new(
            generated.bolt11.clone(),
            crate::database::copy_bytes(&generated.payment_hash),
            PaymentStatus::Pending,
            PaymentDirection::Incoming,
            now,
        );
        match self.save_payment(&payment) {
            Ok(()) => Ok(generated.bolt11.clone()),
            Err(e) => Err(e),
        }
    }

    /// The stored payments that may still be claimed: incoming, neither paid nor
    /// expired, in key order.
    pub fn claimable_payments(&self) -> (r: Result<Vec<Payment>, BridgeError>)
        ensures
            !self.connected() ==> (r matches Ok(v) && v@.len() == 0),
            r matches Ok(v) ==> self.connected() ==> exists|ps: Seq<PaymentView>|
                is_payment_listing(self.entries(), ps) && payment_views(v@) == ps.filter(
                    |p: PaymentView| claimable(p),
                ),
            r matches Err(e) ==> is_storage_error(e) || (e is CorruptRecord && self.connected()
                && has_corrupt_payment(self.entries())),
    {
        let all = match self.list_payments() {
            Ok(ps) => ps,
            Err(e) => {
                return Err(e);
            },
        };
        let ghost ps = payment_views(all@);
        let mut out: Vec<Payment> = Vec::new();
        let mut rest = all;
        let mut taken: Vec<Payment> = Vec::new();
        while rest.len() > 0
            invariant
                payment_views(rest@) + payment_views(taken@).reverse() == ps,
            decreases rest@.len(),
        {
            let ghost br = rest@;
            let ghost bt = taken@;
            let p = rest.pop().unwrap();
            taken.push(p);
            proof {
                assert(payment_views(taken@).reverse() =~= seq![p@] + payment_views(bt).reverse());
                assert(payment_views(br) =~= payment_views(rest@).push(p@));
                assert(payment_views(rest@) + payment_views(taken@).reverse() =~= payment_views(br)
                    + payment_views(bt).reverse());
            }
        }
        proof {
            assert(payment_views(taken@).reverse() =~= ps);
        }
        let ghost mut done: int = 0;
        while taken.len() > 0
            invariant
                0 <= done <= ps.len(),
                payment_views(taken@).reverse() == ps.subrange(done, ps.len() as int),
                payment_views(out@) == ps.subrange(0, done).filter(|p: PaymentView| claimable(p)),
            decreases taken@.len(),
        {
            let ghost bt = taken@;
            let p = taken.pop().unwrap();
            proof {
                assert(payment_views(bt) =~= payment_views(taken@).push(p@));
                assert(payment_views(bt).reverse() =~= seq![p@] + payment_views(taken@).reverse());
                assert(ps[done] == p@) by {
                    assert(ps.subrange(done, ps.len() as int)[0] == ps[done]);
                }
                let t = payment_views(taken@).reverse();
                assert((seq![p@] + t).drop_first() =~= t);
                assert(ps.subrange(done, ps.len() as int).drop_first() =~= ps.subrange(
                    done + 1,
                    ps.len() as int,
                ));
                let pre = ps.subrange(0, done + 1);
                assert(pre.drop_last() =~= ps.subrange(0, done));
                assert(pre.last() == p@);
                reveal_with_fuel(Seq::filter, 1);
            }
            let keep = !p.paid() && !p.expired() && p.incoming();
            if keep {
                out.push(p);
            }
            proof {
                assert(payment_views(out@) =~= ps.subrange(0, done + 1).filter(
                    |q: PaymentView| claimable(q),
                ));
                done = done + 1;
            }
        }
        proof {
            assert(ps.subrange(0, done) =~= ps);
        }
        Ok(out)
    }

    /// Records what claiming the incoming payment `payment_hash` gave: paid where the
    /// claim succeeded, expired where it failed on an expired invoice, unchanged
    /// otherwise. Only a payment that may still be claimed (incoming, neither paid nor
    /// expired) is changed.
    pub fn apply_claim_result(&mut self, payment_hash: &[u8], claimed: bool, invoice_expired: bool) -> (r:
        Result<(), BridgeError>)
        ensures
            old(self).same_but_storage(final(self)),
            !claimed && !invoice_expired ==> r is Ok && final(self).entries() == old(self).entries(),
            r is Ok && old(self).connected() && (claimed || invoice_expired) ==> match stored_payment(
                old(self).entries(),
                payment_hash@,
            ) {
                Some(Some(p)) => if claimable(p) {
                    final(self).entries() == old(self).entries().insert(
                        payment_key(payment_hash@),
                        encode_payment(
                            PaymentView {
                                status: if claimed {
                                    PaymentStatus::Paid
                                } else {
                                    PaymentStatus::Expired
                                },
                                ..p
                            },
                        ),
                    )
                } else {
                    final(self).entries() == old(self).entries()
                },
                _ => final(self).entries() == old(self).entries(),
            },
            !old(self).connected() ==> r is Ok && final(self).entries() == old(self).entries(),
            r matches Err(e) ==> is_storage_error(e) || e is CorruptRecord,
    {
        if !claimed && !invoice_expired {
            return Ok(());
        }
        let still_claimable = match self.fetch_payment(payment_hash) {
            Ok(Some(p)) => !p.paid() && !p.expired() && p.incoming(),
            Ok(None) => false,
            Err(e) => {
                return Err(e);
            },
        };
        if !still_claimable {
            return Ok(());
        }
        if claimed {
            self.update_payment_status(payment_hash, PaymentStatus::Paid)
        } else {
            self.update_payment_status(payment_hash, PaymentStatus::Expired)
        }
    }
}

} // verus!

verus! {

// ---------------------------------------------------------------------------
// Laws of a client's records.
// ---------------------------------------------------------------------------

/// User data that was stored is the user data that is read back.
pub proof fn law_user_data_roundtrip(entries: Map<Seq<u8>, Seq<u8>>, data: Seq<char>)
    ensures
        stored_user_data(entries.insert(user_data_key(), encode_utf8(data))) == Some(data),
{
    encode_utf8_valid_utf8(data);
    encode_utf8_decode_utf8(data);
}

/// A payment that was stored under its hash is the payment that is fetched by it.
pub proof fn law_saved_payment_is_fetched(entries: Map<Seq<u8>, Seq<u8>>, p: PaymentView)
    requires
        p.payment_hash.len() == 32,
    ensures
        stored_payment(entries.insert(payment_key(p.payment_hash), encode_payment(p)), p.payment_hash)
            == Some(Some(p)),
{
    crate::payments::law_payment_roundtrip(p);
}

/// Once an outgoing payment of an invoice is recorded, paid or failed, the invoice is
/// not paid again.
pub proof fn law_no_second_payment(
    entries: Map<Seq<u8>, Seq<u8>>,
    invoice: InvoiceData,
    status: PaymentStatus,
    now: u64,
    ps: Seq<PaymentView>,
)
    requires
        invoice.payment_hash@.len() == 32,
        is_payment_listing(
            entries.insert(
                payment_key(invoice.payment_hash@),
                encode_payment(payment_of(invoice, status, PaymentDirection::Outgoing, now)),
            ),
            ps,
        ),
    ensures
        !may_pay(ps, invoice.bolt11@),
{
    let p = payment_of(invoice, status, PaymentDirection::Outgoing, now);
    let key = payment_key(invoice.payment_hash@);
    let e = entries.insert(key, encode_payment(p));
    let l = choose|l: Seq<(Seq<u8>, Seq<u8>)>|
        {
            &&& is_prefix_listing(e, payment_prefix(), l)
            &&& l.len() == ps.len()
            &&& forall|i: int| 0 <= i < l.len() ==> decode_payment(#[trigger] l[i].1) == Some(ps[i])
        };
    assert(key.subrange(0, payment_prefix().len() as int) =~= payment_prefix());
    assert(crate::database::has_prefix(key, payment_prefix()));
    assert(e.contains_key(key));
    let i = choose|i: int| 0 <= i < l.len() && #[trigger] l[i].0 == key;
    assert(l[i].1 == e[key]);
    crate::payments::law_payment_roundtrip(p);
    assert(decode_payment(l[i].1) == Some(ps[i]));
    assert(ps[i] == p);
    assert(ps[i].direction == PaymentDirection::Outgoing);
}

} // verus!
