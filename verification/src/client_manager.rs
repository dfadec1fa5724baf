//! The clients of all federations joined, kept under their labels, and the database
//! whose trees hold their storage.

use vstd::prelude::*;
use vstd::string::StringSliceAdditionalSpecFns;
use vstd::utf8::*;

use crate::client::{Client, ConnectionStatus, FederationInfo};
use crate::database::{decoded_names, default_tree_name, SledDatabase};
use crate::error::BridgeError;
use crate::federation::{federation_label, label_for_members, members_view};

verus! {

/// The labels of `clients`, in order.
pub open spec fn labels_of(clients: Seq<Client>) -> Seq<Seq<char>> {
    clients.map_values(|c: Client| c.label@)
}

/// No two of `clients` share a label.
pub open spec fn unique_labels(clients: Seq<Client>) -> bool {
    forall|i: int, j: int|
        0 <= i < j < clients.len() ==> #[trigger] clients[i].label@ != #[trigger] clients[j].label@
}

/// Some client of `clients` has the label `label`.
pub open spec fn has_label(clients: Seq<Client>, label: Seq<char>) -> bool {
    exists|i: int| 0 <= i < clients.len() && #[trigger] clients[i].label@ == label
}

/// The client with label `label`, where there is one.
pub open spec fn client_with_label(clients: Seq<Client>, label: Seq<char>) -> Option<Client> {
    if has_label(clients, label) {
        Some(clients[choose|i: int| 0 <= i < clients.len() && #[trigger] clients[i].label@ == label])
    } else {
        None
    }
}

/// The clients not labelled `label`.
pub open spec fn not_labelled(label: Seq<char>) -> spec_fn(Client) -> bool {
    |c: Client| c.label@ != label
}

/// `clients` without the client labelled `label`.
pub open spec fn without_label(clients: Seq<Client>, label: Seq<char>) -> Seq<Client> {
    clients.filter(not_labelled(label))
}

/// Every client of `clients` that keeps storage keeps a tree of the database `id`.
pub open spec fn owned_storage(clients: Seq<Client>, id: sled::Db) -> bool {
    forall|i: int|
        0 <= i < clients.len() && #[trigger] clients[i].connected() ==> clients[i].storage_owner()
            == id
}

/// `clients` with `c` in place of the client of the same label, or added after them.
pub open spec fn with_client(clients: Seq<Client>, c: Client) -> Seq<Client> {
    if has_label(clients, c.label@) {
        clients.update(
            choose|i: int| 0 <= i < clients.len() && #[trigger] clients[i].label@ == c.label@,
            c,
        )
    } else {
        clients.push(c)
    }
}

/// The tree `label` can be loaded from what is known of it: its handle is not out, and
/// what it held when its handle was given back includes a federation config in UTF-8.
pub open spec fn holds_loadable(
    known: Map<Seq<u8>, Map<Seq<u8>, Seq<u8>>>,
    in_use: Seq<Seq<u8>>,
    label: Seq<char>,
) -> bool {
    let b = encode_utf8(label);
    &&& !in_use.contains(b)
    &&& known.contains_key(b)
    &&& known[b].contains_key(crate::client::config_key())
    &&& valid_utf8(known[b][crate::client::config_key()])
}

/// Loading the client `label` failed with `e` for a reason that holds of it:
/// the label was kept already, or what its tree holds has no config, or no config in
/// UTF-8.
pub open spec fn load_failed(
    before: Seq<Client>,
    known: Map<Seq<u8>, Map<Seq<u8>, Seq<u8>>>,
    label: Seq<char>,
    e: BridgeError,
) -> bool {
    let b = encode_utf8(label);
    &&& e is ClientAlreadyExists ==> has_label(before, label)
    &&& e is NoConfigString ==> known.contains_key(b) && !known[b].contains_key(
        crate::client::config_key(),
    )
    &&& e is CorruptRecord ==> known.contains_key(b) && known[b].contains_key(
        crate::client::config_key(),
    ) && !valid_utf8(known[b][crate::client::config_key()])
}

/// `after` keeps the labels of `before` and those of the first `k` entries of `fetched`,
/// and no others.
pub open spec fn labels_after(
    before: Seq<Client>,
    after: Seq<Client>,
    fetched: Seq<(String, Option<FederationInfo>)>,
    k: int,
) -> bool {
    forall|l: Seq<char>|
        #[trigger] has_label(after, l) <==> (has_label(before, l) || exists|j: int|
            0 <= j < k && #[trigger] fetched[j].0@ == l)
}

/// No entry after position `i` of `fetched` names the same label.
pub open spec fn last_for_label(fetched: Seq<(String, Option<FederationInfo>)>, i: int) -> bool {
    forall|j: int| i < j < fetched.len() ==> #[trigger] fetched[j].0@ != fetched[i].0@
}

/// Position `j` of `answers` is the first entry that names `label`.
pub open spec fn first_answer_at(
    answers: Seq<(String, Option<FederationInfo>)>,
    label: Seq<char>,
    j: int,
) -> bool {
    &&& 0 <= j < answers.len()
    &&& answers[j].0@ == label
    &&& forall|k: int| 0 <= k < j ==> #[trigger] answers[k].0@ != label
}

/// The federation of the client `label` answered: the first entry of `answers` that
/// names the label carries an answer.
pub open spec fn answered(answers: Seq<(String, Option<FederationInfo>)>, label: Seq<char>) -> bool {
    exists|j: int| #[trigger] first_answer_at(answers, label, j) && answers[j].1 is Some
}

/// `a` and `b` say the same of a federation.
pub open spec fn same_info(a: FederationInfo, b: FederationInfo) -> bool {
    &&& a.federation_name@ == b.federation_name@
    &&& a.network == b.network
    &&& a.balance_msat == b.balance_msat
}

/// What `answers` says for `label`: a copy of the answer of the first entry that names
/// it, or `None` where that entry carries none or no entry names it.
pub fn answer_for(answers: &Vec<(String, Option<FederationInfo>)>, label: &String) -> (r: Option<
    FederationInfo,
>)
    ensures
        r is Some <==> answered(answers@, label@),
        r matches Some(x) ==> exists|j: int|
            #[trigger] first_answer_at(answers@, label@, j) && (answers@[j].1 matches Some(a)
                && same_info(x, a)),
{
    let mut j: usize = 0;
    while j < answers.len()
        invariant
            j <= answers@.len(),
            forall|k: int| 0 <= k < j ==> #[trigger] answers@[k].0@ != label@,
        decreases answers@.len() - j,
    {
        if answers[j].0 == *label {
            proof {
                assert(first_answer_at(answers@, label@, j as int));
                assert forall|j2: int| #[trigger] first_answer_at(answers@, label@, j2) implies j2
                    == j by {
                    if j2 > j {
                        assert(answers@[j as int].0@ != label@);
                    }
                }
            }
            return match &answers[j].1 {
                Some(a) => Some(
                    FederationInfo {
                        federation_name: a.federation_name.clone(),
                        network: a.network,
                        balance_msat: a.balance_msat,
                    },
                ),
                None => None,
            };
        }
        j = j + 1;
    }
    proof {
        assert forall|j2: int| #[trigger] first_answer_at(answers@, label@, j2) implies false by {
            assert(answers@[j2].0@ != label@);
        }
    }
    None
}

/// The user data `data` was saved for the client `label`: the client is kept, unchanged
/// but for its storage, and where it keeps storage, the storage holds `data` as its user
/// data and the client knows it.
pub open spec fn user_data_saved(
    before: Seq<Client>,
    after: Seq<Client>,
    label: Seq<char>,
    data: Seq<char>,
) -> bool {
    &&& client_with_label(before, label) matches Some(c)
    &&& client_with_label(after, label) matches Some(d)
    &&& c.same_but_storage(&d)
    &&& c.connected() ==> d.entries() == c.entries().insert(
        crate::client::user_data_key(),
        encode_utf8(data),
    ) && d.user_data_known()
}

/// `r` is what fetching the user data of the client `label` may give: nothing where no
/// client has the label or it keeps no storage, and the stored text where the client
/// knows it.
pub open spec fn fetched_user_data(clients: Seq<Client>, label: Seq<char>, r: Option<Seq<char>>) -> bool {
    match client_with_label(clients, label) {
        Some(c) => {
            &&& !c.connected() ==> r is None
            &&& c.connected() && c.user_data_known() ==> r == crate::client::stored_user_data(
                c.entries(),
            )
        },
        None => r is None,
    }
}

/// What was saved as a client's user data is what fetching it gives, where the client
/// keeps storage.
pub proof fn law_saved_user_data_fetched(
    before: Seq<Client>,
    after: Seq<Client>,
    label: Seq<char>,
    data: Seq<char>,
    r: Option<Seq<char>>,
)
    requires
        user_data_saved(before, after, label, data),
        client_with_label(after, label) matches Some(d) && d.connected(),
        fetched_user_data(after, label, r),
    ensures
        r == Some(data),
{
    encode_utf8_valid_utf8(data);
    encode_utf8_decode_utf8(data);
}

/// The names of the database's trees that are client labels: every tree name that is
/// text, except the default tree's.
pub open spec fn client_tree_labels(names: Set<Seq<u8>>) -> Set<Seq<char>> {
    decoded_names(names).remove(default_tree_name())
}

/// The clients of the federations joined.
pub struct ClientManager {
    clients: Vec<Client>,
    db: SledDatabase,
}

impl ClientManager {
    /// The clients kept, in the order they were added.
    pub closed spec fn clients(&self) -> Seq<Client> {
        self.clients@
    }

    /// The names of the database's trees.
    pub closed spec fn tree_names(&self) -> Set<Seq<u8>> {
        self.db@
    }

    /// The database whose trees the clients' storage is.
    pub closed spec fn db_id(&self) -> sled::Db {
        self.db.id()
    }

    /// The manager's invariant: labels are unique, and the storage of each client is a
    /// tree of the manager's database.
    pub open spec fn wf(&self) -> bool {
        &&& unique_labels(self.clients())
        &&& owned_storage(self.clients(), self.db_id())
        &&& self.db_inv()
    }

    /// The database's own invariant holds.
    pub closed spec fn db_inv(&self) -> bool {
        self.db.inv()
    }

    /// The trees whose handle is out.
    pub closed spec fn trees_in_use(&self) -> Seq<Seq<u8>> {
        self.db.in_use()
    }

    /// What the trees whose handle the manager gave back hold, by name.
    pub closed spec fn known_trees(&self) -> Map<Seq<u8>, Map<Seq<u8>, Seq<u8>>> {
        self.db.known()
    }

    /// A manager without clients over `db`.
    pub fn new(db: SledDatabase) -> (r: ClientManager)
        requires
            db.inv(),
        ensures
            r.wf(),
            r.clients().len() == 0,
            r.tree_names() == db@,
            r.db_id() == db.id(),
            r.known_trees() == db.known(),
    {
        ClientManager { clients: Vec::new(), db }
    }

    /// The position of the client labelled `label`.
    fn find(&self, label: &str) -> (r: Option<usize>)
        ensures
            match r {
                Some(i) => i < self.clients().len() && self.clients()[i as int].label@ == label@,
                None => !has_label(self.clients(), label@),
            },
    {
        let target = label.to_string();
        let mut i: usize = 0;
        while i < self.clients.len()
            invariant
                i <= self.clients@.len(),
                target@ == label@,
                forall|j: int| 0 <= j < i ==> #[trigger] self.clients@[j].label@ != label@,
            decreases self.clients@.len() - i,
        {
            if self.clients[i].label == target {
                return Some(i);
            }
            i = i + 1;
        }
        None
    }

    /// The number of clients kept.
    pub fn get_client_count(&self) -> (r: usize)
        ensures
            r == self.clients().len(),
    {
        self.clients.len()
    }

    /// The labels of the clients kept, in the order they were added.
    pub fn get_client_labels(&self) -> (r: Vec<String>)
        ensures
            r@.map_values(|s: String| s@) == labels_of(self.clients()),
    {
        let mut r: Vec<String> = Vec::new();
        let mut i: usize = 0;
        while i < self.clients.len()
            invariant
                i <= self.clients@.len(),
                r@.len() == i,
                forall|j: int| 0 <= j < i ==> #[trigger] r@[j]@ == self.clients@[j].label@,
            decreases self.clients@.len() - i,
        {
            r.push(self.clients[i].label.clone());
            i = i + 1;
        }
        proof {
            assert(r@.map_values(|s: String| s@) =~= labels_of(self.clients()));
        }
        r
    }

    /// The labels of the clients whose storage the database holds: the tree names that
    /// are text, except the default tree's, once each.
    pub fn get_client_labels_from_db(&self) -> (r: Vec<String>)
        ensures
            forall|i: int|
                0 <= i < r@.len() ==> client_tree_labels(self.tree_names()).contains(#[trigger] r@[i]@),
            forall|s: Seq<char>| #[trigger]
                client_tree_labels(self.tree_names()).contains(s) ==> exists|i: int|
                    0 <= i < r@.len() && #[trigger] r@[i]@ == s,
            forall|i: int, j: int| 0 <= i < j < r@.len() ==> #[trigger] r@[i]@ != #[trigger] r@[j]@,
    {
        let names = match self.db.tree_names() {
            Ok(n) => n,
            Err(_) => Vec::new(),
        };
        let ghost all = names@;
        let mut out: Vec<String> = Vec::new();
        let ghost mut from: Seq<int> = Seq::empty();
        let mut i: usize = 0;
        while i < names.len()
            invariant
                i <= names@.len(),
                all == names@,
                crate::database::is_string_listing(all, decoded_names(self.db@)),
                out@.len() == from.len(),
                forall|k: int|
                    0 <= k < from.len() ==> 0 <= #[trigger] from[k] < i && out@[k]@ == all[from[k]]@
                        && all[from[k]]@ != default_tree_name(),
                forall|k: int, m: int| 0 <= k < m < from.len() ==> #[trigger] from[k] < #[trigger] from[m],
                forall|m: int|
                    0 <= m < i && #[trigger] all[m]@ != default_tree_name() ==> exists|k: int|
                        0 <= k < from.len() && #[trigger] from[k] == m,
            decreases names@.len() - i,
        {
            let ghost old_from = from;
            if !is_default_tree_name(names[i].as_str()) {
                out.push(names[i].clone());
                proof {
                    from = from.push(i as int);
                    assert forall|m: int|
                        0 <= m < i + 1 && #[trigger] all[m]@ != default_tree_name() implies exists|k: int|
                            0 <= k < from.len() && #[trigger] from[k] == m by {
                        if m == i {
                            assert(from[from.len() - 1] == m);
                        } else {
                            let k = choose|k: int| 0 <= k < old_from.len() && #[trigger] old_from[k] == m;
                            assert(from[k] == m);
                        }
                    }
                }
            }
            i = i + 1;
        }
        proof {
            assert forall|k: int| 0 <= k < out@.len() implies client_tree_labels(self.tree_names()).contains(
                #[trigger] out@[k]@,
            ) by {
                assert(decoded_names(self.db@).contains(all[from[k]]@));
            }
            assert forall|s: Seq<char>| #[trigger]
                client_tree_labels(self.tree_names()).contains(s) implies exists|k: int|
                0 <= k < out@.len() && #[trigger] out@[k]@ == s by {
                assert(decoded_names(self.db@).contains(s));
                let m = choose|m: int| 0 <= m < all.len() && #[trigger] all[m]@ == s;
                let k = choose|k: int| 0 <= k < from.len() && #[trigger] from[k] == m;
                assert(out@[k]@ == s);
            }
            assert forall|k: int, m: int| 0 <= k < m < out@.len() implies #[trigger] out@[k]@
                != #[trigger] out@[m]@ by {
                assert(from[k] < from[m]);
                assert(all[from[k]]@ != all[from[m]]@);
            }
        }
        out
    }

    /// Whether a client is kept under `label`.
    pub fn client_exists(&self, label: &str) -> (r: bool)
        ensures
            r == has_label(self.clients(), label@),
    {
        self.find(label).is_some()
    }

    /// The client kept under `label`.
    pub fn get_client_by_label(&self, label: &str) -> (r: Result<&Client, BridgeError>)
        requires
            self.wf(),
        ensures
            self.clients().len() == 0 ==> (r matches Err(e) && e is JoinFederationFirst),
            self.clients().len() > 0 && !has_label(self.clients(), label@) ==> (r matches Err(e)
                && e is NoSuchClient),
            has_label(self.clients(), label@) ==> (r matches Ok(c) && client_with_label(
                self.clients(),
                label@,
            ) == Some(*c)),
            r is Ok <==> has_label(self.clients(), label@),
    {
        if self.clients.len() == 0 {
            return Err(BridgeError::JoinFederationFirst);
        }
        match self.find(label) {
            Some(i) => {
                proof {
                    lemma_client_with_label(self.clients@, i as int);
                }
                Ok(&self.clients[i])
            },
            None => Err(BridgeError::NoSuchClient),
        }
    }

    /// The label that the federation with guardians `members` gets; `None` where a
    /// guardian's URL does not parse.
    pub fn label_for(members: &Vec<(u16, String)>) -> (r: Option<String>)
        ensures
            match r {
                Some(l) => federation_label(members_view(members@)) == Some(l@),
                None => federation_label(members_view(members@)) is None,
            },
    {
        label_for_members(members)
    }

    /// Joins the federation with config `config_url` and guardians `members` (as the
    /// config lists them); `fetched` is what the federation answered to the config
    /// (`None` where it did not answer). The client is kept under the federation's
    /// label, which is given back, and its storage is the database tree of that name.
    pub fn add_client(
        &mut self,
        config_url: &str,
        members: &Vec<(u16, String)>,
        fetched: Option<FederationInfo>,
    ) -> (r: Result<String, BridgeError>)
        requires
            old(self).wf(),
        ensures
            final(self).wf(),
            federation_label(members_view(members@)) is None ==> (r matches Err(e)
                && e is InvalidFederationCode),
            federation_label(members_view(members@)) matches Some(l) ==> has_label(
                old(self).clients(),
                l,
            ) ==> (r matches Err(e) && e is ClientAlreadyExists),
            r matches Ok(label) ==> {
                &&& federation_label(members_view(members@)) == Some(label@)
                &&& !has_label(old(self).clients(), label@)
                &&& final(self).clients().drop_last() == old(self).clients()
                &&& final(self).clients().len() == old(self).clients().len() + 1
                &&& final(self).clients().last().label@ == label@
                &&& final(self).clients().last().cfg_json@ == config_url@
                &&& (final(self).clients().last().connected() <==> fetched is Some)
                &&& final(self).clients().last().connected() ==> final(self).clients().last().storage_name()
                    == vstd::utf8::encode_utf8(label@)
                &&& (final(self).clients().last().connection_status == ConnectionStatus::Connected
                    <==> fetched is Some)
                &&& final(self).tree_names() == old(self).tree_names().insert(vstd::utf8::encode_utf8(label@))
            },
            r matches Err(e) ==> final(self).clients() == old(self).clients(),
            r matches Err(e) ==> e is InvalidFederationCode || e is ClientAlreadyExists
                || e is Database,
            r matches Err(e) ==> e is InvalidFederationCode ==> federation_label(
                members_view(members@),
            ) is None,
            r matches Err(e) ==> e is ClientAlreadyExists ==> (federation_label(
                members_view(members@),
            ) matches Some(l) && has_label(old(self).clients(), l)),
    {
        let label = match label_for_members(members) {
            Some(l) => l,
            None => {
                return Err(BridgeError::InvalidFederationCode);
            },
        };
        if self.client_exists(label.as_str()) {
            return Err(BridgeError::ClientAlreadyExists);
        }
        let tree = match self.db.open_tree(label.as_str()) {
            Ok(t) => t,
            Err(e) => {
                return Err(BridgeError::Database(e));
            },
        };
        let client = match fetched {
            Some(info) => match Client::new(tree, config_url, label.as_str(), Some(info)) {
                Ok(c) => c,
                Err(e) => {
                    return Err(e);
                },
            },
            None => {
                self.db.close_tree(tree);
                Client::without_federation(config_url, label.as_str())
            },
        };
        let ghost before = self.clients@;
        self.clients.push(client);
        proof {
            assert(self.clients@.drop_last() =~= before);
            assert forall|i: int, j: int|
                0 <= i < j < self.clients@.len() implies #[trigger] self.clients@[i].label@
                != #[trigger] self.clients@[j].label@ by {
                if j == self.clients@.len() - 1 {
                    assert(before[i].label@ != label@);
                }
            }
        }
        Ok(label)
    }

    /// Removes the client kept under `label`.
    pub fn remove_client(&mut self, label: &str) -> (r: Result<(), BridgeError>)
        requires
            old(self).wf(),
        ensures
            final(self).wf(),
            final(self).tree_names() == old(self).tree_names(),
            has_label(old(self).clients(), label@) <==> r is Ok,
            r matches Err(e) ==> e is ClientDoesNotExist,
            final(self).clients() == without_label(old(self).clients(), label@),
    {
        match self.find(label) {
            Some(i) => {
                let ghost before = self.clients@;
                let removed = self.clients.remove(i);
                proof {
                    lemma_remove_unique(before, i as int);
                    assert(has_label(before, label@));
                    assert(before[i as int] == removed);
                    assert forall|k: int|
                        0 <= k < self.clients@.len() && #[trigger] self.clients@[k].connected() implies self.clients@[k].storage_owner()
                        == self.db_id() by {
                        if k < i {
                            assert(self.clients@[k] == before[k]);
                        } else {
                            assert(self.clients@[k] == before[k + 1]);
                        }
                    }
                }
                match removed.into_storage() {
                    Some(tree) => {
                        self.db.close_tree(tree);
                    },
                    None => {},
                }
                Ok(())
            },
            None => {
                proof {
                    lemma_filter_none(self.clients@, label@);
                }
                Err(BridgeError::ClientDoesNotExist)
            },
        }
    }

    /// Opens the storage tree of the client `label`, reads the federation config it
    /// holds (`Ok(None)` where it holds none) and closes the tree again.
    pub fn stored_config(&mut self, label: &str) -> (r: Result<Option<String>, BridgeError>)
        requires
            old(self).wf(),
        ensures
            final(self).wf(),
            final(self).clients() == old(self).clients(),
            r is Ok ==> final(self).tree_names() == old(self).tree_names().insert(vstd::utf8::encode_utf8(label@)),
            r is Err ==> final(self).tree_names() == old(self).tree_names() || final(self).tree_names()
                == old(self).tree_names().insert(vstd::utf8::encode_utf8(label@)),
            r matches Err(e) ==> e is Database || e is CorruptRecord,
    {
        let tree = match self.db.open_tree(label) {
            Ok(t) => t,
            Err(e) => {
                return Err(BridgeError::Database(e));
            },
        };
        let r = Client::stored_config(&tree);
        self.db.close_tree(tree);
        r
    }

    /// Loads the client whose storage is the tree `label`, given `fetched`, what its
    /// federation answered to the stored config. A label that is kept already is not
    /// loaded again: its storage tree is in use.
    pub fn load_client(&mut self, label: &str, fetched: Option<FederationInfo>) -> (r: Result<
        (),
        BridgeError,
    >)
        requires
            old(self).wf(),
        ensures
            final(self).wf(),
            has_label(old(self).clients(), label@) ==> (r matches Err(e) && e is ClientAlreadyExists),
            r matches Err(e) ==> e is ClientAlreadyExists ==> has_label(old(self).clients(), label@),
            r is Ok ==> {
                &&& has_label(final(self).clients(), label@)
                &&& forall|l: Seq<char>|
                    has_label(final(self).clients(), l) <==> (has_label(old(self).clients(), l) || l
                        == label@)
                &&& client_with_label(final(self).clients(), label@) matches Some(c) && (c.connected()
                    <==> fetched is Some) && (c.connected() ==> c.storage_name()
                    == vstd::utf8::encode_utf8(label@))
                &&& forall|l: Seq<char>|
                    l != label@ ==> #[trigger] client_with_label(final(self).clients(), l)
                        == client_with_label(old(self).clients(), l)
            },
            r is Err ==> final(self).clients() == old(self).clients(),
            r matches Err(e) ==> e is ClientAlreadyExists || e is NoConfigString || e is CorruptRecord
                || e is Database,
            r matches Err(e) ==> e is NoConfigString ==> final(self).known_trees().contains_key(
                encode_utf8(label@),
            ) && !final(self).known_trees()[encode_utf8(label@)].contains_key(
                crate::client::config_key(),
            ),
            r matches Err(e) ==> e is CorruptRecord ==> final(self).known_trees().contains_key(
                encode_utf8(label@),
            ) && final(self).known_trees()[encode_utf8(label@)].contains_key(
                crate::client::config_key(),
            ) && !valid_utf8(
                final(self).known_trees()[encode_utf8(label@)][crate::client::config_key()],
            ),
            holds_loadable(old(self).known_trees(), old(self).trees_in_use(), label@) && !has_label(
                old(self).clients(),
                label@,
            ) ==> (r is Ok || (r matches Err(e) && e is Database)),
            final(self).known_trees().remove(encode_utf8(label@)) == old(self).known_trees().remove(
                encode_utf8(label@),
            ),
            forall|n: Seq<u8>|
                n != encode_utf8(label@) ==> (final(self).trees_in_use().contains(n)
                    <==> old(self).trees_in_use().contains(n)),
            final(self).tree_names() == old(self).tree_names() || final(self).tree_names() == old(
                self,
            ).tree_names().insert(encode_utf8(label@)),
    {
        let ghost use0 = self.db.in_use();
        let ghost b = encode_utf8(label@);
        if self.find(label).is_some() {
            return Err(BridgeError::ClientAlreadyExists);
        }
        let tree = match self.db.open_tree(label) {
            Ok(t) => t,
            Err(e) => {
                return Err(BridgeError::Database(e));
            },
        };
        proof {
            let use1 = self.db.in_use();
            assert(use1 == use0.push(b));
            assert forall|n: Seq<u8>| n != b implies (use1.contains(n) <==> use0.contains(n)) by {
                if use0.contains(n) {
                    let k = choose|k: int| 0 <= k < use0.len() && use0[k] == n;
                    assert(use1[k] == n);
                }
                if use1.contains(n) {
                    let k = choose|k: int| 0 <= k < use1.len() && use1[k] == n;
                    if k < use0.len() {
                        assert(use0[k] == n);
                    }
                }
            }
        }
        let cfg = match Client::stored_config(&tree) {
            Ok(Some(c)) => c,
            Ok(None) => {
                self.db.close_tree(tree);
                return Err(BridgeError::NoConfigString);
            },
            Err(e) => {
                self.db.close_tree(tree);
                return Err(e);
            },
        };
        let client = match fetched {
            Some(info) => match Client::new(tree, cfg.as_str(), label, Some(info)) {
                Ok(c) => c,
                Err(e) => {
                    return Err(e);
                },
            },
            None => {
                self.db.close_tree(tree);
                Client::without_federation(cfg.as_str(), label)
            },
        };
        let ghost before = self.clients@;
        self.clients.push(client);
        proof {
            assert forall|a: int, b: int|
                0 <= a < b < self.clients@.len() implies #[trigger] self.clients@[a].label@
                != #[trigger] self.clients@[b].label@ by {
                if b == self.clients@.len() - 1 {
                    assert(before[a].label@ != label@);
                }
            }
            assert forall|k: int|
                0 <= k < self.clients@.len() && #[trigger] self.clients@[k].connected() implies self.clients@[k].storage_owner()
                == self.db_id() by {
                if k < before.len() {
                    assert(self.clients@[k] == before[k]);
                }
            }
            let n = (self.clients@.len() - 1) as int;
            lemma_client_with_label(self.clients@, n);
            assert forall|l: Seq<char>|
                has_label(self.clients@, l) <==> (has_label(before, l) || l == label@) by {
                if has_label(self.clients@, l) {
                    let k = choose|k: int| 0 <= k < self.clients@.len() && #[trigger] self.clients@[k].label@ == l;
                    if k != n {
                        assert(before[k].label@ == l);
                    }
                }
                if has_label(before, l) {
                    let k = choose|k: int| 0 <= k < before.len() && #[trigger] before[k].label@ == l;
                    assert(self.clients@[k].label@ == l);
                }
                if l == label@ {
                    assert(self.clients@[n].label@ == l);
                }
            }
            assert forall|l: Seq<char>|
                l != label@ implies #[trigger] client_with_label(self.clients@, l)
                    == client_with_label(before, l) by {
                if has_label(before, l) {
                    let k = choose|k: int| 0 <= k < before.len() && #[trigger] before[k].label@ == l;
                    assert(self.clients@[k] == before[k]);
                    lemma_client_with_label(before, k);
                    lemma_client_with_label(self.clients@, k);
                } else {
                    assert(!has_label(self.clients@, l));
                }
            }
        }
        Ok(())
    }

    /// Loads the clients whose storage the database holds, one after the other, each
    /// with what its federation answered; stops at the first failure.
    pub fn load(&mut self, fetched: Vec<(String, Option<FederationInfo>)>) -> (r: Result<
        (),
        BridgeError,
    >)
        requires
            old(self).wf(),
        ensures
            final(self).wf(),
            r is Ok ==> forall|i: int|
                0 <= i < fetched@.len() ==> has_label(final(self).clients(), #[trigger] fetched@[i].0@),
            r is Ok ==> forall|i: int|
                0 <= i < fetched@.len() && last_for_label(fetched@, i) ==> (client_with_label(
                    final(self).clients(),
                    #[trigger] fetched@[i].0@,
                ) matches Some(c) && (c.connected() <==> fetched@[i].1 is Some)),
            r is Ok ==> labels_after(old(self).clients(), final(self).clients(), fetched@, fetched@.len() as int),
            r is Err ==> exists|k: int|
                0 <= k < fetched@.len() && #[trigger] labels_after(
                    old(self).clients(),
                    final(self).clients(),
                    fetched@,
                    k,
                ),
            fetched@.len() == 0 ==> r is Ok && final(self).clients() == old(self).clients(),
            r matches Err(e) ==> e is ClientAlreadyExists || e is NoConfigString || e is CorruptRecord
                || e is Database,
    {
        let ghost orig = self.clients();
        let ghost all = fetched@;
        let mut rest = fetched;
        let mut pending: Vec<(String, Option<FederationInfo>)> = Vec::new();
        while rest.len() > 0
            invariant
                rest@ + pending@.reverse() == all,
            decreases rest@.len(),
        {
            let ghost br = rest@;
            let ghost bp = pending@;
            let x = rest.pop().unwrap();
            pending.push(x);
            proof {
                assert(pending@.reverse() =~= seq![x] + bp.reverse());
                assert(br =~= rest@.push(x));
                assert(rest@ + pending@.reverse() =~= br + bp.reverse());
            }
        }
        let ghost mut done: int = 0;
        proof {
            assert(pending@.reverse() =~= all);
            assert forall|l: Seq<char>|
                #[trigger] has_label(self.clients(), l) <==> (has_label(orig, l) || exists|j: int|
                    0 <= j < 0 && #[trigger] all[j].0@ == l) by {}
            assert(labels_after(orig, self.clients(), all, 0));
        }
        while pending.len() > 0
            invariant
                self.wf(),
                done == 0 ==> self.clients() == orig,
                all == fetched@,
                orig == old(self).clients(),
                0 <= done <= all.len(),
                pending@.reverse() == all.subrange(done, all.len() as int),
                forall|i: int| 0 <= i < done ==> has_label(self.clients(), #[trigger] all[i].0@),
                forall|i: int|
                    0 <= i < done && last_for_label(all.subrange(0, done), i) ==> (client_with_label(
                        self.clients(),
                        #[trigger] all[i].0@,
                    ) matches Some(c) && (c.connected() <==> all[i].1 is Some)),
                labels_after(orig, self.clients(), all, done),
            decreases pending@.len(),
        {
            let ghost bp = pending@;
            let x = pending.pop().unwrap();
            proof {
                assert(bp =~= pending@.push(x));
                assert(bp.reverse() =~= seq![x] + pending@.reverse());
                assert(all[done] == x) by {
                    assert(all.subrange(done, all.len() as int)[0] == all[done]);
                }
                let t = pending@.reverse();
                assert((seq![x] + t).drop_first() =~= t);
                assert(all.subrange(done, all.len() as int).drop_first() =~= all.subrange(
                    done + 1,
                    all.len() as int,
                ));
            }
            let ghost before = self.clients();
            let (label, info) = x;
            match self.load_client(label.as_str(), info) {
                Ok(()) => {},
                Err(e) => {
                    proof {
                        assert(0 <= done < all.len());
                        assert(labels_after(orig, self.clients(), all, done));
                    }
                    return Err(e);
                },
            }
            proof {
                assert forall|l: Seq<char>|
                    #[trigger] has_label(self.clients(), l) <==> (has_label(orig, l) || exists|j: int|
                        0 <= j < done + 1 && #[trigger] all[j].0@ == l) by {
                    if l == label@ {
                        assert(all[done].0@ == l);
                    }
                    if exists|j: int| 0 <= j < done + 1 && #[trigger] all[j].0@ == l {
                        let j = choose|j: int| 0 <= j < done + 1 && #[trigger] all[j].0@ == l;
                        if j < done {
                            assert(exists|j2: int| 0 <= j2 < done && #[trigger] all[j2].0@ == l);
                        }
                    }
                    if has_label(before, l) && !has_label(orig, l) {
                        let j = choose|j: int| 0 <= j < done && #[trigger] all[j].0@ == l;
                        assert(0 <= j < done + 1 && #[trigger] all[j].0@ == l);
                    }
                }
                assert forall|i: int| 0 <= i < done + 1 implies has_label(
                    self.clients(),
                    #[trigger] all[i].0@,
                ) by {
                    if i < done {
                        assert(has_label(before, all[i].0@));
                    } else {
                        assert(all[i].0@ == label@);
                    }
                }
                let pre = all.subrange(0, done);
                let ext = all.subrange(0, done + 1);
                assert forall|i: int|
                    0 <= i < done + 1 && last_for_label(ext, i) implies (client_with_label(
                        self.clients(),
                        #[trigger] all[i].0@,
                    ) matches Some(c) && (c.connected() <==> all[i].1 is Some)) by {
                    if i < done {
                        assert(ext[done] == all[done]);
                        assert(all[i].0@ != all[done].0@);
                        assert(last_for_label(pre, i)) by {
                            assert forall|j: int| i < j < pre.len() implies #[trigger] pre[j].0@
                                != pre[i].0@ by {
                                assert(pre[j] == ext[j]);
                            }
                        }
                        assert(all[i].0@ != label@);
                    } else {
                        assert(all[i].0@ == label@);
                    }
                }
                done = done + 1;
            }
        }
        proof {
            assert(all.subrange(done, all.len() as int).len() == 0);
            assert(done == all.len());
            assert(all.subrange(0, done) =~= all);
        }
        Ok(())
    }

    /// Loads every client whose storage the database holds: each tree whose name is
    /// text, other than the default tree, in the order `get_client_labels_from_db`
    /// lists them. `answers` says what each federation answered to the config its tree
    /// holds; a label that `answers` does not name is taken as not answered. Stops at
    /// the first label that fails to load; the labels loaded before it stay loaded.
    pub fn load_clients(&mut self, answers: Vec<(String, Option<FederationInfo>)>) -> (r: Result<
        (),
        BridgeError,
    >)
        requires
            old(self).wf(),
        ensures
            final(self).wf(),
            final(self).tree_names() == old(self).tree_names(),
            r is Ok ==> forall|l: Seq<char>|
                #[trigger] has_label(final(self).clients(), l) <==> (has_label(old(self).clients(), l)
                    || client_tree_labels(old(self).tree_names()).contains(l)),
            r matches Err(e) ==> exists|l: Seq<char>|
                #[trigger] client_tree_labels(old(self).tree_names()).contains(l) && load_failed(
                    old(self).clients(),
                    final(self).known_trees(),
                    l,
                    e,
                ),
            r matches Err(e) ==> e is ClientAlreadyExists || e is NoConfigString || e is CorruptRecord
                || e is Database,
            (forall|l: Seq<char>|
                #[trigger] client_tree_labels(old(self).tree_names()).contains(l) ==> holds_loadable(
                    old(self).known_trees(),
                    old(self).trees_in_use(),
                    l,
                ) && !has_label(old(self).clients(), l)) ==> (r is Ok || (r matches Err(e)
                && e is Database)),
            r is Ok ==> forall|l: Seq<char>|
                #[trigger] client_tree_labels(old(self).tree_names()).contains(l) && !has_label(
                    old(self).clients(),
                    l,
                ) ==> (client_with_label(final(self).clients(), l) matches Some(c) && (c.connected()
                    <==> answered(answers@, l))),
    {
        let ghost orig = self.clients();
        let ghost names0 = self.tree_names();
        let ghost tl = client_tree_labels(names0);
        let ghost good = forall|l: Seq<char>|
            #[trigger] client_tree_labels(old(self).tree_names()).contains(l) ==> holds_loadable(
                old(self).known_trees(),
                old(self).trees_in_use(),
                l,
            ) && !has_label(old(self).clients(), l);
        let labels = self.get_client_labels_from_db();
        let mut i: usize = 0;
        while i < labels.len()
            invariant
                self.wf(),
                self.tree_names() == names0,
                orig == old(self).clients(),
                names0 == old(self).tree_names(),
                tl == client_tree_labels(names0),
                i <= labels@.len(),
                forall|j: int| 0 <= j < labels@.len() ==> tl.contains(#[trigger] labels@[j]@),
                forall|l: Seq<char>| #[trigger]
                    tl.contains(l) ==> exists|j: int| 0 <= j < labels@.len() && #[trigger] labels@[j]@ == l,
                forall|a: int, c: int| 0 <= a < c < labels@.len() ==> #[trigger] labels@[a]@ != #[trigger] labels@[c]@,
                forall|l: Seq<char>|
                    #[trigger] has_label(self.clients(), l) <==> (has_label(orig, l) || exists|j: int|
                        0 <= j < i && #[trigger] labels@[j]@ == l),
                good == (forall|l: Seq<char>|
                    #[trigger] client_tree_labels(old(self).tree_names()).contains(l) ==> holds_loadable(
                        old(self).known_trees(),
                        old(self).trees_in_use(),
                        l,
                    ) && !has_label(old(self).clients(), l)),
                forall|j: int|
                    0 <= j < i && !has_label(orig, #[trigger] labels@[j]@) ==> (client_with_label(
                        self.clients(),
                        labels@[j]@,
                    ) matches Some(c) && (c.connected() <==> answered(answers@, labels@[j]@))),
                good ==> forall|j: int|
                    i <= j < labels@.len() ==> holds_loadable(
                        self.known_trees(),
                        self.trees_in_use(),
                        #[trigger] labels@[j]@,
                    ) && !has_label(self.clients(), labels@[j]@),
            decreases labels@.len() - i,
        {
            let label = labels[i].as_str();
            let info = answer_for(&answers, &labels[i]);
            let ghost before = self.clients();
            let ghost known0 = self.known_trees();
            let ghost use0 = self.trees_in_use();
            let ghost b = encode_utf8(labels@[i as int]@);
            proof {
                // The label's tree is among the database's trees.
                assert(tl.contains(labels@[i as int]@));
                let n = choose|n: Seq<u8>| #[trigger] names0.contains(n) && valid_utf8(n) && decode_utf8(n) == labels@[i as int]@;
                decode_utf8_encode_utf8(n);
                assert(names0.contains(b));
                assert(names0.insert(b) =~= names0);
            }
            let ghost pre_ok = holds_loadable(known0, use0, labels@[i as int]@) && !has_label(
                before,
                labels@[i as int]@,
            );
            proof {
                if good {
                    assert(pre_ok);
                }
            }
            match self.load_client(label, info) {
                Ok(()) => {},
                Err(e) => {
                    proof {
                        if good {
                            assert(e is Database);
                        }
                        let l = labels@[i as int]@;
                        if e is ClientAlreadyExists {
                            assert(has_label(before, l));
                            if !has_label(orig, l) {
                                let k = choose|k: int| 0 <= k < i && #[trigger] labels@[k]@ == l;
                                assert(labels@[k]@ != labels@[i as int]@);
                            }
                        }
                        assert(load_failed(orig, self.known_trees(), l, e));
                    }
                    return Err(e);
                },
            }
            proof {
                let l = labels@[i as int]@;
                assert forall|m: Seq<char>|
                    #[trigger] has_label(self.clients(), m) <==> (has_label(orig, m) || exists|k: int|
                        0 <= k < i + 1 && #[trigger] labels@[k]@ == m) by {
                    if m == l {
                        assert(labels@[i as int]@ == m);
                    }
                    if exists|k: int| 0 <= k < i + 1 && #[trigger] labels@[k]@ == m {
                        let k = choose|k: int| 0 <= k < i + 1 && #[trigger] labels@[k]@ == m;
                        if k < i {
                            assert(exists|k2: int| 0 <= k2 < i && #[trigger] labels@[k2]@ == m);
                        }
                    }
                    if has_label(before, m) && !has_label(orig, m) {
                        let k = choose|k: int| 0 <= k < i && #[trigger] labels@[k]@ == m;
                        assert(0 <= k < i + 1 && labels@[k]@ == m);
                    }
                }
                if good {
                    assert forall|j: int| i + 1 <= j < labels@.len() implies holds_loadable(
                        self.known_trees(),
                        self.trees_in_use(),
                        #[trigger] labels@[j]@,
                    ) && !has_label(self.clients(), labels@[j]@) by {
                        let lj = labels@[j]@;
                        let bj = encode_utf8(lj);
                        assert(lj != l);
                        if bj == b {
                            encode_utf8_decode_utf8(lj);
                            encode_utf8_decode_utf8(l);
                        }
                        assert(holds_loadable(known0, use0, lj));
                        assert(known0.remove(b).contains_key(bj));
                        assert(self.known_trees().remove(b).contains_key(bj));
                        assert(self.known_trees()[bj] == self.known_trees().remove(b)[bj]);
                        assert(known0[bj] == known0.remove(b)[bj]);
                        assert(!has_label(before, lj));
                    }
                }
            }
            i = i + 1;
        }
        proof {
            assert forall|l: Seq<char>|
                #[trigger] has_label(self.clients(), l) <==> (has_label(orig, l) || tl.contains(l)) by {
                if tl.contains(l) {
                    let k = choose|k: int| 0 <= k < labels@.len() && #[trigger] labels@[k]@ == l;
                    assert(0 <= k < i && labels@[k]@ == l);
                }
                if exists|j: int| 0 <= j < i && #[trigger] labels@[j]@ == l {
                    let j = choose|j: int| 0 <= j < i && #[trigger] labels@[j]@ == l;
                    assert(tl.contains(labels@[j]@));
                }
            }
        }
        Ok(())
    }

    /// Stores `user_data` for the client kept under `label`.
    pub fn save_user_data_for_client(&mut self, label: &str, user_data: &str) -> (r: Result<
        (),
        BridgeError,
    >)
        requires
            old(self).wf(),
        ensures
            final(self).wf(),
            labels_of(final(self).clients()) == labels_of(old(self).clients()),
            old(self).clients().len() == 0 ==> (r matches Err(e) && e is JoinFederationFirst),
            old(self).clients().len() > 0 && !has_label(old(self).clients(), label@) ==> (r matches Err(
                e,
            ) && e is NoSuchClient),
            r is Ok ==> (client_with_label(old(self).clients(), label@) matches Some(c) && (
            client_with_label(final(self).clients(), label@) matches Some(d) && c.same_but_storage(&d)
                && (c.connected() ==> d.entries() == c.entries().insert(
                crate::client::user_data_key(),
                vstd::utf8::encode_utf8(user_data@),
            )))),
            r is Ok ==> user_data_saved(old(self).clients(), final(self).clients(), label@, user_data@),
    {
        if self.clients.len() == 0 {
            return Err(BridgeError::JoinFederationFirst);
        }
        let i = match self.find(label) {
            Some(i) => i,
            None => {
                return Err(BridgeError::NoSuchClient);
            },
        };
        let ghost before = self.clients@;
        let mut c = self.clients.remove(i);
        let res = c.save_user_data(user_data);
        let ghost d = c;
        self.clients.insert(i, c);
        proof {
            assert(self.clients@ =~= before.update(i as int, d));
            assert(labels_of(self.clients@) =~= labels_of(before));
            assert forall|a: int, b: int|
                0 <= a < b < self.clients@.len() implies #[trigger] self.clients@[a].label@
                != #[trigger] self.clients@[b].label@ by {
                assert(labels_of(self.clients@)[a] == labels_of(before)[a]);
                assert(labels_of(self.clients@)[b] == labels_of(before)[b]);
            }
            lemma_client_with_label(before, i as int);
            lemma_client_with_label(self.clients@, i as int);
        }
        res
    }

    /// The user data of the client kept under `label`; `None` where there is no such
    /// client or no data.
    pub fn fetch_user_data_for_client(&self, label: &str) -> (r: Option<String>)
        requires
            self.wf(),
        ensures
            r matches Some(s) ==> client_with_label(self.clients(), label@) matches Some(c)
                && c.connected() && crate::client::stored_user_data(c.entries()) == Some(s@),
            !has_label(self.clients(), label@) ==> r is None,
            fetched_user_data(self.clients(), label@, crate::client::opt_text(r)),
    {
        match self.get_client_by_label(label) {
            Ok(c) => c.fetch_user_data(),
            Err(_) => None,
        }
    }

    /// Drops the storage tree of the client `label`. Always answers `Ok(false)` when
    /// the storage did not fail.
    pub fn delete_client_database(&mut self, label: &str) -> (r: Result<bool, BridgeError>)
        requires
            old(self).wf(),
        ensures
            final(self).wf(),
            final(self).clients() == old(self).clients(),
            r matches Ok(b) ==> !b && final(self).tree_names() == old(self).tree_names().remove(
                vstd::utf8::encode_utf8(label@),
            ),
            r matches Err(e) ==> e is Database,
    {
        match self.db.drop_tree(label) {
            Ok(_) => Ok(false),
            Err(e) => Err(BridgeError::Database(e)),
        }
    }

    /// The position of the client kept under `label`.
    pub(crate) fn position(&self, label: &str) -> (r: Result<usize, BridgeError>)
        requires
            self.wf(),
        ensures
            self.clients().len() == 0 ==> (r matches Err(e) && e is JoinFederationFirst),
            self.clients().len() > 0 && !has_label(self.clients(), label@) ==> (r matches Err(e)
                && e is NoSuchClient),
            r matches Ok(i) ==> i < self.clients().len() && self.clients()[i as int].label@ == label@
                && client_with_label(self.clients(), label@) == Some(self.clients()[i as int]),
            r matches Err(e) ==> (e is JoinFederationFirst || e is NoSuchClient) && !has_label(
                self.clients(),
                label@,
            ),
    {
        if self.clients.len() == 0 {
            return Err(BridgeError::JoinFederationFirst);
        }
        match self.find(label) {
            Some(i) => {
                proof {
                    lemma_client_with_label(self.clients@, i as int);
                }
                Ok(i)
            },
            None => Err(BridgeError::NoSuchClient),
        }
    }

    /// Takes the client at position `i` out, to be put back with `put_back`.
    pub(crate) fn take_client(&mut self, i: usize) -> (c: Client)
        requires
            old(self).wf(),
            i < old(self).clients().len(),
        ensures
            c == old(self).clients()[i as int],
            final(self).clients() == old(self).clients().remove(i as int),
            final(self).tree_names() == old(self).tree_names(),
            final(self).db_id() == old(self).db_id(),
            final(self).db_inv(),
    {
        self.clients.remove(i)
    }

    /// Puts a client taken out with `take_client` back at its position.
    pub(crate) fn put_back(&mut self, i: usize, c: Client)
        requires
            i <= old(self).clients().len(),
            unique_labels(old(self).clients().insert(i as int, c)),
            owned_storage(old(self).clients().insert(i as int, c), old(self).db_id()),
            old(self).db_inv(),
        ensures
            final(self).wf(),
            final(self).clients() == old(self).clients().insert(i as int, c),
            final(self).tree_names() == old(self).tree_names(),
    {
        self.clients.insert(i, c);
    }
}

/// Whether `name` is the name of the default tree.
fn is_default_tree_name(name: &str) -> (r: bool)
    ensures
        r == (name@ == default_tree_name()),
{
    let d = "__sled__default";
    proof {
        reveal_strlit("__sled__default");
        assert(d@ =~= default_tree_name());
    }
    let s = name.to_string();
    let t = d.to_string();
    s == t
}

/// With unique labels, the client with the label of position `i` is the one there.
pub proof fn lemma_client_with_label(clients: Seq<Client>, i: int)
    requires
        unique_labels(clients),
        0 <= i < clients.len(),
    ensures
        has_label(clients, clients[i].label@),
        client_with_label(clients, clients[i].label@) == Some(clients[i]),
{
    let l = clients[i].label@;
    assert(has_label(clients, l));
    let j = choose|j: int| 0 <= j < clients.len() && #[trigger] clients[j].label@ == l;
    if j != i {
        if j < i {
            assert(clients[j].label@ != clients[i].label@);
        } else {
            assert(clients[i].label@ != clients[j].label@);
        }
    }
}

/// Filtering out a label that no client has changes nothing.
proof fn lemma_filter_none(clients: Seq<Client>, label: Seq<char>)
    requires
        !has_label(clients, label),
    ensures
        without_label(clients, label) == clients,
    decreases clients.len(),
{
    if clients.len() == 0 {
        reveal_with_fuel(Seq::filter, 1);
        assert(without_label(clients, label) =~= clients);
    } else {
        let init = clients.drop_last();
        assert(!has_label(init, label)) by {
            if has_label(init, label) {
                let k = choose|k: int| 0 <= k < init.len() && #[trigger] init[k].label@ == label;
                assert(clients[k].label@ == label);
            }
        }
        lemma_filter_none(init, label);
        assert(clients.last().label@ != label);
        assert(init.push(clients.last()) =~= clients);
        init.lemma_filter_push(clients.last(), not_labelled(label));
    }
}

/// Removing the unique client with a label is filtering that label out.
proof fn lemma_remove_unique(clients: Seq<Client>, i: int)
    requires
        unique_labels(clients),
        0 <= i < clients.len(),
    ensures
        clients.remove(i) == without_label(clients, clients[i].label@),
        unique_labels(clients.remove(i)),
{
    let l = clients[i].label@;
    let pre = clients.subrange(0, i);
    let post = clients.subrange(i + 1, clients.len() as int);
    assert(clients =~= pre + seq![clients[i]] + post);
    assert(clients.remove(i) =~= pre + post);
    assert(!has_label(pre, l)) by {
        if has_label(pre, l) {
            let k = choose|k: int| 0 <= k < pre.len() && #[trigger] pre[k].label@ == l;
            assert(clients[k].label@ == l);
        }
    }
    assert(!has_label(post, l)) by {
        if has_label(post, l) {
            let k = choose|k: int| 0 <= k < post.len() && #[trigger] post[k].label@ == l;
            assert(clients[i + 1 + k].label@ == l);
        }
    }
    lemma_filter_none(pre, l);
    lemma_filter_none(post, l);
    let p = not_labelled(l);
    Seq::filter_distributes_over_add(pre + seq![clients[i]], post, p);
    Seq::filter_distributes_over_add(pre, seq![clients[i]], p);
    assert(seq![clients[i]].filter(p) =~= Seq::<Client>::empty()) by {
        Seq::<Client>::empty().lemma_filter_push(clients[i], p);
        assert(Seq::<Client>::empty().push(clients[i]) =~= seq![clients[i]]);
        reveal_with_fuel(Seq::filter, 1);
    }
    assert(pre + Seq::<Client>::empty() =~= pre);
    assert forall|a: int, b: int|
        0 <= a < b < clients.remove(i).len() implies #[trigger] clients.remove(i)[a].label@
        != #[trigger] clients.remove(i)[b].label@ by {
        let ai = if a < i { a } else { a + 1 };
        let bi = if b < i { b } else { b + 1 };
        let r = pre + post;
        assert(clients.remove(i) == r);
        if a < i {
            assert(r[a] == pre[a]);
        } else {
            assert(r[a] == post[a - i]);
        }
        if b < i {
            assert(r[b] == pre[b]);
        } else {
            assert(r[b] == post[b - i]);
        }
        assert(clients[ai].label@ != clients[bi].label@);
    }
}

// ---------------------------------------------------------------------------
// Laws of the client registry.
// ---------------------------------------------------------------------------

/// A client added under a fresh label is found under it.
pub proof fn law_add_then_get(clients: Seq<Client>, c: Client)
    requires
        unique_labels(clients),
        !has_label(clients, c.label@),
    ensures
        unique_labels(clients.push(c)),
        has_label(clients.push(c), c.label@),
        client_with_label(clients.push(c), c.label@) == Some(c),
{
    let s = clients.push(c);
    assert forall|i: int, j: int| 0 <= i < j < s.len() implies #[trigger] s[i].label@ != #[trigger] s[j].label@ by {
        if j == s.len() - 1 {
            assert(s[i] == clients[i]);
        } else {
            assert(s[i] == clients[i]);
            assert(s[j] == clients[j]);
        }
    }
    lemma_client_with_label(s, s.len() - 1);
}

/// Removing a client that was just added restores the clients as they were.
pub proof fn law_remove_undoes_add(clients: Seq<Client>, c: Client)
    requires
        unique_labels(clients),
        !has_label(clients, c.label@),
    ensures
        without_label(clients.push(c), c.label@) == clients,
{
    lemma_filter_none(clients, c.label@);
    clients.lemma_filter_push(c, not_labelled(c.label@));
}

/// After a removal no client is kept under the label, and the others are kept.
pub proof fn law_remove_then_absent(clients: Seq<Client>, label: Seq<char>, other: Seq<char>)
    requires
        unique_labels(clients),
        other != label,
    ensures
        !has_label(without_label(clients, label), label),
        has_label(clients, other) ==> has_label(without_label(clients, label), other),
{
    let p = not_labelled(label);
    let f = clients.filter(p);
    if has_label(f, label) {
        let k = choose|k: int| 0 <= k < f.len() && #[trigger] f[k].label@ == label;
        clients.lemma_filter_pred(p, k);
    }
    if has_label(clients, other) {
        let k = choose|k: int| 0 <= k < clients.len() && #[trigger] clients[k].label@ == other;
        clients.lemma_filter_contains(p, k);
        assert(f.contains(clients[k]));
        let m = choose|m: int| 0 <= m < f.len() && f[m] == clients[k];
        assert(f[m].label@ == other);
    }
}

} // verus!
