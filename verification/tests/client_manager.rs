use minimint_bridge::client::{Client, ConfigKey, ConnectionStatus, FederationInfo, Network};
use minimint_bridge::client_manager::ClientManager;
use minimint_bridge::database::SledDatabase;
use minimint_bridge::error::BridgeError;

const CLIENT_DB_FILENAME: &str = "client.db";

fn db_path(name: &str) -> String {
    let nanos = std::time::SystemTime::now()
        .duration_since(std::time::UNIX_EPOCH)
        .unwrap()
        .as_nanos();
    format!("/tmp/minimint_bridge_tests/{}_{}/{}", name, nanos, CLIENT_DB_FILENAME)
}

/// The guardians that a federation config lists.
fn members_of(config: &str) -> Vec<(u16, String)> {
    let v: serde_json::Value = serde_json::from_str(config).unwrap();
    v["members"]
        .as_array()
        .unwrap()
        .iter()
        .map(|m| (m[0].as_u64().unwrap() as u16, m[1].as_str().unwrap().to_string()))
        .collect()
}

/// What a reachable federation answers.
fn signet_info() -> FederationInfo {
    FederationInfo {
        federation_name: String::from("Sirion signet"),
        network: Network::Signet,
        balance_msat: 12_345_678,
    }
}

/// Loads every client stored in the manager's database; the federation whose guardian
/// runs on fm-signet.sirion.io answers, the others do not.
fn load_all(client_manager: &mut ClientManager) -> Result<(), BridgeError> {
    let labels = client_manager.get_client_labels_from_db();
    let mut answers = Vec::new();
    for label in labels {
        let cfg = client_manager.stored_config(&label)?;
        let info = match cfg {
            Some(c) if c.contains("fm-signet.sirion.io") => Some(signet_info()),
            _ => None,
        };
        answers.push((label, info));
    }
    client_manager.load_clients(answers)
}

#[test]
fn test_init() {
    let db = SledDatabase::open(&db_path("init")).ok().unwrap();
    let mut client_manager = ClientManager::new(db);
    let r = load_all(&mut client_manager);
    assert!(r.is_ok());
}

#[test]
fn test_init_with_data() {
    let mut db = SledDatabase::open(&db_path("init_with_data")).ok().unwrap();

    let client_label1 = "7d2ce1a7dec8";
    let client_label2 = "0cde707b67f2";

    // create dummy entry in client tree so it can be restored in
    // client_manager.load()
    if let Ok(mut tree) = db.open_tree(client_label1) {
        tree.raw_insert_entry(
            &ConfigKey::db_key(),
            String::from("{\"members\":[[0,\"wss://fm-signet.sirion.io:443\"]]}").into_bytes(),
        )
        .unwrap();
        db.close_tree(tree);
    }
    if let Ok(mut tree) = db.open_tree(client_label2) {
        tree.raw_insert_entry(
            &ConfigKey::db_key(),
            String::from("{\"members\":[[0,\"ws://foobar.nonexisting\"]]}").into_bytes(),
        )
        .unwrap();
        db.close_tree(tree);
    }
    let mut client_manager = ClientManager::new(db);
    let r = load_all(&mut client_manager);

    assert!(r.is_ok());

    let client_labels = client_manager.get_client_labels();
    assert!(client_labels.contains(&String::from(client_label1)));
    assert!(client_labels.contains(&String::from(client_label2)));

    if let Ok(client) = client_manager.get_client_by_label(client_label1) {
        assert_eq!(client.connection_status, ConnectionStatus::Connected);
    } else {
        assert!(false);
    }

    if let Ok(client) = client_manager.get_client_by_label(client_label2) {
        assert_eq!(client.connection_status, ConnectionStatus::NotConnected);
    } else {
        assert!(false);
    }
}

#[test]
fn test_clients() {
    let db = SledDatabase::open(&db_path("clients")).ok().unwrap();
    let mut client_manager = ClientManager::new(db);
    let r = load_all(&mut client_manager);
    assert!(r.is_ok());

    let expected_label = "7d2ce1a7dec8";
    let user_data: &str = "{\"foo\":\"bar\"}";

    let config = "{\"members\":[[0,\"wss://fm-signet.sirion.io:443\"]]}";
    let r = client_manager.add_client(config, &members_of(config), Some(signet_info()));
    assert!(r.is_ok());
    assert_eq!(expected_label, r.unwrap());
    let config = "{\"members\":[[0,\"wss://fm-signet.sirion.io\"]]}";
    let r = client_manager.add_client(config, &members_of(config), Some(signet_info()));
    assert!(r.is_err());

    let client = client_manager.get_client_by_label(expected_label);
    assert!(client.is_ok());
    assert_eq!(client.unwrap().label.clone(), expected_label);

    let client_labels = client_manager.get_client_labels();
    assert!(client_labels.contains(&String::from(expected_label)));

    let r = client_manager.save_user_data_for_client(expected_label, user_data);

    assert!(r.is_ok());

    let v = client_manager.fetch_user_data_for_client(expected_label);

    assert!(v.is_some());
    assert_eq!(v.unwrap(), user_data);

    client_manager.remove_client(expected_label).unwrap();
}

#[test]
fn adding_twice_is_refused() {
    let db = SledDatabase::open(&db_path("twice")).ok().unwrap();
    let mut cm = ClientManager::new(db);
    let config = "{\"members\":[[0,\"wss://fm-signet.sirion.io:443\"]]}";
    assert!(cm.add_client(config, &members_of(config), None).is_ok());
    let r = cm.add_client(config, &members_of(config), None);
    assert!(matches!(r, Err(BridgeError::ClientAlreadyExists)));
    assert_eq!(cm.get_client_count(), 1);
}

#[test]
fn invalid_federation_code_is_refused() {
    let db = SledDatabase::open(&db_path("invalid_code")).ok().unwrap();
    let mut cm = ClientManager::new(db);
    let r = cm.add_client("{\"members\":[[0,\"nope\"]]}", &vec![(0, String::from("nope"))], None);
    assert!(matches!(r, Err(BridgeError::InvalidFederationCode)));
    assert_eq!(cm.get_client_count(), 0);
}

#[test]
fn lookups_on_empty_and_missing() {
    let db = SledDatabase::open(&db_path("lookups")).ok().unwrap();
    let mut cm = ClientManager::new(db);
    assert!(matches!(cm.get_client_by_label("x"), Err(BridgeError::JoinFederationFirst)));
    let config = "{\"members\":[[0,\"ws://foobar.nonexisting\"]]}";
    cm.add_client(config, &members_of(config), None).unwrap();
    assert!(matches!(cm.get_client_by_label("x"), Err(BridgeError::NoSuchClient)));
    assert!(cm.client_exists("f94ecec7113c"));
    assert!(!cm.client_exists("x"));
}

#[test]
fn remove_undoes_add() {
    let db = SledDatabase::open(&db_path("remove_undoes_add")).ok().unwrap();
    let mut cm = ClientManager::new(db);
    let a = "{\"members\":[[0,\"wss://a.example\"]]}";
    let b = "{\"members\":[[0,\"wss://b.example\"]]}";
    let la = cm.add_client(a, &members_of(a), None).unwrap();
    let before = cm.get_client_labels();
    let lb = cm.add_client(b, &members_of(b), None).unwrap();
    assert_eq!(cm.get_client_labels(), vec![la.clone(), lb.clone()]);
    cm.remove_client(&lb).unwrap();
    assert_eq!(cm.get_client_labels(), before);
    assert!(!cm.client_exists(&lb));
    assert!(matches!(cm.remove_client(&lb), Err(BridgeError::ClientDoesNotExist)));
}

#[test]
fn unreachable_federation_keeps_no_user_data() {
    let db = SledDatabase::open(&db_path("unreachable")).ok().unwrap();
    let mut cm = ClientManager::new(db);
    let config = "{\"members\":[[0,\"ws://foobar.nonexisting\"]]}";
    let label = cm.add_client(config, &members_of(config), None).unwrap();
    let c = cm.get_client_by_label(&label).unwrap();
    assert_eq!(c.connection_status, ConnectionStatus::NotConnected);
    assert_eq!(c.balance(), 0);
    assert_eq!(c.federation_name(), None);
    assert_eq!(c.network(), None);
    assert!(cm.save_user_data_for_client(&label, "data").is_ok());
    assert_eq!(cm.fetch_user_data_for_client(&label), None);
}

#[test]
fn connected_client_reports_federation() {
    let db = SledDatabase::open(&db_path("connected")).ok().unwrap();
    let mut cm = ClientManager::new(db);
    let config = "{\"members\":[[0,\"wss://fm-signet.sirion.io:443\"]]}";
    let label = cm.add_client(config, &members_of(config), Some(signet_info())).unwrap();
    let c = cm.get_client_by_label(&label).unwrap();
    assert_eq!(c.connection_status, ConnectionStatus::Connected);
    assert_eq!(c.balance(), 12_345);
    assert_eq!(c.federation_name(), Some(String::from("Sirion signet")));
    assert_eq!(c.network(), Some(Network::Signet));
    assert_eq!(c.cfg_json, config);
    assert_eq!(c.fetch_user_data(), None);
}

#[test]
fn client_storage_survives_reload() {
    let path = db_path("reload");
    let config = "{\"members\":[[0,\"wss://fm-signet.sirion.io:443\"]]}";
    {
        let db = SledDatabase::open(&path).ok().unwrap();
        let mut cm = ClientManager::new(db);
        let label = cm.add_client(config, &members_of(config), Some(signet_info())).unwrap();
        cm.save_user_data_for_client(&label, "kept").unwrap();
    }
    let db = SledDatabase::open(&path).ok().unwrap();
    let mut cm = ClientManager::new(db);
    assert_eq!(cm.get_client_labels_from_db(), vec![String::from("7d2ce1a7dec8")]);
    load_all(&mut cm).unwrap();
    let c = cm.get_client_by_label("7d2ce1a7dec8").unwrap();
    assert_eq!(c.cfg_json, config);
    assert_eq!(c.fetch_user_data(), Some(String::from("kept")));
}

#[test]
fn loading_a_tree_without_config_fails() {
    let mut db = SledDatabase::open(&db_path("no_config")).ok().unwrap();
    let t = db.open_tree("abcdefabcdef").unwrap();
    db.close_tree(t);
    let mut cm = ClientManager::new(db);
    let r = load_all(&mut cm);
    assert!(matches!(r, Err(BridgeError::NoConfigString)));
}

#[test]
fn delete_client_database_drops_tree() {
    let db = SledDatabase::open(&db_path("delete_db")).ok().unwrap();
    let mut cm = ClientManager::new(db);
    let config = "{\"members\":[[0,\"wss://a.example\"]]}";
    let label = cm.add_client(config, &members_of(config), None).unwrap();
    assert_eq!(cm.get_client_labels_from_db(), vec![label.clone()]);
    assert_eq!(cm.delete_client_database(&label).unwrap(), false);
    assert!(cm.get_client_labels_from_db().is_empty());
}

#[test]
fn try_load_without_config() {
    let mut db = SledDatabase::open(&db_path("try_load")).ok().unwrap();
    let tree = db.open_tree("t").unwrap();
    assert!(matches!(Client::try_load(tree, "t", None), Err(BridgeError::NoConfigString)));
}

#[test]
fn fresh_tree_holds_no_config() {
    let db = SledDatabase::open(&db_path("fresh_tree")).ok().unwrap();
    let mut client_manager = ClientManager::new(db);
    assert!(matches!(client_manager.stored_config("0cde707b67f2"), Ok(None)));
    assert!(matches!(
        client_manager.load(vec![(String::from("0cde707b67f2"), None)]),
        Err(BridgeError::NoConfigString)
    ));
}

#[test]
fn load_clients_stops_at_a_tree_without_config() {
    let mut db = SledDatabase::open(&db_path("load_stop")).ok().unwrap();
    let t = db.open_tree("abcdefabcdef").unwrap();
    db.close_tree(t);
    let mut cm = ClientManager::new(db);
    let r = cm.load_clients(vec![]);
    assert!(matches!(r, Err(BridgeError::NoConfigString)));
    assert_eq!(cm.get_client_count(), 0);
}

#[test]
fn load_clients_takes_unnamed_answers_as_unanswered() {
    let mut db = SledDatabase::open(&db_path("load_unanswered")).ok().unwrap();
    let mut t = db.open_tree("0cde707b67f2").unwrap();
    t.raw_insert_entry(&ConfigKey::db_key(), b"{\"members\":[]}".to_vec()).unwrap();
    db.close_tree(t);
    let mut cm = ClientManager::new(db);
    assert!(cm.load_clients(vec![]).is_ok());
    let c = cm.get_client_by_label("0cde707b67f2").unwrap();
    assert_eq!(c.connection_status, ConnectionStatus::NotConnected);
}
