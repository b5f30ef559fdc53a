use darkdb::collection::Collection;
use darkdb::database::Database;
use darkdb::value::deep_eq;
use darkdb::value::JsonVal;
use darkdb::DbError;

fn obj(key: &str, val: &str) -> JsonVal {
    JsonVal::Obj(vec![(key.to_string(), JsonVal::Str(val.to_string()))])
}

#[test]
fn insert_then_find_returns_the_stored_record() {
    let mut c = Collection::new("users".to_string());
    let payload = obj("name", "a");
    let d = c.insert_with("id-1".to_string(), obj("name", "a"), None, 1000);
    assert_eq!(d.id, "id-1");
    assert_eq!(d.created_at, 1000);
    assert_eq!(d.updated_at, 1000);
    assert!(d.expires_at.is_none());
    let found = c.find("id-1").expect("inserted document must be found");
    assert!(deep_eq(&found.data, &payload));
    assert_eq!(found.id, d.id);
    assert_eq!(found.created_at, d.created_at);
}

#[test]
fn insert_generates_distinct_hyphenated_ids() {
    let mut c = Collection::new("users".to_string());
    let d1 = c.insert(obj("name", "a"), None);
    let d2 = c.insert(obj("name", "b"), None);
    assert_eq!(d1.id.len(), 36);
    assert_eq!(d2.id.len(), 36);
    assert_ne!(d1.id, d2.id);
    assert!(c.find(&d1.id).is_some());
    assert!(c.find(&d2.id).is_some());
}

#[test]
fn update_replaces_data_and_advances_updated_at() {
    let mut c = Collection::new("users".to_string());
    c.insert_with("id-1".to_string(), obj("name", "a"), None, 1000);
    let d2 = c
        .update_with("id-1", obj("name", "b"), 2000)
        .expect("update of a present id succeeds");
    assert_eq!(d2.id, "id-1");
    assert_eq!(d2.created_at, 1000);
    assert_eq!(d2.updated_at, 2000);
    assert!(deep_eq(&d2.data, &obj("name", "b")));
    let found = c.find("id-1").unwrap();
    assert!(deep_eq(&found.data, &obj("name", "b")));
    assert_eq!(found.updated_at, 2000);
}

#[test]
fn update_of_missing_id_fails_with_not_found() {
    let mut c = Collection::new("users".to_string());
    let r = c.update_with("ghost", obj("name", "b"), 2000);
    assert_eq!(r.unwrap_err(), DbError::NotFound);
}

#[test]
fn delete_then_find_is_absent_and_second_delete_fails() {
    let mut c = Collection::new("users".to_string());
    c.insert_with("id-1".to_string(), obj("name", "a"), None, 1000);
    assert!(c.delete("id-1").is_ok());
    assert!(c.find("id-1").is_none());
    assert_eq!(c.delete("id-1").unwrap_err(), DbError::NotFound);
}

#[test]
fn snapshot_roundtrip_restores_the_same_documents() {
    let mut c = Collection::new("users".to_string());
    let nested = JsonVal::Obj(vec![
        ("s".to_string(), JsonVal::Str("quo\"te\\back".to_string())),
        (
            "list".to_string(),
            JsonVal::Arr(vec![
                JsonVal::Int(-42),
                JsonVal::Bool(true),
                JsonVal::Null,
                JsonVal::Int(i64::MAX),
            ]),
        ),
    ]);
    c.insert_with("id-1".to_string(), nested, None, 1000);
    c.insert_with("id-2".to_string(), obj("name", "b"), Some(60), 2000);
    c.insert_with("id-3".to_string(), JsonVal::Int(i64::MIN), None, 3000);
    let text = c.snapshot();
    let c2 = Collection::from_snapshot("users".to_string(), &text)
        .expect("a written snapshot reads back");
    assert_eq!(c2.find_all().len(), 3);
    for id in ["id-1", "id-2", "id-3"] {
        let a = c.find(id).unwrap();
        let b = c2.find(id).unwrap();
        assert!(deep_eq(&a.data, &b.data));
        assert_eq!(a.created_at, b.created_at);
        assert_eq!(a.updated_at, b.updated_at);
        assert_eq!(a.expires_at, b.expires_at);
    }
}

#[test]
fn expired_documents_vanish_after_a_sweep() {
    let mut c = Collection::new("users".to_string());
    let d = c.insert_with("id-1".to_string(), obj("name", "a"), Some(1), 1000);
    assert_eq!(d.expires_at, Some(2000));
    assert!(c.find("id-1").is_some());
    // Still live strictly before the expiry instant.
    assert!(!c.sweep(1500));
    assert!(c.find("id-1").is_some());
    // At the expiry instant the document is no longer live.
    assert!(c.sweep(2000));
    assert!(c.find("id-1").is_none());
    let text = c.snapshot();
    assert!(!text.contains("id-1"));
}

#[test]
fn zero_or_negative_ttl_expires_immediately() {
    let mut c = Collection::new("users".to_string());
    c.insert_with("id-0".to_string(), obj("name", "a"), Some(0), 1000);
    c.insert_with("id-neg".to_string(), obj("name", "b"), Some(-5), 1000);
    assert!(c.sweep(1000));
    assert!(c.find("id-0").is_none());
    assert!(c.find("id-neg").is_none());
}

#[test]
fn many_inserts_keep_every_record() {
    let mut c = Collection::new("users".to_string());
    let mut ids: Vec<String> = Vec::new();
    for i in 0..20 {
        let d = c.insert(JsonVal::Int(i), None);
        ids.push(d.id);
    }
    for a in 0..ids.len() {
        for b in (a + 1)..ids.len() {
            assert_ne!(ids[a], ids[b]);
        }
    }
    assert_eq!(c.find_all().len(), 20);
    for id in &ids {
        assert!(c.find(id).is_some());
    }
}

#[test]
fn database_scenario_over_one_collection() {
    let mut db = Database::new("data".to_string());
    let i = db.collection("users");
    let col = db.collection_mut(i);
    let d = col.insert(obj("name", "a"), None);
    assert!(d.expires_at.is_none());
    let found = col.find(&d.id).unwrap();
    assert!(deep_eq(&found.data, &obj("name", "a")));
    col.update(&d.id, obj("name", "b")).unwrap();
    let found2 = col.find(&d.id).unwrap();
    assert!(deep_eq(&found2.data, &obj("name", "b")));
    col.delete(&d.id).unwrap();
    assert!(col.find(&d.id).is_none());
    assert_eq!(
        db.drop_collection("ghost").unwrap_err(),
        DbError::CollectionNotFound
    );
}

#[test]
fn database_reuses_the_registered_collection() {
    let mut db = Database::new("data".to_string());
    let i = db.collection("users");
    db.collection_mut(i)
        .insert_with("id-1".to_string(), obj("name", "a"), None, 1000);
    let j = db.collection("users");
    assert_eq!(i, j);
    assert!(db.collection_at(j).find("id-1").is_some());
    assert_eq!(db.len(), 1);
}

#[test]
fn database_drop_removes_the_collection() {
    let mut db = Database::new("data".to_string());
    db.collection("users");
    assert!(db.drop_collection("users").is_ok());
    assert!(db.find_collection("users").is_none());
    assert_eq!(db.len(), 0);
}

#[test]
fn database_loads_a_collection_from_snapshot_text() {
    let mut c = Collection::new("users".to_string());
    c.insert_with("id-1".to_string(), obj("name", "a"), None, 1000);
    let text = c.snapshot();

    let mut db = Database::new("data".to_string());
    db.load_collection("users", &text).unwrap();
    let i = db.find_collection("users").expect("loaded collection is registered");
    let found = db.collection_at(i).find("id-1").unwrap();
    assert!(deep_eq(&found.data, &obj("name", "a")));
}

#[test]
fn sweep_all_reports_which_collections_changed() {
    let mut db = Database::new("data".to_string());
    let i = db.collection("fresh");
    db.collection_mut(i)
        .insert_with("id-1".to_string(), obj("name", "a"), None, 1000);
    let j = db.collection("stale");
    db.collection_mut(j)
        .insert_with("id-2".to_string(), obj("name", "b"), Some(1), 1000);
    let changed = db.sweep_all(5000);
    assert_eq!(changed.len(), 2);
    assert!(!changed[i]);
    assert!(changed[j]);
    assert!(db.collection_at(i).find("id-1").is_some());
    assert!(db.collection_at(j).find("id-2").is_none());
}

#[test]
fn error_messages_name_each_kind() {
    assert_eq!(DbError::NotFound.message(), "document not found");
    assert_eq!(DbError::CollectionNotFound.message(), "collection not found");
    assert_eq!(DbError::Serialization.message(), "serialization error");
    assert_eq!(DbError::Io.message(), "io error");
    assert_eq!(DbError::LockPoisoned.message(), "lock poisoned");
}

#[test]
fn an_empty_collection_snapshot_round_trips() {
    let c = Collection::new("empty".to_string());
    let text = c.snapshot();
    assert_eq!(text, "{}");
    let c2 = Collection::from_snapshot("empty".to_string(), &text).unwrap();
    assert_eq!(c2.find_all().len(), 0);
}

#[test]
fn inserting_under_a_taken_id_replaces_the_record() {
    let mut c = Collection::new("users".to_string());
    c.insert_with("id-1".to_string(), obj("name", "a"), None, 1000);
    c.insert_with("id-1".to_string(), obj("name", "b"), None, 2000);
    assert_eq!(c.find_all().len(), 1);
    let found = c.find("id-1").unwrap();
    assert!(deep_eq(&found.data, &obj("name", "b")));
    assert_eq!(found.created_at, 2000);
}

#[test]
fn duplicate_member_keys_in_a_body_are_kept_in_order() {
    let data = JsonVal::Obj(vec![
        ("k".to_string(), JsonVal::Int(1)),
        ("k".to_string(), JsonVal::Int(2)),
    ]);
    let mut c = Collection::new("users".to_string());
    c.insert_with("id-1".to_string(), data, None, 1000);
    let text = c.snapshot();
    let c2 = Collection::from_snapshot("users".to_string(), &text).unwrap();
    let found = c2.find("id-1").unwrap();
    let expected = JsonVal::Obj(vec![
        ("k".to_string(), JsonVal::Int(1)),
        ("k".to_string(), JsonVal::Int(2)),
    ]);
    assert!(deep_eq(&found.data, &expected));
}

#[test]
fn a_snapshot_with_a_repeated_identifier_is_rejected() {
    let record = "{\"id\":\"id-1\",\"data\":null,\"created_at\":1,\"updated_at\":1,\"expires_at\":null}";
    let text = format!("{{\"id-1\":{},\"id-1\":{}}}", record, record);
    let r = Collection::from_snapshot("users".to_string(), &text);
    assert_eq!(r.err().unwrap(), DbError::Serialization);
}

#[test]
fn a_snapshot_where_updates_precede_creation_is_rejected() {
    let text = "{\"id-1\":{\"id\":\"id-1\",\"data\":null,\"created_at\":5,\"updated_at\":4,\"expires_at\":null}}";
    let r = Collection::from_snapshot("users".to_string(), text);
    assert_eq!(r.err().unwrap(), DbError::Serialization);
}
