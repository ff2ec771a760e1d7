use nano_vectordb::engine::Data;
use nano_vectordb::tenant::MultiTenantNanoVDB;
use std::collections::HashMap;

#[test]
fn tenants_are_evicted_least_recently_used_first() {
    let mut cache = MultiTenantNanoVDB::new(2, 2, "tenants");
    let a = cache.create_tenant();
    let b = cache.create_tenant();
    assert_eq!(a.len(), 36);
    assert_ne!(a, b);
    assert_eq!(cache.len(), 2);
    assert!(cache.get_tenant(&a).is_some());
    let c = cache.create_tenant();
    assert_eq!(cache.len(), 2);
    assert!(cache.get_tenant(&b).is_none());
    assert!(cache.get_tenant(&a).is_some());
    assert!(cache.get_tenant(&c).is_some());
}

#[test]
fn tenant_handles_are_usable_and_kept() {
    let mut cache = MultiTenantNanoVDB::new(2, 3, "tenants");
    let a = cache.create_tenant();
    {
        let db = cache.get_tenant(&a).unwrap();
        assert_eq!(db.get_embedding_dim(), 2);
        assert_eq!(db.storage_file(), format!("tenants/{a}.json"));
        db.upsert(vec![Data { id: "x".to_string(), vector: vec![1.0f32.to_bits(), 0], fields: HashMap::new() }]);
    }
    assert_eq!(cache.get_tenant(&a).unwrap().len(), 1);
    assert!(cache.get_tenant("missing").is_none());
    assert_eq!(cache.len(), 1);
}

#[test]
fn zero_capacity_keeps_no_handle() {
    let mut cache = MultiTenantNanoVDB::new(2, 0, "tenants");
    let a = cache.create_tenant();
    assert_eq!(cache.len(), 0);
    assert!(cache.get_tenant(&a).is_none());
}

#[test]
fn tenant_ids_are_hyphenated_lowercase_hex() {
    let mut cache = MultiTenantNanoVDB::new(2, 2, "tenants");
    let a = cache.create_tenant();
    for (i, c) in a.chars().enumerate() {
        if [8, 13, 18, 23].contains(&i) {
            assert_eq!(c, '-');
        } else {
            assert!(c.is_ascii_hexdigit() && !c.is_ascii_uppercase());
        }
    }
    let db = cache.get_tenant(&a).unwrap();
    assert!(db.is_empty());
    assert_eq!(db.vector_bytes_len(), 0);
    assert!(db.get_additional_data().is_empty());
}
