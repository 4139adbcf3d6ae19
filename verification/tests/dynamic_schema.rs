//! Schemas and their cache.

use std::time::Duration;

use clickhouse_dfe::dynamic::encode::ColumnDef;
use clickhouse_dfe::dynamic::schema::{DynamicSchema, DynamicSchemaCache};

fn col(name: &str, type_str: &str, default_kind: &str) -> ColumnDef {
    ColumnDef::with_default_kind(name, type_str, default_kind)
}

#[test]
fn schema_basic_lookup_and_required() {
    let schema = DynamicSchema::from_columns(
        "db.test",
        vec![
            col("id", "UInt64", ""),
            col("name", "String", ""),
            col("created_at", "DateTime64(3)", "DEFAULT"),
        ],
    );
    assert_eq!(schema.len(), 3);
    assert!(!schema.is_empty());
    assert!(schema.column("id").is_some());
    assert!(schema.column("missing").is_none());
    assert_eq!(schema.required_columns().len(), 2);
    assert_eq!(schema.optional_columns().len(), 1);
}

#[test]
fn has_default_tracks_default_kind() {
    assert!(col("ts", "DateTime64(3)", "DEFAULT").has_default);
    assert!(col("mv", "String", "MATERIALIZED").has_default);
    assert!(!col("id", "UInt64", "").has_default);
}

#[test]
fn detects_json_columns() {
    let plain = DynamicSchema::from_columns(
        "db.t",
        vec![col("id", "UInt64", ""), col("name", "String", "")],
    );
    assert!(!plain.has_json_columns());

    let with_json = DynamicSchema::from_columns(
        "db.t",
        vec![col("id", "UInt64", ""), col("data", "JSON", "")],
    );
    assert!(with_json.has_json_columns());

    let nullable_json = DynamicSchema::from_columns(
        "db.t",
        vec![col("id", "UInt64", ""), col("tags", "Nullable(JSON)", "")],
    );
    assert!(nullable_json.has_json_columns());
}

#[test]
fn cache_insert_get_invalidate() {
    let mut cache = DynamicSchemaCache::new(Duration::from_secs(300).as_nanos());
    let schema = DynamicSchema::from_columns("db.t", vec![col("id", "UInt64", "")]);
    assert!(cache.get("db.t", 0).is_none());
    cache.insert("db.t", schema, 0);
    assert!(cache.get("db.t", 0).is_some());
    cache.invalidate("db.t");
    assert!(cache.get("db.t", 0).is_none());
}

#[test]
fn cache_respects_ttl() {
    let mut cache = DynamicSchemaCache::new(Duration::from_millis(100).as_nanos());
    let schema = DynamicSchema::from_columns("db.t", vec![col("id", "UInt64", "")]);
    cache.insert("db.t", schema, 0);
    assert!(cache.get("db.t", 0).is_some());
    assert!(cache.get("db.t", Duration::from_millis(99).as_nanos()).is_some());
    assert!(cache.get("db.t", Duration::from_millis(100).as_nanos()).is_none());
    assert!(cache.get("db.t", Duration::from_millis(250).as_nanos()).is_none());
}

#[test]
fn cache_invalidate_all() {
    let mut cache = DynamicSchemaCache::new(Duration::from_secs(300).as_nanos());
    cache.insert(
        "db.t1",
        DynamicSchema::from_columns("db.t1", vec![col("id", "UInt64", "")]),
        0,
    );
    cache.insert(
        "db.t2",
        DynamicSchema::from_columns("db.t2", vec![col("id", "UInt64", "")]),
        0,
    );
    assert!(cache.get("db.t1", 0).is_some());
    assert!(cache.get("db.t2", 0).is_some());
    cache.invalidate_all();
    assert!(cache.get("db.t1", 0).is_none());
    assert!(cache.get("db.t2", 0).is_none());
}
