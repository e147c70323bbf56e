use std::collections::HashMap;

use station_store::codec::{decode_stations, encode_stations};
use station_store::station::Station;
use station_store::storage::{
    load_outcome, save_outcome, FetchOutcome, FileStorage, S3Storage, StorageError, WriteOutcome,
    PRESIGN_WINDOW_SECS,
};

fn station(id: &str, location: &str, intensity: &str) -> Station {
    Station::new(id.to_string(), location.to_string(), intensity.to_string())
}

// A backend's persisted state, simulated: document name -> document text.
fn store_load(store: &HashMap<String, String>, key: &str) -> FetchOutcome {
    match store.get(key) {
        Some(text) => FetchOutcome::Present(text.clone()),
        None => FetchOutcome::Absent,
    }
}

fn store_save(store: &mut HashMap<String, String>, key: &str, stations: &Vec<Station>) {
    store.insert(key.to_string(), encode_stations(stations));
}

#[test]
fn encode_empty_collection() {
    let stations: Vec<Station> = Vec::new();
    assert_eq!(encode_stations(&stations), "[]");
}

#[test]
fn encode_one_station_exactly() {
    let stations = vec![station("A", "Tokyo", "5+")];
    let text = encode_stations(&stations);
    assert_eq!(text, "[{\"id\":\"A\",\"location\":\"Tokyo\",\"intensity\":\"5+\"}]");
}

#[test]
fn encode_two_stations_exactly() {
    let stations = vec![station("A", "Tokyo", "5+"), station("B", "Osaka", "3")];
    let text = encode_stations(&stations);
    assert_eq!(
        text,
        "[{\"id\":\"A\",\"location\":\"Tokyo\",\"intensity\":\"5+\"},{\"id\":\"B\",\"location\":\"Osaka\",\"intensity\":\"3\"}]"
    );
}

#[test]
fn round_trip_keeps_collection() {
    let stations = vec![
        station("A", "Tokyo", "5+"),
        station("B", "Osaka", "3"),
        station("C", "Sapporo", "1"),
    ];
    let text = encode_stations(&stations);
    let back = decode_stations(&text).expect("the encoding must decode");
    assert_eq!(back, stations);
}

#[test]
fn round_trip_empty_collection() {
    let stations: Vec<Station> = Vec::new();
    let text = encode_stations(&stations);
    let back = decode_stations(&text).expect("the encoding must decode");
    assert_eq!(back, stations);
}

#[test]
fn round_trip_keeps_unusual_plain_fields() {
    // commas, braces and brackets inside a field must survive the trip
    let stations = vec![station("A,b}", "loc[1],{2}", "5+")];
    let text = encode_stations(&stations);
    let back = decode_stations(&text).expect("the encoding must decode");
    assert_eq!(back, stations);
}

#[test]
fn decode_rejects_invalid_text() {
    assert!(decode_stations("").is_none());
    assert!(decode_stations("not json").is_none());
    assert!(decode_stations("{}").is_none());
    assert!(decode_stations("[{\"id\":\"A\"}]").is_none());
    assert!(decode_stations("[ ]").is_none());
    assert!(decode_stations("[{\"id\":\"A\",\"location\":\"T\",\"intensity\":\"5\"}").is_none());
}

#[test]
fn encode_escapes_exactly() {
    // a quote, a backslash and a newline in the fields
    let stations = vec![station("a\"b", "x\\y", "5\n")];
    let text = encode_stations(&stations);
    assert_eq!(
        text,
        "[{\"id\":\"a\\\"b\",\"location\":\"x\\\\y\",\"intensity\":\"5\\u000a\"}]"
    );
}

#[test]
fn round_trip_keeps_escaped_fields() {
    let stations = vec![
        station("a\"b", "x\\y", "5+"),
        station("\u{0}\u{1f}", "tab\there", "3"),
    ];
    let text = encode_stations(&stations);
    let back = decode_stations(&text).expect("the encoding must decode");
    assert_eq!(back, stations);
}

#[test]
fn decode_rejects_malformed_escapes() {
    // a raw control character inside a string
    assert!(decode_stations("[{\"id\":\"a\nb\",\"location\":\"x\",\"intensity\":\"1\"}]").is_none());
    // an unknown escape
    assert!(decode_stations("[{\"id\":\"a\\x\",\"location\":\"x\",\"intensity\":\"1\"}]").is_none());
    // a \u block that is not a canonical control escape
    assert!(decode_stations("[{\"id\":\"\\u0041\",\"location\":\"x\",\"intensity\":\"1\"}]").is_none());
}

#[test]
fn save_of_completed_write_succeeds() {
    assert_eq!(save_outcome(WriteOutcome::Done), Ok(()));
}

#[test]
fn save_of_failed_write_is_transport_error() {
    assert_eq!(save_outcome(WriteOutcome::Failed), Err(StorageError::Transport));
}

#[test]
fn construction_without_credentials_is_config_error() {
    let r = S3Storage::try_new("quake-bucket".to_string(), None, false);
    match r {
        Ok(_) => panic!("construction without credentials must be refused"),
        Err(e) => assert_eq!(e, StorageError::Config),
    }
}

#[test]
fn construction_with_credentials_succeeds() {
    let backend =
        S3Storage::try_new("quake-bucket".to_string(), Some("us-west-2".to_string()), true)
            .expect("a configured backend must construct");
    assert_eq!(backend.bucket, "quake-bucket");
    assert_eq!(backend.key, "stations.json");
    assert_eq!(backend.csv_key, "Stations.csv");
    assert_eq!(backend.region, "us-west-2");
}

#[test]
fn load_of_absent_document_is_empty() {
    let loaded = load_outcome(FetchOutcome::Absent).expect("first run must succeed");
    assert!(loaded.is_empty());
}

#[test]
fn load_of_failed_read_is_transport_error() {
    assert_eq!(load_outcome(FetchOutcome::Failure), Err(StorageError::Transport));
}

#[test]
fn load_of_invalid_document_is_decode_error() {
    let r = load_outcome(FetchOutcome::Present("garbage".to_string()));
    assert_eq!(r, Err(StorageError::Decode));
}

#[test]
fn load_of_valid_document_decodes_it() {
    let stations = vec![station("A", "Tokyo", "5+")];
    let text = encode_stations(&stations);
    let r = load_outcome(FetchOutcome::Present(text));
    assert_eq!(r, Ok(stations));
}

#[test]
fn second_save_overwrites_first() {
    let mut store = HashMap::new();
    let key = "stations.json";
    let c1 = vec![station("A", "Tokyo", "5+"), station("B", "Osaka", "3")];
    let c2 = vec![station("C", "Sapporo", "1")];
    store_save(&mut store, key, &c1);
    store_save(&mut store, key, &c2);
    let loaded = load_outcome(store_load(&store, key)).expect("load must succeed");
    assert_eq!(loaded, c2);
}

#[test]
fn saving_twice_is_idempotent() {
    let mut store = HashMap::new();
    let key = "stations.json";
    let c = vec![station("A", "Tokyo", "5+")];
    store_save(&mut store, key, &c);
    let once = store.clone();
    store_save(&mut store, key, &c);
    assert_eq!(store, once);
}

#[test]
fn csv_save_leaves_collection_alone() {
    let mut store = HashMap::new();
    let backend = S3Storage::new("quake-bucket".to_string(), None);
    let c = vec![station("A", "Tokyo", "5+")];
    store_save(&mut store, &backend.key, &c);
    // the CSV export is a separate document under its own key
    store.insert(backend.csv_key.clone(), "id,location\nA,Tokyo\n".to_string());
    let loaded = load_outcome(store_load(&store, &backend.key)).expect("load must succeed");
    assert_eq!(loaded, c);
    // and a collection save leaves the CSV alone
    store_save(&mut store, &backend.key, &vec![]);
    assert_eq!(store.get(&backend.csv_key).unwrap(), "id,location\nA,Tokyo\n");
}

#[test]
fn full_scenario_over_one_backend() {
    let mut store = HashMap::new();
    let key = "stations.json";
    // empty state: load yields []
    let loaded = load_outcome(store_load(&store, key)).expect("first run must succeed");
    assert_eq!(loaded, Vec::<Station>::new());
    // save one station, load it back
    let one = vec![station("A", "Tokyo", "5+")];
    store_save(&mut store, key, &one);
    assert_eq!(load_outcome(store_load(&store, key)), Ok(one.clone()));
    // save two, load both, in the saved order
    let two = vec![station("A", "Tokyo", "5+"), station("B", "Osaka", "3")];
    store_save(&mut store, key, &two);
    assert_eq!(load_outcome(store_load(&store, key)), Ok(two));
    // a fresh backend with nothing persisted loads [] again
    let fresh = HashMap::new();
    assert_eq!(load_outcome(store_load(&fresh, key)), Ok(Vec::new()));
}

#[test]
fn presign_expiry_is_seven_days_from_now() {
    assert_eq!(PRESIGN_WINDOW_SECS, 604800);
    assert_eq!(PRESIGN_WINDOW_SECS, 24 * 60 * 60 * 7);
    let backend = S3Storage::new("quake-bucket".to_string(), None);
    let now = 1_700_000_000;
    let plan = backend.csv_presign_plan(now).expect("expiry fits");
    assert_eq!(plan.expires_at, now + 604800);
    assert_eq!(plan.window_secs, 604800);
    assert_eq!(plan.key, "Stations.csv");
    assert_eq!(plan.bucket, "quake-bucket");
}

#[test]
fn presign_refused_when_expiry_cannot_be_represented() {
    let backend = S3Storage::new("quake-bucket".to_string(), None);
    assert!(backend.csv_presign_plan(u64::MAX).is_none());
    assert!(backend.csv_presign_plan(u64::MAX - 604800).is_some());
}

#[test]
fn backend_construction_fixes_keys_and_region() {
    let backend = S3Storage::new("quake-bucket".to_string(), None);
    assert_eq!(backend.bucket, "quake-bucket");
    assert_eq!(backend.key, "stations.json");
    assert_eq!(backend.csv_key, "Stations.csv");
    assert_eq!(backend.region, "ap-northeast-1");
    let other = S3Storage::new("quake-bucket".to_string(), Some("us-west-2".to_string()));
    assert_eq!(other.region, "us-west-2");
}

#[test]
fn local_backend_uses_fixed_path() {
    let backend = FileStorage::new();
    assert_eq!(backend.path(), "stations.json");
}
