use vstd::prelude::*;
use vstd::string::StringExecFns;

use crate::codec::{decode_stations, parse_stations, stations_json};
use crate::station::{views, Station, StationView};

verus! {

/// How an operation can fail.  A missing document is not a failure: `load`
/// turns it into an empty collection on both backends.
#[derive(Clone, Copy, Debug, PartialEq, Eq, Structural)]
pub enum StorageError {
    /// The persisted bytes are not a valid collection encoding.
    Decode,
    /// The filesystem or the transport failed for any reason other than a
    /// missing document.
    Transport,
    /// The backend could not be constructed from the ambient configuration.
    Config,
}

/// What a read of the persisted document came back with.  The embedding
/// program performs the I/O and reports it as one of these three plain
/// values; every decision about them is made here.
pub enum FetchOutcome {
    /// The document exists and holds this text.
    Present(String),
    /// There is no persisted document: the first-run case.
    Absent,
    /// The read failed for some other reason.
    Failure,
}

/// The operation contract shared by both backends: `load` returns the
/// current station collection (an empty one when nothing was persisted yet,
/// a `Decode` error when the persisted text is not a valid encoding), and
/// `save` replaces the whole persisted document with the given collection.
/// The implementations wrap this crate's decision functions around their
/// filesystem or object-store transport, and so live with the embedding
/// program.
pub trait Storage {
    fn load(&self) -> Result<Vec<Station>, StorageError>;

    fn save(&self, stations: &Vec<Station>) -> Result<(), StorageError>;
}

/// The decision every `load` makes, uniformly over both backends: a missing
/// document is an empty collection, unreadable text is a `Decode` error, any
/// other failed read is a `Transport` error.
pub fn load_outcome(fetched: FetchOutcome) -> (r: Result<Vec<Station>, StorageError>)
    ensures
        match fetched {
            FetchOutcome::Present(text) => match parse_stations(text@) {
                Some(s) => r matches Ok(v) && views(v@) == s,
                None => r == Err::<Vec<Station>, StorageError>(StorageError::Decode),
            },
            FetchOutcome::Absent => r matches Ok(v) && v@ =~= Seq::<Station>::empty(),
            FetchOutcome::Failure => r == Err::<Vec<Station>, StorageError>(
                StorageError::Transport,
            ),
        },
{
    match fetched {
        FetchOutcome::Present(text) => match decode_stations(text.as_str()) {
            Some(v) => Ok(v),
            None => Err(StorageError::Decode),
        },
        FetchOutcome::Absent => Ok(Vec::new()),
        FetchOutcome::Failure => Err(StorageError::Transport),
    }
}

/// What a whole-document write came back with, as the embedding program
/// reports it.
#[derive(Clone, Copy, Debug, PartialEq, Eq, Structural)]
pub enum WriteOutcome {
    /// The document was replaced in one write.
    Done,
    /// The write could not be completed.
    Failed,
}

/// The decision every `save` makes once the transport reports back,
/// uniformly over both backends and both documents: a completed write is
/// success, anything else is a `Transport` error.
pub fn save_outcome(written: WriteOutcome) -> (r: Result<(), StorageError>)
    ensures
        match written {
            WriteOutcome::Done => r == Ok::<(), StorageError>(()),
            WriteOutcome::Failed => r == Err::<(), StorageError>(StorageError::Transport),
        },
{
    match written {
        WriteOutcome::Done => Ok(()),
        WriteOutcome::Failed => Err(StorageError::Transport),
    }
}

/// The fixed name of the collection document: the local file as well as the
/// object key.
pub open spec fn collection_key_spec() -> Seq<char> {
    seq!['s', 't', 'a', 't', 'i', 'o', 'n', 's', '.', 'j', 's', 'o', 'n']
}

/// The fixed object key of the CSV export.
pub open spec fn csv_key_spec() -> Seq<char> {
    seq!['S', 't', 'a', 't', 'i', 'o', 'n', 's', '.', 'c', 's', 'v']
}

/// The region used when the ambient configuration names none.
pub open spec fn default_region_spec() -> Seq<char> {
    seq!['a', 'p', '-', 'n', 'o', 'r', 't', 'h', 'e', 'a', 's', 't', '-', '1']
}

/// The two documents never share a name.
pub proof fn lemma_keys_distinct()
    ensures
        collection_key_spec() != csv_key_spec(),
{
    assert(collection_key_spec().len() != csv_key_spec().len());
}

/// The local backend: one fixed file in the working directory holds the
/// collection document.  The embedding program reads and writes that file
/// and feeds the text through this crate's codec and `load_outcome`.
pub struct FileStorage;

impl FileStorage {
    pub fn new() -> (r: FileStorage) {
        FileStorage
    }

    /// The fixed path of the collection file.
    pub fn path(&self) -> (r: String)
        ensures
            r@ == collection_key_spec(),
    {
        let r = String::from_str("stations.json");
        proof {
            reveal_strlit("stations.json");
            assert(r@ =~= collection_key_spec());
        }
        r
    }
}

/// How long a presigned CSV link stays valid: seven days, in seconds.
pub const PRESIGN_WINDOW_SECS: u64 = 604800;

/// Everything the embedding program needs in order to presign one read of
/// the CSV object: which object, and until when the link holds.
pub struct PresignPlan {
    pub bucket: String,
    pub key: String,
    pub expires_at: u64,
    pub window_secs: u64,
}

/// The object-store backend's configuration: the caller's bucket, the two
/// fixed object keys, and the resolved region.  The embedding program builds
/// its client from these values and drives the transport; every value the
/// transport is given is decided here.
pub struct S3Storage {
    pub bucket: String,
    pub key: String,
    pub csv_key: String,
    pub region: String,
}

impl S3Storage {
    pub open spec fn wf(self) -> bool {
        &&& self.key@ == collection_key_spec()
        &&& self.csv_key@ == csv_key_spec()
    }

    /// Bind the backend to a bucket.  The region comes from the ambient
    /// provider chain when it names one, and falls back to the fixed default
    /// otherwise.
    pub fn new(bucket: String, ambient_region: Option<String>) -> (r: S3Storage)
        ensures
            r.wf(),
            r.bucket@ == bucket@,
            r.region@ == match ambient_region {
                Some(a) => a@,
                None => default_region_spec(),
            },
    {
        let region = match ambient_region {
            Some(a) => a,
            None => {
                let d = String::from_str("ap-northeast-1");
                proof {
                    reveal_strlit("ap-northeast-1");
                    assert(d@ =~= default_region_spec());
                }
                d
            },
        };
        let key = String::from_str("stations.json");
        let csv_key = String::from_str("Stations.csv");
        proof {
            reveal_strlit("stations.json");
            reveal_strlit("Stations.csv");
            assert(key@ =~= collection_key_spec());
            assert(csv_key@ =~= csv_key_spec());
        }
        S3Storage { bucket, key, csv_key, region }
    }

    /// Bind the backend to a bucket, surfacing a missing or unusable ambient
    /// credential configuration as a `Config` error at construction, before
    /// any operation is attempted.  The embedding program resolves the
    /// ambient chain and reports what it found as plain values.
    pub fn try_new(bucket: String, ambient_region: Option<String>, has_credentials: bool) -> (r:
        Result<S3Storage, StorageError>)
        ensures
            has_credentials <==> r is Ok,
            r matches Ok(s) ==> {
                &&& s.wf()
                &&& s.bucket@ == bucket@
                &&& s.region@ == match ambient_region {
                    Some(a) => a@,
                    None => default_region_spec(),
                }
            },
            r matches Err(e) ==> e == StorageError::Config,
    {
        if has_credentials {
            Ok(S3Storage::new(bucket, ambient_region))
        } else {
            Err(StorageError::Config)
        }
    }

    /// The read that a presigned CSV link authorizes, issued at `now`
    /// (seconds): one GET of the CSV object, valid for exactly the fixed
    /// seven-day window.  `None` only when the expiry would not fit in the
    /// counter.
    pub fn csv_presign_plan(&self, now: u64) -> (r: Option<PresignPlan>)
        ensures
            r is Some <==> now + PRESIGN_WINDOW_SECS <= u64::MAX,
            r matches Some(p) ==> {
                &&& p.expires_at == now + PRESIGN_WINDOW_SECS
                &&& p.window_secs == PRESIGN_WINDOW_SECS
                &&& p.key@ == self.csv_key@
                &&& p.bucket@ == self.bucket@
            },
    {
        if now <= u64::MAX - PRESIGN_WINDOW_SECS {
            Some(
                PresignPlan {
                    bucket: self.bucket.clone(),
                    key: self.csv_key.clone(),
                    expires_at: now + PRESIGN_WINDOW_SECS,
                    window_secs: PRESIGN_WINDOW_SECS,
                },
            )
        } else {
            None
        }
    }
}

// ---------------------------------------------------------------------------
// The store model: what single-object overwrites do to the persisted state.
// A backend's persisted state is a map from document name to document text;
// a save is one whole-document put.
// ---------------------------------------------------------------------------
/// A save: the named document is replaced wholesale, nothing else changes.
pub open spec fn store_put(
    store: Map<Seq<char>, Seq<char>>,
    key: Seq<char>,
    text: Seq<char>,
) -> Map<Seq<char>, Seq<char>> {
    store.insert(key, text)
}

/// Law (idempotent save): saving the same document twice leaves exactly the
/// state that saving it once leaves.
pub proof fn lemma_save_idempotent(
    store: Map<Seq<char>, Seq<char>>,
    key: Seq<char>,
    text: Seq<char>,
)
    ensures
        store_put(store_put(store, key, text), key, text) == store_put(store, key, text),
{
    assert(store_put(store_put(store, key, text), key, text) =~= store_put(store, key, text));
}

/// Law (round trip over a backend): after saving a collection, a load of the
/// collection document decodes to exactly that collection, whatever was
/// stored before.
pub proof fn lemma_save_then_load(
    store: Map<Seq<char>, Seq<char>>,
    s: Seq<StationView>,
)
    ensures
        store_put(store, collection_key_spec(), stations_json(s)).contains_key(
            collection_key_spec(),
        ),
        parse_stations(
            store_put(store, collection_key_spec(), stations_json(s))[collection_key_spec()],
        ) == Some(s),
{
    crate::codec::lemma_round_trip(s);
}

/// Law (overwrite): a second save replaces the first wholesale; a load then
/// yields the second collection, with nothing left over from the first.
pub proof fn lemma_overwrite(
    store: Map<Seq<char>, Seq<char>>,
    s1: Seq<StationView>,
    s2: Seq<StationView>,
)
    ensures
        store_put(
            store_put(store, collection_key_spec(), stations_json(s1)),
            collection_key_spec(),
            stations_json(s2),
        )[collection_key_spec()] == stations_json(s2),
        parse_stations(
            store_put(
                store_put(store, collection_key_spec(), stations_json(s1)),
                collection_key_spec(),
                stations_json(s2),
            )[collection_key_spec()],
        ) == Some(s2),
{
    crate::codec::lemma_round_trip(s2);
}

/// Law (CSV independence): saving the CSV export touches only the CSV
/// document; the collection document is exactly what it was, and so is what
/// a load of it yields.
pub proof fn lemma_csv_independent(store: Map<Seq<char>, Seq<char>>, csv: Seq<char>)
    ensures
        store_put(store, csv_key_spec(), csv).contains_key(collection_key_spec())
            == store.contains_key(collection_key_spec()),
        store.contains_key(collection_key_spec()) ==> store_put(
            store,
            csv_key_spec(),
            csv,
        )[collection_key_spec()] == store[collection_key_spec()],
{
    lemma_keys_distinct();
}

/// Law (collection saves leave the CSV alone): the other direction of the
/// independence.
pub proof fn lemma_collection_save_leaves_csv(
    store: Map<Seq<char>, Seq<char>>,
    s: Seq<StationView>,
)
    ensures
        store_put(store, collection_key_spec(), stations_json(s)).contains_key(csv_key_spec())
            == store.contains_key(csv_key_spec()),
        store.contains_key(csv_key_spec()) ==> store_put(
            store,
            collection_key_spec(),
            stations_json(s),
        )[csv_key_spec()] == store[csv_key_spec()],
{
    lemma_keys_distinct();
}

} // verus!
