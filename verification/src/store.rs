//! The persistent store facade.
//!
//! Records live in an embedded ordered key-value tree as
//! `encoded id -> envelope` entries. The facade composes the identifier
//! generator, the record codec and the search index into the
//! create / get / all / update / search operations the request layer
//! consumes.
//!
//! The tree is modelled as a map from key bytes to value bytes
//! ([`tree_entries`]); every operation's contract says exactly how it
//! reads or changes that map. Writes go through the tree's atomic
//! primitives: creation is an insert-only-if-absent, and update is an
//! atomic read-modify-write that the tree retries under contention. The
//! search-index document is staged after the write settles, outside the
//! retry boundary, so a retried modify step cannot stage it twice.

use vstd::prelude::*;
use crate::content::{view_blocks, BlockView};
use crate::id::{spec_decode, spec_encode, ZettelId};
use crate::record::{
    empty_record_view, spec_deserialize, spec_serialize, view_record, DeserializeError, RecordView,
    ZettelRecord,
};
use crate::index::{Index, IndexError, SearchError};

verus! {

/// Why a store operation failed.
#[derive(Clone, Copy, Debug, PartialEq, Eq, Structural)]
pub enum StoreError {
    /// The tree reported an I/O or internal error. Fatal for the
    /// operation in progress.
    Io,
    /// A stored envelope could not be read back. Outside full scans this
    /// implies corruption or version skew and is not recovered.
    BadRecord(DeserializeError),
    /// The search index could not stage the replacement document. The
    /// record write itself had already settled.
    Index,
}

/// A patch for one record: absent fields are left unchanged.
#[derive(Debug, PartialEq)]
pub struct ZettelUpdate {
    pub title: Option<String>,
    pub content: Option<Vec<crate::content::Block>>,
}

/// The mathematical model of a patch.
pub struct UpdateView {
    pub title: Option<Seq<char>>,
    pub content: Option<Seq<BlockView>>,
}

pub open spec fn view_update(u: ZettelUpdate) -> UpdateView {
    UpdateView {
        title: match u.title {
            Some(t) => Some(t@),
            None => None,
        },
        content: match u.content {
            Some(c) => Some(view_blocks(c@)),
            None => None,
        },
    }
}

/// Applying a patch: each present field replaces the record's, each
/// absent field leaves it unchanged; mentions are never patched.
pub open spec fn spec_patch(r: RecordView, u: UpdateView) -> RecordView {
    RecordView {
        title: match u.title {
            Some(t) => t,
            None => r.title,
        },
        content: match u.content {
            Some(c) => c,
            None => r.content,
        },
        mentions: r.mentions,
    }
}

/// What the read-modify-write's modify step yields from the current value:
/// an absent entry stays absent, a readable record is patched and
/// re-encoded, and an unreadable value is returned unchanged rather than
/// overwritten or deleted.
pub open spec fn spec_apply_update(prev: Option<Seq<u8>>, u: UpdateView) -> Option<Seq<u8>> {
    match prev {
        None => None,
        Some(bytes) => match spec_deserialize(bytes) {
            Ok(rv) => Some(spec_serialize(spec_patch(rv, u))),
            Err(_) => Some(bytes),
        },
    }
}

fn patch_record(rec: ZettelRecord, u: &ZettelUpdate) -> (r: ZettelRecord)
    ensures
        view_record(r) == spec_patch(view_record(rec), view_update(*u)),
{
    let ZettelRecord { title, content, mentions } = rec;
    let title = match &u.title {
        Some(t) => t.clone(),
        None => title,
    };
    let content = match &u.content {
        Some(c) => crate::content::clone_content(c),
        None => content,
    };
    ZettelRecord { title, content, mentions }
}

/// The modify step of the atomic update. Deterministic, so the tree may
/// invoke it any number of times under write contention and the settled
/// outcome is the same.
fn apply_update(prev: Option<&[u8]>, u: &ZettelUpdate) -> (r: Option<Vec<u8>>)
    ensures
        match (
            r,
            spec_apply_update(
                match prev {
                    Some(b) => Some(b@),
                    None => None,
                },
                view_update(*u),
            ),
        ) {
            (Some(v), Some(sv)) => v@ == sv,
            (None, None) => true,
            _ => false,
        },
{
    match prev {
        None => None,
        Some(bytes) => match ZettelRecord::deserialize(bytes) {
            Ok(rec) => Some(patch_record(rec, u).serialize()),
            Err(_) => Some(vstd::slice::slice_to_vec(bytes)),
        },
    }
}

/// Byte-wise lexicographic order on keys: the order in which the tree
/// iterates.
pub open spec fn lex_lt(a: Seq<u8>, b: Seq<u8>) -> bool
    decreases a.len(),
{
    if b.len() == 0 {
        false
    } else if a.len() == 0 {
        true
    } else if a[0] < b[0] {
        true
    } else if a[0] > b[0] {
        false
    } else {
        lex_lt(a.drop_first(), b.drop_first())
    }
}

/// On eight-byte big-endian encodings, lexicographic key order is exactly
/// numeric order of the identifiers: the stated purpose of the big-endian
/// encoding.
pub proof fn lemma_encode_preserves_order(x: u64, y: u64)
    ensures
        (x < y) <==> lex_lt(spec_encode(x), spec_encode(y)),
{
    let a = spec_encode(x);
    let b = spec_encode(y);
    assert((x < y) <==> (((x >> 56) as u8) < ((y >> 56) as u8) || (((x >> 56) as u8) == ((y
        >> 56) as u8) && ((x >> 48) as u8) < ((y >> 48) as u8)) || (((x >> 56) as u8) == ((y
        >> 56) as u8) && ((x >> 48) as u8) == ((y >> 48) as u8) && ((x >> 40) as u8) < ((y
        >> 40) as u8)) || (((x >> 56) as u8) == ((y >> 56) as u8) && ((x >> 48) as u8) == ((y
        >> 48) as u8) && ((x >> 40) as u8) == ((y >> 40) as u8) && ((x >> 32) as u8) < ((y
        >> 32) as u8)) || (((x >> 56) as u8) == ((y >> 56) as u8) && ((x >> 48) as u8) == ((y
        >> 48) as u8) && ((x >> 40) as u8) == ((y >> 40) as u8) && ((x >> 32) as u8) == ((y
        >> 32) as u8) && ((x >> 24) as u8) < ((y >> 24) as u8)) || (((x >> 56) as u8) == ((y
        >> 56) as u8) && ((x >> 48) as u8) == ((y >> 48) as u8) && ((x >> 40) as u8) == ((y
        >> 40) as u8) && ((x >> 32) as u8) == ((y >> 32) as u8) && ((x >> 24) as u8) == ((y
        >> 24) as u8) && ((x >> 16) as u8) < ((y >> 16) as u8)) || (((x >> 56) as u8) == ((y
        >> 56) as u8) && ((x >> 48) as u8) == ((y >> 48) as u8) && ((x >> 40) as u8) == ((y
        >> 40) as u8) && ((x >> 32) as u8) == ((y >> 32) as u8) && ((x >> 24) as u8) == ((y
        >> 24) as u8) && ((x >> 16) as u8) == ((y >> 16) as u8) && ((x >> 8) as u8) < ((y
        >> 8) as u8)) || (((x >> 56) as u8) == ((y >> 56) as u8) && ((x >> 48) as u8) == ((y
        >> 48) as u8) && ((x >> 40) as u8) == ((y >> 40) as u8) && ((x >> 32) as u8) == ((y
        >> 32) as u8) && ((x >> 24) as u8) == ((y >> 24) as u8) && ((x >> 16) as u8) == ((y
        >> 16) as u8) && ((x >> 8) as u8) == ((y >> 8) as u8) && (x as u8) < (y as u8)))) by (bit_vector);
    let a1 = a.drop_first();
    let b1 = b.drop_first();
    let a2 = a1.drop_first();
    let b2 = b1.drop_first();
    let a3 = a2.drop_first();
    let b3 = b2.drop_first();
    let a4 = a3.drop_first();
    let b4 = b3.drop_first();
    let a5 = a4.drop_first();
    let b5 = b4.drop_first();
    let a6 = a5.drop_first();
    let b6 = b5.drop_first();
    let a7 = a6.drop_first();
    let b7 = b6.drop_first();
    assert(a1.len() == 7 && b1.len() == 7 && forall|i: int|
        0 <= i < 7 ==> #[trigger] a1[i] == a[i + 1] && #[trigger] b1[i] == b[i + 1]);
    assert(a2.len() == 6 && b2.len() == 6 && forall|i: int|
        0 <= i < 6 ==> #[trigger] a2[i] == a[i + 2] && #[trigger] b2[i] == b[i + 2]);
    assert(a3.len() == 5 && b3.len() == 5 && forall|i: int|
        0 <= i < 5 ==> #[trigger] a3[i] == a[i + 3] && #[trigger] b3[i] == b[i + 3]);
    assert(a4.len() == 4 && b4.len() == 4 && forall|i: int|
        0 <= i < 4 ==> #[trigger] a4[i] == a[i + 4] && #[trigger] b4[i] == b[i + 4]);
    assert(a5.len() == 3 && b5.len() == 3 && forall|i: int|
        0 <= i < 3 ==> #[trigger] a5[i] == a[i + 5] && #[trigger] b5[i] == b[i + 5]);
    assert(a6.len() == 2 && b6.len() == 2 && forall|i: int|
        0 <= i < 2 ==> #[trigger] a6[i] == a[i + 6] && #[trigger] b6[i] == b[i + 6]);
    assert(a7.len() == 1 && b7.len() == 1 && a7[0] == a[7] && b7[0] == b[7]);
    assert(lex_lt(a7, b7) == (a[7] < b[7])) by {
        assert(b7.drop_first().len() == 0);
        assert(!lex_lt(a7.drop_first(), b7.drop_first()));
    }
    assert(lex_lt(a6, b6) == (a[6] < b[6] || (a[6] == b[6] && lex_lt(a7, b7))));
    assert(lex_lt(a5, b5) == (a[5] < b[5] || (a[5] == b[5] && lex_lt(a6, b6))));
    assert(lex_lt(a4, b4) == (a[4] < b[4] || (a[4] == b[4] && lex_lt(a5, b5))));
    assert(lex_lt(a3, b3) == (a[3] < b[3] || (a[3] == b[3] && lex_lt(a4, b4))));
    assert(lex_lt(a2, b2) == (a[2] < b[2] || (a[2] == b[2] && lex_lt(a3, b3))));
    assert(lex_lt(a1, b1) == (a[1] < b[1] || (a[1] == b[1] && lex_lt(a2, b2))));
    assert(lex_lt(a, b) == (a[0] < b[0] || (a[0] == b[0] && lex_lt(a1, b1))));
}

/// Encoding inverts decoding on eight-byte keys.
pub proof fn lemma_encode_decode(s: Seq<u8>)
    requires
        s.len() == 8,
    ensures
        spec_encode(spec_decode(s)) == s,
{
    let v = spec_decode(s);
    let s0 = s[0];
    let s1 = s[1];
    let s2 = s[2];
    let s3 = s[3];
    let s4 = s[4];
    let s5 = s[5];
    let s6 = s[6];
    let s7 = s[7];
    let e = (((s0 as u64) << 56) | ((s1 as u64) << 48) | ((s2 as u64) << 40) | ((s3 as u64)
        << 32) | ((s4 as u64) << 24) | ((s5 as u64) << 16) | ((s6 as u64) << 8) | (s7 as u64));
    assert(((((s0 as u64) << 56) | ((s1 as u64) << 48) | ((s2 as u64) << 40) | ((s3 as u64) << 32)
        | ((s4 as u64) << 24) | ((s5 as u64) << 16) | ((s6 as u64) << 8) | (s7 as u64)) >> 56) as u8
        == s0) by (bit_vector);
    assert(((((s0 as u64) << 56) | ((s1 as u64) << 48) | ((s2 as u64) << 40) | ((s3 as u64) << 32)
        | ((s4 as u64) << 24) | ((s5 as u64) << 16) | ((s6 as u64) << 8) | (s7 as u64)) >> 48) as u8
        == s1) by (bit_vector);
    assert(((((s0 as u64) << 56) | ((s1 as u64) << 48) | ((s2 as u64) << 40) | ((s3 as u64) << 32)
        | ((s4 as u64) << 24) | ((s5 as u64) << 16) | ((s6 as u64) << 8) | (s7 as u64)) >> 40) as u8
        == s2) by (bit_vector);
    assert(((((s0 as u64) << 56) | ((s1 as u64) << 48) | ((s2 as u64) << 40) | ((s3 as u64) << 32)
        | ((s4 as u64) << 24) | ((s5 as u64) << 16) | ((s6 as u64) << 8) | (s7 as u64)) >> 32) as u8
        == s3) by (bit_vector);
    assert(((((s0 as u64) << 56) | ((s1 as u64) << 48) | ((s2 as u64) << 40) | ((s3 as u64) << 32)
        | ((s4 as u64) << 24) | ((s5 as u64) << 16) | ((s6 as u64) << 8) | (s7 as u64)) >> 24) as u8
        == s4) by (bit_vector);
    assert(((((s0 as u64) << 56) | ((s1 as u64) << 48) | ((s2 as u64) << 40) | ((s3 as u64) << 32)
        | ((s4 as u64) << 24) | ((s5 as u64) << 16) | ((s6 as u64) << 8) | (s7 as u64)) >> 16) as u8
        == s5) by (bit_vector);
    assert(((((s0 as u64) << 56) | ((s1 as u64) << 48) | ((s2 as u64) << 40) | ((s3 as u64) << 32)
        | ((s4 as u64) << 24) | ((s5 as u64) << 16) | ((s6 as u64) << 8) | (s7 as u64)) >> 8) as u8
        == s6) by (bit_vector);
    assert((((s0 as u64) << 56) | ((s1 as u64) << 48) | ((s2 as u64) << 40) | ((s3 as u64) << 32)
        | ((s4 as u64) << 24) | ((s5 as u64) << 16) | ((s6 as u64) << 8) | (s7 as u64)) as u8
        == s7) by (bit_vector);
    assert(v == e);
    assert(spec_encode(v) =~= s);
}

/// The contents of an ordered key-value tree: its entries as a map from
/// key bytes to value bytes.
pub uninterp spec fn tree_entries(t: sled::Tree) -> Map<Seq<u8>, Seq<u8>>;

#[verifier::external_type_specification]
#[verifier::external_body]
pub struct ExDb(sled::Db);

#[verifier::external_type_specification]
#[verifier::external_body]
pub struct ExTree(sled::Tree);

/// Relies on `sled::open`: opens the database at `path`, creating it if
/// absent.
#[verifier::external_body]
fn sled_open(path: &str) -> (r: Result<sled::Db, StoreError>)
    ensures
        match r {
            Ok(_) => true,
            Err(e) => e == StoreError::Io,
        },
{
    match sled::open(path) {
        Ok(db) => Ok(db),
        Err(_) => Err(StoreError::Io),
    }
}

/// Relies on `sled::Config::temporary` and `sled::Db::open_tree`: a fresh
/// store on transient backing, removed when dropped; a tree opened in it
/// holds no entries.
#[verifier::external_body]
fn sled_temp_tree(name: &str) -> (r: Result<sled::Tree, StoreError>)
    ensures
        match r {
            Ok(t) => tree_entries(t) == Map::<Seq<u8>, Seq<u8>>::empty(),
            Err(e) => e == StoreError::Io,
        },
{
    let db = match sled::Config::new().temporary(true).open() {
        Ok(db) => db,
        Err(_) => return Err(StoreError::Io),
    };
    match db.open_tree(name) {
        Ok(t) => Ok(t),
        Err(_) => Err(StoreError::Io),
    }
}

/// Relies on `sled::Db::open_tree`: the named keyspace within the
/// database.
#[verifier::external_body]
fn db_open_tree(db: &sled::Db, name: &str) -> (r: Result<sled::Tree, StoreError>)
    ensures
        match r {
            Ok(_) => true,
            Err(e) => e == StoreError::Io,
        },
{
    match db.open_tree(name) {
        Ok(t) => Ok(t),
        Err(_) => Err(StoreError::Io),
    }
}

/// Relies on `sled::Tree::get`: the value at `key`, if any.
#[verifier::external_body]
fn tree_get(t: &sled::Tree, key: &[u8; 8]) -> (r: Result<Option<Vec<u8>>, StoreError>)
    ensures
        match r {
            Ok(Some(v)) => tree_entries(*t).contains_key(key@) && v@ == tree_entries(*t)[key@],
            Ok(None) => !tree_entries(*t).contains_key(key@),
            Err(e) => e == StoreError::Io,
        },
{
    match t.get(key) {
        Ok(Some(iv)) => Ok(Some(iv.to_vec())),
        Ok(None) => Ok(None),
        Err(_) => Err(StoreError::Io),
    }
}

/// Relies on `sled::Tree::compare_and_swap` with `None` as the expected
/// current value: atomically inserts `value` at `key` only if the key is
/// absent, and otherwise reports the collision without writing. An
/// errored attempt has not written either: the swap either applies and
/// returns success, or leaves the tree as it was.
#[verifier::external_body]
fn tree_cas_insert(t: &mut sled::Tree, key: &[u8; 8], value: &Vec<u8>) -> (r: Result<
    bool,
    StoreError,
>)
    ensures
        match r {
            Ok(true) => !tree_entries(*old(t)).contains_key(key@) && tree_entries(*final(t))
                == tree_entries(*old(t)).insert(key@, value@),
            Ok(false) => tree_entries(*old(t)).contains_key(key@) && tree_entries(*final(t))
                == tree_entries(*old(t)),
            Err(e) => e == StoreError::Io && tree_entries(*final(t)) == tree_entries(*old(t)),
        },
{
    match t.compare_and_swap(key, None::<&[u8]>, Some(value.as_slice())) {
        Ok(Ok(())) => Ok(true),
        Ok(Err(_)) => Ok(false),
        Err(_) => Err(StoreError::Io),
    }
}

/// Relies on `sled::Tree::iter`: every entry of the tree, in ascending
/// byte-wise lexicographic key order. Fails on the first iteration error.
#[verifier::external_body]
fn tree_scan(t: &sled::Tree) -> (r: Result<Vec<(Vec<u8>, Vec<u8>)>, StoreError>)
    ensures
        match r {
            Ok(v) => (forall|k: int|
                0 <= k < v@.len() ==> tree_entries(*t).contains_key(#[trigger] v@[k].0@)
                    && tree_entries(*t)[v@[k].0@] == v@[k].1@) && (forall|key: Seq<u8>|
                tree_entries(*t).dom().contains(key) ==> exists|k: int|
                    0 <= k < v@.len() && #[trigger] v@[k].0@ == key) && (forall|k1: int, k2: int|
                0 <= k1 < k2 < v@.len() ==> lex_lt(#[trigger] v@[k1].0@, #[trigger] v@[k2].0@)),
            Err(e) => e == StoreError::Io,
        },
{
    let mut out = Vec::new();
    for entry in t.iter() {
        match entry {
            Ok((k, v)) => out.push((k.to_vec(), v.to_vec())),
            Err(_) => return Err(StoreError::Io),
        }
    }
    Ok(out)
}

/// Relies on `sled::Tree::update_and_fetch`: atomically replaces the value
/// at `key` with `apply_update` of the current value — retrying the modify
/// step if a concurrent writer changed the value between read and write —
/// and returns the settled new value. `apply_update` is a verified,
/// deterministic function, so repeated invocations under retry settle on
/// the stated outcome.
#[verifier::external_body]
fn tree_update_and_fetch(t: &mut sled::Tree, key: &[u8; 8], u: &ZettelUpdate) -> (r: Result<
    Option<Vec<u8>>,
    StoreError,
>)
    ensures
        match r {
            Ok(res) => {
                let m0 = tree_entries(*old(t));
                let prev = if m0.contains_key(key@) {
                    Some(m0[key@])
                } else {
                    None
                };
                let next = spec_apply_update(prev, view_update(*u));
                &&& tree_entries(*final(t)) == (match next {
                    Some(v) => m0.insert(key@, v),
                    None => m0.remove(key@),
                })
                &&& (match (res, next) {
                    (Some(rv), Some(nv)) => rv@ == nv,
                    (None, None) => true,
                    _ => false,
                })
            },
            Err(e) => e == StoreError::Io,
        },
{
    match t.update_and_fetch(key, |prev| apply_update(prev, u)) {
        Ok(Some(iv)) => Ok(Some(iv.to_vec())),
        Ok(None) => Ok(None),
        Err(_) => Err(StoreError::Io),
    }
}

/// The store facade: the ordered key-value tree of records plus the
/// search index whose documents mirror them.
pub struct ZettelStore {
    tree: sled::Tree,
    index: Index,
}

impl ZettelStore {
    /// The tree's entries: encoded id to stored envelope.
    pub closed spec fn entries(self) -> Map<Seq<u8>, Seq<u8>> {
        tree_entries(self.tree)
    }

    /// The search documents committed and visible to searches.
    pub closed spec fn index_committed(self) -> Map<u64, (Seq<char>, Seq<char>)> {
        self.index.committed()
    }

    /// The search documents staged for the next commit.
    pub closed spec fn index_buffered(self) -> Map<u64, (Seq<char>, Seq<char>)> {
        self.index.buffered()
    }

    /// Whether an index commit is pending.
    pub closed spec fn index_pending(self) -> bool {
        self.index.pending()
    }

    /// Open the durable store at the process's fixed path and compose it
    /// with the given search index.
    pub fn new(index: Index) -> (r: Result<ZettelStore, StoreError>)
        ensures
            match r {
                Ok(s) => s.index_committed() == index.committed() && s.index_buffered()
                    == index.buffered() && s.index_pending() == index.pending(),
                Err(e) => e == StoreError::Io,
            },
    {
        let db = sled_open("db")?;
        let tree = db_open_tree(&db, "zettels")?;
        Ok(ZettelStore { tree, index })
    }

    /// Compose the facade over an already-opened tree: the process opens
    /// its handles once at startup and passes them in explicitly.
    pub fn with_tree(tree: sled::Tree, index: Index) -> (r: ZettelStore)
        ensures
            r.entries() == tree_entries(tree),
            r.index_committed() == index.committed(),
            r.index_buffered() == index.buffered(),
            r.index_pending() == index.pending(),
    {
        ZettelStore { tree, index }
    }

    /// A store on transient backing, starting empty. For exercising the
    /// facade without touching the durable paths.
    pub fn temporary(index: Index) -> (r: Result<ZettelStore, StoreError>)
        ensures
            match r {
                Ok(s) => s.entries() == Map::<Seq<u8>, Seq<u8>>::empty() && s.index_committed()
                    == index.committed() && s.index_buffered() == index.buffered()
                    && s.index_pending() == index.pending(),
                Err(e) => e == StoreError::Io,
            },
    {
        let tree = sled_temp_tree("zettels")?;
        Ok(ZettelStore { tree, index })
    }

    /// Attempt to create a note under the given identifier: an atomic
    /// insert-only-if-absent of the default (empty) record envelope.
    /// `Ok(true)` means the note now exists and was absent before;
    /// `Ok(false)` means an entry already sat at that id — the
    /// same-second collision — and nothing was written. Exactly one of
    /// the two holds for any id, so of two creations with the same id
    /// the first succeeds and the second reports the collision.
    pub fn create_with_id(&mut self, id: ZettelId) -> (r: Result<bool, StoreError>)
        ensures
            match r {
                Ok(true) => !old(self).entries().contains_key(spec_encode(id.0)) && final(self).entries() == old(self).entries().insert(
                    spec_encode(id.0),
                    spec_serialize(empty_record_view()),
                ),
                Ok(false) => old(self).entries().contains_key(spec_encode(id.0)) && final(self).entries() == old(self).entries(),
                Err(e) => e == StoreError::Io && final(self).entries() == old(self).entries(),
            },
            final(self).index_committed() == old(self).index_committed(),
            final(self).index_buffered() == old(self).index_buffered(),
            final(self).index_pending() == old(self).index_pending(),
    {
        let key = id.encode();
        let envelope = ZettelRecord::new().serialize();
        tree_cas_insert(&mut self.tree, &key, &envelope)
    }

    /// Create a new note under a freshly generated, time-derived
    /// identifier. `Ok(None)` reports a same-second collision: an entry
    /// already sits at the generated id, nothing was written, and the
    /// caller should retry later.
    pub fn create(&mut self) -> (r: Result<Option<ZettelId>, StoreError>)
        ensures
            match r {
                Ok(Some(id)) => !old(self).entries().contains_key(spec_encode(id.0)) && final(self).entries() == old(self).entries().insert(
                    spec_encode(id.0),
                    spec_serialize(empty_record_view()),
                ),
                Ok(None) => final(self).entries() == old(self).entries() && (exists|id: u64|
                    old(self).entries().contains_key(spec_encode(id))),
                Err(e) => e == StoreError::Io && final(self).entries() == old(self).entries(),
            },
            final(self).index_committed() == old(self).index_committed(),
            final(self).index_buffered() == old(self).index_buffered(),
            final(self).index_pending() == old(self).index_pending(),
    {
        let id = ZettelId::generate();
        match self.create_with_id(id) {
            Ok(true) => Ok(Some(id)),
            Ok(false) => Ok(None),
            Err(e) => Err(e),
        }
    }

    /// Point read: the record stored under `id`, decoded. A version
    /// mismatch or malformed envelope here implies corruption or a binary
    /// that does not match the on-disk format, and is surfaced as a fatal
    /// `BadRecord` rather than recovered.
    pub fn get(&self, id: ZettelId) -> (r: Result<Option<ZettelRecord>, StoreError>)
        ensures
            match r {
                Ok(Some(rec)) => self.entries().contains_key(spec_encode(id.0))
                    && spec_deserialize(self.entries()[spec_encode(id.0)]) == Ok::<
                    RecordView,
                    DeserializeError,
                >(view_record(rec)),
                Ok(None) => !self.entries().contains_key(spec_encode(id.0)),
                Err(StoreError::BadRecord(e)) => self.entries().contains_key(spec_encode(id.0))
                    && spec_deserialize(self.entries()[spec_encode(id.0)]) == Err::<
                    RecordView,
                    DeserializeError,
                >(e),
                Err(StoreError::Io) => true,
                Err(StoreError::Index) => false,
            },
    {
        let key = id.encode();
        match tree_get(&self.tree, &key)? {
            None => Ok(None),
            Some(bytes) => match ZettelRecord::deserialize(bytes.as_slice()) {
                Ok(rec) => Ok(Some(rec)),
                Err(e) => Err(StoreError::BadRecord(e)),
            },
        }
    }

    /// Full scan: every readable record, in ascending id order (the
    /// tree's own byte-wise key order, which the big-endian encoding
    /// makes chronological). An entry whose key is not an eight-byte id
    /// or whose envelope does not decode is skipped, not fatal: a
    /// deliberate lossy-but-available policy for bulk listing.
    #[verifier::rlimit(50)]
    pub fn all(&self) -> (r: Result<Vec<(ZettelId, ZettelRecord)>, StoreError>)
        ensures
            match r {
                Ok(v) => {
                    &&& (forall|j: int|
                        0 <= j < v@.len() ==> self.entries().contains_key(
                            spec_encode((#[trigger] v@[j]).0.0),
                        ) && spec_deserialize(self.entries()[spec_encode(v@[j].0.0)]) == Ok::<
                            RecordView,
                            DeserializeError,
                        >(view_record(v@[j].1)))
                    &&& (forall|key: Seq<u8>|
                        (#[trigger] self.entries().dom().contains(key) && key.len() == 8
                            && spec_deserialize(self.entries()[key]) is Ok) ==> exists|j: int|
                            0 <= j < v@.len() && spec_encode((#[trigger] v@[j]).0.0) == key)
                    &&& (forall|j1: int, j2: int|
                        0 <= j1 < j2 < v@.len() ==> (#[trigger] v@[j1]).0.0 < (
                        #[trigger] v@[j2]).0.0)
                },
                Err(e) => e == StoreError::Io,
            },
    {
        let scan = tree_scan(&self.tree)?;
        let mut out: Vec<(ZettelId, ZettelRecord)> = Vec::new();
        let ghost mut sel: Seq<int> = Seq::empty();
        let mut i: usize = 0;
        while i < scan.len()
            invariant
                i <= scan@.len(),
                forall|k: int|
                    0 <= k < scan@.len() ==> self.entries().contains_key(#[trigger] scan@[k].0@)
                        && self.entries()[scan@[k].0@] == scan@[k].1@,
                forall|key: Seq<u8>|
                    #[trigger] self.entries().dom().contains(key) ==> exists|k: int|
                        0 <= k < scan@.len() && #[trigger] scan@[k].0@ == key,
                forall|k1: int, k2: int|
                    0 <= k1 < k2 < scan@.len() ==> lex_lt(
                        #[trigger] scan@[k1].0@,
                        #[trigger] scan@[k2].0@,
                    ),
                sel.len() == out@.len(),
                forall|j: int| 0 <= j < sel.len() ==> 0 <= #[trigger] sel[j] < i,
                forall|j1: int, j2: int| 0 <= j1 < j2 < sel.len() ==> sel[j1] < sel[j2],
                forall|j: int|
                    0 <= j < sel.len() ==> scan@[#[trigger] sel[j]].0@ == spec_encode(
                        out@[j].0.0,
                    ),
                forall|j: int|
                    0 <= j < out@.len() ==> self.entries().contains_key(
                        spec_encode((#[trigger] out@[j]).0.0),
                    ) && spec_deserialize(self.entries()[spec_encode(out@[j].0.0)]) == Ok::<
                        RecordView,
                        DeserializeError,
                    >(view_record(out@[j].1)),
                forall|t: int|
                    0 <= t < i && (#[trigger] scan@[t].0@).len() == 8 && spec_deserialize(
                        self.entries()[scan@[t].0@],
                    ) is Ok ==> exists|j: int| 0 <= j < sel.len() && #[trigger] sel[j] == t,
            decreases scan@.len() - i,
        {
            let key_bytes = &scan[i].0;
            if key_bytes.len() == 8 {
                let arr: [u8; 8] = [key_bytes[0], key_bytes[1], key_bytes[2], key_bytes[3],
                    key_bytes[4], key_bytes[5], key_bytes[6], key_bytes[7]];
                proof {
                    assert(arr@ =~= key_bytes@);
                }
                let id = ZettelId::decode(arr);
                proof {
                    lemma_encode_decode(key_bytes@);
                    assert(spec_encode(id.0) == scan@[i as int].0@);
                }
                match ZettelRecord::deserialize(scan[i].1.as_slice()) {
                    Ok(rec) => {
                        out.push((id, rec));
                        proof {
                            let oldsel = sel;
                            sel = sel.push(i as int);
                            assert(sel[oldsel.len() as int] == i as int);
                            assert forall|t: int|
                                0 <= t < i + 1 && (#[trigger] scan@[t].0@).len() == 8
                                    && spec_deserialize(self.entries()[scan@[t].0@]) is Ok implies
                                exists|j: int| 0 <= j < sel.len() && #[trigger] sel[j] == t by {
                                if t < i {
                                    let j = choose|j: int|
                                        0 <= j < oldsel.len() && #[trigger] oldsel[j] == t;
                                    assert(sel[j] == t);
                                } else {
                                    assert(sel[oldsel.len() as int] == t);
                                }
                            }
                        }
                    },
                    Err(_) => {
                        proof {
                            assert(spec_deserialize(self.entries()[scan@[i as int].0@]) is Err);
                        }
                    },
                }
            }
            i += 1;
        }
        proof {
            assert forall|j1: int, j2: int| 0 <= j1 < j2 < out@.len() implies (
            #[trigger] out@[j1]).0.0 < (#[trigger] out@[j2]).0.0 by {
                assert(lex_lt(scan@[sel[j1]].0@, scan@[sel[j2]].0@));
                lemma_encode_preserves_order(out@[j1].0.0, out@[j2].0.0);
            }
            assert forall|key: Seq<u8>|
                (#[trigger] self.entries().dom().contains(key) && key.len() == 8
                    && spec_deserialize(self.entries()[key]) is Ok) implies exists|j: int|
                0 <= j < out@.len() && spec_encode((#[trigger] out@[j]).0.0) == key by {
                let t = choose|t: int| 0 <= t < scan@.len() && #[trigger] scan@[t].0@ == key;
                assert((scan@[t].0@).len() == 8 && spec_deserialize(
                    self.entries()[scan@[t].0@],
                ) is Ok);
                let j = choose|j: int| 0 <= j < sel.len() && #[trigger] sel[j] == t;
                assert(spec_encode(out@[j].0.0) == key);
            }
        }
        Ok(out)
    }

    /// Atomic read-modify-write of one record: read the current envelope,
    /// apply whichever of the patch's fields are present, re-encode, and
    /// write back — the tree retries the modify step if a concurrent
    /// writer intervenes. On success the replacement search document
    /// (patched title, flattened patched content) is staged for the next
    /// index commit; the staging happens after the write settles, outside
    /// the retry boundary, so it is applied once. `Ok(false)` means no
    /// record exists under `id` and nothing changed.
    pub fn update(&mut self, id: ZettelId, u: &ZettelUpdate) -> (r: Result<bool, StoreError>)
        ensures
            match r {
                Ok(true) => {
                    let key = spec_encode(id.0);
                    let stored = spec_deserialize(old(self).entries()[key]);
                    &&& old(self).entries().contains_key(key)
                    &&& stored is Ok
                    &&& final(self).entries() == old(self).entries().insert(
                        key,
                        spec_serialize(spec_patch(stored.unwrap(), view_update(*u))),
                    )
                    &&& final(self).index_buffered() == old(self).index_buffered().insert(
                        id.0,
                        (
                            spec_patch(stored.unwrap(), view_update(*u)).title,
                            crate::content::flat_blocks(
                                spec_patch(stored.unwrap(), view_update(*u)).content,
                            ),
                        ),
                    )
                    &&& final(self).index_pending()
                },
                Ok(false) => !old(self).entries().contains_key(spec_encode(id.0)) && final(self).entries() == old(self).entries() && final(self).index_buffered() == old(self).index_buffered()
                    && final(self).index_pending() == old(self).index_pending(),
                Err(StoreError::BadRecord(e)) => old(self).entries().contains_key(
                    spec_encode(id.0),
                ) && spec_deserialize(old(self).entries()[spec_encode(id.0)]) == Err::<
                    RecordView,
                    DeserializeError,
                >(e) && final(self).entries() == old(self).entries() && final(self).index_buffered()
                    == old(self).index_buffered() && final(self).index_pending() == old(self).index_pending(),
                Err(StoreError::Io) => final(self).index_buffered() == old(
                    self,
                ).index_buffered() && final(self).index_pending() == old(self).index_pending(),
                Err(StoreError::Index) => {
                    let key = spec_encode(id.0);
                    let stored = spec_deserialize(old(self).entries()[key]);
                    &&& old(self).entries().contains_key(key)
                    &&& stored is Ok
                    &&& final(self).entries() == old(self).entries().insert(
                        key,
                        spec_serialize(spec_patch(stored.unwrap(), view_update(*u))),
                    )
                    &&& final(self).index_pending() == old(self).index_pending()
                },
            },
            final(self).index_committed() == old(self).index_committed(),
    {
        let key = id.encode();
        let bytes = match tree_get(&self.tree, &key)? {
            None => {
                return Ok(false);
            },
            Some(bytes) => bytes,
        };
        let rec0 = match ZettelRecord::deserialize(bytes.as_slice()) {
            Ok(rec) => rec,
            Err(e) => {
                return Err(StoreError::BadRecord(e));
            },
        };
        tree_update_and_fetch(&mut self.tree, &key, u)?;
        let patched = patch_record(rec0, u);
        match self.index.update_zettel(id, &patched) {
            Ok(()) => Ok(true),
            Err(_) => Err(StoreError::Index),
        }
    }

    /// Parse the query against the index's committed documents and return
    /// the best-matching ids, at most ten, best first, each id at most
    /// once. An empty query matches nothing and cannot fail; see
    /// [`Index::search`].
    pub fn search(&self, query: &str) -> (r: Result<Vec<ZettelId>, SearchError>)
        ensures
            match r {
                Ok(ids) => ids@.len() <= 10 && (forall|k: int|
                    0 <= k < ids@.len() ==> self.index_committed().dom().contains(
                        (#[trigger] ids@[k]).0,
                    )) && (query@.len() == 0 ==> ids@.len() == 0) && (query@.len() != 0
                    ==> crate::index::query_parses(query@)) && (forall|k1: int, k2: int|
                    0 <= k1 < k2 < ids@.len() ==> (#[trigger] ids@[k1]).0 != (
                    #[trigger] ids@[k2]).0),
                Err(SearchError::BadQuery) => !crate::index::query_parses(query@),
                Err(SearchError::Io) => true,
            },
            query@.len() == 0 ==> r is Ok,
    {
        self.index.search(query)
    }

    /// The periodic committer's step: commit staged index writes if any
    /// are pending; see [`Index::commit_if_needed`].
    pub fn commit_index(&mut self) -> (r: Result<bool, IndexError>)
        ensures
            final(self).entries() == old(self).entries(),
            match r {
                Ok(true) => old(self).index_pending() && final(self).index_committed() == old(self).index_committed().union_prefer_right(old(self).index_buffered()) && final(self).index_buffered() == Map::<u64, (Seq<char>, Seq<char>)>::empty() && !final(self).index_pending(),
                Ok(false) => !old(self).index_pending() && final(self).index_committed() == old(self).index_committed() && final(self).index_buffered() == old(self).index_buffered()
                    && final(self).index_pending() == old(self).index_pending(),
                Err(_) => final(self).index_pending() == old(self).index_pending(),
            },
            !old(self).index_pending() ==> r == Ok::<bool, IndexError>(false),
    {
        self.index.commit_if_needed()
    }
}

/// Same-second collision, at the level of the tree model: once a creation
/// has inserted the default envelope at a key that was absent, that key is
/// present, so by [`ZettelStore::create_with_id`]'s contract a second
/// creation with the same id must report the collision and leave the map
/// unchanged — the two calls cannot both succeed, and cannot both report
/// a collision.
pub proof fn lemma_same_second_collision(m: Map<Seq<u8>, Seq<u8>>, key: Seq<u8>, value: Seq<u8>)
    requires
        !m.contains_key(key),
    ensures
        m.insert(key, value).contains_key(key),
        m.insert(key, value)[key] == value,
{
}

/// Partial update: patching only the title replaces exactly the title;
/// the content and mentions of the stored record are unchanged, and the
/// re-encoded record reads back as exactly the patched one.
pub proof fn lemma_partial_update(r: RecordView, title: Seq<char>)
    requires
        crate::record::wf_record(r),
        title.len() <= u64::MAX,
    ensures
        ({
            let p = spec_patch(r, UpdateView { title: Some(title), content: None });
            &&& p.title == title
            &&& p.content == r.content
            &&& p.mentions == r.mentions
            &&& spec_deserialize(spec_serialize(p)) == Ok::<RecordView, DeserializeError>(p)
        }),
{
    let p = spec_patch(r, UpdateView { title: Some(title), content: None });
    crate::record::lemma_serialize_deserialize(p);
}

} // verus!
