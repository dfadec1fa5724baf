//! Storage on sled: a database of named trees, and byte-keyed trees with reads,
//! writes, prefix scans and atomic batches.
//!
//! A `SledDatabase` is viewed as the set of its tree names, a `SledTree` as the map of
//! its entries. Both are mutated only through `&mut self`, and the library keeps one
//! handle per open tree, so the view of a handle is what the tree holds.

use vstd::prelude::*;
use vstd::utf8::*;
use vstd::string::StringSliceAdditionalSpecFns;

use crate::text::string_from_utf8;

verus! {

#[verifier::external_type_specification]
#[verifier::external_body]
pub struct ExDb(sled::Db);

#[verifier::external_type_specification]
#[verifier::external_body]
pub struct ExTree(sled::Tree);

#[verifier::external_type_specification]
#[verifier::external_body]
pub struct ExBatch(sled::Batch);

#[verifier::external_type_specification]
#[verifier::external_body]
pub struct ExSledError(sled::Error);

/// The names of the trees that a sled database holds.
pub uninterp spec fn db_tree_names(db: sled::Db) -> Set<Seq<u8>>;

/// The path that a sled database was opened at.
pub uninterp spec fn opened_at(db: sled::Db) -> Seq<char>;

/// The key/value entries that a sled tree holds.
pub uninterp spec fn tree_entries(tree: sled::Tree) -> Map<Seq<u8>, Seq<u8>>;

/// The pending writes of a sled batch: `Some(v)` sets a key, `None` removes it.
pub uninterp spec fn batch_writes(batch: sled::Batch) -> Map<Seq<u8>, Option<Seq<u8>>>;

/// A batch without writes.
pub open spec fn no_writes() -> Map<Seq<u8>, Option<Seq<u8>>> {
    Map::empty()
}

/// A tree without entries.
pub open spec fn no_entries() -> Map<Seq<u8>, Seq<u8>> {
    Map::empty()
}

/// The name of the tree that every sled database holds and that cannot be dropped.
pub open spec fn default_tree_id() -> Seq<u8> {
    seq![95u8, 95, 115, 108, 101, 100, 95, 95, 100, 101, 102, 97, 117, 108, 116]
}

/// The name of the default tree, as characters.
pub open spec fn default_tree_name() -> Seq<char> {
    seq!['_', '_', 's', 'l', 'e', 'd', '_', '_', 'd', 'e', 'f', 'a', 'u', 'l', 't']
}

/// The default tree's name, written as text, is the default tree's bytes.
pub proof fn lemma_default_tree_bytes(s: &str)
    requires
        s@ == default_tree_name(),
    ensures
        s.spec_bytes() == default_tree_id(),
{
    let c = default_tree_name();
    assert(is_ascii_chars(c));
    is_ascii_chars_encode_utf8(c);
    assert forall|i: int| 0 <= i < c.len() implies encode_utf8(c)[i] == default_tree_id()[i] by {
        assert(c[i] as u8 == encode_utf8(c)[i]);
    }
    assert(encode_utf8(c) =~= default_tree_id());
}

/// The bytes of an optional value.
pub open spec fn opt_bytes(o: Option<Vec<u8>>) -> Option<Seq<u8>> {
    match o {
        Some(v) => Some(v@),
        None => None,
    }
}

/// What a lookup of `key` in `entries` gives.
pub open spec fn lookup(entries: Map<Seq<u8>, Seq<u8>>, key: Seq<u8>) -> Option<Seq<u8>> {
    if entries.contains_key(key) {
        Some(entries[key])
    } else {
        None
    }
}

/// Lexicographic order on byte strings, the order in which sled keeps keys.
pub open spec fn bytes_lt(a: Seq<u8>, b: Seq<u8>) -> bool
    decreases a.len(),
{
    if a.len() == 0 {
        b.len() > 0
    } else if b.len() == 0 {
        false
    } else if a[0] != b[0] {
        a[0] < b[0]
    } else {
        bytes_lt(a.drop_first(), b.drop_first())
    }
}

/// `prefix` is a prefix of `key`.
pub open spec fn has_prefix(key: Seq<u8>, prefix: Seq<u8>) -> bool {
    prefix.len() <= key.len() && key.subrange(0, prefix.len() as int) == prefix
}

/// `listed` holds exactly the entries of `entries` whose keys start with `prefix`,
/// once each, in ascending key order.
pub open spec fn is_prefix_listing(
    entries: Map<Seq<u8>, Seq<u8>>,
    prefix: Seq<u8>,
    listed: Seq<(Seq<u8>, Seq<u8>)>,
) -> bool {
    &&& forall|i: int|
        0 <= i < listed.len() ==> {
            &&& has_prefix(#[trigger] listed[i].0, prefix)
            &&& entries.contains_key(listed[i].0)
            &&& entries[listed[i].0] == listed[i].1
        }
    &&& forall|k: Seq<u8>|
        #[trigger] entries.contains_key(k) && has_prefix(k, prefix) ==> exists|i: int|
            0 <= i < listed.len() && #[trigger] listed[i].0 == k
    &&& forall|i: int, j: int|
        0 <= i < j < listed.len() ==> bytes_lt(#[trigger] listed[i].0, #[trigger] listed[j].0)
}

/// The entries after the writes of a batch: each written key takes its new value or
/// is removed, the others keep theirs.
pub open spec fn apply_writes(
    entries: Map<Seq<u8>, Seq<u8>>,
    writes: Map<Seq<u8>, Option<Seq<u8>>>,
) -> Map<Seq<u8>, Seq<u8>> {
    Map::new(
        |k: Seq<u8>|
            if writes.contains_key(k) {
                writes[k] is Some
            } else {
                entries.contains_key(k)
            },
        |k: Seq<u8>|
            if writes.contains_key(k) {
                writes[k]->0
            } else {
                entries[k]
            },
    )
}

// ---------------------------------------------------------------------------
// Trusted items: the sled calls.
// ---------------------------------------------------------------------------

/// `sled::open`: opens (or creates) the database at `path`. Starting a database opens
/// (or creates) the default tree before the trees recorded on disk are listed, so the
/// default tree is among the trees of a successful result; what else it holds comes
/// from the disk and is not stated.
/// The database is the one at `path` (sled's `Config` keeps the path it was opened
/// with).
#[verifier::external_body]
fn sled_open(path: &str) -> (r: Result<sled::Db, sled::Error>)
    ensures
        r matches Ok(db) ==> db_tree_names(db).contains(default_tree_id()),
        r matches Ok(db) ==> opened_at(db) == path@,
{
    sled::open(path)
}

/// `sled::Db::open_tree`: on success the name is among the database's trees; on failure
/// the trees are as they were (the tree is registered only after the last fallible
/// step). What the tree holds comes from the disk (a tree whose drop failed part-way
/// may still hold its entries), so nothing is stated of it.
#[verifier::external_body]
fn sled_open_tree(db: &mut sled::Db, name: &[u8]) -> (r: Result<sled::Tree, sled::Error>)
    ensures
        opened_at(*final(db)) == opened_at(*old(db)),
        r is Ok ==> db_tree_names(*final(db)) == db_tree_names(*old(db)).insert(name@),
        r is Err ==> db_tree_names(*final(db)) == db_tree_names(*old(db)),
{
    db.open_tree(name)
}

/// `sled::Db::drop_tree`: refuses the default tree and then changes nothing; otherwise
/// `Ok(b)` tells whether the tree existed, and the name is gone afterwards. The name is
/// the only one it removes, so after any other failure either the name is gone or
/// nothing changed. A tree that is dropped is marked removed, and every handle of it
/// answers only errors afterwards (`Tree::view_for_key` returns `CollectionNotFound`).
#[verifier::external_body]
fn sled_drop_tree(db: &mut sled::Db, name: &[u8]) -> (r: Result<bool, sled::Error>)
    ensures
        opened_at(*final(db)) == opened_at(*old(db)),
        name@ == default_tree_id() ==> r is Err && db_tree_names(*final(db)) == db_tree_names(
            *old(db),
        ),
        r is Err ==> db_tree_names(*final(db)) == db_tree_names(*old(db)) || db_tree_names(
            *final(db),
        ) == db_tree_names(*old(db)).remove(name@),
        r matches Ok(b) ==> {
            &&& b == db_tree_names(*old(db)).contains(name@)
            &&& db_tree_names(*final(db)) == db_tree_names(*old(db)).remove(name@)
        },
{
    db.drop_tree(name)
}

/// `sled::Db::tree_names`: every tree name once, in an order that the walk of sled's
/// hash map decides (not stated).
#[verifier::external_body]
fn sled_tree_names(db: &sled::Db) -> (r: Vec<Vec<u8>>)
    ensures
        forall|i: int| 0 <= i < r@.len() ==> db_tree_names(*db).contains(#[trigger] r@[i]@),
        forall|n: Seq<u8>| #[trigger]
            db_tree_names(*db).contains(n) ==> exists|i: int|
                0 <= i < r@.len() && #[trigger] r@[i]@ == n,
        forall|i: int, j: int| 0 <= i < j < r@.len() ==> #[trigger] r@[i]@ != #[trigger] r@[j]@,
{
    db.tree_names().into_iter().map(|n| n.to_vec()).collect()
}

/// `sled::Tree::insert`: on success returns the previous value of the key and the key
/// holds the new value. After a failure nothing is stated of the entries.
#[verifier::external_body]
fn sled_insert(tree: &mut sled::Tree, key: &[u8], value: Vec<u8>) -> (r: Result<
    Option<Vec<u8>>,
    sled::Error,
>)
    ensures
        r matches Ok(prev) ==> {
            &&& opt_bytes(prev) == lookup(tree_entries(*old(tree)), key@)
            &&& tree_entries(*final(tree)) == tree_entries(*old(tree)).insert(key@, value@)
        },
{
    tree.insert(key, value).map(|o| o.map(|v| v.to_vec()))
}

/// `sled::Tree::remove`: on success returns the previous value of the key and the key
/// is gone. After a failure nothing is stated of the entries.
#[verifier::external_body]
fn sled_remove(tree: &mut sled::Tree, key: &[u8]) -> (r: Result<Option<Vec<u8>>, sled::Error>)
    ensures
        r matches Ok(prev) ==> {
            &&& opt_bytes(prev) == lookup(tree_entries(*old(tree)), key@)
            &&& tree_entries(*final(tree)) == tree_entries(*old(tree)).remove(key@)
        },
{
    tree.remove(key).map(|o| o.map(|v| v.to_vec()))
}

/// `sled::Tree::get`: on success, the value that the key holds.
#[verifier::external_body]
fn sled_get(tree: &sled::Tree, key: &[u8]) -> (r: Result<Option<Vec<u8>>, sled::Error>)
    ensures
        r matches Ok(v) ==> opt_bytes(v) == lookup(tree_entries(*tree), key@),
{
    tree.get(key).map(|o| o.map(|v| v.to_vec()))
}

/// `sled::Tree::flush`: writes dirty buffers to disk; the entries do not change.
#[verifier::external_body]
fn sled_flush(tree: &sled::Tree) -> (r: Result<usize, sled::Error>) {
    tree.flush()
}

/// `sled::Tree::scan_prefix`, collected: on success, the entries whose keys start with
/// `prefix`, in ascending key order. The first failing item ends the scan with it.
#[verifier::external_body]
fn sled_scan_prefix(tree: &sled::Tree, prefix: &[u8]) -> (r: Result<
    Vec<(Vec<u8>, Vec<u8>)>,
    sled::Error,
>)
    ensures
        r matches Ok(v) ==> is_prefix_listing(
            tree_entries(*tree),
            prefix@,
            v@.map_values(|p: (Vec<u8>, Vec<u8>)| (p.0@, p.1@)),
        ),
{
    tree.scan_prefix(prefix).map(|r| r.map(|(k, v)| (k.to_vec(), v.to_vec()))).collect()
}

/// `sled::Batch::default`: a batch without writes.
#[verifier::external_body]
fn sled_batch_new() -> (r: sled::Batch)
    ensures
        batch_writes(r) == no_writes(),
{
    sled::Batch::default()
}

/// `sled::Batch::insert`: records that `key` is to hold `value`, replacing an earlier
/// write of the same key.
#[verifier::external_body]
fn sled_batch_insert(batch: &mut sled::Batch, key: Vec<u8>, value: Vec<u8>)
    ensures
        batch_writes(*final(batch)) == batch_writes(*old(batch)).insert(key@, Some(value@)),
{
    batch.insert(key, value)
}

/// `sled::Batch::remove`: records that `key` is to be removed, replacing an earlier
/// write of the same key.
#[verifier::external_body]
fn sled_batch_remove(batch: &mut sled::Batch, key: Vec<u8>)
    ensures
        batch_writes(*final(batch)) == batch_writes(*old(batch)).insert(key@, None),
{
    batch.remove(key)
}

/// `sled::Tree::apply_batch`: applies all writes of the batch at once. After a failure
/// nothing is stated of the entries.
#[verifier::external_body]
fn sled_apply_batch(tree: &mut sled::Tree, batch: sled::Batch) -> (r: Result<(), sled::Error>)
    ensures
        r is Ok ==> tree_entries(*final(tree)) == apply_writes(
            tree_entries(*old(tree)),
            batch_writes(batch),
        ),
{
    tree.apply_batch(batch)
}

// ---------------------------------------------------------------------------
// Verified storage layer.
// ---------------------------------------------------------------------------

/// A storage failure.
#[derive(Debug)]
pub enum DbError {
    /// sled reported a failure.
    Storage(sled::Error),
    /// A handle of the tree is already out; a tree has one handle at a time.
    TreeInUse,
    /// The database has handed out as many handles as it can number.
    HandlesExhausted,
}

/// A database of named trees.
///
/// A sled tree handle is shared: every handle of a tree reads and writes the same
/// entries. The database therefore hands out at most one handle per tree. It records
/// the trees whose handle is out (with the number it gave the handle), refuses to open
/// such a tree again, and takes a handle back with `close_tree`; a handle given back is
/// kept and handed out again when the tree is next opened, so what the tree held is
/// known. A tree may be dropped while its handle is out: sled marks the tree removed,
/// and that handle answers only errors afterwards.
pub struct SledDatabase {
    db: sled::Db,
    /// The trees whose handle is out, with the number of that handle.
    open: Vec<(Vec<u8>, u64)>,
    /// The handles given back.
    closed: Vec<SledTree>,
    /// The number the next handle gets.
    next: u64,
    /// The handle the database was opened with; it tells the database's trees apart
    /// from those of other databases.
    id: Ghost<sled::Db>,
}

impl View for SledDatabase {
    type V = Set<Seq<u8>>;

    /// The names of the trees the database holds.
    closed spec fn view(&self) -> Set<Seq<u8>> {
        db_tree_names(self.db)
    }
}

/// The names among `names` that are well-formed UTF-8, decoded.
pub open spec fn decoded_names(names: Set<Seq<u8>>) -> Set<Seq<char>> {
    Set::new(|s: Seq<char>| exists|n: Seq<u8>| #[trigger] names.contains(n) && valid_utf8(n) && decode_utf8(n) == s)
}

/// `names` holds each string of `set` exactly once, in some order.
pub open spec fn is_string_listing(names: Seq<String>, set: Set<Seq<char>>) -> bool {
    &&& forall|i: int| 0 <= i < names.len() ==> set.contains(#[trigger] names[i]@)
    &&& forall|s: Seq<char>| #[trigger]
        set.contains(s) ==> exists|i: int| 0 <= i < names.len() && #[trigger] names[i]@ == s
    &&& forall|i: int, j: int| 0 <= i < j < names.len() ==> #[trigger] names[i]@ != #[trigger] names[j]@
}

/// The byte strings of `v`.
pub open spec fn byte_strings(v: Seq<Vec<u8>>) -> Seq<Seq<u8>> {
    v.map_values(|b: Vec<u8>| b@)
}

/// The names of the registered handles `v`.
pub open spec fn open_names(v: Seq<(Vec<u8>, u64)>) -> Seq<Seq<u8>> {
    v.map_values(|p: (Vec<u8>, u64)| p.0@)
}

/// Whether `a` and `b` hold the same bytes.
pub fn bytes_equal(a: &[u8], b: &[u8]) -> (r: bool)
    ensures
        r == (a@ == b@),
{
    if a.len() != b.len() {
        return false;
    }
    let mut i: usize = 0;
    while i < a.len()
        invariant
            a@.len() == b@.len(),
            i <= a@.len(),
            forall|j: int| 0 <= j < i ==> a@[j] == b@[j],
        decreases a@.len() - i,
    {
        if a[i] != b[i] {
            return false;
        }
        i = i + 1;
    }
    proof {
        assert(a@ =~= b@);
    }
    true
}

/// Removing a registration keeps the others, still one per tree.
proof fn lemma_open_remove(v: Seq<(Vec<u8>, u64)>, i: int)
    requires
        distinct_open(v),
        0 <= i < v.len(),
    ensures
        distinct_open(v.remove(i)),
        forall|n: Seq<u8>| open_names(v.remove(i)).contains(n) ==> open_names(v).contains(n),
        !open_names(v.remove(i)).contains(v[i].0@),
        forall|n: Seq<u8>|
            open_names(v).contains(n) && n != v[i].0@ ==> open_names(v.remove(i)).contains(n),
{
    let w = v.remove(i);
    assert forall|a: int, b: int| 0 <= a < b < w.len() implies #[trigger] w[a].0@ != #[trigger] w[b].0@ by {
        let a2 = if a < i { a } else { a + 1 };
        let b2 = if b < i { b } else { b + 1 };
        assert(w[a] == v[a2] && w[b] == v[b2]);
    }
    assert forall|n: Seq<u8>| open_names(w).contains(n) implies open_names(v).contains(n) by {
        let k = choose|k: int| 0 <= k < w.len() && #[trigger] open_names(w)[k] == n;
        let k2 = if k < i { k } else { k + 1 };
        assert(w[k] == v[k2]);
        assert(open_names(v)[k2] == n);
    }
    assert forall|n: Seq<u8>| open_names(v).contains(n) && n != v[i].0@ implies open_names(w).contains(n) by {
        let k = choose|k: int| 0 <= k < v.len() && #[trigger] open_names(v)[k] == n;
        assert(k != i);
        let k2 = if k < i { k } else { k - 1 };
        assert(w[k2] == v[k]);
        assert(open_names(w)[k2] == n);
    }
    if open_names(w).contains(v[i].0@) {
        let k = choose|k: int| 0 <= k < w.len() && #[trigger] open_names(w)[k] == v[i].0@;
        let k2 = if k < i { k } else { k + 1 };
        assert(w[k] == v[k2]);
        if k2 < i {
            assert(v[k2].0@ != v[i].0@);
        } else {
            assert(v[i].0@ != v[k2].0@);
        }
    }
}

/// The position of a handle of the tree `name` among the registered ones.
fn find_open(v: &Vec<(Vec<u8>, u64)>, name: &[u8]) -> (r: Option<usize>)
    ensures
        match r {
            Some(i) => i < v@.len() && v@[i as int].0@ == name@,
            None => !open_names(v@).contains(name@),
        },
{
    let mut i: usize = 0;
    while i < v.len()
        invariant
            i <= v@.len(),
            forall|j: int| 0 <= j < i ==> v@[j].0@ != name@,
        decreases v@.len() - i,
    {
        if bytes_equal(v[i].0.as_slice(), name) {
            return Some(i);
        }
        i = i + 1;
    }
    proof {
        if open_names(v@).contains(name@) {
            let j = choose|j: int| 0 <= j < v@.len() && #[trigger] open_names(v@)[j] == name@;
            assert(v@[j].0@ == name@);
        }
    }
    None
}

/// The position of the registered handle with name `name` and number `serial`.
fn find_handle(v: &Vec<(Vec<u8>, u64)>, name: &[u8], serial: u64) -> (r: Option<usize>)
    ensures
        match r {
            Some(i) => i < v@.len() && v@[i as int].0@ == name@ && v@[i as int].1 == serial,
            None => forall|j: int| 0 <= j < v@.len() ==> !(v@[j].0@ == name@ && v@[j].1 == serial),
        },
{
    let mut i: usize = 0;
    while i < v.len()
        invariant
            i <= v@.len(),
            forall|j: int| 0 <= j < i ==> !(v@[j].0@ == name@ && v@[j].1 == serial),
        decreases v@.len() - i,
    {
        if v[i].1 == serial && bytes_equal(v[i].0.as_slice(), name) {
            return Some(i);
        }
        i = i + 1;
    }
    None
}

/// The position of the handle given back for the tree `name`.
fn find_closed(v: &Vec<SledTree>, name: &[u8]) -> (r: Option<usize>)
    ensures
        match r {
            Some(i) => i < v@.len() && v@[i as int].name() == name@,
            None => forall|j: int| 0 <= j < v@.len() ==> #[trigger] v@[j].name() != name@,
        },
{
    let mut i: usize = 0;
    while i < v.len()
        invariant
            i <= v@.len(),
            forall|j: int| 0 <= j < i ==> #[trigger] v@[j].name() != name@,
        decreases v@.len() - i,
    {
        if bytes_equal(v[i].name.as_slice(), name) {
            return Some(i);
        }
        i = i + 1;
    }
    None
}

/// What the handles `v` given back hold, by tree name.
pub open spec fn closed_entries(v: Seq<SledTree>) -> Map<Seq<u8>, Map<Seq<u8>, Seq<u8>>> {
    Map::new(
        |n: Seq<u8>| exists|i: int| 0 <= i < v.len() && #[trigger] v[i].name() == n,
        |n: Seq<u8>| v[choose|i: int| 0 <= i < v.len() && #[trigger] v[i].name() == n]@,
    )
}

/// No tree has two handles registered in `v`.
pub open spec fn distinct_open(v: Seq<(Vec<u8>, u64)>) -> bool {
    forall|i: int, j: int| 0 <= i < j < v.len() ==> #[trigger] v[i].0@ != #[trigger] v[j].0@
}

/// No two handles of `v` are of the same tree.
pub open spec fn distinct_names(v: Seq<SledTree>) -> bool {
    forall|i: int, j: int| 0 <= i < j < v.len() ==> #[trigger] v[i].name() != #[trigger] v[j].name()
}

/// With distinct names, what is known of the tree of the `i`-th handle is its entries.
proof fn lemma_closed_entries_at(v: Seq<SledTree>, i: int)
    requires
        distinct_names(v),
        0 <= i < v.len(),
    ensures
        closed_entries(v).contains_key(v[i].name()),
        closed_entries(v)[v[i].name()] == v[i]@,
{
    let n = v[i].name();
    assert(exists|k: int| 0 <= k < v.len() && #[trigger] v[k].name() == n) by {
        assert(v[i].name() == n);
    }
    let k = choose|k: int| 0 <= k < v.len() && #[trigger] v[k].name() == n;
    if k != i {
        if k < i {
            assert(v[k].name() != v[i].name());
        } else {
            assert(v[i].name() != v[k].name());
        }
    }
}

/// Removing the `i`-th handle forgets its tree and keeps what is known of the others.
proof fn lemma_closed_entries_remove(v: Seq<SledTree>, i: int)
    requires
        distinct_names(v),
        0 <= i < v.len(),
    ensures
        distinct_names(v.remove(i)),
        closed_entries(v.remove(i)) == closed_entries(v).remove(v[i].name()),
{
    let w = v.remove(i);
    assert forall|a: int, b: int| 0 <= a < b < w.len() implies #[trigger] w[a].name() != #[trigger] w[b].name() by {
        let a2 = if a < i { a } else { a + 1 };
        let b2 = if b < i { b } else { b + 1 };
        assert(w[a] == v[a2] && w[b] == v[b2]);
    }
    let m = closed_entries(v).remove(v[i].name());
    assert forall|n: Seq<u8>| closed_entries(w).contains_key(n) <==> m.contains_key(n) by {
        if closed_entries(w).contains_key(n) {
            let k = choose|k: int| 0 <= k < w.len() && #[trigger] w[k].name() == n;
            let k2 = if k < i { k } else { k + 1 };
            assert(w[k] == v[k2]);
            assert(v[k2].name() == n);
            if n == v[i].name() {
                if k2 < i {
                    assert(v[k2].name() != v[i].name());
                } else {
                    assert(v[i].name() != v[k2].name());
                }
            }
        }
        if m.contains_key(n) {
            let k = choose|k: int| 0 <= k < v.len() && #[trigger] v[k].name() == n;
            assert(k != i);
            let k2 = if k < i { k } else { k - 1 };
            assert(w[k2] == v[k]);
            assert(w[k2].name() == n);
        }
    }
    assert forall|n: Seq<u8>| #[trigger] closed_entries(w).contains_key(n) implies closed_entries(w)[n]
        == m[n] by {
        let k = choose|k: int| 0 <= k < w.len() && #[trigger] w[k].name() == n;
        let k2 = if k < i { k } else { k + 1 };
        assert(w[k] == v[k2]);
        lemma_closed_entries_at(w, k);
        lemma_closed_entries_at(v, k2);
    }
    assert(closed_entries(w) =~= m);
}

/// Adding a handle of a tree not yet among them makes its entries known.
proof fn lemma_closed_entries_push(v: Seq<SledTree>, t: SledTree)
    requires
        distinct_names(v),
        forall|j: int| 0 <= j < v.len() ==> #[trigger] v[j].name() != t.name(),
    ensures
        distinct_names(v.push(t)),
        closed_entries(v.push(t)) == closed_entries(v).insert(t.name(), t@),
{
    let w = v.push(t);
    assert forall|a: int, b: int| 0 <= a < b < w.len() implies #[trigger] w[a].name() != #[trigger] w[b].name() by {
        if b == v.len() {
            assert(w[a] == v[a]);
        } else {
            assert(w[a] == v[a] && w[b] == v[b]);
        }
    }
    let m = closed_entries(v).insert(t.name(), t@);
    assert forall|n: Seq<u8>| closed_entries(w).contains_key(n) <==> m.contains_key(n) by {
        if closed_entries(w).contains_key(n) {
            let k = choose|k: int| 0 <= k < w.len() && #[trigger] w[k].name() == n;
            if k < v.len() {
                assert(w[k] == v[k]);
                assert(v[k].name() == n);
            }
        }
        if closed_entries(v).contains_key(n) {
            let k = choose|k: int| 0 <= k < v.len() && #[trigger] v[k].name() == n;
            assert(w[k] == v[k]);
            assert(w[k].name() == n);
        }
        if n == t.name() {
            assert(w[v.len() as int].name() == n);
        }
    }
    assert forall|n: Seq<u8>| #[trigger] closed_entries(w).contains_key(n) implies closed_entries(w)[n]
        == m[n] by {
        let k = choose|k: int| 0 <= k < w.len() && #[trigger] w[k].name() == n;
        lemma_closed_entries_at(w, k);
        if k < v.len() {
            assert(w[k] == v[k]);
            lemma_closed_entries_at(v, k);
        }
    }
    assert(closed_entries(w) =~= m);
}

impl SledDatabase {
    /// The sled handle that the database wraps.
    pub closed spec fn handle(&self) -> sled::Db {
        self.db
    }

    /// What tells this database's trees apart from those of other databases; the path
    /// it was opened at is `opened_at(id())`.
    pub closed spec fn id(&self) -> sled::Db {
        self.id@
    }

    /// The names of the trees whose handle is out.
    pub closed spec fn in_use(&self) -> Seq<Seq<u8>> {
        open_names(self.open@)
    }

    /// What the trees whose handle was given back hold, by name.
    pub closed spec fn known(&self) -> Map<Seq<u8>, Map<Seq<u8>, Seq<u8>>> {
        closed_entries(self.closed@)
    }

    /// `t` is the handle that is out for its tree.
    pub closed spec fn holds_handle(&self, t: SledTree) -> bool {
        exists|i: int|
            0 <= i < self.open@.len() && #[trigger] self.open@[i].0@ == t.name() && self.open@[i].1
                == t.serial
    }

    /// The database's invariant: the handles given back are of this database, of trees
    /// it holds, one per tree, and none of them is out.
    pub closed spec fn inv(&self) -> bool {
        &&& forall|i: int| 0 <= i < self.closed@.len() ==> #[trigger] self.closed@[i].owner() == self.id@
        &&& forall|i: int|
            0 <= i < self.closed@.len() ==> db_tree_names(self.db).contains(#[trigger] self.closed@[i].name())
        &&& distinct_names(self.closed@)
        &&& distinct_open(self.open@)
        &&& forall|i: int|
            0 <= i < self.closed@.len() ==> !open_names(self.open@).contains(#[trigger] self.closed@[i].name())
    }

    /// Opens (or creates) the database stored at `path`; it holds at least the default
    /// tree.
    pub fn open(path: &str) -> (r: Result<SledDatabase, DbError>)
        ensures
            r matches Ok(db) ==> db@.contains(default_tree_id()),
            r matches Ok(db) ==> opened_at(db.id()) == path@ && db.inv() && db.in_use().len() == 0
                && db.known() == Map::<Seq<u8>, Map<Seq<u8>, Seq<u8>>>::empty(),
            r matches Err(e) ==> e is Storage,
    {
        match sled_open(path) {
            Ok(db) => {
                let r = SledDatabase { db, open: Vec::new(), closed: Vec::new(), next: 0, id: Ghost(db) };
                proof {
                    assert(closed_entries(r.closed@) =~= Map::<Seq<u8>, Map<Seq<u8>, Seq<u8>>>::empty());
                }
                Ok(r)
            },
            Err(e) => Err(DbError::Storage(e)),
        }
    }

    /// Opens the tree called `name`, creating it where it does not exist yet, and hands
    /// out its handle. A tree whose handle is out already is not opened again; a tree
    /// whose handle was given back gets that handle again, with what it held.
    pub fn open_tree(&mut self, name: &str) -> (r: Result<SledTree, DbError>)
        requires
            old(self).inv(),
        ensures
            final(self).inv(),
            final(self).id() == old(self).id(),
            old(self).in_use().contains(name.spec_bytes()) ==> (r matches Err(e) && e is TreeInUse),
            r matches Err(e) ==> e is TreeInUse ==> old(self).in_use().contains(name.spec_bytes()),
            r matches Err(e) ==> e is TreeInUse || e is Storage || e is HandlesExhausted,
            r matches Ok(t) ==> {
                &&& final(self)@ == old(self)@.insert(name.spec_bytes())
                &&& final(self).in_use() == old(self).in_use().push(name.spec_bytes())
                &&& final(self).known() == old(self).known().remove(name.spec_bytes())
                &&& t.owner() == old(self).id()
                &&& t.name() == name.spec_bytes()
                &&& old(self).known().contains_key(name.spec_bytes()) ==> t@ == old(
                    self,
                ).known()[name.spec_bytes()]
                &&& final(self).holds_handle(t)
            },
            !old(self).in_use().contains(name.spec_bytes()) && old(self).known().contains_key(
                name.spec_bytes(),
            ) ==> r is Ok,
            r is Err ==> final(self)@ == old(self)@ && final(self).in_use() == old(self).in_use()
                && final(self).known() == old(self).known(),
    {
        let bytes = name.as_bytes();
        match find_open(&self.open, bytes) {
            Some(i) => {
                proof {
                    assert(open_names(self.open@)[i as int] == name.spec_bytes());
                }
                return Err(DbError::TreeInUse);
            },
            None => {},
        }
        match find_closed(&self.closed, bytes) {
            Some(i) => {
                let ghost before = self.closed@;
                let ghost before_open = self.open@;
                proof {
                    lemma_closed_entries_at(before, i as int);
                    lemma_closed_entries_remove(before, i as int);
                }
                let t = self.closed.remove(i);
                let n = crate::payments::copy_range(bytes, 0, bytes.len());
                proof {
                    assert(n@ =~= name.spec_bytes());
                }
                self.open.push((n, t.serial));
                proof {
                    let last = self.open@.len() - 1;
                    assert(self.open@[last].0@ == t.name() && self.open@[last].1 == t.serial);
                    assert forall|a: int, b: int| 0 <= a < b < self.open@.len() implies #[trigger] self.open@[a].0@ != #[trigger] self.open@[b].0@ by {
                        assert(self.open@[a] == before_open[a] || b == before_open.len());
                        if b == before_open.len() {
                            assert(open_names(before_open)[a] == before_open[a].0@);
                            assert(self.open@[a] == before_open[a]);
                        } else {
                            assert(self.open@[a] == before_open[a] && self.open@[b] == before_open[b]);
                        }
                    }
                    assert(open_names(self.open@) =~= open_names(before_open).push(name.spec_bytes()));
                    assert(old(self)@.insert(name.spec_bytes()) =~= old(self)@);
                    assert forall|k: int| 0 <= k < self.closed@.len() implies !open_names(
                        self.open@,
                    ).contains(#[trigger] self.closed@[k].name()) by {
                        let k2 = if k < i { k } else { k + 1 };
                        assert(self.closed@[k] == before[k2]);
                        assert(before[k2].name() != before[i as int].name()) by {
                            if k2 < i {
                            } else {
                            }
                        }
                        if open_names(self.open@).contains(self.closed@[k].name()) {
                            let j = choose|j: int| 0 <= j < self.open@.len() && #[trigger] open_names(self.open@)[j] == self.closed@[k].name();
                            if j < before_open.len() {
                                assert(open_names(before_open)[j] == open_names(self.open@)[j]);
                            }
                        }
                    }
                    assert forall|k: int| 0 <= k < self.closed@.len() implies #[trigger] self.closed@[k].owner() == self.id@ by {
                        let k2 = if k < i { k } else { k + 1 };
                        assert(self.closed@[k] == before[k2]);
                    }
                    assert forall|k: int| 0 <= k < self.closed@.len() implies db_tree_names(self.db).contains(#[trigger] self.closed@[k].name()) by {
                        let k2 = if k < i { k } else { k + 1 };
                        assert(self.closed@[k] == before[k2]);
                    }
                }
                return Ok(t);
            },
            None => {},
        }
        if self.next == u64::MAX {
            return Err(DbError::HandlesExhausted);
        }
        let ghost before_db = self.db;
        match sled_open_tree(&mut self.db, bytes) {
            Ok(tree) => {
                let serial = self.next;
                self.next = self.next + 1;
                let n = crate::payments::copy_range(bytes, 0, bytes.len());
                let t = SledTree {
                    tree,
                    name: crate::payments::copy_range(bytes, 0, bytes.len()),
                    serial,
                    owner: self.id,
                };
                let ghost before = self.open@;
                proof {
                    assert(n@ =~= name.spec_bytes());
                }
                self.open.push((n, serial));
                proof {
                    let last = self.open@.len() - 1;
                    assert(self.open@[last].0@ == t.name() && self.open@[last].1 == t.serial);
                    assert forall|a: int, b: int| 0 <= a < b < self.open@.len() implies #[trigger] self.open@[a].0@ != #[trigger] self.open@[b].0@ by {
                        if b == before.len() {
                            assert(open_names(before)[a] == before[a].0@);
                            assert(self.open@[a] == before[a]);
                        } else {
                            assert(self.open@[a] == before[a] && self.open@[b] == before[b]);
                        }
                    }
                    assert(open_names(self.open@) =~= open_names(before).push(name.spec_bytes()));
                    assert forall|k: int| 0 <= k < self.closed@.len() implies !open_names(
                        self.open@,
                    ).contains(#[trigger] self.closed@[k].name()) by {
                        if open_names(self.open@).contains(self.closed@[k].name()) {
                            let j = choose|j: int| 0 <= j < self.open@.len() && #[trigger] open_names(self.open@)[j] == self.closed@[k].name();
                            if j < before.len() {
                                assert(open_names(before)[j] == open_names(self.open@)[j]);
                            }
                        }
                    }
                    assert(!closed_entries(self.closed@).contains_key(name.spec_bytes()));
                    assert(closed_entries(self.closed@).remove(name.spec_bytes()) =~= closed_entries(self.closed@));
                }
                Ok(t)
            },
            Err(e) => Err(DbError::Storage(e)),
        }
    }

    /// Whether the database holds a tree called `name`.
    fn holds_tree(&self, name: &[u8]) -> (r: bool)
        ensures
            r == self@.contains(name@),
    {
        let names = sled_tree_names(&self.db);
        let mut i: usize = 0;
        while i < names.len()
            invariant
                i <= names@.len(),
                forall|j: int| 0 <= j < i ==> names@[j]@ != name@,
                forall|j: int| 0 <= j < names@.len() ==> db_tree_names(self.db).contains(#[trigger] names@[j]@),
                forall|n: Seq<u8>| #[trigger]
                    db_tree_names(self.db).contains(n) ==> exists|j: int|
                        0 <= j < names@.len() && #[trigger] names@[j]@ == n,
            decreases names@.len() - i,
        {
            if bytes_equal(names[i].as_slice(), name) {
                return true;
            }
            i = i + 1;
        }
        false
    }

    /// Takes back the handle of a tree of this database. Where it is the handle that is
    /// out for the tree, it is kept, with what the tree holds, to be handed out again; a
    /// handle of a tree dropped meanwhile is let go.
    pub fn close_tree(&mut self, tree: SledTree)
        requires
            old(self).inv(),
            tree.owner() == old(self).id(),
        ensures
            final(self).inv(),
            final(self)@ == old(self)@,
            final(self).id() == old(self).id(),
            !final(self).in_use().contains(tree.name()) || final(self).in_use() == old(self).in_use(),
            forall|n: Seq<u8>|
                final(self).in_use().contains(n) ==> old(self).in_use().contains(n),
            final(self).known() == old(self).known() || final(self).known() == old(self).known().insert(
                tree.name(),
                tree@,
            ),
            old(self).in_use().contains(tree.name()) && final(self).known().contains_key(tree.name())
                ==> final(self).known()[tree.name()] == tree@,
            forall|n: Seq<u8>|
                n != tree.name() && old(self).in_use().contains(n) ==> final(self).in_use().contains(n),
            old(self).holds_handle(tree) && old(self)@.contains(tree.name()) ==> final(self).known()
                == old(self).known().insert(tree.name(), tree@) && !final(self).in_use().contains(
                tree.name(),
            ),
    {
        let i = match find_handle(&self.open, tree.name.as_slice(), tree.serial) {
            Some(i) => i,
            None => {
                proof {
                    if self.holds_handle(tree) {
                        let k = choose|k: int|
                            0 <= k < self.open@.len() && #[trigger] self.open@[k].0@ == tree.name()
                                && self.open@[k].1 == tree.serial;
                        assert(!(self.open@[k].0@ == tree.name@ && self.open@[k].1 == tree.serial));
                    }
                }
                return;
            },
        };
        let ghost before = self.open@;
        let _gone = self.open.remove(i);
        proof {
            lemma_open_remove(before, i as int);
        }
        if !self.holds_tree(tree.name.as_slice()) {
            proof {
                assert forall|k: int| 0 <= k < self.closed@.len() implies !open_names(
                    self.open@,
                ).contains(#[trigger] self.closed@[k].name()) by {
                    if open_names(self.open@).contains(self.closed@[k].name()) {
                        assert(open_names(before).contains(self.closed@[k].name()));
                    }
                }
            }
            return;
        }
        // The tree's name is not among those given back, since its handle was out.
        proof {
            assert(open_names(before)[i as int] == tree.name());
            assert forall|j: int| 0 <= j < self.closed@.len() implies #[trigger] self.closed@[j].name() != tree.name() by {
                assert(!open_names(before).contains(self.closed@[j].name()));
            }
            lemma_closed_entries_push(self.closed@, tree);
        }
        let ghost before_closed = self.closed@;
        let ghost t = tree;
        self.closed.push(tree);
        proof {
            assert(self.closed@ == before_closed.push(t));
            assert forall|k: int| 0 <= k < self.closed@.len() implies !open_names(
                self.open@,
            ).contains(#[trigger] self.closed@[k].name()) by {
                if k < before_closed.len() {
                    assert(self.closed@[k] == before_closed[k]);
                    if open_names(self.open@).contains(self.closed@[k].name()) {
                        assert(open_names(before).contains(self.closed@[k].name()));
                    }
                } else {
                    assert(self.closed@[k] == t);
                }
            }
        }
    }

    /// Drops the tree called `name`: `Ok(true)` when it existed, `Ok(false)` when it
    /// did not. The default tree cannot be dropped. A handle of the tree that is out
    /// answers only errors afterwards.
    pub fn drop_tree(&mut self, name: &str) -> (r: Result<bool, DbError>)
        requires
            old(self).inv(),
        ensures
            final(self).inv(),
            final(self).id() == old(self).id(),
            name.spec_bytes() == default_tree_id() ==> r is Err && final(self)@ == old(self)@,
            r matches Ok(b) ==> {
                &&& b == old(self)@.contains(name.spec_bytes())
                &&& final(self)@ == old(self)@.remove(name.spec_bytes())
            },
            r matches Err(e) ==> e is Storage,
            final(self).known() == old(self).known().remove(name.spec_bytes()),
            forall|n: Seq<u8>|
                final(self).in_use().contains(n) ==> old(self).in_use().contains(n),
            r is Ok ==> !final(self).in_use().contains(name.spec_bytes()),
    {
        let bytes = name.as_bytes();
        match find_closed(&self.closed, bytes) {
            Some(i) => {
                let ghost before = self.closed@;
                proof {
                    lemma_closed_entries_remove(before, i as int);
                }
                let _released = self.closed.remove(i);
                proof {
                    assert forall|k: int| 0 <= k < self.closed@.len() implies #[trigger] self.closed@[k].owner() == self.id@ && !open_names(self.open@).contains(self.closed@[k].name()) by {
                        let k2 = if k < i { k } else { k + 1 };
                        assert(self.closed@[k] == before[k2]);
                    }
                }
            },
            None => {
                proof {
                    assert(closed_entries(self.closed@).remove(name.spec_bytes()) =~= closed_entries(self.closed@));
                }
            },
        }
        let ghost known_now = closed_entries(self.closed@);
        let r = match sled_drop_tree(&mut self.db, bytes) {
            Ok(b) => Ok(b),
            Err(e) => Err(DbError::Storage(e)),
        };
        if r.is_ok() {
            // The tree is gone and its handle, if one is out, is dead: forget it.
            match find_open(&self.open, bytes) {
                Some(i) => {
                    let ghost before = self.open@;
                    let _gone = self.open.remove(i);
                    proof {
                        lemma_open_remove(before, i as int);
                        if open_names(self.open@).contains(name.spec_bytes()) {
                            let k = choose|k: int| 0 <= k < self.open@.len() && #[trigger] open_names(self.open@)[k] == name.spec_bytes();
                            let k2 = if k < i { k } else { k + 1 };
                            assert(self.open@[k] == before[k2]);
                            if k2 < i {
                                assert(before[k2].0@ != before[i as int].0@);
                            } else {
                                assert(before[i as int].0@ != before[k2].0@);
                            }
                        }
                    }
                },
                None => {},
            }
        }
        proof {
            assert forall|k: int| 0 <= k < self.closed@.len() implies db_tree_names(self.db).contains(#[trigger] self.closed@[k].name()) by {
                assert(known_now.contains_key(self.closed@[k].name())) by {
                    lemma_closed_entries_at(self.closed@, k);
                }
                assert(self.closed@[k].name() != name.spec_bytes());
            }
        }
        r
    }

    /// The names of the trees that are well-formed UTF-8, once each; other names are
    /// skipped.
    pub fn tree_names(&self) -> (r: Result<Vec<String>, DbError>)
        ensures
            r is Ok,
            r matches Ok(names) ==> is_string_listing(names@, decoded_names(self@)),
    {
        let mut raw = sled_tree_names(&self.db);
        let ghost orig = raw@;
        let mut names: Vec<String> = Vec::new();
        let ghost mut from: Seq<int> = Seq::empty();
        while raw.len() > 0
            invariant
                raw@.len() <= orig.len(),
                raw@ == orig.subrange(0, raw@.len() as int),
                names@.len() == from.len(),
                forall|i: int| 0 <= i < orig.len() ==> db_tree_names(self.db).contains(#[trigger] orig[i]@),
                forall|i: int, j: int| 0 <= i < j < orig.len() ==> #[trigger] orig[i]@ != #[trigger] orig[j]@,
                forall|i: int|
                    0 <= i < from.len() ==> {
                        &&& raw@.len() <= #[trigger] from[i] < orig.len()
                        &&& valid_utf8(orig[from[i]]@)
                        &&& names@[i]@ == decode_utf8(orig[from[i]]@)
                    },
                forall|i: int, j: int| 0 <= i < j < from.len() ==> #[trigger] from[i] != #[trigger] from[j],
                forall|m: int|
                    raw@.len() <= m < orig.len() && valid_utf8(#[trigger] orig[m]@) ==> exists|i: int|
                        0 <= i < from.len() && #[trigger] from[i] == m,
            decreases raw@.len(),
        {
            let ghost k = raw@.len() - 1;
            let ghost old_from = from;
            let bytes = raw.pop().unwrap();
            proof {
                assert(bytes == orig[k]);
                assert(raw@ =~= orig.subrange(0, raw@.len() as int));
            }
            match string_from_utf8(bytes) {
                Some(s) => {
                    names.push(s);
                    proof {
                        from = from.push(k);
                        assert(from[from.len() - 1] == k);
                        assert forall|m: int|
                            raw@.len() <= m < orig.len() && valid_utf8(#[trigger] orig[m]@) implies exists|i: int|
                                0 <= i < from.len() && #[trigger] from[i] == m by {
                            if m == k {
                                assert(from[from.len() - 1] == m);
                            } else {
                                let i = choose|i: int| 0 <= i < old_from.len() && #[trigger] old_from[i] == m;
                                assert(from[i] == m);
                            }
                        }
                    }
                },
                None => {
                    proof {
                        assert forall|m: int|
                            raw@.len() <= m < orig.len() && valid_utf8(#[trigger] orig[m]@) implies exists|i: int|
                                0 <= i < from.len() && #[trigger] from[i] == m by {
                            assert(m != k);
                        }
                    }
                },
            }
        }
        proof {
            assert forall|i: int| 0 <= i < names@.len() implies decoded_names(self@).contains(
                #[trigger] names@[i]@,
            ) by {
                assert(db_tree_names(self.db).contains(orig[from[i]]@));
            }
            assert forall|s: Seq<char>| #[trigger]
                decoded_names(self@).contains(s) implies exists|i: int|
                0 <= i < names@.len() && #[trigger] names@[i]@ == s by {
                let n = choose|n: Seq<u8>| #[trigger] db_tree_names(self.db).contains(n) && valid_utf8(n) && decode_utf8(n) == s;
                let m = choose|m: int| 0 <= m < orig.len() && #[trigger] orig[m]@ == n;
                let i = choose|i: int| 0 <= i < from.len() && #[trigger] from[i] == m;
                assert(names@[i]@ == s);
            }
            assert forall|i: int, j: int| 0 <= i < j < names@.len() implies #[trigger] names@[i]@
                != #[trigger] names@[j]@ by {
                let a = orig[from[i]]@;
                let b = orig[from[j]]@;
                assert(from[i] != from[j]);
                if from[i] < from[j] {
                    assert(a != b);
                } else {
                    assert(b != a);
                }
                if decode_utf8(a) == decode_utf8(b) {
                    decode_utf8_encode_utf8(a);
                    decode_utf8_encode_utf8(b);
                }
            }
            assert(is_string_listing(names@, decoded_names(self@)));
        }
        Ok(names)
    }
}

/// A tree of byte-keyed entries: the one handle of the tree that a database hands out.
pub struct SledTree {
    tree: sled::Tree,
    /// The tree's name.
    name: Vec<u8>,
    /// The number the database gave this handle when it handed it out.
    serial: u64,
    /// The database the tree was opened from.
    owner: Ghost<sled::Db>,
}

impl View for SledTree {
    type V = Map<Seq<u8>, Seq<u8>>;

    /// The entries the tree holds.
    closed spec fn view(&self) -> Map<Seq<u8>, Seq<u8>> {
        tree_entries(self.tree)
    }
}

/// One write of a batch.
pub enum BatchItem {
    /// Insert an element that is expected to be new.
    InsertNewElement { key: Vec<u8>, value: Vec<u8> },
    /// Insert an element, replacing any value of its key.
    InsertElement { key: Vec<u8>, value: Vec<u8> },
    /// Delete an element that is expected to exist.
    DeleteElement { key: Vec<u8> },
    /// Delete an element if it exists.
    MaybeDeleteElement { key: Vec<u8> },
}

/// The entries after one batch item.
pub open spec fn apply_item(entries: Map<Seq<u8>, Seq<u8>>, item: BatchItem) -> Map<
    Seq<u8>,
    Seq<u8>,
> {
    match item {
        BatchItem::InsertNewElement { key, value } => entries.insert(key@, value@),
        BatchItem::InsertElement { key, value } => entries.insert(key@, value@),
        BatchItem::DeleteElement { key } => entries.remove(key@),
        BatchItem::MaybeDeleteElement { key } => entries.remove(key@),
    }
}

/// The entries after the items of a batch, applied one after the other.
pub open spec fn apply_items(entries: Map<Seq<u8>, Seq<u8>>, items: Seq<BatchItem>) -> Map<
    Seq<u8>,
    Seq<u8>,
>
    decreases items.len(),
{
    if items.len() == 0 {
        entries
    } else {
        apply_item(apply_items(entries, items.drop_last()), items.last())
    }
}

/// The write that one batch item records in a sled batch.
pub open spec fn item_write(item: BatchItem) -> (Seq<u8>, Option<Seq<u8>>) {
    match item {
        BatchItem::InsertNewElement { key, value } => (key@, Some(value@)),
        BatchItem::InsertElement { key, value } => (key@, Some(value@)),
        BatchItem::DeleteElement { key } => (key@, None),
        BatchItem::MaybeDeleteElement { key } => (key@, None),
    }
}

/// A copy of a byte vector.
pub fn copy_bytes(v: &Vec<u8>) -> (r: Vec<u8>)
    ensures
        r@ == v@,
{
    let mut r: Vec<u8> = Vec::new();
    let mut i: usize = 0;
    while i < v.len()
        invariant
            i <= v@.len(),
            r@ == v@.subrange(0, i as int),
        decreases v@.len() - i,
    {
        r.push(v[i]);
        i = i + 1;
        proof {
            assert(r@ =~= v@.subrange(0, i as int));
        }
    }
    proof {
        assert(v@.subrange(0, v@.len() as int) =~= v@);
    }
    r
}

/// Adding one write to a batch and then applying it is applying the batch and then
/// the write.
proof fn lemma_apply_writes_step(
    entries: Map<Seq<u8>, Seq<u8>>,
    writes: Map<Seq<u8>, Option<Seq<u8>>>,
    item: BatchItem,
)
    ensures
        apply_writes(entries, writes.insert(item_write(item).0, item_write(item).1)) == apply_item(
            apply_writes(entries, writes),
            item,
        ),
{
    let w = writes.insert(item_write(item).0, item_write(item).1);
    assert(apply_writes(entries, w) =~= apply_item(apply_writes(entries, writes), item));
}

impl SledTree {
    /// The sled handle that the tree wraps.
    pub closed spec fn handle(&self) -> sled::Tree {
        self.tree
    }

    /// The name of the tree.
    pub closed spec fn name(&self) -> Seq<u8> {
        self.name@
    }

    /// The database the tree was opened from.
    pub closed spec fn owner(&self) -> sled::Db {
        self.owner@
    }

    /// Opens the database at `path` and in it the tree called `tree`. The database
    /// stays locked by sled while the tree is open, so no other handle of the tree can
    /// be had.
    pub fn open(path: &str, tree: &str) -> (r: Result<SledTree, DbError>)
        ensures
            r matches Ok(t) ==> t.name() == tree.spec_bytes() && opened_at(t.owner()) == path@,
    {
        let mut db = SledDatabase::open(path)?;
        db.open_tree(tree)
    }

    /// Sets `key` to `value` and flushes; gives back the previous value of `key`.
    pub fn raw_insert_entry(&mut self, key: &[u8], value: Vec<u8>) -> (r: Result<
        Option<Vec<u8>>,
        DbError,
    >)
        ensures
            r matches Err(e) ==> e is Storage,
            final(self).owner() == old(self).owner(),
            final(self).name() == old(self).name(),
            r matches Ok(prev) ==> {
                &&& opt_bytes(prev) == lookup(old(self)@, key@)
                &&& final(self)@ == old(self)@.insert(key@, value@)
            },
    {
        let prev = match sled_insert(&mut self.tree, key, value) {
            Ok(p) => p,
            Err(e) => {
                return Err(DbError::Storage(e));
            },
        };
        match sled_flush(&self.tree) {
            Ok(_) => Ok(prev),
            Err(e) => Err(DbError::Storage(e)),
        }
    }

    /// The value of `key`, if it has one.
    pub fn raw_get_value(&self, key: &[u8]) -> (r: Result<Option<Vec<u8>>, DbError>)
        ensures
            r matches Err(e) ==> e is Storage,
            r matches Ok(v) ==> opt_bytes(v) == lookup(self@, key@),
    {
        match sled_get(&self.tree, key) {
            Ok(v) => Ok(v),
            Err(e) => Err(DbError::Storage(e)),
        }
    }

    /// Removes `key` and flushes; gives back the value it had.
    pub fn raw_remove_entry(&mut self, key: &[u8]) -> (r: Result<Option<Vec<u8>>, DbError>)
        ensures
            r matches Err(e) ==> e is Storage,
            final(self).owner() == old(self).owner(),
            final(self).name() == old(self).name(),
            r matches Ok(prev) ==> {
                &&& opt_bytes(prev) == lookup(old(self)@, key@)
                &&& final(self)@ == old(self)@.remove(key@)
            },
    {
        let prev = match sled_remove(&mut self.tree, key) {
            Ok(p) => p,
            Err(e) => {
                return Err(DbError::Storage(e));
            },
        };
        match sled_flush(&self.tree) {
            Ok(_) => Ok(prev),
            Err(e) => Err(DbError::Storage(e)),
        }
    }

    /// The entries whose keys start with `key_prefix`, in ascending key order.
    pub fn raw_find_by_prefix(&self, key_prefix: &[u8]) -> (r: Result<
        Vec<(Vec<u8>, Vec<u8>)>,
        DbError,
    >)
        ensures
            r matches Err(e) ==> e is Storage,
            r matches Ok(v) ==> is_prefix_listing(
                self@,
                key_prefix@,
                v@.map_values(|p: (Vec<u8>, Vec<u8>)| (p.0@, p.1@)),
            ),
    {
        match sled_scan_prefix(&self.tree, key_prefix) {
            Ok(v) => Ok(v),
            Err(e) => Err(DbError::Storage(e)),
        }
    }

    /// Applies the items of `batch` atomically, as if one after the other, and flushes.
    pub fn raw_apply_batch(&mut self, batch: Vec<BatchItem>) -> (r: Result<(), DbError>)
        ensures
            r matches Err(e) ==> e is Storage,
            final(self).owner() == old(self).owner(),
            final(self).name() == old(self).name(),
            r is Ok ==> final(self)@ == apply_items(old(self)@, batch@),
    {
        let mut writes = sled_batch_new();
        let mut k: usize = 0;
        while k < batch.len()
            invariant
                k <= batch@.len(),
                forall|m: Map<Seq<u8>, Seq<u8>>|
                    #[trigger] apply_writes(m, batch_writes(writes)) == apply_items(
                        m,
                        batch@.subrange(0, k as int),
                    ),
            decreases batch@.len() - k,
        {
            let ghost before = batch_writes(writes);
            match &batch[k] {
                BatchItem::InsertNewElement { key, value } => {
                    sled_batch_insert(&mut writes, copy_bytes(key), copy_bytes(value));
                },
                BatchItem::InsertElement { key, value } => {
                    sled_batch_insert(&mut writes, copy_bytes(key), copy_bytes(value));
                },
                BatchItem::DeleteElement { key } => {
                    sled_batch_remove(&mut writes, copy_bytes(key));
                },
                BatchItem::MaybeDeleteElement { key } => {
                    sled_batch_remove(&mut writes, copy_bytes(key));
                },
            }
            proof {
                let it = batch@[k as int];
                assert(batch_writes(writes) == before.insert(item_write(it).0, item_write(it).1));
                assert forall|m: Map<Seq<u8>, Seq<u8>>|
                    #[trigger] apply_writes(m, batch_writes(writes)) == apply_items(
                        m,
                        batch@.subrange(0, k + 1),
                    ) by {
                    lemma_apply_writes_step(m, before, it);
                    assert(batch@.subrange(0, k + 1).drop_last() =~= batch@.subrange(0, k as int));
                    assert(apply_writes(m, before) == apply_items(m, batch@.subrange(0, k as int)));
                }
            }
            k = k + 1;
        }
        proof {
            assert(batch@.subrange(0, batch@.len() as int) =~= batch@);
        }
        match sled_apply_batch(&mut self.tree, writes) {
            Ok(()) => {},
            Err(e) => {
                return Err(DbError::Storage(e));
            },
        }
        match sled_flush(&self.tree) {
            Ok(_) => Ok(()),
            Err(e) => Err(DbError::Storage(e)),
        }
    }
}

// ---------------------------------------------------------------------------
// Laws of the storage layer.
// ---------------------------------------------------------------------------

/// A read gives back what the last write of the key wrote, and writes of one key
/// leave the others as they were.
pub proof fn law_read_after_insert(
    entries: Map<Seq<u8>, Seq<u8>>,
    key: Seq<u8>,
    value: Seq<u8>,
    other: Seq<u8>,
)
    requires
        other != key,
    ensures
        lookup(entries.insert(key, value), key) == Some(value),
        lookup(entries.insert(key, value), other) == lookup(entries, other),
{
}

/// After a removal, a read of the key finds nothing, and other keys are untouched.
pub proof fn law_read_after_remove(
    entries: Map<Seq<u8>, Seq<u8>>,
    key: Seq<u8>,
    other: Seq<u8>,
)
    requires
        other != key,
    ensures
        lookup(entries.remove(key), key) == None::<Seq<u8>>,
        lookup(entries.remove(key), other) == lookup(entries, other),
{
}

/// A batch of one insertion has the effect of that insertion, and a batch of one
/// deletion that of the deletion.
pub proof fn law_single_item_batch(entries: Map<Seq<u8>, Seq<u8>>, key: Vec<u8>, value: Vec<u8>)
    ensures
        apply_items(entries, seq![BatchItem::InsertElement { key, value }]) == entries.insert(
            key@,
            value@,
        ),
        apply_items(entries, seq![BatchItem::MaybeDeleteElement { key }]) == entries.remove(key@),
{
    let ins = seq![BatchItem::InsertElement { key, value }];
    assert(ins.drop_last() =~= Seq::<BatchItem>::empty());
    assert(apply_items(entries, ins.drop_last()) == entries);
    assert(ins.last() == BatchItem::InsertElement { key, value });
    let del = seq![BatchItem::MaybeDeleteElement { key }];
    assert(del.drop_last() =~= Seq::<BatchItem>::empty());
    assert(apply_items(entries, del.drop_last()) == entries);
    assert(del.last() == BatchItem::MaybeDeleteElement { key });
}

/// Applying a batch in two parts is applying the whole batch.
pub proof fn law_batch_split(
    entries: Map<Seq<u8>, Seq<u8>>,
    first: Seq<BatchItem>,
    second: Seq<BatchItem>,
)
    ensures
        apply_items(apply_items(entries, first), second) == apply_items(entries, first + second),
    decreases second.len(),
{
    if second.len() == 0 {
        assert(first + second =~= first);
    } else {
        law_batch_split(entries, first, second.drop_last());
        assert((first + second).drop_last() =~= first + second.drop_last());
        assert((first + second).last() == second.last());
    }
}

/// Dropping a tree that was opened removes its name; dropping it again reports that it
/// is gone.
pub proof fn law_open_then_drop(names: Set<Seq<u8>>, name: Seq<u8>)
    ensures
        names.insert(name).contains(name),
        names.insert(name).remove(name).contains(name) == false,
        names.insert(name).remove(name).remove(name) == names.insert(name).remove(name),
{
    assert(names.insert(name).remove(name).remove(name) =~= names.insert(name).remove(name));
}

} // verus!
