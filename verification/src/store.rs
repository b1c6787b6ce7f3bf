//! The hierarchical, typed key-value store and its operation semantics.
//!
//! A store holds keys, each addressed by a root hive and a sequence of path
//! segments, and each carrying a list of named, typed, byte-valued records.
//! The five hive roots always exist; every other key exists together with all
//! of its ancestors (the key set is prefix-closed). Reading a missing key is
//! a success that reports `exists: false`; writing creates the whole chain of
//! intermediate keys; deleting removes a key with its entire subtree and
//! fails on a key that does not exist.
//!
//! The model at the specification level is a sequence of entries, each a
//! triple of root, path and value list; every operation is defined as a pure
//! transformer on that sequence, and the executable methods are proved to
//! implement exactly those transformers.

use vstd::prelude::*;
use vstd::pervasive::VecAdditionalExecFns;

use crate::codec::RegistryType;
use crate::error::RegError;
use crate::path::{segs_view, RegistryAddress, RootHiveId};

verus! {

/// The view of one named value: name, kind, payload bytes.
pub type ValueView = (Seq<char>, RegistryType, Seq<u8>);

/// The view of one key: root, path segments, value list.
pub type EntryView = (RootHiveId, Seq<Seq<char>>, Seq<ValueView>);

/// The view of a whole store: its keys in insertion order.
pub type StoreView = Seq<EntryView>;

/// The typed byte payload of one value, without its name.
#[derive(Debug)]
pub struct RegistryItemValue {
    pub raw_value: Vec<u8>,
    pub vtype: RegistryType,
}

/// One named value under a key. The payload bytes are opaque: they are
/// moved, never interpreted.
#[derive(Debug)]
pub struct ValueRecord {
    pub name: String,
    pub data: RegistryItemValue,
}

/// The result of reading one key: whether it exists, the names of its
/// immediate children, and its values. A missing key reads as
/// `exists: false` with both lists empty; that is a success, not an error.
#[derive(Debug)]
pub struct RegistryItem {
    pub exists: bool,
    pub keys: Vec<String>,
    pub values: Vec<ValueRecord>,
}

/// One write request: the address of a key and the values to apply to it,
/// in order.
#[derive(Debug)]
pub struct PutRequest {
    pub address: String,
    pub values: Vec<ValueRecord>,
}

/// One stored key.
pub struct KeyEntry {
    pub root: RootHiveId,
    pub segments: Vec<String>,
    pub values: Vec<ValueRecord>,
}

/// The store itself.
pub struct RegStore {
    pub entries: Vec<KeyEntry>,
}

pub open spec fn val_view(v: ValueRecord) -> ValueView {
    (v.name@, v.data.vtype, v.data.raw_value@)
}

pub open spec fn vals_view(vs: Seq<ValueRecord>) -> Seq<ValueView> {
    vs.map_values(|v: ValueRecord| val_view(v))
}

pub open spec fn entry_view(e: KeyEntry) -> EntryView {
    (e.root, segs_view(e.segments@), vals_view(e.values@))
}

impl View for RegStore {
    type V = StoreView;

    open spec fn view(&self) -> StoreView {
        self.entries@.map_values(|e: KeyEntry| entry_view(e))
    }
}

/// The entry `e` is the key `(root, path)`.
pub open spec fn entry_is(e: EntryView, root: RootHiveId, path: Seq<Seq<char>>) -> bool {
    e.0 == root && e.1 == path
}

/// The key `(root, path)` is present in the store.
pub open spec fn has_key(sv: StoreView, root: RootHiveId, path: Seq<Seq<char>>) -> bool {
    exists|i: int| 0 <= i < sv.len() && entry_is(sv[i], root, path)
}

/// The position of the key `(root, path)`; meaningful only under
/// `has_key(sv, root, path)`, and unique under `distinct_keys(sv)`.
pub open spec fn key_index(sv: StoreView, root: RootHiveId, path: Seq<Seq<char>>) -> int {
    choose|i: int| 0 <= i < sv.len() && entry_is(sv[i], root, path)
}

/// The value list of the key `(root, path)`; empty for a missing key.
pub open spec fn vals_of(sv: StoreView, root: RootHiveId, path: Seq<Seq<char>>) -> Seq<ValueView> {
    if has_key(sv, root, path) {
        sv[key_index(sv, root, path)].2
    } else {
        Seq::empty()
    }
}

/// No two entries are the same key.
pub open spec fn distinct_keys(sv: StoreView) -> bool {
    forall|i: int, j: int|
        0 <= i < j < sv.len() ==> !(sv[i].0 == sv[j].0 && sv[i].1 == sv[j].1)
}

/// Every ancestor of a present key is present.
pub open spec fn prefix_closed(sv: StoreView) -> bool {
    forall|i: int, k: int|
        0 <= i < sv.len() && 0 <= k <= sv[i].1.len() ==> #[trigger] has_key(
            sv,
            sv[i].0,
            sv[i].1.take(k),
        )
}

/// The five hive roots are present.
pub open spec fn roots_present(sv: StoreView) -> bool {
    forall|h: RootHiveId| #[trigger] has_key(sv, h, Seq::empty())
}

/// No two values of one key share a name.
pub open spec fn distinct_val_names(vals: Seq<ValueView>) -> bool {
    forall|i: int, j: int| 0 <= i < j < vals.len() ==> vals[i].0 != vals[j].0
}

/// The store invariant: unique keys, a prefix-closed key set, all five hive
/// roots present, and value names unique within each key.
pub open spec fn store_wf(sv: StoreView) -> bool {
    &&& distinct_keys(sv)
    &&& prefix_closed(sv)
    &&& roots_present(sv)
    &&& forall|i: int| 0 <= i < sv.len() ==> #[trigger] distinct_val_names(sv[i].2)
}

impl RegStore {
    /// The store invariant at the view level.
    pub open spec fn wf(self) -> bool {
        store_wf(self@)
    }
}

/// A value named `name` is present in the list.
pub open spec fn has_val(vals: Seq<ValueView>, name: Seq<char>) -> bool {
    exists|i: int| 0 <= i < vals.len() && vals[i].0 == name
}

/// The position of the value named `name`; meaningful only under
/// `has_val(vals, name)`, and unique under `distinct_val_names(vals)`.
pub open spec fn val_index(vals: Seq<ValueView>, name: Seq<char>) -> int {
    choose|i: int| 0 <= i < vals.len() && vals[i].0 == name
}

/// The value named `name`, if any.
pub open spec fn lookup_val(vals: Seq<ValueView>, name: Seq<char>) -> Option<ValueView> {
    if has_val(vals, name) {
        Some(vals[val_index(vals, name)])
    } else {
        None
    }
}

proof fn lemma_key_index_unique(sv: StoreView, root: RootHiveId, path: Seq<Seq<char>>, i: int)
    requires
        distinct_keys(sv),
        0 <= i < sv.len(),
        entry_is(sv[i], root, path),
    ensures
        has_key(sv, root, path),
        key_index(sv, root, path) == i,
{
    assert(has_key(sv, root, path));
    let j = key_index(sv, root, path);
    assert(0 <= j < sv.len() && entry_is(sv[j], root, path));
}

proof fn lemma_val_index_unique(vals: Seq<ValueView>, name: Seq<char>, i: int)
    requires
        distinct_val_names(vals),
        0 <= i < vals.len(),
        vals[i].0 == name,
    ensures
        has_val(vals, name),
        val_index(vals, name) == i,
{
    assert(has_val(vals, name));
    let j = val_index(vals, name);
    assert(0 <= j < vals.len() && vals[j].0 == name);
}

fn clone_bytes(v: &Vec<u8>) -> (r: Vec<u8>)
    ensures
        r@ == v@,
{
    let mut r: Vec<u8> = Vec::new();
    let mut i: usize = 0;
    while i < v.len()
        invariant
            i <= v.len(),
            r@ =~= v@.take(i as int),
        decreases v.len() - i,
    {
        r.push(v[i]);
        i += 1;
    }
    proof {
        assert(v@.take(v@.len() as int) =~= v@);
    }
    r
}

fn clone_value(v: &ValueRecord) -> (r: ValueRecord)
    ensures
        val_view(r) == val_view(*v),
{
    ValueRecord {
        name: v.name.clone(),
        data: RegistryItemValue { raw_value: clone_bytes(&v.data.raw_value), vtype: v.data.vtype },
    }
}

fn clone_values(vs: &Vec<ValueRecord>) -> (r: Vec<ValueRecord>)
    ensures
        vals_view(r@) == vals_view(vs@),
{
    let mut r: Vec<ValueRecord> = Vec::new();
    let mut i: usize = 0;
    while i < vs.len()
        invariant
            i <= vs.len(),
            r@.len() == i,
            forall|j: int| 0 <= j < i ==> val_view(r@[j]) == val_view(vs@[j]),
        decreases vs.len() - i,
    {
        r.push(clone_value(&vs[i]));
        i += 1;
    }
    proof {
        assert(vals_view(r@) =~= vals_view(vs@));
    }
    r
}

fn clone_segments(v: &Vec<String>) -> (r: Vec<String>)
    ensures
        segs_view(r@) == segs_view(v@),
{
    let mut r: Vec<String> = Vec::new();
    let mut i: usize = 0;
    while i < v.len()
        invariant
            i <= v.len(),
            r@.len() == i,
            forall|j: int| 0 <= j < i ==> r@[j]@ == v@[j]@,
        decreases v.len() - i,
    {
        r.push(v[i].clone());
        i += 1;
    }
    proof {
        assert(segs_view(r@) =~= segs_view(v@));
    }
    r
}

fn clone_entry(e: &KeyEntry) -> (r: KeyEntry)
    ensures
        entry_view(r) == entry_view(*e),
{
    KeyEntry {
        root: e.root,
        segments: clone_segments(&e.segments),
        values: clone_values(&e.values),
    }
}

/// Compare the first `len` segments of `a` and `b`.
fn segs_match_prefix(a: &Vec<String>, b: &Vec<String>, len: usize) -> (r: bool)
    requires
        len <= a@.len(),
        len <= b@.len(),
    ensures
        r == (segs_view(a@).take(len as int) == segs_view(b@).take(len as int)),
{
    let mut i: usize = 0;
    while i < len
        invariant
            i <= len,
            len <= a@.len(),
            len <= b@.len(),
            forall|j: int| 0 <= j < i ==> a@[j]@ == b@[j]@,
        decreases len - i,
    {
        if !(a[i] == b[i]) {
            assert(segs_view(a@).take(len as int)[i as int] != segs_view(b@).take(len as int)[
                i as int
            ]);
            return false;
        }
        i += 1;
    }
    proof {
        assert(segs_view(a@).take(len as int) =~= segs_view(b@).take(len as int));
    }
    true
}

/// Compare two whole segment sequences.
fn segs_eq(a: &Vec<String>, b: &Vec<String>) -> (r: bool)
    ensures
        r == (segs_view(a@) == segs_view(b@)),
{
    if a.len() != b.len() {
        assert(segs_view(a@).len() != segs_view(b@).len());
        return false;
    }
    let r = segs_match_prefix(a, b, a.len());
    proof {
        assert(segs_view(a@).take(a@.len() as int) =~= segs_view(a@));
        assert(segs_view(b@).take(b@.len() as int) =~= segs_view(b@));
    }
    r
}

impl RegStore {
    /// A fresh store: the five hive roots and nothing else.
    pub fn new() -> (s: RegStore)
        ensures
            s.wf(),
            s@ == empty_store_view(),
    {
        let mut entries: Vec<KeyEntry> = Vec::new();
        entries.push(KeyEntry { root: RootHiveId::LocalMachine, segments: Vec::new(), values: Vec::new() });
        entries.push(KeyEntry { root: RootHiveId::CurrentUser, segments: Vec::new(), values: Vec::new() });
        entries.push(KeyEntry { root: RootHiveId::ClassesRoot, segments: Vec::new(), values: Vec::new() });
        entries.push(KeyEntry { root: RootHiveId::Users, segments: Vec::new(), values: Vec::new() });
        entries.push(KeyEntry { root: RootHiveId::CurrentConfig, segments: Vec::new(), values: Vec::new() });
        let s = RegStore { entries };
        proof {
            assert(segs_view(Seq::<String>::empty()) =~= Seq::<Seq<char>>::empty());
            assert(vals_view(Seq::<ValueRecord>::empty()) =~= Seq::<ValueView>::empty());
            assert(s@ =~= empty_store_view());
            lemma_empty_store_wf();
        }
        s
    }

    /// Find the position of the key `(root, first len segments of segs)`.
    fn find_entry_prefix(&self, root: RootHiveId, segs: &Vec<String>, len: usize) -> (r: Option<
        usize,
    >)
        requires
            distinct_keys(self@),
            len <= segs@.len(),
        ensures
            match r {
                Some(i) => {
                    &&& i < self@.len()
                    &&& entry_is(self@[i as int], root, segs_view(segs@).take(len as int))
                    &&& has_key(self@, root, segs_view(segs@).take(len as int))
                    &&& key_index(self@, root, segs_view(segs@).take(len as int)) == i
                },
                None => !has_key(self@, root, segs_view(segs@).take(len as int)),
            },
    {
        let ghost path = segs_view(segs@).take(len as int);
        let mut i: usize = 0;
        while i < self.entries.len()
            invariant
                distinct_keys(self@),
                len <= segs@.len(),
                i <= self.entries@.len(),
                self@.len() == self.entries@.len(),
                path == segs_view(segs@).take(len as int),
                forall|j: int| 0 <= j < i ==> !entry_is(self@[j], root, path),
            decreases self.entries@.len() - i,
        {
            let e = &self.entries[i];
            proof {
                assert(self@[i as int] == entry_view(self.entries@[i as int]));
            }
            if e.root == root && e.segments.len() == len {
                if segs_match_prefix(&e.segments, segs, len) {
                    proof {
                        assert(segs_view(e.segments@).take(len as int) =~= segs_view(e.segments@));
                        assert(entry_is(self@[i as int], root, path));
                        lemma_key_index_unique(self@, root, path, i as int);
                    }
                    return Some(i);
                } else {
                    proof {
                        assert(segs_view(e.segments@).take(len as int) =~= segs_view(e.segments@));
                        assert(!entry_is(self@[i as int], root, path));
                    }
                }
            } else {
                proof {
                    assert(path.len() == len as int);
                    assert(segs_view(self.entries@[i as int].segments@).len()
                        == self.entries@[i as int].segments@.len());
                    assert(!entry_is(self@[i as int], root, path));
                }
            }
            i += 1;
        }
        proof {
            assert(!has_key(self@, root, path));
        }
        None
    }

    /// Find the position of the key `(root, segs)`.
    fn find_entry(&self, root: RootHiveId, segs: &Vec<String>) -> (r: Option<usize>)
        requires
            distinct_keys(self@),
        ensures
            match r {
                Some(i) => {
                    &&& i < self@.len()
                    &&& entry_is(self@[i as int], root, segs_view(segs@))
                    &&& has_key(self@, root, segs_view(segs@))
                    &&& key_index(self@, root, segs_view(segs@)) == i
                },
                None => !has_key(self@, root, segs_view(segs@)),
            },
    {
        let r = self.find_entry_prefix(root, segs, segs.len());
        proof {
            assert(segs_view(segs@).take(segs@.len() as int) =~= segs_view(segs@));
        }
        r
    }
}

/// The view of a fresh store: the five hive roots, each with no values.
pub open spec fn empty_store_view() -> StoreView {
    seq![
        (RootHiveId::LocalMachine, Seq::<Seq<char>>::empty(), Seq::<ValueView>::empty()),
        (RootHiveId::CurrentUser, Seq::<Seq<char>>::empty(), Seq::<ValueView>::empty()),
        (RootHiveId::ClassesRoot, Seq::<Seq<char>>::empty(), Seq::<ValueView>::empty()),
        (RootHiveId::Users, Seq::<Seq<char>>::empty(), Seq::<ValueView>::empty()),
        (RootHiveId::CurrentConfig, Seq::<Seq<char>>::empty(), Seq::<ValueView>::empty()),
    ]
}

/// The entry `e` lies at or below the key `(root, path)`.
pub open spec fn under(e: EntryView, root: RootHiveId, path: Seq<Seq<char>>) -> bool {
    e.0 == root && path.len() <= e.1.len() && e.1.take(path.len() as int) == path
}

/// The predicate an entry must satisfy to survive deleting `(root, path)`.
pub open spec fn keep_pred(root: RootHiveId, path: Seq<Seq<char>>) -> spec_fn(EntryView) -> bool {
    |e: EntryView| !under(e, root, path)
}

/// Deleting `(root, path)`: every entry at or below it goes, the rest stay,
/// in order.
pub open spec fn spec_delete(sv: StoreView, root: RootHiveId, path: Seq<Seq<char>>) -> StoreView {
    sv.filter(keep_pred(root, path))
}

/// The predicate of being an immediate child of the key `(root, path)`.
pub open spec fn child_pred(root: RootHiveId, path: Seq<Seq<char>>) -> spec_fn(EntryView) -> bool {
    |e: EntryView| e.0 == root && e.1.len() == path.len() + 1 && e.1.take(path.len() as int) == path
}

/// The entries that are immediate children of `(root, path)`, in store order.
pub open spec fn child_entries(sv: StoreView, root: RootHiveId, path: Seq<Seq<char>>) -> Seq<
    EntryView,
> {
    sv.filter(child_pred(root, path))
}

/// The names of the immediate children of `(root, path)`, in store order.
pub open spec fn child_names(sv: StoreView, root: RootHiveId, path: Seq<Seq<char>>) -> Seq<
    Seq<char>,
> {
    child_entries(sv, root, path).map_values(|e: EntryView| e.1.last())
}

/// Creating the chain of the first `n` ancestors of `(root, path)`: each
/// missing prefix is appended, shortest first, with no values.
pub open spec fn spec_create_upto(
    sv: StoreView,
    root: RootHiveId,
    path: Seq<Seq<char>>,
    n: int,
) -> StoreView
    decreases n,
{
    if n <= 0 {
        sv
    } else {
        let prev = spec_create_upto(sv, root, path, n - 1);
        if has_key(prev, root, path.take(n)) {
            prev
        } else {
            prev.push((root, path.take(n), Seq::empty()))
        }
    }
}

/// Creating the key `(root, path)` together with all its ancestors.
pub open spec fn spec_create(sv: StoreView, root: RootHiveId, path: Seq<Seq<char>>) -> StoreView {
    spec_create_upto(sv, root, path, path.len() as int)
}

/// Applying one value: an existing value of the same name is replaced in
/// place, a new name is appended.
pub open spec fn spec_set_value(vals: Seq<ValueView>, v: ValueView) -> Seq<ValueView> {
    if has_val(vals, v.0) {
        vals.update(val_index(vals, v.0), v)
    } else {
        vals.push(v)
    }
}

/// Applying the first `n` of a list of values, in order.
pub open spec fn spec_set_values(vals: Seq<ValueView>, updates: Seq<ValueView>, n: int) -> Seq<
    ValueView,
>
    decreases n,
{
    if n <= 0 {
        vals
    } else {
        spec_set_value(spec_set_values(vals, updates, n - 1), updates[n - 1])
    }
}

/// Writing `updates` to `(root, path)`: the chain of keys is created, then
/// the updates are applied to the key's value list, in order.
pub open spec fn spec_put(
    sv: StoreView,
    root: RootHiveId,
    path: Seq<Seq<char>>,
    updates: Seq<ValueView>,
) -> StoreView {
    let created = spec_create(sv, root, path);
    let i = key_index(created, root, path);
    created.update(i, (root, path, spec_set_values(created[i].2, updates, updates.len() as int)))
}

proof fn lemma_push_entry_preserves(sv: StoreView, e: EntryView)
    ensures
        forall|r2: RootHiveId, q: Seq<Seq<char>>|
            #[trigger] has_key(sv, r2, q) ==> has_key(sv.push(e), r2, q),
{
    assert forall|r2: RootHiveId, q: Seq<Seq<char>>| #[trigger]
        has_key(sv, r2, q) implies has_key(sv.push(e), r2, q) by {
        let i = key_index(sv, r2, q);
        assert(0 <= i < sv.len() && entry_is(sv[i], r2, q));
        assert(entry_is(sv.push(e)[i], r2, q));
    }
}

/// Pushing a fresh entry with all its ancestors present keeps the store
/// invariant, adds exactly that key, and touches no value list.
proof fn lemma_push_fresh_entry(sv: StoreView, root: RootHiveId, p: Seq<Seq<char>>)
    requires
        store_wf(sv),
        !has_key(sv, root, p),
        forall|k: int| 0 <= k < p.len() ==> #[trigger] has_key(sv, root, p.take(k)),
    ensures
        store_wf(sv.push((root, p, Seq::empty()))),
        forall|r2: RootHiveId, q: Seq<Seq<char>>|
            #[trigger] has_key(sv.push((root, p, Seq::empty())), r2, q) <==> (has_key(sv, r2, q)
                || (r2 == root && q == p)),
        forall|r2: RootHiveId, q: Seq<Seq<char>>|
            #[trigger] has_key(sv, r2, q) ==> vals_of(sv.push((root, p, Seq::empty())), r2, q)
                == vals_of(sv, r2, q),
        vals_of(sv.push((root, p, Seq::empty())), root, p) == Seq::<ValueView>::empty(),
{
    let e = (root, p, Seq::<ValueView>::empty());
    let sv2 = sv.push(e);
    lemma_push_entry_preserves(sv, e);
    assert(entry_is(sv2[sv.len() as int], root, p));
    assert(has_key(sv2, root, p));

    // Key set: exactly the old keys plus (root, p).
    assert forall|r2: RootHiveId, q: Seq<Seq<char>>| #[trigger]
        has_key(sv2, r2, q) implies (has_key(sv, r2, q) || (r2 == root && q == p)) by {
        let i = key_index(sv2, r2, q);
        assert(0 <= i < sv2.len() && entry_is(sv2[i], r2, q));
        if i < sv.len() {
            assert(entry_is(sv[i], r2, q));
            assert(has_key(sv, r2, q));
        }
    }

    // Distinctness.
    assert forall|i: int, j: int| 0 <= i < j < sv2.len() implies !(sv2[i].0 == sv2[j].0
        && sv2[i].1 == sv2[j].1) by {
        if j == sv.len() {
            if sv2[i].0 == root && sv2[i].1 == p {
                assert(entry_is(sv[i], root, p));
                assert(has_key(sv, root, p));
            }
        }
    }

    // Prefix closure.
    assert forall|i: int, k: int| 0 <= i < sv2.len() && 0 <= k <= sv2[i].1.len() implies #[trigger]
        has_key(sv2, sv2[i].0, sv2[i].1.take(k)) by {
        if i < sv.len() {
            assert(has_key(sv, sv[i].0, sv[i].1.take(k)));
        } else {
            if k == p.len() {
                assert(p.take(k) =~= p);
                assert(has_key(sv2, root, p));
            } else {
                assert(has_key(sv, root, p.take(k)));
            }
        }
    }

    // Roots stay present.
    assert forall|h: RootHiveId| #[trigger] has_key(sv2, h, Seq::empty()) by {
        assert(has_key(sv, h, Seq::empty()));
    }

    // Value lists are untouched.
    assert forall|r2: RootHiveId, q: Seq<Seq<char>>| #[trigger]
        has_key(sv, r2, q) implies vals_of(sv2, r2, q) == vals_of(sv, r2, q) by {
        let i = key_index(sv, r2, q);
        assert(entry_is(sv2[i], r2, q));
        lemma_key_index_unique(sv2, r2, q, i);
        lemma_key_index_unique(sv, r2, q, i);
    }
    lemma_key_index_unique(sv2, root, p, sv.len() as int);
}

/// Creating a chain of keys keeps the store invariant, makes every prefix of
/// the chain present, keeps every existing key and its values, and gives a
/// key that was absent an empty value list.
proof fn lemma_create_upto_props(sv: StoreView, root: RootHiveId, path: Seq<Seq<char>>, n: int)
    requires
        store_wf(sv),
        0 <= n <= path.len(),
    ensures
        store_wf(spec_create_upto(sv, root, path, n)),
        forall|k: int|
            0 <= k <= n ==> #[trigger] has_key(spec_create_upto(sv, root, path, n), root, path.take(k)),
        forall|r2: RootHiveId, q: Seq<Seq<char>>|
            #[trigger] has_key(sv, r2, q) ==> has_key(spec_create_upto(sv, root, path, n), r2, q),
        forall|r2: RootHiveId, q: Seq<Seq<char>>|
            #[trigger] has_key(sv, r2, q) ==> vals_of(spec_create_upto(sv, root, path, n), r2, q)
                == vals_of(sv, r2, q),
        forall|r2: RootHiveId, q: Seq<Seq<char>>|
            #[trigger] has_key(spec_create_upto(sv, root, path, n), r2, q) ==> has_key(sv, r2, q)
                || (r2 == root && q.len() <= n && q == path.take(q.len() as int)),
        forall|k: int|
            0 <= k <= n ==> #[trigger] vals_of(spec_create_upto(sv, root, path, n), root, path.take(k))
                == (if has_key(sv, root, path.take(k)) {
                    vals_of(sv, root, path.take(k))
                } else {
                    Seq::<ValueView>::empty()
                }),
    decreases n,
{
    let cv = spec_create_upto(sv, root, path, n);
    if n <= 0 {
        assert(path.take(0) =~= Seq::<Seq<char>>::empty());
        assert(has_key(sv, root, Seq::empty()));
        assert(forall|k: int|
            0 <= k <= 0 ==> path.take(k) =~= Seq::<Seq<char>>::empty());
    } else {
        lemma_create_upto_props(sv, root, path, n - 1);
        let prev = spec_create_upto(sv, root, path, n - 1);
        if has_key(prev, root, path.take(n)) {
            assert(cv == prev);
            // The key of length n cannot have been created by the shorter
            // chain, so it was already in the store and kept its values.
            assert(has_key(sv, root, path.take(n)));
        } else {
            let p = path.take(n);
            assert forall|k: int| 0 <= k < p.len() implies #[trigger] has_key(prev, root, p.take(k)) by {
                assert(p.take(k) =~= path.take(k));
            }
            lemma_push_fresh_entry(prev, root, p);
            assert(!has_key(sv, root, p));
            assert forall|k: int| 0 <= k <= n implies #[trigger] has_key(cv, root, path.take(k)) by {
                if k < n {
                    assert(has_key(prev, root, path.take(k)));
                }
            }
        }
    }
}

/// Replacing the entry at `i` by one with the same key keeps the store
/// invariant when the new value names are distinct, changes no key, and
/// changes no value list but that key's.
proof fn lemma_update_same_key(sv: StoreView, i: int, e: EntryView)
    requires
        store_wf(sv),
        0 <= i < sv.len(),
        e.0 == sv[i].0,
        e.1 == sv[i].1,
        distinct_val_names(e.2),
    ensures
        store_wf(sv.update(i, e)),
        forall|r2: RootHiveId, q: Seq<Seq<char>>|
            #[trigger] has_key(sv.update(i, e), r2, q) == has_key(sv, r2, q),
        vals_of(sv.update(i, e), e.0, e.1) == e.2,
        forall|r2: RootHiveId, q: Seq<Seq<char>>|
            !(r2 == e.0 && q == e.1) ==> #[trigger] vals_of(sv.update(i, e), r2, q) == vals_of(
                sv,
                r2,
                q,
            ),
{
    let sv2 = sv.update(i, e);
    assert forall|r2: RootHiveId, q: Seq<Seq<char>>| #[trigger]
        has_key(sv2, r2, q) == has_key(sv, r2, q) by {
        if has_key(sv2, r2, q) {
            let t = key_index(sv2, r2, q);
            assert(entry_is(sv[t], r2, q));
        }
        if has_key(sv, r2, q) {
            let t = key_index(sv, r2, q);
            assert(entry_is(sv2[t], r2, q));
        }
    }
    assert forall|ii: int, k: int| 0 <= ii < sv2.len() && 0 <= k <= sv2[ii].1.len() implies
        #[trigger] has_key(sv2, sv2[ii].0, sv2[ii].1.take(k)) by {
        assert(sv2[ii].0 == sv[ii].0 && sv2[ii].1 == sv[ii].1);
        assert(has_key(sv, sv[ii].0, sv[ii].1.take(k)));
    }
    assert forall|h: RootHiveId| #[trigger] has_key(sv2, h, Seq::empty()) by {
        assert(has_key(sv, h, Seq::empty()));
    }
    lemma_key_index_unique(sv2, e.0, e.1, i);
    assert forall|r2: RootHiveId, q: Seq<Seq<char>>| !(r2 == e.0 && q == e.1) implies #[trigger]
        vals_of(sv2, r2, q) == vals_of(sv, r2, q) by {
        if has_key(sv, r2, q) {
            let t = key_index(sv, r2, q);
            assert(entry_is(sv2[t], r2, q));
            assert(t != i);
            lemma_key_index_unique(sv2, r2, q, t);
        }
    }
}

/// Applying one value keeps names distinct, makes that name carry exactly
/// that value, and leaves every other name's lookup unchanged.
proof fn lemma_set_value(vals: Seq<ValueView>, v: ValueView)
    requires
        distinct_val_names(vals),
    ensures
        distinct_val_names(spec_set_value(vals, v)),
        lookup_val(spec_set_value(vals, v), v.0) == Some(v),
        forall|nm: Seq<char>|
            nm != v.0 ==> #[trigger] lookup_val(spec_set_value(vals, v), nm) == lookup_val(
                vals,
                nm,
            ),
{
    let out = spec_set_value(vals, v);
    if has_val(vals, v.0) {
        let i = val_index(vals, v.0);
        assert(0 <= i < vals.len() && vals[i].0 == v.0);
        assert forall|a: int, b: int| 0 <= a < b < out.len() implies out[a].0 != out[b].0 by {
            assert(out[a].0 == vals[a].0 && out[b].0 == vals[b].0);
        }
        lemma_val_index_unique(out, v.0, i);
        assert forall|nm: Seq<char>| nm != v.0 implies #[trigger] lookup_val(out, nm)
            == lookup_val(vals, nm) by {
            if has_val(out, nm) {
                let t = val_index(out, nm);
                assert(t != i);
                assert(vals[t].0 == nm);
                lemma_val_index_unique(vals, nm, t);
            }
            if has_val(vals, nm) {
                let t = val_index(vals, nm);
                assert(t != i);
                assert(out[t].0 == nm);
                lemma_val_index_unique(out, nm, t);
            }
        }
    } else {
        let n = vals.len() as int;
        assert forall|a: int, b: int| 0 <= a < b < out.len() implies out[a].0 != out[b].0 by {
            if b == n {
                assert(out[a].0 == vals[a].0);
                assert(has_val(vals, v.0) == false);
                if vals[a].0 == v.0 {
                    assert(has_val(vals, v.0));
                }
            } else {
                assert(out[a].0 == vals[a].0 && out[b].0 == vals[b].0);
            }
        }
        lemma_val_index_unique(out, v.0, n);
        assert forall|nm: Seq<char>| nm != v.0 implies #[trigger] lookup_val(out, nm)
            == lookup_val(vals, nm) by {
            if has_val(out, nm) {
                let t = val_index(out, nm);
                assert(t != n);
                assert(vals[t].0 == nm);
                lemma_val_index_unique(vals, nm, t);
            }
            if has_val(vals, nm) {
                let t = val_index(vals, nm);
                assert(out[t].0 == nm);
                lemma_val_index_unique(out, nm, t);
            }
        }
    }
}

/// Applying a list of values in order: names stay distinct; a name whose
/// last occurrence among the first `n` updates is at `i` ends up carrying
/// `updates[i]`; a name no update touches keeps its old lookup.
proof fn lemma_set_values(vals: Seq<ValueView>, updates: Seq<ValueView>, n: int)
    requires
        distinct_val_names(vals),
        0 <= n <= updates.len(),
    ensures
        distinct_val_names(spec_set_values(vals, updates, n)),
        forall|i: int|
            0 <= i < n && (forall|j: int| i < j < n ==> updates[j].0 != updates[i].0)
                ==> #[trigger] lookup_val(spec_set_values(vals, updates, n), updates[i].0)
                == Some(updates[i]),
        forall|nm: Seq<char>|
            (forall|i: int| 0 <= i < n ==> updates[i].0 != nm) ==> #[trigger] lookup_val(
                spec_set_values(vals, updates, n),
                nm,
            ) == lookup_val(vals, nm),
    decreases n,
{
    if n > 0 {
        lemma_set_values(vals, updates, n - 1);
        let prev = spec_set_values(vals, updates, n - 1);
        let out = spec_set_values(vals, updates, n);
        lemma_set_value(prev, updates[n - 1]);
        assert(out == spec_set_value(prev, updates[n - 1]));
        assert forall|i: int|
            0 <= i < n && (forall|j: int| i < j < n ==> updates[j].0 != updates[i].0)
                implies #[trigger] lookup_val(out, updates[i].0) == Some(updates[i]) by {
            if i == n - 1 {
                assert(lookup_val(out, updates[n - 1].0) == Some(updates[n - 1]));
            } else {
                assert(updates[n - 1].0 != updates[i].0);
                assert(forall|j: int| i < j < n - 1 ==> updates[j].0 != updates[i].0);
                assert(lookup_val(prev, updates[i].0) == Some(updates[i]));
                assert(lookup_val(out, updates[i].0) == lookup_val(prev, updates[i].0));
            }
        }
        assert forall|nm: Seq<char>|
            (forall|i: int| 0 <= i < n ==> updates[i].0 != nm) implies #[trigger] lookup_val(
                out,
                nm,
            ) == lookup_val(vals, nm) by {
            assert(updates[n - 1].0 != nm);
            assert(forall|i: int| 0 <= i < n - 1 ==> updates[i].0 != nm);
            assert(lookup_val(prev, nm) == lookup_val(vals, nm));
        }
    }
}

/// Every element of a filtered sequence satisfies the predicate and comes
/// from the original sequence; filtering keeps key distinctness.
proof fn lemma_filter_keeps(sv: Seq<EntryView>, pred: spec_fn(EntryView) -> bool)
    ensures
        forall|x: EntryView| #[trigger] sv.filter(pred).contains(x) ==> sv.contains(x) && pred(x),
        distinct_keys(sv) ==> distinct_keys(sv.filter(pred)),
    decreases sv.len(),
{
    reveal(Seq::filter);
    if sv.len() == 0 {
    } else {
        let d = sv.drop_last();
        lemma_filter_keeps(d, pred);
        let out = sv.filter(pred);
        assert forall|x: EntryView| #[trigger] out.contains(x) implies sv.contains(x) && pred(x) by {
            if d.filter(pred).contains(x) {
                assert(d.contains(x));
                let t = choose|t: int| 0 <= t < d.len() && d[t] == x;
                assert(sv[t] == x);
            } else {
                assert(x == sv.last());
                assert(sv.contains(sv[sv.len() - 1]));
            }
        }
        if distinct_keys(sv) {
            assert(distinct_keys(d));
            let df = d.filter(pred);
            if pred(sv.last()) {
                assert(out == df.push(sv.last()));
                assert forall|a: int, b: int| 0 <= a < b < out.len() implies !(out[a].0 == out[b].0
                    && out[a].1 == out[b].1) by {
                    if b == df.len() {
                        assert(out[b] == sv.last());
                        assert(df.contains(df[a]));
                        assert(d.contains(out[a]));
                        let t = choose|t: int| 0 <= t < d.len() && d[t] == out[a];
                        assert(sv[t] == out[a]);
                        assert(!(sv[t].0 == sv[sv.len() - 1].0 && sv[t].1 == sv[sv.len() - 1].1));
                    } else {
                        assert(out[a] == df[a] && out[b] == df[b]);
                    }
                }
            } else {
                assert(out == df);
            }
        }
    }
}

/// One step of filtering: extending the prefix by one element appends it to
/// the filtered prefix exactly when it satisfies the predicate.
pub(crate) proof fn lemma_filter_take_step<A>(s: Seq<A>, pred: spec_fn(A) -> bool, j: int)
    requires
        0 <= j < s.len(),
    ensures
        s.take(j + 1).filter(pred) == if pred(s[j]) {
            s.take(j).filter(pred).push(s[j])
        } else {
            s.take(j).filter(pred)
        },
{
    reveal(Seq::filter);
    let s1 = s.take(j + 1);
    assert(s1.drop_last() =~= s.take(j));
    assert(s1.last() == s[j]);
}

/// Below a key that is absent from a well-formed store there are no
/// children: prefix closure would otherwise force the key itself in.
proof fn lemma_no_key_no_children(sv: StoreView, root: RootHiveId, path: Seq<Seq<char>>)
    requires
        store_wf(sv),
        !has_key(sv, root, path),
    ensures
        child_entries(sv, root, path) == Seq::<EntryView>::empty(),
{
    lemma_filter_keeps(sv, child_pred(root, path));
    let ce = child_entries(sv, root, path);
    if ce.len() > 0 {
        let e = ce[0];
        assert(ce.contains(e));
        assert(sv.contains(e) && child_pred(root, path)(e));
        let t = choose|t: int| 0 <= t < sv.len() && sv[t] == e;
        assert(has_key(sv, sv[t].0, sv[t].1.take(path.len() as int)));
        assert(has_key(sv, root, path));
    }
    assert(ce =~= Seq::<EntryView>::empty());
}

fn set_value_in(vals: &mut Vec<ValueRecord>, v: ValueRecord)
    requires
        distinct_val_names(vals_view(old(vals)@)),
    ensures
        vals_view(final(vals)@) == spec_set_value(vals_view(old(vals)@), val_view(v)),
{
    let ghost vv = vals_view(old(vals)@);
    proof {
        assert(vv.len() == old(vals)@.len());
    }
    let mut i: usize = 0;
    while i < vals.len()
        invariant
            distinct_val_names(vv),
            vals@ == old(vals)@,
            vv == vals_view(vals@),
            vv.len() == vals@.len(),
            i <= vals@.len(),
            forall|j: int| 0 <= j < i ==> vv[j].0 != v.name@,
        decreases vals@.len() - i,
    {
        if vals[i].name == v.name {
            proof {
                assert(vv[i as int] == val_view(vals@[i as int]));
                assert(vv[i as int].0 == v.name@);
                lemma_val_index_unique(vv, v.name@, i as int);
            }
            vals.set(i, v);
            proof {
                assert(vals_view(vals@) =~= vv.update(i as int, val_view(v)));
            }
            return;
        }
        proof {
            assert(vv[i as int] == val_view(vals@[i as int]));
        }
        i += 1;
    }
    proof {
        assert(!has_val(vv, v.name@));
    }
    vals.push(v);
    proof {
        assert(vals_view(vals@) =~= vv.push(val_view(v)));
    }
}

impl RegStore {
    /// Read the key an address names: whether it exists, the names of its
    /// immediate children, and its values, in store order.
    ///
    /// A missing key is not an error: it reads as `exists: false` with both
    /// lists empty.
    pub fn read(&self, addr: &RegistryAddress) -> (snap: RegistryItem)
        requires
            self.wf(),
        ensures
            snap.exists == has_key(self@, addr.root, segs_view(addr.segments@)),
            segs_view(snap.keys@) == child_names(self@, addr.root, segs_view(addr.segments@)),
            vals_view(snap.values@) == vals_of(self@, addr.root, segs_view(addr.segments@)),
            !snap.exists ==> snap.keys@.len() == 0 && snap.values@.len() == 0,
    {
        let ghost path = segs_view(addr.segments@);
        let found = self.find_entry(addr.root, &addr.segments);
        match found {
            None => {
                let snap = RegistryItem { exists: false, keys: Vec::new(), values: Vec::new() };
                proof {
                    lemma_no_key_no_children(self@, addr.root, path);
                    assert(segs_view(snap.keys@) =~= child_names(self@, addr.root, path));
                    assert(vals_view(snap.values@) =~= Seq::<ValueView>::empty());
                }
                snap
            },
            Some(idx) => {
                let plen = addr.segments.len();
                let mut keys: Vec<String> = Vec::new();
                proof {
                    assert(self@.take(0) =~= Seq::<EntryView>::empty());
                    reveal(Seq::filter);
                    assert(segs_view(keys@) =~= self@.take(0).filter(
                        child_pred(addr.root, path),
                    ).map_values(|e: EntryView| e.1.last()));
                }
                let mut j: usize = 0;
                while j < self.entries.len()
                    invariant
                        self.wf(),
                        j <= self.entries@.len(),
                        self@.len() == self.entries@.len(),
                        path == segs_view(addr.segments@),
                        plen == addr.segments@.len(),
                        segs_view(keys@) == self@.take(j as int).filter(
                            child_pred(addr.root, path),
                        ).map_values(|e: EntryView| e.1.last()),
                    decreases self.entries@.len() - j,
                {
                    let e = &self.entries[j];
                    proof {
                        assert(self@[j as int] == entry_view(self.entries@[j as int]));
                        lemma_filter_take_step(self@, child_pred(addr.root, path), j as int);
                        assert(segs_view(addr.segments@).take(plen as int) =~= path);
                    }
                    let elen = e.segments.len();
                    if e.root == addr.root && elen > 0 && elen - 1 == plen {
                        if segs_match_prefix(&e.segments, &addr.segments, plen) {
                            proof {
                                assert(child_pred(addr.root, path)(self@[j as int]));
                            }
                            let ghost old_keys = keys@;
                            keys.push(e.segments[elen - 1].clone());
                            proof {
                                let f = |ev: EntryView| ev.1.last();
                                assert(segs_view(keys@) =~= segs_view(old_keys).push(
                                    self@[j as int].1.last(),
                                ));
                                assert(self@.take(j as int).filter(
                                    child_pred(addr.root, path),
                                ).push(self@[j as int]).map_values(f) =~= self@.take(j as int).filter(
                                    child_pred(addr.root, path),
                                ).map_values(f).push(f(self@[j as int])));
                            }
                        } else {
                            proof {
                                assert(self@[j as int].1.take(plen as int) != path);
                                assert(!child_pred(addr.root, path)(self@[j as int]));
                            }
                        }
                    } else {
                        proof {
                            assert(!child_pred(addr.root, path)(self@[j as int]));
                        }
                    }
                    j += 1;
                }
                let values = clone_values(&self.entries[idx].values);
                proof {
                    assert(self@.take(self@.len() as int) =~= self@);
                    assert(self@[idx as int] == entry_view(self.entries@[idx as int]));
                }
                RegistryItem { exists: true, keys, values }
            },
        }
    }

    /// Create the key an address names, along with every missing ancestor,
    /// shortest first. Creating an existing key changes nothing.
    pub fn create_key(&mut self, addr: &RegistryAddress)
        requires
            old(self).wf(),
        ensures
            final(self).wf(),
            final(self)@ == spec_create(old(self)@, addr.root, segs_view(addr.segments@)),
            has_key(final(self)@, addr.root, segs_view(addr.segments@)),
    {
        let ghost sv0 = self@;
        let ghost path = segs_view(addr.segments@);
        let len = addr.segments.len();
        proof {
            assert(path.take(0) =~= Seq::<Seq<char>>::empty());
            assert(has_key(self@, addr.root, Seq::empty()));
        }
        let mut j: usize = 0;
        while j < len
            invariant
                len == addr.segments@.len(),
                path == segs_view(addr.segments@),
                j <= len,
                store_wf(sv0),
                store_wf(self@),
                self@ == spec_create_upto(sv0, addr.root, path, j as int),
                forall|k: int| 0 <= k <= j ==> #[trigger] has_key(self@, addr.root, path.take(k)),
            decreases len - j,
        {
            let jp = j + 1;
            let r = self.find_entry_prefix(addr.root, &addr.segments, jp);
            let ghost pre = self@;
            match r {
                Some(_) => {
                    proof {
                        assert(spec_create_upto(sv0, addr.root, path, j + 1) == pre);
                    }
                },
                None => {
                    let mut prefix: Vec<String> = Vec::new();
                    let mut k: usize = 0;
                    while k < jp
                        invariant
                            k <= jp,
                            jp <= addr.segments@.len(),
                            prefix@.len() == k,
                            forall|t: int| 0 <= t < k ==> prefix@[t]@ == addr.segments@[t]@,
                        decreases jp - k,
                    {
                        prefix.push(addr.segments[k].clone());
                        k += 1;
                    }
                    proof {
                        assert(segs_view(prefix@) =~= path.take(j + 1));
                        assert forall|k2: int|
                            0 <= k2 < path.take(j + 1).len() implies #[trigger] has_key(
                            pre,
                            addr.root,
                            path.take(j + 1).take(k2),
                        ) by {
                            assert(path.take(j + 1).take(k2) =~= path.take(k2));
                        }
                        lemma_push_fresh_entry(pre, addr.root, path.take(j + 1));
                    }
                    self.entries.push(
                        KeyEntry { root: addr.root, segments: prefix, values: Vec::new() },
                    );
                    proof {
                        assert(vals_view(Seq::<ValueRecord>::empty()) =~= Seq::<
                            ValueView,
                        >::empty());
                        assert(self@ =~= pre.push(
                            (addr.root, path.take(j + 1), Seq::<ValueView>::empty()),
                        ));
                    }
                },
            }
            proof {
                assert forall|k: int| 0 <= k <= j + 1 implies #[trigger] has_key(
                    self@,
                    addr.root,
                    path.take(k),
                ) by {
                    if k <= j {
                        assert(has_key(pre, addr.root, path.take(k)));
                        if self@ != pre {
                            assert(has_key(self@, addr.root, path.take(k)));
                        }
                    }
                }
            }
            j += 1;
        }
        proof {
            assert(path.take(len as int) =~= path);
        }
    }

    /// Write a list of values to the key an address names. The key and its
    /// missing ancestors are created first; then each value is applied in
    /// order, replacing an existing value of the same name and appending a
    /// new name.
    pub fn put(&mut self, addr: &RegistryAddress, values: &Vec<ValueRecord>)
        requires
            old(self).wf(),
        ensures
            final(self).wf(),
            final(self)@ == spec_put(
                old(self)@,
                addr.root,
                segs_view(addr.segments@),
                vals_view(values@),
            ),
    {
        let ghost sv0 = self@;
        let ghost path = segs_view(addr.segments@);
        let ghost updates = vals_view(values@);
        self.create_key(addr);
        let ghost created = self@;
        let idx = match self.find_entry(addr.root, &addr.segments) {
            Some(i) => i,
            None => {
                proof {
                    assert(false);
                }
                0
            },
        };
        let mut vals = clone_values(&self.entries[idx].values);
        proof {
            assert(self@[idx as int] == entry_view(self.entries@[idx as int]));
            assert(vals_view(vals@) == created[idx as int].2);
            assert(distinct_val_names(created[idx as int].2));
        }
        let ghost base = vals_view(vals@);
        let mut t: usize = 0;
        while t < values.len()
            invariant
                t <= values@.len(),
                updates == vals_view(values@),
                updates.len() == values@.len(),
                distinct_val_names(vals_view(vals@)),
                vals_view(vals@) == spec_set_values(base, updates, t as int),
            decreases values@.len() - t,
        {
            proof {
                lemma_set_value(vals_view(vals@), val_view(values@[t as int]));
                assert(updates[t as int] == val_view(values@[t as int]));
            }
            set_value_in(&mut vals, clone_value(&values[t]));
            t += 1;
        }
        let root2 = self.entries[idx].root;
        let segs2 = clone_segments(&self.entries[idx].segments);
        let ghost newvals = vals_view(vals@);
        self.entries.set(idx, KeyEntry { root: root2, segments: segs2, values: vals });
        proof {
            assert(self@ =~= created.update(idx as int, (addr.root, path, newvals)));
            lemma_update_same_key(created, idx as int, (addr.root, path, newvals));
        }
    }

    /// Delete the key an address names, together with every key beneath it.
    ///
    /// Deleting a key that does not exist is an error, and a hive root
    /// itself can never be deleted.
    pub fn delete(&mut self, addr: &RegistryAddress) -> (r: Result<(), RegError>)
        requires
            old(self).wf(),
        ensures
            final(self).wf(),
            match r {
                Ok(_) => {
                    &&& segs_view(addr.segments@).len() > 0
                    &&& has_key(old(self)@, addr.root, segs_view(addr.segments@))
                    &&& final(self)@ == spec_delete(
                        old(self)@,
                        addr.root,
                        segs_view(addr.segments@),
                    )
                },
                Err(e) => {
                    &&& final(self)@ == old(self)@
                    &&& !(segs_view(addr.segments@).len() > 0 && has_key(
                        old(self)@,
                        addr.root,
                        segs_view(addr.segments@),
                    ))
                    &&& e is StoreError
                },
            },
    {
        let ghost sv0 = self@;
        let ghost path = segs_view(addr.segments@);
        if addr.segments.len() == 0 {
            return Err(
                RegError::StoreError { reason: "a hive root cannot be deleted".to_owned() },
            );
        }
        if self.find_entry(addr.root, &addr.segments).is_none() {
            return Err(RegError::StoreError { reason: "key does not exist".to_owned() });
        }
        let plen = addr.segments.len();
        let mut kept: Vec<KeyEntry> = Vec::new();
        proof {
            assert(sv0.take(0) =~= Seq::<EntryView>::empty());
            reveal(Seq::filter);
            assert(kept@.map_values(|e: KeyEntry| entry_view(e)) =~= sv0.take(0).filter(
                keep_pred(addr.root, path),
            ));
        }
        let mut j: usize = 0;
        while j < self.entries.len()
            invariant
                store_wf(sv0),
                self@ == sv0,
                path == segs_view(addr.segments@),
                plen == addr.segments@.len(),
                plen > 0,
                j <= self.entries@.len(),
                self@.len() == self.entries@.len(),
                kept@.map_values(|e: KeyEntry| entry_view(e)) == sv0.take(j as int).filter(
                    keep_pred(addr.root, path),
                ),
            decreases self.entries@.len() - j,
        {
            let e = &self.entries[j];
            proof {
                assert(self@[j as int] == entry_view(self.entries@[j as int]));
                lemma_filter_take_step(sv0, keep_pred(addr.root, path), j as int);
                assert(segs_view(addr.segments@).take(plen as int) =~= path);
            }
            let mut is_under = false;
            if e.root == addr.root && e.segments.len() >= plen {
                if segs_match_prefix(&e.segments, &addr.segments, plen) {
                    is_under = true;
                    proof {
                        assert(under(self@[j as int], addr.root, path));
                    }
                } else {
                    proof {
                        assert(self@[j as int].1.take(plen as int) != path);
                        assert(!under(self@[j as int], addr.root, path));
                    }
                }
            } else {
                proof {
                    assert(!under(self@[j as int], addr.root, path));
                }
            }
            if !is_under {
                let ghost old_kept = kept@;
                kept.push(clone_entry(e));
                proof {
                    assert(kept@.map_values(|ke: KeyEntry| entry_view(ke)) =~= old_kept.map_values(
                        |ke: KeyEntry| entry_view(ke),
                    ).push(self@[j as int]));
                }
            }
            j += 1;
        }
        self.entries = kept;
        proof {
            assert(sv0.take(sv0.len() as int) =~= sv0);
            lemma_delete_removes_subtree(sv0, addr.root, path);
        }
        Ok(())
    }
}

/// Deleting a key removes it and every descendant: afterwards neither the
/// key nor anything at or below it is present, every other key is untouched
/// with its values, and the store invariant still holds.
pub proof fn lemma_delete_removes_subtree(sv: StoreView, root: RootHiveId, path: Seq<Seq<char>>)
    requires
        store_wf(sv),
        path.len() > 0,
    ensures
        store_wf(spec_delete(sv, root, path)),
        forall|q: Seq<Seq<char>>|
            path.len() <= q.len() && q.take(path.len() as int) == path ==> !#[trigger] has_key(
                spec_delete(sv, root, path),
                root,
                q,
            ),
        forall|r2: RootHiveId, q: Seq<Seq<char>>|
            !(r2 == root && path.len() <= q.len() && q.take(path.len() as int) == path)
                ==> #[trigger] has_key(spec_delete(sv, root, path), r2, q) == has_key(sv, r2, q),
        forall|r2: RootHiveId, q: Seq<Seq<char>>|
            #[trigger] has_key(spec_delete(sv, root, path), r2, q) ==> vals_of(
                spec_delete(sv, root, path),
                r2,
                q,
            ) == vals_of(sv, r2, q),
{
    broadcast use vstd::seq_lib::group_filter_ensures;

    let pred = keep_pred(root, path);
    let out = spec_delete(sv, root, path);
    lemma_filter_keeps(sv, pred);

    // Nothing at or below the deleted key survives.
    assert forall|q: Seq<Seq<char>>|
        path.len() <= q.len() && q.take(path.len() as int) == path implies !has_key(
        out,
        root,
        q,
    ) by {
        if has_key(out, root, q) {
            let i = key_index(out, root, q);
            assert(out.contains(out[i]));
            assert(pred(out[i]));
            assert(under(out[i], root, path));
        }
    }

    // Keys outside the subtree survive exactly as they were.
    assert forall|r2: RootHiveId, q: Seq<Seq<char>>|
        !(r2 == root && path.len() <= q.len() && q.take(path.len() as int) == path)
            implies #[trigger] has_key(out, r2, q) == has_key(sv, r2, q) by {
        if has_key(out, r2, q) {
            let i = key_index(out, r2, q);
            assert(out.contains(out[i]));
            assert(sv.contains(out[i]));
            let t = choose|t: int| 0 <= t < sv.len() && sv[t] == out[i];
            assert(entry_is(sv[t], r2, q));
            assert(has_key(sv, r2, q));
        }
        if has_key(sv, r2, q) {
            let t = key_index(sv, r2, q);
            assert(!under(sv[t], root, path));
            assert(out.contains(sv[t]));
            let i = choose|i: int| 0 <= i < out.len() && out[i] == sv[t];
            assert(entry_is(out[i], r2, q));
            assert(has_key(out, r2, q));
        }
    }

    // Surviving keys keep their value lists.
    assert forall|r2: RootHiveId, q: Seq<Seq<char>>| #[trigger]
        has_key(out, r2, q) implies vals_of(out, r2, q) == vals_of(sv, r2, q) by {
        let i = key_index(out, r2, q);
        assert(out.contains(out[i]));
        assert(sv.contains(out[i]));
        let t = choose|t: int| 0 <= t < sv.len() && sv[t] == out[i];
        lemma_key_index_unique(sv, r2, q, t);
    }

    // The invariant survives: distinct keys, prefix closure, roots, value
    // name distinctness.
    assert forall|i: int, k: int| 0 <= i < out.len() && 0 <= k <= out[i].1.len() implies
        #[trigger] has_key(out, out[i].0, out[i].1.take(k)) by {
        assert(out.contains(out[i]));
        assert(sv.contains(out[i]));
        let t = choose|t: int| 0 <= t < sv.len() && sv[t] == out[i];
        assert(has_key(sv, sv[t].0, sv[t].1.take(k)));
        if out[i].0 == root && path.len() <= k && out[i].1.take(k).take(path.len() as int)
            == path {
            assert(out[i].1.take(k).take(path.len() as int) =~= out[i].1.take(
                path.len() as int,
            ));
            assert(under(out[i], root, path));
            assert(pred(out[i]));
        }
        assert(has_key(out, out[i].0, out[i].1.take(k)));
    }
    assert forall|h: RootHiveId| #[trigger] has_key(out, h, Seq::empty()) by {
        assert(has_key(sv, h, Seq::empty()));
        assert(Seq::<Seq<char>>::empty().len() == 0);
    }
    assert forall|i: int| 0 <= i < out.len() implies #[trigger] distinct_val_names(out[i].2) by {
        assert(out.contains(out[i]));
        assert(sv.contains(out[i]));
        let t = choose|t: int| 0 <= t < sv.len() && sv[t] == out[i];
        assert(distinct_val_names(sv[t].2));
    }
}

/// Writing values creates the key and its whole chain of ancestors, and the
/// key afterwards carries each written value: for every update that is the
/// last of its name, looking that name up yields exactly that value, with
/// its kind and bytes.
pub proof fn lemma_put_creates_and_stores(
    sv: StoreView,
    root: RootHiveId,
    path: Seq<Seq<char>>,
    updates: Seq<ValueView>,
)
    requires
        store_wf(sv),
    ensures
        store_wf(spec_put(sv, root, path, updates)),
        forall|k: int|
            0 <= k <= path.len() ==> #[trigger] has_key(
                spec_put(sv, root, path, updates),
                root,
                path.take(k),
            ),
        has_key(spec_put(sv, root, path, updates), root, path),
        forall|i: int|
            0 <= i < updates.len() && (forall|j: int|
                i < j < updates.len() ==> updates[j].0 != updates[i].0) ==> #[trigger] lookup_val(
                vals_of(spec_put(sv, root, path, updates), root, path),
                updates[i].0,
            ) == Some(updates[i]),
{
    lemma_create_upto_props(sv, root, path, path.len() as int);
    let created = spec_create(sv, root, path);
    assert(path.take(path.len() as int) =~= path);
    assert(has_key(created, root, path));
    let ki = key_index(created, root, path);
    assert(0 <= ki < created.len() && entry_is(created[ki], root, path));
    assert(distinct_val_names(created[ki].2));
    lemma_set_values(created[ki].2, updates, updates.len() as int);
    let e = (root, path, spec_set_values(created[ki].2, updates, updates.len() as int));
    lemma_update_same_key(created, ki, e);
    let out = spec_put(sv, root, path, updates);
    assert(vals_of(out, root, path) == e.2);
    assert forall|k: int| 0 <= k <= path.len() implies #[trigger] has_key(
        out,
        root,
        path.take(k),
    ) by {
        assert(has_key(created, root, path.take(k)));
    }
}

proof fn lemma_empty_store_wf()
    ensures
        store_wf(empty_store_view()),
{
    let sv = empty_store_view();
    assert forall|i: int, k: int| 0 <= i < sv.len() && 0 <= k <= sv[i].1.len() implies #[trigger]
        has_key(sv, sv[i].0, sv[i].1.take(k)) by {
        assert(sv[i].1.take(k) =~= sv[i].1);
        assert(entry_is(sv[i], sv[i].0, sv[i].1.take(k)));
    }
    assert forall|h: RootHiveId| #[trigger] has_key(sv, h, Seq::empty()) by {
        match h {
            RootHiveId::LocalMachine => assert(entry_is(sv[0], h, Seq::empty())),
            RootHiveId::CurrentUser => assert(entry_is(sv[1], h, Seq::empty())),
            RootHiveId::ClassesRoot => assert(entry_is(sv[2], h, Seq::empty())),
            RootHiveId::Users => assert(entry_is(sv[3], h, Seq::empty())),
            RootHiveId::CurrentConfig => assert(entry_is(sv[4], h, Seq::empty())),
        }
    }
}

} // verus!
