//! Batches of operations over many addresses, under an explicit
//! partial-failure policy.
//!
//! Every batch walks its addresses strictly in order. Two policies exist,
//! and each operation names its policy rather than implying it:
//!
//! - *fail fast*: the first failing item aborts the batch; nothing computed
//!   before it is handed back, and nothing after it is attempted.
//! - *best effort*: a failing item is skipped and the batch continues; the
//!   caller receives every per-item outcome (or, for listing, exactly the
//!   successful items).

use vstd::prelude::*;

use crate::error::RegError;
use crate::path::{resolve, segments_of, segs_view, spec_resolve, token_of, RootHiveId};
use crate::store::{
    child_names, has_key, lemma_filter_take_step, spec_create, spec_delete, spec_put, vals_of,
    vals_view, PutRequest, RegStore, RegistryItem, StoreView, ValueView,
};

verus! {

/// The root hive an address resolves to; meaningful only when it resolves.
pub open spec fn resolved_root(s: Seq<char>) -> RootHiveId {
    spec_resolve(s)->Some_0.0
}

/// The path segments an address resolves to; meaningful only when it
/// resolves.
pub open spec fn resolved_segs(s: Seq<char>) -> Seq<Seq<char>> {
    segments_of(spec_resolve(s)->Some_0.1)
}

/// What reading one key yields: existence, child names, values.
pub open spec fn spec_snapshot(sv: StoreView, root: RootHiveId, path: Seq<Seq<char>>) -> (
    bool,
    Seq<Seq<char>>,
    Seq<ValueView>,
) {
    (has_key(sv, root, path), child_names(sv, root, path), vals_of(sv, root, path))
}

/// The view of one returned snapshot.
pub open spec fn snap_view(item: RegistryItem) -> (bool, Seq<Seq<char>>, Seq<ValueView>) {
    (item.exists, segs_view(item.keys@), vals_view(item.values@))
}

/// An address resolves to some hive.
pub open spec fn resolvable(s: String) -> bool {
    spec_resolve(s@) is Some
}

/// The state after creating the keys of the first `n` addresses, skipping
/// the addresses that do not resolve.
pub open spec fn run_creates(sv: StoreView, keys: Seq<String>, n: int) -> StoreView
    decreases n,
{
    if n <= 0 {
        sv
    } else {
        let prev = run_creates(sv, keys, n - 1);
        if resolvable(keys[n - 1]) {
            spec_create(prev, resolved_root(keys[n - 1]@), resolved_segs(keys[n - 1]@))
        } else {
            prev
        }
    }
}

/// The state after applying the first `n` write requests, skipping the
/// requests whose address does not resolve.
pub open spec fn run_puts(sv: StoreView, requests: Seq<PutRequest>, n: int) -> StoreView
    decreases n,
{
    if n <= 0 {
        sv
    } else {
        let prev = run_puts(sv, requests, n - 1);
        let req = requests[n - 1];
        if resolvable(req.address) {
            spec_put(
                prev,
                resolved_root(req.address@),
                resolved_segs(req.address@),
                vals_view(req.values@),
            )
        } else {
            prev
        }
    }
}

/// Deleting this address succeeds on this state: it resolves, names a key
/// below a hive root, and that key is present.
pub open spec fn delete_ok(sv: StoreView, s: Seq<char>) -> bool {
    &&& spec_resolve(s) is Some
    &&& resolved_segs(s).len() > 0
    &&& has_key(sv, resolved_root(s), resolved_segs(s))
}

/// The state after one delete: the subtree goes if the delete succeeds, and
/// nothing changes if it fails.
pub open spec fn delete_step(sv: StoreView, s: Seq<char>) -> StoreView {
    if delete_ok(sv, s) {
        spec_delete(sv, resolved_root(s), resolved_segs(s))
    } else {
        sv
    }
}

/// The state after deleting the first `n` addresses, skipping the ones that
/// fail.
pub open spec fn run_deletes(sv: StoreView, keys: Seq<String>, n: int) -> StoreView
    decreases n,
{
    if n <= 0 {
        sv
    } else {
        delete_step(run_deletes(sv, keys, n - 1), keys[n - 1]@)
    }
}

/// The error resolution reports for an address, in terms of its view.
pub open spec fn is_resolve_error(e: RegError, s: Seq<char>) -> bool {
    e matches RegError::InvalidHive { token } && token@ == token_of(s)
}

/// `k` is the position of the first address that does not resolve.
pub open spec fn is_first_unresolved(keys: Seq<String>, k: int) -> bool {
    &&& 0 <= k < keys.len()
    &&& !resolvable(keys[k])
    &&& forall|j: int| 0 <= j < k ==> resolvable(#[trigger] keys[j])
}

/// The position of the first address that does not resolve; meaningful only
/// when one exists.
pub open spec fn first_unresolved(keys: Seq<String>) -> int {
    choose|k: int| is_first_unresolved(keys, k)
}

proof fn lemma_first_unresolved_unique(keys: Seq<String>, k: int)
    requires
        is_first_unresolved(keys, k),
    ensures
        first_unresolved(keys) == k,
{
    let j = first_unresolved(keys);
    assert(is_first_unresolved(keys, j));
    if k < j {
        assert(resolvable(keys[k]));
    }
    if j < k {
        assert(resolvable(keys[j]));
    }
}

/// `k` is the position of the first request whose address does not resolve.
pub open spec fn is_first_unresolved_request(requests: Seq<PutRequest>, k: int) -> bool {
    &&& 0 <= k < requests.len()
    &&& !resolvable(requests[k].address)
    &&& forall|j: int| 0 <= j < k ==> resolvable((#[trigger] requests[j]).address)
}

/// The position of the first request whose address does not resolve;
/// meaningful only when one exists.
pub open spec fn first_unresolved_request(requests: Seq<PutRequest>) -> int {
    choose|k: int| is_first_unresolved_request(requests, k)
}

proof fn lemma_first_unresolved_request_unique(requests: Seq<PutRequest>, k: int)
    requires
        is_first_unresolved_request(requests, k),
    ensures
        first_unresolved_request(requests) == k,
{
    let j = first_unresolved_request(requests);
    assert(is_first_unresolved_request(requests, j));
    if k < j {
        assert(resolvable(requests[k].address));
    }
    if j < k {
        assert(resolvable(requests[j].address));
    }
}

/// `k` is the position of the first address whose deletion fails, each
/// earlier one applied in order.
pub open spec fn is_first_delete_failure(sv: StoreView, keys: Seq<String>, k: int) -> bool {
    &&& 0 <= k < keys.len()
    &&& !delete_ok(run_deletes(sv, keys, k), keys[k]@)
    &&& forall|j: int| 0 <= j < k ==> delete_ok(run_deletes(sv, keys, j), (#[trigger] keys[j])@)
}

/// The position of the first failing deletion; meaningful only when one
/// exists.
pub open spec fn first_delete_failure(sv: StoreView, keys: Seq<String>) -> int {
    choose|k: int| is_first_delete_failure(sv, keys, k)
}

proof fn lemma_first_delete_failure_unique(sv: StoreView, keys: Seq<String>, k: int)
    requires
        is_first_delete_failure(sv, keys, k),
    ensures
        first_delete_failure(sv, keys) == k,
{
    let j = first_delete_failure(sv, keys);
    assert(is_first_delete_failure(sv, keys, j));
    if k < j {
        assert(delete_ok(run_deletes(sv, keys, k), keys[k]@));
    }
    if j < k {
        assert(delete_ok(run_deletes(sv, keys, j), keys[j]@));
    }
}

/// Read every address, fail fast: either every address resolves and the
/// caller gets one snapshot per address, in order, or the first address
/// that fails to resolve aborts the batch and nothing is handed back.
pub fn list(store: &RegStore, keys: &Vec<String>) -> (r: Result<
    Vec<(String, RegistryItem)>,
    RegError,
>)
    requires
        store.wf(),
    ensures
        match r {
            Ok(items) => {
                &&& forall|i: int| 0 <= i < keys@.len() ==> resolvable(#[trigger] keys@[i])
                &&& items@.len() == keys@.len()
                &&& forall|i: int|
                    0 <= i < keys@.len() ==> (#[trigger] items@[i]).0 == keys@[i] && snap_view(
                        items@[i].1,
                    ) == spec_snapshot(
                        store@,
                        resolved_root(keys@[i]@),
                        resolved_segs(keys@[i]@),
                    )
            },
            Err(e) => {
                &&& is_first_unresolved(keys@, first_unresolved(keys@))
                &&& is_resolve_error(e, keys@[first_unresolved(keys@)]@)
            },
        },
{
    let mut items: Vec<(String, RegistryItem)> = Vec::new();
    let mut i: usize = 0;
    while i < keys.len()
        invariant
            store.wf(),
            i <= keys@.len(),
            items@.len() == i,
            forall|j: int| 0 <= j < i ==> resolvable(#[trigger] keys@[j]),
            forall|j: int|
                0 <= j < i ==> (#[trigger] items@[j]).0 == keys@[j] && snap_view(items@[j].1)
                    == spec_snapshot(store@, resolved_root(keys@[j]@), resolved_segs(keys@[j]@)),
        decreases keys@.len() - i,
    {
        match resolve(keys[i].as_str()) {
            Ok(addr) => {
                let item = store.read(&addr);
                items.push((keys[i].clone(), item));
            },
            Err(e) => {
                proof {
                    let k = i as int;
                    assert(is_first_unresolved(keys@, k));
                    lemma_first_unresolved_unique(keys@, k);
                }
                return Err(e);
            },
        }
        i += 1;
    }
    Ok(items)
}

/// Read every address, best effort: an address that fails to resolve is
/// skipped; the result holds exactly the addresses that resolved, in order,
/// each with its snapshot, and reports no error.
pub fn list_best_effort(store: &RegStore, keys: &Vec<String>) -> (items: Vec<
    (String, RegistryItem),
>)
    requires
        store.wf(),
    ensures
        items@.len() == keys@.filter(|s: String| resolvable(s)).len(),
        forall|i: int|
            0 <= i < items@.len() ==> (#[trigger] items@[i]).0 == keys@.filter(
                |s: String| resolvable(s),
            )[i] && snap_view(items@[i].1) == spec_snapshot(
                store@,
                resolved_root(keys@.filter(|s: String| resolvable(s))[i]@),
                resolved_segs(keys@.filter(|s: String| resolvable(s))[i]@),
            ),
{
    let ghost pred = |s: String| resolvable(s);
    let mut items: Vec<(String, RegistryItem)> = Vec::new();
    proof {
        reveal(Seq::filter);
        assert(keys@.take(0) =~= Seq::<String>::empty());
    }
    let mut i: usize = 0;
    while i < keys.len()
        invariant
            store.wf(),
            i <= keys@.len(),
            pred == (|s: String| resolvable(s)),
            items@.len() == keys@.take(i as int).filter(pred).len(),
            forall|j: int|
                0 <= j < items@.len() ==> (#[trigger] items@[j]).0 == keys@.take(i as int).filter(
                    pred,
                )[j] && snap_view(items@[j].1) == spec_snapshot(
                    store@,
                    resolved_root(keys@.take(i as int).filter(pred)[j]@),
                    resolved_segs(keys@.take(i as int).filter(pred)[j]@),
                ),
        decreases keys@.len() - i,
    {
        proof {
            lemma_filter_take_step(keys@, pred, i as int);
        }
        match resolve(keys[i].as_str()) {
            Ok(addr) => {
                proof {
                    assert(pred(keys@[i as int]));
                }
                let item = store.read(&addr);
                items.push((keys[i].clone(), item));
            },
            Err(_) => {
                proof {
                    assert(!pred(keys@[i as int]));
                }
            },
        }
        i += 1;
    }
    proof {
        assert(keys@.take(keys@.len() as int) =~= keys@);
    }
    items
}

/// Create the key of every address, fail fast: addresses are created in
/// order; the first address that fails to resolve aborts the batch, leaving
/// the keys created before it in place.
#[verifier::loop_isolation(false)]
pub fn create(store: &mut RegStore, keys: &Vec<String>) -> (r: Result<(), RegError>)
    requires
        old(store).wf(),
    ensures
        final(store).wf(),
        match r {
            Ok(_) => {
                &&& forall|i: int| 0 <= i < keys@.len() ==> resolvable(#[trigger] keys@[i])
                &&& final(store)@ == run_creates(old(store)@, keys@, keys@.len() as int)
            },
            Err(e) => {
                &&& is_first_unresolved(keys@, first_unresolved(keys@))
                &&& is_resolve_error(e, keys@[first_unresolved(keys@)]@)
                &&& final(store)@ == run_creates(old(store)@, keys@, first_unresolved(keys@))
            },
        },
{
    let ghost sv0 = store@;
    let mut i: usize = 0;
    while i < keys.len()
        invariant
            store.wf(),
            i <= keys@.len(),
            store@ == run_creates(sv0, keys@, i as int),
            forall|j: int| 0 <= j < i ==> resolvable(#[trigger] keys@[j]),
        decreases keys@.len() - i,
    {
        match resolve(keys[i].as_str()) {
            Ok(addr) => {
                store.create_key(&addr);
            },
            Err(e) => {
                proof {
                    let k = i as int;
                    assert(is_first_unresolved(keys@, k));
                    lemma_first_unresolved_unique(keys@, k);
                    assert(store@ == run_creates(sv0, keys@, k));
                }
                return Err(e);
            },
        }
        i += 1;
    }
    Ok(())
}

/// Create keys, best effort: every address is attempted; the outcome list
/// has one entry per address, in order, `None` for a success and the
/// resolution error for a failure.
pub fn create_best_effort(store: &mut RegStore, keys: &Vec<String>) -> (outcomes: Vec<
    Option<RegError>,
>)
    requires
        old(store).wf(),
    ensures
        final(store).wf(),
        final(store)@ == run_creates(old(store)@, keys@, keys@.len() as int),
        outcomes@.len() == keys@.len(),
        forall|i: int|
            0 <= i < keys@.len() ==> match outcomes@[i] {
                None => resolvable(#[trigger] keys@[i]),
                Some(e) => !resolvable(keys@[i]) && is_resolve_error(e, keys@[i]@),
            },
{
    let ghost sv0 = store@;
    let mut outcomes: Vec<Option<RegError>> = Vec::new();
    let mut i: usize = 0;
    while i < keys.len()
        invariant
            store.wf(),
            i <= keys@.len(),
            outcomes@.len() == i,
            store@ == run_creates(sv0, keys@, i as int),
            forall|j: int|
                0 <= j < i ==> match outcomes@[j] {
                    None => resolvable(#[trigger] keys@[j]),
                    Some(e) => !resolvable(keys@[j]) && is_resolve_error(e, keys@[j]@),
                },
        decreases keys@.len() - i,
    {
        match resolve(keys[i].as_str()) {
            Ok(addr) => {
                store.create_key(&addr);
                outcomes.push(None);
            },
            Err(e) => {
                outcomes.push(Some(e));
            },
        }
        i += 1;
    }
    outcomes
}

/// Apply every write request, fail fast: requests are applied in order; the
/// first request whose address fails to resolve aborts the batch, leaving
/// the writes made before it in place.
#[verifier::loop_isolation(false)]
pub fn put(store: &mut RegStore, requests: &Vec<PutRequest>) -> (r: Result<(), RegError>)
    requires
        old(store).wf(),
    ensures
        final(store).wf(),
        match r {
            Ok(_) => {
                &&& forall|i: int|
                    0 <= i < requests@.len() ==> resolvable((#[trigger] requests@[i]).address)
                &&& final(store)@ == run_puts(old(store)@, requests@, requests@.len() as int)
            },
            Err(e) => {
                &&& is_first_unresolved_request(requests@, first_unresolved_request(requests@))
                &&& is_resolve_error(
                    e,
                    requests@[first_unresolved_request(requests@)].address@,
                )
                &&& final(store)@ == run_puts(
                    old(store)@,
                    requests@,
                    first_unresolved_request(requests@),
                )
            },
        },
{
    let ghost sv0 = store@;
    let mut i: usize = 0;
    while i < requests.len()
        invariant
            store.wf(),
            i <= requests@.len(),
            store@ == run_puts(sv0, requests@, i as int),
            forall|j: int| 0 <= j < i ==> resolvable((#[trigger] requests@[j]).address),
        decreases requests@.len() - i,
    {
        let req = &requests[i];
        match resolve(req.address.as_str()) {
            Ok(addr) => {
                store.put(&addr, &req.values);
            },
            Err(e) => {
                proof {
                    let k = i as int;
                    assert(is_first_unresolved_request(requests@, k));
                    lemma_first_unresolved_request_unique(requests@, k);
                    assert(store@ == run_puts(sv0, requests@, k));
                }
                return Err(e);
            },
        }
        i += 1;
    }
    Ok(())
}

/// Apply write requests, best effort: every request is attempted; the
/// outcome list has one entry per request, in order.
pub fn put_best_effort(store: &mut RegStore, requests: &Vec<PutRequest>) -> (outcomes: Vec<
    Option<RegError>,
>)
    requires
        old(store).wf(),
    ensures
        final(store).wf(),
        final(store)@ == run_puts(old(store)@, requests@, requests@.len() as int),
        outcomes@.len() == requests@.len(),
        forall|i: int|
            0 <= i < requests@.len() ==> match outcomes@[i] {
                None => resolvable((#[trigger] requests@[i]).address),
                Some(e) => !resolvable(requests@[i].address) && is_resolve_error(
                    e,
                    requests@[i].address@,
                ),
            },
{
    let ghost sv0 = store@;
    let mut outcomes: Vec<Option<RegError>> = Vec::new();
    let mut i: usize = 0;
    while i < requests.len()
        invariant
            store.wf(),
            i <= requests@.len(),
            outcomes@.len() == i,
            store@ == run_puts(sv0, requests@, i as int),
            forall|j: int|
                0 <= j < i ==> match outcomes@[j] {
                    None => resolvable((#[trigger] requests@[j]).address),
                    Some(e) => !resolvable(requests@[j].address) && is_resolve_error(
                        e,
                        requests@[j].address@,
                    ),
                },
        decreases requests@.len() - i,
    {
        let req = &requests[i];
        match resolve(req.address.as_str()) {
            Ok(addr) => {
                store.put(&addr, &req.values);
                outcomes.push(None);
            },
            Err(e) => {
                outcomes.push(Some(e));
            },
        }
        i += 1;
    }
    outcomes
}

/// Delete the key of every address with its whole subtree, fail fast:
/// deletions run in order; the first failure — an address that does not
/// resolve, a hive root, or a key that does not exist — aborts the batch,
/// leaving the deletions made before it in place.
#[verifier::loop_isolation(false)]
#[verifier::rlimit(60)]
pub fn delete_key(store: &mut RegStore, keys: &Vec<String>) -> (r: Result<(), RegError>)
    requires
        old(store).wf(),
    ensures
        final(store).wf(),
        match r {
            Ok(_) => {
                &&& forall|i: int|
                    0 <= i < keys@.len() ==> delete_ok(
                        run_deletes(old(store)@, keys@, i),
                        (#[trigger] keys@[i])@,
                    )
                &&& final(store)@ == run_deletes(old(store)@, keys@, keys@.len() as int)
            },
            Err(e) => {
                let k = first_delete_failure(old(store)@, keys@);
                &&& is_first_delete_failure(old(store)@, keys@, k)
                &&& final(store)@ == run_deletes(old(store)@, keys@, k)
                &&& (!resolvable(keys@[k]) ==> is_resolve_error(e, keys@[k]@))
                &&& (resolvable(keys@[k]) ==> e is StoreError)
            },
        },
{
    let ghost sv0 = store@;
    let mut i: usize = 0;
    while i < keys.len()
        invariant
            store.wf(),
            i <= keys@.len(),
            store@ == run_deletes(sv0, keys@, i as int),
            forall|j: int|
                0 <= j < i ==> delete_ok(run_deletes(sv0, keys@, j), (#[trigger] keys@[j])@),
        decreases keys@.len() - i,
    {
        match resolve(keys[i].as_str()) {
            Ok(addr) => {
                let ghost pre = store@;
                match store.delete(&addr) {
                    Ok(_) => {
                        proof {
                            assert(delete_ok(pre, keys@[i as int]@));
                        }
                    },
                    Err(e) => {
                        proof {
                            let k = i as int;
                            assert(!delete_ok(run_deletes(sv0, keys@, k), (keys@[k])@));
                            assert(is_first_delete_failure(sv0, keys@, k));
                            lemma_first_delete_failure_unique(sv0, keys@, k);
                            assert(store@ == run_deletes(sv0, keys@, k));
                            assert(resolvable(keys@[k]));
                        }
                        return Err(e);
                    },
                }
            },
            Err(e) => {
                proof {
                    let k = i as int;
                    assert(!resolvable(keys@[k]));
                    assert(!delete_ok(run_deletes(sv0, keys@, k), (keys@[k])@));
                    assert(is_first_delete_failure(sv0, keys@, k));
                    lemma_first_delete_failure_unique(sv0, keys@, k);
                    assert(store@ == run_deletes(sv0, keys@, k));
                    assert(is_resolve_error(e, keys@[k]@));
                }
                return Err(e);
            },
        }
        i += 1;
    }
    Ok(())
}

/// Delete keys, best effort: every address is attempted; the outcome list
/// has one entry per address, in order, and a failed address leaves the
/// store as the previous steps left it.
pub fn delete_key_best_effort(store: &mut RegStore, keys: &Vec<String>) -> (outcomes: Vec<
    Option<RegError>,
>)
    requires
        old(store).wf(),
    ensures
        final(store).wf(),
        final(store)@ == run_deletes(old(store)@, keys@, keys@.len() as int),
        outcomes@.len() == keys@.len(),
        forall|i: int|
            0 <= i < keys@.len() ==> (outcomes@[i] is None) == delete_ok(
                run_deletes(old(store)@, keys@, i),
                (#[trigger] keys@[i])@,
            ),
{
    let ghost sv0 = store@;
    let mut outcomes: Vec<Option<RegError>> = Vec::new();
    let mut i: usize = 0;
    while i < keys.len()
        invariant
            store.wf(),
            i <= keys@.len(),
            outcomes@.len() == i,
            store@ == run_deletes(sv0, keys@, i as int),
            forall|j: int|
                0 <= j < i ==> (outcomes@[j] is None) == delete_ok(
                    run_deletes(sv0, keys@, j),
                    (#[trigger] keys@[j])@,
                ),
        decreases keys@.len() - i,
    {
        let ghost pre = store@;
        match resolve(keys[i].as_str()) {
            Ok(addr) => {
                match store.delete(&addr) {
                    Ok(_) => {
                        outcomes.push(None);
                    },
                    Err(e) => {
                        outcomes.push(Some(e));
                    },
                }
            },
            Err(e) => {
                proof {
                    assert(!delete_ok(pre, keys@[i as int]@));
                }
                outcomes.push(Some(e));
            },
        }
        i += 1;
    }
    outcomes
}

} // verus!
