//! The four operations on a store: `add`, `remove`, `open`, `list`.
//!
//! Each works on a `Store` value held in memory. The surrounding binary
//! loads the store from the backing file before calling one, persists it
//! afterwards where the operation mutates, prints the lines `list` returns,
//! and hands the path `open` returns to the platform launcher.

use vstd::prelude::*;
use vstd::string::StringExecFns;
use crate::store::{
    Store, Item, ItemV, has_id, distinct_ids, find_idx, lemma_find_idx, lemma_find_idx_is,
};

verus! {

/// A filesystem path as text. The platform hands paths over as byte
/// sequences that need not be valid Unicode; the caller converts before
/// calling `add`.
#[derive(Debug)]
pub enum PathText {
    /// The path is valid Unicode text; holds it exactly.
    Exact(String),
    /// The path is not valid Unicode; holds a lossy rendering of it.
    Lossy(String),
}

/// An operation's failure.
#[derive(Debug)]
pub enum OpError {
    /// `open` was asked for an id no record carries; holds that id.
    NotFound { id: String },
    /// `add` would append a path that is not representable as text; holds
    /// the path's lossy rendering.
    Encoding { path: String },
}

impl OpError {
    /// The human-readable rendering of the error.
    pub fn message(&self) -> (r: String)
        ensures
            r@ == match self {
                OpError::NotFound { id } => id@ + " not found!"@,
                OpError::Encoding { path } => "file "@ + path@
                    + " contains non-unicode characters!"@,
            },
    {
        match self {
            OpError::NotFound { id } => id.clone().concat(" not found!"),
            OpError::Encoding { path } => String::from_str("file ").concat(path.as_str()).concat(
                " contains non-unicode characters!",
            ),
        }
    }
}

/// The store after `add`: the first record carrying `id` has its file
/// replaced in place; when none does, a new record is appended.
pub open spec fn spec_add(s: Seq<ItemV>, id: Seq<char>, file: Seq<char>) -> Seq<ItemV> {
    let k: int = find_idx(s, id);
    if k >= 0 {
        s.update(k, ItemV { id: id, file: file })
    } else {
        s.push(ItemV { id: id, file: file })
    }
}

/// The store after `remove`: the first record carrying `id` is deleted;
/// when none does, the store is unchanged.
pub open spec fn spec_remove(s: Seq<ItemV>, id: Seq<char>) -> Seq<ItemV> {
    let k: int = find_idx(s, id);
    if k >= 0 {
        s.remove(k)
    } else {
        s
    }
}

/// Add or update a mark: replace the path of the first record carrying
/// `id`, or append a new record.
///
/// Only appending demands a path that is exact text; an update accepts a
/// lossy rendering, as the update overwrites whatever text was stored. On
/// an encoding failure the store is left unchanged.
pub fn add(store: &mut Store, id: String, file: PathText) -> (r: Result<(), OpError>)
    ensures
        match file {
            PathText::Exact(f) => r is Ok && final(store)@ == spec_add(old(store)@, id@, f@),
            PathText::Lossy(f) => if has_id(old(store)@, id@) {
                r is Ok && final(store)@ == spec_add(old(store)@, id@, f@)
            } else {
                &&& r matches Err(OpError::Encoding { path }) && path@ == f@
                &&& final(store)@ == old(store)@
            },
        },
{
    let ghost s0 = store@;
    let mut i: usize = 0;
    while i < store.items.len()
        invariant
            s0 == old(store)@,
            store@ == s0,
            i <= store.items.len(),
            forall|k: int| 0 <= k < i ==> s0[k].id != id@,
        decreases store.items.len() - i,
    {
        if store.items[i].id == id {
            proof {
                lemma_find_idx_is(s0, id@, i as int);
            }
            let ghost idv = id@;
            let f = match file {
                PathText::Exact(p) => p,
                PathText::Lossy(p) => p,
            };
            let ghost fv = f@;
            store.items[i] = Item { id, file: f };
            proof {
                assert(s0[i as int].id == idv);
                assert(has_id(s0, idv));
                assert(store@ =~= s0.update(i as int, ItemV { id: idv, file: fv }));
                assert(store@ == spec_add(s0, idv, fv));
            }
            return Ok(());
        }
        i += 1;
    }
    proof {
        lemma_find_idx(s0, id@);
        assert(find_idx(s0, id@) == -1);
    }
    match file {
        PathText::Exact(f) => {
            let ghost idv = id@;
            let ghost fv = f@;
            store.items.push(Item { id, file: f });
            proof {
                assert(store@ =~= s0.push(ItemV { id: idv, file: fv }));
                assert(store@ == spec_add(s0, idv, fv));
            }
            Ok(())
        },
        PathText::Lossy(f) => Err(OpError::Encoding { path: f }),
    }
}

/// Delete a mark: remove the first record carrying `id`; removing an id
/// that is not present is a no-op, not a failure.
pub fn remove(store: &mut Store, id: String)
    ensures
        final(store)@ == spec_remove(old(store)@, id@),
{
    let ghost s0 = store@;
    let mut i: usize = 0;
    while i < store.items.len()
        invariant
            s0 == old(store)@,
            store@ == s0,
            i <= store.items.len(),
            forall|k: int| 0 <= k < i ==> s0[k].id != id@,
        decreases store.items.len() - i,
    {
        if store.items[i].id == id {
            proof {
                lemma_find_idx_is(s0, id@, i as int);
            }
            store.items.remove(i);
            proof {
                assert(store@ =~= s0.remove(i as int));
            }
            return;
        }
        i += 1;
    }
    proof {
        lemma_find_idx(s0, id@);
        assert(find_idx(s0, id@) == -1);
    }
}

/// Look a mark up for opening: the path of the first record carrying `id`,
/// or `NotFound` when no record does. The store is never mutated; the
/// caller hands the returned path, unchanged, to the platform launcher.
pub fn open(store: &Store, id: String) -> (r: Result<String, OpError>)
    ensures
        has_id(store@, id@) ==> (r matches Ok(path) && path@ == store@[find_idx(
            store@,
            id@,
        )].file),
        !has_id(store@, id@) ==> (r matches Err(OpError::NotFound { id: missing })
            && missing@ == id@),
{
    let mut i: usize = 0;
    while i < store.items.len()
        invariant
            i <= store.items.len(),
            forall|k: int| 0 <= k < i ==> store@[k].id != id@,
        decreases store.items.len() - i,
    {
        if store.items[i].id == id {
            proof {
                lemma_find_idx_is(store@, id@, i as int);
            }
            return Ok(store.items[i].file.clone());
        }
        i += 1;
    }
    proof {
        lemma_find_idx(store@, id@);
    }
    Err(OpError::NotFound { id })
}

/// The line `list` prints for one record.
pub open spec fn line_of(it: ItemV) -> Seq<char> {
    it.id + seq![' ', '=', '>', ' '] + it.file
}

/// List all marks: one line per record, in store order, each of the shape
/// `<id> => <path>`.
pub fn list(store: &Store) -> (r: Vec<String>)
    ensures
        r@.len() == store@.len(),
        forall|i: int| 0 <= i < r@.len() ==> r@[i]@ == line_of(store@[i]),
{
    let mut out: Vec<String> = Vec::new();
    let mut i: usize = 0;
    while i < store.items.len()
        invariant
            i <= store.items.len(),
            out@.len() == i,
            forall|k: int| 0 <= k < i ==> out@[k]@ == line_of(store@[k]),
        decreases store.items.len() - i,
    {
        let mut line = store.items[i].id.clone();
        line.append(" => ");
        line.append(store.items[i].file.as_str());
        proof {
            reveal_strlit(" => ");
            assert(" => "@ =~= seq![' ', '=', '>', ' ']);
            assert(line@ =~= line_of(store@[i as int]));
        }
        out.push(line);
        i += 1;
    }
    out
}

/// A parsed command, as the command line hands it over.
pub enum Commands {
    /// Remove a previously added mark.
    Remove { id: String },
    /// Open a previously added mark.
    Open { id: String },
    /// Add a new mark with the given id for the given file.
    Add { id: String, file: PathText },
    /// List all recorded marks.
    List,
}

/// What the caller must do after a successful operation.
pub enum Effect {
    /// Write the store back to the backing file.
    Persist,
    /// Hand the path to the platform launcher; the store is unchanged.
    Launch(String),
    /// Print the lines to standard output; the store is unchanged.
    Print(Vec<String>),
}

/// Run one command against the loaded store: the decision step of an
/// invocation. The caller performs the returned effect; on an error it
/// persists nothing and reports the error's message.
pub fn dispatch(store: &mut Store, cmd: Commands) -> (r: Result<Effect, OpError>)
    ensures
        match cmd {
            Commands::Remove { id } => r matches Ok(Effect::Persist) && final(store)@
                == spec_remove(old(store)@, id@),
            Commands::Open { id } => {
                &&& final(store)@ == old(store)@
                &&& has_id(old(store)@, id@) ==> (r matches Ok(Effect::Launch(path)) && path@
                    == old(store)@[find_idx(old(store)@, id@)].file)
                &&& !has_id(old(store)@, id@) ==> (r matches Err(OpError::NotFound {
                    id: missing,
                }) && missing@ == id@)
            },
            Commands::Add { id, file } => match file {
                PathText::Exact(f) => r matches Ok(Effect::Persist) && final(store)@
                    == spec_add(old(store)@, id@, f@),
                PathText::Lossy(f) => if has_id(old(store)@, id@) {
                    r matches Ok(Effect::Persist) && final(store)@ == spec_add(
                        old(store)@,
                        id@,
                        f@,
                    )
                } else {
                    &&& r matches Err(OpError::Encoding { path }) && path@ == f@
                    &&& final(store)@ == old(store)@
                },
            },
            Commands::List => {
                &&& final(store)@ == old(store)@
                &&& r matches Ok(Effect::Print(lines)) && lines@.len() == old(store)@.len()
                    && (forall|i: int|
                    0 <= i < lines@.len() ==> lines@[i]@ == line_of(old(store)@[i]))
            },
        },
{
    match cmd {
        Commands::Remove { id } => {
            crate::ops::remove(store, id);
            Ok(Effect::Persist)
        },
        Commands::Open { id } => match crate::ops::open(store, id) {
            Ok(p) => Ok(Effect::Launch(p)),
            Err(e) => Err(e),
        },
        Commands::Add { id, file } => match crate::ops::add(store, id, file) {
            Ok(_) => Ok(Effect::Persist),
            Err(e) => Err(e),
        },
        Commands::List => Ok(Effect::Print(crate::ops::list(store))),
    }
}

/// The store after a sequence of `add` calls, applied first to last.
pub open spec fn apply_adds(s: Seq<ItemV>, calls: Seq<ItemV>) -> Seq<ItemV>
    decreases calls.len(),
{
    if calls.len() == 0 {
        s
    } else {
        apply_adds(spec_add(s, calls[0].id, calls[0].file), calls.drop_first())
    }
}

/// The index of the last record of `s` carrying `id`, or -1 when none
/// does.
pub open spec fn last_occ(s: Seq<ItemV>, id: Seq<char>) -> int
    decreases s.len(),
{
    if s.len() == 0 {
        -1
    } else {
        let r: int = last_occ(s.drop_first(), id);
        if r >= 0 {
            r + 1
        } else if s[0].id == id {
            0
        } else {
            -1
        }
    }
}

/// `last_occ` points at a record carrying `id`, and is -1 exactly when no
/// record does.
pub proof fn lemma_last_occ(s: Seq<ItemV>)
    ensures
        forall|id: Seq<char>| #[trigger] last_occ(s, id) >= 0 <==> has_id(s, id),
        forall|id: Seq<char>| #[trigger] last_occ(s, id) >= 0 ==> last_occ(s, id) < s.len()
            && s[last_occ(s, id)].id == id,
    decreases s.len(),
{
    if s.len() > 0 {
        lemma_last_occ(s.drop_first());
        assert(forall|i: int| 1 <= i < s.len() ==> s[i] == s.drop_first()[i - 1]);
        assert forall|id: Seq<char>| has_id(s, id) implies #[trigger] last_occ(s, id) >= 0 by {
            let w = choose|i: int| 0 <= i < s.len() && s[i].id == id;
            if w > 0 {
                assert(s.drop_first()[w - 1].id == id);
                assert(has_id(s.drop_first(), id));
                assert(last_occ(s.drop_first(), id) >= 0);
            }
        }
        assert forall|id: Seq<char>| #[trigger] last_occ(s, id) >= 0 implies last_occ(s, id)
            < s.len() && s[last_occ(s, id)].id == id && has_id(s, id) by {
            let r: int = last_occ(s.drop_first(), id);
            if r >= 0 {
                assert(s.drop_first()[r].id == id);
                assert(s[r + 1] == s.drop_first()[r]);
            }
            assert(s[last_occ(s, id)].id == id);
        }
    }
}

/// The shape of `spec_add` on a store with distinct ids: an in-place
/// update or an append, keeping ids distinct.
pub proof fn lemma_spec_add(s: Seq<ItemV>, id: Seq<char>, f: Seq<char>)
    requires
        distinct_ids(s),
    ensures
        ({
            let t = spec_add(s, id, f);
            let k = find_idx(s, id);
            &&& k >= 0 ==> t.len() == s.len() && t[k] == (ItemV { id: id, file: f }) && (
            forall|j: int| 0 <= j < s.len() && j != k ==> t[j] == s[j])
            &&& k < 0 ==> t == s.push(ItemV { id: id, file: f })
            &&& distinct_ids(t)
            &&& forall|x: Seq<char>|
                #![trigger has_id(t, x)]
                has_id(t, x) <==> (has_id(s, x) || x == id)
        }),
{
    lemma_find_idx(s, id);
    let t = spec_add(s, id, f);
    let k = find_idx(s, id);
    assert(forall|j: int| 0 <= j < s.len() && j != k ==> t[j] == s[j] && t[j].id == s[j].id);
    if k >= 0 {
        assert(t[k].id == s[k].id);
    } else {
        assert(t[s.len() as int].id == id);
    }
    assert forall|x: Seq<char>| #![trigger has_id(t, x)] has_id(t, x) implies (has_id(s, x) || x
        == id) by {
        let w = choose|i: int| 0 <= i < t.len() && t[i].id == x;
        if w != k && w < s.len() {
            assert(s[w].id == x);
        }
    }
    assert forall|x: Seq<char>| #![trigger has_id(t, x)] has_id(s, x) implies has_id(t, x) by {
        let w = choose|i: int| 0 <= i < s.len() && s[i].id == x;
        if w == k {
            assert(t[k].id == x);
        } else {
            assert(t[w].id == x);
        }
    }
    assert(has_id(t, id)) by {
        if k >= 0 {
            assert(t[k].id == id);
        } else {
            assert(t[s.len() as int].id == id);
        }
    }
}

/// After `add`, the id stands where it already stood, or at the end.
pub proof fn lemma_add_position(s: Seq<ItemV>, id: Seq<char>, f: Seq<char>)
    ensures
        find_idx(spec_add(s, id, f), id) == if find_idx(s, id) >= 0 {
            find_idx(s, id)
        } else {
            s.len() as int
        },
{
    lemma_find_idx(s, id);
    let t = spec_add(s, id, f);
    let k = find_idx(s, id);
    if k >= 0 {
        assert(t[k].id == id);
        assert(forall|i: int| 0 <= i < k ==> t[i] == s[i]);
        lemma_find_idx_is(t, id, k);
    } else {
        assert(t[s.len() as int].id == id);
        assert(forall|i: int| 0 <= i < s.len() ==> t[i] == s[i] && t[i].id != id);
        lemma_find_idx_is(t, id, s.len() as int);
    }
}

/// Adding the same id twice updates the path in place: the second add
/// keeps the store's length, the entry's position relative to every other
/// entry, and every other entry itself.
pub proof fn lemma_add_twice(s: Seq<ItemV>, id: Seq<char>, f1: Seq<char>, f2: Seq<char>)
    ensures
        ({
            let s1 = spec_add(s, id, f1);
            let s2 = spec_add(s1, id, f2);
            let k = find_idx(s1, id);
            &&& 0 <= k < s1.len()
            &&& s2.len() == s1.len()
            &&& find_idx(s2, id) == k
            &&& s2[k] == (ItemV { id: id, file: f2 })
            &&& forall|j: int| 0 <= j < s1.len() && j != k ==> s2[j] == s1[j]
        }),
{
    lemma_find_idx(s, id);
    lemma_add_position(s, id, f1);
    let s1 = spec_add(s, id, f1);
    lemma_find_idx(s1, id);
    lemma_add_position(s1, id, f2);
}

/// Removing an id that no record carries leaves the store unchanged.
pub proof fn lemma_remove_absent(s: Seq<ItemV>, id: Seq<char>)
    requires
        !has_id(s, id),
    ensures
        spec_remove(s, id) == s,
{
    lemma_find_idx(s, id);
}

/// Removing a present id deletes exactly the first record carrying it and
/// leaves every other record, in order.
pub proof fn lemma_remove_present(s: Seq<ItemV>, id: Seq<char>)
    requires
        has_id(s, id),
    ensures
        ({
            let k = find_idx(s, id);
            let t = spec_remove(s, id);
            &&& 0 <= k < s.len()
            &&& s[k].id == id
            &&& forall|i: int| 0 <= i < k ==> s[i].id != id
            &&& t.len() == s.len() - 1
            &&& forall|i: int| 0 <= i < k ==> t[i] == s[i]
            &&& forall|i: int| k <= i < t.len() ==> t[i] == s[i + 1]
        }),
{
    lemma_find_idx(s, id);
}

/// The effect of a whole sequence of `add` calls on a store with distinct
/// ids: ids stay distinct, records already present keep their places, new
/// records appear in first-add order, and every added id carries its
/// last-given path.
pub proof fn lemma_apply_adds(s: Seq<ItemV>, calls: Seq<ItemV>)
    requires
        distinct_ids(s),
    ensures
        ({
            let r = apply_adds(s, calls);
            &&& distinct_ids(r)
            &&& r.len() >= s.len()
            &&& forall|j: int| 0 <= j < s.len() ==> r[j].id == s[j].id
            &&& forall|x: Seq<char>|
                #![trigger has_id(r, x)]
                has_id(r, x) <==> (has_id(s, x) || has_id(calls, x))
            &&& forall|j: int|
                #![trigger r[j].id]
                s.len() <= j < r.len() ==> !has_id(s, r[j].id) && find_idx(calls, r[j].id) >= 0
            &&& forall|j1: int, j2: int|
                s.len() <= j1 < j2 < r.len() ==> find_idx(calls, r[j1].id) < find_idx(
                    calls,
                    r[j2].id,
                )
            &&& forall|j: int|
                #![trigger r[j].id]
                0 <= j < r.len() && has_id(calls, r[j].id) ==> r[j].file == calls[last_occ(
                    calls,
                    r[j].id,
                )].file
            &&& forall|j: int|
                #![trigger r[j].id]
                0 <= j < r.len() && !has_id(calls, r[j].id) ==> j < s.len() && r[j] == s[j]
        }),
    decreases calls.len(),
{
    let r = apply_adds(s, calls);
    if calls.len() == 0 {
        assert(r == s);
    } else {
        let c = calls[0];
        let rest = calls.drop_first();
        let s1 = spec_add(s, c.id, c.file);
        lemma_find_idx(s, c.id);
        lemma_spec_add(s, c.id, c.file);
        lemma_apply_adds(s1, rest);
        lemma_last_occ(rest);
        lemma_last_occ(calls);
        assert(r == apply_adds(s1, rest));
        let k = find_idx(s, c.id);
        assert(forall|i: int| 1 <= i < calls.len() ==> calls[i] == rest[i - 1]);
        assert forall|x: Seq<char>| #[trigger]
            find_idx(calls, x) == (if c.id == x {
                0
            } else if find_idx(rest, x) >= 0 {
                find_idx(rest, x) + 1
            } else {
                -1
            }) by {
            assert(calls.drop_first() == rest);
        }
        assert forall|x: Seq<char>| #[trigger]
            last_occ(calls, x) == (if last_occ(rest, x) >= 0 {
                last_occ(rest, x) + 1
            } else if c.id == x {
                0
            } else {
                -1
            }) by {
            assert(calls.drop_first() == rest);
        }
        assert forall|x: Seq<char>|
            #![trigger has_id(calls, x)]
            has_id(calls, x) <==> (x == c.id || has_id(rest, x)) by {
            if has_id(calls, x) {
                let w = choose|i: int| 0 <= i < calls.len() && calls[i].id == x;
                if w > 0 {
                    assert(rest[w - 1].id == x);
                    assert(has_id(rest, x));
                }
            }
            if x == c.id {
                assert(calls[0].id == x);
            }
            if has_id(rest, x) {
                let w = choose|i: int| 0 <= i < rest.len() && rest[i].id == x;
                assert(calls[w + 1].id == x);
            }
        }
        // the length of the prefix that keeps its ids
        if k >= 0 {
            assert(s1.len() == s.len());
        } else {
            assert(s1.len() == s.len() + 1);
            assert(s1[s.len() as int].id == c.id);
        }
        // new records carry ids from the calls, not from the store
        assert forall|j: int|
            #![trigger r[j].id]
            s.len() <= j < r.len() implies !has_id(s, r[j].id) && find_idx(calls, r[j].id)
            >= 0 by {
            let x = r[j].id;
            if j < s1.len() {
                // only possible when the first call appended: the new slot
                assert(k < 0 && j == s.len());
                assert(x == c.id);
            } else {
                assert(!has_id(s1, x));
                assert(x != c.id);
                assert(find_idx(rest, x) >= 0) by {
                    lemma_find_idx(rest, x);
                }
            }
        }
        // first-add order among the new records
        assert forall|j1: int, j2: int|
            s.len() <= j1 < j2 < r.len() implies find_idx(calls, r[j1].id) < find_idx(
            calls,
            r[j2].id,
        ) by {
            let x1 = r[j1].id;
            let x2 = r[j2].id;
            if j1 < s1.len() {
                assert(k < 0 && j1 == s.len());
                assert(x1 == c.id);
                assert(j2 >= s1.len());
                assert(x2 != c.id && find_idx(rest, x2) >= 0) by {
                    lemma_find_idx(rest, x2);
                }
            } else {
                assert(x1 != c.id && x2 != c.id);
                assert(find_idx(rest, x1) >= 0 && find_idx(rest, x2) >= 0) by {
                    lemma_find_idx(rest, x1);
                    lemma_find_idx(rest, x2);
                }
                assert(find_idx(rest, x1) < find_idx(rest, x2));
            }
        }
        // each id carries its last-given path
        assert forall|j: int|
            #![trigger r[j].id]
            0 <= j < r.len() && has_id(calls, r[j].id) implies r[j].file == calls[last_occ(
            calls,
            r[j].id,
        )].file by {
            let x = r[j].id;
            if has_id(rest, x) {
                assert(r[j].file == rest[last_occ(rest, x)].file);
                assert(last_occ(calls, x) == last_occ(rest, x) + 1);
                assert(calls[last_occ(rest, x) + 1] == rest[last_occ(rest, x)]);
            } else {
                assert(x == c.id);
                assert(!has_id(rest, x));
                assert(r[j] == s1[j] && j < s1.len());
                assert(last_occ(calls, x) == 0);
                let kk: int = if k >= 0 {
                    k
                } else {
                    s.len() as int
                };
                assert(s1[kk] == (ItemV { id: c.id, file: c.file }));
                assert(s1[j].id == x && s1[kk].id == x);
                assert(j == kk) by {
                    if j != kk {
                        assert(distinct_ids(s1));
                        if j < kk {
                            assert(s1[j].id != s1[kk].id);
                        } else {
                            assert(s1[kk].id != s1[j].id);
                        }
                    }
                }
                assert(r[j].file == c.file);
            }
        }
        // untouched records are exactly those whose id no call carries
        assert forall|j: int|
            #![trigger r[j].id]
            0 <= j < r.len() && !has_id(calls, r[j].id) implies j < s.len() && r[j] == s[j] by {
            let x = r[j].id;
            assert(x != c.id && !has_id(rest, x));
            assert(r[j] == s1[j] && j < s1.len());
            if k >= 0 {
                assert(j != k);
            } else {
                assert(j != s.len());
            }
            assert(s1[j] == s[j]);
        }
        assert forall|x: Seq<char>|
            #![trigger has_id(r, x)]
            has_id(r, x) <==> (has_id(s, x) || has_id(calls, x)) by {
            assert(has_id(r, x) <==> (has_id(s1, x) || has_id(rest, x)));
        }
    }
}

/// A sequence of `add` calls on the empty store yields exactly the ids
/// added, each mapped to its last-given path, ordered by first addition.
pub proof fn lemma_add_sequence(calls: Seq<ItemV>)
    ensures
        ({
            let r = apply_adds(Seq::<ItemV>::empty(), calls);
            &&& distinct_ids(r)
            &&& forall|x: Seq<char>|
                #![trigger has_id(r, x)]
                has_id(r, x) <==> has_id(calls, x)
            &&& forall|j: int|
                #![trigger r[j].id]
                0 <= j < r.len() ==> has_id(calls, r[j].id) && r[j].file == calls[last_occ(
                    calls,
                    r[j].id,
                )].file
            &&& forall|j1: int, j2: int|
                0 <= j1 < j2 < r.len() ==> find_idx(calls, r[j1].id) < find_idx(calls, r[j2].id)
        }),
{
    lemma_apply_adds(Seq::<ItemV>::empty(), calls);
    let r = apply_adds(Seq::<ItemV>::empty(), calls);
    assert forall|j: int| #![trigger r[j].id] 0 <= j < r.len() implies has_id(calls, r[j].id) by {
        lemma_find_idx(calls, r[j].id);
    }
}

} // verus!
