//! The data model: a store is an ordered sequence of (id, file) records.
//!
//! Duplicate ids in a store are tolerated (a hand-edited backing file may
//! hold them); every lookup takes the first match. Stores produced only by
//! this library's own mutations keep ids distinct.

use vstd::prelude::*;

verus! {

/// The mathematical value of one record: its id and its file path, both as
/// character sequences.
pub struct ItemV {
    pub id: Seq<char>,
    pub file: Seq<char>,
}

/// One record: a user-chosen id mapped to a file path, the path kept as text.
#[derive(Debug)]
pub struct Item {
    pub id: String,
    pub file: String,
}

impl View for Item {
    type V = ItemV;

    open spec fn view(&self) -> ItemV {
        ItemV { id: self.id@, file: self.file@ }
    }
}

impl DeepView for Item {
    type V = ItemV;

    open spec fn deep_view(&self) -> ItemV {
        self.view()
    }
}

/// The store: records in insertion order.
#[derive(Debug)]
pub struct Store {
    pub items: Vec<Item>,
}

impl View for Store {
    type V = Seq<ItemV>;

    open spec fn view(&self) -> Seq<ItemV> {
        self.items.deep_view()
    }
}

impl Store {
    /// An empty store.
    pub fn new() -> (r: Store)
        ensures
            r@ == Seq::<ItemV>::empty(),
    {
        Store { items: Vec::new() }
    }
}

/// Whether some record of `s` carries `id`.
pub open spec fn has_id(s: Seq<ItemV>, id: Seq<char>) -> bool {
    exists|i: int| 0 <= i < s.len() && s[i].id == id
}

/// No two records of `s` carry the same id.
pub open spec fn distinct_ids(s: Seq<ItemV>) -> bool {
    forall|i: int, j: int| 0 <= i < j < s.len() ==> s[i].id != s[j].id
}

/// The index of the first record of `s` carrying `id`, or -1 when none does.
pub open spec fn find_idx(s: Seq<ItemV>, id: Seq<char>) -> int
    decreases s.len(),
{
    if s.len() == 0 {
        -1
    } else if s[0].id == id {
        0
    } else {
        let r: int = find_idx(s.drop_first(), id);
        if r < 0 {
            -1
        } else {
            r + 1
        }
    }
}

/// `find_idx` points at the first record carrying `id`, and is -1 exactly
/// when no record does.
pub proof fn lemma_find_idx(s: Seq<ItemV>, id: Seq<char>)
    ensures
        find_idx(s, id) == -1 || 0 <= find_idx(s, id) < s.len(),
        find_idx(s, id) >= 0 ==> s[find_idx(s, id)].id == id,
        forall|i: int| 0 <= i < find_idx(s, id) ==> s[i].id != id,
        find_idx(s, id) == -1 ==> !has_id(s, id),
        has_id(s, id) ==> find_idx(s, id) >= 0,
    decreases s.len(),
{
    if s.len() > 0 && s[0].id != id {
        lemma_find_idx(s.drop_first(), id);
        let r: int = find_idx(s.drop_first(), id);
        assert(forall|i: int| 1 <= i < s.len() ==> s[i] == s.drop_first()[i - 1]);
        if r == -1 {
            assert(!has_id(s, id)) by {
                assert(forall|i: int| 0 <= i < s.len() ==> s[i].id != id);
            }
        }
    }
}

/// A record carrying `id` at `k`, with none before it, fixes `find_idx`.
pub proof fn lemma_find_idx_is(s: Seq<ItemV>, id: Seq<char>, k: int)
    requires
        0 <= k < s.len(),
        s[k].id == id,
        forall|i: int| 0 <= i < k ==> s[i].id != id,
    ensures
        find_idx(s, id) == k,
    decreases s.len(),
{
    if k > 0 {
        assert(forall|i: int| 1 <= i < s.len() ==> s[i] == s.drop_first()[i - 1]);
        lemma_find_idx_is(s.drop_first(), id, k - 1);
    }
}

} // verus!
