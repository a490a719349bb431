//! The index from an owner to the ids of the listings it holds, oldest first.
use vstd::prelude::*;

use crate::address::Address;

verus! {

/// `ids` with every occurrence of `id` taken out, the rest in order.
pub open spec fn without_id(ids: Seq<u64>, id: u64) -> Seq<u64> {
    ids.filter(|x: u64| x != id)
}

/// Membership after taking `id` out.
pub proof fn lemma_without_id_contains(ids: Seq<u64>, id: u64, x: u64)
    ensures
        without_id(ids, id).contains(x) <==> (ids.contains(x) && x != id),
    decreases ids.len(),
{
    reveal(Seq::filter);
    if ids.len() > 0 {
        let rest = ids.drop_last();
        lemma_without_id_contains(rest, id, x);
        assert(ids =~= rest.push(ids.last()));
        if rest.contains(x) {
            let j = choose|j: int| 0 <= j < rest.len() && rest[j] == x;
            assert(ids[j] == x);
        }
        if ids.contains(x) && x != ids.last() {
            let j = choose|j: int| 0 <= j < ids.len() && ids[j] == x;
            assert(rest[j] == x);
        }
        let sub = without_id(rest, id);
        if ids.last() != id {
            assert(without_id(ids, id) == sub.push(ids.last()));
            if sub.contains(x) {
                let j = choose|j: int| 0 <= j < sub.len() && sub[j] == x;
                assert(sub.push(ids.last())[j] == x);
            }
            if x == ids.last() {
                assert(sub.push(ids.last())[sub.len() as int] == x);
            }
            if sub.push(ids.last()).contains(x) && x != ids.last() {
                let j = choose|j: int| 0 <= j < sub.len() + 1 && sub.push(ids.last())[j] == x;
                assert(sub[j] == x);
            }
        } else {
            assert(without_id(ids, id) == sub);
        }
    }
}

/// Taking an id out keeps a sequence free of duplicates.
pub proof fn lemma_without_id_no_duplicates(ids: Seq<u64>, id: u64)
    requires
        ids.no_duplicates(),
    ensures
        without_id(ids, id).no_duplicates(),
    decreases ids.len(),
{
    reveal(Seq::filter);
    if ids.len() > 0 {
        let rest = ids.drop_last();
        lemma_without_id_no_duplicates(rest, id);
        let sub = without_id(rest, id);
        if ids.last() != id {
            assert(without_id(ids, id) == sub.push(ids.last()));
            lemma_without_id_contains(rest, id, ids.last());
            assert(!rest.contains(ids.last())) by {
                if rest.contains(ids.last()) {
                    let j = choose|j: int| 0 <= j < rest.len() && rest[j] == ids.last();
                    assert(ids[j] == ids[ids.len() - 1]);
                }
            }
            assert forall|i: int, j: int|
                0 <= i < sub.len() + 1 && 0 <= j < sub.len() + 1 && i != j implies
                sub.push(ids.last())[i] != sub.push(ids.last())[j] by {
                if i == sub.len() {
                    assert(sub.contains(sub[j]));
                } else if j == sub.len() {
                    assert(sub.contains(sub[i]));
                }
            }
        } else {
            assert(without_id(ids, id) == sub);
        }
    }
}

/// Taking out an id that occurs once shortens a list by one.
pub proof fn lemma_without_id_drops_one(ids: Seq<u64>, id: u64)
    requires
        ids.no_duplicates(),
        ids.contains(id),
    ensures
        without_id(ids, id).len() + 1 == ids.len(),
    decreases ids.len(),
{
    reveal(Seq::filter);
    let rest = ids.drop_last();
    if ids.last() == id {
        assert(!rest.contains(id)) by {
            if rest.contains(id) {
                let j = choose|j: int| 0 <= j < rest.len() && rest[j] == id;
                assert(ids[j] == ids[ids.len() - 1]);
            }
        }
        lemma_without_id_absent(rest, id);
    } else {
        let j = choose|j: int| 0 <= j < ids.len() && ids[j] == id;
        assert(rest[j] == id);
        lemma_without_id_drops_one(rest, id);
    }
}

/// Taking out an id that does not occur changes nothing.
pub proof fn lemma_without_id_absent(ids: Seq<u64>, id: u64)
    requires
        !ids.contains(id),
    ensures
        without_id(ids, id) == ids,
    decreases ids.len(),
{
    reveal(Seq::filter);
    if ids.len() > 0 {
        let rest = ids.drop_last();
        assert(!rest.contains(id)) by {
            if rest.contains(id) {
                let j = choose|j: int| 0 <= j < rest.len() && rest[j] == id;
                assert(ids[j] == id);
            }
        }
        lemma_without_id_absent(rest, id);
        assert(ids.last() != id) by {
            assert(ids[ids.len() - 1] == ids.last());
        }
        assert(rest.push(ids.last()) =~= ids);
    }
}

/// Taking out an id that occurs once, at position `i`, leaves exactly the
/// ids before it followed by the ids after it, each group in its order.
pub proof fn law_without_id_keeps_order(ids: Seq<u64>, id: u64, i: int)
    requires
        ids.no_duplicates(),
        0 <= i < ids.len(),
        ids[i] == id,
    ensures
        without_id(ids, id) == ids.take(i) + ids.skip(i + 1),
{
    broadcast use Seq::filter_distributes_over_add;

    let before = ids.take(i);
    let after = ids.skip(i + 1);
    let single = seq![id];
    assert(ids =~= before + single + after);
    assert(!before.contains(id)) by {
        if before.contains(id) {
            let j = choose|j: int| 0 <= j < before.len() && before[j] == id;
            assert(ids[j] == ids[i]);
        }
    }
    assert(!after.contains(id)) by {
        if after.contains(id) {
            let j = choose|j: int| 0 <= j < after.len() && after[j] == id;
            assert(ids[i + 1 + j] == ids[i]);
        }
    }
    lemma_without_id_absent(before, id);
    lemma_without_id_absent(after, id);
    assert(without_id(single, id) =~= Seq::<u64>::empty()) by {
        reveal_with_fuel(Seq::filter, 2);
        assert(single.drop_last() =~= Seq::<u64>::empty());
    }
    assert(without_id(before + single + after, id) == without_id(before + single, id) + without_id(
        after,
        id,
    ));
    assert(without_id(before + single, id) == without_id(before, id) + without_id(single, id));
    assert(before + Seq::<u64>::empty() =~= before);
}

/// A copy of `ids` without the occurrences of `id`, the rest in order.
pub fn ids_without(ids: &Vec<u64>, id: u64) -> (kept: Vec<u64>)
    ensures
        kept@ == without_id(ids@, id),
{
    let mut kept: Vec<u64> = Vec::new();
    let mut i: usize = 0;
    while i < ids.len()
        invariant
            i <= ids.len(),
            kept@ == without_id(ids@.take(i as int), id),
        decreases ids.len() - i,
    {
        proof {
            reveal(Seq::filter);
            assert(ids@.take(i + 1).drop_last() =~= ids@.take(i as int));
            assert(ids@.take(i + 1).last() == ids@[i as int]);
        }
        let x = ids[i];
        if x != id {
            kept.push(x);
        }
        i = i + 1;
    }
    assert(ids@.take(ids.len() as int) =~= ids@);
    kept
}

/// The ids held by one owner.
pub(crate) struct OwnerListings {
    pub(crate) owner: Address,
    pub(crate) ids: Vec<u64>,
}

/// For each owner that has held a listing, the ids it holds, in the order in
/// which they came to it. An owner occurs in one entry at most.
pub(crate) struct OwnerIndex {
    entries: Vec<OwnerListings>,
}

impl OwnerIndex {
    /// No owner occurs in two entries.
    pub(crate) closed spec fn wf(self) -> bool {
        forall|i: int, j: int|
            0 <= i < self.entries.len() && 0 <= j < self.entries.len() && i != j
                ==> #[trigger] self.entries@[i].owner@ != #[trigger] self.entries@[j].owner@
    }

    pub(crate) closed spec fn has_entry(self, owner: Seq<u8>) -> bool {
        exists|i: int| 0 <= i < self.entries.len() && #[trigger] self.entries@[i].owner@ == owner
    }

    /// The ids that `owner` holds, oldest first; empty for an owner never seen.
    pub(crate) closed spec fn ids_of(self, owner: Seq<u8>) -> Seq<u64> {
        if self.has_entry(owner) {
            let i = choose|i: int| 0 <= i < self.entries.len() && #[trigger] self.entries@[i].owner@ == owner;
            self.entries@[i].ids@
        } else {
            Seq::empty()
        }
    }

    proof fn lemma_ids_of_entry(self, k: int)
        requires
            self.wf(),
            0 <= k < self.entries.len(),
        ensures
            self.ids_of(self.entries@[k].owner@) == self.entries@[k].ids@,
    {
        let o = self.entries@[k].owner@;
        assert(self.has_entry(o));
        let i = choose|i: int| 0 <= i < self.entries.len() && #[trigger] self.entries@[i].owner@ == o;
        if i != k {
            assert(self.entries@[i].owner@ != self.entries@[k].owner@);
        }
    }

    /// Replacing the ids of one entry changes what that owner holds and nothing else.
    proof fn lemma_replace_ids(before: OwnerIndex, after: OwnerIndex, k: int)
        requires
            before.wf(),
            0 <= k < before.entries.len(),
            after.entries.len() == before.entries.len(),
            after.entries@[k].owner@ == before.entries@[k].owner@,
            forall|i: int| 0 <= i < before.entries.len() && i != k ==> after.entries@[i] == before.entries@[i],
        ensures
            after.wf(),
            forall|o: Seq<u8>| #[trigger] after.ids_of(o) == if o == before.entries@[k].owner@ {
                after.entries@[k].ids@
            } else {
                before.ids_of(o)
            },
    {
        assert forall|i: int, j: int|
            0 <= i < after.entries.len() && 0 <= j < after.entries.len() && i != j
                implies #[trigger] after.entries@[i].owner@ != #[trigger] after.entries@[j].owner@ by {
            assert(before.entries@[i].owner@ != before.entries@[j].owner@);
        }
        after.lemma_ids_of_entry(k);
        assert forall|o: Seq<u8>| #[trigger] after.ids_of(o) == if o == before.entries@[k].owner@ {
            after.entries@[k].ids@
        } else {
            before.ids_of(o)
        } by {
            if o != before.entries@[k].owner@ {
                if before.has_entry(o) {
                    let i = choose|i: int| 0 <= i < before.entries.len() && #[trigger] before.entries@[i].owner@ == o;
                    before.lemma_ids_of_entry(i);
                    after.lemma_ids_of_entry(i);
                } else {
                    assert(!after.has_entry(o)) by {
                        if after.has_entry(o) {
                            let i = choose|i: int| 0 <= i < after.entries.len() && #[trigger] after.entries@[i].owner@ == o;
                            assert(before.entries@[i].owner@ == o);
                        }
                    }
                }
            }
        }
    }

    pub(crate) fn new() -> (index: OwnerIndex)
        ensures
            index.wf(),
            forall|o: Seq<u8>| #[trigger] index.ids_of(o) == Seq::<u64>::empty(),
    {
        OwnerIndex { entries: Vec::new() }
    }

    /// Where `owner`'s entry stands, if it has one.
    fn position(&self, owner: &Address) -> (r: Option<usize>)
        ensures
            match r {
                Some(k) => k < self.entries.len() && self.entries@[k as int].owner@ == owner@,
                None => !self.has_entry(owner@),
            },
    {
        let mut i: usize = 0;
        while i < self.entries.len()
            invariant
                i <= self.entries.len(),
                forall|j: int| 0 <= j < i ==> #[trigger] self.entries@[j].owner@ != owner@,
            decreases self.entries.len() - i,
        {
            if self.entries[i].owner.same_as(owner) {
                return Some(i);
            }
            i = i + 1;
        }
        None
    }

    /// The ids that `owner` holds, oldest first.
    pub(crate) fn ids_for(&self, owner: &Address) -> (ids: Vec<u64>)
        requires
            self.wf(),
        ensures
            ids@ == self.ids_of(owner@),
    {
        match self.position(owner) {
            Some(k) => {
                proof {
                    self.lemma_ids_of_entry(k as int);
                }
                let ids = self.entries[k].ids.clone();
                assert(ids@ =~= self.entries@[k as int].ids@);
                ids
            },
            None => Vec::new(),
        }
    }

    /// Appends `id` to the ids that `owner` holds.
    pub(crate) fn append(&mut self, owner: &Address, id: u64)
        requires
            old(self).wf(),
        ensures
            final(self).wf(),
            forall|o: Seq<u8>| #[trigger] final(self).ids_of(o) == if o == owner@ {
                old(self).ids_of(o).push(id)
            } else {
                old(self).ids_of(o)
            },
    {
        let ghost before = *self;
        match self.position(owner) {
            Some(k) => {
                proof {
                    before.lemma_ids_of_entry(k as int);
                }
                let mut ids = self.entries[k].ids.clone();
                assert(ids@ =~= before.entries@[k as int].ids@);
                ids.push(id);
                let entry = OwnerListings { owner: self.entries[k].owner.duplicate(), ids };
                self.entries.set(k, entry);
                proof {
                    OwnerIndex::lemma_replace_ids(before, *self, k as int);
                }
            },
            None => {
                let mut ids: Vec<u64> = Vec::new();
                ids.push(id);
                self.entries.push(OwnerListings { owner: owner.duplicate(), ids });
                proof {
                    let n = before.entries.len() as int;
                    assert(self.wf()) by {
                        assert forall|i: int, j: int|
                            0 <= i < self.entries.len() && 0 <= j < self.entries.len() && i != j
                                implies #[trigger] self.entries@[i].owner@ != #[trigger] self.entries@[j].owner@ by {
                            if i == n {
                                assert(before.entries@[j].owner@ != owner@);
                            } else if j == n {
                                assert(before.entries@[i].owner@ != owner@);
                            } else {
                                assert(before.entries@[i].owner@ != before.entries@[j].owner@);
                            }
                        }
                    }
                    self.lemma_ids_of_entry(n);
                    assert(self.entries@[n].ids@ =~= Seq::<u64>::empty().push(id));
                    assert forall|o: Seq<u8>| #[trigger] self.ids_of(o) == if o == owner@ {
                        before.ids_of(o).push(id)
                    } else {
                        before.ids_of(o)
                    } by {
                        if o != owner@ {
                            if before.has_entry(o) {
                                let i = choose|i: int| 0 <= i < before.entries.len() && #[trigger] before.entries@[i].owner@ == o;
                                before.lemma_ids_of_entry(i);
                                self.lemma_ids_of_entry(i);
                            } else {
                                assert(!self.has_entry(o)) by {
                                    if self.has_entry(o) {
                                        let i = choose|i: int| 0 <= i < self.entries.len() && #[trigger] self.entries@[i].owner@ == o;
                                        assert(before.entries@[i].owner@ == o);
                                    }
                                }
                            }
                        }
                    }
                }
            },
        }
    }
    /// Takes every occurrence of `id` out of the ids that `owner` holds.
    pub(crate) fn remove_id(&mut self, owner: &Address, id: u64)
        requires
            old(self).wf(),
        ensures
            final(self).wf(),
            forall|o: Seq<u8>| #[trigger] final(self).ids_of(o) == if o == owner@ {
                without_id(old(self).ids_of(o), id)
            } else {
                old(self).ids_of(o)
            },
    {
        let ghost before = *self;
        match self.position(owner) {
            Some(k) => {
                proof {
                    before.lemma_ids_of_entry(k as int);
                }
                let ids = ids_without(&self.entries[k].ids, id);
                let entry = OwnerListings { owner: self.entries[k].owner.duplicate(), ids };
                self.entries.set(k, entry);
                proof {
                    OwnerIndex::lemma_replace_ids(before, *self, k as int);
                }
            },
            None => {
                proof {
                    reveal(Seq::filter);
                    assert(without_id(Seq::<u64>::empty(), id) == Seq::<u64>::empty());
                }
            },
        }
    }
}

} // verus!
