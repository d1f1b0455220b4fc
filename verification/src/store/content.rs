//! The content store: the body of every entry, found by its identity.

use crate::error::Error;
use crate::identity::Identity;
use crate::order::{ascending, views, Ordered};
use vstd::prelude::*;

verus! {

/// The body of one entry, as its file holds it.
#[derive(Clone, Debug, PartialEq, Eq)]
pub struct Blob {
    identity: Identity,
    text: String,
}

/// The image of the tree of entry bodies: at most one body per identity.
#[derive(Clone, Debug, PartialEq, Eq)]
pub struct ContentStore {
    blobs: Vec<Blob>,
}

impl View for ContentStore {
    type V = Map<Identity, Seq<char>>;

    closed spec fn view(&self) -> Map<Identity, Seq<char>> {
        Map::new(
            |id: Identity| self.holds(id),
            |id: Identity| self.blobs[self.place(id)].text@,
        )
    }
}

impl ContentStore {
    spec fn holds(&self, id: Identity) -> bool {
        exists|i: int| 0 <= i < self.blobs.len() && (#[trigger] self.blobs[i]).identity == id
    }

    spec fn place(&self, id: Identity) -> int {
        choose|i: int| 0 <= i < self.blobs.len() && (#[trigger] self.blobs[i]).identity == id
    }

    /// The blobs are held by ascending identity, so none occurs twice.
    pub closed spec fn wf(&self) -> bool {
        forall|i: int, j: int|
            0 <= i < j < self.blobs.len() ==> (#[trigger] self.blobs[i]).identity.value < (
            #[trigger] self.blobs[j]).identity.value
    }

    proof fn lemma_at(&self, i: int)
        requires
            self.wf(),
            0 <= i < self.blobs.len(),
        ensures
            self@.dom().contains(self.blobs[i].identity),
            self@[self.blobs[i].identity] == self.blobs[i].text@,
    {
        let id = self.blobs[i].identity;
        assert(self.holds(id));
        let k = self.place(id);
        if k < i {
            assert(self.blobs[k].identity.value < self.blobs[i].identity.value);
        }
        if i < k {
            assert(self.blobs[i].identity.value < self.blobs[k].identity.value);
        }
    }

    /// The stored bodies are finitely many.
    pub proof fn lemma_finite(&self)
        ensures
            self@.dom().finite(),
    {
        let ids = Seq::new(self.blobs.len() as nat, |i: int| self.blobs[i].identity);
        vstd::seq_lib::seq_to_set_is_finite(ids);
        assert(self@.dom() =~= ids.to_set()) by {
            assert forall|id: Identity| #[trigger] self@.dom().contains(id) <==> ids.contains(id) by {
                if self.holds(id) {
                    assert(ids[self.place(id)] == id);
                }
                if ids.contains(id) {
                    let k = choose|k: int| 0 <= k < ids.len() && ids[k] == id;
                    assert(self.blobs[k].identity == id);
                }
            }
        }
    }

    /// The image of a tree without files.
    pub fn new() -> (r: ContentStore)
        ensures
            r.wf(),
            r@ == Map::<Identity, Seq<char>>::empty(),
    {
        let r = ContentStore { blobs: Vec::new() };
        assert(r@ =~= Map::<Identity, Seq<char>>::empty());
        r
    }

    /// The number of blobs whose identity is below `id`.
    fn position(&self, id: &Identity) -> (p: usize)
        requires
            self.wf(),
        ensures
            p <= self.blobs.len(),
            forall|k: int| 0 <= k < p ==> (#[trigger] self.blobs[k]).identity.value < id.value,
            forall|k: int|
                p <= k < self.blobs.len() ==> (#[trigger] self.blobs[k]).identity.value >= id.value,
            !(p < self.blobs.len() && self.blobs[p as int].identity == *id) ==> !self@.dom().contains(
                *id,
            ),
    {
        let mut lo: usize = 0;
        let mut hi: usize = self.blobs.len();
        while lo < hi
            invariant
                lo <= hi <= self.blobs.len(),
                self.wf(),
                forall|k: int| 0 <= k < lo ==> (#[trigger] self.blobs[k]).identity.value < id.value,
                forall|k: int|
                    hi <= k < self.blobs.len() ==> (#[trigger] self.blobs[k]).identity.value
                        >= id.value,
            decreases hi - lo,
        {
            let mid = lo + (hi - lo) / 2;
            if self.blobs[mid].identity.value < id.value {
                proof {
                    assert forall|k: int| 0 <= k < mid + 1 implies (
                    #[trigger] self.blobs[k]).identity.value < id.value by {
                        if k < mid {
                            assert(self.blobs[k].identity.value < self.blobs[mid as int].identity.value);
                        }
                    }
                }
                lo = mid + 1;
            } else {
                proof {
                    assert forall|k: int| mid <= k < self.blobs.len() implies (
                    #[trigger] self.blobs[k]).identity.value >= id.value by {
                        if k > mid {
                            assert(self.blobs[mid as int].identity.value < self.blobs[k].identity.value);
                        }
                    }
                }
                hi = mid;
            }
        }
        let p = lo;
        proof {
            if !(p < self.blobs.len() && self.blobs[p as int].identity == *id) && self.holds(*id) {
                let k = self.place(*id);
                if k > p {
                    assert(self.blobs[p as int].identity.value < self.blobs[k].identity.value);
                }
            }
        }
        p
    }

    /// Whether a body is stored for `id`.
    pub fn contains(&self, id: &Identity) -> (r: bool)
        requires
            self.wf(),
        ensures
            r == self@.dom().contains(*id),
    {
        let p = self.position(id);
        let found = p < self.blobs.len() && self.blobs[p].identity.value == id.value;
        proof {
            if found {
                self.lemma_at(p as int);
            }
        }
        found
    }

    /// The body of the entry `id`.
    pub fn read(&self, id: &Identity) -> (r: Result<String, Error>)
        requires
            self.wf(),
        ensures
            match r {
                Ok(text) => self@.dom().contains(*id) && text@ == self@[*id],
                Err(e) => !self@.dom().contains(*id) && e == (Error::TextNotFound { identity: *id }),
            },
    {
        let p = self.position(id);
        if p < self.blobs.len() && self.blobs[p].identity.value == id.value {
            proof {
                self.lemma_at(p as int);
            }
            Ok(self.blobs[p].text.clone())
        } else {
            Err(Error::TextNotFound { identity: *id })
        }
    }

    /// Stores `text` as the body of the entry `id`, in the place of any
    /// earlier body.
    pub fn write(&mut self, id: Identity, text: String)
        requires
            old(self).wf(),
        ensures
            final(self).wf(),
            final(self)@ == old(self)@.insert(id, text@),
    {
        let p = self.position(&id);
        let ghost before = *self;
        if p < self.blobs.len() && self.blobs[p].identity.value == id.value {
            self.blobs.set(p, Blob { identity: id, text });
            proof {
                assert(self.wf()) by {
                    assert forall|i: int, j: int| 0 <= i < j < self.blobs.len() implies (
                    #[trigger] self.blobs[i]).identity.value < (#[trigger] self.blobs[j]).identity.value by {
                        assert(before.blobs[i].identity.value < before.blobs[j].identity.value);
                    }
                }
                assert forall|k: Identity| #[trigger]
                    self@.dom().contains(k) <==> (k == id || before@.dom().contains(k)) by {
                    if self.holds(k) {
                        let i = self.place(k);
                        assert(before.blobs[i].identity == k);
                    }
                    if before.holds(k) {
                        let i = before.place(k);
                        assert(self.blobs[i].identity == k);
                    }
                    if k == id {
                        assert(self.blobs[p as int].identity == k);
                    }
                }
                assert forall|k: Identity| self@.dom().contains(k) implies self@[k] == before@.insert(
                    id,
                    text@,
                )[k] by {
                    let i = self.place(k);
                    self.lemma_at(i);
                    if i < p {
                        before.lemma_at(i);
                        assert(self.blobs[i].identity.value < self.blobs[p as int].identity.value);
                    } else if i > p {
                        before.lemma_at(i);
                        assert(self.blobs[p as int].identity.value < self.blobs[i].identity.value);
                    }
                }
                assert(self@ =~= before@.insert(id, text@));
            }
        } else {
            self.blobs.insert(p, Blob { identity: id, text });
            proof {
                assert(self.wf()) by {
                    assert forall|i: int, j: int| 0 <= i < j < self.blobs.len() implies (
                    #[trigger] self.blobs[i]).identity.value < (#[trigger] self.blobs[j]).identity.value by {
                        let i0 = if i < p { i } else { i - 1 };
                        let j0 = if j < p { j } else { j - 1 };
                        if i != p && j != p {
                            assert(before.blobs[i0].identity.value < before.blobs[j0].identity.value);
                        } else if i == p {
                            assert(before.blobs[j0].identity.value >= id.value);
                            assert(before.blobs[j0].identity != id) by {
                                if j0 > p {
                                    assert(before.blobs[p as int].identity.value
                                        < before.blobs[j0].identity.value);
                                }
                            }
                        } else {
                            assert(before.blobs[i0].identity.value < id.value);
                        }
                    }
                }
                assert forall|k: Identity| #[trigger]
                    self@.dom().contains(k) <==> (k == id || before@.dom().contains(k)) by {
                    if self.holds(k) {
                        let i = self.place(k);
                        if i < p {
                            assert(before.blobs[i].identity == k);
                        } else if i > p {
                            assert(before.blobs[i - 1].identity == k);
                        }
                    }
                    if before.holds(k) {
                        let i = before.place(k);
                        if i < p {
                            assert(self.blobs[i].identity == k);
                        } else {
                            assert(self.blobs[i + 1].identity == k);
                        }
                    }
                    if k == id {
                        assert(self.blobs[p as int].identity == k);
                    }
                }
                assert forall|k: Identity| self@.dom().contains(k) implies self@[k] == before@.insert(
                    id,
                    text@,
                )[k] by {
                    let i = self.place(k);
                    self.lemma_at(i);
                    if i < p {
                        before.lemma_at(i);
                    } else if i > p {
                        before.lemma_at(i - 1);
                    }
                }
                assert(self@ =~= before@.insert(id, text@));
            }
        }
    }

    /// Takes the body of the entry `id` out; says whether there was one.
    pub fn remove(&mut self, id: &Identity) -> (r: bool)
        requires
            old(self).wf(),
        ensures
            final(self).wf(),
            r == old(self)@.dom().contains(*id),
            final(self)@ == old(self)@.remove(*id),
    {
        let p = self.position(id);
        let ghost before = *self;
        if !(p < self.blobs.len() && self.blobs[p].identity.value == id.value) {
            assert(self@ =~= before@.remove(*id));
            return false;
        }
        proof {
            before.lemma_at(p as int);
        }
        self.blobs.remove(p);
        proof {
            assert(self.wf()) by {
                assert forall|i: int, j: int| 0 <= i < j < self.blobs.len() implies (
                #[trigger] self.blobs[i]).identity.value < (#[trigger] self.blobs[j]).identity.value by {
                    let i0 = if i < p { i } else { i + 1 };
                    let j0 = if j < p { j } else { j + 1 };
                    assert(before.blobs[i0].identity.value < before.blobs[j0].identity.value);
                }
            }
            assert forall|k: Identity| #[trigger]
                self@.dom().contains(k) <==> (k != *id && before@.dom().contains(k)) by {
                if self.holds(k) {
                    let i = self.place(k);
                    let i0 = if i < p { i } else { i + 1 };
                    assert(before.blobs[i0].identity == k);
                    if i0 < p {
                        assert(before.blobs[i0].identity.value < before.blobs[p as int].identity.value);
                    } else {
                        assert(before.blobs[p as int].identity.value < before.blobs[i0].identity.value);
                    }
                }
                if k != *id && before.holds(k) {
                    let i = before.place(k);
                    if i < p {
                        assert(self.blobs[i].identity == k);
                    } else {
                        assert(self.blobs[i - 1].identity == k);
                    }
                }
            }
            assert forall|k: Identity| self@.dom().contains(k) implies self@[k] == before@[k] by {
                let i = self.place(k);
                self.lemma_at(i);
                if i < p {
                    before.lemma_at(i);
                } else {
                    before.lemma_at(i + 1);
                }
            }
            assert(self@ =~= before@.remove(*id));
        }
        true
    }

    /// The identities of all stored bodies, in ascending order.
    pub fn list_all_blob_ids(&self) -> (r: Vec<Identity>)
        requires
            self.wf(),
        ensures
            ascending::<Identity>(views(r@)),
            views(r@).to_set() == self@.dom(),
    {
        let mut ids: Vec<Identity> = Vec::new();
        let mut i: usize = 0;
        while i < self.blobs.len()
            invariant
                i <= self.blobs.len(),
                ids@.len() == i,
                forall|k: int| 0 <= k < i ==> ids@[k] == (#[trigger] self.blobs[k]).identity,
            decreases self.blobs.len() - i,
        {
            ids.push(self.blobs[i].identity);
            i += 1;
        }
        proof {
            assert(views(ids@) =~= ids@);
            assert forall|a: int, b: int| 0 <= a < b < ids@.len() implies #[trigger] Identity::below(
                ids@[a],
                ids@[b],
            ) by {
                assert(self.blobs[a].identity.value < self.blobs[b].identity.value);
            }
            assert(ids@.to_set() =~= self@.dom()) by {
                assert forall|k: Identity| ids@.contains(k) <==> self@.dom().contains(k) by {
                    if ids@.contains(k) {
                        let a = choose|a: int| 0 <= a < ids@.len() && ids@[a] == k;
                        assert(self.blobs[a].identity == k);
                    }
                    if self.holds(k) {
                        let a = self.place(k);
                        assert(ids@[a] == k);
                    }
                }
            }
        }
        ids
    }
}

} // verus!
