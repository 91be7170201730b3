//! Subscriber registry: which observers are listening to which call.
//!
//! The registry maps call identifiers to ordered lists of observer
//! connection handles. An entry is created empty when a call announces
//! itself, observers join it by call identifier, failed deliveries prune
//! their observers, and the whole entry is removed when the call ends.
//! The tasks that share a registry guard it with one lock; the operations
//! here are the work done under that lock.

use vstd::prelude::*;

verus! {

/// One call's entry: its identifier and the observers joined to it, in join order.
pub struct RegistryEntry {
    pub call_id: String,
    pub observers: Vec<u64>,
}

/// The registry: one entry per active call, keyed by call identifier.
pub struct Registry {
    entries: Vec<RegistryEntry>,
}

/// The character sequences a list of identifier strings denotes.
pub open spec fn id_views(v: Seq<String>) -> Seq<Seq<char>> {
    v.map(|k: int, s: String| s@)
}

/// The observers of `obs` whose delivery succeeded, in their original order:
/// `obs[i]` survives exactly when `ok[i]` holds.
pub open spec fn surviving(obs: Seq<u64>, ok: Seq<bool>) -> Seq<u64>
    decreases obs.len(),
{
    if obs.len() == 0 || ok.len() == 0 {
        Seq::empty()
    } else if ok[0] {
        seq![obs[0]] + surviving(obs.drop_first(), ok.drop_first())
    } else {
        surviving(obs.drop_first(), ok.drop_first())
    }
}

/// How many of the first `n` entries of `ok` hold.
pub open spec fn count_true(ok: Seq<bool>) -> int
    decreases ok.len(),
{
    if ok.len() == 0 {
        0
    } else {
        (if ok[0] {
            1int
        } else {
            0int
        }) + count_true(ok.drop_first())
    }
}

impl Registry {
    /// The entries as a sequence.
    pub closed spec fn entries_view(&self) -> Seq<RegistryEntry> {
        self.entries@
    }

    /// The call identifiers known to the registry, in entry order.
    pub open spec fn ids(&self) -> Seq<Seq<char>> {
        self.entries_view().map(|i: int, e: RegistryEntry| e.call_id@)
    }

    /// Well-formedness: no call identifier appears twice.
    pub open spec fn wf(&self) -> bool {
        forall|i: int, j: int|
            0 <= i < j < self.ids().len() ==> self.ids()[i] != self.ids()[j]
    }

    /// Whether the registry holds an entry for `id`.
    pub open spec fn has_call(&self, id: Seq<char>) -> bool {
        exists|i: int| 0 <= i < self.ids().len() && self.ids()[i] == id
    }

    /// The position of the entry for `id`.
    pub open spec fn index_of(&self, id: Seq<char>) -> int {
        choose|i: int| 0 <= i < self.ids().len() && self.ids()[i] == id
    }

    /// The observers joined to call `id`, in join order.
    pub open spec fn obs(&self, id: Seq<char>) -> Seq<u64> {
        self.entries_view()[self.index_of(id)].observers@
    }

    /// In a well-formed registry, any position holding `id` is the position
    /// `index_of(id)` names.
    pub proof fn lemma_index_of_unique(&self, id: Seq<char>, i: int)
        requires
            self.wf(),
            0 <= i < self.ids().len(),
            self.ids()[i] == id,
        ensures
            self.has_call(id),
            self.index_of(id) == i,
    {
        assert(0 <= i < self.ids().len() && self.ids()[i] == id);
        let j = self.index_of(id);
        if i != j {
            assert(self.ids()[i] != self.ids()[j]);
        }
    }

    /// An identifier is in `ids()` exactly when the registry has a call under it.
    pub proof fn lemma_ids_has_call(&self, id: Seq<char>)
        ensures
            self.has_call(id) <==> self.ids().contains(id),
    {
        if self.has_call(id) {
            let i = choose|i: int| 0 <= i < self.ids().len() && self.ids()[i] == id;
            assert(self.ids()[i] == id);
        }
        if self.ids().contains(id) {
            let i = choose|i: int| 0 <= i < self.ids().len() && self.ids()[i] == id;
        }
    }

    /// An empty registry: no calls, no observers.
    pub fn new() -> (r: Self)
        ensures
            r.wf(),
            r.ids() == Seq::<Seq<char>>::empty(),
            forall|id: Seq<char>| !r.has_call(id),
    {
        let r = Registry { entries: Vec::new() };
        assert(r.ids() =~= Seq::<Seq<char>>::empty());
        r
    }

    /// The position of the entry for `call_id`, or nothing when the call is unknown.
    fn find_index(&self, call_id: &String) -> (r: Option<usize>)
        requires
            self.wf(),
        ensures
            match r {
                Some(i) => self.has_call(call_id@) && i == self.index_of(call_id@) && i < self.entries_view().len(),
                None => !self.has_call(call_id@),
            },
    {
        let n = self.entries.len();
        let mut i: usize = 0;
        while i < n
            invariant
                self.wf(),
                n == self.entries_view().len(),
                i <= n,
                forall|j: int| 0 <= j < i ==> self.ids()[j] != call_id@,
            decreases n - i,
        {
            if self.entries[i].call_id == *call_id {
                assert(self.ids()[i as int] == call_id@);
                proof {
                    self.lemma_index_of_unique(call_id@, i as int);
                }
                return Some(i);
            }
            assert(self.ids()[i as int] != call_id@);
            i = i + 1;
        }
        assert(forall|j: int| 0 <= j < self.ids().len() ==> self.ids()[j] != call_id@);
        None
    }

    /// Inserts an empty entry for `call_id` if none exists; idempotent.
    pub fn create(&mut self, call_id: String)
        requires
            old(self).wf(),
        ensures
            final(self).wf(),
            final(self).has_call(call_id@),
            old(self).has_call(call_id@) ==> final(self).entries_view() == old(
                self,
            ).entries_view(),
            !old(self).has_call(call_id@) ==> final(self).ids() == old(self).ids().push(call_id@)
                && final(self).obs(call_id@) == Seq::<u64>::empty(),
            forall|id: Seq<char>|
                #![trigger final(self).has_call(id)]
                #![trigger final(self).obs(id)]
                id != call_id@ ==> (final(self).has_call(id) == old(self).has_call(id) && (old(
                    self,
                ).has_call(id) ==> final(self).obs(id) == old(self).obs(id))),
    {
        match self.find_index(&call_id) {
            Some(_) => {},
            None => {
                let ghost pre = *self;
                self.entries.push(RegistryEntry { call_id, observers: Vec::new() });
                proof {
                    let n = pre.ids().len();
                    assert(self.ids() =~= pre.ids().push(call_id@));
                    self.lemma_index_of_unique(call_id@, n as int);
                    assert forall|id: Seq<char>| id != call_id@ implies (final(self).has_call(id)
                        == pre.has_call(id) && (pre.has_call(id) ==> final(self).obs(id)
                        == pre.obs(id))) by {
                        if pre.has_call(id) {
                            let i = pre.index_of(id);
                            assert(0 <= i < pre.ids().len() && pre.ids()[i] == id);
                            assert(self.ids()[i] == id);
                            self.lemma_index_of_unique(id, i);
                            pre.lemma_index_of_unique(id, i);
                        } else {
                            if self.has_call(id) {
                                let i = self.index_of(id);
                                assert(0 <= i < self.ids().len() && self.ids()[i] == id);
                                assert(i < n + 1);
                                if i < n {
                                    assert(pre.ids()[i] == id);
                                }
                            }
                        }
                    }
                }
            },
        }
    }

    /// Appends `observer` to the entry for `call_id` if one exists; reports
    /// whether the join took place. An unknown identifier is a silent no-op.
    pub fn join(&mut self, call_id: &String, observer: u64) -> (joined: bool)
        requires
            old(self).wf(),
        ensures
            final(self).wf(),
            joined == old(self).has_call(call_id@),
            final(self).ids() == old(self).ids(),
            forall|id: Seq<char>|
                #[trigger] final(self).has_call(id) == old(self).has_call(id),
            joined ==> final(self).obs(call_id@) == old(self).obs(call_id@).push(observer),
            forall|id: Seq<char>|
                #![trigger final(self).obs(id)]
                old(self).has_call(id) && id != call_id@ ==> final(self).obs(id) == old(self).obs(
                    id,
                ),
            !joined ==> final(self).entries_view() == old(self).entries_view(),
    {
        match self.find_index(call_id) {
            Some(i) => {
                let ghost pre = *self;
                let entry = &mut self.entries[i];
                entry.observers.push(observer);
                proof {
                    assert(self.entries@ =~= pre.entries@.update(
                        i as int,
                        self.entries@[i as int],
                    ));
                    assert(self.ids() =~= pre.ids());
                    self.lemma_index_of_unique(call_id@, i as int);
                    assert(self.obs(call_id@) =~= pre.obs(call_id@).push(observer));
                    assert forall|id: Seq<char>|
                        pre.has_call(id) && id != call_id@ implies final(self).obs(id) == pre.obs(
                        id,
                    ) by {
                        let j = pre.index_of(id);
                        assert(0 <= j < pre.ids().len() && pre.ids()[j] == id);
                        pre.lemma_index_of_unique(id, j);
                        self.lemma_index_of_unique(id, j);
                        assert(j != i);
                    }
                    assert forall|id: Seq<char>|
                        final(self).has_call(id) == pre.has_call(id) by {
                        assert(self.ids() == pre.ids());
                    }
                }
                true
            },
            None => false,
        }
    }

    /// All call identifiers currently known, in entry order: what a newly
    /// connecting observer is offered to choose from.
    pub fn snapshot_ids(&self) -> (r: Vec<String>)
        ensures
            id_views(r@) == self.ids(),
    {
        let n = self.entries.len();
        let mut r: Vec<String> = Vec::new();
        let mut i: usize = 0;
        while i < n
            invariant
                n == self.entries_view().len(),
                i <= n,
                id_views(r@) =~= self.ids().take(i as int),
            decreases n - i,
        {
            let c = self.entries[i].call_id.clone();
            proof {
                assert(id_views(r@).len() == i);
                assert(r@.len() == i);
            }
            r.push(c);
            proof {
                assert(self.ids()[i as int] == self.entries_view()[i as int].call_id@);
                assert(id_views(r@).len() == i + 1);
                assert(id_views(r@)[i as int] == self.ids()[i as int]);
                assert(id_views(r@) =~= self.ids().take(i + 1));
            }
            i = i + 1;
        }
        assert(id_views(r@) =~= self.ids());
        r
    }

    /// The observers currently joined to `call_id`, or nothing when the call
    /// is unknown: the targets of one fan-out delivery.
    pub fn observers_of(&self, call_id: &String) -> (r: Option<Vec<u64>>)
        requires
            self.wf(),
        ensures
            r is Some <==> self.has_call(call_id@),
            r matches Some(v) ==> v@ == self.obs(call_id@),
    {
        match self.find_index(call_id) {
            Some(i) => {
                let v = self.entries[i].observers.clone();
                assert(v@ =~= self.obs(call_id@)) by {
                    assert(forall|k: int|
                        0 <= k < v@.len() ==> cloned::<u64>(
                            self.entries_view()[i as int].observers@[k],
                            #[trigger] v@[k],
                        ));
                }
                Some(v)
            },
            None => None,
        }
    }

    /// After one delivery of a message to every observer of `call_id`,
    /// retains exactly the observers whose delivery succeeded: `ok[i]`
    /// reports the delivery to the `i`-th observer. Unknown identifiers are
    /// a no-op.
    pub fn prune_failed(&mut self, call_id: &String, ok: &Vec<bool>)
        requires
            old(self).wf(),
            old(self).has_call(call_id@) ==> ok@.len() == old(self).obs(call_id@).len(),
        ensures
            final(self).wf(),
            final(self).ids() == old(self).ids(),
            forall|id: Seq<char>|
                #[trigger] final(self).has_call(id) == old(self).has_call(id),
            old(self).has_call(call_id@) ==> final(self).obs(call_id@) == surviving(
                old(self).obs(call_id@),
                ok@,
            ),
            forall|id: Seq<char>|
                #![trigger final(self).obs(id)]
                old(self).has_call(id) && id != call_id@ ==> final(self).obs(id) == old(self).obs(
                    id,
                ),
            !old(self).has_call(call_id@) ==> final(self).entries_view() == old(
                self,
            ).entries_view(),
    {
        match self.find_index(call_id) {
            Some(i) => {
                let ghost pre = *self;
                let entry = &mut self.entries[i];
                let mut kept: Vec<u64> = Vec::new();
                let n = entry.observers.len();
                let mut k: usize = 0;
                while k < n
                    invariant
                        n == entry.observers@.len(),
                        n == ok@.len(),
                        k <= n,
                        kept@ == surviving(entry.observers@.take(k as int), ok@.take(k as int)),
                    decreases n - k,
                {
                    proof {
                        lemma_surviving_take_step(entry.observers@, ok@, k as int);
                    }
                    if ok[k] {
                        kept.push(entry.observers[k]);
                    }
                    k = k + 1;
                }
                assert(entry.observers@.take(n as int) =~= entry.observers@);
                assert(ok@.take(n as int) =~= ok@);
                entry.observers = kept;
                proof {
                    assert(self.entries@ =~= pre.entries@.update(
                        i as int,
                        self.entries@[i as int],
                    ));
                    assert(self.ids() =~= pre.ids());
                    self.lemma_index_of_unique(call_id@, i as int);
                    assert forall|id: Seq<char>|
                        pre.has_call(id) && id != call_id@ implies final(self).obs(id) == pre.obs(
                        id,
                    ) by {
                        let j = pre.index_of(id);
                        assert(0 <= j < pre.ids().len() && pre.ids()[j] == id);
                        pre.lemma_index_of_unique(id, j);
                        self.lemma_index_of_unique(id, j);
                        assert(j != i);
                    }
                    assert forall|id: Seq<char>|
                        final(self).has_call(id) == pre.has_call(id) by {
                        assert(self.ids() == pre.ids());
                    }
                }
            },
            None => {},
        }
    }

    /// Removes the entry for `call_id`, handing back the observers it held so
    /// that each can be sent one close signal. Afterwards the identifier is
    /// unknown to the registry.
    pub fn remove_and_close(&mut self, call_id: &String) -> (r: Option<Vec<u64>>)
        requires
            old(self).wf(),
        ensures
            final(self).wf(),
            r is Some <==> old(self).has_call(call_id@),
            r matches Some(v) ==> v@ == old(self).obs(call_id@),
            !final(self).has_call(call_id@),
            final(self).ids() == old(self).ids().remove_value(call_id@),
            forall|id: Seq<char>|
                #![trigger final(self).has_call(id)]
                #![trigger final(self).obs(id)]
                id != call_id@ ==> (final(self).has_call(id) == old(self).has_call(id) && (old(
                    self,
                ).has_call(id) ==> final(self).obs(id) == old(self).obs(id))),
            !old(self).has_call(call_id@) ==> final(self).entries_view() == old(
                self,
            ).entries_view(),
    {
        match self.find_index(call_id) {
            Some(i) => {
                let ghost pre = *self;
                let entry = self.entries.remove(i);
                proof {
                    assert(self.ids() =~= pre.ids().remove(i as int));
                    assert(pre.ids()[i as int] == call_id@);
                    assert(forall|j: int|
                        0 <= j < pre.ids().len() && pre.ids()[j] == call_id@ ==> j == i) by {
                        assert forall|j: int|
                            0 <= j < pre.ids().len() && pre.ids()[j] == call_id@ implies j
                            == i by {
                            pre.lemma_index_of_unique(call_id@, j);
                            pre.lemma_index_of_unique(call_id@, i as int);
                        }
                    }
                    assert(pre.ids().index_of_first(call_id@) == Some(i as int)) by {
                        lemma_index_of_first_is(pre.ids(), call_id@, i as int);
                    }
                    assert(final(self).ids() =~= pre.ids().remove_value(call_id@));
                    assert(!self.has_call(call_id@)) by {
                        if self.has_call(call_id@) {
                            let j = choose|j: int|
                                0 <= j < self.ids().len() && self.ids()[j] == call_id@;
                            if j < i {
                                assert(pre.ids()[j] == call_id@);
                            } else {
                                assert(pre.ids()[j + 1] == call_id@);
                            }
                        }
                    }
                    assert forall|id: Seq<char>| id != call_id@ implies (final(self).has_call(id)
                        == pre.has_call(id) && (pre.has_call(id) ==> final(self).obs(id)
                        == pre.obs(id))) by {
                        if pre.has_call(id) {
                            let j = pre.index_of(id);
                            assert(0 <= j < pre.ids().len() && pre.ids()[j] == id);
                            assert(j != i);
                            let j2 = if j < i as int {
                                j
                            } else {
                                j - 1
                            };
                            assert(self.ids()[j2] == id);
                            self.lemma_index_of_unique(id, j2);
                            pre.lemma_index_of_unique(id, j);
                        } else {
                            if self.has_call(id) {
                                let j = self.index_of(id);
                                assert(0 <= j < self.ids().len() && self.ids()[j] == id);
                                if j < i {
                                    assert(pre.ids()[j] == id);
                                } else {
                                    assert(pre.ids()[j + 1] == id);
                                }
                            }
                        }
                    }
                }
                Some(entry.observers)
            },
            None => {
                proof {
                    let ids = self.ids();
                    assert(ids.index_of_first(call_id@) is None) by {
                        ids.index_of_first_ensures(call_id@);
                        if ids.index_of_first(call_id@) is Some {
                            let j = ids.index_of_first(call_id@).unwrap();
                            assert(ids[j] == call_id@);
                        }
                    }
                    assert(final(self).ids() == old(self).ids().remove_value(call_id@));
                }
                None
            },
        }
    }
}

/// Taking one more element of both sequences extends the survivors by the
/// `k`-th observer exactly when its delivery succeeded.
proof fn lemma_surviving_take_step(obs: Seq<u64>, ok: Seq<bool>, k: int)
    requires
        0 <= k < obs.len(),
        0 <= k < ok.len(),
    ensures
        ok[k] ==> surviving(obs.take(k + 1), ok.take(k + 1)) == surviving(
            obs.take(k),
            ok.take(k),
        ).push(obs[k]),
        !ok[k] ==> surviving(obs.take(k + 1), ok.take(k + 1)) == surviving(
            obs.take(k),
            ok.take(k),
        ),
    decreases k,
{
    if k == 0 {
        assert(obs.take(1).drop_first() =~= obs.take(0));
        assert(ok.take(1).drop_first() =~= ok.take(0));
        if ok[0] {
            assert(surviving(obs.take(1), ok.take(1)) =~= surviving(obs.take(0), ok.take(0)).push(
                obs[0],
            ));
        }
    } else {
        lemma_surviving_take_step(obs.drop_first(), ok.drop_first(), k - 1);
        assert(obs.take(k + 1).drop_first() =~= obs.drop_first().take(k));
        assert(ok.take(k + 1).drop_first() =~= ok.drop_first().take(k));
        assert(obs.take(k).drop_first() =~= obs.drop_first().take(k - 1));
        assert(ok.take(k).drop_first() =~= ok.drop_first().take(k - 1));
        assert(obs.drop_first()[k - 1] == obs[k]);
        assert(ok.drop_first()[k - 1] == ok[k]);
        if ok[k] {
            assert(surviving(obs.take(k + 1), ok.take(k + 1)) =~= surviving(
                obs.take(k),
                ok.take(k),
            ).push(obs[k]));
        } else {
            assert(surviving(obs.take(k + 1), ok.take(k + 1)) =~= surviving(
                obs.take(k),
                ok.take(k),
            ));
        }
    }
}

/// In a sequence with exactly one position holding `v`, that position is the first.
proof fn lemma_index_of_first_is(s: Seq<Seq<char>>, v: Seq<char>, i: int)
    requires
        0 <= i < s.len(),
        s[i] == v,
        forall|j: int| 0 <= j < s.len() && s[j] == v ==> j == i,
    ensures
        s.index_of_first(v) == Some(i),
{
    s.index_of_first_ensures(v);
    assert(s.contains(v));
    if s.index_of_first(v) is Some {
        let j = s.index_of_first(v).unwrap();
        assert(s[j] == v);
    }
}

/// How many observers survive a delivery round: one per successful delivery.
pub proof fn lemma_surviving_count(obs: Seq<u64>, ok: Seq<bool>)
    requires
        obs.len() == ok.len(),
    ensures
        surviving(obs, ok).len() == count_true(ok),
    decreases obs.len(),
{
    if obs.len() > 0 {
        lemma_surviving_count(obs.drop_first(), ok.drop_first());
    }
}

/// Every surviving observer was an observer whose delivery succeeded, at the
/// same relative position; no observer is invented by pruning.
pub proof fn lemma_surviving_membership(obs: Seq<u64>, ok: Seq<bool>, j: int)
    requires
        obs.len() == ok.len(),
        0 <= j < surviving(obs, ok).len(),
    ensures
        exists|i: int|
            0 <= i < obs.len() && ok[i] && obs[i] == surviving(obs, ok)[j],
    decreases obs.len(),
{
    if obs.len() > 0 {
        if ok[0] {
            if j == 0 {
                assert(0 <= 0 < obs.len() && ok[0] && obs[0] == surviving(obs, ok)[0]);
            } else {
                lemma_surviving_membership(obs.drop_first(), ok.drop_first(), j - 1);
                let i = choose|i: int|
                    0 <= i < obs.drop_first().len() && ok.drop_first()[i] && obs.drop_first()[i]
                        == surviving(obs.drop_first(), ok.drop_first())[j - 1];
                assert(0 <= i + 1 < obs.len() && ok[i + 1] && obs[i + 1] == surviving(obs, ok)[j]);
            }
        } else {
            lemma_surviving_membership(obs.drop_first(), ok.drop_first(), j);
            let i = choose|i: int|
                0 <= i < obs.drop_first().len() && ok.drop_first()[i] && obs.drop_first()[i]
                    == surviving(obs.drop_first(), ok.drop_first())[j];
            assert(0 <= i + 1 < obs.len() && ok[i + 1] && obs[i + 1] == surviving(obs, ok)[j]);
        }
    }
}

} // verus!
