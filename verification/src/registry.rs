//! The registry of snapshots that are in use: for each key the roles under
//! which it is in use.
use vstd::prelude::*;
use crate::key::SnapKey;

verus! {

/// A role under which a snapshot is in use.
#[derive(Clone, Copy, PartialEq, Eq, Debug, Structural)]
pub enum SnapEntry {
    Generating,
    Sending,
    Receiving,
    Applying,
}

impl SnapEntry {
    /// Whether the role is on the sending side.
    pub open spec fn spec_is_sending(self) -> bool {
        self == SnapEntry::Sending || self == SnapEntry::Generating
    }

    pub fn is_sending(&self) -> (r: bool)
        ensures
            r == self.spec_is_sending(),
    {
        match self {
            SnapEntry::Sending | SnapEntry::Generating => true,
            SnapEntry::Receiving | SnapEntry::Applying => false,
        }
    }
}

#[derive(Debug)]
struct Registration {
    key: SnapKey,
    entries: Vec<SnapEntry>,
}

/// The snapshots that are in use.
#[derive(Debug)]
pub struct Registry {
    items: Vec<Registration>,
}

/// The roles without `entry`.
pub open spec fn without(roles: Seq<SnapEntry>, entry: SnapEntry) -> Seq<SnapEntry>
    decreases roles.len(),
{
    if roles.len() == 0 {
        roles
    } else if roles.last() == entry {
        without(roles.drop_last(), entry)
    } else {
        without(roles.drop_last(), entry).push(roles.last())
    }
}

/// The registry after `key` was registered under `entry`: a role that is
/// there already is not added again.
pub open spec fn registered(
    m: Map<SnapKey, Seq<SnapEntry>>,
    key: SnapKey,
    entry: SnapEntry,
) -> Map<SnapKey, Seq<SnapEntry>> {
    if m.contains_key(key) {
        if m[key].contains(entry) {
            m
        } else {
            m.insert(key, m[key].push(entry))
        }
    } else {
        m.insert(key, seq![entry])
    }
}

/// The registry after `key` was deregistered from `entry`: the key leaves the
/// registry with its last role.
pub open spec fn deregistered(
    m: Map<SnapKey, Seq<SnapEntry>>,
    key: SnapKey,
    entry: SnapEntry,
) -> Map<SnapKey, Seq<SnapEntry>> {
    if m.contains_key(key) {
        let rest = without(m[key], entry);
        if rest.len() == 0 {
            m.remove(key)
        } else {
            m.insert(key, rest)
        }
    } else {
        m
    }
}

/// Whether a snapshot may be deleted. With `check_entry`, which is how the
/// holder of a snapshot deletes it, the snapshot must not be registered under
/// more than one role; without, it must not be registered at all.
pub open spec fn may_delete(m: Map<SnapKey, Seq<SnapEntry>>, key: SnapKey, check_entry: bool) -> bool {
    if check_entry {
        !(m.contains_key(key) && m[key].len() > 1)
    } else {
        !m.contains_key(key)
    }
}

/// Whether every registered key has a role, and none has a role twice.
pub open spec fn registry_wf(m: Map<SnapKey, Seq<SnapEntry>>) -> bool {
    forall|k: SnapKey| #[trigger]
        m.contains_key(k) ==> m[k].len() > 0 && m[k].no_duplicates()
}

impl View for Registry {
    type V = Map<SnapKey, Seq<SnapEntry>>;

    closed spec fn view(&self) -> Map<SnapKey, Seq<SnapEntry>> {
        Map::new(
            |k: SnapKey| exists|i: int| 0 <= i < self.items@.len() && self.items@[i].key == k,
            |k: SnapKey|
                self.items@[choose|i: int| 0 <= i < self.items@.len() && self.items@[i].key
                    == k].entries@,
        )
    }
}

impl Registry {
    /// No key is there twice, every key has a role, and no key has a role twice.
    pub closed spec fn wf(&self) -> bool {
        &&& forall|i: int, j: int|
            0 <= i < j < self.items@.len() ==> self.items@[i].key != self.items@[j].key
        &&& forall|i: int|
            0 <= i < self.items@.len() ==> (#[trigger] self.items@[i]).entries@.len() > 0
                && self.items@[i].entries@.no_duplicates()
    }

    /// What `wf` means for the view.
    pub proof fn lemma_wf(&self)
        requires
            self.wf(),
        ensures
            registry_wf(self@),
            self@.dom().finite(),
    {
        assert forall|k: SnapKey| #[trigger] self@.contains_key(k) implies self@[k].len() > 0
            && self@[k].no_duplicates() by {
            let i = choose|i: int| 0 <= i < self.items@.len() && self.items@[i].key == k;
            assert(self.items@[i].entries@.len() > 0);
        }
        self.lemma_dom_finite(self.items@.len() as int);
        assert(self@.dom() =~= self.keys_upto(self.items@.len() as int));
    }

    /// An empty registry.
    pub fn new() -> (r: Registry)
        ensures
            r.wf(),
            r@ == Map::<SnapKey, Seq<SnapEntry>>::empty(),
    {
        let r = Registry { items: Vec::new() };
        assert(r@ =~= Map::<SnapKey, Seq<SnapEntry>>::empty());
        r
    }

    spec fn keys_upto(&self, n: int) -> Set<SnapKey> {
        Set::new(|k: SnapKey| exists|i: int| 0 <= i < n && self.items@[i].key == k)
    }

    proof fn lemma_dom_finite(&self, n: int)
        requires
            0 <= n <= self.items@.len(),
        ensures
            self.keys_upto(n).finite(),
            self.keys_upto(n).len() <= n,
        decreases n,
    {
        if n == 0 {
            assert(self.keys_upto(0) =~= Set::<SnapKey>::empty());
        } else {
            self.lemma_dom_finite(n - 1);
            assert(self.keys_upto(n) =~= self.keys_upto(n - 1).insert(self.items@[n - 1].key));
        }
    }

    fn position(&self, key: &SnapKey) -> (r: Option<usize>)
        requires
            self.wf(),
        ensures
            match r {
                Some(i) => i < self.items@.len() && self.items@[i as int].key == *key
                    && self@.contains_key(*key) && self@[*key] == self.items@[i as int].entries@,
                None => !self@.contains_key(*key) && forall|i: int|
                    0 <= i < self.items@.len() ==> self.items@[i].key != *key,
            },
    {
        let mut i: usize = 0;
        while i < self.items.len()
            invariant
                i <= self.items@.len(),
                self.wf(),
                forall|j: int| 0 <= j < i ==> self.items@[j].key != *key,
            decreases self.items@.len() - i,
        {
            if self.items[i].key == *key {
                proof {
                    let c = choose|c: int|
                        0 <= c < self.items@.len() && self.items@[c].key == *key;
                    assert(c == i);
                }
                return Some(i);
            }
            i += 1;
        }
        None
    }

    /// Whether `key` is registered.
    pub fn has_registered(&self, key: &SnapKey) -> (r: bool)
        requires
            self.wf(),
        ensures
            r == self@.contains_key(*key),
    {
        self.position(key).is_some()
    }

    /// The number of roles under which `key` is registered.
    pub fn role_count(&self, key: &SnapKey) -> (n: usize)
        requires
            self.wf(),
        ensures
            n == if self@.contains_key(*key) {
                self@[*key].len()
            } else {
                0
            },
    {
        match self.position(key) {
            Some(i) => self.items[i].entries.len(),
            None => 0,
        }
    }

    /// Whether the snapshot of `key` may be deleted.
    pub fn may_delete(&self, key: &SnapKey, check_entry: bool) -> (r: bool)
        requires
            self.wf(),
        ensures
            r == may_delete(self@, *key, check_entry),
    {
        let n: usize = self.role_count(key);
        proof {
            self.lemma_wf();
        }
        if check_entry {
            n <= 1
        } else {
            n == 0
        }
    }

    /// Registers `key` under `entry`. Says whether the role was new.
    pub fn register(&mut self, key: SnapKey, entry: SnapEntry) -> (added: bool)
        requires
            old(self).wf(),
        ensures
            final(self).wf(),
            final(self)@ == registered(old(self)@, key, entry),
            added == !(old(self)@.contains_key(key) && old(self)@[key].contains(entry)),
    {
        match self.position(&key) {
            Some(i) => {
                let mut found: bool = false;
                let mut j: usize = 0;
                while j < self.items[i].entries.len()
                    invariant
                        i < self.items@.len(),
                        j <= self.items@[i as int].entries@.len(),
                        *self == *old(self),
                        found == exists|t: int| 0 <= t < j && self.items@[i as int].entries@[t] == entry,
                    decreases self.items@[i as int].entries@.len() - j,
                {
                    if self.items[i].entries[j] == entry {
                        found = true;
                    }
                    j += 1;
                }
                if found {
                    return false;
                }
                let ghost roles = self.items@[i as int].entries@;
                assert(!roles.contains(entry));
                self.items[i].entries.push(entry);
                proof {
                    assert(self.items@[i as int].entries@ == roles.push(entry));
                    assert(self.items@[i as int].key == key);
                    assert forall|a: int| 0 <= a < self.items@.len() implies (
                    #[trigger] self.items@[a]).key == old(self).items@[a].key by {}
                    assert(roles.push(entry).no_duplicates()) by {
                        assert forall|a: int, b: int|
                            0 <= a < roles.len() + 1 && 0 <= b < roles.len() + 1 && a
                                != b implies roles.push(entry)[a] != roles.push(entry)[b] by {
                            if a < roles.len() && b < roles.len() {
                                assert(roles[a] != roles[b]);
                            } else if a < roles.len() {
                                assert(roles[a] != entry);
                            } else {
                                assert(roles[b] != entry);
                            }
                        }
                    }
                    self.lemma_updated(old(self), i as int);
                }
                true
            },
            None => {
                let mut entries: Vec<SnapEntry> = Vec::new();
                entries.push(entry);
                assert(entries@ =~= seq![entry]);
                self.items.push(Registration { key, entries });
                proof {
                    self.lemma_pushed(old(self));
                }
                true
            },
        }
    }

    /// After item `i` got other roles, the registry maps its key to those
    /// roles and is else as before.
    proof fn lemma_updated(&self, before: &Registry, i: int)
        requires
            before.wf(),
            0 <= i < before.items@.len(),
            self.items@.len() == before.items@.len(),
            forall|a: int|
                0 <= a < self.items@.len() ==> (#[trigger] self.items@[a]).key
                    == before.items@[a].key,
            forall|a: int|
                0 <= a < self.items@.len() && a != i ==> (#[trigger] self.items@[a]).entries@
                    == before.items@[a].entries@,
            self.items@[i].entries@.len() > 0,
            self.items@[i].entries@.no_duplicates(),
        ensures
            self.wf(),
            self@ == before@.insert(before.items@[i].key, self.items@[i].entries@),
    {
        assert(self.wf()) by {
            assert forall|a: int| 0 <= a < self.items@.len() implies (
            #[trigger] self.items@[a]).entries@.len() > 0
                && self.items@[a].entries@.no_duplicates() by {
                if a != i {
                    assert(before.items@[a].entries@.len() > 0);
                }
            }
        }
        let target = before@.insert(before.items@[i].key, self.items@[i].entries@);
        assert forall|k: SnapKey| self@.contains_key(k) == target.contains_key(k) by {
            if self@.contains_key(k) {
                let a = choose|a: int| 0 <= a < self.items@.len() && self.items@[a].key == k;
                assert(before.items@[a].key == k);
            }
            if before@.contains_key(k) {
                let a = choose|a: int| 0 <= a < before.items@.len() && before.items@[a].key == k;
                assert(self.items@[a].key == k);
            }
            assert(self.items@[i].key == before.items@[i].key);
        }
        assert forall|k: SnapKey| self@.contains_key(k) implies self@[k] == target[k] by {
            let a = choose|a: int| 0 <= a < self.items@.len() && self.items@[a].key == k;
            assert(before.items@[a].key == k);
            let b = choose|b: int| 0 <= b < before.items@.len() && before.items@[b].key == k;
            assert(a == b);
        }
        assert(self@ =~= target);
    }

    /// After a registration for a new key was added, the registry maps that
    /// key to its roles and is else as before.
    proof fn lemma_pushed(&self, before: &Registry)
        requires
            before.wf(),
            self.items@.len() == before.items@.len() + 1,
            forall|a: int|
                0 <= a < before.items@.len() ==> #[trigger] self.items@[a] == before.items@[a],
            !before@.contains_key(self.items@.last().key),
            self.items@.last().entries@.len() > 0,
            self.items@.last().entries@.no_duplicates(),
        ensures
            self.wf(),
            self@ == before@.insert(self.items@.last().key, self.items@.last().entries@),
    {
        let n = before.items@.len() as int;
        let key = self.items@[n].key;
        assert(self.wf()) by {
            assert forall|a: int, b: int| 0 <= a < b < self.items@.len() implies self.items@[a].key
                != self.items@[b].key by {
                if b == n {
                    assert(before.items@[a].key == self.items@[a].key);
                    assert(before@.contains_key(self.items@[a].key));
                } else {
                    assert(before.items@[a].key != before.items@[b].key);
                }
            }
            assert forall|a: int| 0 <= a < self.items@.len() implies (
            #[trigger] self.items@[a]).entries@.len() > 0
                && self.items@[a].entries@.no_duplicates() by {
                if a < n {
                    assert(before.items@[a].entries@.len() > 0);
                }
            }
        }
        let target = before@.insert(key, self.items@[n].entries@);
        assert forall|k: SnapKey| self@.contains_key(k) == target.contains_key(k) by {
            if self@.contains_key(k) {
                let a = choose|a: int| 0 <= a < self.items@.len() && self.items@[a].key == k;
                if a < n {
                    assert(before.items@[a].key == k);
                }
            }
            if before@.contains_key(k) {
                let a = choose|a: int| 0 <= a < before.items@.len() && before.items@[a].key == k;
                assert(self.items@[a].key == k);
            }
            assert(self.items@[n].key == key);
        }
        assert forall|k: SnapKey| self@.contains_key(k) implies self@[k] == target[k] by {
            let a = choose|a: int| 0 <= a < self.items@.len() && self.items@[a].key == k;
            if a < n {
                assert(before.items@[a].key == k);
                let b = choose|b: int| 0 <= b < before.items@.len() && before.items@[b].key == k;
                assert(self.items@[b].key == k);
                assert(a == b);
            }
        }
        assert(self@ =~= target);
    }
}


/// What is left of the roles without `entry`: every other role, in order.
pub proof fn lemma_without(roles: Seq<SnapEntry>, entry: SnapEntry)
    ensures
        forall|x: SnapEntry|
            without(roles, entry).contains(x) <==> roles.contains(x) && x != entry,
        roles.no_duplicates() ==> without(roles, entry).no_duplicates(),
        without(roles, entry).len() <= roles.len(),
        !roles.contains(entry) ==> without(roles, entry) == roles,
        roles.contains(entry) ==> without(roles, entry).len() < roles.len(),
    decreases roles.len(),
{
    if roles.len() > 0 {
        let head = roles.drop_last();
        let last = roles.last();
        lemma_without(head, entry);
        let rest = without(head, entry);
        assert forall|x: SnapEntry| roles.contains(x) <==> head.contains(x) || x == last by {
            if roles.contains(x) {
                let i = choose|i: int| 0 <= i < roles.len() && roles[i] == x;
                if i < head.len() {
                    assert(head[i] == x);
                }
            }
            if head.contains(x) {
                let i = choose|i: int| 0 <= i < head.len() && head[i] == x;
                assert(roles[i] == x);
            }
            assert(roles[roles.len() - 1] == last);
        }
        if last == entry {
        } else {
            let out = rest.push(last);
            assert forall|x: SnapEntry| out.contains(x) <==> rest.contains(x) || x == last by {
                if out.contains(x) {
                    let i = choose|i: int| 0 <= i < out.len() && out[i] == x;
                    if i < rest.len() {
                        assert(rest[i] == x);
                    }
                }
                if rest.contains(x) {
                    let i = choose|i: int| 0 <= i < rest.len() && rest[i] == x;
                    assert(out[i] == x);
                }
                assert(out[out.len() - 1] == last);
            }
            if roles.no_duplicates() {
                assert(head.no_duplicates()) by {
                    assert forall|a: int, b: int|
                        0 <= a < head.len() && 0 <= b < head.len() && a != b implies head[a]
                        != head[b] by {
                        assert(roles[a] != roles[b]);
                    }
                }
                assert(!head.contains(last)) by {
                    if head.contains(last) {
                        let i = choose|i: int| 0 <= i < head.len() && head[i] == last;
                        assert(roles[i] == roles[roles.len() - 1]);
                    }
                }
                assert(out.no_duplicates()) by {
                    assert forall|a: int, b: int|
                        0 <= a < out.len() && 0 <= b < out.len() && a != b implies out[a]
                        != out[b] by {
                        if a < rest.len() && b < rest.len() {
                            assert(rest[a] != rest[b]);
                        } else if a < rest.len() {
                            assert(rest.contains(rest[a]));
                        } else {
                            assert(rest.contains(rest[b]));
                        }
                    }
                }
            }
            if !roles.contains(entry) {
                assert(out =~= roles);
            }
        }
    }
}

/// Whether a snapshot is in use on the sending side.
pub open spec fn any_sending(roles: Seq<SnapEntry>) -> bool {
    exists|i: int| 0 <= i < roles.len() && (#[trigger] roles[i]).spec_is_sending()
}

/// Whether a snapshot is in use on the receiving side.
pub open spec fn any_receiving(roles: Seq<SnapEntry>) -> bool {
    exists|i: int| 0 <= i < roles.len() && !(#[trigger] roles[i]).spec_is_sending()
}

/// The keys that are in use on the sending side.
pub open spec fn sending_keys(m: Map<SnapKey, Seq<SnapEntry>>) -> Set<SnapKey> {
    Set::new(|k: SnapKey| m.contains_key(k) && any_sending(m[k]))
}

/// The keys that are in use on the receiving side.
pub open spec fn receiving_keys(m: Map<SnapKey, Seq<SnapEntry>>) -> Set<SnapKey> {
    Set::new(|k: SnapKey| m.contains_key(k) && any_receiving(m[k]))
}

impl Registry {
    /// Takes `entry` from the roles of `key`; with its last role the key
    /// leaves the registry. Says whether the key was registered under the role.
    pub fn deregister(&mut self, key: &SnapKey, entry: &SnapEntry) -> (handled: bool)
        requires
            old(self).wf(),
        ensures
            final(self).wf(),
            final(self)@ == deregistered(old(self)@, *key, *entry),
            handled == (old(self)@.contains_key(*key) && old(self)@[*key].contains(*entry)),
    {
        match self.position(key) {
            None => false,
            Some(i) => {
                let ghost roles = self.items@[i as int].entries@;
                let mut rest: Vec<SnapEntry> = Vec::new();
                let mut j: usize = 0;
                while j < self.items[i].entries.len()
                    invariant
                        i < self.items@.len(),
                        roles == self.items@[i as int].entries@,
                        j <= roles.len(),
                        *self == *old(self),
                        rest@ == without(roles.take(j as int), *entry),
                    decreases roles.len() - j,
                {
                    let e = self.items[i].entries[j];
                    assert(roles.take(j + 1).drop_last() =~= roles.take(j as int));
                    if e != *entry {
                        rest.push(e);
                    }
                    j += 1;
                }
                assert(roles.take(j as int) =~= roles);
                proof {
                    lemma_without(roles, *entry);
                }
                let handled: bool = rest.len() < self.items[i].entries.len();
                if rest.len() == 0 {
                    let _ = self.items.remove(i);
                    proof {
                        self.lemma_removed(old(self), i as int);
                    }
                } else {
                    self.items[i].entries = rest;
                    proof {
                        assert forall|a: int| 0 <= a < self.items@.len() implies (
                        #[trigger] self.items@[a]).key == old(self).items@[a].key by {}
                        self.lemma_updated(old(self), i as int);
                    }
                }
                handled
            },
        }
    }

    /// After item `i` left, the registry lacks its key and is else as before.
    proof fn lemma_removed(&self, before: &Registry, i: int)
        requires
            before.wf(),
            0 <= i < before.items@.len(),
            self.items@ == before.items@.remove(i),
        ensures
            self.wf(),
            self@ == before@.remove(before.items@[i].key),
    {
        let key = before.items@[i].key;
        let old_index = |a: int|
            if a < i {
                a
            } else {
                a + 1
            };
        assert forall|a: int| 0 <= a < self.items@.len() implies #[trigger] self.items@[a]
            == before.items@[old_index(a)] by {}
        assert(self.wf()) by {
            assert forall|a: int, b: int| 0 <= a < b < self.items@.len() implies self.items@[a].key
                != self.items@[b].key by {
                assert(self.items@[a] == before.items@[old_index(a)]);
                assert(self.items@[b] == before.items@[old_index(b)]);
            }
            assert forall|a: int| 0 <= a < self.items@.len() implies (
            #[trigger] self.items@[a]).entries@.len() > 0
                && self.items@[a].entries@.no_duplicates() by {
                assert(self.items@[a] == before.items@[old_index(a)]);
            }
        }
        let target = before@.remove(key);
        assert forall|k: SnapKey| self@.contains_key(k) == target.contains_key(k) by {
            if self@.contains_key(k) {
                let a = choose|a: int| 0 <= a < self.items@.len() && self.items@[a].key == k;
                assert(self.items@[a] == before.items@[old_index(a)]);
                assert(before.items@[old_index(a)].key == k);
            }
            if target.contains_key(k) {
                let b = choose|b: int| 0 <= b < before.items@.len() && before.items@[b].key == k;
                assert(b != i);
                if b < i {
                    assert(self.items@[b] == before.items@[old_index(b)]);
                } else {
                    assert(self.items@[b - 1] == before.items@[old_index(b - 1)]);
                }
            }
        }
        assert forall|k: SnapKey| self@.contains_key(k) implies self@[k] == target[k] by {
            let a = choose|a: int| 0 <= a < self.items@.len() && self.items@[a].key == k;
            assert(self.items@[a] == before.items@[old_index(a)]);
            let b = choose|b: int| 0 <= b < before.items@.len() && before.items@[b].key == k;
            assert(before.items@[old_index(a)].key == k);
            assert(b == old_index(a));
        }
        assert(self@ =~= target);
    }

    spec fn sending_upto(&self, n: int) -> Set<SnapKey> {
        Set::new(
            |k: SnapKey|
                exists|i: int|
                    0 <= i < n && self.items@[i].key == k && any_sending(self.items@[i].entries@),
        )
    }

    spec fn receiving_upto(&self, n: int) -> Set<SnapKey> {
        Set::new(
            |k: SnapKey|
                exists|i: int|
                    0 <= i < n && self.items@[i].key == k && any_receiving(
                        self.items@[i].entries@,
                    ),
        )
    }

    proof fn lemma_counts_step(&self, n: int)
        requires
            self.wf(),
            0 < n <= self.items@.len(),
        ensures
            self.sending_upto(n - 1).finite(),
            self.receiving_upto(n - 1).finite(),
            self.sending_upto(n).finite(),
            self.receiving_upto(n).finite(),
            self.sending_upto(n).len() == self.sending_upto(n - 1).len() + if any_sending(
                self.items@[n - 1].entries@,
            ) {
                1nat
            } else {
                0nat
            },
            self.receiving_upto(n).len() == self.receiving_upto(n - 1).len() + if any_receiving(
                self.items@[n - 1].entries@,
            ) {
                1nat
            } else {
                0nat
            },
        decreases n,
    {
        if n == 1 {
            assert(self.sending_upto(0) =~= Set::<SnapKey>::empty());
            assert(self.receiving_upto(0) =~= Set::<SnapKey>::empty());
        } else {
            self.lemma_counts_step(n - 1);
        }
        let key = self.items@[n - 1].key;
        if any_sending(self.items@[n - 1].entries@) {
            assert(self.sending_upto(n) =~= self.sending_upto(n - 1).insert(key));
        } else {
            assert(self.sending_upto(n) =~= self.sending_upto(n - 1));
        }
        if any_receiving(self.items@[n - 1].entries@) {
            assert(self.receiving_upto(n) =~= self.receiving_upto(n - 1).insert(key));
        } else {
            assert(self.receiving_upto(n) =~= self.receiving_upto(n - 1));
        }
    }

    proof fn lemma_counts_all(&self)
        requires
            self.wf(),
        ensures
            self.sending_upto(self.items@.len() as int) == sending_keys(self@),
            self.receiving_upto(self.items@.len() as int) == receiving_keys(self@),
    {
        let n = self.items@.len() as int;
        assert forall|k: SnapKey| self.sending_upto(n).contains(k) == sending_keys(self@).contains(
            k,
        ) by {
            if self@.contains_key(k) {
                let c = choose|c: int| 0 <= c < self.items@.len() && self.items@[c].key == k;
                if self.sending_upto(n).contains(k) {
                    let i = choose|i: int|
                        0 <= i < n && self.items@[i].key == k && any_sending(
                            self.items@[i].entries@,
                        );
                    assert(i == c);
                }
            }
        }
        assert forall|k: SnapKey| self.receiving_upto(n).contains(k) == receiving_keys(
            self@,
        ).contains(k) by {
            if self@.contains_key(k) {
                let c = choose|c: int| 0 <= c < self.items@.len() && self.items@[c].key == k;
                if self.receiving_upto(n).contains(k) {
                    let i = choose|i: int|
                        0 <= i < n && self.items@[i].key == k && any_receiving(
                            self.items@[i].entries@,
                        );
                    assert(i == c);
                }
            }
        }
        assert(self.sending_upto(n) =~= sending_keys(self@));
        assert(self.receiving_upto(n) =~= receiving_keys(self@));
    }

    /// How many keys are in use on the sending side, and how many on the
    /// receiving side. A key that is in use on both sides counts on both.
    pub fn counts(&self) -> (r: (usize, usize))
        requires
            self.wf(),
        ensures
            r.0 == sending_keys(self@).len(),
            r.1 == receiving_keys(self@).len(),
    {
        let mut sending: usize = 0;
        let mut receiving: usize = 0;
        let mut i: usize = 0;
        proof {
            assert(self.sending_upto(0) =~= Set::<SnapKey>::empty());
            assert(self.receiving_upto(0) =~= Set::<SnapKey>::empty());
        }
        while i < self.items.len()
            invariant
                i <= self.items@.len(),
                self.wf(),
                sending == self.sending_upto(i as int).len(),
                receiving == self.receiving_upto(i as int).len(),
                sending <= i,
                receiving <= i,
            decreases self.items@.len() - i,
        {
            let entries = &self.items[i].entries;
            let mut is_sending: bool = false;
            let mut is_receiving: bool = false;
            let mut j: usize = 0;
            while j < entries.len()
                invariant
                    j <= entries@.len(),
                    is_sending == any_sending(entries@.take(j as int)),
                    is_receiving == any_receiving(entries@.take(j as int)),
                decreases entries@.len() - j,
            {
                let ghost before = entries@.take(j as int);
                let ghost after = entries@.take(j + 1);
                proof {
                    assert(after[j as int] == entries@[j as int]);
                    if any_sending(before) {
                        let t = choose|t: int| 0 <= t < before.len() && before[t].spec_is_sending();
                        assert(after[t].spec_is_sending());
                    }
                    if any_receiving(before) {
                        let t = choose|t: int|
                            0 <= t < before.len() && !before[t].spec_is_sending();
                        assert(!after[t].spec_is_sending());
                    }
                    if any_sending(after) {
                        let t = choose|t: int| 0 <= t < after.len() && after[t].spec_is_sending();
                        if t < j {
                            assert(before[t].spec_is_sending());
                        }
                    }
                    if any_receiving(after) {
                        let t = choose|t: int| 0 <= t < after.len() && !after[t].spec_is_sending();
                        if t < j {
                            assert(!before[t].spec_is_sending());
                        }
                    }
                }
                if entries[j].is_sending() {
                    is_sending = true;
                } else {
                    is_receiving = true;
                }
                j += 1;
            }
            assert(entries@.take(j as int) =~= entries@);
            proof {
                self.lemma_counts_step(i as int + 1);
            }
            if is_sending {
                sending += 1;
            }
            if is_receiving {
                receiving += 1;
            }
            i += 1;
        }
        proof {
            self.lemma_counts_all();
        }
        (sending, receiving)
    }
}

/// Registering a key under a role a second time changes nothing.
pub proof fn lemma_register_twice(m: Map<SnapKey, Seq<SnapEntry>>, key: SnapKey, entry: SnapEntry)
    ensures
        registered(registered(m, key, entry), key, entry) == registered(m, key, entry),
{
    let once = registered(m, key, entry);
    if m.contains_key(key) {
        if !m[key].contains(entry) {
            assert(m[key].push(entry)[m[key].len() as int] == entry);
        }
    } else {
        assert(seq![entry][0] == entry);
    }
    assert(once.contains_key(key) && once[key].contains(entry));
}

/// A key that is registered under two roles stays in the registry, and its
/// snapshot is kept from garbage collection, until both roles are
/// deregistered; its holder may delete it once one role is left.
pub proof fn lemma_two_roles(
    m: Map<SnapKey, Seq<SnapEntry>>,
    key: SnapKey,
    first: SnapEntry,
    second: SnapEntry,
)
    requires
        !m.contains_key(key),
        first != second,
    ensures
        ({
            let both = registered(registered(m, key, first), key, second);
            let one = deregistered(both, key, first);
            let none = deregistered(one, key, second);
            &&& !may_delete(both, key, false)
            &&& !may_delete(both, key, true)
            &&& !may_delete(one, key, false)
            &&& may_delete(one, key, true)
            &&& may_delete(none, key, false)
            &&& none == m
        }),
{
    let a = registered(m, key, first);
    let both = registered(a, key, second);
    assert(a[key] == seq![first]);
    assert(!a[key].contains(second)) by {
        if a[key].contains(second) {
            let i = choose|i: int| 0 <= i < a[key].len() && a[key][i] == second;
        }
    }
    assert(both[key] == seq![first].push(second));
    let roles = both[key];
    assert(roles.drop_last() =~= seq![first]);
    assert(seq![first].drop_last() =~= Seq::<SnapEntry>::empty());
    reveal_with_fuel(without, 3);
    assert(without(roles, first) =~= seq![second]);
    let one = deregistered(both, key, first);
    assert(one[key] == seq![second]);
    assert(without(seq![second], second) =~= Seq::<SnapEntry>::empty());
    let none = deregistered(one, key, second);
    assert(none =~= m);
}

} // verus!
