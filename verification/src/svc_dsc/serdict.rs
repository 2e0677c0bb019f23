use vstd::prelude::*;

verus! {

/// A service is known by its group and its name.
pub type ServiceId = (String, String);

/// Where a service listens: host and port.
pub type ServiceAddr = (String, u32);

/// A service id as text.
pub type Key = (Seq<char>, Seq<char>);

/// The text of a service id.
pub open spec fn key_of(id: ServiceId) -> Key {
    (id.0@, id.1@)
}

/// What the registry knows of a service: its address and when it last
/// registered (in milliseconds of the registry's clock).
#[derive(Debug)]
pub struct ServiceRecord {
    pub addr: ServiceAddr,
    pub last_updated: u64,
}

/// Mathematical model of a service record.
pub struct Registration {
    pub ip: Seq<char>,
    pub port: u32,
    pub last_updated: u64,
}

impl View for ServiceRecord {
    type V = Registration;

    open spec fn view(&self) -> Registration {
        Registration { ip: self.addr.0@, port: self.addr.1, last_updated: self.last_updated }
    }
}

impl ServiceRecord {
    /// A record of a service at `addr` that registered at time `now`.
    pub fn new(addr: ServiceAddr, now: u64) -> (r: ServiceRecord)
        ensures
            r.addr == addr,
            r.last_updated == now,
    {
        Self { addr, last_updated: now }
    }
}

/// A copy of a string.
pub(crate) fn clone_string(s: &String) -> (r: String)
    ensures
        r@ == s@,
{
    s.clone()
}

/// A registered service as the registry reports it.
#[derive(Debug, Clone, PartialEq, Eq)]
pub struct ServiceInfo {
    pub group: String,
    pub name: String,
    pub ip: String,
    pub port: u32,
}

/// Group, name, host and port.
pub type InfoView = (Seq<char>, Seq<char>, Seq<char>, u32);

impl View for ServiceInfo {
    type V = InfoView;

    open spec fn view(&self) -> InfoView {
        (self.group@, self.name@, self.ip@, self.port)
    }
}

/// The services of a registry, as the registry reports them.
pub open spec fn listing(m: Map<Key, Registration>) -> Set<InfoView> {
    Set::new(
        |x: InfoView|
            m.contains_key((x.0, x.1)) && m[(x.0, x.1)].ip == x.2 && m[(x.0, x.1)].port == x.3,
    )
}

/// `r` reports each service of `s` once, and nothing else.
pub open spec fn lists(r: Seq<ServiceInfo>, s: Set<InfoView>) -> bool {
    &&& forall|a: int, b: int|
        0 <= a < r.len() && 0 <= b < r.len() && a != b ==> (r[a]@.0, r[a]@.1) != (
            r[b]@.0,
            r[b]@.1,
        )
    &&& forall|a: int| 0 <= a < r.len() ==> s.contains(#[trigger] r[a]@)
    &&& forall|x: InfoView| #[trigger] s.contains(x) ==> exists|a: int| 0 <= a < r.len() && r[a]@ == x
}

/// The services of group `g` among `s`.
pub open spec fn in_group(s: Set<InfoView>, g: Seq<char>) -> Set<InfoView> {
    s.filter(|x: InfoView| x.0 == g)
}

/// How the registry reports one of its entries.
pub open spec fn info_of(e: (ServiceId, ServiceRecord)) -> InfoView {
    (e.0.0@, e.0.1@, e.1.addr.0@, e.1.addr.1)
}

/// The registered services, each id at most once.
pub struct ServiceMap {
    entries: Vec<(ServiceId, ServiceRecord)>,
    model: Ghost<Map<Key, Registration>>,
}

/// The id of the entry at position `i`.
pub open spec fn key_at(entries: Seq<(ServiceId, ServiceRecord)>, i: int) -> Key {
    key_of(entries[i].0)
}

/// The entries hold each id at most once, and hold exactly the ids of the
/// model with their records.
pub open spec fn holds(entries: Seq<(ServiceId, ServiceRecord)>, m: Map<Key, Registration>) -> bool {
    &&& forall|i: int, j: int|
        0 <= i < entries.len() && 0 <= j < entries.len() && i != j ==> key_at(entries, i)
            != key_at(entries, j)
    &&& forall|i: int|
        #![trigger key_at(entries, i)]
        0 <= i < entries.len() ==> m.contains_key(key_at(entries, i)) && m[key_at(entries, i)]
            == entries[i].1@
    &&& forall|k: Key|
        #[trigger] m.contains_key(k) ==> exists|i: int|
            0 <= i < entries.len() && key_at(entries, i) == k
}

impl View for ServiceMap {
    type V = Map<Key, Registration>;

    closed spec fn view(&self) -> Map<Key, Registration> {
        self.model@
    }
}

impl ServiceMap {
    #[verifier::type_invariant]
    spec fn well_formed(&self) -> bool {
        holds(self.entries@, self.model@)
    }

    pub fn new() -> (r: ServiceMap)
        ensures
            r@ == Map::<Key, Registration>::empty(),
    {
        ServiceMap { entries: Vec::new(), model: Ghost(Map::empty()) }
    }

    /// The number of registered services, of which there are finitely many.
    pub fn len(&self) -> (r: usize)
        ensures
            self@.dom().finite(),
            r == self@.len(),
    {
        proof {
            use_type_invariant(self);
            self.lemma_len();
        }
        self.entries.len()
    }

    proof fn lemma_len(&self)
        requires
            holds(self.entries@, self.model@),
        ensures
            self.model@.dom().finite(),
            self.model@.len() == self.entries@.len(),
    {
        let entries = self.entries@;
        let keys = Seq::new(entries.len(), |i: int| key_at(entries, i));
        assert(keys.to_set() =~= self.model@.dom()) by {
            assert forall|k: Key| self.model@.dom().contains(k) implies keys.to_set().contains(k) by {
                let i = choose|i: int| 0 <= i < entries.len() && key_at(entries, i) == k;
                assert(keys[i] == k);
            }
            assert forall|k: Key| keys.to_set().contains(k) implies self.model@.dom().contains(k) by {
                let i = choose|i: int| 0 <= i < keys.len() && keys[i] == k;
                assert(key_at(entries, i) == k);
            }
        }
        assert(keys.no_duplicates()) by {
            assert forall|i: int, j: int| 0 <= i < keys.len() && 0 <= j < keys.len() && i != j implies keys[i]
                != keys[j] by {
                assert(key_at(entries, i) != key_at(entries, j));
            }
        }
        keys.unique_seq_to_set();
    }

    /// Empties the map and hands out its entries.
    fn take_entries(&mut self) -> (r: Vec<(ServiceId, ServiceRecord)>)
        ensures
            r@ == old(self).entries@,
            final(self)@ == Map::<Key, Registration>::empty(),
    {
        let mut taken = ServiceMap::new();
        std::mem::swap(&mut taken, self);
        let ServiceMap { entries, model: _ } = taken;
        entries
    }

    /// The position of a service in the entries, if it is registered.
    fn find(&self, group: &String, name: &String) -> (r: Option<usize>)
        ensures
            match r {
                Some(i) => i < self.entries@.len() && key_at(self.entries@, i as int) == (
                    group@,
                    name@,
                ),
                None => !self@.contains_key((group@, name@)),
            },
    {
        proof {
            use_type_invariant(self);
        }
        let n = self.entries.len();
        let mut i: usize = 0;
        while i < n
            invariant
                n == self.entries@.len(),
                holds(self.entries@, self.model@),
                0 <= i <= n,
                forall|j: int| 0 <= j < i ==> key_at(self.entries@, j) != (group@, name@),
            decreases n - i,
        {
            let entry = &self.entries[i];
            if entry.0.0 == *group && entry.0.1 == *name {
                return Some(i);
            }
            i = i + 1;
        }
        None
    }

    /// Registers a service, replacing what was registered under its id.
    pub fn insert(&mut self, id: ServiceId, record: ServiceRecord)
        ensures
            final(self)@ == old(self)@.insert(key_of(id), record@),
    {
        proof {
            use_type_invariant(&*self);
        }
        let ghost old_entries = self.entries@;
        let ghost k = key_of(id);
        let ghost m = self.model@.insert(k, record@);
        let found = self.find(&id.0, &id.1);
        let mut entries = self.take_entries();
        match found {
            Some(i) => {
                entries.set(i, (id, record));
                proof {
                    assert forall|j: int|
                        #![trigger key_at(entries@, j)]
                        0 <= j < entries@.len() implies m.contains_key(key_at(entries@, j))
                            && m[key_at(entries@, j)] == entries@[j].1@ by {
                        if j != i {
                            assert(key_at(old_entries, j) != key_at(old_entries, i as int));
                        }
                    }
                    assert forall|k2: Key| #[trigger] m.contains_key(k2) implies exists|j: int|
                        0 <= j < entries@.len() && key_at(entries@, j) == k2 by {
                        if k2 != k {
                            let j = choose|j: int|
                                0 <= j < old_entries.len() && key_at(old_entries, j) == k2;
                            assert(key_at(entries@, j) == k2);
                        } else {
                            assert(key_at(entries@, i as int) == k2);
                        }
                    }
                    assert forall|a: int, b: int|
                        0 <= a < entries@.len() && 0 <= b < entries@.len() && a != b implies key_at(
                        entries@,
                        a,
                    ) != key_at(entries@, b) by {
                        assert(key_at(old_entries, a) != key_at(old_entries, b));
                    }
                }
            },
            None => {
                entries.push((id, record));
                proof {
                    let last = old_entries.len() as int;
                    assert forall|j: int|
                        #![trigger key_at(entries@, j)]
                        0 <= j < entries@.len() implies m.contains_key(key_at(entries@, j))
                            && m[key_at(entries@, j)] == entries@[j].1@ by {
                        if j != last {
                            assert(key_at(entries@, j) == key_at(old_entries, j));
                        }
                    }
                    assert forall|k2: Key| #[trigger] m.contains_key(k2) implies exists|j: int|
                        0 <= j < entries@.len() && key_at(entries@, j) == k2 by {
                        if k2 != k {
                            let j = choose|j: int|
                                0 <= j < old_entries.len() && key_at(old_entries, j) == k2;
                            assert(key_at(entries@, j) == k2);
                        } else {
                            assert(key_at(entries@, last) == k2);
                        }
                    }
                    assert forall|a: int, b: int|
                        0 <= a < entries@.len() && 0 <= b < entries@.len() && a != b implies key_at(
                        entries@,
                        a,
                    ) != key_at(entries@, b) by {
                        if a != last && b != last {
                            assert(key_at(old_entries, a) != key_at(old_entries, b));
                        } else if a == last {
                            assert(key_at(entries@, b) == key_at(old_entries, b));
                        } else {
                            assert(key_at(entries@, a) == key_at(old_entries, a));
                        }
                    }
                }
            },
        }
        *self = ServiceMap { entries, model: Ghost(m) };
    }

    /// Deregisters a service, if it is registered.
    pub fn remove(&mut self, group: &String, name: &String)
        ensures
            final(self)@ == old(self)@.remove((group@, name@)),
    {
        proof {
            use_type_invariant(&*self);
        }
        let ghost old_entries = self.entries@;
        let ghost k = (group@, name@);
        let ghost m = self.model@.remove(k);
        let found = self.find(group, name);
        match found {
            Some(i) => {
                let mut entries = self.take_entries();
                let _ = entries.remove(i);
                proof {
                    let shift = |j: int| if j < i { j } else { j + 1 };
                    assert forall|j: int|
                        0 <= j < entries@.len() implies #[trigger] key_at(entries@, j) == key_at(
                        old_entries,
                        shift(j),
                    ) && entries@[j] == old_entries[shift(j)] by {}
                    assert forall|j: int|
                        #![trigger key_at(entries@, j)]
                        0 <= j < entries@.len() implies m.contains_key(key_at(entries@, j))
                            && m[key_at(entries@, j)] == entries@[j].1@ by {
                        assert(key_at(old_entries, shift(j)) != key_at(old_entries, i as int));
                    }
                    assert forall|k2: Key| #[trigger] m.contains_key(k2) implies exists|j: int|
                        0 <= j < entries@.len() && key_at(entries@, j) == k2 by {
                        let j = choose|j: int|
                            0 <= j < old_entries.len() && key_at(old_entries, j) == k2;
                        if j < i {
                            assert(key_at(entries@, j) == k2);
                        } else {
                            assert(j != i);
                            assert(key_at(entries@, j - 1) == k2);
                        }
                    }
                    assert forall|a: int, b: int|
                        0 <= a < entries@.len() && 0 <= b < entries@.len() && a != b implies key_at(
                        entries@,
                        a,
                    ) != key_at(entries@, b) by {
                        assert(key_at(old_entries, shift(a)) != key_at(old_entries, shift(b)));
                    }
                }
                *self = ServiceMap { entries, model: Ghost(m) };
            },
            None => {
                proof {
                    assert(m =~= self.model@);
                }
            },
        }
    }

    /// Reports every registered service once.
    pub fn list(&self) -> (r: Vec<ServiceInfo>)
        ensures
            lists(r@, listing(self@)),
    {
        proof {
            use_type_invariant(self);
        }
        let n = self.entries.len();
        let mut r: Vec<ServiceInfo> = Vec::new();
        let mut i: usize = 0;
        while i < n
            invariant
                n == self.entries@.len(),
                0 <= i <= n,
                r@.len() == i,
                forall|j: int| 0 <= j < i ==> #[trigger] r@[j]@ == info_of(self.entries@[j]),
            decreases n - i,
        {
            let e = &self.entries[i];
            r.push(
                ServiceInfo {
                    group: clone_string(&e.0.0),
                    name: clone_string(&e.0.1),
                    ip: clone_string(&e.1.addr.0),
                    port: e.1.addr.1,
                },
            );
            i = i + 1;
        }
        proof {
            let entries = self.entries@;
            let m = self.model@;
            assert forall|a: int, b: int|
                0 <= a < r@.len() && 0 <= b < r@.len() && a != b implies (r@[a]@.0, r@[a]@.1) != (
                r@[b]@.0,
                r@[b]@.1,
            ) by {
                assert(r@[a]@ == info_of(entries[a]));
                assert(r@[b]@ == info_of(entries[b]));
                assert(key_at(entries, a) != key_at(entries, b));
            }
            assert forall|a: int| 0 <= a < r@.len() implies listing(m).contains(#[trigger] r@[a]@) by {
                assert(r@[a]@ == info_of(entries[a]));
                assert(m.contains_key(key_at(entries, a)));
            }
            assert forall|x: InfoView| #[trigger] listing(m).contains(x) implies exists|a: int|
                0 <= a < r@.len() && r@[a]@ == x by {
                assert(m.contains_key((x.0, x.1)));
                let a = choose|a: int| 0 <= a < entries.len() && key_at(entries, a) == (x.0, x.1);
                assert(r@[a]@ == info_of(entries[a]));
                assert(m[key_at(entries, a)] == entries[a].1@);
            }
        }
        r
    }

    /// Removes the services that have not registered for `interval`
    /// milliseconds by time `now`, and gives their ids.
    pub fn prune(&mut self, now: u64, interval: u64) -> (drained: Vec<ServiceId>)
        ensures
            final(self)@ == old(self)@.remove_keys(expired_keys(old(self)@, now, interval)),
            forall|k: Key|
                #[trigger] old(self)@.contains_key(k) && old(self)@[k].last_updated <= now ==> (
                final(self)@.contains_key(k) <==> now - old(self)@[k].last_updated < interval),
            forall|k: Key|
                #[trigger] old(self)@.contains_key(k) && old(self)@[k].last_updated > now ==> (
                final(self)@.contains_key(k) <==> interval > 0),
            forall|k: Key|
                #[trigger] final(self)@.contains_key(k) ==> old(self)@.contains_key(k)
                    && final(self)@[k] == old(self)@[k],
            forall|a: int, b: int|
                0 <= a < drained@.len() && 0 <= b < drained@.len() && a != b ==> key_of(drained@[a])
                    != key_of(drained@[b]),
            forall|a: int|
                0 <= a < drained@.len() ==> expired_keys(old(self)@, now, interval).contains(
                    #[trigger] key_of(drained@[a]),
                ),
            forall|k: Key|
                #[trigger] expired_keys(old(self)@, now, interval).contains(k) ==> exists|a: int|
                    0 <= a < drained@.len() && key_of(drained@[a]) == k,
    {
        proof {
            use_type_invariant(&*self);
        }
        let ghost m0 = self@;
        let ghost ex = expired_keys(m0, now, interval);
        let n = self.entries.len();
        let mut drained: Vec<ServiceId> = Vec::new();
        let mut i: usize = 0;
        while i < n
            invariant
                n == self.entries@.len(),
                holds(self.entries@, self.model@),
                m0 == self.model@,
                ex == expired_keys(m0, now, interval),
                0 <= i <= n,
                forall|a: int, b: int|
                    0 <= a < drained@.len() && 0 <= b < drained@.len() && a != b ==> key_of(
                        drained@[a],
                    ) != key_of(drained@[b]),
                forall|a: int|
                    0 <= a < drained@.len() ==> exists|j: int|
                        0 <= j < i && key_at(self.entries@, j) == #[trigger] key_of(drained@[a])
                            && ex.contains(key_of(drained@[a])),
                forall|j: int|
                    0 <= j < i && ex.contains(#[trigger] key_at(self.entries@, j)) ==> exists|a: int|
                        0 <= a < drained@.len() && key_of(drained@[a]) == key_at(self.entries@, j),
            decreases n - i,
        {
            let e = &self.entries[i];
            let last = e.1.last_updated;
            let age = if now >= last {
                now - last
            } else {
                0
            };
            proof {
                assert(m0.contains_key(key_at(self.entries@, i as int)));
            }
            if age >= interval {
                let ghost before = drained@;
                drained.push((clone_string(&e.0.0), clone_string(&e.0.1)));
                proof {
                    let entries = self.entries@;
                    assert(key_of(drained@[before.len() as int]) == key_at(entries, i as int));
                    assert forall|a: int, b: int|
                        0 <= a < drained@.len() && 0 <= b < drained@.len() && a != b implies key_of(
                            drained@[a],
                        ) != key_of(drained@[b]) by {
                        if a == before.len() {
                            assert(drained@[b] == before[b]);
                            let j = choose|j: int|
                                0 <= j < i && key_at(entries, j) == #[trigger] key_of(before[b]);
                            assert(key_at(entries, j) != key_at(entries, i as int));
                        } else if b == before.len() {
                            assert(drained@[a] == before[a]);
                            let j = choose|j: int|
                                0 <= j < i && key_at(entries, j) == #[trigger] key_of(before[a]);
                            assert(key_at(entries, j) != key_at(entries, i as int));
                        } else {
                            assert(drained@[a] == before[a]);
                            assert(drained@[b] == before[b]);
                        }
                    }
                    assert forall|a: int| 0 <= a < drained@.len() implies exists|j: int|
                        0 <= j < i + 1 && key_at(entries, j) == #[trigger] key_of(drained@[a])
                            && ex.contains(key_of(drained@[a])) by {
                        if a < before.len() {
                            assert(drained@[a] == before[a]);
                        } else {
                            assert(key_at(entries, i as int) == key_of(drained@[a]));
                        }
                    }
                    assert forall|j: int|
                        0 <= j < i + 1 && ex.contains(#[trigger] key_at(entries, j)) implies exists|a: int|
                        0 <= a < drained@.len() && key_of(drained@[a]) == key_at(entries, j) by {
                        if j < i {
                            let a = choose|a: int|
                                0 <= a < before.len() && key_of(before[a]) == key_at(entries, j);
                            assert(drained@[a] == before[a]);
                        } else {
                            assert(key_of(drained@[before.len() as int]) == key_at(entries, j));
                        }
                    }
                }
            } else {
                proof {
                    assert(!ex.contains(key_at(self.entries@, i as int)));
                }
            }
            i = i + 1;
        }
        let dn = drained.len();
        let ghost done = Set::new(|k: Key| exists|a: int| 0 <= a < dn && key_of(drained@[a]) == k);
        proof {
            let entries = self.entries@;
            assert(done =~= ex) by {
                assert forall|k: Key| ex.contains(k) implies done.contains(k) by {
                    let j = choose|j: int| 0 <= j < entries.len() && key_at(entries, j) == k;
                    assert(ex.contains(key_at(entries, j)));
                }
                assert forall|k: Key| done.contains(k) implies ex.contains(k) by {
                    let a = choose|a: int| 0 <= a < dn && key_of(drained@[a]) == k;
                    assert(exists|j: int|
                        0 <= j < n && key_at(entries, j) == #[trigger] key_of(drained@[a])
                            && ex.contains(key_of(drained@[a])));
                }
            }
        }
        let mut j: usize = 0;
        while j < dn
            invariant
                dn == drained@.len(),
                0 <= j <= dn,
                self@ == m0.remove_keys(
                    Set::new(|k: Key| exists|a: int| 0 <= a < j && key_of(drained@[a]) == k),
                ),
            decreases dn - j,
        {
            let ghost before = self@;
            self.remove(&drained[j].0, &drained[j].1);
            proof {
                let s0 = Set::new(|k: Key| exists|a: int| 0 <= a < j && key_of(drained@[a]) == k);
                let s1 = Set::new(|k: Key| exists|a: int| 0 <= a < j + 1 && key_of(drained@[a]) == k);
                assert(s1 =~= s0.insert(key_of(drained@[j as int]))) by {
                    assert forall|k: Key| s1.contains(k) implies s0.insert(key_of(drained@[j as int])).contains(k) by {
                        let a = choose|a: int| 0 <= a < j + 1 && key_of(drained@[a]) == k;
                        if a < j {
                            assert(s0.contains(k));
                        }
                    }
                    assert forall|k: Key| s0.insert(key_of(drained@[j as int])).contains(k) implies s1.contains(k) by {
                        if k == key_of(drained@[j as int]) {
                            assert(0 <= j < j + 1 && key_of(drained@[j as int]) == k);
                        } else {
                            let a = choose|a: int| 0 <= a < j && key_of(drained@[a]) == k;
                            assert(0 <= a < j + 1 && key_of(drained@[a]) == k);
                        }
                    }
                }
                assert(self@ =~= m0.remove_keys(s1));
            }
            j = j + 1;
        }
        proof {
            let s_all = Set::new(|k: Key| exists|a: int| 0 <= a < dn && key_of(drained@[a]) == k);
            assert(s_all =~= done);
        }
        drained
    }

    /// The address of a registered service.
    pub fn get(&self, group: &String, name: &String) -> (r: Option<ServiceAddr>)
        ensures
            match r {
                Some(addr) => self@.contains_key((group@, name@)) && self@[(group@, name@)].ip
                    == addr.0@ && self@[(group@, name@)].port == addr.1,
                None => !self@.contains_key((group@, name@)),
            },
    {
        proof {
            use_type_invariant(self);
        }
        match self.find(group, name) {
            Some(i) => {
                let record = &self.entries[i].1;
                proof {
                    assert(key_at(self.entries@, i as int) == (group@, name@));
                }
                Some((clone_string(&record.addr.0), record.addr.1))
            },
            None => None,
        }
    }
}

/// Why the registry refuses a request.
#[derive(Debug, PartialEq, Eq)]
pub enum SerDictError {
    /// A lookup without a group or without a name.
    EmptyGroupOrName,
    /// A listing by group without a group.
    EmptyGroup,
    /// A lookup of a service that is not registered.
    NotRegistered { group: String, name: String },
    /// A registration that could not be read back.
    RegistrationFailed,
}

impl SerDictError {
    /// The text that goes with the error.
    pub open spec fn spec_message(&self) -> Seq<char> {
        match self {
            SerDictError::EmptyGroupOrName => "group and name parameter cannot be empty"@,
            SerDictError::EmptyGroup => "group parameter cannot be empty"@,
            SerDictError::NotRegistered { group, name } => "Service "@ + group@ + ":"@ + name@
                + " is not registered."@,
            SerDictError::RegistrationFailed => "Failed to register service"@,
        }
    }

    pub fn message(&self) -> (r: String)
        ensures
            r@ == self.spec_message(),
    {
        match self {
            SerDictError::EmptyGroupOrName => "group and name parameter cannot be empty".to_owned(),
            SerDictError::EmptyGroup => "group parameter cannot be empty".to_owned(),
            SerDictError::NotRegistered { group, name } => {
                let mut m = "Service ".to_owned();
                m.append(group.as_str());
                m.append(":");
                m.append(name.as_str());
                m.append(" is not registered.");
                m
            },
            SerDictError::RegistrationFailed => "Failed to register service".to_owned(),
        }
    }
}

/// The service-discovery dictionary: services register, deregister, are
/// looked up and listed.
pub struct SerDictImpl {
    pub service_registry: ServiceMap,
}

impl Default for SerDictImpl {
    fn default() -> (r: SerDictImpl)
        ensures
            r.service_registry@ == Map::<Key, Registration>::empty(),
    {
        SerDictImpl { service_registry: ServiceMap::new() }
    }
}

impl SerDictImpl {
    pub fn new(service_registry: ServiceMap) -> (r: SerDictImpl)
        ensures
            r.service_registry@ == service_registry@,
    {
        Self { service_registry }
    }

    /// Registers (or re-registers) a service at time `now` and answers with the
    /// address it now has.
    pub fn register_service(
        &mut self,
        group: String,
        name: String,
        ip: String,
        port: u32,
        now: u64,
    ) -> (r: Result<ServiceAddr, SerDictError>)
        ensures
            final(self).service_registry@ == old(self).service_registry@.insert(
                (group@, name@),
                Registration { ip: ip@, port, last_updated: now },
            ),
            r matches Ok(addr) && addr.0@ == ip@ && addr.1 == port,
    {
        let key_group = clone_string(&group);
        let key_name = clone_string(&name);
        self.service_registry.insert((group, name), ServiceRecord::new((ip, port), now));
        match self.service_registry.get(&key_group, &key_name) {
            Some(addr) => Ok(addr),
            None => Err(SerDictError::RegistrationFailed),
        }
    }

    /// Deregisters a service, if it is registered.
    pub fn deregister_service(&mut self, group: String, name: String)
        ensures
            final(self).service_registry@ == old(self).service_registry@.remove((group@, name@)),
    {
        self.service_registry.remove(&group, &name);
    }

    /// Looks a service up by group and name.
    pub fn get_service(&self, group: String, name: String) -> (r: Result<ServiceInfo, SerDictError>)
        ensures
            group@.len() == 0 || name@.len() == 0 ==> r == Err::<ServiceInfo, SerDictError>(
                SerDictError::EmptyGroupOrName,
            ),
            group@.len() > 0 && name@.len() > 0 ==> match r {
                Ok(info) => listing(self.service_registry@).contains(info@) && info@.0 == group@
                    && info@.1 == name@,
                Err(e) => !self.service_registry@.contains_key((group@, name@)) && (
                    e matches SerDictError::NotRegistered { group: g, name: n } && g@ == group@
                        && n@ == name@),
            },
    {
        if group.as_str().is_empty() || name.as_str().is_empty() {
            return Err(SerDictError::EmptyGroupOrName);
        }
        match self.service_registry.get(&group, &name) {
            Some((ip, port)) => Ok(ServiceInfo { group, name, ip, port }),
            None => Err(SerDictError::NotRegistered { group, name }),
        }
    }

    /// Reports every registered service once.
    pub fn list_service(&self) -> (r: Vec<ServiceInfo>)
        ensures
            lists(r@, listing(self.service_registry@)),
    {
        self.service_registry.list()
    }

    /// Reports every registered service of a group once.
    pub fn list_service_by_group_name(&self, group: String) -> (r: Result<
        Vec<ServiceInfo>,
        SerDictError,
    >)
        ensures
            group@.len() == 0 ==> r == Err::<Vec<ServiceInfo>, SerDictError>(
                SerDictError::EmptyGroup,
            ),
            group@.len() > 0 ==> (r matches Ok(v) && lists(
                v@,
                in_group(listing(self.service_registry@), group@),
            )),
    {
        if group.as_str().is_empty() {
            return Err(SerDictError::EmptyGroup);
        }
        let services = self.list_service();
        let ghost all = listing(self.service_registry@);
        let n = services.len();
        let mut r: Vec<ServiceInfo> = Vec::new();
        let mut i: usize = 0;
        while i < n
            invariant
                n == services@.len(),
                lists(services@, all),
                0 <= i <= n,
                forall|a: int, b: int|
                    0 <= a < r@.len() && 0 <= b < r@.len() && a != b ==> (r@[a]@.0, r@[a]@.1) != (
                        r@[b]@.0,
                        r@[b]@.1,
                    ),
                forall|a: int|
                    0 <= a < r@.len() ==> exists|j: int|
                        0 <= j < i && services@[j]@ == #[trigger] r@[a]@ && r@[a]@.0 == group@,
                forall|j: int|
                    0 <= j < i && (#[trigger] services@[j]@).0 == group@ ==> exists|a: int|
                        0 <= a < r@.len() && r@[a]@ == services@[j]@,
            decreases n - i,
        {
            let s = &services[i];
            if s.group == group {
                let ghost before = r@;
                r.push(
                    ServiceInfo {
                        group: clone_string(&s.group),
                        name: clone_string(&s.name),
                        ip: clone_string(&s.ip),
                        port: s.port,
                    },
                );
                proof {
                    let last = before.len() as int;
                    assert(r@[last]@ == services@[i as int]@);
                    assert forall|a: int, b: int|
                        0 <= a < r@.len() && 0 <= b < r@.len() && a != b implies (r@[a]@.0, r@[a]@.1)
                        != (r@[b]@.0, r@[b]@.1) by {
                        if a == last || b == last {
                            let o = if a == last { b } else { a };
                            assert(r@[o] == before[o]);
                            let j = choose|j: int|
                                0 <= j < i && services@[j]@ == #[trigger] before[o]@ && before[o]@.0
                                    == group@;
                            assert(j != i);
                        } else {
                            assert(r@[a] == before[a]);
                            assert(r@[b] == before[b]);
                        }
                    }
                    assert forall|a: int| 0 <= a < r@.len() implies exists|j: int|
                        0 <= j < i + 1 && services@[j]@ == #[trigger] r@[a]@ && r@[a]@.0 == group@ by {
                        if a < last {
                            assert(r@[a] == before[a]);
                        } else {
                            assert(services@[i as int]@ == r@[a]@);
                        }
                    }
                    assert forall|j: int|
                        0 <= j < i + 1 && (#[trigger] services@[j]@).0 == group@ implies exists|a: int|
                        0 <= a < r@.len() && r@[a]@ == services@[j]@ by {
                        if j < i {
                            let a = choose|a: int| 0 <= a < before.len() && before[a]@ == services@[j]@;
                            assert(r@[a] == before[a]);
                        } else {
                            assert(r@[last]@ == services@[j]@);
                        }
                    }
                }
            }
            i = i + 1;
        }
        proof {
            let g = in_group(all, group@);
            assert forall|a: int| 0 <= a < r@.len() implies g.contains(#[trigger] r@[a]@) by {
                let j = choose|j: int|
                    0 <= j < n && services@[j]@ == #[trigger] r@[a]@ && r@[a]@.0 == group@;
                assert(all.contains(services@[j]@));
            }
            assert forall|x: InfoView| #[trigger] g.contains(x) implies exists|a: int|
                0 <= a < r@.len() && r@[a]@ == x by {
                assert(all.contains(x));
                let j = choose|j: int| 0 <= j < services@.len() && services@[j]@ == x;
                assert(services@[j]@.0 == group@);
            }
        }
        Ok(r)
    }
}

/// The registered services that have not registered for `interval`
/// milliseconds by time `now`.
pub open spec fn expired_keys(m: Map<Key, Registration>, now: u64, interval: u64) -> Set<Key> {
    Set::new(|k: Key| m.contains_key(k) && is_expired(m[k], now, interval))
}

/// Whether a service has not registered for `interval` milliseconds by time
/// `now`; a registration later than `now` counts as fresh.
pub open spec fn is_expired(r: Registration, now: u64, interval: u64) -> bool {
    (if now >= r.last_updated {
        now - r.last_updated
    } else {
        0
    }) >= interval
}

/// A service that has just registered is looked up with exactly the address
/// it registered.
pub proof fn lemma_lookup_after_register(
    m: Map<Key, Registration>,
    group: Seq<char>,
    name: Seq<char>,
    ip: Seq<char>,
    port: u32,
    now: u64,
)
    ensures
        ({
            let m2 = m.insert((group, name), Registration { ip, port, last_updated: now });
            &&& listing(m2).contains((group, name, ip, port))
            &&& forall|x: InfoView|
                #[trigger] listing(m2).contains(x) && x.0 == group && x.1 == name ==> x == (
                    group,
                    name,
                    ip,
                    port,
                )
        }),
{
}

/// Registering a service changes what is reported of no other service.
pub proof fn lemma_register_keeps_others(
    m: Map<Key, Registration>,
    k: Key,
    r: Registration,
    x: InfoView,
)
    requires
        (x.0, x.1) != k,
    ensures
        listing(m.insert(k, r)).contains(x) == listing(m).contains(x),
{
}

/// A service that has deregistered is no longer looked up or listed, and the
/// other services are reported as before.
pub proof fn lemma_deregister(m: Map<Key, Registration>, k: Key, x: InfoView)
    ensures
        !m.remove(k).contains_key(k),
        (x.0, x.1) == k ==> !listing(m.remove(k)).contains(x),
        (x.0, x.1) != k ==> listing(m.remove(k)).contains(x) == listing(m).contains(x),
{
}

/// Deregistering a service that was not registered before its registration
/// undoes the registration.
pub proof fn lemma_deregister_undoes_register(m: Map<Key, Registration>, k: Key, r: Registration)
    requires
        !m.contains_key(k),
    ensures
        m.insert(k, r).remove(k) == m,
{
    assert(m.insert(k, r).remove(k) =~= m);
}

/// After a prune, exactly the services that had registered within the
/// interval remain, with their records unchanged.
pub proof fn lemma_prune_keeps_live(m: Map<Key, Registration>, now: u64, interval: u64, k: Key)
    ensures
        ({
            let m2 = m.remove_keys(expired_keys(m, now, interval));
            &&& m2.contains_key(k) <==> (m.contains_key(k) && !is_expired(m[k], now, interval))
            &&& m2.contains_key(k) ==> m2[k] == m[k]
        }),
{
}

/// A prune keeps a service whose last registration is less than `interval`
/// milliseconds before `now`, and removes one that is `interval` or more
/// milliseconds old; a registration later than `now` is kept exactly when the
/// interval is positive.
pub proof fn lemma_prune_by_age(m: Map<Key, Registration>, now: u64, interval: u64, k: Key)
    requires
        m.contains_key(k),
    ensures
        m[k].last_updated <= now ==> (m.remove_keys(expired_keys(m, now, interval)).contains_key(k)
            <==> now - m[k].last_updated < interval),
        m[k].last_updated > now ==> (m.remove_keys(expired_keys(m, now, interval)).contains_key(k)
            <==> interval > 0),
{
}

/// A service that registers at `now` survives a prune at `now` with a
/// positive interval.
pub proof fn lemma_fresh_registration_survives(
    m: Map<Key, Registration>,
    k: Key,
    ip: Seq<char>,
    port: u32,
    now: u64,
    interval: u64,
)
    requires
        interval > 0,
    ensures
        m.insert(k, Registration { ip, port, last_updated: now }).remove_keys(
            expired_keys(m.insert(k, Registration { ip, port, last_updated: now }), now, interval),
        ).contains_key(k),
{
}

} // verus!
