//! The plain-state tables: accounts by address, storage by address and
//! slot key, bytecodes by code hash. Each is an association list with
//! unique keys, viewed as a map.

use crate::nums::{AddressV, B256, W256};
use vstd::prelude::*;

verus! {

/// An account row of the plain state.
#[derive(Clone, Copy, PartialEq, Eq, Structural, Debug)]
pub struct Account {
    pub nonce: u64,
    pub balance: W256,
    pub bytecode_hash: Option<B256>,
}

/// The keccak-256 digest of the empty byte sequence; an account whose code
/// hash equals it carries no code.
pub open spec fn is_keccak_empty(h: B256) -> bool {
    h == (B256 {
        c0: 0xc5d2460186f7233c,
        c1: 0x927e7db2dcc703c0,
        c2: 0xe500b653ca82273b,
        c3: 0x7bfad8045d85a470,
    })
}

impl Account {
    /// Empty in the EIP-161 sense: no nonce, no balance, no code.
    pub open spec fn spec_is_empty(self) -> bool {
        self.nonce == 0 && self.balance.value() == 0 && match self.bytecode_hash {
            None => true,
            Some(h) => is_keccak_empty(h),
        }
    }

    pub fn is_empty(&self) -> (r: bool)
        ensures
            r == self.spec_is_empty(),
    {
        self.nonce == 0 && self.balance.is_zero() && match self.bytecode_hash {
            None => true,
            Some(h) => h.c0 == 0xc5d2460186f7233c && h.c1 == 0x927e7db2dcc703c0 && h.c2
                == 0xe500b653ca82273b && h.c3 == 0x7bfad8045d85a470,
        }
    }
}

/// One storage row under an account: a slot key and its value.
#[derive(Clone, Copy, PartialEq, Eq, Structural, Debug)]
pub struct StorageEntry {
    pub key: B256,
    pub value: W256,
}

/// The map an association sequence denotes; later entries win, though the
/// tables keep keys unique.
pub open spec fn assoc_map<K, V>(s: Seq<(K, V)>) -> Map<K, V>
    decreases s.len(),
{
    if s.len() == 0 {
        Map::empty()
    } else {
        assoc_map(s.drop_last()).insert(s.last().0, s.last().1)
    }
}

/// Keys pairwise distinct.
pub open spec fn assoc_unique<K, V>(s: Seq<(K, V)>) -> bool {
    forall|i: int, j: int| 0 <= i < j < s.len() ==> (#[trigger] s[i]).0 != (#[trigger] s[j]).0
}

/// The denoted map holds exactly the listed keys.
pub proof fn lemma_assoc_map_contains<K, V>(s: Seq<(K, V)>, k: K)
    ensures
        assoc_map(s).contains_key(k) <==> exists|i: int| 0 <= i < s.len() && (#[trigger] s[i]).0
            == k,
    decreases s.len(),
{
    if s.len() > 0 {
        lemma_assoc_map_contains(s.drop_last(), k);
        if s.last().0 == k {
            assert(s[s.len() - 1].0 == k);
        } else if assoc_map(s).contains_key(k) {
            let i = choose|i: int| 0 <= i < s.drop_last().len() && (#[trigger] s.drop_last()[i]).0
                == k;
            assert(s[i].0 == k);
        } else {
            assert forall|i: int| 0 <= i < s.len() implies (#[trigger] s[i]).0 != k by {
                if i < s.len() - 1 {
                    assert(s.drop_last()[i].0 != k);
                }
            }
        }
    }
}

/// With unique keys, each entry is the map's value at its key.
pub proof fn lemma_assoc_map_get<K, V>(s: Seq<(K, V)>, i: int)
    requires
        assoc_unique(s),
        0 <= i < s.len(),
    ensures
        assoc_map(s).contains_key(s[i].0),
        assoc_map(s)[s[i].0] == s[i].1,
    decreases s.len(),
{
    if i == s.len() - 1 {
        assert(s.last() == s[i]);
    } else {
        assert(assoc_unique(s.drop_last()));
        assert(s.drop_last()[i] == s[i]);
        lemma_assoc_map_get(s.drop_last(), i);
        assert(s.last().0 != s[i].0);
    }
}

/// Appending a fresh pair inserts it into the denoted map.
pub proof fn lemma_assoc_map_push<K, V>(s: Seq<(K, V)>, k: K, v: V)
    ensures
        assoc_map(s.push((k, v))) == assoc_map(s).insert(k, v),
{
    assert(s.push((k, v)).drop_last() =~= s);
    assert(s.push((k, v)).last() == (k, v));
}

/// Removing the entry of a key removes the key from the denoted map.
pub proof fn lemma_assoc_map_remove<K, V>(s: Seq<(K, V)>, i: int)
    requires
        assoc_unique(s),
        0 <= i < s.len(),
    ensures
        assoc_map(s.remove(i)) == assoc_map(s).remove(s[i].0),
        assoc_unique(s.remove(i)),
    decreases s.len(),
{
    let k = s[i].0;
    let t = s.remove(i);
    assert(assoc_unique(t)) by {
        assert(forall|a: int| 0 <= a < t.len() ==> #[trigger] t[a] == if a < i {
            s[a]
        } else {
            s[a + 1]
        });
    }
    if i == s.len() - 1 {
        assert(t =~= s.drop_last());
        lemma_assoc_map_contains(s.drop_last(), k);
        assert forall|a: int| 0 <= a < s.drop_last().len() implies (#[trigger] s.drop_last()[
            a]).0 != k by {
            assert(s[a].0 != s[i].0);
        }
        assert(!assoc_map(s.drop_last()).contains_key(k));
        assert(assoc_map(s.drop_last()) =~= assoc_map(s.drop_last()).insert(k,
            s[i].1).remove(k));
    } else {
        assert(assoc_unique(s.drop_last()));
        assert(s.drop_last()[i] == s[i]);
        lemma_assoc_map_remove(s.drop_last(), i);
        assert(t.drop_last() =~= s.drop_last().remove(i));
        assert(t.last() == s.last());
        assert(s.last().0 != k);
        assert(assoc_map(t) == assoc_map(s.drop_last().remove(i)).insert(s.last().0,
            s.last().1));
        assert(assoc_map(s).remove(k) =~= assoc_map(s.drop_last()).remove(k).insert(
            s.last().0, s.last().1));
    }
}

/// The account table.
pub struct AccountTable {
    entries: Vec<(AddressV, Account)>,
}

impl AccountTable {
    pub closed spec fn entries_view(&self) -> Seq<(AddressV, Account)> {
        self.entries@
    }

    /// Address to account.
    pub open spec fn view(&self) -> Map<AddressV, Account> {
        assoc_map(self.entries_view())
    }

    pub open spec fn wf(&self) -> bool {
        assoc_unique(self.entries_view())
    }

    pub fn new() -> (r: AccountTable)
        ensures
            r.wf(),
            r@ == Map::<AddressV, Account>::empty(),
    {
        proof {
            assert(assoc_map(Seq::<(AddressV, Account)>::empty()) =~= Map::<
                AddressV,
                Account,
            >::empty());
        }
        AccountTable { entries: Vec::new() }
    }

    pub fn len(&self) -> (r: usize)
        ensures
            r == self.entries_view().len(),
    {
        self.entries.len()
    }

    fn find(&self, address: &AddressV) -> (r: Option<usize>)
        ensures
            match r {
                Some(i) => 0 <= i < self.entries_view().len() && self.entries_view()[
                    i as int].0 == *address,
                None => forall|i: int|
                    0 <= i < self.entries_view().len() ==> (#[trigger] self.entries_view()[
                        i]).0 != *address,
            },
    {
        let n = self.entries.len();
        let mut i: usize = 0;
        while i < n
            invariant
                n == self.entries_view().len(),
                0 <= i <= n,
                forall|j: int|
                    0 <= j < i ==> (#[trigger] self.entries_view()[j]).0 != *address,
            decreases n - i,
        {
            if self.entries[i].0 == *address {
                return Some(i);
            }
            i = i + 1;
        }
        None
    }

    /// The account under an address, as the state provider reads it.
    pub fn get(&self, address: &AddressV) -> (r: Option<&Account>)
        requires
            self.wf(),
        ensures
            match r {
                Some(a) => self@.contains_key(*address) && self@[*address] == *a,
                None => !self@.contains_key(*address),
            },
    {
        proof {
            lemma_assoc_map_contains(self.entries_view(), *address);
        }
        match self.find(address) {
            Some(i) => {
                proof {
                    lemma_assoc_map_get(self.entries_view(), i as int);
                }
                Some(&self.entries[i].1)
            },
            None => None,
        }
    }

    /// Writes the account under the address, replacing any present row.
    pub fn upsert(&mut self, address: AddressV, account: Account)
        requires
            old(self).wf(),
        ensures
            final(self).wf(),
            final(self)@ == old(self)@.insert(address, account),
    {
        let ghost s0 = self.entries_view();
        match self.find(&address) {
            Some(i) => {
                proof {
                    lemma_assoc_map_remove(s0, i as int);
                }
                let _ = self.entries.remove(i);
                proof {
                    lemma_assoc_map_push(self.entries_view(), address, account);
                    assert(assoc_map(s0).remove(address).insert(address, account)
                        =~= assoc_map(s0).insert(address, account));
                    lemma_assoc_map_contains(self.entries_view(), address);
                }
                self.entries.push((address, account));
                proof {
                    lemma_unique_push(s0.remove(i as int), address, account);
                }
            },
            None => {
                proof {
                    lemma_assoc_map_push(s0, address, account);
                    lemma_unique_push(s0, address, account);
                }
                self.entries.push((address, account));
            },
        }
    }

    /// Deletes the row of the address if one is present.
    pub fn delete(&mut self, address: &AddressV)
        requires
            old(self).wf(),
        ensures
            final(self).wf(),
            final(self)@ == old(self)@.remove(*address),
    {
        let ghost s0 = self.entries_view();
        match self.find(address) {
            Some(i) => {
                proof {
                    lemma_assoc_map_remove(s0, i as int);
                }
                let _ = self.entries.remove(i);
            },
            None => {
                proof {
                    lemma_assoc_map_contains(s0, *address);
                    assert(assoc_map(s0) =~= assoc_map(s0).remove(*address));
                }
            },
        }
    }
}

/// A fresh key keeps uniqueness when pushed.
pub proof fn lemma_unique_push<K, V>(s: Seq<(K, V)>, k: K, v: V)
    requires
        assoc_unique(s),
        forall|i: int| 0 <= i < s.len() ==> (#[trigger] s[i]).0 != k,
    ensures
        assoc_unique(s.push((k, v))),
{
    let t = s.push((k, v));
    assert(forall|i: int| 0 <= i < s.len() ==> #[trigger] t[i] == s[i]);
}

/// The bytecode table.
pub struct BytesTable {
    entries: Vec<(B256, Vec<u8>)>,
}

impl BytesTable {
    pub closed spec fn entries_view(&self) -> Seq<(B256, Seq<u8>)> {
        self.entries@.map_values(|e: (B256, Vec<u8>)| (e.0, e.1@))
    }

    /// Code hash to code bytes.
    pub open spec fn view(&self) -> Map<B256, Seq<u8>> {
        assoc_map(self.entries_view())
    }

    pub open spec fn wf(&self) -> bool {
        assoc_unique(self.entries_view())
    }

    pub fn new() -> (r: BytesTable)
        ensures
            r.wf(),
            r@ == Map::<B256, Seq<u8>>::empty(),
    {
        proof {
            assert(Seq::<(B256, Vec<u8>)>::empty().map_values(
                |e: (B256, Vec<u8>)| (e.0, e.1@)) =~= Seq::<(B256, Seq<u8>)>::empty());
            assert(assoc_map(Seq::<(B256, Seq<u8>)>::empty()) =~= Map::<B256, Seq<u8>>::empty());
        }
        BytesTable { entries: Vec::new() }
    }

    fn find(&self, hash: &B256) -> (r: Option<usize>)
        ensures
            match r {
                Some(i) => 0 <= i < self.entries_view().len() && self.entries_view()[
                    i as int].0 == *hash,
                None => forall|i: int|
                    0 <= i < self.entries_view().len() ==> (#[trigger] self.entries_view()[
                        i]).0 != *hash,
            },
    {
        let n = self.entries.len();
        let mut i: usize = 0;
        while i < n
            invariant
                n == self.entries_view().len(),
                n == self.entries@.len(),
                0 <= i <= n,
                forall|j: int|
                    0 <= j < i ==> (#[trigger] self.entries_view()[j]).0 != *hash,
            decreases n - i,
        {
            proof {
                assert(self.entries_view()[i as int].0 == self.entries@[i as int].0);
            }
            if self.entries[i].0 == *hash {
                return Some(i);
            }
            i = i + 1;
        }
        None
    }

    /// The code under a hash, as the state provider reads it.
    pub fn get(&self, hash: &B256) -> (r: Option<&Vec<u8>>)
        requires
            self.wf(),
        ensures
            match r {
                Some(b) => self@.contains_key(*hash) && self@[*hash] == b@,
                None => !self@.contains_key(*hash),
            },
    {
        proof {
            lemma_assoc_map_contains(self.entries_view(), *hash);
        }
        match self.find(hash) {
            Some(i) => {
                proof {
                    lemma_assoc_map_get(self.entries_view(), i as int);
                }
                Some(&self.entries[i].1)
            },
            None => None,
        }
    }

    /// Writes code under its hash, replacing any present row.
    pub fn put(&mut self, hash: B256, code: Vec<u8>)
        requires
            old(self).wf(),
        ensures
            final(self).wf(),
            final(self)@ == old(self)@.insert(hash, code@),
    {
        let ghost s0 = self.entries_view();
        let ghost code_v = code@;
        match self.find(&hash) {
            Some(i) => {
                proof {
                    lemma_assoc_map_remove(s0, i as int);
                }
                let _ = self.entries.remove(i);
                proof {
                    assert(self.entries_view() =~= s0.remove(i as int));
                }
                self.entries.push((hash, code));
                proof {
                    assert(self.entries_view() =~= s0.remove(i as int).push((hash, code_v)));
                    lemma_assoc_map_push(s0.remove(i as int), hash, code_v);
                    assert(assoc_map(s0).remove(hash).insert(hash, code_v) =~= assoc_map(
                        s0).insert(hash, code_v));
                    lemma_unique_push(s0.remove(i as int), hash, code_v);
                }
            },
            None => {
                self.entries.push((hash, code));
                proof {
                    assert(self.entries_view() =~= s0.push((hash, code_v)));
                    lemma_assoc_map_push(s0, hash, code_v);
                    lemma_unique_push(s0, hash, code_v);
                }
            },
        }
    }
}

/// Slot key to value, for one account's storage rows.
pub open spec fn slots_map(s: Seq<StorageEntry>) -> Map<B256, W256> {
    assoc_map(s.map_values(|e: StorageEntry| (e.key, e.value)))
}

pub open spec fn slots_unique(s: Seq<StorageEntry>) -> bool {
    assoc_unique(s.map_values(|e: StorageEntry| (e.key, e.value)))
}

/// One storage row: slot keys unique, at least one slot, no zero value.
pub open spec fn storage_row_ok(e: (AddressV, Vec<StorageEntry>)) -> bool {
    &&& slots_unique(e.1@)
    &&& e.1@.len() > 0
    &&& forall|j: int| 0 <= j < e.1@.len() ==> (#[trigger] e.1@[j]).value.value() != 0
}

pub open spec fn storage_rows_ok(s: Seq<(AddressV, Vec<StorageEntry>)>) -> bool {
    forall|i: int| 0 <= i < s.len() ==> storage_row_ok(#[trigger] s[i])
}

/// The outer association sequence a storage table denotes.
pub open spec fn storage_entries_view(s: Seq<(AddressV, Vec<StorageEntry>)>) -> Seq<
    (AddressV, Map<B256, W256>),
> {
    s.map_values(|e: (AddressV, Vec<StorageEntry>)| (e.0, slots_map(e.1@)))
}

proof fn lemma_storage_rows_ok_remove(s: Seq<(AddressV, Vec<StorageEntry>)>, i: int)
    requires
        storage_rows_ok(s),
        0 <= i < s.len(),
    ensures
        storage_rows_ok(s.remove(i)),
{
    let t = s.remove(i);
    assert forall|a: int| 0 <= a < t.len() implies storage_row_ok(#[trigger] t[a]) by {
        if a < i {
            assert(t[a] == s[a]);
        } else {
            assert(t[a] == s[a + 1]);
        }
    }
}

proof fn lemma_storage_rows_ok_push(
    s: Seq<(AddressV, Vec<StorageEntry>)>,
    e: (AddressV, Vec<StorageEntry>),
)
    requires
        storage_rows_ok(s),
        storage_row_ok(e),
    ensures
        storage_rows_ok(s.push(e)),
{
    let t = s.push(e);
    assert forall|a: int| 0 <= a < t.len() implies storage_row_ok(#[trigger] t[a]) by {
        if a < s.len() {
            assert(t[a] == s[a]);
        } else {
            assert(t[a] == e);
        }
    }
}

/// Law: a well-formed storage table stores no zero value — whatever
/// address and slot key one reads, a present value is non-zero.
pub proof fn lemma_no_zero_storage(t: StorageTable, address: AddressV, key: B256)
    requires
        t.wf(),
        t@.contains_key(address),
        t@[address].contains_key(key),
    ensures
        t@[address][key].value() != 0,
{
    let s0 = storage_entries_view(t.rows());
    lemma_assoc_map_contains(s0, address);
    let i = choose|i: int| 0 <= i < s0.len() && (#[trigger] s0[i]).0 == address;
    lemma_assoc_map_get(s0, i);
    assert(s0[i] == (t.rows()[i].0, slots_map(t.rows()[i].1@)));
    assert(t@[address] == slots_map(t.rows()[i].1@));
    assert(storage_row_ok(t.rows()[i]));
    let mapped = t.rows()[i].1@.map_values(|e: StorageEntry| (e.key, e.value));
    lemma_assoc_map_contains(mapped, key);
    let j = choose|j: int| 0 <= j < mapped.len() && (#[trigger] mapped[j]).0 == key;
    lemma_assoc_map_get(mapped, j);
    assert(mapped[j] == (t.rows()[i].1@[j].key, t.rows()[i].1@[j].value));
    assert(t.rows()[i].1@[j].value.value() != 0);
    assert(t@[address][key] == mapped[j].1);
}

/// Removing a row and pushing one under the same key keeps outer keys
/// unique.
pub proof fn lemma_unique_remove_then_push<K, V>(s: Seq<(K, V)>, i: int, v: V)
    requires
        assoc_unique(s),
        0 <= i < s.len(),
    ensures
        assoc_unique(s.remove(i).push((s[i].0, v))),
{
    let t = s.remove(i);
    assert(assoc_unique(t)) by {
        assert(forall|a: int| 0 <= a < t.len() ==> #[trigger] t[a] == if a < i {
            s[a]
        } else {
            s[a + 1]
        });
    }
    assert forall|a: int| 0 <= a < t.len() implies (#[trigger] t[a]).0 != s[i].0 by {
        if a < i {
            assert(t[a] == s[a]);
        } else {
            assert(t[a] == s[a + 1]);
        }
    }
    lemma_unique_push(t, s[i].0, v);
}

/// What a one-row duplicate delete leaves of the storage view.
pub open spec fn spec_delete_entry(
    v: Map<AddressV, Map<B256, W256>>,
    address: AddressV,
    key: B256,
    old_value: W256,
) -> Map<AddressV, Map<B256, W256>> {
    if v.contains_key(address) && v[address].contains_key(key) && v[address][key] == old_value {
        if v[address].remove(key) == Map::<B256, W256>::empty() {
            v.remove(address)
        } else {
            v.insert(address, v[address].remove(key))
        }
    } else {
        v
    }
}

/// What a one-row put leaves of the storage view.
pub open spec fn spec_put_entry(
    v: Map<AddressV, Map<B256, W256>>,
    address: AddressV,
    key: B256,
    value: W256,
) -> Map<AddressV, Map<B256, W256>> {
    if v.contains_key(address) {
        v.insert(address, v[address].insert(key, value))
    } else {
        v.insert(address, Map::empty().insert(key, value))
    }
}

/// The duplicate-sorted storage table: per address, a set of slot rows.
pub struct StorageTable {
    entries: Vec<(AddressV, Vec<StorageEntry>)>,
}

impl StorageTable {
    pub closed spec fn rows(&self) -> Seq<(AddressV, Vec<StorageEntry>)> {
        self.entries@
    }

    /// Address to slot map; an address without rows is absent.
    pub open spec fn view(&self) -> Map<AddressV, Map<B256, W256>> {
        assoc_map(storage_entries_view(self.rows()))
    }

    /// Addresses unique, each row well formed — in particular, the table's
    /// standing invariant that no zero value is stored.
    pub open spec fn wf(&self) -> bool {
        &&& assoc_unique(storage_entries_view(self.rows()))
        &&& storage_rows_ok(self.rows())
    }

    pub fn new() -> (r: StorageTable)
        ensures
            r.wf(),
            r@ == Map::<AddressV, Map<B256, W256>>::empty(),
    {
        proof {
            assert(storage_entries_view(Seq::<(AddressV, Vec<StorageEntry>)>::empty()) =~= Seq::<
                (AddressV, Map<B256, W256>),
            >::empty());
            assert(assoc_map(Seq::<(AddressV, Map<B256, W256>)>::empty()) =~= Map::<
                AddressV,
                Map<B256, W256>,
            >::empty());
        }
        StorageTable { entries: Vec::new() }
    }

    fn find(&self, address: &AddressV) -> (r: Option<usize>)
        ensures
            match r {
                Some(i) => 0 <= i < self.rows().len() && self.rows()[i as int].0 == *address,
                None => forall|i: int|
                    0 <= i < self.rows().len() ==> (#[trigger] self.rows()[i]).0 != *address,
            },
    {
        let n = self.entries.len();
        let mut i: usize = 0;
        while i < n
            invariant
                n == self.rows().len(),
                0 <= i <= n,
                forall|j: int| 0 <= j < i ==> (#[trigger] self.rows()[j]).0 != *address,
            decreases n - i,
        {
            if self.entries[i].0 == *address {
                return Some(i);
            }
            i = i + 1;
        }
        None
    }

    /// The index of the key's slot in a row, if any.
    fn find_slot(slots: &Vec<StorageEntry>, key: &B256) -> (r: Option<usize>)
        ensures
            match r {
                Some(j) => 0 <= j < slots@.len() && slots@[j as int].key == *key,
                None => forall|t: int|
                    0 <= t < slots@.len() ==> (#[trigger] slots@[t]).key != *key,
            },
    {
        let n = slots.len();
        let mut j: usize = 0;
        while j < n
            invariant
                n == slots@.len(),
                0 <= j <= n,
                forall|t: int| 0 <= t < j ==> (#[trigger] slots@[t]).key != *key,
            decreases n - j,
        {
            if slots[j].key == *key {
                return Some(j);
            }
            j = j + 1;
        }
        None
    }

    /// The value of one slot, as the state provider's storage lookup reads
    /// it through a duplicate-sort seek.
    #[verifier::loop_isolation(false)]
    pub fn get(&self, address: &AddressV, key: &B256) -> (r: Option<W256>)
        requires
            self.wf(),
        ensures
            match r {
                Some(v) => self@.contains_key(*address) && self@[*address].contains_key(*key)
                    && self@[*address][*key] == v,
                None => !self@.contains_key(*address) || !self@[*address].contains_key(*key),
            },
    {
        proof {
            lemma_assoc_map_contains(storage_entries_view(self.rows()), *address);
        }
        match self.find(address) {
            Some(i) => {
                proof {
                    assert(storage_entries_view(self.rows())[i as int] == (self.rows()[
                        i as int].0, slots_map(self.rows()[i as int].1@)));
                    lemma_assoc_map_get(storage_entries_view(self.rows()), i as int);
                    assert(storage_row_ok(self.rows()[i as int]));
                }
                let slots = &self.entries[i].1;
                let ghost mapped = slots@.map_values(|e: StorageEntry| (e.key, e.value));
                match Self::find_slot(slots, key) {
                    Some(j) => {
                        proof {
                            assert(mapped[j as int] == (slots@[j as int].key, slots@[
                                j as int].value));
                            lemma_assoc_map_get(mapped, j as int);
                        }
                        Some(slots[j].value)
                    },
                    None => {
                        proof {
                            assert forall|t: int| 0 <= t < mapped.len() implies (
                            #[trigger] mapped[t]).0 != *key by {
                                assert(mapped[t].0 == slots@[t].key);
                            }
                            lemma_assoc_map_contains(mapped, *key);
                        }
                        None
                    },
                }
            },
            None => None,
        }
    }

    /// Deletes every row of the address, as a full-key delete does.
    pub fn wipe(&mut self, address: &AddressV)
        requires
            old(self).wf(),
        ensures
            final(self).wf(),
            final(self)@ == old(self)@.remove(*address),
    {
        let ghost s0 = storage_entries_view(self.rows());
        let ghost rows0 = self.rows();
        match self.find(address) {
            Some(i) => {
                proof {
                    assert(s0[i as int].0 == *address);
                    lemma_assoc_map_remove(s0, i as int);
                    lemma_storage_rows_ok_remove(rows0, i as int);
                }
                let _ = self.entries.remove(i);
                proof {
                    assert(storage_entries_view(self.rows()) =~= s0.remove(i as int));
                }
            },
            None => {
                proof {
                    assert forall|t: int| 0 <= t < s0.len() implies (#[trigger] s0[t]).0
                        != *address by {
                        assert(s0[t].0 == rows0[t].0);
                    }
                    lemma_assoc_map_contains(s0, *address);
                    assert(assoc_map(s0) =~= assoc_map(s0).remove(*address));
                }
            },
        }
    }

    /// Removes the row `(key, old_value)` under the address if exactly that
    /// row is present, as a duplicate-sort delete of one value does.
    #[verifier::loop_isolation(false)]
    pub fn delete_entry(&mut self, address: &AddressV, key: &B256, old_value: &W256)
        requires
            old(self).wf(),
        ensures
            final(self).wf(),
            final(self)@ == spec_delete_entry(old(self)@, *address, *key, *old_value),
    {
        let ghost v0 = self@;
        let ghost s0 = storage_entries_view(self.rows());
        let ghost rows0 = self.rows();
        let row = match self.find(address) {
            Some(i) => i,
            None => {
                proof {
                    assert forall|t: int| 0 <= t < s0.len() implies (#[trigger] s0[t]).0
                        != *address by {
                        assert(s0[t].0 == rows0[t].0);
                    }
                    lemma_assoc_map_contains(s0, *address);
                }
                return ;
            },
        };
        proof {
            assert(s0[row as int] == (rows0[row as int].0, slots_map(rows0[row as int].1@)));
            lemma_assoc_map_get(s0, row as int);
            lemma_assoc_map_remove(s0, row as int);
            lemma_storage_rows_ok_remove(rows0, row as int);
            assert(storage_row_ok(rows0[row as int]));
        }
        let (addr, mut slots) = self.entries.remove(row);
        let ghost slots0 = slots@;
        let ghost inner0 = slots_map(slots0);
        let ghost mapped0 = slots0.map_values(|e: StorageEntry| (e.key, e.value));
        proof {
            assert(storage_entries_view(self.rows()) =~= s0.remove(row as int));
            assert(v0[*address] == inner0);
        }
        let hit = match Self::find_slot(&slots, key) {
            Some(j) => j,
            None => {
                // no slot of that key: the table is left as it was
                proof {
                    assert forall|t: int| 0 <= t < mapped0.len() implies (#[trigger] mapped0[
                        t]).0 != *key by {
                        assert(mapped0[t].0 == slots0[t].key);
                    }
                    lemma_assoc_map_contains(mapped0, *key);
                    lemma_assoc_map_push(s0.remove(row as int), *address, inner0);
                    lemma_unique_remove_then_push(s0, row as int, inner0);
                    lemma_storage_rows_ok_push(rows0.remove(row as int), (addr, slots));
                }
                self.entries.push((addr, slots));
                proof {
                    assert(storage_entries_view(self.rows()) =~= s0.remove(row as int).push(
                        (*address, inner0)));
                    assert(self@ == assoc_map(s0).remove(*address).insert(*address, inner0));
                    assert(self@ =~= v0.insert(*address, inner0));
                    assert(self@ =~= v0);
                }
                return ;
            },
        };
        proof {
            assert(mapped0[hit as int] == (slots0[hit as int].key, slots0[hit as int].value));
            lemma_assoc_map_get(mapped0, hit as int);
        }
        if !(slots[hit].value == *old_value) {
            // a slot of the key is present but under another value
            proof {
                lemma_assoc_map_push(s0.remove(row as int), *address, inner0);
                lemma_unique_remove_then_push(s0, row as int, inner0);
                lemma_storage_rows_ok_push(rows0.remove(row as int), (addr, slots));
            }
            self.entries.push((addr, slots));
            proof {
                assert(storage_entries_view(self.rows()) =~= s0.remove(row as int).push(
                    (*address, inner0)));
                assert(self@ == assoc_map(s0).remove(*address).insert(*address, inner0));
                assert(self@ =~= v0.insert(*address, inner0));
                assert(self@ =~= v0);
            }
            return ;
        }
        proof {
            lemma_assoc_map_remove(mapped0, hit as int);
        }
        let _ = slots.remove(hit);
        let ghost mapped1 = slots@.map_values(|e: StorageEntry| (e.key, e.value));
        proof {
            assert(mapped1 =~= mapped0.remove(hit as int));
            assert(slots_map(slots@) == inner0.remove(*key));
        }
        if slots.len() > 0 {
            proof {
                lemma_assoc_map_push(s0.remove(row as int), *address, slots_map(slots@));
                lemma_unique_remove_then_push(s0, row as int, slots_map(slots@));
                assert(slots_unique(slots@));
                assert forall|j: int| 0 <= j < slots@.len() implies (#[trigger] slots@[
                    j]).value.value() != 0 by {
                    if j < hit {
                        assert(slots@[j] == slots0[j]);
                    } else {
                        assert(slots@[j] == slots0[j + 1]);
                    }
                }
                lemma_storage_rows_ok_push(rows0.remove(row as int), (addr, slots));
                assert(mapped1.len() > 0);
                assert(mapped1[0] == (slots@[0].key, slots@[0].value));
                lemma_assoc_map_contains(mapped1, mapped1[0].0);
                assert(inner0.remove(*key).contains_key(mapped1[0].0));
                assert(inner0.remove(*key) != Map::<B256, W256>::empty());
            }
            self.entries.push((addr, slots));
            proof {
                assert(storage_entries_view(self.rows()) =~= s0.remove(row as int).push(
                    (*address, inner0.remove(*key))));
                assert(self@ == assoc_map(s0).remove(*address).insert(*address, inner0.remove(
                    *key)));
                assert(self@ =~= v0.insert(*address, inner0.remove(*key)));
                assert(self@ =~= spec_delete_entry(v0, *address, *key, *old_value));
            }
        } else {
            proof {
                assert(mapped0.len() == 1);
                assert(hit as int == 0);
                assert(mapped0.drop_last() =~= Seq::<(B256, W256)>::empty());
                assert(assoc_map(Seq::<(B256, W256)>::empty()) =~= Map::<B256, W256>::empty());
                assert(inner0 =~= Map::<B256, W256>::empty().insert(*key, *old_value));
                assert(inner0.remove(*key) =~= Map::<B256, W256>::empty());
                assert(self@ == assoc_map(s0.remove(row as int)));
                assert(self@ == v0.remove(*address));
                assert(self@ =~= spec_delete_entry(v0, *address, *key, *old_value));
            }
        }
    }

    /// Writes one non-zero slot value under the address, replacing the
    /// slot's row if one is present.
    #[verifier::loop_isolation(false)]
    pub fn put_entry(&mut self, address: &AddressV, key: &B256, value: &W256)
        requires
            old(self).wf(),
            value.value() != 0,
        ensures
            final(self).wf(),
            final(self)@ == spec_put_entry(old(self)@, *address, *key, *value),
    {
        let ghost v0 = self@;
        let ghost s0 = storage_entries_view(self.rows());
        let ghost rows0 = self.rows();
        proof {
            lemma_assoc_map_contains(s0, *address);
        }
        match self.find(address) {
            Some(row) => {
                proof {
                    assert(s0[row as int] == (rows0[row as int].0, slots_map(rows0[
                        row as int].1@)));
                    lemma_assoc_map_get(s0, row as int);
                    lemma_assoc_map_remove(s0, row as int);
                    lemma_storage_rows_ok_remove(rows0, row as int);
                    assert(storage_row_ok(rows0[row as int]));
                }
                let (addr, mut slots) = self.entries.remove(row);
                let ghost slots0 = slots@;
                let ghost inner0 = slots_map(slots0);
                let ghost mapped0 = slots0.map_values(|e: StorageEntry| (e.key, e.value));
                proof {
                    assert(storage_entries_view(self.rows()) =~= s0.remove(row as int));
                    assert(v0[*address] == inner0);
                }
                match Self::find_slot(&slots, key) {
                    Some(hit) => {
                        proof {
                            assert(mapped0[hit as int] == (slots0[hit as int].key, slots0[
                                hit as int].value));
                            lemma_assoc_map_get(mapped0, hit as int);
                            lemma_assoc_map_remove(mapped0, hit as int);
                        }
                        let _ = slots.remove(hit);
                        proof {
                            assert(slots@.map_values(|e: StorageEntry| (e.key, e.value)) =~=
                                mapped0.remove(hit as int));
                            assert(slots_map(slots@) == inner0.remove(*key));
                            assert forall|j: int| 0 <= j < slots@.len() implies (
                            #[trigger] slots@[j]).value.value() != 0 by {
                                if j < hit {
                                    assert(slots@[j] == slots0[j]);
                                } else {
                                    assert(slots@[j] == slots0[j + 1]);
                                }
                            }
                        }
                    },
                    None => {
                        proof {
                            assert forall|t: int| 0 <= t < mapped0.len() implies (
                            #[trigger] mapped0[t]).0 != *key by {
                                assert(mapped0[t].0 == slots0[t].key);
                            }
                            lemma_assoc_map_contains(mapped0, *key);
                            assert(slots_map(slots@) =~= inner0.remove(*key));
                        }
                    },
                }
                let ghost mid = slots@;
                let ghost midmap = mid.map_values(|e: StorageEntry| (e.key, e.value));
                proof {
                    assert(slots_map(mid) == inner0.remove(*key));
                    assert(assoc_unique(midmap));
                    assert forall|t: int| 0 <= t < midmap.len() implies (#[trigger] midmap[
                        t]).0 != *key by {
                        lemma_assoc_map_get(midmap, t);
                        assert(slots_map(mid).contains_key(midmap[t].0));
                    }
                }
                slots.push(StorageEntry { key: *key, value: *value });
                proof {
                    assert(slots@.map_values(|e: StorageEntry| (e.key, e.value)) =~= midmap.push(
                        (*key, *value)));
                    lemma_assoc_map_push(midmap, *key, *value);
                    lemma_unique_push(midmap, *key, *value);
                    assert(slots_map(slots@) == inner0.remove(*key).insert(*key, *value));
                    assert(slots_map(slots@) =~= inner0.insert(*key, *value));
                    assert forall|j: int| 0 <= j < slots@.len() implies (#[trigger] slots@[
                        j]).value.value() != 0 by {
                        if j < mid.len() {
                            assert(slots@[j] == mid[j]);
                        }
                    }
                    lemma_assoc_map_push(s0.remove(row as int), *address, slots_map(slots@));
                    lemma_unique_remove_then_push(s0, row as int, slots_map(slots@));
                    lemma_storage_rows_ok_push(rows0.remove(row as int), (addr, slots));
                }
                self.entries.push((addr, slots));
                proof {
                    assert(storage_entries_view(self.rows()) =~= s0.remove(row as int).push(
                        (*address, inner0.insert(*key, *value))));
                    assert(self@ == assoc_map(s0).remove(*address).insert(*address,
                        inner0.insert(*key, *value)));
                    assert(self@ =~= v0.insert(*address, inner0.insert(*key, *value)));
                    assert(self@ =~= spec_put_entry(v0, *address, *key, *value));
                }
            },
            None => {
                proof {
                    assert forall|t: int| 0 <= t < s0.len() implies (#[trigger] s0[t]).0
                        != *address by {
                        assert(s0[t].0 == rows0[t].0);
                    }
                    lemma_assoc_map_contains(s0, *address);
                }
                let mut slots: Vec<StorageEntry> = Vec::new();
                slots.push(StorageEntry { key: *key, value: *value });
                let ghost innernew = slots_map(slots@);
                proof {
                    assert(slots@.map_values(|e: StorageEntry| (e.key, e.value)) =~= Seq::<
                        (B256, W256),
                    >::empty().push((*key, *value)));
                    lemma_assoc_map_push(Seq::<(B256, W256)>::empty(), *key, *value);
                    assert(assoc_map(Seq::<(B256, W256)>::empty()) =~= Map::<B256, W256>::empty());
                    assert(innernew == Map::<B256, W256>::empty().insert(*key, *value));
                    lemma_unique_push(Seq::<(B256, W256)>::empty(), *key, *value);
                    lemma_assoc_map_push(s0, *address, innernew);
                    lemma_unique_push(s0, *address, innernew);
                    lemma_storage_rows_ok_push(rows0, (*address, slots));
                }
                self.entries.push((*address, slots));
                proof {
                    assert(storage_entries_view(self.rows()) =~= s0.push((*address, innernew)));
                    assert(self@ == assoc_map(s0).insert(*address, innernew));
                    assert(self@ =~= spec_put_entry(v0, *address, *key, *value));
                }
            },
        }
    }
}

} // verus!
