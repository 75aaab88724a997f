//! The state journal: storage writes, gas deductions and account data
//! recorded during execution.
use vstd::prelude::*;

verus! {

pub type Address = [u8; 20];
pub type Slot = [u8; 32];
pub type Value = [u8; 32];

#[derive(Debug, Clone, Copy, PartialEq, Eq, Hash)]
pub struct StorageKey {
    pub address: Address,
    pub slot: Slot,
}

/// Index of the first entry whose key has view `k`, or -1.
pub open spec fn first_key<K: View, V>(entries: Seq<(K, V)>, k: K::V) -> int
    decreases entries.len(),
{
    if entries.len() == 0 {
        -1
    } else if entries[0].0@ == k {
        0
    } else {
        let r = first_key(entries.drop_first(), k);
        if r < 0 {
            -1
        } else {
            r + 1
        }
    }
}

pub proof fn lemma_first_key<K: View, V>(entries: Seq<(K, V)>, k: K::V)
    ensures
        -1 <= first_key(entries, k) < entries.len(),
        first_key(entries, k) >= 0 ==> entries[first_key(entries, k)].0@ == k,
        forall|j: int| 0 <= j < entries.len() && (first_key(entries, k) < 0 || j < first_key(entries, k))
            ==> #[trigger] entries[j].0@ != k,
    decreases entries.len(),
{
    if entries.len() > 0 && entries[0].0@ != k {
        lemma_first_key(entries.drop_first(), k);
        assert forall|j: int| 0 <= j < entries.len() && (first_key(entries, k) < 0 || j < first_key(entries, k))
            implies #[trigger] entries[j].0@ != k by {
            if j > 0 {
                assert(entries[j] == entries.drop_first()[j - 1]);
            }
        }
    }
}

/// `first_key` is the unique index with key `k` that no earlier entry shares.
pub proof fn lemma_first_key_unique<K: View, V>(entries: Seq<(K, V)>, k: K::V, i: int)
    requires
        0 <= i < entries.len(),
        entries[i].0@ == k,
        forall|j: int| 0 <= j < i ==> #[trigger] entries[j].0@ != k,
    ensures
        first_key(entries, k) == i,
{
    lemma_first_key(entries, k);
    if first_key(entries, k) < 0 || first_key(entries, k) > i {
        assert(entries[i].0@ != k);
    }
    if 0 <= first_key(entries, k) < i {
        assert(entries[first_key(entries, k)].0@ != k);
    }
}

/// The value recorded for key `k`, if any.
pub open spec fn lookup<K: View, V: View>(entries: Seq<(K, V)>, k: K::V) -> Option<V::V> {
    let i = first_key(entries, k);
    if i < 0 {
        None
    } else {
        Some(entries[i].1@)
    }
}

impl View for StorageKey {
    type V = (Seq<u8>, Seq<u8>);

    open spec fn view(&self) -> (Seq<u8>, Seq<u8>) {
        (self.address@, self.slot@)
    }
}

#[derive(Debug, Clone)]
pub struct StateJournal {
    writes: Vec<(StorageKey, Value)>,
    gas_deductions: Vec<(Address, u64)>,
    accounts: Vec<(Address, Vec<u8>)>,
}

fn arr_eq<const N: usize>(a: &[u8; N], b: &[u8; N]) -> (r: bool)
    ensures
        r == (a@ == b@),
{
    let mut i: usize = 0;
    while i < N
        invariant
            a@.len() == N,
            b@.len() == N,
            i <= N,
            forall|j: int| 0 <= j < i ==> a@[j] == b@[j],
        decreases N - i,
    {
        if a[i] != b[i] {
            return false;
        }
        i = i + 1;
    }
    assert(a@ =~= b@);
    true
}

fn find_write(entries: &Vec<(StorageKey, Value)>, k: &StorageKey) -> (r: Option<usize>)
    ensures
        match r {
            Some(i) => first_key(entries@, k@) == i && i < entries@.len(),
            None => first_key(entries@, k@) < 0,
        },
{
    proof {
        lemma_first_key(entries@, k@);
    }
    let mut i: usize = 0;
    while i < entries.len()
        invariant
            i <= entries@.len(),
            forall|j: int| 0 <= j < i ==> #[trigger] entries@[j].0@ != k@,
        decreases entries@.len() - i,
    {
        if arr_eq(&entries[i].0.address, &k.address) && arr_eq(&entries[i].0.slot, &k.slot) {
            proof {
                lemma_first_key_unique(entries@, k@, i as int);
            }
            return Some(i);
        }
        i = i + 1;
    }
    proof {
        if first_key(entries@, k@) >= 0 {
            assert(entries@[first_key(entries@, k@)].0@ == k@);
        }
    }
    None
}

fn find_account(entries: &Vec<(Address, Vec<u8>)>, k: &Address) -> (r: Option<usize>)
    ensures
        match r {
            Some(i) => first_key(entries@, k@) == i && i < entries@.len(),
            None => first_key(entries@, k@) < 0,
        },
{
    proof {
        lemma_first_key(entries@, k@);
    }
    let mut i: usize = 0;
    while i < entries.len()
        invariant
            i <= entries@.len(),
            forall|j: int| 0 <= j < i ==> #[trigger] entries@[j].0@ != k@,
        decreases entries@.len() - i,
    {
        if arr_eq(&entries[i].0, k) {
            proof {
                lemma_first_key_unique(entries@, k@, i as int);
            }
            return Some(i);
        }
        i = i + 1;
    }
    proof {
        if first_key(entries@, k@) >= 0 {
            assert(entries@[first_key(entries@, k@)].0@ == k@);
        }
    }
    None
}

/// Replacing the value of the entry that `first_key` finds keeps every
/// other key's lookup and makes this key's lookup the new value.
pub proof fn lemma_lookup_update<K: View, V: View>(entries: Seq<(K, V)>, i: int, e: (K, V))
    requires
        0 <= i < entries.len(),
        first_key(entries, e.0@) == i,
    ensures
        lookup(entries.update(i, e), e.0@) == Some(e.1@),
        forall|k: K::V| k != e.0@ ==> #[trigger] lookup(entries.update(i, e), k) == lookup(entries, k),
{
    let t = entries.update(i, e);
    lemma_first_key(entries, e.0@);
    assert forall|j: int| 0 <= j < i implies #[trigger] t[j].0@ != e.0@ by {
        assert(t[j] == entries[j]);
    }
    lemma_first_key_unique(t, e.0@, i);
    assert forall|k: K::V| k != e.0@ implies #[trigger] lookup(t, k) == lookup(entries, k) by {
        lemma_first_key(entries, k);
        lemma_first_key(t, k);
        let a = first_key(entries, k);
        let b = first_key(t, k);
        if a >= 0 {
            assert forall|j: int| 0 <= j < a implies #[trigger] t[j].0@ != k by {
                if j != i { assert(t[j] == entries[j]); }
            }
            assert(t[a] == entries[a]);
            lemma_first_key_unique(t, k, a);
        } else if b >= 0 {
            if b != i { assert(t[b] == entries[b]); }
        }
    }
}

/// Appending an entry under a key not present makes it that key's lookup
/// and keeps every other key's lookup.
pub proof fn lemma_lookup_push<K: View, V: View>(entries: Seq<(K, V)>, e: (K, V))
    requires
        first_key(entries, e.0@) < 0,
    ensures
        lookup(entries.push(e), e.0@) == Some(e.1@),
        forall|k: K::V| k != e.0@ ==> #[trigger] lookup(entries.push(e), k) == lookup(entries, k),
{
    let t = entries.push(e);
    let n = entries.len() as int;
    lemma_first_key(entries, e.0@);
    assert forall|j: int| 0 <= j < n implies #[trigger] t[j].0@ != e.0@ by {
        assert(t[j] == entries[j]);
    }
    lemma_first_key_unique(t, e.0@, n);
    assert forall|k: K::V| k != e.0@ implies #[trigger] lookup(t, k) == lookup(entries, k) by {
        lemma_first_key(entries, k);
        lemma_first_key(t, k);
        let a = first_key(entries, k);
        let b = first_key(t, k);
        if a >= 0 {
            assert forall|j: int| 0 <= j < a implies #[trigger] t[j].0@ != k by {
                assert(t[j] == entries[j]);
            }
            assert(t[a] == entries[a]);
            lemma_first_key_unique(t, k, a);
        } else if b >= 0 {
            if b < n { assert(t[b] == entries[b]); }
        }
    }
}

impl StateJournal {
    pub closed spec fn writes_seq(self) -> Seq<(StorageKey, Value)> {
        self.writes@
    }

    pub closed spec fn gas_seq(self) -> Seq<(Address, u64)> {
        self.gas_deductions@
    }

    pub closed spec fn accounts_seq(self) -> Seq<(Address, Vec<u8>)> {
        self.accounts@
    }

    /// The storage value last recorded for the key with view `k`.
    pub open spec fn write_of(self, k: (Seq<u8>, Seq<u8>)) -> Option<Seq<u8>> {
        lookup(self.writes_seq(), k)
    }

    /// The data last set for the account with address view `a`.
    pub open spec fn account_of(self, a: Seq<u8>) -> Option<Seq<u8>> {
        lookup(self.accounts_seq(), a)
    }

    pub open spec fn spec_is_empty(self) -> bool {
        self.writes_seq().len() == 0 && self.gas_seq().len() == 0 && self.accounts_seq().len() == 0
    }

    pub fn new() -> (r: Self)
        ensures
            r.writes_seq().len() == 0,
            r.gas_seq().len() == 0,
            r.accounts_seq().len() == 0,
    {
        Self { writes: Vec::new(), gas_deductions: Vec::new(), accounts: Vec::new() }
    }

    /// Records that `slot` of `address` now holds `value`.
    pub fn record_write(&mut self, address: Address, slot: Slot, value: Value)
        ensures
            final(self).write_of((address@, slot@)) == Some(value@),
            forall|k: (Seq<u8>, Seq<u8>)| k != (address@, slot@) ==> #[trigger] final(self).write_of(k) == old(self).write_of(k),
            final(self).writes_seq().len() > 0,
            first_key(old(self).writes_seq(), (address@, slot@)) >= 0 ==> final(self).writes_seq()
                == old(self).writes_seq().update(
                first_key(old(self).writes_seq(), (address@, slot@)),
                (StorageKey { address, slot }, value),
            ),
            first_key(old(self).writes_seq(), (address@, slot@)) < 0 ==> final(self).writes_seq()
                == old(self).writes_seq().push((StorageKey { address, slot }, value)),
            final(self).gas_seq() == old(self).gas_seq(),
            final(self).accounts_seq() == old(self).accounts_seq(),
    {
        let key = StorageKey { address, slot };
        match find_write(&self.writes, &key) {
            Some(i) => {
                proof {
                    lemma_lookup_update(self.writes@, i as int, (key, value));
                }
                self.writes.set(i, (key, value));
            },
            None => {
                proof {
                    lemma_lookup_push(self.writes@, (key, value));
                }
                self.writes.push((key, value));
            },
        }
    }

    /// Appends a gas deduction of `amount` for `address`.
    pub fn record_gas_deduction(&mut self, address: Address, amount: u64)
        ensures
            final(self).gas_seq() == old(self).gas_seq().push((address, amount)),
            final(self).writes_seq() == old(self).writes_seq(),
            final(self).accounts_seq() == old(self).accounts_seq(),
    {
        self.gas_deductions.push((address, amount));
    }

    /// Sets the data of the account at `address`.
    pub fn set_account_data(&mut self, address: Address, data: Vec<u8>)
        ensures
            final(self).account_of(address@) == Some(data@),
            forall|a: Seq<u8>| a != address@ ==> #[trigger] final(self).account_of(a) == old(self).account_of(a),
            final(self).accounts_seq().len() > 0,
            first_key(old(self).accounts_seq(), address@) >= 0 ==> final(self).accounts_seq()
                == old(self).accounts_seq().update(first_key(old(self).accounts_seq(), address@), (address, data)),
            first_key(old(self).accounts_seq(), address@) < 0 ==> final(self).accounts_seq()
                == old(self).accounts_seq().push((address, data)),
            final(self).writes_seq() == old(self).writes_seq(),
            final(self).gas_seq() == old(self).gas_seq(),
    {
        let ghost d = data@;
        match find_account(&self.accounts, &address) {
            Some(i) => {
                proof {
                    lemma_lookup_update(self.accounts@, i as int, (address, data));
                }
                self.accounts.set(i, (address, data));
            },
            None => {
                proof {
                    lemma_lookup_push(self.accounts@, (address, data));
                }
                self.accounts.push((address, data));
            },
        }
    }

    /// The data of the account at `address`, if any was set.
    pub fn get_account_data(&self, address: &Address) -> (r: Option<&[u8]>)
        ensures
            match r {
                Some(d) => self.account_of(address@) == Some(d@),
                None => self.account_of(address@).is_none(),
            },
    {
        match find_account(&self.accounts, address) {
            Some(i) => Some(self.accounts[i].1.as_slice()),
            None => None,
        }
    }

    /// The account entries, one per address.
    pub fn accounts(&self) -> (r: &Vec<(Address, Vec<u8>)>)
        ensures
            r@ == self.accounts_seq(),
    {
        &self.accounts
    }

    /// The storage writes, one entry per key.
    pub fn writes(&self) -> (r: &Vec<(StorageKey, Value)>)
        ensures
            r@ == self.writes_seq(),
    {
        &self.writes
    }

    /// The gas deductions in the order they were recorded.
    pub fn gas_deductions(&self) -> (r: &[(Address, u64)])
        ensures
            r@ == self.gas_seq(),
    {
        self.gas_deductions.as_slice()
    }

    pub fn is_empty(&self) -> (r: bool)
        ensures
            r == self.spec_is_empty(),
    {
        self.writes.len() == 0 && self.gas_deductions.len() == 0 && self.accounts.len() == 0
    }

    /// The storage value recorded for `key`, if any.
    pub fn storage_value(&self, key: &StorageKey) -> (r: Option<Value>)
        ensures
            match r {
                Some(v) => self.write_of(key@) == Some(v@),
                None => self.write_of(key@).is_none(),
            },
    {
        match find_write(&self.writes, key) {
            Some(i) => Some(self.writes[i].1),
            None => None,
        }
    }
}

impl Default for StateJournal {
    fn default() -> (r: Self)
        ensures
            r.spec_is_empty(),
    {
        Self::new()
    }
}

} // verus!
