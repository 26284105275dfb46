//! The expiring store: one mapping from key to value with an optional expiry time.
use vstd::prelude::*;

verus! {

/// One stored key's current value and the time, in milliseconds since the
/// epoch, at which it stops being visible (`None`: never).
#[derive(Debug)]
pub struct StoreEntry {
    pub value: Vec<u8>,
    pub expires_at: Option<u128>,
}

/// The model of an entry: its bytes and its expiry time.
pub type EntryModel = (Seq<u8>, Option<u128>);

impl View for StoreEntry {
    type V = EntryModel;

    open spec fn view(&self) -> EntryModel {
        (self.value@, self.expires_at)
    }
}

/// Whether two byte strings are equal.
pub fn bytes_eq(a: &Vec<u8>, b: &Vec<u8>) -> (r: bool)
    ensures
        r == (a@ == b@),
{
    if a.len() != b.len() {
        return false;
    }
    let mut k: usize = 0;
    while k < a.len()
        invariant
            a@.len() == b@.len(),
            k <= a@.len(),
            forall|q: int| 0 <= q < k ==> a@[q] == b@[q],
        decreases a@.len() - k,
    {
        if a[k] != b[k] {
            return false;
        }
        k = k + 1;
    }
    assert(a@ =~= b@);
    true
}

/// Copies a byte string.
pub fn copy_bytes(a: &Vec<u8>) -> (r: Vec<u8>)
    ensures
        r@ == a@,
{
    let mut out: Vec<u8> = Vec::new();
    let mut k: usize = 0;
    while k < a.len()
        invariant
            k <= a@.len(),
            out@ == a@.subrange(0, k as int),
        decreases a@.len() - k,
    {
        out.push(a[k]);
        k = k + 1;
        assert(out@ =~= a@.subrange(0, k as int));
    }
    assert(out@ =~= a@);
    out
}

/// The key-value mapping. Every write replaces a whole entry; reads never evict.
pub struct Store {
    entries: Vec<(Vec<u8>, StoreEntry)>,
    contents: Ghost<Map<Seq<u8>, EntryModel>>,
}

impl View for Store {
    type V = Map<Seq<u8>, EntryModel>;

    closed spec fn view(&self) -> Map<Seq<u8>, EntryModel> {
        self.contents@
    }
}

impl Store {
    /// Keys are held once each, and the entries are exactly the mapping.
    pub closed spec fn wf(&self) -> bool {
        let es = self.entries@;
        let m = self.contents@;
        &&& forall|i: int, j: int|
            0 <= i < es.len() && 0 <= j < es.len() && i != j ==> #[trigger] es[i].0@ != #[trigger] es[j].0@
        &&& forall|i: int|
            0 <= i < es.len() ==> m.contains_key(#[trigger] es[i].0@) && m[es[i].0@] == es[i].1@
        &&& forall|k: Seq<u8>|
            #[trigger] m.contains_key(k) ==> exists|i: int| 0 <= i < es.len() && es[i].0@ == k
    }

    /// An empty store.
    pub fn new() -> (r: Store)
        ensures
            r.wf(),
            r@ == Map::<Seq<u8>, EntryModel>::empty(),
    {
        Store { entries: Vec::new(), contents: Ghost(Map::empty()) }
    }

    fn find(&self, key: &Vec<u8>) -> (r: Option<usize>)
        requires
            self.wf(),
        ensures
            r matches Some(i) ==> i < self.entries@.len() && self.entries@[i as int].0@ == key@,
            r is None ==> !self@.contains_key(key@),
    {
        let mut i: usize = 0;
        while i < self.entries.len()
            invariant
                self.wf(),
                i <= self.entries@.len(),
                forall|q: int| 0 <= q < i ==> self.entries@[q].0@ != key@,
            decreases self.entries@.len() - i,
        {
            if bytes_eq(&self.entries[i].0, key) {
                return Some(i);
            }
            i = i + 1;
        }
        None
    }

    /// The entry stored under `key`, expired or not.
    pub fn get(&self, key: &Vec<u8>) -> (r: Option<StoreEntry>)
        requires
            self.wf(),
        ensures
            r is Some <==> self@.contains_key(key@),
            r matches Some(e) ==> e@ == self@[key@],
    {
        match self.find(key) {
            Some(i) => {
                let e = &self.entries[i].1;
                Some(StoreEntry { value: copy_bytes(&e.value), expires_at: e.expires_at })
            },
            None => None,
        }
    }

    /// Creates or wholly replaces the entry stored under `key`.
    pub fn set(&mut self, key: Vec<u8>, value: Vec<u8>, expires_at: Option<u128>)
        requires
            old(self).wf(),
        ensures
            final(self).wf(),
            final(self)@ == old(self)@.insert(key@, (value@, expires_at)),
    {
        let ghost k = key@;
        let ghost model = (value@, expires_at);
        let entry = StoreEntry { value, expires_at };
        let ghost mut idx: int = 0;
        match self.find(&key) {
            Some(i) => {
                self.entries.set(i, (key, entry));
                proof { idx = i as int; }
            },
            None => {
                proof { idx = self.entries@.len() as int; }
                self.entries.push((key, entry));
            },
        }
        assert(self.entries@[idx].0@ == k);
        self.contents = Ghost(self.contents@.insert(k, model));
        proof {
            let es = self.entries@;
            let m = self.contents@;
            assert forall|k2: Seq<u8>| #[trigger] m.contains_key(k2) implies
                exists|i: int| 0 <= i < es.len() && es[i].0@ == k2 by {
                if k2 != k {
                    let old_m = old(self).contents@;
                    assert(old_m.contains_key(k2));
                    let i = choose|i: int| 0 <= i < old(self).entries@.len() && old(self).entries@[i].0@ == k2;
                    assert(es[i].0@ == k2);
                } else {
                    assert(es[idx].0@ == k2);
                }
            }
        }
    }
}

} // verus!
