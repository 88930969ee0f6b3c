use vstd::prelude::*;

verus! {

/// Errors reported by the cache engine.
#[derive(Debug, Clone, Copy, PartialEq, Eq, Structural)]
pub enum CacheError {
    KeyNotFound,
    KeyTooLong,
    ValueTooLong,
    CapacityExceeded,
}

/// Mathematical model of a stored value.
pub struct ValueView {
    pub data: Seq<u8>,
    pub flags: u16,
    pub exptime: nat,
    pub atime: nat,
}

/// A payload with its metadata. Times are whole seconds since the epoch.
#[derive(Debug, PartialEq, Eq)]
pub struct Value {
    pub data: Vec<u8>,
    pub flags: u16,
    /// Absolute deadline; zero means no per-entry deadline.
    pub exptime: u64,
    /// Last access time.
    pub atime: u64,
}

impl View for Value {
    type V = ValueView;

    open spec fn view(&self) -> ValueView {
        ValueView {
            data: self.data@,
            flags: self.flags,
            exptime: self.exptime as nat,
            atime: self.atime as nat,
        }
    }
}

impl ValueView {
    pub open spec fn touched(self, now: nat) -> ValueView {
        ValueView { atime: now, ..self }
    }
}

impl Value {
    pub fn new(data: Vec<u8>, flags: u16, exptime: u64) -> (r: Value)
        ensures
            r.data@ == data@,
            r.flags == flags,
            r.exptime == exptime,
            r.atime == 0,
    {
        Value { data, flags, exptime, atime: 0 }
    }

    pub fn len(&self) -> (r: usize)
        ensures
            r == self.data@.len(),
    {
        self.data.len()
    }

    /// Marks the value as accessed at `now`.
    pub fn touch(&mut self, now: u64)
        ensures
            final(self)@ == old(self)@.touched(now as nat),
    {
        self.atime = now;
    }

    /// An owned copy of the value.
    pub fn copy(&self) -> (r: Value)
        ensures
            r@ == self@,
    {
        Value { data: self.data.clone(), flags: self.flags, exptime: self.exptime, atime: self.atime }
    }
}

} // verus!

verus! {

/// A stored pair.
pub struct Entry {
    pub key: Vec<u8>,
    pub value: Value,
}

pub open spec fn keys_unique(s: Seq<Entry>) -> bool {
    forall|i: int, j: int| 0 <= i < j < s.len() ==> s[i].key@ != s[j].key@
}

pub open spec fn holds_key(s: Seq<Entry>, k: Seq<u8>) -> bool {
    exists|i: int| 0 <= i < s.len() && s[i].key@ == k
}

pub open spec fn slot_of(s: Seq<Entry>, k: Seq<u8>) -> int {
    choose|i: int| 0 <= i < s.len() && s[i].key@ == k
}

/// The mapping that a sequence of entries stands for.
pub open spec fn entries_map(s: Seq<Entry>) -> Map<Seq<u8>, ValueView> {
    Map::new(|k: Seq<u8>| holds_key(s, k), |k: Seq<u8>| s[slot_of(s, k)].value@)
}

pub proof fn lemma_entry_at(s: Seq<Entry>, i: int)
    requires
        keys_unique(s),
        0 <= i < s.len(),
    ensures
        entries_map(s).contains_key(s[i].key@),
        entries_map(s)[s[i].key@] == s[i].value@,
{
    let k = s[i].key@;
    assert(holds_key(s, k));
    let j = slot_of(s, k);
    assert(j == i);
}

pub proof fn lemma_push(s: Seq<Entry>, e: Entry)
    requires
        keys_unique(s),
        !holds_key(s, e.key@),
    ensures
        keys_unique(s.push(e)),
        entries_map(s.push(e)) =~= entries_map(s).insert(e.key@, e.value@),
{
    let t = s.push(e);
    assert(keys_unique(t)) by {
        assert forall|i: int, j: int| 0 <= i < j < t.len() implies t[i].key@ != t[j].key@ by {
            if j == s.len() {
                assert(s[i].key@ == t[i].key@);
            }
        }
    }
    assert forall|k: Seq<u8>| #[trigger] holds_key(t, k) == (holds_key(s, k) || k == e.key@) by {
        if holds_key(s, k) {
            let i = slot_of(s, k);
            assert(t[i] == s[i]);
        }
        if k == e.key@ {
            assert(t[s.len() as int] == e);
        }
        if holds_key(t, k) && k != e.key@ {
            let i = slot_of(t, k);
            assert(i < s.len());
            assert(s[i] == t[i]);
        }
    }
    assert forall|k: Seq<u8>| #[trigger] holds_key(t, k) implies entries_map(t)[k]
        == entries_map(s).insert(e.key@, e.value@)[k] by {
        if k == e.key@ {
            lemma_entry_at(t, s.len() as int);
        } else {
            let i = slot_of(s, k);
            lemma_entry_at(s, i);
            assert(t[i] == s[i]);
            lemma_entry_at(t, i);
        }
    }
}

pub proof fn lemma_update(s: Seq<Entry>, i: int, e: Entry)
    requires
        keys_unique(s),
        0 <= i < s.len(),
        e.key@ == s[i].key@,
    ensures
        keys_unique(s.update(i, e)),
        entries_map(s.update(i, e)) =~= entries_map(s).insert(e.key@, e.value@),
{
    let t = s.update(i, e);
    assert(keys_unique(t)) by {
        assert forall|a: int, b: int| 0 <= a < b < t.len() implies t[a].key@ != t[b].key@ by {
            assert(t[a].key@ == s[a].key@);
            assert(t[b].key@ == s[b].key@);
        }
    }
    assert forall|k: Seq<u8>| #[trigger] holds_key(t, k) == holds_key(s, k) by {
        if holds_key(s, k) {
            let j = slot_of(s, k);
            assert(t[j].key@ == s[j].key@);
        }
        if holds_key(t, k) {
            let j = slot_of(t, k);
            assert(t[j].key@ == s[j].key@);
        }
    }
    assert forall|k: Seq<u8>| #[trigger] holds_key(t, k) implies entries_map(t)[k]
        == entries_map(s).insert(e.key@, e.value@)[k] by {
        lemma_entry_at(t, i);
        if k != e.key@ {
            let j = slot_of(s, k);
            lemma_entry_at(s, j);
            assert(t[j] == s[j]);
            lemma_entry_at(t, j);
        }
    }
}

pub proof fn lemma_remove(s: Seq<Entry>, i: int)
    requires
        keys_unique(s),
        0 <= i < s.len(),
    ensures
        keys_unique(s.remove(i)),
        entries_map(s.remove(i)) =~= entries_map(s).remove(s[i].key@),
{
    let t = s.remove(i);
    let k0 = s[i].key@;
    assert forall|a: int| 0 <= a < t.len() implies #[trigger] t[a] == (if a < i {
        s[a]
    } else {
        s[a + 1]
    }) by {}
    assert(keys_unique(t)) by {
        assert forall|a: int, b: int| 0 <= a < b < t.len() implies t[a].key@ != t[b].key@ by {
            let a1 = if a < i { a } else { a + 1 };
            let b1 = if b < i { b } else { b + 1 };
            assert(t[a] == s[a1]);
            assert(t[b] == s[b1]);
        }
    }
    assert forall|k: Seq<u8>| #[trigger] holds_key(t, k) == (holds_key(s, k) && k != k0) by {
        if holds_key(s, k) && k != k0 {
            let j = slot_of(s, k);
            assert(j != i);
            let j1 = if j < i { j } else { j - 1 };
            assert(t[j1] == s[j]);
        }
        if holds_key(t, k) {
            let j = slot_of(t, k);
            let j1 = if j < i { j } else { j + 1 };
            assert(t[j] == s[j1]);
        }
    }
    assert forall|k: Seq<u8>| #[trigger] holds_key(t, k) implies entries_map(t)[k]
        == entries_map(s)[k] by {
        let j = slot_of(t, k);
        let j1 = if j < i { j } else { j + 1 };
        assert(t[j] == s[j1]);
        lemma_entry_at(t, j);
        lemma_entry_at(s, j1);
    }
}

pub proof fn lemma_size(s: Seq<Entry>)
    requires
        keys_unique(s),
    ensures
        entries_map(s).dom().finite(),
        entries_map(s).dom().len() == s.len(),
    decreases s.len(),
{
    if s.len() == 0 {
        assert(entries_map(s).dom() =~= Set::empty());
    } else {
        let p = s.drop_last();
        assert(keys_unique(p));
        lemma_size(p);
        assert(!holds_key(p, s.last().key@)) by {
            if holds_key(p, s.last().key@) {
                let j = slot_of(p, s.last().key@);
                assert(s[j] == p[j]);
            }
        }
        lemma_push(p, s.last());
        assert(p.push(s.last()) =~= s);
    }
}

} // verus!

verus! {

pub const DEFAULT_KEY_MAXLEN: u64 = 250;

pub const DEFAULT_VALUE_MAXLEN: u64 = 1048576;

/// Mathematical model of the cache.
pub struct CacheView {
    pub capacity: nat,
    /// Idle lifetime in seconds; negative means no idle expiry.
    pub item_lifetime: int,
    pub key_maxlen: nat,
    pub value_maxlen: nat,
    pub entries: Map<Seq<u8>, ValueView>,
}

/// Liveness of a stored value at instant `now`.
pub open spec fn alive(v: ValueView, item_lifetime: int, now: nat) -> bool {
    if v.exptime > 0 {
        v.exptime > now
    } else if item_lifetime < 0 {
        true
    } else {
        v.atime + item_lifetime > now
    }
}

impl CacheView {
    pub open spec fn with_entries(self, entries: Map<Seq<u8>, ValueView>) -> CacheView {
        CacheView { entries, ..self }
    }

    /// What `get(k)` at `now` returns.
    pub open spec fn get_result(self, k: Seq<u8>, now: nat) -> Result<ValueView, CacheError> {
        if k.len() > self.key_maxlen {
            Err(CacheError::KeyTooLong)
        } else if !self.entries.contains_key(k) {
            Err(CacheError::KeyNotFound)
        } else if !alive(self.entries[k], self.item_lifetime, now) {
            Err(CacheError::KeyNotFound)
        } else {
            Ok(self.entries[k].touched(now))
        }
    }

    /// The cache after `get(k)` at `now`.
    pub open spec fn after_get(self, k: Seq<u8>, now: nat) -> CacheView {
        if k.len() > self.key_maxlen || !self.entries.contains_key(k) {
            self
        } else if !alive(self.entries[k], self.item_lifetime, now) {
            self.with_entries(self.entries.remove(k))
        } else {
            self.with_entries(self.entries.insert(k, self.entries[k].touched(now)))
        }
    }

    /// What `set(k, v)` at `now` returns.
    pub open spec fn set_result(self, k: Seq<u8>, v: ValueView) -> Result<(), CacheError> {
        if k.len() > self.key_maxlen {
            Err(CacheError::KeyTooLong)
        } else if v.data.len() > self.value_maxlen {
            Err(CacheError::ValueTooLong)
        } else if !self.entries.contains_key(k) && self.entries.len() == self.capacity {
            Err(CacheError::CapacityExceeded)
        } else {
            Ok(())
        }
    }

    /// The cache after `set(k, v)` at `now`.
    pub open spec fn after_set(self, k: Seq<u8>, v: ValueView, now: nat) -> CacheView {
        if self.set_result(k, v) is Ok {
            self.with_entries(self.entries.insert(k, v.touched(now)))
        } else {
            self
        }
    }

    pub open spec fn wf(self) -> bool {
        &&& self.entries.dom().finite()
        &&& self.entries.len() <= self.capacity
    }
}

/// A bounded key/value store with per-entry and idle expiry.
pub struct Cache {
    capacity: u64,
    item_lifetime: i64,
    key_maxlen: u64,
    value_maxlen: u64,
    storage: Vec<Entry>,
}

impl View for Cache {
    type V = CacheView;

    closed spec fn view(&self) -> CacheView {
        CacheView {
            capacity: self.capacity as nat,
            item_lifetime: self.item_lifetime as int,
            key_maxlen: self.key_maxlen as nat,
            value_maxlen: self.value_maxlen as nat,
            entries: entries_map(self.storage@),
        }
    }
}

/// Byte-wise equality of two slices.
pub fn bytes_eq(a: &[u8], b: &[u8]) -> (r: bool)
    ensures
        r == (a@ == b@),
{
    if a.len() != b.len() {
        return false;
    }
    let mut i: usize = 0;
    while i < a.len()
        invariant
            a@.len() == b@.len(),
            i <= a@.len(),
            forall|j: int| 0 <= j < i ==> a@[j] == b@[j],
        decreases a@.len() - i,
    {
        if a[i] != b[i] {
            return false;
        }
        i = i + 1;
    }
    assert(a@ =~= b@);
    true
}

impl Cache {
    pub closed spec fn wf(&self) -> bool {
        &&& keys_unique(self.storage@)
        &&& self.storage@.len() <= self.capacity
    }

    proof fn lemma_wf(&self)
        requires
            self.wf(),
        ensures
            self@.wf(),
            self@.entries.len() == self.storage@.len(),
    {
        lemma_size(self.storage@);
    }

    pub fn new(capacity: u64) -> (r: Cache)
        ensures
            r.wf(),
            r@.capacity == capacity,
            r@.item_lifetime == -1,
            r@.key_maxlen == DEFAULT_KEY_MAXLEN,
            r@.value_maxlen == DEFAULT_VALUE_MAXLEN,
            r@.entries.is_empty(),
    {
        let r = Cache {
            capacity,
            item_lifetime: -1,
            key_maxlen: DEFAULT_KEY_MAXLEN,
            value_maxlen: DEFAULT_VALUE_MAXLEN,
            storage: Vec::new(),
        };
        assert(r@.entries =~= Map::empty());
        r
    }

    /// Sets the idle lifetime in seconds; a negative value turns idle expiry off.
    pub fn with_item_lifetime(&mut self, item_lifetime: i64)
        requires
            old(self).wf(),
        ensures
            final(self).wf(),
            final(self)@ == (CacheView { item_lifetime: item_lifetime as int, ..old(self)@ }),
    {
        self.item_lifetime = item_lifetime;
    }

    /// Sets the largest key length accepted, in bytes.
    pub fn with_key_maxlen(&mut self, key_maxlen: u64)
        requires
            old(self).wf(),
        ensures
            final(self).wf(),
            final(self)@ == (CacheView { key_maxlen: key_maxlen as nat, ..old(self)@ }),
    {
        self.key_maxlen = key_maxlen;
    }

    /// Sets the largest payload length accepted, in bytes.
    pub fn with_value_maxlen(&mut self, value_maxlen: u64)
        requires
            old(self).wf(),
        ensures
            final(self).wf(),
            final(self)@ == (CacheView { value_maxlen: value_maxlen as nat, ..old(self)@ }),
    {
        self.value_maxlen = value_maxlen;
    }

    /// Number of entries held, dead ones not yet observed included.
    pub fn len(&self) -> (r: usize)
        requires
            self.wf(),
        ensures
            r == self@.entries.len(),
    {
        proof {
            self.lemma_wf();
        }
        self.storage.len()
    }

    fn find(&self, key: &[u8]) -> (r: Option<usize>)
        ensures
            match r {
                Some(i) => i < self.storage@.len() && self.storage@[i as int].key@ == key@,
                None => !holds_key(self.storage@, key@),
            },
    {
        let mut i: usize = 0;
        while i < self.storage.len()
            invariant
                i <= self.storage@.len(),
                forall|j: int| 0 <= j < i ==> self.storage@[j].key@ != key@,
            decreases self.storage@.len() - i,
        {
            if bytes_eq(self.storage[i].key.as_slice(), key) {
                return Some(i);
            }
            i = i + 1;
        }
        None
    }

    fn value_is_alive(&self, value: &Value, now: u64) -> (r: bool)
        ensures
            r == alive(value@, self@.item_lifetime, now as nat),
    {
        if value.exptime > 0 {
            return value.exptime > now;
        }
        if self.item_lifetime < 0 {
            return true;
        }
        (value.atime as i128) + (self.item_lifetime as i128) > (now as i128)
    }

    fn remove_at(&mut self, i: usize)
        requires
            old(self).wf(),
            i < old(self).storage@.len(),
        ensures
            final(self).wf(),
            final(self)@ == old(self)@.with_entries(
                old(self)@.entries.remove(old(self).storage@[i as int].key@),
            ),
    {
        proof {
            lemma_remove(self.storage@, i as int);
        }
        self.storage.remove(i);
    }

    /// Looks `key` up at instant `now`: a dead entry is evicted and reported missing; a live one
    /// is touched and a copy of it returned.
    pub fn get(&mut self, key: &[u8], now: u64) -> (r: Result<Value, CacheError>)
        requires
            old(self).wf(),
        ensures
            final(self).wf(),
            match (r, old(self)@.get_result(key@, now as nat)) {
                (Ok(v), Ok(w)) => v@ == w,
                (Err(e), Err(f)) => e == f,
                _ => false,
            },
            final(self)@ == old(self)@.after_get(key@, now as nat),
    {
        if key.len() as u64 > self.key_maxlen {
            return Err(CacheError::KeyTooLong);
        }
        let found = self.find(key);
        match found {
            None => {
                proof {
                    if self@.entries.contains_key(key@) {
                        assert(holds_key(self.storage@, key@));
                    }
                }
                Err(CacheError::KeyNotFound)
            },
            Some(i) => {
                proof {
                    lemma_entry_at(self.storage@, i as int);
                }
                if !self.value_is_alive(&self.storage[i].value, now) {
                    self.remove_at(i);
                    return Err(CacheError::KeyNotFound);
                }
                let ghost s0 = self.storage@;
                let mut e = self.storage.remove(i);
                e.value.touch(now);
                let out = e.value.copy();
                self.storage.insert(i, e);
                proof {
                    assert(self.storage@ =~= s0.update(i as int, e));
                    lemma_update(s0, i as int, e);
                }
                Ok(out)
            },
        }
    }

    /// True iff a `get` would succeed; evicts a dead entry as `get` does.
    pub fn contains_key(&mut self, key: &[u8], now: u64) -> (r: Result<bool, CacheError>)
        requires
            old(self).wf(),
        ensures
            final(self).wf(),
            match (r, old(self)@.get_result(key@, now as nat)) {
                (Ok(b), Ok(_)) => b,
                (Ok(b), Err(CacheError::KeyNotFound)) => !b,
                (Err(e), Err(f)) => e == f && e != CacheError::KeyNotFound,
                _ => false,
            },
            final(self)@ == old(self)@.after_get(key@, now as nat),
    {
        match self.get(key, now) {
            Ok(_) => Ok(true),
            Err(CacheError::KeyNotFound) => Ok(false),
            Err(e) => Err(e),
        }
    }

    /// Stores `value` under `key` at instant `now`, replacing any previous entry.
    pub fn set(&mut self, key: Vec<u8>, value: Value, now: u64) -> (r: Result<(), CacheError>)
        requires
            old(self).wf(),
        ensures
            final(self).wf(),
            r == old(self)@.set_result(key@, value@),
            final(self)@ == old(self)@.after_set(key@, value@, now as nat),
    {
        proof {
            self.lemma_wf();
        }
        if key.len() as u64 > self.key_maxlen {
            return Err(CacheError::KeyTooLong);
        }
        if value.len() as u64 > self.value_maxlen {
            return Err(CacheError::ValueTooLong);
        }
        let mut value = value;
        value.touch(now);
        let found = self.find(key.as_slice());
        match found {
            Some(i) => {
                proof {
                    lemma_entry_at(self.storage@, i as int);
                }
                let ghost s0 = self.storage@;
                let e = Entry { key, value };
                self.storage.set(i, e);
                proof {
                    lemma_update(s0, i as int, e);
                }
                Ok(())
            },
            None => {
                proof {
                    if self@.entries.contains_key(key@) {
                        assert(holds_key(self.storage@, key@));
                    }
                }
                if self.storage.len() as u64 == self.capacity {
                    return Err(CacheError::CapacityExceeded);
                }
                let ghost s0 = self.storage@;
                let e = Entry { key, value };
                self.storage.push(e);
                proof {
                    lemma_push(s0, e);
                }
                Ok(())
            },
        }
    }
}

} // verus!

verus! {

/// Applies a run of `set` operations, each a key, a value and the instant of the call.
pub open spec fn apply_sets(c: CacheView, ops: Seq<(Seq<u8>, ValueView, nat)>) -> CacheView
    decreases ops.len(),
{
    if ops.len() == 0 {
        c
    } else {
        let p = apply_sets(c, ops.drop_last());
        p.after_set(ops.last().0, ops.last().1, ops.last().2)
    }
}

proof fn lemma_sets_keep(c: CacheView, ops: Seq<(Seq<u8>, ValueView, nat)>, k: Seq<u8>)
    requires
        c.wf(),
        forall|j: int| 0 <= j < ops.len() ==> (#[trigger] ops[j]).0 != k,
    ensures
        apply_sets(c, ops).wf(),
        apply_sets(c, ops).entries.contains_key(k) == c.entries.contains_key(k),
        apply_sets(c, ops).entries[k] == c.entries[k],
        apply_sets(c, ops).item_lifetime == c.item_lifetime,
        apply_sets(c, ops).key_maxlen == c.key_maxlen,
    decreases ops.len(),
{
    if ops.len() > 0 {
        let p = ops.drop_last();
        assert forall|j: int| 0 <= j < p.len() implies (#[trigger] p[j]).0 != k by {
            assert(p[j] == ops[j]);
        }
        lemma_sets_keep(c, p, k);
        let q = apply_sets(c, p);
        assert(ops.last() == ops[ops.len() - 1]);
        lemma_set_wf(q, ops.last().0, ops.last().1, ops.last().2);
    }
}

proof fn lemma_sets_wf(c: CacheView, ops: Seq<(Seq<u8>, ValueView, nat)>)
    requires
        c.wf(),
    ensures
        apply_sets(c, ops).wf(),
        apply_sets(c, ops).item_lifetime == c.item_lifetime,
        apply_sets(c, ops).key_maxlen == c.key_maxlen,
    decreases ops.len(),
{
    if ops.len() > 0 {
        lemma_sets_wf(c, ops.drop_last());
        lemma_set_wf(apply_sets(c, ops.drop_last()), ops.last().0, ops.last().1, ops.last().2);
    }
}

proof fn lemma_set_wf(c: CacheView, k: Seq<u8>, v: ValueView, now: nat)
    requires
        c.wf(),
    ensures
        c.after_set(k, v, now).wf(),
        c.after_set(k, v, now).item_lifetime == c.item_lifetime,
        c.after_set(k, v, now).key_maxlen == c.key_maxlen,
{
    if c.set_result(k, v) is Ok && !c.entries.contains_key(k) {
        assert(c.entries.insert(k, v.touched(now)).dom() =~= c.entries.dom().insert(k));
    }
    if c.set_result(k, v) is Ok && c.entries.contains_key(k) {
        assert(c.entries.insert(k, v.touched(now)).dom() =~= c.entries.dom());
    }
}

/// After a run of `set` calls whose last call on key `k` succeeded with value `v` at instant
/// `t`, a `get` of `k` at an instant when that value is still alive returns its payload and
/// flags.
pub proof fn lemma_last_set_wins(
    c: CacheView,
    ops: Seq<(Seq<u8>, ValueView, nat)>,
    i: int,
    now: nat,
)
    requires
        c.wf(),
        0 <= i < ops.len(),
        apply_sets(c, ops.take(i)).set_result(ops[i].0, ops[i].1) is Ok,
        forall|j: int| i < j < ops.len() ==> (#[trigger] ops[j]).0 != ops[i].0,
        alive(ops[i].1.touched(ops[i].2), c.item_lifetime, now),
    ensures
        apply_sets(c, ops).get_result(ops[i].0, now) matches Ok(w) && w.data == ops[i].1.data
            && w.flags == ops[i].1.flags,
{
    let k = ops[i].0;
    let pre = ops.take(i);
    let upto = ops.take(i + 1);
    let rest = ops.skip(i + 1);
    lemma_sets_wf(c, pre);
    let q = apply_sets(c, pre);
    assert(upto.drop_last() =~= pre);
    assert(upto.last() == ops[i]);
    let mid = apply_sets(c, upto);
    lemma_set_wf(q, k, ops[i].1, ops[i].2);
    assert forall|j: int| 0 <= j < rest.len() implies (#[trigger] rest[j]).0 != k by {
        assert(rest[j] == ops[i + 1 + j]);
    }
    lemma_sets_keep(mid, rest, k);
    lemma_apply_split(c, ops, i + 1);
}

proof fn lemma_apply_split(c: CacheView, ops: Seq<(Seq<u8>, ValueView, nat)>, n: int)
    requires
        0 <= n <= ops.len(),
    ensures
        apply_sets(c, ops) == apply_sets(apply_sets(c, ops.take(n)), ops.skip(n)),
    decreases ops.len(),
{
    if ops.len() == n {
        assert(ops.take(n) =~= ops);
        assert(ops.skip(n).len() == 0);
    } else {
        let p = ops.drop_last();
        lemma_apply_split(c, p, n);
        assert(p.take(n) =~= ops.take(n));
        assert(ops.skip(n).drop_last() =~= p.skip(n));
        assert(ops.skip(n).last() == ops.last());
    }
}

/// `set` fails with `KeyTooLong` exactly when the key is over the limit, with `ValueTooLong`
/// exactly when the key fits and the payload is over its limit, and with `CapacityExceeded`
/// exactly when both fit, the key is new and the cache is full.
pub proof fn lemma_set_errors(c: CacheView, k: Seq<u8>, v: ValueView)
    requires
        c.wf(),
    ensures
        (c.set_result(k, v) == Err::<(), CacheError>(CacheError::KeyTooLong)) == (k.len()
            > c.key_maxlen),
        (c.set_result(k, v) == Err::<(), CacheError>(CacheError::ValueTooLong)) == (k.len()
            <= c.key_maxlen && v.data.len() > c.value_maxlen),
        (c.set_result(k, v) == Err::<(), CacheError>(CacheError::CapacityExceeded)) == (k.len()
            <= c.key_maxlen && v.data.len() <= c.value_maxlen && !c.entries.contains_key(k)
            && c.entries.len() == c.capacity),
{
}

/// A `get` that finds its key stored but dead fails with `KeyNotFound` and leaves one entry
/// fewer in the cache.
pub proof fn lemma_dead_get_shrinks(c: CacheView, k: Seq<u8>, now: nat)
    requires
        c.wf(),
        k.len() <= c.key_maxlen,
        c.entries.contains_key(k),
        !alive(c.entries[k], c.item_lifetime, now),
    ensures
        c.get_result(k, now) == Err::<ValueView, CacheError>(CacheError::KeyNotFound),
        c.after_get(k, now).wf(),
        c.after_get(k, now).entries.len() == c.entries.len() - 1,
{
}

} // verus!
