//! A hashed set of rule keys `(exception, domain, options)`, indexed through a
//! `HashMap` keyed by a 64-bit digest of the key. vstd specifies `HashMap` lookups for keys
//! whose hashing it models, such as integers, and not for `String` keys, so the keys are
//! digested to `u64` and compared character by character within a bucket.
use std::collections::HashMap;
use vstd::prelude::*;

verus! {

broadcast use vstd::std_specs::hash::group_hash_axioms;

/// The modulus of the key digest; a digest stays below it.
pub const DIGEST_MODULUS: u64 = 4294967291;

/// The digest of `s`, continued from the running value `h`.
pub open spec fn fold_digest(h: nat, s: Seq<char>) -> nat
    decreases s.len(),
{
    if s.len() == 0 {
        h
    } else {
        fold_digest((h * 31 + (s[0] as u32) as nat) % (DIGEST_MODULUS as nat), s.drop_first())
    }
}

/// The digest of a key: the exception flag, then the domain, then the options.
pub open spec fn key_digest(k: (bool, Seq<char>, Seq<char>)) -> u64 {
    let h0: nat = if k.0 { 1 } else { 2 };
    let h1 = fold_digest(h0, k.1);
    (fold_digest((h1 * 31 + 46) % (DIGEST_MODULUS as nat), k.2) % (DIGEST_MODULUS as nat)) as u64
}

proof fn lemma_fold_digest_bound(h: nat, s: Seq<char>)
    requires
        h < DIGEST_MODULUS,
    ensures
        fold_digest(h, s) < DIGEST_MODULUS,
    decreases s.len(),
{
    if s.len() > 0 {
        lemma_fold_digest_bound((h * 31 + (s[0] as u32) as nat) % (DIGEST_MODULUS as nat), s.drop_first());
    }
}

/// `fold_digest(h, s[from..])`.
fn digest_from(h: u64, s: &Vec<char>, from: usize) -> (res: u64)
    requires
        h < DIGEST_MODULUS,
        from <= s@.len(),
    ensures
        res == fold_digest(h as nat, s@.skip(from as int)),
        res < DIGEST_MODULUS,
{
    let mut acc: u64 = h;
    let mut i: usize = from;
    let n = s.len();
    proof {
        lemma_fold_digest_bound(h as nat, s@.skip(from as int));
    }
    while i < n
        invariant
            from <= i <= n == s@.len(),
            acc < DIGEST_MODULUS,
            fold_digest(acc as nat, s@.skip(i as int)) == fold_digest(h as nat, s@.skip(from as int)),
        decreases n - i,
    {
        let c = s[i];
        assert(s@.skip(i as int).drop_first() =~= s@.skip(i + 1));
        assert(s@.skip(i as int)[0] == c);
        acc = (acc * 31 + (c as u32) as u64) % DIGEST_MODULUS;
        i = i + 1;
    }
    assert(s@.skip(n as int).len() == 0);
    acc
}

/// One stored key.
struct Entry {
    exception: bool,
    domain: Vec<char>,
    suffix: Vec<char>,
}

impl Entry {
    spec fn key(&self) -> (bool, Seq<char>, Seq<char>) {
        (self.exception, self.domain@, self.suffix@)
    }
}

/// The keys of the entries.
spec fn keys_of(entries: Seq<Entry>) -> Set<(bool, Seq<char>, Seq<char>)> {
    Set::new(|k: (bool, Seq<char>, Seq<char>)| exists|i: int| 0 <= i < entries.len() && #[trigger] entries[i].key() == k)
}

/// Every entry is listed in the bucket of its digest, and every bucket lists only
/// entries of its digest.
spec fn index_wf(entries: Seq<Entry>, buckets: Map<u64, Vec<usize>>) -> bool {
    &&& forall|i: int| 0 <= i < entries.len() ==> {
        let h = key_digest(#[trigger] entries[i].key());
        &&& buckets.contains_key(h)
        &&& buckets[h]@.contains(i as usize)
    }
    &&& forall|h: u64, j: int| #![trigger buckets[h]@[j]]
        buckets.contains_key(h) && 0 <= j < buckets[h]@.len() ==> {
            &&& buckets[h]@[j] < entries.len()
            &&& key_digest(entries[buckets[h]@[j] as int].key()) == h
        }
}

/// Appending an entry and listing it at the end of its bucket keeps the index
/// consistent and adds its key.
proof fn lemma_index_push(
    entries: Seq<Entry>,
    buckets: Map<u64, Vec<usize>>,
    e: Entry,
    new_bucket: Vec<usize>,
)
    requires
        index_wf(entries, buckets),
        entries.len() <= usize::MAX,
        new_bucket@ == (if buckets.contains_key(key_digest(e.key())) {
            buckets[key_digest(e.key())]@
        } else {
            Seq::<usize>::empty()
        }).push(entries.len() as usize),
    ensures
        index_wf(entries.push(e), buckets.insert(key_digest(e.key()), new_bucket)),
        keys_of(entries.push(e)) == keys_of(entries).insert(e.key()),
{
    let h = key_digest(e.key());
    let idx = entries.len() as int;
    let ne = entries.push(e);
    let nb = buckets.insert(h, new_bucket);
    let old_len = new_bucket@.len() - 1;
    assert forall|i: int| 0 <= i < ne.len() implies {
        let hi = key_digest(#[trigger] ne[i].key());
        &&& nb.contains_key(hi)
        &&& nb[hi]@.contains(i as usize)
    } by {
        let hi = key_digest(ne[i].key());
        if i == idx {
            assert(nb[hi]@[old_len] == idx as usize);
        } else {
            assert(ne[i] == entries[i]);
            assert(buckets.contains_key(hi));
            assert(buckets[hi]@.contains(i as usize));
            if hi == h {
                let w = choose|w: int| 0 <= w < buckets[hi]@.len() && buckets[hi]@[w] == i as usize;
                assert(nb[hi]@[w] == i as usize);
            }
        }
    }
    assert forall|hh: u64, j: int| #![trigger nb[hh]@[j]]
        nb.contains_key(hh) && 0 <= j < nb[hh]@.len() implies {
            &&& nb[hh]@[j] < ne.len()
            &&& key_digest(ne[nb[hh]@[j] as int].key()) == hh
        } by {
        if hh == h {
            if j < old_len {
                assert(buckets.contains_key(h));
                assert(nb[hh]@[j] == buckets[h]@[j]);
            }
        } else {
            assert(nb[hh] == buckets[hh]);
        }
    }
    assert forall|kk: (bool, Seq<char>, Seq<char>)| keys_of(ne).contains(kk) == keys_of(entries).insert(e.key()).contains(kk) by {
        if keys_of(ne).contains(kk) {
            let i = choose|i: int| 0 <= i < ne.len() && #[trigger] ne[i].key() == kk;
            if i < idx {
                assert(entries[i].key() == kk);
            }
        }
        if keys_of(entries).contains(kk) {
            let i = choose|i: int| 0 <= i < entries.len() && #[trigger] entries[i].key() == kk;
            assert(ne[i].key() == kk);
        }
        if kk == e.key() {
            assert(ne[idx].key() == kk);
        }
    }
    assert(keys_of(ne) =~= keys_of(entries).insert(e.key()));
}

/// A set of keys `(exception, domain, options)`.
pub struct KeySet {
    entries: Vec<Entry>,
    buckets: HashMap<u64, Vec<usize>>,
}

impl KeySet {
    /// The keys held.
    pub closed spec fn keys(&self) -> Set<(bool, Seq<char>, Seq<char>)> {
        keys_of(self.entries@)
    }

    /// The index is consistent.
    pub closed spec fn wf(&self) -> bool {
        index_wf(self.entries@, self.buckets@)
    }

    /// An empty set.
    pub fn new() -> (res: KeySet)
        ensures
            res.wf(),
            res.keys() == Set::<(bool, Seq<char>, Seq<char>)>::empty(),
    {
        let res = KeySet { entries: Vec::new(), buckets: HashMap::new() };
        assert(res.keys() =~= Set::<(bool, Seq<char>, Seq<char>)>::empty());
        res
    }

    /// The digest of `(exception, domain[from..], suffix)`.
    fn digest(exception: bool, domain: &Vec<char>, from: usize, suffix: &Vec<char>) -> (res: u64)
        requires
            from <= domain@.len(),
        ensures
            res == key_digest((exception, domain@.skip(from as int), suffix@)),
    {
        let h0: u64 = if exception { 1 } else { 2 };
        let h1 = digest_from(h0, domain, from);
        let h2 = (h1 * 31 + 46) % DIGEST_MODULUS;
        let h3 = digest_from(h2, suffix, 0);
        assert(suffix@.skip(0) =~= suffix@);
        h3
    }

    /// `a == b[from..]`.
    fn chars_eq(a: &Vec<char>, b: &Vec<char>, from: usize) -> (res: bool)
        requires
            from <= b@.len(),
        ensures
            res == (a@ == b@.skip(from as int)),
    {
        let n = a.len();
        let bl = b.len();
        if bl - from != n {
            return false;
        }
        let mut i: usize = 0;
        while i < n
            invariant
                i <= n == a@.len(),
                from + n == bl,
                bl == b@.len(),
                forall|j: int| 0 <= j < i ==> a@[j] == b@[from + j],
            decreases n - i,
        {
            if a[i] != b[from + i] {
                assert(b@.skip(from as int)[i as int] == b@[from + i]);
                return false;
            }
            i = i + 1;
        }
        assert(a@ =~= b@.skip(from as int));
        true
    }

    /// Whether `(exception, domain[from..], suffix)` is held.
    pub fn contains(&self, exception: bool, domain: &Vec<char>, from: usize, suffix: &Vec<char>) -> (res: bool)
        requires
            self.wf(),
            from <= domain@.len(),
        ensures
            res == self.keys().contains((exception, domain@.skip(from as int), suffix@)),
    {
        let ghost k = (exception, domain@.skip(from as int), suffix@);
        let h = Self::digest(exception, domain, from, suffix);
        match self.buckets.get(&h) {
            None => {
                proof {
                    assert(!self.buckets@.contains_key(h));
                    if self.keys().contains(k) {
                        let i = choose|i: int| 0 <= i < self.entries@.len() && #[trigger] self.entries@[i].key() == k;
                        assert(self.buckets@.contains_key(key_digest(self.entries@[i].key())));
                    }
                    assert(!self.keys().contains(k));
                }
                false
            },
            Some(bucket) => {
                assert(self.buckets@.contains_key(h));
                assert(self.buckets@[h] == *bucket);
                let m = bucket.len();
                let mut j: usize = 0;
                while j < m
                    invariant
                        self.wf(),
                        j <= m == bucket@.len(),
                        self.buckets@.contains_key(h),
                        self.buckets@[h] == *bucket,
                        h == key_digest(k),
                        from <= domain@.len(),
                        k == (exception, domain@.skip(from as int), suffix@),
                        forall|q: int| 0 <= q < j ==> self.entries@[#[trigger] bucket@[q] as int].key() != k,
                    decreases m - j,
                {
                    let idx = bucket[j];
                    assert(self.buckets@[h]@[j as int] == idx);
                    let e = &self.entries[idx];
                    if e.exception == exception && Self::chars_eq(&e.suffix, suffix, 0)
                        && Self::chars_eq(&e.domain, domain, from) {
                        proof {
                            assert(suffix@.skip(0) =~= suffix@);
                            assert(self.entries@[idx as int].key() == k);
                            assert(self.keys().contains(k));
                        }
                        return true;
                    }
                    proof {
                        assert(suffix@.skip(0) =~= suffix@);
                    }
                    j = j + 1;
                }
                proof {
                    // the number of entries fits in `usize`, so an entry's index does too
                    assert(self.entries.len() == self.entries@.len());
                    if self.keys().contains(k) {
                        let i = choose|i: int| 0 <= i < self.entries@.len() && #[trigger] self.entries@[i].key() == k;
                        assert(self.buckets@[h]@.contains(i as usize));
                        let q = choose|q: int| 0 <= q < bucket@.len() && bucket@[q] == i as usize;
                        assert(self.entries@[bucket@[q] as int].key() != k);
                    }
                    assert(!self.keys().contains(k));
                }
                false
            },
        }
    }

    /// Adds `(exception, domain[from..], suffix)`.
    pub fn insert(&mut self, exception: bool, domain: &Vec<char>, from: usize, suffix: &Vec<char>)
        requires
            old(self).wf(),
            from <= domain@.len(),
        ensures
            final(self).wf(),
            final(self).keys() == old(self).keys().insert((exception, domain@.skip(from as int), suffix@)),
    {
        let ghost k = (exception, domain@.skip(from as int), suffix@);
        if self.contains(exception, domain, from, suffix) {
            assert(self.keys().insert(k) =~= self.keys());
            return;
        }
        let h = Self::digest(exception, domain, from, suffix);
        let mut d: Vec<char> = Vec::new();
        let n = domain.len();
        let mut i: usize = from;
        while i < n
            invariant
                from <= i <= n == domain@.len(),
                d@ == domain@.subrange(from as int, i as int),
            decreases n - i,
        {
            d.push(domain[i]);
            i = i + 1;
        }
        let mut s: Vec<char> = Vec::new();
        let m = suffix.len();
        let mut q: usize = 0;
        while q < m
            invariant
                q <= m == suffix@.len(),
                s@ == suffix@.take(q as int),
            decreases m - q,
        {
            s.push(suffix[q]);
            q = q + 1;
        }
        assert(s@ =~= suffix@);
        assert(d@ =~= domain@.skip(from as int));
        let ghost old_entries = self.entries@;
        let ghost old_buckets = self.buckets@;
        let idx = self.entries.len();
        let entry = Entry { exception, domain: d, suffix: s };
        assert(entry.key() == k);
        let mut bucket = match self.buckets.remove(&h) {
            Some(b) => b,
            None => Vec::new(),
        };
        bucket.push(idx);
        proof {
            lemma_index_push(old_entries, old_buckets, entry, bucket);
            assert(old_buckets.remove(h).insert(h, bucket) =~= old_buckets.insert(h, bucket));
        }
        self.entries.push(entry);
        self.buckets.insert(h, bucket);
    }
}

} // verus!
