//! A byte-bounded least-recently-used cache of synthesized WAV files.
use vstd::prelude::*;
use vstd::slice::slice_to_vec;

verus! {

/// One cached entry as the contracts see it: the text and its audio.
pub type Entry = (Seq<char>, Seq<u8>);

/// The audio stored for `key`, looking from the most recently used end.
pub open spec fn lookup(order: Seq<Entry>, key: Seq<char>) -> Option<Seq<u8>>
    decreases order.len(),
{
    if order.len() == 0 {
        None
    } else if order.last().0 == key {
        Some(order.last().1)
    } else {
        lookup(order.drop_last(), key)
    }
}

/// `order` without the entry for `key`.
pub open spec fn without_key(order: Seq<Entry>, key: Seq<char>) -> Seq<Entry>
    decreases order.len(),
{
    if order.len() == 0 {
        order
    } else if order.last().0 == key {
        without_key(order.drop_last(), key)
    } else {
        without_key(order.drop_last(), key).push(order.last())
    }
}

/// The entry for `key` moved to (or placed at) the most recently used end.
pub open spec fn touched(order: Seq<Entry>, key: Seq<char>, wav: Seq<u8>) -> Seq<Entry> {
    without_key(order, key).push((key, wav))
}

/// The number of audio bytes held by `order`.
pub open spec fn total_bytes(order: Seq<Entry>) -> nat
    decreases order.len(),
{
    if order.len() == 0 {
        0
    } else {
        total_bytes(order.drop_last()) + order.last().1.len()
    }
}

/// Drops least recently used entries until both limits hold.
pub open spec fn evict(order: Seq<Entry>, max_entries: nat, max_bytes: nat) -> Seq<Entry>
    decreases order.len(),
{
    if order.len() > 0 && (order.len() > max_entries || total_bytes(order) > max_bytes) {
        evict(order.drop_first(), max_entries, max_bytes)
    } else {
        order
    }
}

/// Whether an audio of `len` bytes is stored at all under these limits.
pub open spec fn fits(len: nat, max_entries: nat, max_bytes: nat) -> bool {
    max_entries != 0 && max_bytes != 0 && len <= max_bytes
}

/// The entries after storing `wav` for `key`.
pub open spec fn inserted(
    order: Seq<Entry>,
    key: Seq<char>,
    wav: Seq<u8>,
    max_entries: nat,
    max_bytes: nat,
) -> Seq<Entry> {
    if fits(wav.len(), max_entries, max_bytes) {
        evict(touched(order, key, wav), max_entries, max_bytes)
    } else {
        order
    }
}

/// The entries after looking up `key`: a hit becomes the most recently used.
pub open spec fn after_get(order: Seq<Entry>, key: Seq<char>) -> Seq<Entry> {
    match lookup(order, key) {
        Some(wav) => touched(order, key, wav),
        None => order,
    }
}

/// No text occurs twice.
pub open spec fn distinct_keys(order: Seq<Entry>) -> bool {
    forall|i: int, j: int| 0 <= i < j < order.len() ==> #[trigger] order[i].0 != #[trigger] order[j].0
}

/// The eviction loop as it runs before the new entry `(key, wav)` is appended:
/// drops the oldest entries while the new entry would break a limit.
spec fn evict_before(rest: Seq<Entry>, new_len: nat, max_entries: nat, max_bytes: nat) -> Seq<Entry>
    decreases rest.len(),
{
    if rest.len() > 0 && (rest.len() + 1 > max_entries || total_bytes(rest) + new_len > max_bytes) {
        evict_before(rest.drop_first(), new_len, max_entries, max_bytes)
    } else {
        rest
    }
}

struct CachedAudio {
    text: String,
    wav: Vec<u8>,
}

/// A byte-bounded least-recently-used cache of synthesized WAV files.
pub struct AudioCache {
    /// Least recently used first.
    entries: Vec<CachedAudio>,
    max_entries: usize,
    max_bytes: usize,
    total_bytes: usize,
}

impl View for AudioCache {
    type V = Seq<Entry>;

    /// The entries, least recently used first.
    closed spec fn view(&self) -> Seq<Entry> {
        self.entries@.map_values(|e: CachedAudio| (e.text@, e.wav@))
    }
}

impl AudioCache {
    /// The most entries the cache holds.
    pub closed spec fn entry_limit(&self) -> nat {
        self.max_entries as nat
    }

    /// The most audio bytes the cache holds.
    pub closed spec fn byte_limit(&self) -> nat {
        self.max_bytes as nat
    }

    /// The cache's internal invariant.
    pub closed spec fn wf(&self) -> bool {
        &&& distinct_keys(self@)
        &&& self.total_bytes == total_bytes(self@)
        &&& self@.len() <= self.max_entries
        &&& total_bytes(self@) <= self.max_bytes
    }
}


impl AudioCache {
    /// An empty cache that holds at most `max_entries` entries and `max_bytes` bytes of audio.
    pub fn new(max_entries: usize, max_bytes: usize) -> (cache: Self)
        ensures
            cache.wf(),
            cache@ == Seq::<Entry>::empty(),
            cache.entry_limit() == max_entries,
            cache.byte_limit() == max_bytes,
    {
        let cache = AudioCache { entries: Vec::new(), max_entries, max_bytes, total_bytes: 0 };
        assert(cache@ =~= Seq::<Entry>::empty());
        cache
    }

    /// Where the entry for `key` stands, if there is one.
    fn position(&self, key: &String) -> (found: Option<usize>)
        ensures
            match found {
                Some(i) => i < self@.len() && self@[i as int].0 == key@,
                None => forall|j: int| 0 <= j < self@.len() ==> self@[j].0 != key@,
            },
    {
        let mut i: usize = 0;
        while i < self.entries.len()
            invariant
                i <= self.entries.len(),
                self@.len() == self.entries@.len(),
                forall|j: int| 0 <= j < i ==> self@[j].0 != key@,
            decreases self.entries.len() - i,
        {
            if self.entries[i].text == *key {
                return Some(i);
            }
            i += 1;
        }
        None
    }

    /// The audio cached for `text`; a hit becomes the most recently used entry.
    pub fn get(&mut self, text: &str) -> (wav: Option<Vec<u8>>)
        requires
            old(self).wf(),
        ensures
            final(self).wf(),
            final(self).entry_limit() == old(self).entry_limit(),
            final(self).byte_limit() == old(self).byte_limit(),
            match wav {
                Some(w) => lookup(old(self)@, text@) == Some(w@),
                None => lookup(old(self)@, text@) is None,
            },
            final(self)@ == after_get(old(self)@, text@),
            wav is None ==> final(self)@ == old(self)@,
    {
        let key = text.to_owned();
        match self.position(&key) {
            Some(i) => {
                let ghost before = self@;
                proof {
                    lemma_lookup_at(before, key@, i as int);
                    lemma_distinct_remove(before, i as int);
                    lemma_total_bytes_remove(before, i as int);
                    lemma_total_bytes_push(before.remove(i as int), before[i as int]);
                    lemma_distinct_push(before.remove(i as int), before[i as int]);
                }
                let entry = self.entries.remove(i);
                let wav = slice_to_vec(entry.wav.as_slice());
                self.entries.push(entry);
                assert(self@ =~= before.remove(i as int).push(before[i as int]));
                Some(wav)
            },
            None => {
                proof {
                    lemma_lookup_absent(self@, key@);
                }
                None
            },
        }
    }

    /// Stores `wav` for `text` as the most recently used entry, then drops the
    /// least recently used entries until both limits hold again. Audio that
    /// could never fit is not stored.
    pub fn insert(&mut self, text: &str, wav: &[u8])
        requires
            old(self).wf(),
        ensures
            final(self).wf(),
            final(self).entry_limit() == old(self).entry_limit(),
            final(self).byte_limit() == old(self).byte_limit(),
            final(self)@ == inserted(
                old(self)@,
                text@,
                wav@,
                old(self).entry_limit(),
                old(self).byte_limit(),
            ),
    {
        if self.max_entries == 0 || self.max_bytes == 0 || wav.len() > self.max_bytes {
            return;
        }
        let key = text.to_owned();
        let ghost start = self@;
        match self.position(&key) {
            Some(i) => {
                proof {
                    lemma_lookup_at(start, key@, i as int);
                    lemma_distinct_remove(start, i as int);
                    lemma_total_bytes_remove(start, i as int);
                }
                let previous = self.entries.remove(i);
                self.total_bytes = self.total_bytes - previous.wav.len();
                assert(self@ =~= start.remove(i as int));
            },
            None => {
                proof {
                    lemma_lookup_absent(start, key@);
                }
            },
        }
        let ghost rest = self@;
        assert(rest == without_key(start, key@));
        while self.entries.len() >= self.max_entries || self.total_bytes > self.max_bytes
            - wav.len()
            invariant
                self.max_entries == old(self).max_entries,
                self.max_bytes == old(self).max_bytes,
                self.max_entries >= 1,
                wav@.len() <= self.max_bytes,
                distinct_keys(self@),
                forall|j: int| 0 <= j < self@.len() ==> self@[j].0 != key@,
                self.total_bytes == total_bytes(self@),
                total_bytes(self@) <= self.max_bytes,
                evict_before(self@, wav@.len(), self.max_entries as nat, self.max_bytes as nat)
                    == evict_before(rest, wav@.len(), self.max_entries as nat, self.max_bytes as nat),
            decreases self.entries.len(),
        {
            let ghost before = self@;
            assert(before.len() > 0);
            proof {
                lemma_distinct_remove(before, 0);
                lemma_total_bytes_remove(before, 0);
            }
            let oldest = self.entries.remove(0);
            self.total_bytes = self.total_bytes - oldest.wav.len();
            assert(self@ =~= before.remove(0));
            assert(before.remove(0) =~= before.drop_first());
            assert forall|j: int| 0 <= j < self@.len() implies self@[j].0 != key@ by {
                assert(self@[j] == before[j + 1]);
            }
        }
        let ghost kept = self@;
        let entry = CachedAudio { text: key, wav: slice_to_vec(wav) };
        proof {
            lemma_evict_before(rest, (key@, wav@), self.max_entries as nat, self.max_bytes as nat);
            lemma_distinct_push(kept, (key@, wav@));
            lemma_total_bytes_push(kept, (key@, wav@));
        }
        self.entries.push(entry);
        self.total_bytes = self.total_bytes + wav.len();
        assert(self@ =~= kept.push((key@, wav@)));
    }
}

// ---------------------------------------------------------------------------
// Laws
// ---------------------------------------------------------------------------

/// A cache never holds more entries or more audio bytes than its limits, and
/// never holds two entries for one text.
pub proof fn lemma_cache_within_limits(cache: &AudioCache)
    requires
        cache.wf(),
    ensures
        cache@.len() <= cache.entry_limit(),
        total_bytes(cache@) <= cache.byte_limit(),
        distinct_keys(cache@),
{
}

/// Audio that fits the limits is found again right after it is stored.
pub proof fn lemma_get_after_insert(
    order: Seq<Entry>,
    key: Seq<char>,
    wav: Seq<u8>,
    max_entries: nat,
    max_bytes: nat,
)
    requires
        fits(wav.len(), max_entries, max_bytes),
    ensures
        lookup(inserted(order, key, wav, max_entries, max_bytes), key) == Some(wav),
{
    lemma_evict_before(without_key(order, key), (key, wav), max_entries, max_bytes);
}

/// Storing audio evicts only the least recently used entries: what remains of
/// the other entries is a suffix of them in their old order, followed by the
/// new entry. Audio that could never fit leaves the cache as it was.
pub proof fn lemma_insert_evicts_least_recent(
    order: Seq<Entry>,
    key: Seq<char>,
    wav: Seq<u8>,
    max_entries: nat,
    max_bytes: nat,
)
    ensures
        fits(wav.len(), max_entries, max_bytes) ==> exists|n: int|
            0 <= n <= without_key(order, key).len() && inserted(
                order,
                key,
                wav,
                max_entries,
                max_bytes,
            ) == #[trigger] without_key(order, key).skip(n).push((key, wav)),
        !fits(wav.len(), max_entries, max_bytes) ==> inserted(
            order,
            key,
            wav,
            max_entries,
            max_bytes,
        ) == order,
{
    if fits(wav.len(), max_entries, max_bytes) {
        let rest = without_key(order, key);
        lemma_evict_before(rest, (key, wav), max_entries, max_bytes);
        lemma_evict_before_suffix(rest, wav.len(), max_entries, max_bytes);
        let n = choose|n: int|
            0 <= n <= rest.len() && #[trigger] rest.skip(n) == evict_before(
                rest,
                wav.len(),
                max_entries,
                max_bytes,
            );
        assert(inserted(order, key, wav, max_entries, max_bytes) == rest.skip(n).push((key, wav)));
    }
}

/// Storing audio that fits evicts as little as it can: what is kept is the new
/// entry after a suffix of the other entries, both limits hold, and giving back
/// the last entry that was evicted would break a limit.
pub proof fn lemma_insert_evicts_minimally(
    order: Seq<Entry>,
    key: Seq<char>,
    wav: Seq<u8>,
    max_entries: nat,
    max_bytes: nat,
)
    requires
        max_entries != 0,
        max_bytes != 0,
        wav.len() <= max_bytes,
    ensures
        exists|n: int|
            {
                &&& 0 <= n <= without_key(order, key).len()
                &&& #[trigger] inserted(order, key, wav, max_entries, max_bytes) == without_key(
                    order,
                    key,
                ).skip(n).push((key, wav))
                &&& without_key(order, key).skip(n).len() + 1 <= max_entries
                &&& total_bytes(without_key(order, key).skip(n)) + wav.len() <= max_bytes
                &&& n > 0 ==> (without_key(order, key).skip(n - 1).len() + 1 > max_entries
                    || total_bytes(without_key(order, key).skip(n - 1)) + wav.len() > max_bytes)
            },
{
    let rest = without_key(order, key);
    lemma_evict_before(rest, (key, wav), max_entries, max_bytes);
    lemma_evict_before_minimal(rest, wav.len(), max_entries, max_bytes);
    let n = choose|n: int|
        {
            &&& 0 <= n <= rest.len()
            &&& #[trigger] rest.skip(n) == evict_before(rest, wav.len(), max_entries, max_bytes)
            &&& (rest.skip(n).len() == 0 || !(rest.skip(n).len() + 1 > max_entries || total_bytes(
                rest.skip(n),
            ) + wav.len() > max_bytes))
            &&& n > 0 ==> (rest.skip(n - 1).len() + 1 > max_entries || total_bytes(rest.skip(n - 1))
                + wav.len() > max_bytes)
        };
    if rest.skip(n).len() == 0 {
        assert(total_bytes(rest.skip(n)) == 0);
    }
    assert(inserted(order, key, wav, max_entries, max_bytes) == rest.skip(n).push((key, wav)));
}

/// The eviction loop stops at the first suffix that leaves room, or when nothing is left.
proof fn lemma_evict_before_minimal(rest: Seq<Entry>, new_len: nat, max_entries: nat, max_bytes: nat)
    ensures
        exists|n: int|
            {
                &&& 0 <= n <= rest.len()
                &&& #[trigger] rest.skip(n) == evict_before(rest, new_len, max_entries, max_bytes)
                &&& (rest.skip(n).len() == 0 || !(rest.skip(n).len() + 1 > max_entries
                    || total_bytes(rest.skip(n)) + new_len > max_bytes))
                &&& n > 0 ==> (rest.skip(n - 1).len() + 1 > max_entries || total_bytes(
                    rest.skip(n - 1),
                ) + new_len > max_bytes)
            },
    decreases rest.len(),
{
    if rest.len() > 0 && (rest.len() + 1 > max_entries || total_bytes(rest) + new_len > max_bytes) {
        let d = rest.drop_first();
        lemma_evict_before_minimal(d, new_len, max_entries, max_bytes);
        let m = choose|m: int|
            {
                &&& 0 <= m <= d.len()
                &&& #[trigger] d.skip(m) == evict_before(d, new_len, max_entries, max_bytes)
                &&& (d.skip(m).len() == 0 || !(d.skip(m).len() + 1 > max_entries || total_bytes(
                    d.skip(m),
                ) + new_len > max_bytes))
                &&& m > 0 ==> (d.skip(m - 1).len() + 1 > max_entries || total_bytes(d.skip(m - 1))
                    + new_len > max_bytes)
            };
        assert(rest.skip(m + 1) =~= d.skip(m));
        if m > 0 {
            assert(rest.skip(m) =~= d.skip(m - 1));
        } else {
            assert(rest.skip(0) =~= rest);
        }
    } else {
        assert(rest.skip(0) =~= rest);
    }
}

/// A lookup that misses changes nothing; a lookup that hits keeps the same
/// entries and moves the one found to the most recently used end.
pub proof fn lemma_get_miss_changes_nothing(order: Seq<Entry>, key: Seq<char>)
    ensures
        lookup(order, key) is None ==> after_get(order, key) == order,
{
}

/// `lookup` gives the audio of the entry stored for the text, and nothing when
/// no entry is stored for it.
pub proof fn lemma_lookup_finds_entry(order: Seq<Entry>, key: Seq<char>)
    requires
        distinct_keys(order),
    ensures
        forall|i: int| 0 <= i < order.len() && #[trigger] order[i].0 == key ==> lookup(order, key)
            == Some(order[i].1),
        (forall|i: int| 0 <= i < order.len() ==> #[trigger] order[i].0 != key) ==> lookup(
            order,
            key,
        ) is None,
{
    assert forall|i: int| 0 <= i < order.len() && #[trigger] order[i].0 == key implies lookup(
        order,
        key,
    ) == Some(order[i].1) by {
        lemma_lookup_at(order, key, i);
    }
    if forall|i: int| 0 <= i < order.len() ==> #[trigger] order[i].0 != key {
        lemma_lookup_absent(order, key);
    }
}

/// A cache hit returns the stored audio and makes that entry the most recently
/// used one, keeping every other entry in its order.
pub proof fn lemma_get_promotes(order: Seq<Entry>, key: Seq<char>)
    requires
        lookup(order, key) is Some,
    ensures
        after_get(order, key).last() == (key, lookup(order, key)->0),
        after_get(order, key).drop_last() == without_key(order, key),
{
    let w = lookup(order, key)->0;
    assert(after_get(order, key) == without_key(order, key).push((key, w)));
    assert(without_key(order, key).push((key, w)).drop_last() =~= without_key(order, key));
}

// ---------------------------------------------------------------------------
// Lemmas
// ---------------------------------------------------------------------------

proof fn lemma_total_bytes_remove(s: Seq<Entry>, i: int)
    requires
        0 <= i < s.len(),
    ensures
        total_bytes(s.remove(i)) + s[i].1.len() == total_bytes(s),
    decreases s.len(),
{
    if i == s.len() - 1 {
        assert(s.remove(i) =~= s.drop_last());
    } else {
        let d = s.drop_last();
        lemma_total_bytes_remove(d, i);
        assert(s.remove(i) =~= d.remove(i).push(s.last()));
        assert(s.remove(i).drop_last() =~= d.remove(i));
    }
}

proof fn lemma_total_bytes_push(s: Seq<Entry>, e: Entry)
    ensures
        total_bytes(s.push(e)) == total_bytes(s) + e.1.len(),
{
    assert(s.push(e).drop_last() =~= s);
}

/// In a cache without repeated texts, the entry found at `i` is the one `lookup`
/// gives, and dropping it is dropping index `i`.
proof fn lemma_lookup_at(order: Seq<Entry>, key: Seq<char>, i: int)
    requires
        distinct_keys(order),
        0 <= i < order.len(),
        order[i].0 == key,
    ensures
        lookup(order, key) == Some(order[i].1),
        without_key(order, key) == order.remove(i),
    decreases order.len(),
{
    let d = order.drop_last();
    if i == order.len() - 1 {
        assert forall|j: int| 0 <= j < d.len() implies d[j].0 != key by {
            assert(order[j].0 != order[i].0);
        }
        lemma_lookup_absent(d, key);
        assert(order.remove(i) =~= d);
    } else {
        assert(order.last().0 != key) by {
            assert(order[i].0 != order[order.len() - 1].0);
        }
        assert(distinct_keys(d)) by {
            assert forall|a: int, b: int| 0 <= a < b < d.len() implies #[trigger] d[a].0
                != #[trigger] d[b].0 by {
                assert(order[a].0 != order[b].0);
            }
        }
        lemma_lookup_at(d, key, i);
        assert(order.remove(i) =~= d.remove(i).push(order.last()));
    }
}

/// Without an entry for `key`, `lookup` finds nothing and dropping `key` changes nothing.
proof fn lemma_lookup_absent(order: Seq<Entry>, key: Seq<char>)
    requires
        forall|j: int| 0 <= j < order.len() ==> order[j].0 != key,
    ensures
        lookup(order, key) is None,
        without_key(order, key) == order,
    decreases order.len(),
{
    if order.len() > 0 {
        let d = order.drop_last();
        assert(order.last().0 != key);
        assert forall|j: int| 0 <= j < d.len() implies d[j].0 != key by {
            assert(d[j] == order[j]);
        }
        lemma_lookup_absent(d, key);
        assert(d.push(order.last()) =~= order);
    }
}

proof fn lemma_distinct_remove(order: Seq<Entry>, i: int)
    requires
        distinct_keys(order),
        0 <= i < order.len(),
    ensures
        distinct_keys(order.remove(i)),
        forall|j: int| 0 <= j < order.remove(i).len() ==> order.remove(i)[j].0 != order[i].0,
{
    let r = order.remove(i);
    assert forall|a: int, b: int| 0 <= a < b < r.len() implies #[trigger] r[a].0
        != #[trigger] r[b].0 by {
        let oa = if a < i { a } else { a + 1 };
        let ob = if b < i { b } else { b + 1 };
        assert(r[a] == order[oa]);
        assert(r[b] == order[ob]);
        assert(order[oa].0 != order[ob].0);
    }
    assert forall|j: int| 0 <= j < r.len() implies r[j].0 != order[i].0 by {
        let oj = if j < i { j } else { j + 1 };
        assert(r[j] == order[oj]);
        if oj < i {
            assert(order[oj].0 != order[i].0);
        } else {
            assert(order[i].0 != order[oj].0);
        }
    }
}

proof fn lemma_distinct_push(order: Seq<Entry>, e: Entry)
    requires
        distinct_keys(order),
        forall|j: int| 0 <= j < order.len() ==> order[j].0 != e.0,
    ensures
        distinct_keys(order.push(e)),
{
    let p = order.push(e);
    assert forall|a: int, b: int| 0 <= a < b < p.len() implies #[trigger] p[a].0
        != #[trigger] p[b].0 by {
        assert(p[a] == order[a]);
        if b < order.len() {
            assert(p[b] == order[b]);
        }
    }
}

/// Evicting with the new entry already appended drops the same entries as the
/// eviction loop that runs before appending it.
proof fn lemma_evict_before(rest: Seq<Entry>, e: Entry, max_entries: nat, max_bytes: nat)
    requires
        max_entries >= 1,
        e.1.len() <= max_bytes,
    ensures
        evict(rest.push(e), max_entries, max_bytes) == evict_before(
            rest,
            e.1.len(),
            max_entries,
            max_bytes,
        ).push(e),
    decreases rest.len(),
{
    lemma_total_bytes_push(rest, e);
    if rest.len() > 0 && (rest.len() + 1 > max_entries || total_bytes(rest) + e.1.len()
        > max_bytes) {
        let d = rest.drop_first();
        assert(rest.push(e).drop_first() =~= d.push(e));
        lemma_evict_before(d, e, max_entries, max_bytes);
    } else if rest.len() == 0 {
        assert(total_bytes(rest) == 0);
    }
}

/// The eviction loop keeps a suffix of what it starts with.
proof fn lemma_evict_before_suffix(rest: Seq<Entry>, new_len: nat, max_entries: nat, max_bytes: nat)
    ensures
        exists|n: int|
            0 <= n <= rest.len() && #[trigger] rest.skip(n) == evict_before(
                rest,
                new_len,
                max_entries,
                max_bytes,
            ),
    decreases rest.len(),
{
    if rest.len() > 0 && (rest.len() + 1 > max_entries || total_bytes(rest) + new_len
        > max_bytes) {
        let d = rest.drop_first();
        lemma_evict_before_suffix(d, new_len, max_entries, max_bytes);
        let n = choose|n: int|
            0 <= n <= d.len() && #[trigger] d.skip(n) == evict_before(
                d,
                new_len,
                max_entries,
                max_bytes,
            );
        assert(rest.skip(n + 1) =~= d.skip(n));
    } else {
        assert(rest.skip(0) =~= rest);
    }
}

} // verus!
