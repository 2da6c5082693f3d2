//! The ImageMagick host's own bookkeeping: the fingerprint that names the binary in use, the
//! share of the machine each pipeline takes, the measurements it remembers so that the same
//! command on the same unchanged files is not run twice, and the EXIF fields it reads back.
use crate::text::{
    find_char, find_from, hex_fixed, is_whitespace, is_whitespace_char, lemma_skip_back_bounds, lemma_skip_back_run,
    lemma_skip_from_bounds, lemma_skip_from_run, other_than, push_hex_fixed, push_str, skip_back, skip_from,
    whitespace_class,
};
use crate::words::{lines, lines_of};
use crate::texture::{fold_bytes, fold_hash, FNV_OFFSET, FNV_PRIME};
use crate::thumbnails::{fresh, same_text, Stamp};
use vstd::prelude::*;
use vstd::string::StringExecFns;

verus! {

/// How a cache of measurements has been doing.
#[derive(Clone, Copy, Debug, PartialEq, Eq, Structural)]
pub struct CacheStats {
    pub hits: usize,
    pub misses: usize,
    pub invalidations: usize,
}

impl Default for CacheStats {
    fn default() -> (stats: Self)
        ensures
            stats == (CacheStats { hits: 0, misses: 0, invalidations: 0 }),
    {
        CacheStats { hits: 0, misses: 0, invalidations: 0 }
    }
}

/// How many threads each of `workers` concurrent ImageMagick pipelines takes on a machine
/// with `cores` hardware threads: an equal share, and at least one.
pub fn thread_share(workers: usize, cores: usize) -> (threads: usize)
    ensures
        threads == if cores / (if workers < 1 { 1 } else { workers }) < 1 {
            1
        } else {
            cores / (if workers < 1 { 1 } else { workers })
        },
        threads >= 1,
        1 <= workers <= cores ==> workers * threads <= cores < workers * (threads + 1),
{
    proof {
        if 1 <= workers <= cores {
            vstd::arithmetic::div_mod::lemma_fundamental_div_mod(cores as int, workers as int);
            vstd::arithmetic::div_mod::lemma_div_pos_is_pos(cores as int, workers as int);
            let (c, w) = (cores as int, workers as int);
            assert(0 <= c % w < w);
            assert(w * (c / w + 1) == w * (c / w) + w) by (nonlinear_arith);
        }
    }
    let workers = if workers < 1 {
        1
    } else {
        workers
    };
    let share = cores / workers;
    if share < 1 {
        1
    } else {
        share
    }
}

/// The starting value of the fingerprint's second hash.
pub const SECOND_OFFSET: u64 = 0x8422_2325_cbf2_9ce4;

/// The prime of the fingerprint's second hash: the FNV prime with some of its low bits flipped.
pub const SECOND_PRIME: u64 = FNV_PRIME ^ 0x9e37;

/// The fingerprint of an ImageMagick binary: two 64-bit hashes of its bytes, one FNV-1a and
/// one from another start with another prime, in sixteen hexadecimal digits each.
pub open spec fn fingerprint_of(bytes: Seq<u8>) -> Seq<char> {
    "image-magick:"@ + hex_fixed(fold_hash(bytes, FNV_OFFSET, FNV_PRIME) as nat, 16) + hex_fixed(
        fold_hash(bytes, SECOND_OFFSET, SECOND_PRIME) as nat,
        16,
    )
}

/// Names the ImageMagick binary whose bytes these are, for the provenance a plan records.
pub fn fingerprint(bytes: &[u8]) -> (identity: String)
    ensures
        identity@ == fingerprint_of(bytes@),
{
    let first = fold_bytes(bytes, FNV_OFFSET, FNV_PRIME);
    let second = fold_bytes(bytes, SECOND_OFFSET, SECOND_PRIME);
    let mut identity = String::from_str("image-magick:");
    push_hex_fixed(&mut identity, first, 16);
    push_hex_fixed(&mut identity, second, 16);
    identity
}

/// How many measurements are kept before the expired ones are cleared out.
pub const CAPTURE_CACHE_LIMIT: usize = 8192;

/// What a command reported, with the state of every file it read and when it ran, on the
/// caller's monotonic clock in nanoseconds.
#[derive(Clone, Debug)]
pub struct Captured {
    pub sources: Vec<(String, Stamp)>,
    pub inserted: u128,
    pub value: String,
}

/// A command's arguments, each by its characters.
pub open spec fn args_view(args: Seq<String>) -> Seq<Seq<char>> {
    args.map_values(|arg: String| arg@)
}

/// The files a command read, each by its path and stamp.
pub open spec fn sources_view(sources: Seq<(String, Stamp)>) -> Seq<(Seq<char>, Stamp)> {
    sources.map_values(|source: (String, Stamp)| (source.0@, source.1))
}

/// The measurements still current at `now`.
pub open spec fn fresh_part(captures: Map<Seq<Seq<char>>, Captured>, now: u128, ttl: u128) -> Map<
    Seq<Seq<char>>,
    Captured,
> {
    Map::new(
        |key: Seq<Seq<char>>| captures.contains_key(key) && fresh(captures[key].inserted, now, ttl),
        |key: Seq<Seq<char>>| captures[key],
    )
}

/// What each command reported, by its arguments: one entry per command.
pub struct CaptureMemory {
    entries: Vec<(Vec<String>, Captured)>,
}

impl View for CaptureMemory {
    type V = Map<Seq<Seq<char>>, Captured>;

    closed spec fn view(&self) -> Map<Seq<Seq<char>>, Captured> {
        Map::new(
            |key: Seq<Seq<char>>|
                exists|i: int| 0 <= i < self.entries@.len() && args_view(self.entries@[i].0@) == key,
            |key: Seq<Seq<char>>|
                self.entries@[choose|i: int|
                    0 <= i < self.entries@.len() && args_view(self.entries@[i].0@) == key].1,
        )
    }
}

/// Whether two argument lists are the same, argument by argument.
fn same_args(first: &[String], second: &[String]) -> (same: bool)
    ensures
        same == (args_view(first@) == args_view(second@)),
{
    if first.len() != second.len() {
        proof {
            assert(args_view(first@).len() != args_view(second@).len());
        }
        return false;
    }
    let mut index: usize = 0;
    while index < first.len()
        invariant
            first@.len() == second@.len(),
            index <= first@.len(),
            forall|i: int| 0 <= i < index ==> first@[i]@ == second@[i]@,
        decreases first@.len() - index,
    {
        if !same_text(first[index].as_str(), second[index].as_str()) {
            proof {
                assert(args_view(first@)[index as int] != args_view(second@)[index as int]);
            }
            return false;
        }
        index = index + 1;
    }
    assert(args_view(first@) =~= args_view(second@));
    true
}

/// Whether two lists of read files are the same, file by file and stamp by stamp.
pub fn same_sources(first: &[(String, Stamp)], second: &[(String, Stamp)]) -> (same: bool)
    ensures
        same == (sources_view(first@) == sources_view(second@)),
{
    if first.len() != second.len() {
        proof {
            assert(sources_view(first@).len() != sources_view(second@).len());
        }
        return false;
    }
    let mut index: usize = 0;
    while index < first.len()
        invariant
            first@.len() == second@.len(),
            index <= first@.len(),
            forall|i: int| 0 <= i < index ==> first@[i].0@ == second@[i].0@ && first@[i].1 == second@[i].1,
        decreases first@.len() - index,
    {
        if !same_text(first[index].0.as_str(), second[index].0.as_str()) || first[index].1 != second[index].1 {
            proof {
                assert(sources_view(first@)[index as int] != sources_view(second@)[index as int]);
            }
            return false;
        }
        index = index + 1;
    }
    assert(sources_view(first@) =~= sources_view(second@));
    true
}

impl CaptureMemory {
    #[verifier::type_invariant]
    closed spec fn unique(self) -> bool {
        forall|i: int, j: int|
            0 <= i < j < self.entries@.len() ==> args_view(self.entries@[i].0@) != args_view(
                self.entries@[j].0@,
            )
    }

    proof fn lemma_entry(&self, i: int)
        requires
            self.unique(),
            0 <= i < self.entries@.len(),
        ensures
            self@.contains_key(args_view(self.entries@[i].0@)),
            self@[args_view(self.entries@[i].0@)] == self.entries@[i].1,
    {
        let key = args_view(self.entries@[i].0@);
        assert(self@.contains_key(key));
        let j = choose|j: int| 0 <= j < self.entries@.len() && args_view(self.entries@[j].0@) == key;
        if j != i {
            if j < i {
                assert(args_view(self.entries@[j].0@) != args_view(self.entries@[i].0@));
            } else {
                assert(args_view(self.entries@[i].0@) != args_view(self.entries@[j].0@));
            }
        }
    }

    proof fn lemma_count(&self)
        requires
            self.unique(),
        ensures
            self@.dom().finite(),
            self@.len() == self.entries@.len(),
    {
        let keys = self.entries@.map_values(|entry: (Vec<String>, Captured)| args_view(entry.0@));
        assert(self@.dom() =~= keys.to_set()) by {
            assert forall|key: Seq<Seq<char>>| self@.dom().contains(key) implies keys.to_set().contains(key) by {
                let i = choose|i: int| 0 <= i < self.entries@.len() && args_view(self.entries@[i].0@) == key;
                assert(keys[i] == key);
            }
            assert forall|key: Seq<Seq<char>>| keys.to_set().contains(key) implies self@.dom().contains(key) by {
                let i = choose|i: int| 0 <= i < keys.len() && keys[i] == key;
                assert(args_view(self.entries@[i].0@) == key);
            }
        }
        assert forall|a: int, b: int| 0 <= a < b < keys.len() implies keys[a] != keys[b] by {
            assert(args_view(self.entries@[a].0@) != args_view(self.entries@[b].0@));
        }
        keys.unique_seq_to_set();
        vstd::seq_lib::seq_to_set_is_finite(keys);
    }

    /// Nothing remembered.
    pub fn new() -> (memory: Self)
        ensures
            memory@ == Map::<Seq<Seq<char>>, Captured>::empty(),
    {
        let memory = CaptureMemory { entries: Vec::new() };
        assert(memory@ =~= Map::<Seq<Seq<char>>, Captured>::empty());
        memory
    }

    /// How many commands are remembered.
    pub fn len(&self) -> (count: usize)
        ensures
            count == self@.len(),
    {
        proof {
            use_type_invariant(self);
            self.lemma_count();
        }
        self.entries.len()
    }

    fn find(&self, args: &[String]) -> (found: Option<usize>)
        ensures
            match found {
                Some(i) => i < self.entries@.len() && args_view(self.entries@[i as int].0@) == args_view(args@),
                None => !self@.contains_key(args_view(args@)),
            },
    {
        let mut index: usize = 0;
        while index < self.entries.len()
            invariant
                index <= self.entries@.len(),
                forall|i: int| 0 <= i < index ==> args_view(self.entries@[i].0@) != args_view(args@),
            decreases self.entries@.len() - index,
        {
            if same_args(self.entries[index].0.as_slice(), args) {
                return Some(index);
            }
            index = index + 1;
        }
        None
    }

    /// What a command reported, if it is remembered.
    pub fn get(&self, args: &[String]) -> (found: Option<&Captured>)
        ensures
            match found {
                Some(captured) => self@.contains_key(args_view(args@)) && *captured == self@[args_view(args@)],
                None => !self@.contains_key(args_view(args@)),
            },
    {
        proof {
            use_type_invariant(self);
        }
        match self.find(args) {
            Some(i) => {
                proof {
                    self.lemma_entry(i as int);
                }
                Some(&self.entries[i].1)
            },
            None => None,
        }
    }

    /// Forgets every command.
    pub fn clear(&mut self)
        ensures
            final(self)@ == Map::<Seq<Seq<char>>, Captured>::empty(),
    {
        self.entries = Vec::new();
        assert(self@ =~= Map::<Seq<Seq<char>>, Captured>::empty());
    }
}

impl CaptureMemory {
    /// The memory `self` is, when its entries are those of `before` whose keys differ from
    /// `key` and one more for `key` itself, is `before` with that entry put in.
    proof fn lemma_map_after(&self, before: CaptureMemory, key: Seq<Seq<char>>, captured: Captured)
        requires
            self.unique(),
            before.unique(),
            exists|i: int|
                0 <= i < self.entries@.len() && args_view(self.entries@[i].0@) == key && self.entries@[i].1
                    == captured,
            forall|i: int|
                0 <= i < self.entries@.len() && args_view(self.entries@[i].0@) != key ==> exists|j: int|
                    0 <= j < before.entries@.len() && before.entries@[j] == self.entries@[i],
            forall|j: int|
                0 <= j < before.entries@.len() && args_view(before.entries@[j].0@) != key ==> exists|i: int|
                    0 <= i < self.entries@.len() && self.entries@[i] == before.entries@[j],
        ensures
            self@ == before@.insert(key, captured),
    {
        assert forall|k: Seq<Seq<char>>| #[trigger] self@.contains_key(k) == before@.insert(key, captured).contains_key(k) by {
            if k != key {
                if self@.contains_key(k) {
                    let i = choose|i: int| 0 <= i < self.entries@.len() && args_view(self.entries@[i].0@) == k;
                    let j = choose|j: int| 0 <= j < before.entries@.len() && before.entries@[j] == self.entries@[i];
                    assert(args_view(before.entries@[j].0@) == k);
                }
                if before@.contains_key(k) {
                    let j = choose|j: int| 0 <= j < before.entries@.len() && args_view(before.entries@[j].0@) == k;
                    let i = choose|i: int| 0 <= i < self.entries@.len() && self.entries@[i] == before.entries@[j];
                    assert(args_view(self.entries@[i].0@) == k);
                }
            } else {
                let i = choose|i: int|
                    0 <= i < self.entries@.len() && args_view(self.entries@[i].0@) == key && self.entries@[i].1 == captured;
                assert(args_view(self.entries@[i].0@) == k);
            }
        }
        assert forall|k: Seq<Seq<char>>| #[trigger] self@.contains_key(k) implies self@[k] == before@.insert(key, captured)[k] by {
            if k != key {
                let i = choose|i: int| 0 <= i < self.entries@.len() && args_view(self.entries@[i].0@) == k;
                let j = choose|j: int| 0 <= j < before.entries@.len() && before.entries@[j] == self.entries@[i];
                self.lemma_entry(i);
                before.lemma_entry(j);
            } else {
                let i = choose|i: int|
                    0 <= i < self.entries@.len() && args_view(self.entries@[i].0@) == key && self.entries@[i].1 == captured;
                self.lemma_entry(i);
            }
        }
        assert(self@ =~= before@.insert(key, captured));
    }

    /// Remembers what a command reported, in place of whatever was remembered of it before.
    pub fn insert(&mut self, args: Vec<String>, captured: Captured)
        ensures
            final(self)@ == old(self)@.insert(args_view(args@), captured),
    {
        proof {
            use_type_invariant(&*self);
        }
        let ghost before = *self;
        let ghost key = args_view(args@);
        let found = self.find(args.as_slice());
        let mut entries: Vec<(Vec<String>, Captured)> = Vec::new();
        std::mem::swap(&mut entries, &mut self.entries);
        match found {
            Some(i) => {
                entries.set(i, (args, captured));
                self.entries = entries;
                proof {
                    assert forall|a: int, b: int| 0 <= a < b < self.entries@.len() implies args_view(
                        self.entries@[a].0@,
                    ) != args_view(self.entries@[b].0@) by {
                        assert(args_view(before.entries@[a].0@) != args_view(before.entries@[b].0@));
                    }
                    assert(args_view(self.entries@[i as int].0@) == key && self.entries@[i as int].1 == captured);
                    assert forall|a: int|
                        0 <= a < self.entries@.len() && args_view(self.entries@[a].0@) != key implies exists|j: int|
                        0 <= j < before.entries@.len() && before.entries@[j] == self.entries@[a] by {
                        assert(before.entries@[a] == self.entries@[a]);
                    }
                    assert forall|j: int|
                        0 <= j < before.entries@.len() && args_view(before.entries@[j].0@) != key implies exists|a: int|
                        0 <= a < self.entries@.len() && self.entries@[a] == before.entries@[j] by {
                        assert(before.entries@[j] == self.entries@[j]);
                    }
                    self.lemma_map_after(before, key, captured);
                }
            },
            None => {
                entries.push((args, captured));
                self.entries = entries;
                proof {
                    assert forall|a: int, b: int| 0 <= a < b < self.entries@.len() implies args_view(
                        self.entries@[a].0@,
                    ) != args_view(self.entries@[b].0@) by {
                        if b < before.entries@.len() {
                            assert(args_view(before.entries@[a].0@) != args_view(before.entries@[b].0@));
                        } else {
                            before.lemma_entry(a);
                        }
                    }
                    let last = self.entries@.len() - 1;
                    assert(args_view(self.entries@[last].0@) == key && self.entries@[last].1 == captured);
                    assert forall|a: int|
                        0 <= a < self.entries@.len() && args_view(self.entries@[a].0@) != key implies exists|j: int|
                        0 <= j < before.entries@.len() && before.entries@[j] == self.entries@[a] by {
                        assert(before.entries@[a] == self.entries@[a]);
                    }
                    assert forall|j: int|
                        0 <= j < before.entries@.len() && args_view(before.entries@[j].0@) != key implies exists|a: int|
                        0 <= a < self.entries@.len() && self.entries@[a] == before.entries@[j] by {
                        assert(before.entries@[j] == self.entries@[j]);
                    }
                    self.lemma_map_after(before, key, captured);
                }
            },
        }
    }

    /// Forgets every command whose measurement is no longer current at `now`.
    pub fn retain_fresh(&mut self, now: u128, ttl: u128)
        ensures
            final(self)@ == fresh_part(old(self)@, now, ttl),
    {
        proof {
            use_type_invariant(&*self);
        }
        let ghost before = *self;
        let ghost all = before.entries@;
        let mut remaining: Vec<(Vec<String>, Captured)> = Vec::new();
        std::mem::swap(&mut remaining, &mut self.entries);
        let mut kept: Vec<(Vec<String>, Captured)> = Vec::new();
        while remaining.len() > 0
            invariant
                before.unique(),
                all == before.entries@,
                remaining@.len() <= all.len(),
                remaining@ == all.take(remaining@.len() as int),
                distinct_keys(kept@),
                forall|j: int| 0 <= j < kept@.len() ==> #[trigger] kept_from(all, remaining@.len() as int, kept@[j], now, ttl),
                forall|i: int|
                    remaining@.len() <= i < all.len() && fresh(#[trigger] all[i].1.inserted, now, ttl) ==> kept@.contains(all[i]),
            decreases remaining@.len(),
        {
            let ghost r: int = remaining@.len() - 1;
            let ghost old_remaining = remaining@;
            let entry = remaining.pop().unwrap();
            proof {
                assert(remaining@ =~= old_remaining.drop_last());
                assert(entry == old_remaining[r]);
                assert(old_remaining[r] == all[r]);
                assert(remaining@ =~= all.take(r));
            }
            let ghost old_kept = kept@;
            if is_fresh_at(entry.1.inserted, now, ttl) {
                kept.push(entry);
                proof {
                    assert forall|a: int, b: int| 0 <= a < b < kept@.len() implies args_view(kept@[a].0@) != args_view(
                        kept@[b].0@,
                    ) by {
                        if b == kept@.len() - 1 {
                            assert(kept_from(all, r + 1, old_kept[a], now, ttl));
                            let i = choose|i: int| r + 1 <= i < all.len() && all[i] == old_kept[a] && fresh(all[i].1.inserted, now, ttl);
                            assert(kept@[a] == old_kept[a]);
                            assert(args_view(all[r].0@) != args_view(all[i].0@));
                        } else {
                            assert(kept@[a] == old_kept[a] && kept@[b] == old_kept[b]);
                        }
                    }
                }
            }
            proof {
                assert forall|j: int| 0 <= j < kept@.len() implies #[trigger] kept_from(all, r, kept@[j], now, ttl) by {
                    if j < old_kept.len() {
                        assert(kept@[j] == old_kept[j]);
                        assert(kept_from(all, r + 1, old_kept[j], now, ttl));
                        let i = choose|i: int| r + 1 <= i < all.len() && all[i] == old_kept[j] && fresh(all[i].1.inserted, now, ttl);
                        assert(r <= i);
                    } else {
                        assert(kept@[j] == all[r]);
                    }
                }
                assert forall|i: int| r <= i < all.len() && fresh(#[trigger] all[i].1.inserted, now, ttl) implies kept@.contains(all[i]) by {
                    if i == r {
                        assert(kept@[kept@.len() - 1] == all[i]);
                    } else {
                        assert(old_kept.contains(all[i]));
                        let j = choose|j: int| 0 <= j < old_kept.len() && old_kept[j] == all[i];
                        assert(kept@[j] == old_kept[j]);
                    }
                }
            }
        }
        self.entries = kept;
        proof {
            self.lemma_retained(before, now, ttl);
        }
    }

    /// Entries that are, one for one, the entries of `before` still current at `now` make up
    /// the current part of `before`.
    proof fn lemma_retained(&self, before: CaptureMemory, now: u128, ttl: u128)
        requires
            before.unique(),
            distinct_keys(self.entries@),
            forall|j: int| 0 <= j < self.entries@.len() ==> #[trigger] kept_from(before.entries@, 0, self.entries@[j], now, ttl),
            forall|i: int|
                0 <= i < before.entries@.len() && fresh(#[trigger] before.entries@[i].1.inserted, now, ttl)
                    ==> self.entries@.contains(before.entries@[i]),
        ensures
            self.unique(),
            self@ == fresh_part(before@, now, ttl),
    {
        let all = before.entries@;
        assert forall|k: Seq<Seq<char>>| #[trigger] self@.contains_key(k) == fresh_part(before@, now, ttl).contains_key(k) by {
            if self@.contains_key(k) {
                let j = choose|j: int| 0 <= j < self.entries@.len() && args_view(self.entries@[j].0@) == k;
                assert(kept_from(all, 0, self.entries@[j], now, ttl));
                let i = choose|i: int| 0 <= i < all.len() && all[i] == self.entries@[j] && fresh(all[i].1.inserted, now, ttl);
                before.lemma_entry(i);
            }
            if fresh_part(before@, now, ttl).contains_key(k) {
                let i = choose|i: int| 0 <= i < all.len() && args_view(all[i].0@) == k;
                before.lemma_entry(i);
                let j = choose|j: int| 0 <= j < self.entries@.len() && self.entries@[j] == all[i];
                assert(args_view(self.entries@[j].0@) == k);
            }
        }
        assert forall|k: Seq<Seq<char>>| #[trigger] self@.contains_key(k) implies self@[k] == fresh_part(
            before@,
            now,
            ttl,
        )[k] by {
            let j = choose|j: int| 0 <= j < self.entries@.len() && args_view(self.entries@[j].0@) == k;
            assert(kept_from(all, 0, self.entries@[j], now, ttl));
            let i = choose|i: int| 0 <= i < all.len() && all[i] == self.entries@[j] && fresh(all[i].1.inserted, now, ttl);
            before.lemma_entry(i);
            self.lemma_entry(j);
        }
        assert(self@ =~= fresh_part(before@, now, ttl));
    }
}

/// Whether no two entries carry the same arguments.
pub open spec fn distinct_keys(entries: Seq<(Vec<String>, Captured)>) -> bool {
    forall|a: int, b: int| 0 <= a < b < entries.len() ==> args_view(entries[a].0@) != args_view(entries[b].0@)
}

/// Whether `entry` is one of the entries from position `from` on that are current at `now`.
pub open spec fn kept_from(
    entries: Seq<(Vec<String>, Captured)>,
    from: int,
    entry: (Vec<String>, Captured),
    now: u128,
    ttl: u128,
) -> bool {
    exists|i: int| from <= i < entries.len() && entries[i] == entry && fresh(entries[i].1.inserted, now, ttl)
}

fn is_fresh_at(inserted: u128, now: u128, ttl: u128) -> (fresh_now: bool)
    ensures
        fresh_now == fresh(inserted, now, ttl),
{
    now <= inserted || now - inserted <= ttl
}

/// What is left of the remembered measurements before one more is put in: all of them while
/// there is room; at the limit, only those still current; and nothing if even those fill it.
pub open spec fn pruned(captures: Map<Seq<Seq<char>>, Captured>, now: u128, ttl: u128) -> Map<
    Seq<Seq<char>>,
    Captured,
> {
    if captures.len() >= CAPTURE_CACHE_LIMIT {
        if fresh_part(captures, now, ttl).len() >= CAPTURE_CACHE_LIMIT {
            Map::empty()
        } else {
            fresh_part(captures, now, ttl)
        }
    } else {
        captures
    }
}

/// Whether a measurement remembered for a command can be given again: the command is
/// remembered, the files it read stand as they stood, and it is still current.
pub open spec fn capture_hit(
    captures: Map<Seq<Seq<char>>, Captured>,
    args: Seq<Seq<char>>,
    sources: Seq<(Seq<char>, Stamp)>,
    now: u128,
    ttl: u128,
) -> bool {
    &&& captures.contains_key(args)
    &&& sources_view(captures[args].sources@) == sources
    &&& fresh(captures[args].inserted, now, ttl)
}

/// The measurements a host remembers, and how well remembering them has served.
pub struct CaptureCache {
    pub captures: CaptureMemory,
    pub stats: CacheStats,
}

impl CaptureCache {
    /// Nothing remembered and nothing counted.
    pub fn new() -> (cache: Self)
        ensures
            cache.captures@ == Map::<Seq<Seq<char>>, Captured>::empty(),
            cache.stats == (CacheStats { hits: 0, misses: 0, invalidations: 0 }),
    {
        CaptureCache { captures: CaptureMemory::new(), stats: CacheStats::default() }
    }

    /// Looks a command up before it is run, given the files it reads as they stand now: what it
    /// reported is given again where it can be, counted as a hit; otherwise nothing is, counted
    /// as a miss, and as an invalidation too where the command was remembered.
    pub fn lookup(&mut self, args: &[String], sources: &[(String, Stamp)], now: u128, ttl: u128) -> (found: Option<
        String,
    >)
        requires
            old(self).stats.hits < usize::MAX,
            old(self).stats.misses < usize::MAX,
            old(self).stats.invalidations < usize::MAX,
        ensures
            final(self).captures@ == old(self).captures@,
            capture_hit(old(self).captures@, args_view(args@), sources_view(sources@), now, ttl) ==> {
                &&& found matches Some(value) && value@ == old(self).captures@[args_view(args@)].value@
                &&& final(self).stats == (CacheStats { hits: (old(self).stats.hits + 1) as usize, ..old(self).stats })
            },
            !capture_hit(old(self).captures@, args_view(args@), sources_view(sources@), now, ttl) ==> {
                &&& found is None
                &&& final(self).stats.hits == old(self).stats.hits
                &&& final(self).stats.misses == old(self).stats.misses + 1
                &&& final(self).stats.invalidations == old(self).stats.invalidations + if old(self).captures@.contains_key(
                    args_view(args@),
                ) {
                    1int
                } else {
                    0
                }
            },
    {
        match self.captures.get(args) {
            Some(cached) => {
                if same_sources(cached.sources.as_slice(), sources) && is_fresh_at(cached.inserted, now, ttl) {
                    let value = cached.value.clone();
                    self.stats.hits = self.stats.hits + 1;
                    return Some(value);
                }
                self.stats.invalidations = self.stats.invalidations + 1;
            },
            None => {},
        }
        self.stats.misses = self.stats.misses + 1;
        None
    }

    /// Remembers what a command reported, given the files it read and the time it ran; at the
    /// limit the measurements no longer current are cleared out first, and all of them if that
    /// is not enough.
    pub fn store(&mut self, args: Vec<String>, sources: Vec<(String, Stamp)>, now: u128, ttl: u128, value: String)
        ensures
            final(self).captures@ == pruned(old(self).captures@, now, ttl).insert(
                args_view(args@),
                Captured { sources, inserted: now, value },
            ),
            final(self).stats == old(self).stats,
    {
        if self.captures.len() >= CAPTURE_CACHE_LIMIT {
            self.captures.retain_fresh(now, ttl);
            if self.captures.len() >= CAPTURE_CACHE_LIMIT {
                self.captures.clear();
            }
        }
        self.captures.insert(args, Captured { sources, inserted: now, value });
    }
}

impl CaptureCache {
    /// Decides, before a command runs, whether what it reported before can be given again. A
    /// command that reads no file has nothing to notice a change in: it is always run, and
    /// nothing is counted. Any other is looked up as [`CaptureCache::lookup`] does.
    pub fn reuse(&mut self, args: &[String], sources: &[(String, Stamp)], now: u128, ttl: u128) -> (found: Option<
        String,
    >)
        requires
            old(self).stats.hits < usize::MAX,
            old(self).stats.misses < usize::MAX,
            old(self).stats.invalidations < usize::MAX,
        ensures
            final(self).captures@ == old(self).captures@,
            sources@.len() == 0 ==> found is None && final(self).stats == old(self).stats,
            sources@.len() > 0 && capture_hit(old(self).captures@, args_view(args@), sources_view(sources@), now, ttl)
                ==> {
                &&& found matches Some(value) && value@ == old(self).captures@[args_view(args@)].value@
                &&& final(self).stats == (CacheStats { hits: (old(self).stats.hits + 1) as usize, ..old(self).stats })
            },
            sources@.len() > 0 && !capture_hit(old(self).captures@, args_view(args@), sources_view(sources@), now, ttl)
                ==> {
                &&& found is None
                &&& final(self).stats.hits == old(self).stats.hits
                &&& final(self).stats.misses == old(self).stats.misses + 1
                &&& final(self).stats.invalidations == old(self).stats.invalidations + if old(self).captures@.contains_key(
                    args_view(args@),
                ) {
                    1int
                } else {
                    0
                }
            },
    {
        if sources.len() == 0 {
            return None;
        }
        self.lookup(args, sources, now, ttl)
    }

    /// Remembers what a command that was run reported, unless it reads no file.
    pub fn remember_output(
        &mut self,
        args: Vec<String>,
        sources: Vec<(String, Stamp)>,
        now: u128,
        ttl: u128,
        value: String,
    )
        ensures
            sources@.len() == 0 ==> final(self).captures@ == old(self).captures@,
            sources@.len() > 0 ==> final(self).captures@ == pruned(old(self).captures@, now, ttl).insert(
                args_view(args@),
                Captured { sources, inserted: now, value },
            ),
            final(self).stats == old(self).stats,
    {
        if sources.len() == 0 {
            return;
        }
        self.store(args, sources, now, ttl, value);
    }
}

/// What is stored is what a lookup gives back: a command looked up with the files it was
/// stored with, no later than the time to live after, is a hit on exactly that measurement.
pub proof fn lemma_stored_capture_is_found(
    captures: Map<Seq<Seq<char>>, Captured>,
    args: Seq<Seq<char>>,
    captured: Captured,
    now: u128,
    later: u128,
    ttl: u128,
)
    requires
        captured.inserted == now,
        fresh(now, later, ttl),
    ensures
        capture_hit(
            pruned(captures, now, ttl).insert(args, captured),
            args,
            sources_view(captured.sources@),
            later,
            ttl,
        ),
        pruned(captures, now, ttl).insert(args, captured)[args] == captured,
{
}

/// Storing a measurement never lets the memory grow past its limit. While there is room it
/// forgets nothing else; at the limit it forgets every measurement that is no longer current,
/// and keeps each current one unless the current ones alone fill it.
pub proof fn lemma_stored_captures_stay_within_the_limit(
    captures: Map<Seq<Seq<char>>, Captured>,
    args: Seq<Seq<char>>,
    captured: Captured,
    now: u128,
    ttl: u128,
)
    requires
        captures.dom().finite(),
    ensures
        pruned(captures, now, ttl).insert(args, captured).dom().finite(),
        pruned(captures, now, ttl).insert(args, captured).len() <= CAPTURE_CACHE_LIMIT,
        captures.len() < CAPTURE_CACHE_LIMIT ==> forall|key: Seq<Seq<char>>|
            #[trigger] captures.contains_key(key) && key != args ==> pruned(captures, now, ttl).insert(
                args,
                captured,
            ).contains_key(key) && pruned(captures, now, ttl).insert(args, captured)[key] == captures[key],
        captures.len() >= CAPTURE_CACHE_LIMIT ==> forall|key: Seq<Seq<char>>|
            #[trigger] pruned(captures, now, ttl).contains_key(key) ==> captures.contains_key(key) && fresh(
                captures[key].inserted,
                now,
                ttl,
            ),
        captures.len() >= CAPTURE_CACHE_LIMIT && fresh_part(captures, now, ttl).len() < CAPTURE_CACHE_LIMIT
            ==> forall|key: Seq<Seq<char>>|
            #[trigger] captures.contains_key(key) && fresh(captures[key].inserted, now, ttl) ==> pruned(
                captures,
                now,
                ttl,
            ).contains_key(key) && pruned(captures, now, ttl)[key] == captures[key],
{
    let current = fresh_part(captures, now, ttl);
    assert(current.dom().subset_of(captures.dom()));
    vstd::set_lib::lemma_len_subset(current.dom(), captures.dom());
    let kept = pruned(captures, now, ttl);
    assert(kept.dom().finite());
    if kept.dom().contains(args) {
        assert(kept.insert(args, captured).dom() =~= kept.dom());
    } else {
        assert(kept.insert(args, captured).dom() =~= kept.dom().insert(args));
    }
    if captures.len() >= CAPTURE_CACHE_LIMIT && current.len() >= CAPTURE_CACHE_LIMIT {
        assert(kept.dom() =~= Set::<Seq<Seq<char>>>::empty());
    }
}

/// `str::trim`: the text without the whitespace at either end.
pub open spec fn trimmed(text: Seq<char>) -> Seq<char> {
    let start = skip_from(text, 0, whitespace_class());
    let end = skip_back(text, text.len() as int, whitespace_class());
    if start < end {
        text.subrange(start, end)
    } else {
        Seq::empty()
    }
}

/// `str::trim_start_matches("exif:")`: the key without every `exif:` in front of it.
pub open spec fn without_exif(key: Seq<char>) -> Seq<char>
    decreases key.len(),
{
    if key.len() >= 5 && key.take(5) == "exif:"@ {
        without_exif(key.skip(5))
    } else {
        key
    }
}

/// What one line of `identify -format "%[EXIF:*]"` names: a line with an `=` gives the
/// metadata key `image.exif.` and the tag before it, and the value after it, both trimmed.
pub open spec fn exif_field(line: Seq<char>) -> Option<(Seq<char>, Seq<char>)> {
    let equals = find_from(line, '=', 0);
    if equals < line.len() {
        Some(("image.exif."@ + without_exif(trimmed(line.take(equals))), trimmed(line.skip(equals + 1))))
    } else {
        None
    }
}

/// The fields of the lines, in order, for the lines that hold one.
pub open spec fn exif_fields_of(lines: Seq<Seq<char>>) -> Seq<(Seq<char>, Seq<char>)>
    decreases lines.len(),
{
    if lines.len() == 0 {
        Seq::empty()
    } else {
        let before = exif_fields_of(lines.drop_last());
        match exif_field(lines.last()) {
            Some(field) => before.push(field),
            None => before,
        }
    }
}

fn trim_chars(chars: &Vec<char>, from: usize, to: usize) -> (text: Vec<char>)
    requires
        from <= to <= chars@.len(),
    ensures
        text@ == trimmed(chars@.subrange(from as int, to as int)),
{
    let ghost part = chars@.subrange(from as int, to as int);
    let mut start = from;
    while start < to && is_whitespace_char(chars[start])
        invariant
            from <= start <= to <= chars@.len(),
            part == chars@.subrange(from as int, to as int),
            forall|i: int| from <= i < start ==> is_whitespace(chars@[i]),
        decreases to - start,
    {
        start = start + 1;
    }
    let mut end = to;
    while end > start && is_whitespace_char(chars[end - 1])
        invariant
            from <= start <= end <= to <= chars@.len(),
            part == chars@.subrange(from as int, to as int),
            forall|i: int| end <= i < to ==> is_whitespace(chars@[i]),
        decreases end,
    {
        end = end - 1;
    }
    proof {
        lemma_skip_from_run(part, 0, start - from, whitespace_class());
        if start < end {
            lemma_skip_back_run(part, end - from, part.len() as int, whitespace_class());
            assert(part.subrange(start - from, end - from) =~= chars@.subrange(start as int, end as int));
        } else {
            lemma_skip_back_bounds(part, part.len() as int, whitespace_class());
            if skip_back(part, part.len() as int, whitespace_class()) > start - from {
                let b = skip_back(part, part.len() as int, whitespace_class());
                assert(!is_whitespace(part[b - 1]));
                assert(part[b - 1] == chars@[from + b - 1]);
            }
        }
    }
    crate::words::slice_chars(chars, start, end)
}

fn strip_exif(key: Vec<char>) -> (stripped: Vec<char>)
    ensures
        stripped@ == without_exif(key@),
{
    let mut from: usize = 0;
    assert(key@.skip(0) =~= key@);
    while 5 <= key.len() - from && key[from] == 'e' && key[from + 1] == 'x' && key[from + 2] == 'i'
        && key[from + 3] == 'f' && key[from + 4] == ':'
        invariant
            from <= key@.len(),
            without_exif(key@.skip(from as int)) == without_exif(key@),
        decreases key@.len() - from,
    {
        proof {
            reveal_strlit("exif:");
            assert(key@.skip(from as int).take(5) =~= "exif:"@);
            assert(key@.skip(from as int).skip(5) =~= key@.skip(from + 5));
        }
        from = from + 5;
    }
    proof {
        reveal_strlit("exif:");
        let rest = key@.skip(from as int);
        if rest.len() >= 5 && rest.take(5) == "exif:"@ {
            assert(rest.take(5)[0] == 'e' && rest.take(5)[1] == 'x' && rest.take(5)[2] == 'i'
                && rest.take(5)[3] == 'f' && rest.take(5)[4] == ':');
            assert(key@[from as int] == rest[0]);
            assert(key@[from + 1] == rest[1]);
            assert(key@[from + 2] == rest[2]);
            assert(key@[from + 3] == rest[3]);
            assert(key@[from + 4] == rest[4]);
        }
    }
    crate::words::slice_chars(&key, from, key.len())
}

fn text_of(chars: &Vec<char>) -> (text: String)
    ensures
        text@ == chars@,
{
    let text = crate::text::string_of(chars, 0, chars.len());
    assert(chars@.subrange(0, chars@.len() as int) =~= chars@);
    text
}

/// The EXIF fields `identify -format "%[EXIF:*]"` printed, as metadata keys and values, in the
/// order of its lines.
pub fn exif_fields(output: &str) -> (fields: Vec<(String, String)>)
    ensures
        fields@.map_values(|field: (String, String)| (field.0@, field.1@)) == exif_fields_of(lines_of(output@)),
{
    let found = lines(output);
    let ghost all = found@.map_values(|line: Vec<char>| line@);
    let mut fields: Vec<(String, String)> = Vec::new();
    let mut index: usize = 0;
    while index < found.len()
        invariant
            index <= found@.len(),
            all == found@.map_values(|line: Vec<char>| line@),
            all == lines_of(output@),
            fields@.map_values(|field: (String, String)| (field.0@, field.1@)) == exif_fields_of(all.take(index as int)),
        decreases found@.len() - index,
    {
        let line = &found[index];
        let equals = find_char(line, '=', 0);
        let ghost taken = all.take(index + 1);
        proof {
            assert(taken.drop_last() =~= all.take(index as int));
            assert(taken.last() == line@);
            lemma_skip_from_bounds(line@, 0, other_than('='));
        }
        if equals < line.len() {
            let tag = trim_chars(line, 0, equals);
            let key_part = strip_exif(tag);
            let mut key = String::from_str("image.exif.");
            let key_text = text_of(&key_part);
            crate::text::push_str(&mut key, key_text.as_str());
            let value_chars = trim_chars(line, equals + 1, line.len());
            let value = text_of(&value_chars);
            proof {
                assert(line@.subrange(0, equals as int) =~= line@.take(equals as int));
                assert(line@.subrange(equals + 1, line@.len() as int) =~= line@.skip(equals + 1));
            }
            let ghost before = fields@.map_values(|field: (String, String)| (field.0@, field.1@));
            fields.push((key, value));
            assert(fields@.map_values(|field: (String, String)| (field.0@, field.1@)) =~= before.push(
                exif_field(line@).unwrap(),
            ));
        }
        index = index + 1;
    }
    assert(all.take(found@.len() as int) =~= all);
    fields
}

} // verus!
