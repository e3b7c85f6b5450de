use vstd::prelude::*;
use crate::config::RoutingConfig;
use crate::id::Id;
use crate::transport::TransportSender;

verus! {

/// The index of the first occurrence of `id` in `s`, or the length of `s`
/// if there is none.
pub open spec fn position(s: Seq<Id>, id: Id) -> int
    decreases s.len(),
{
    if s.len() == 0 {
        0
    } else if s[0] == id {
        0
    } else {
        1 + position(s.drop_first(), id)
    }
}

/// `position` is the index before which `id` does not occur and at which,
/// if it is an index, `id` stands.
pub proof fn lemma_position(s: Seq<Id>, id: Id, i: int)
    requires
        0 <= i <= s.len(),
        forall|j: int| 0 <= j < i ==> s[j] != id,
        i < s.len() ==> s[i] == id,
    ensures
        position(s, id) == i,
    decreases s.len(),
{
    if s.len() > 0 && i > 0 {
        assert(s[0] != id);
        lemma_position(s.drop_first(), id, i - 1);
    }
}

/// What `position` returns, for any sequence.
pub proof fn lemma_position_bounds(s: Seq<Id>, id: Id)
    ensures
        0 <= position(s, id) <= s.len(),
        position(s, id) < s.len() <==> s.contains(id),
        position(s, id) < s.len() ==> s[position(s, id)] == id,
        forall|j: int| 0 <= j < position(s, id) ==> s[j] != id,
    decreases s.len(),
{
    if s.len() > 0 && s[0] != id {
        let t = s.drop_first();
        lemma_position_bounds(t, id);
        assert forall|j: int| 0 <= j < position(s, id) implies s[j] != id by {
            if j > 0 {
                assert(s[j] == t[j - 1]);
            }
        }
        if t.contains(id) {
            let w = choose|w: int| 0 <= w < t.len() && t[w] == id;
            assert(s[w + 1] == id);
        }
        if s.contains(id) {
            let w = choose|w: int| 0 <= w < s.len() && s[w] == id;
            assert(t[w - 1] == id);
        }
        if position(s, id) < s.len() {
            assert(s[position(s, id)] == t[position(t, id)]);
        }
    } else if s.len() > 0 {
        assert(s[0] == id);
    }
}

/// The entries of a bucket after `id` was seen: moved to the back if it is
/// among them.
pub open spec fn refreshed(entries: Seq<Id>, id: Id) -> Seq<Id> {
    let i = position(entries, id);
    if i < entries.len() {
        entries.remove(i).push(id)
    } else {
        entries
    }
}

/// Where an identifier offered to a bucket ends up.
#[derive(Clone, Copy, Debug, PartialEq, Eq, Structural)]
pub enum Placement {
    /// It was in the bucket already: nothing changes.
    Present,
    /// It joins the entries.
    Routed,
    /// It joins the replacements, and the entries are to be pinged.
    Cached,
    /// Entries and replacements are full: nothing changes.
    Refused,
}

/// Where `id` ends up when offered to a bucket with the given entries and
/// replacements, of at most `k` entries and `r` replacements.
pub open spec fn placement(entries: Seq<Id>, cache: Seq<Id>, id: Id, k: int, r: int) -> Placement {
    if entries.contains(id) || cache.contains(id) {
        Placement::Present
    } else if entries.len() < k {
        Placement::Routed
    } else if cache.len() < r {
        Placement::Cached
    } else {
        Placement::Refused
    }
}

/// Entries and replacements of a bucket after `id` was offered to it.
pub open spec fn after_insert(entries: Seq<Id>, cache: Seq<Id>, id: Id, k: int, r: int) -> (
    Seq<Id>,
    Seq<Id>,
) {
    match placement(entries, cache, id, k, r) {
        Placement::Routed => (entries.push(id), cache),
        Placement::Cached => (entries, cache.push(id)),
        _ => (entries, cache),
    }
}

/// Entries and replacements of a bucket after `id` was taken out: a
/// removed entry is made up for by the oldest replacement.
pub open spec fn after_remove(entries: Seq<Id>, cache: Seq<Id>, id: Id) -> (Seq<Id>, Seq<Id>) {
    let i = position(entries, id);
    let j = position(cache, id);
    if i < entries.len() {
        if cache.len() > 0 {
            (entries.remove(i).push(cache[0]), cache.remove(0))
        } else {
            (entries.remove(i), cache)
        }
    } else if j < cache.len() {
        (entries, cache.remove(j))
    } else {
        (entries, cache)
    }
}

/// One slot of the routing table: the identifiers routed through, least
/// recently seen first, and those kept aside to replace them.
#[derive(Debug)]
pub struct KBucket {
    pub entries: Vec<Id>,
    pub replacement_cache: Vec<Id>,
}

fn find(v: &Vec<Id>, id: Id) -> (r: usize)
    ensures
        r == position(v@, id),
        r <= v@.len(),
        r < v@.len() <==> v@.contains(id),
        r < v@.len() ==> v@[r as int] == id,
{
    let mut i: usize = 0;
    while i < v.len()
        invariant
            i <= v@.len(),
            forall|j: int| 0 <= j < i ==> v@[j] != id,
        decreases v@.len() - i,
    {
        if v[i] == id {
            proof {
                lemma_position(v@, id, i as int);
                lemma_position_bounds(v@, id);
            }
            return i;
        }
        i += 1;
    }
    proof {
        lemma_position(v@, id, i as int);
        lemma_position_bounds(v@, id);
    }
    i
}

impl KBucket {
    /// Entries and replacements, one after the other.
    pub open spec fn all(&self) -> Seq<Id> {
        self.entries@ + self.replacement_cache@
    }

    /// No identifier occurs twice in the bucket.
    pub open spec fn wf(&self) -> bool {
        self.all().no_duplicates()
    }

    /// The bucket holds no more than the settings allow.
    pub open spec fn fits(&self, config: &RoutingConfig) -> bool {
        &&& self.entries@.len() <= config.bucket_size
        &&& self.replacement_cache@.len() <= config.bucket_replacement_size
    }

    /// Whether `id` is an entry or a replacement.
    pub open spec fn spec_has(&self, id: Id) -> bool {
        self.entries@.contains(id) || self.replacement_cache@.contains(id)
    }

    /// An empty bucket.
    pub fn new() -> (r: KBucket)
        ensures
            r.entries@.len() == 0,
            r.replacement_cache@.len() == 0,
            r.wf(),
    {
        KBucket { entries: Vec::new(), replacement_cache: Vec::new() }
    }

    /// Notes that `id` was seen: if it is an entry it becomes the most
    /// recently seen one. Returns whether it is an entry.
    pub fn refresh_node(&mut self, id: Id) -> (r: bool)
        ensures
            r == old(self).entries@.contains(id),
            final(self).entries@ == refreshed(old(self).entries@, id),
            final(self).replacement_cache@ == old(self).replacement_cache@,
            old(self).wf() ==> final(self).wf(),
    {
        let i = find(&self.entries, id);
        proof {
            lemma_refresh_keeps(old(self).entries@, old(self).replacement_cache@, id);
        }
        if i < self.entries.len() {
            let x = self.entries.remove(i);
            self.entries.push(x);
            true
        } else {
            false
        }
    }

    /// Whether `id` is an entry or a replacement.
    pub fn has(&self, id: Id) -> (r: bool)
        ensures
            r == self.spec_has(id),
    {
        find(&self.entries, id) < self.entries.len() || find(&self.replacement_cache, id)
            < self.replacement_cache.len()
    }

    /// Offers `id` to the bucket and says where it ended up.
    pub fn place(&mut self, id: Id, config: &RoutingConfig) -> (r: Placement)
        ensures
            r == placement(
                old(self).entries@,
                old(self).replacement_cache@,
                id,
                config.bucket_size as int,
                config.bucket_replacement_size as int,
            ),
            (final(self).entries@, final(self).replacement_cache@) == after_insert(
                old(self).entries@,
                old(self).replacement_cache@,
                id,
                config.bucket_size as int,
                config.bucket_replacement_size as int,
            ),
            old(self).wf() ==> final(self).wf(),
            old(self).fits(config) ==> final(self).fits(config),
    {
        proof {
            lemma_insert_keeps(
                old(self).entries@,
                old(self).replacement_cache@,
                id,
                config.bucket_size as int,
                config.bucket_replacement_size as int,
            );
        }
        if self.has(id) {
            return Placement::Present;
        }
        if self.entries.len() < config.bucket_size {
            self.entries.push(id);
            return Placement::Routed;
        }
        if self.replacement_cache.len() < config.bucket_replacement_size {
            self.replacement_cache.push(id);
            Placement::Cached
        } else {
            Placement::Refused
        }
    }

    /// Offers `id` to the bucket. An identifier that joins the replacements
    /// has every entry pinged, in order, so that a stale one can make room.
    /// Returns whether `id` joined the bucket.
    pub fn insert<T: TransportSender>(&mut self, id: Id, config: &RoutingConfig, contacter: &T) -> (r:
        bool)
        ensures
            r == (placement(
                old(self).entries@,
                old(self).replacement_cache@,
                id,
                config.bucket_size as int,
                config.bucket_replacement_size as int,
            ) is Routed || placement(
                old(self).entries@,
                old(self).replacement_cache@,
                id,
                config.bucket_size as int,
                config.bucket_replacement_size as int,
            ) is Cached),
            (final(self).entries@, final(self).replacement_cache@) == after_insert(
                old(self).entries@,
                old(self).replacement_cache@,
                id,
                config.bucket_size as int,
                config.bucket_replacement_size as int,
            ),
            old(self).wf() ==> final(self).wf(),
            old(self).fits(config) ==> final(self).fits(config),
    {
        match self.place(id, config) {
            Placement::Routed => true,
            Placement::Cached => {
                let mut i: usize = 0;
                while i < self.entries.len()
                    invariant
                        i <= self.entries@.len(),
                    decreases self.entries@.len() - i,
                {
                    contacter.ping(&self.entries[i]);
                    i += 1;
                }
                true
            },
            _ => false,
        }
    }

    /// Takes `id` out of the bucket. A removed entry is made up for by the
    /// oldest replacement. Returns whether `id` was in the bucket.
    pub fn remove(&mut self, id: Id) -> (r: bool)
        ensures
            r == old(self).spec_has(id),
            (final(self).entries@, final(self).replacement_cache@) == after_remove(
                old(self).entries@,
                old(self).replacement_cache@,
                id,
            ),
            old(self).wf() ==> final(self).wf(),
            final(self).entries@.len() <= old(self).entries@.len(),
            final(self).replacement_cache@.len() <= old(self).replacement_cache@.len(),
    {
        proof {
            lemma_remove_keeps(old(self).entries@, old(self).replacement_cache@, id);
        }
        let i = find(&self.entries, id);
        if i < self.entries.len() {
            self.entries.remove(i);
            if self.replacement_cache.len() > 0 {
                let promoted = self.replacement_cache.remove(0);
                self.entries.push(promoted);
            }
            return true;
        }
        let j = find(&self.replacement_cache, id);
        if j < self.replacement_cache.len() {
            self.replacement_cache.remove(j);
            true
        } else {
            false
        }
    }
}

impl Default for KBucket {
    fn default() -> (r: KBucket)
        ensures
            r.entries@.len() == 0,
            r.replacement_cache@.len() == 0,
    {
        KBucket::new()
    }
}

/// Refreshing keeps the identifiers of a bucket distinct, and keeps the
/// same identifiers in it.
pub proof fn lemma_refresh_keeps(entries: Seq<Id>, cache: Seq<Id>, id: Id)
    ensures
        (entries + cache).no_duplicates() ==> (refreshed(entries, id) + cache).no_duplicates(),
        refreshed(entries, id).len() == entries.len(),
        forall|x: Id| refreshed(entries, id).contains(x) <==> entries.contains(x),
{
    lemma_position_bounds(entries, id);
    let i = position(entries, id);
    let out = refreshed(entries, id);
    if i < entries.len() {
        let n = entries.len() as int;
        // out[j] is entries[j] before i, entries[j + 1] from i on, and id last.
        assert forall|x: Id| out.contains(x) <==> entries.contains(x) by {
            if out.contains(x) {
                let w = choose|w: int| 0 <= w < out.len() && out[w] == x;
                if w < i {
                    assert(entries[w] == x);
                } else if w < n - 1 {
                    assert(entries[w + 1] == x);
                } else {
                    assert(entries[i] == x);
                }
            }
            if entries.contains(x) {
                let w = choose|w: int| 0 <= w < entries.len() && entries[w] == x;
                if w < i {
                    assert(out[w] == x);
                } else if w == i {
                    assert(out[n - 1] == x);
                } else {
                    assert(out[w - 1] == x);
                }
            }
        }
        if (entries + cache).no_duplicates() {
            let old_all = entries + cache;
            let new_all = out + cache;
            let src = |w: int|
                if w < i {
                    w
                } else if w < n - 1 {
                    w + 1
                } else if w == n - 1 {
                    i
                } else {
                    w
                };
            assert forall|a: int, b: int| 0 <= a < new_all.len() && 0 <= b < new_all.len() && a
                != b implies new_all[a] != new_all[b] by {
                assert(new_all[a] == old_all[src(a)]);
                assert(new_all[b] == old_all[src(b)]);
                assert(src(a) != src(b));
            }
        }
    }
}

/// Offering an identifier keeps those of a bucket distinct and the bucket
/// within its limits.
pub proof fn lemma_insert_keeps(entries: Seq<Id>, cache: Seq<Id>, id: Id, k: int, r: int)
    ensures
        (entries + cache).no_duplicates() ==> (after_insert(entries, cache, id, k, r).0
            + after_insert(entries, cache, id, k, r).1).no_duplicates(),
        entries.len() <= k ==> after_insert(entries, cache, id, k, r).0.len() <= k,
        cache.len() <= r ==> after_insert(entries, cache, id, k, r).1.len() <= r,
{
    let old_all = entries + cache;
    let (e, c) = after_insert(entries, cache, id, k, r);
    let new_all = e + c;
    if old_all.no_duplicates() {
        match placement(entries, cache, id, k, r) {
            Placement::Routed => {
                let n = entries.len() as int;
                assert forall|a: int, b: int| 0 <= a < new_all.len() && 0 <= b < new_all.len() && a
                    != b implies new_all[a] != new_all[b] by {
                    let sa = if a < n { a } else { a - 1 };
                    let sb = if b < n { b } else { b - 1 };
                    if a != n {
                        assert(new_all[a] == old_all[sa]);
                        if a < n {
                            assert(entries.contains(new_all[a]));
                        } else {
                            assert(cache[a - 1 - n] == new_all[a]);
                            assert(cache.contains(new_all[a]));
                        }
                    }
                    if b != n {
                        assert(new_all[b] == old_all[sb]);
                        if b < n {
                            assert(entries.contains(new_all[b]));
                        } else {
                            assert(cache[b - 1 - n] == new_all[b]);
                            assert(cache.contains(new_all[b]));
                        }
                    }
                }
            },
            Placement::Cached => {
                assert(new_all =~= old_all.push(id));
                assert forall|a: int, b: int| 0 <= a < new_all.len() && 0 <= b < new_all.len() && a
                    != b implies new_all[a] != new_all[b] by {
                    let n = old_all.len() as int;
                    if a < n {
                        assert(old_all[a] == new_all[a]);
                        if a < entries.len() {
                            assert(entries.contains(old_all[a]));
                        } else {
                            assert(cache[a - entries.len()] == old_all[a]);
                            assert(cache.contains(old_all[a]));
                        }
                    }
                    if b < n {
                        assert(old_all[b] == new_all[b]);
                        if b < entries.len() {
                            assert(entries.contains(old_all[b]));
                        } else {
                            assert(cache[b - entries.len()] == old_all[b]);
                            assert(cache.contains(old_all[b]));
                        }
                    }
                }
            },
            _ => {},
        }
    }
}

/// Taking an identifier out keeps those of a bucket distinct, and leaves
/// no trace of it.
pub proof fn lemma_remove_keeps(entries: Seq<Id>, cache: Seq<Id>, id: Id)
    ensures
        (entries + cache).no_duplicates() ==> (after_remove(entries, cache, id).0 + after_remove(
            entries,
            cache,
            id,
        ).1).no_duplicates(),
        (entries + cache).no_duplicates() ==> !(after_remove(entries, cache, id).0 + after_remove(
            entries,
            cache,
            id,
        ).1).contains(id),
        after_remove(entries, cache, id).0.len() <= entries.len(),
        after_remove(entries, cache, id).1.len() <= cache.len(),
        forall|x: Id|
            (after_remove(entries, cache, id).0 + after_remove(entries, cache, id).1).contains(x)
                ==> (entries + cache).contains(x),
{
    lemma_position_bounds(entries, id);
    lemma_position_bounds(cache, id);
    let old_all = entries + cache;
    let (e, c) = after_remove(entries, cache, id);
    let new_all = e + c;
    let i = position(entries, id);
    let j = position(cache, id);
    let n = entries.len() as int;
    // Every place of the new bucket is filled from one place of the old one,
    // never the removed one, and distinct places from distinct places.
    let src = |w: int|
        if i < n {
            if w < i {
                w
            } else {
                w + 1
            }
        } else if j < cache.len() {
            if w < n + j {
                w
            } else {
                w + 1
            }
        } else {
            w
        };
    assert forall|w: int| 0 <= w < new_all.len() implies 0 <= src(w) < old_all.len() && new_all[w]
        == old_all[#[trigger] src(w)] by {
        if i < n && cache.len() > 0 {
            if w == n - 1 {
                assert(new_all[w] == cache[0]);
            } else if w >= n {
                assert(new_all[w] == c[w - n]);
                assert(c[w - n] == cache[w - n + 1]);
            }
        }
    }
    assert forall|x: Id| new_all.contains(x) implies old_all.contains(x) by {
        let w = choose|w: int| 0 <= w < new_all.len() && new_all[w] == x;
        assert(old_all[src(w)] == x);
    }
    if old_all.no_duplicates() {
        let gone = if i < n { i } else { n + j };
        assert forall|a: int, b: int| 0 <= a < new_all.len() && 0 <= b < new_all.len() && a
            != b implies new_all[a] != new_all[b] by {
            assert(src(a) != src(b));
        }
        if new_all.contains(id) {
            let w = choose|w: int| 0 <= w < new_all.len() && new_all[w] == id;
            assert(old_all[src(w)] == id);
            if i < n || j < cache.len() {
                assert(old_all[gone] == id);
                assert(src(w) != gone);
            } else {
                if src(w) < n {
                    assert(entries[src(w)] == id);
                    assert(entries.contains(id));
                } else {
                    assert(cache[src(w) - n] == id);
                    assert(cache.contains(id));
                }
            }
        }
    }
}

/// An identifier that was offered and then seen is the most recently seen
/// entry if the offer left it among the entries; a bucket that holds it as
/// a replacement, or not at all, is left as it was.
pub proof fn lemma_insert_then_refresh(entries: Seq<Id>, cache: Seq<Id>, id: Id, k: int, r: int)
    ensures
        ({
            let (e, c) = after_insert(entries, cache, id, k, r);
            let e2 = refreshed(e, id);
            &&& e.contains(id) ==> e2.len() == e.len() && e2.last() == id
            &&& !e.contains(id) ==> e2 == e
        }),
{
    let (e, c) = after_insert(entries, cache, id, k, r);
    lemma_position_bounds(e, id);
}

} // verus!
