//! Store records and the record store built from them.
//!
//! A record describes one object of the store. The record store keeps, for
//! one run, what the rest of the crate needs of the loaded records: the
//! canonical key of every object, its registration time, the objects it
//! refers to, and the archive it was fetched from with that archive's size.

use crate::graph::in_bounds;
use crate::ident::{canonical, canonical_id};
use crate::intern::{entered, lemma_position_of_member, position, texts, Interner};
use vstd::prelude::*;

verus! {

/// One object of the store, as it was loaded.
#[allow(non_snake_case)]
#[derive(Debug, Clone)]
pub struct PathInfo {
    /// Identifier of the object, in full or canonical form.
    pub path: String,
    /// Identifiers of the objects this one depends on, in either form.
    pub references: Vec<String>,
    /// When the object entered the store, in seconds since the epoch.
    pub registrationTime: u64,
    /// Size in bytes of the archive that holds the object.
    pub downloadSize: u64,
    /// Where the archive was fetched from.
    pub url: String,
}

/// What a record says, as plain values.
pub struct Record {
    pub path: Seq<char>,
    pub references: Seq<Seq<char>>,
    pub registration_time: u64,
    pub download_size: u64,
    pub url: Seq<char>,
}

impl View for PathInfo {
    type V = Record;

    open spec fn view(&self) -> Record {
        Record {
            path: self.path@,
            references: texts(self.references@),
            registration_time: self.registrationTime,
            download_size: self.downloadSize,
            url: self.url@,
        }
    }
}

/// The records of a loaded listing, as plain values.
pub open spec fn records_of(listing: Seq<PathInfo>) -> Seq<Record> {
    listing.map_values(|r: PathInfo| r@)
}

/// The canonical key of the object that `r` describes.
pub open spec fn key_of(r: Record) -> Seq<char> {
    canonical(r.path)
}

/// The records that are kept: of several records for one object, the first.
pub open spec fn first_seen(rs: Seq<Record>) -> Seq<Record>
    decreases rs.len(),
{
    if rs.len() == 0 {
        Seq::empty()
    } else {
        let before = first_seen(rs.drop_last());
        if keys_of(before).contains(key_of(rs.last())) {
            before
        } else {
            before.push(rs.last())
        }
    }
}

/// The values of `s` in the order of their first occurrence, each once.
pub open spec fn distinct(s: Seq<Seq<char>>) -> Seq<Seq<char>>
    decreases s.len(),
{
    if s.len() == 0 {
        Seq::empty()
    } else {
        entered(distinct(s.drop_last()), s.last())
    }
}

/// The size that the records attribute to the archive at `url`: where several
/// records name one archive, the last of them decides.
pub open spec fn attributed_size(rs: Seq<Record>, url: Seq<char>) -> u64
    decreases rs.len(),
{
    if rs.len() == 0 {
        0
    } else if rs.last().url == url {
        rs.last().download_size
    } else {
        attributed_size(rs.drop_last(), url)
    }
}

/// The objects that the identifiers `refs` name, in order. An identifier that
/// names no object of `keys` is passed over.
pub open spec fn resolve(keys: Seq<Seq<char>>, refs: Seq<Seq<char>>) -> Seq<usize>
    decreases refs.len(),
{
    if refs.len() == 0 {
        Seq::empty()
    } else {
        let before = resolve(keys, refs.drop_last());
        match position(keys, canonical(refs.last())) {
            Some(b) => before.push(b),
            None => before,
        }
    }
}

/// The origins of the records, one after the other.
pub open spec fn urls_of(rs: Seq<Record>) -> Seq<Seq<char>> {
    rs.map_values(|r: Record| r.url)
}

/// The keys of the records, one after the other.
pub open spec fn keys_of(rs: Seq<Record>) -> Seq<Seq<char>> {
    rs.map_values(|r: Record| key_of(r))
}

/// The canonical forms of those identifiers among `refs` that name no object
/// of `keys`, in order.
pub open spec fn unresolved_refs(keys: Seq<Seq<char>>, refs: Seq<Seq<char>>) -> Seq<Seq<char>>
    decreases refs.len(),
{
    if refs.len() == 0 {
        Seq::empty()
    } else {
        let before = unresolved_refs(keys, refs.drop_last());
        match position(keys, canonical(refs.last())) {
            Some(_) => before,
            None => before.push(canonical(refs.last())),
        }
    }
}

/// The canonical forms of the references of the first `n` records of `rs`
/// that name no object of `rs`, in order.
pub open spec fn stray(rs: Seq<Record>, n: nat) -> Seq<Seq<char>>
    decreases n,
{
    if n == 0 {
        Seq::empty()
    } else {
        stray(rs, (n - 1) as nat) + unresolved_refs(keys_of(rs), rs[n - 1].references)
    }
}

/// Among the identifiers `refs`, one has the canonical form `key`, and no
/// object of `keys` has that key.
pub open spec fn unresolved(keys: Seq<Seq<char>>, refs: Seq<Seq<char>>, key: Seq<char>) -> bool {
    &&& !keys.contains(key)
    &&& exists|k: int| 0 <= k < refs.len() && canonical(#[trigger] refs[k]) == key
}

/// Some record of `rs` holds a reference to `key`, and no object of `rs` has
/// that key.
pub open spec fn dangling(rs: Seq<Record>, key: Seq<char>) -> bool {
    dangling_among(rs, rs.len() as int, key)
}

/// One of the first `n` records of `rs` holds a reference to `key`, and no
/// object of `rs` has that key.
pub open spec fn dangling_among(rs: Seq<Record>, n: int, key: Seq<char>) -> bool {
    exists|a: int| 0 <= a < n && unresolved(keys_of(rs), (#[trigger] rs[a]).references, key)
}

/// The records of one run, ready for lookup.
pub struct RecordStore {
    kept: Ghost<Seq<Record>>,
    listed: usize,
    keys: Interner,
    times: Vec<u64>,
    refs: Vec<Vec<usize>>,
    missing: Interner,
    origins: Interner,
    sizes: Vec<u64>,
    origin_of: Vec<usize>,
}

impl RecordStore {
    /// The records that the store keeps, in the order in which they were
    /// listed: one for each object.
    pub closed spec fn kept(&self) -> Seq<Record> {
        self.kept@
    }

    /// How many records the listing held, kept or not.
    pub closed spec fn listed(&self) -> nat {
        self.listed as nat
    }

    /// The identifiers that were referred to without being in the store, in
    /// canonical form, each once, in the order in which they were met.
    pub open spec fn missing(&self) -> Seq<Seq<char>> {
        distinct(stray(self.kept(), self.kept().len()))
    }

    /// The canonical key of every object. An object's number is the position
    /// of its key.
    pub open spec fn keys(&self) -> Seq<Seq<char>> {
        keys_of(self.kept())
    }

    /// The objects that each object refers to.
    pub open spec fn graph(&self) -> Seq<Seq<usize>> {
        Seq::new(
            self.kept().len(),
            |a: int| resolve(keys_of(self.kept()), self.kept()[a].references),
        )
    }

    /// Every archive that some object was fetched from, each once.
    pub open spec fn origins(&self) -> Seq<Seq<char>> {
        distinct(urls_of(self.kept()))
    }

    /// The size in bytes of each archive of `origins`.
    pub open spec fn sizes(&self) -> Seq<u64> {
        Seq::new(
            self.origins().len(),
            |k: int| attributed_size(self.kept(), self.origins()[k]),
        )
    }

    /// The archive that object `a` was fetched from, as a position in
    /// `origins`.
    pub open spec fn origin_of(&self, a: int) -> usize {
        self.origins().index_of(self.kept()[a].url) as usize
    }

    /// The fields agree with the records that are kept.
    pub closed spec fn wf(&self) -> bool {
        let n = self.kept@.len();
        &&& n <= self.listed
        &&& self.keys.wf()
        &&& self.keys@ == keys_of(self.kept@)
        &&& self.times.len() == n
        &&& self.refs.len() == n
        &&& self.origin_of.len() == n
        &&& forall|a: int|
            0 <= a < n ==> (#[trigger] self.times@[a]) == self.kept@[a].registration_time
        &&& forall|a: int|
            0 <= a < n ==> (#[trigger] self.refs@[a])@ == resolve(
                keys_of(self.kept@),
                self.kept@[a].references,
            )
        &&& self.origins.wf()
        &&& self.origins@ == distinct(urls_of(self.kept@))
        &&& self.sizes.len() == self.origins@.len()
        &&& forall|k: int|
            0 <= k < self.sizes.len() ==> (#[trigger] self.sizes@[k]) == attributed_size(
                self.kept@,
                self.origins@[k],
            )
        &&& forall|a: int|
            0 <= a < n ==> (#[trigger] self.origin_of@[a]) < self.origins@.len()
                && self.origins@[self.origin_of@[a] as int] == self.kept@[a].url
        &&& self.missing.wf()
        &&& self.missing@ == distinct(stray(self.kept@, n))
    }

    /// Every reference that `graph` lists names an object of the store.
    pub proof fn lemma_graph_in_bounds(&self)
        ensures
            self.graph().len() == self.kept().len(),
            in_bounds(self.graph()),
    {
        let g = self.graph();
        assert forall|a: int, k: int| 0 <= a < g.len() && 0 <= k < g[a].len() implies (
        #[trigger] g[a][k]) < g.len() by {
            lemma_resolve_in_bounds(keys_of(self.kept()), self.kept()[a].references, k);
        }
    }

    /// The lists of references are of a size that the machine can hold.
    pub proof fn lemma_graph_fits(&self)
        requires
            self.wf(),
        ensures
            self.graph().len() <= usize::MAX,
            forall|a: int| 0 <= a < self.graph().len() ==> (#[trigger] self.graph()[a]).len() <= usize::MAX,
    {
        assert forall|a: int| 0 <= a < self.graph().len() implies (#[trigger] self.graph()[a]).len()
            <= usize::MAX by {
            assert(self.refs@[a]@ == self.graph()[a]);
            assert(self.refs@[a]@.len() == self.refs@[a].len());
        }
    }

    /// The number of objects in the store.
    pub fn len(&self) -> (n: usize)
        requires
            self.wf(),
        ensures
            n == self.kept().len(),
    {
        self.times.len()
    }

    /// The number of records that the listing held.
    pub fn listed_count(&self) -> (n: usize)
        requires
            self.wf(),
        ensures
            n == self.listed(),
            n >= self.kept().len(),
    {
        self.listed
    }

    /// The number of records that were dropped because an earlier record
    /// describes the same object.
    pub fn dropped_count(&self) -> (n: usize)
        requires
            self.wf(),
        ensures
            n == self.listed() - self.kept().len(),
    {
        self.listed - self.times.len()
    }

    /// The number of the object that `id` names, in full or canonical form.
    pub fn lookup(&self, id: &str) -> (found: Option<usize>)
        requires
            self.wf(),
        ensures
            found == position(self.keys(), canonical(id@)),
            found matches Some(a) ==> a < self.kept().len() && self.keys()[a as int] == canonical(
                id@,
            ),
    {
        let key = canonical_id(id);
        self.keys.find(key.as_str())
    }

    /// The canonical key of object `a`.
    pub fn key(&self, a: usize) -> (key: &String)
        requires
            self.wf(),
            a < self.kept().len(),
        ensures
            key@ == self.keys()[a as int],
            key@ == canonical(self.kept()[a as int].path),
    {
        self.keys.name(a)
    }

    /// When object `a` entered the store.
    pub fn registration_time(&self, a: usize) -> (time: u64)
        requires
            self.wf(),
            a < self.kept().len(),
        ensures
            time == self.kept()[a as int].registration_time,
    {
        self.times[a]
    }

    /// The objects that object `a` refers to.
    pub fn references(&self, a: usize) -> (targets: &Vec<usize>)
        requires
            self.wf(),
            a < self.kept().len(),
        ensures
            targets@ == self.graph()[a as int],
    {
        &self.refs[a]
    }

    /// The number of archives.
    pub fn origin_count(&self) -> (n: usize)
        requires
            self.wf(),
        ensures
            n == self.origins().len(),
    {
        self.sizes.len()
    }

    /// Where archive `k` was fetched from.
    pub fn origin(&self, k: usize) -> (url: &String)
        requires
            self.wf(),
            k < self.origins().len(),
        ensures
            url@ == self.origins()[k as int],
    {
        self.origins.name(k)
    }

    /// The size in bytes of archive `k`.
    pub fn origin_size(&self, k: usize) -> (size: u64)
        requires
            self.wf(),
            k < self.origins().len(),
        ensures
            size == self.sizes()[k as int],
    {
        self.sizes[k]
    }

    /// The archive that object `a` was fetched from.
    pub fn origin_of_object(&self, a: usize) -> (k: usize)
        requires
            self.wf(),
            a < self.kept().len(),
        ensures
            k == self.origin_of(a as int),
            k < self.origins().len(),
            self.origins()[k as int] == self.kept()[a as int].url,
    {
        proof {
            self.origins.lemma_distinct();
            lemma_position_of_member(self.origins@, self.origin_of@[a as int] as int);
        }
        self.origin_of[a]
    }

    /// The number of identifiers that were referred to without being in the
    /// store.
    pub fn missing_count(&self) -> (n: usize)
        requires
            self.wf(),
        ensures
            n == self.missing().len(),
    {
        self.missing.len()
    }

    /// The `k`-th identifier that was referred to without being in the store,
    /// in canonical form.
    pub fn missing_key(&self, k: usize) -> (key: &String)
        requires
            self.wf(),
            k < self.missing().len(),
        ensures
            key@ == self.missing()[k as int],
            dangling(self.kept(), key@),
    {
        proof {
            self.lemma_store();
            assert(self.missing().contains(self.missing()[k as int]));
        }
        self.missing.name(k)
    }

    /// The store holds every object once and every archive once, and lists
    /// once each identifier that some object refers to and no object has.
    pub proof fn lemma_store(&self)
        requires
            self.wf(),
        ensures
            self.keys().no_duplicates(),
            self.origins().no_duplicates(),
            self.missing().no_duplicates(),
            forall|key: Seq<char>| #[trigger]
                self.missing().contains(key) <==> dangling(self.kept(), key),
            self.kept().len() <= self.listed(),
            self.kept().len() <= usize::MAX,
    {
        let rs = self.kept();
        self.keys.lemma_distinct();
        lemma_distinct(urls_of(rs));
        lemma_distinct(stray(rs, rs.len()));
        assert forall|key: Seq<char>| #[trigger]
            self.missing().contains(key) <==> dangling(rs, key) by {
            lemma_stray(rs, rs.len(), key);
        }
    }

    /// Builds the store from a listing. Of several records for one object the
    /// first is kept and the others are dropped. Of several records that name
    /// one archive, the last decides the archive's size.
    pub fn build(listing: &Vec<PathInfo>) -> (store: RecordStore)
        ensures
            store.wf(),
            store.kept() == first_seen(records_of(listing@)),
            store.listed() == listing.len(),
    {
        let ghost all = records_of(listing@);
        let mut kept: Ghost<Seq<Record>> = Ghost(Seq::empty());
        let mut src: Vec<usize> = Vec::new();
        let mut keys = Interner::new();
        let mut times: Vec<u64> = Vec::new();
        let mut origins = Interner::new();
        let mut sizes: Vec<u64> = Vec::new();
        let mut origin_of: Vec<usize> = Vec::new();
        assert(all.take(0) =~= Seq::<Record>::empty());
        assert(keys_of(kept@) =~= Seq::<Seq<char>>::empty());
        assert(urls_of(kept@) =~= Seq::<Seq<char>>::empty());
        let mut i: usize = 0;
        while i < listing.len()
            invariant
                i <= listing.len(),
                all == records_of(listing@),
                kept@ == first_seen(all.take(i as int)),
                kept@.len() <= i,
                keys.wf(),
                keys@ == keys_of(kept@),
                src.len() == kept@.len(),
                forall|a: int|
                    0 <= a < src.len() ==> (#[trigger] src@[a]) < i && all[src@[a] as int]
                        == kept@[a],
                times.len() == kept@.len(),
                forall|a: int|
                    0 <= a < times.len() ==> (#[trigger] times@[a]) == kept@[a].registration_time,
                origins.wf(),
                origins@ == distinct(urls_of(kept@)),
                sizes.len() == origins@.len(),
                forall|k: int|
                    0 <= k < sizes.len() ==> (#[trigger] sizes@[k]) == attributed_size(
                        kept@,
                        origins@[k],
                    ),
                origin_of.len() == kept@.len(),
                forall|a: int|
                    0 <= a < origin_of.len() ==> (#[trigger] origin_of@[a]) < origins@.len()
                        && origins@[origin_of@[a] as int] == kept@[a].url,
            decreases listing.len() - i,
        {
            let rec = &listing[i];
            let key = canonical_id(rec.path.as_str());
            proof {
                assert(all.take(i + 1).drop_last() =~= all.take(i as int));
                assert(all.take(i + 1).last() == rec@);
            }
            if keys.find(key.as_str()).is_none() {
                let ghost before = kept@;
                let ghost names = origins@;
                proof {
                    kept@ = before.push(rec@);
                    assert(keys_of(kept@) =~= keys_of(before).push(key@));
                    assert(urls_of(kept@) =~= urls_of(before).push(rec@.url));
                    assert(urls_of(kept@).drop_last() =~= urls_of(before));
                    assert(kept@.drop_last() =~= before);
                    origins.lemma_distinct();
                }
                keys.intern(key);
                times.push(rec.registrationTime);
                src.push(i);
                let k = origins.intern(rec.url.clone());
                if k < sizes.len() {
                    sizes.set(k, rec.downloadSize);
                } else {
                    sizes.push(rec.downloadSize);
                }
                origin_of.push(k);
                proof {
                    assert forall|j: int| 0 <= j < sizes.len() implies (#[trigger] sizes@[j])
                        == attributed_size(kept@, origins@[j]) by {
                        if j != k {
                            assert(origins@[j] == names[j]);
                            if names[j] == rec@.url {
                                assert(names.contains(rec@.url));
                                lemma_position_of_member(names, j);
                            }
                        }
                    }
                    assert forall|a: int| 0 <= a < origin_of.len() implies (
                    #[trigger] origin_of@[a]) < origins@.len() && origins@[origin_of@[a] as int]
                        == kept@[a].url by {
                        if a < before.len() {
                            assert(kept@[a] == before[a]);
                            assert(origins@[origin_of@[a] as int] == names[origin_of@[a] as int]);
                        }
                    }
                }
            }
            i += 1;
        }
        proof {
            assert(all.take(i as int) =~= all);
        }
        let mut refs: Vec<Vec<usize>> = Vec::new();
        let mut missing = Interner::new();
        let mut a: usize = 0;
        while a < src.len()
            invariant
                a <= src.len(),
                all == records_of(listing@),
                src.len() == kept@.len(),
                forall|b: int|
                    0 <= b < src.len() ==> (#[trigger] src@[b]) < listing.len() && all[src@[b] as int]
                        == kept@[b],
                keys.wf(),
                keys@ == keys_of(kept@),
                refs.len() == a,
                forall|b: int|
                    0 <= b < a ==> (#[trigger] refs@[b])@ == resolve(
                        keys_of(kept@),
                        kept@[b].references,
                    ),
                missing.wf(),
                missing@ == distinct(stray(kept@, a as nat)),
            decreases src.len() - a,
        {
            let rec = &listing[src[a]];
            let targets = resolve_references(
                &keys,
                &rec.references,
                &mut missing,
                Ghost(stray(kept@, a as nat)),
            );
            refs.push(targets);
            a += 1;
        }
        let store = RecordStore {
            kept,
            listed: listing.len(),
            keys,
            times,
            refs,
            missing,
            origins,
            sizes,
            origin_of,
        };
        proof {
            store.lemma_store();
        }
        store
    }
}

/// An object that `resolve` returns is an object of `keys`.
pub proof fn lemma_resolve_in_bounds(keys: Seq<Seq<char>>, refs: Seq<Seq<char>>, k: int)
    requires
        0 <= k < resolve(keys, refs).len(),
    ensures
        resolve(keys, refs)[k] < keys.len(),
    decreases refs.len(),
{
    if refs.len() > 0 {
        let before = resolve(keys, refs.drop_last());
        if k < before.len() {
            lemma_resolve_in_bounds(keys, refs.drop_last(), k);
        } else {
            let key = canonical(refs.last());
            assert(keys.contains(key));
            let j = keys.index_of(key);
            assert(0 <= j < keys.len());
        }
    }
}

/// Finds the objects that the identifiers `names` stand for. Those that stand
/// for no object are entered into `missing`, which holds what came of
/// `earlier` so far.
fn resolve_references(
    keys: &Interner,
    names: &Vec<String>,
    missing: &mut Interner,
    Ghost(earlier): Ghost<Seq<Seq<char>>>,
) -> (targets: Vec<usize>)
    requires
        keys.wf(),
        old(missing).wf(),
        old(missing)@ == distinct(earlier),
    ensures
        targets@ == resolve(keys@, texts(names@)),
        final(missing).wf(),
        final(missing)@ == distinct(earlier + unresolved_refs(keys@, texts(names@))),
{
    let ghost refs = texts(names@);
    let mut targets: Vec<usize> = Vec::new();
    let mut k: usize = 0;
    proof {
        assert(refs.take(0) =~= Seq::<Seq<char>>::empty());
        assert(earlier + unresolved_refs(keys@, refs.take(0)) =~= earlier);
    }
    while k < names.len()
        invariant
            k <= names.len(),
            refs == texts(names@),
            keys.wf(),
            missing.wf(),
            targets@ == resolve(keys@, refs.take(k as int)),
            missing@ == distinct(earlier + unresolved_refs(keys@, refs.take(k as int))),
        decreases names.len() - k,
    {
        let key = canonical_id(names[k].as_str());
        proof {
            assert(refs.take(k + 1).drop_last() =~= refs.take(k as int));
            assert(refs.take(k + 1).last() == names@[k as int]@);
        }
        match keys.find(key.as_str()) {
            Some(b) => {
                targets.push(b);
            },
            None => {
                proof {
                    let so_far = earlier + unresolved_refs(keys@, refs.take(k as int));
                    assert((earlier + unresolved_refs(keys@, refs.take(k + 1))).drop_last()
                        =~= so_far);
                }
                missing.intern(key);
            },
        }
        k += 1;
    }
    assert(refs.take(k as int) =~= refs);
    targets
}

/// `distinct` holds what the run holds, and nothing twice.
pub proof fn lemma_distinct(s: Seq<Seq<char>>)
    ensures
        distinct(s).no_duplicates(),
        forall|x: Seq<char>| #[trigger] distinct(s).contains(x) <==> s.contains(x),
    decreases s.len(),
{
    if s.len() > 0 {
        let head = s.drop_last();
        let before = distinct(head);
        let all = distinct(s);
        lemma_distinct(head);
        assert forall|x: Seq<char>| #[trigger] all.contains(x) <==> s.contains(x) by {
            if before.contains(x) {
                let i = before.index_of(x);
                assert(all[i] == x);
                assert(head.contains(x));
                let j = head.index_of(x);
                assert(s[j] == x);
            }
            if s.contains(x) {
                let j = s.index_of(x);
                if j < head.len() {
                    assert(head[j] == x);
                } else if !before.contains(x) {
                    assert(all[before.len() as int] == x);
                }
            }
            if all.contains(x) && !before.contains(x) {
                assert(s[s.len() - 1] == x);
            }
        }
    }
}

/// What `unresolved_refs` holds is what is unresolved.
proof fn lemma_unresolved_refs(keys: Seq<Seq<char>>, refs: Seq<Seq<char>>, key: Seq<char>)
    ensures
        unresolved_refs(keys, refs).contains(key) <==> unresolved(keys, refs, key),
    decreases refs.len(),
{
    if refs.len() > 0 {
        let head = refs.drop_last();
        let before = unresolved_refs(keys, head);
        let all = unresolved_refs(keys, refs);
        let last = canonical(refs.last());
        lemma_unresolved_refs(keys, head, key);
        if before.contains(key) {
            let i = before.index_of(key);
            assert(all[i] == key);
            let k = choose|k: int| 0 <= k < head.len() && canonical(#[trigger] head[k]) == key;
            assert(canonical(refs[k]) == key);
        }
        if unresolved(keys, refs, key) {
            let k = choose|k: int| 0 <= k < refs.len() && canonical(#[trigger] refs[k]) == key;
            if k < head.len() {
                assert(canonical(head[k]) == key);
            } else {
                assert(all[all.len() - 1] == key);
            }
        }
        if all.contains(key) && !before.contains(key) {
            assert(canonical(refs[refs.len() - 1]) == key);
        }
    }
}

/// What `stray` holds is what dangles.
proof fn lemma_stray(rs: Seq<Record>, n: nat, key: Seq<char>)
    ensures
        stray(rs, n).contains(key) <==> dangling_among(rs, n as int, key),
    decreases n,
{
    if n > 0 {
        let before = stray(rs, (n - 1) as nat);
        let here = unresolved_refs(keys_of(rs), rs[n - 1].references);
        let all = stray(rs, n);
        lemma_stray(rs, (n - 1) as nat, key);
        lemma_unresolved_refs(keys_of(rs), rs[n - 1].references, key);
        if before.contains(key) {
            let i = before.index_of(key);
            assert(all[i] == key);
        }
        if here.contains(key) {
            let i = here.index_of(key);
            assert(all[before.len() + i] == key);
            assert(unresolved(keys_of(rs), rs[n - 1].references, key));
        }
        if all.contains(key) {
            let i = all.index_of(key);
            if i < before.len() {
                assert(before[i] == key);
            } else {
                assert(here[i - before.len()] == key);
            }
        }
        if dangling_among(rs, n as int, key) {
            let a = choose|a: int|
                0 <= a < n && unresolved(keys_of(rs), (#[trigger] rs[a]).references, key);
            if a < n - 1 {
                assert(dangling_among(rs, n - 1, key));
            }
        }
    }
}

} // verus!
