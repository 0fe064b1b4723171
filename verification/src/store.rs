//! A rate-limited cache of project configurations, keyed by the path of the
//! pyproject.toml file: the file is looked at no more than once a second,
//! and read again only when its modification time or size changed.
//!
//! The store decides; its caller looks at the clock and the file system.
//! For one lookup the caller asks [`ConfigStore::begin`], and as the answer
//! says, reports the file's stamp to [`ConfigStore::after_stamp`] and then
//! what reading it gave to [`ConfigStore::after_read`]; the answer is then
//! [`ConfigStore::cached`].
use vstd::prelude::*;

use crate::config::{ConfigView, CustomsConfig};
use crate::text::{strings_view, text_is};

verus! {

/// How often, at most, a file is looked at: one second, in nanoseconds.
pub const STAT_INTERVAL_NANOS: u64 = 1_000_000_000;

/// What the file system says of a file: its modification time (nanoseconds
/// from the Unix epoch, negative before it) and its size in bytes.
#[derive(Clone, Copy, Debug, PartialEq, Eq, Structural)]
pub struct FileStamp {
    pub modified_nanos: i128,
    pub len: u64,
}

/// What reading a pyproject.toml gave: nothing when the file was missing,
/// else the configuration or the text of the error.
pub type LoadResult = Option<Result<CustomsConfig, String>>;

/// The mathematical content of a [`LoadResult`].
pub open spec fn load_view(r: LoadResult) -> Option<Result<ConfigView, Seq<char>>> {
    match r {
        Some(Ok(c)) => Some(Ok(c@)),
        Some(Err(e)) => Some(Err(e@)),
        None => None,
    }
}

/// What the store remembers of one file.
#[derive(Debug)]
pub struct CachedConfig {
    /// When the file was last looked at, in nanoseconds of the caller's clock.
    pub last_stat: u64,
    /// The file's stamp then; `None` if it was missing.
    pub meta: Option<FileStamp>,
    /// What reading it gave.
    pub result: LoadResult,
}

/// The mathematical content of a [`CachedConfig`].
pub struct CacheView {
    pub last_stat: u64,
    pub meta: Option<FileStamp>,
    pub result: Option<Result<ConfigView, Seq<char>>>,
}

impl View for CachedConfig {
    type V = CacheView;

    open spec fn view(&self) -> CacheView {
        CacheView { last_stat: self.last_stat, meta: self.meta, result: load_view(self.result) }
    }
}

/// The entries of a store: each file's path and what is remembered of it.
pub type StoreView = Seq<(Seq<Seq<char>>, CacheView)>;

/// The first entry for `key` from index `i` on.
pub open spec fn find_from(es: StoreView, key: Seq<Seq<char>>, i: int) -> Option<int>
    decreases es.len() - i,
{
    if i < 0 || i >= es.len() {
        None
    } else if es[i].0 == key {
        Some(i)
    } else {
        find_from(es, key, i + 1)
    }
}

/// The entry for `key`, if there is one.
pub open spec fn entry_for(es: StoreView, key: Seq<Seq<char>>) -> Option<CacheView> {
    match find_from(es, key, 0) {
        Some(i) => Some(es[i].1),
        None => None,
    }
}

/// The entries with `key` mapped to `e`, replacing its entry if it has one.
pub open spec fn with_entry(es: StoreView, key: Seq<Seq<char>>, e: CacheView) -> StoreView {
    match find_from(es, key, 0) {
        Some(i) => es.update(i, (key, e)),
        None => es.push((key, e)),
    }
}

/// The file was looked at less than [`STAT_INTERVAL_NANOS`] before `now`
/// (a clock that went back counts as no time passing).
pub open spec fn fresh(es: StoreView, key: Seq<Seq<char>>, now: u64) -> bool {
    match entry_for(es, key) {
        Some(e) => (if now >= e.last_stat {
            now - e.last_stat
        } else {
            0
        }) < STAT_INTERVAL_NANOS,
        None => false,
    }
}

/// The file's stamp is the one remembered.
pub open spec fn unchanged(es: StoreView, key: Seq<Seq<char>>, meta: Option<FileStamp>) -> bool {
    match entry_for(es, key) {
        Some(e) => e.meta == meta,
        None => false,
    }
}

/// What the caller of the store is to do next.
#[derive(Clone, Copy, Debug, PartialEq, Eq, Structural)]
pub enum StoreAction {
    /// Answer with what the store holds for the file.
    UseCached,
    /// Look at the file's stamp and report it to [`ConfigStore::after_stamp`].
    ReadStamp,
    /// Read the file and report what it gave to [`ConfigStore::after_read`].
    ReadFile,
}

/// The first step of a lookup: the remembered answer while it is fresh,
/// else a look at the file's stamp.
pub open spec fn begin_action(es: StoreView, key: Seq<Seq<char>>, now: u64) -> StoreAction {
    if fresh(es, key, now) {
        StoreAction::UseCached
    } else {
        StoreAction::ReadStamp
    }
}

/// The step after the stamp was read: the remembered answer when the stamp
/// is the remembered one or the file is missing, else a read of the file.
pub open spec fn stamp_action(es: StoreView, key: Seq<Seq<char>>, meta: Option<FileStamp>) -> StoreAction {
    if unchanged(es, key, meta) || meta is None {
        StoreAction::UseCached
    } else {
        StoreAction::ReadFile
    }
}

/// Rate-limited pyproject.toml cache: stat at most once per second per path;
/// reread only when mtime or size changes.
#[derive(Debug)]
pub struct ConfigStore {
    entries: Vec<(Vec<String>, CachedConfig)>,
}

/// The entries of a list of entries.
pub open spec fn entries_view(v: Seq<(Vec<String>, CachedConfig)>) -> StoreView {
    v.map_values(|e: (Vec<String>, CachedConfig)| (strings_view(e.0@), e.1@))
}

/// No path has two entries.
pub open spec fn keys_distinct(es: StoreView) -> bool {
    forall|i: int, j: int| 0 <= i < j < es.len() ==> es[i].0 != es[j].0
}

impl View for ConfigStore {
    type V = StoreView;

    closed spec fn view(&self) -> StoreView {
        entries_view(self.entries@)
    }
}

proof fn lemma_find_from(es: StoreView, key: Seq<Seq<char>>, i: int)
    requires
        0 <= i <= es.len(),
    ensures
        match find_from(es, key, i) {
            Some(k) => i <= k < es.len() && es[k].0 == key && forall|j: int|
                i <= j < k ==> es[j].0 != key,
            None => forall|j: int| i <= j < es.len() ==> es[j].0 != key,
        },
    decreases es.len() - i,
{
    if i < es.len() && es[i].0 != key {
        lemma_find_from(es, key, i + 1);
    }
}

fn same_path(a: &Vec<String>, b: &Vec<String>) -> (r: bool)
    ensures
        r == (strings_view(a@) == strings_view(b@)),
{
    let ghost av = strings_view(a@);
    let ghost bv = strings_view(b@);
    if a.len() != b.len() {
        assert(av.len() == a.len() && bv.len() == b.len());
        return false;
    }
    let mut i: usize = 0;
    while i < a.len()
        invariant
            i <= a.len() == b.len(),
            av.len() == a.len(),
            bv.len() == b.len(),
            av == strings_view(a@),
            bv == strings_view(b@),
            forall|j: int| 0 <= j < i ==> av[j] == bv[j],
        decreases a.len() - i,
    {
        if !text_is(a[i].as_str(), b[i].as_str()) {
            assert(av[i as int] != bv[i as int]);
            return false;
        }
        i = i + 1;
    }
    assert(av =~= bv);
    true
}

impl ConfigStore {
    #[verifier::type_invariant]
    spec fn inv(&self) -> bool {
        keys_distinct(entries_view(self.entries@))
    }

    /// An empty store.
    pub fn new() -> (s: Self)
        ensures
            s@ == Seq::<(Seq<Seq<char>>, CacheView)>::empty(),
    {
        let s = ConfigStore { entries: Vec::new() };
        assert(s@ =~= Seq::<(Seq<Seq<char>>, CacheView)>::empty());
        s
    }

    fn index_of(&self, key: &Vec<String>) -> (r: Option<usize>)
        ensures
            find_from(self@, strings_view(key@), 0) == (match r {
                Some(i) => Some(i as int),
                None => None::<int>,
            }),
            r matches Some(i) ==> i < self.entries.len(),
    {
        let ghost es = self@;
        let ghost k = strings_view(key@);
        proof {
            lemma_find_from(es, k, 0);
        }
        let mut i: usize = 0;
        while i < self.entries.len()
            invariant
                i <= self.entries.len(),
                es == self@,
                es == entries_view(self.entries@),
                es.len() == self.entries.len(),
                k == strings_view(key@),
                find_from(es, k, i as int) == find_from(es, k, 0),
            decreases self.entries.len() - i,
        {
            assert(es[i as int].0 == strings_view(self.entries[i as int].0@));
            if same_path(&self.entries[i].0, key) {
                return Some(i);
            }
            i = i + 1;
        }
        None
    }

    /// The first step of a lookup: within a second of the last look at the
    /// file the remembered answer stands; otherwise its stamp is to be read.
    pub fn begin(&self, key: &Vec<String>, now: u64) -> (a: StoreAction)
        ensures
            a == begin_action(self@, strings_view(key@), now),
    {
        match self.index_of(key) {
            Some(i) => {
                let last = self.entries[i].1.last_stat;
                let elapsed = if now >= last {
                    now - last
                } else {
                    0
                };
                if elapsed < STAT_INTERVAL_NANOS {
                    StoreAction::UseCached
                } else {
                    StoreAction::ReadStamp
                }
            },
            None => StoreAction::ReadStamp,
        }
    }

    /// After the file's stamp was read at `now`: when it is the remembered
    /// one, the remembered answer stands and counts as looked at now; when
    /// the file is missing, that is remembered; otherwise the file is to be
    /// read.
    pub fn after_stamp(&mut self, key: &Vec<String>, now: u64, meta: Option<FileStamp>) -> (a:
        StoreAction)
        ensures
            a == stamp_action(old(self)@, strings_view(key@), meta),
            unchanged(old(self)@, strings_view(key@), meta) ==> final(self)@ == with_entry(
                old(self)@,
                strings_view(key@),
                CacheView { last_stat: now, ..entry_for(old(self)@, strings_view(key@))->0 },
            ),
            !unchanged(old(self)@, strings_view(key@), meta) && meta is None ==> final(self)@
                == with_entry(
                old(self)@,
                strings_view(key@),
                CacheView { last_stat: now, meta: None, result: None },
            ),
            !unchanged(old(self)@, strings_view(key@), meta) && meta is Some ==> final(self)@
                == old(self)@,
    {
        let ghost es = self@;
        let ghost k = strings_view(key@);
        proof {
            lemma_find_from(es, k, 0);
        }
        match self.index_of(key) {
            Some(i) => {
                assert(es[i as int].1 == self.entries[i as int].1@);
                assert(es[i as int].0 == k);
                if self.entries[i].1.meta == meta {
                    self.touch(i, now);
                    return StoreAction::UseCached;
                }
            },
            None => {},
        }
        if meta.is_none() {
            self.record(key, now, None, None);
            StoreAction::UseCached
        } else {
            StoreAction::ReadFile
        }
    }

    fn touch(&mut self, i: usize, now: u64)
        requires
            i < old(self).entries.len(),
        ensures
            final(self)@ == old(self)@.update(
                i as int,
                (old(self)@[i as int].0, CacheView { last_stat: now, ..old(self)@[i as int].1 }),
            ),
    {
        proof {
            use_type_invariant(&*self);
        }
        let ghost es = self@;
        let mut entries = Vec::new();
        std::mem::swap(&mut entries, &mut self.entries);
        let mut e = entries.remove(i);
        e.1.last_stat = now;
        entries.insert(i, e);
        assert(entries_view(entries@) =~= es.update(
            i as int,
            (es[i as int].0, CacheView { last_stat: now, ..es[i as int].1 }),
        ));
        self.entries = entries;
    }

    /// Remembers what reading the file at `now` gave.
    pub fn after_read(&mut self, key: &Vec<String>, now: u64, meta: Option<FileStamp>, result: LoadResult)
        ensures
            final(self)@ == with_entry(
                old(self)@,
                strings_view(key@),
                CacheView { last_stat: now, meta, result: load_view(result) },
            ),
    {
        self.record(key, now, meta, result);
    }

    fn record(&mut self, key: &Vec<String>, now: u64, meta: Option<FileStamp>, result: LoadResult)
        ensures
            final(self)@ == with_entry(
                old(self)@,
                strings_view(key@),
                CacheView { last_stat: now, meta, result: load_view(result) },
            ),
    {
        proof {
            use_type_invariant(&*self);
        }
        let ghost es = self@;
        let ghost k = strings_view(key@);
        let ghost ev = CacheView { last_stat: now, meta, result: load_view(result) };
        let found = self.index_of(key);
        proof {
            lemma_find_from(es, k, 0);
        }
        let mut entries = Vec::new();
        std::mem::swap(&mut entries, &mut self.entries);
        let entry = (crate::text::copy_strings(key), CachedConfig { last_stat: now, meta, result });
        match found {
            Some(i) => {
                entries.remove(i);
                entries.insert(i, entry);
                assert(entries_view(entries@) =~= es.update(i as int, (k, ev)));
            },
            None => {
                entries.push(entry);
                assert(entries_view(entries@) =~= es.push((k, ev)));
            },
        }
        assert(keys_distinct(entries_view(entries@)));
        self.entries = entries;
    }

    /// What the store holds for the file, if anything.
    pub fn cached(&self, key: &Vec<String>) -> (r: Option<&LoadResult>)
        ensures
            match r {
                Some(x) => entry_for(self@, strings_view(key@)) matches Some(e) && e.result
                    == load_view(*x),
                None => entry_for(self@, strings_view(key@)) is None,
            },
    {
        match self.index_of(key) {
            Some(i) => {
                assert(self@[i as int].1 == self.entries[i as int].1@);
                Some(&self.entries[i].1.result)
            },
            None => None,
        }
    }
}

/// Law (no rereading within the rate limit): once what reading a file gave
/// is recorded at `t`, a lookup for it at any `t2` less than a second later
/// is answered from the store, with that result.
pub proof fn lemma_recorded_is_fresh(
    es: StoreView,
    key: Seq<Seq<char>>,
    t: u64,
    t2: u64,
    e: CacheView,
)
    requires
        e.last_stat == t,
        t2 < t + STAT_INTERVAL_NANOS,
    ensures
        begin_action(with_entry(es, key, e), key, t2) == StoreAction::UseCached,
        entry_for(with_entry(es, key, e), key) == Some(e),
{
    lemma_entry_for_with_entry(es, key, e);
}

/// The entry just recorded for a key is the one found for it.
proof fn lemma_entry_for_with_entry(es: StoreView, key: Seq<Seq<char>>, e: CacheView)
    ensures
        entry_for(with_entry(es, key, e), key) == Some(e),
{
    lemma_find_from(es, key, 0);
    let ns = with_entry(es, key, e);
    lemma_find_from(ns, key, 0);
    match find_from(es, key, 0) {
        Some(i) => {
            assert(ns[i].0 == key);
            if find_from(ns, key, 0) != Some(i) {
                assert(ns[find_from(ns, key, 0)->0].0 == key);
            }
        },
        None => {
            assert(ns[es.len() as int].0 == key);
        },
    }
}

/// Law (reread after the rate limit, and only on change): a second or more
/// after a file was looked at, a lookup looks at its stamp again; then the
/// file is read again when it is there and its stamp differs from the
/// remembered one, and not when the stamp is the same.
pub proof fn lemma_stale_is_restamped(
    es: StoreView,
    key: Seq<Seq<char>>,
    t: u64,
    t2: u64,
    e: CacheView,
    meta: Option<FileStamp>,
)
    requires
        e.last_stat == t,
        t + STAT_INTERVAL_NANOS <= t2,
    ensures
        begin_action(with_entry(es, key, e), key, t2) == StoreAction::ReadStamp,
        stamp_action(with_entry(es, key, e), key, meta) == (if meta is Some && meta != e.meta {
            StoreAction::ReadFile
        } else {
            StoreAction::UseCached
        }),
{
    lemma_entry_for_with_entry(es, key, e);
}

} // verus!
