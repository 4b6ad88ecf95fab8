//! The catalog of versions: which versions are known, under which names,
//! and what subscribers have been told.
//!
//! The manager holds the state and takes the decisions. Fetching patch
//! lists, reading and writing the persisted files and notifying subscribers
//! are done around it: each method here says what the state becomes and what
//! is to be done next.

use vstd::prelude::*;
use vstd::string::StringExecFns;

use crate::utility::assoc::{
    distinct, entry_names, find_entry, find_key, keys_of, lemma_position, lemma_position_distinct,
    lemma_position_push, lemma_upsert, lemma_without_value, lookup, position, upsert, without_value,
};
use crate::utility::text::texts;
use crate::utility::warnings::Warnings;
use crate::version::key::VersionKey;
use crate::version::version::{key_of, RepositoryView, Version};

verus! {

/// Settings of the version manager.
#[derive(Debug)]
pub struct Config {
    /// Seconds between two checks for updates.
    pub interval: u64,
    /// The directory of the persisted catalog.
    pub directory: String,
    /// The repositories that make up a version.
    pub repositories: Vec<String>,
}

/// The catalog as it is persisted: the known keys, and the names given to
/// them.
#[derive(Debug)]
pub struct PersistedMetadata {
    pub versions: Vec<VersionKey>,
    pub names: Vec<(String, VersionKey)>,
}

/// The known versions as plain values.
pub open spec fn version_views(table: Seq<(VersionKey, Version)>) -> Seq<
    (VersionKey, Seq<RepositoryView>),
> {
    table.map_values(|e: (VersionKey, Version)| (e.0, e.1@))
}

/// The names as plain values.
pub open spec fn name_views(table: Seq<(String, VersionKey)>) -> Seq<(Seq<char>, VersionKey)> {
    table.map_values(|e: (String, VersionKey)| (e.0@, e.1))
}

/// The catalog of versions.
pub struct Manager {
    update_interval: u64,
    directory: String,
    repositories: Vec<String>,
    versions: Vec<(VersionKey, Version)>,
    names: Vec<(String, VersionKey)>,
    channel: Vec<VersionKey>,
    written: Vec<VersionKey>,
    saved: Vec<bool>,
}

impl Manager {
    /// The catalog is well formed: no key is held twice, and no name either.
    pub closed spec fn wf(&self) -> bool {
        &&& distinct(keys_of(self.versions@))
        &&& distinct(entry_names(self.names@))
        &&& self.saved@.len() == self.versions@.len()
    }

    /// The version known under the key is on disk as it is known: it was
    /// read from disk, or reported written, and has not been replaced since.
    pub closed spec fn is_saved(&self, key: VersionKey) -> bool {
        match position(keys_of(self.versions@), key) {
            Some(i) => 0 <= i < self.saved@.len() && self.saved@[i],
            None => false,
        }
    }

    /// Every version is saved exactly if it was for `earlier`.
    pub open spec fn same_saved(&self, earlier: &Manager) -> bool {
        forall|key: VersionKey| #[trigger] self.is_saved(key) == earlier.is_saved(key)
    }

    /// Every version but that of `key` is saved exactly if it was for
    /// `earlier`.
    pub open spec fn saved_but(&self, earlier: &Manager, key: VersionKey) -> bool {
        forall|other: VersionKey|
            other != key ==> #[trigger] self.is_saved(other) == earlier.is_saved(other)
    }

    /// The known versions, in the order in which they became known.
    pub closed spec fn versions(&self) -> Seq<(VersionKey, Seq<RepositoryView>)> {
        version_views(self.versions@)
    }

    /// The names and the key each stands for, in the order in which the names
    /// were first given.
    pub closed spec fn name_table(&self) -> Seq<(Seq<char>, VersionKey)> {
        name_views(self.names@)
    }

    /// The keys that subscribers were last told.
    pub closed spec fn announced(&self) -> Seq<VersionKey> {
        self.channel@
    }

    /// Seconds between two checks for updates.
    pub closed spec fn interval(&self) -> u64 {
        self.update_interval
    }

    /// The directory of the persisted catalog.
    pub closed spec fn directory(&self) -> Seq<char> {
        self.directory@
    }

    /// The repositories that make up a version.
    pub closed spec fn repositories(&self) -> Seq<String> {
        self.repositories@
    }

    /// The version of the key is known.
    pub open spec fn knows(&self, key: VersionKey) -> bool {
        lookup(self.versions(), key) is Some
    }

    /// Every version known to `earlier` is known to this one.
    pub open spec fn keeps(&self, earlier: &Manager) -> bool {
        forall|key: VersionKey| earlier.knows(key) ==> #[trigger] self.knows(key)
    }

    /// The keys whose version file is on disk, as far as the manager was
    /// told: the versions it was handed as read from disk, and the ones it
    /// was told have been written.
    pub closed spec fn written(&self) -> Seq<VersionKey> {
        self.written@
    }

    /// The version file of the key is on disk.
    pub open spec fn is_written(&self, key: VersionKey) -> bool {
        self.written().contains(key)
    }

    /// Every version file that was on disk for `earlier` still is.
    pub open spec fn keeps_written(&self, earlier: &Manager) -> bool {
        forall|key: VersionKey| earlier.is_written(key) ==> #[trigger] self.is_written(key)
    }

    /// The version file of every known version is on disk.
    pub open spec fn all_written(&self) -> bool {
        forall|key: VersionKey| #[trigger] self.knows(key) ==> self.is_written(key)
    }

    /// The version file of every key that subscribers were told is on disk.
    pub open spec fn announced_written(&self) -> bool {
        forall|i: int|
            0 <= i < self.announced().len() ==> self.is_written(#[trigger] self.announced()[i])
    }

    /// Every key that subscribers of `earlier` were told, subscribers of this
    /// one were told as well.
    pub open spec fn keeps_announced(&self, earlier: &Manager) -> bool {
        forall|key: VersionKey|
            earlier.announced().contains(key) ==> #[trigger] self.announced().contains(key)
    }

    /// Every key that subscribers were told is the key of a known version.
    pub open spec fn announced_known(&self) -> bool {
        forall|i: int|
            0 <= i < self.announced().len() ==> self.knows(#[trigger] self.announced()[i])
    }

    /// Every name stands for a known version.
    pub open spec fn names_resolve(&self) -> bool {
        forall|i: int|
            0 <= i < self.name_table().len() ==> lookup(
                self.versions(),
                (#[trigger] self.name_table()[i]).1,
            ) is Some
    }

    /// The settings are the same in both.
    pub open spec fn same_settings(&self, other: &Manager) -> bool {
        &&& self.interval() == other.interval()
        &&& self.directory() == other.directory()
        &&& self.repositories() == other.repositories()
    }

    /// In a well-formed catalog no key is held twice, and no name either.
    pub proof fn lemma_wf(&self)
        requires
            self.wf(),
        ensures
            distinct(keys_of(self.versions())),
            distinct(keys_of(self.name_table())),
    {
        assert(keys_of(self.versions()) =~= keys_of(self.versions@));
        assert(keys_of(self.name_table()) =~= entry_names(self.names@));
    }

    /// A manager that knows no version yet.
    pub fn new(config: Config) -> (r: Manager)
        ensures
            r.interval() == config.interval,
            r.directory() == config.directory@,
            r.repositories() == config.repositories@,
            r.versions().len() == 0,
            r.name_table().len() == 0,
            r.announced().len() == 0,
            r.written().len() == 0,
            r.wf(),
            r.names_resolve(),
            r.announced_known(),
            r.announced_written(),
    {
        let Config { interval, directory, repositories } = config;
        let r = Manager {
            update_interval: interval,
            directory,
            repositories,
            versions: Vec::new(),
            names: Vec::new(),
            channel: Vec::new(),
            written: Vec::new(),
            saved: Vec::new(),
        };
        r
    }

    /// The keys that a new subscriber is told at once.
    pub fn subscribe(&self) -> (r: Vec<VersionKey>)
        ensures
            r@ == self.announced(),
    {
        self.channel.clone()
    }

    /// The keys of all known versions.
    pub fn keys(&self) -> (r: Vec<VersionKey>)
        requires
            self.wf(),
        ensures
            r@ == keys_of(self.versions()),
            distinct(r@),
    {
        let mut r: Vec<VersionKey> = Vec::new();
        let mut i: usize = 0;
        while i < self.versions.len()
            invariant
                i <= self.versions.len(),
                r@ == keys_of(self.versions@).take(i as int),
            decreases self.versions.len() - i,
        {
            r.push(self.versions[i].0);
            assert(r@ =~= keys_of(self.versions@).take(i + 1));
            i = i + 1;
        }
        proof {
            assert(keys_of(self.versions@).take(self.versions@.len() as int) =~= keys_of(
                self.versions@,
            ));
            assert(keys_of(self.versions()) =~= keys_of(self.versions@));
        }
        r
    }

    /// The key that a name stands for; without a name, the key of the latest
    /// version.
    pub fn resolve(&self, name: Option<&str>) -> (r: Option<VersionKey>)
        ensures
            r == lookup(
                self.name_table(),
                match name {
                    Some(name) => name@,
                    None => "latest"@,
                },
            ),
    {
        let name = match name {
            Some(name) => String::from_str(name),
            None => String::from_str("latest"),
        };
        proof {
            assert(keys_of(self.name_table()) =~= entry_names(self.names@));
            lemma_position(entry_names(self.names@), name@);
        }
        match find_entry(&self.names, &name) {
            Some(i) => Some(self.names[i].1),
            None => None,
        }
    }

    /// The version of a key, if it is known.
    pub fn version(&self, key: VersionKey) -> (r: Option<Version>)
        ensures
            match r {
                Some(version) => lookup(self.versions(), key) == Some(version@),
                None => lookup(self.versions(), key) is None,
            },
    {
        proof {
            assert(keys_of(self.versions()) =~= keys_of(self.versions@));
        }
        match find_key(&self.versions, key) {
            Some(i) => Some(self.versions[i].1.duplicate()),
            None => None,
        }
    }

    /// Takes in the version that an update pass has put together.
    ///
    /// The version goes under its own key. A key that was not known is
    /// added. A known key whose stored version differs in any repository,
    /// patch or path has it replaced. In both cases the name `latest` is
    /// pointed at the key, and the key is handed back: the caller persists
    /// the version and the catalog, reports that with `persisted`, and only
    /// then calls `broadcast`.
    ///
    /// A known key with the same version is handed back in the same way for
    /// as long as the version is not saved: a pass whose writing failed is
    /// made good by the next. Once the version is saved, the same version
    /// changes nothing, and nothing is handed back.
    pub fn update(&mut self, version: Version) -> (r: Option<VersionKey>)
        requires
            old(self).wf(),
        ensures
            final(self).wf(),
            r == if self::changes(old(self).versions(), version@) || !old(self).is_saved(
                key_of(version@),
            ) {
                Some(key_of(version@))
            } else {
                None
            },
            final(self).versions() == upsert(old(self).versions(), key_of(version@), version@),
            lookup(final(self).versions(), key_of(version@)) == Some(version@),
            r is Some ==> lookup(final(self).name_table(), "latest"@) == Some(key_of(version@)),
            final(self).name_table() == if r is Some {
                upsert(old(self).name_table(), "latest"@, key_of(version@))
            } else {
                old(self).name_table()
            },
            final(self).is_saved(key_of(version@)) == (r is None),
            final(self).saved_but(old(self), key_of(version@)),
            final(self).announced() == old(self).announced(),
            final(self).written() == old(self).written(),
            final(self).same_settings(old(self)),
            final(self).keeps(old(self)),
            old(self).announced_known() ==> final(self).announced_known(),
            old(self).announced_written() ==> final(self).announced_written(),
            old(self).names_resolve() ==> final(self).names_resolve(),
    {
        proof {
            self.lemma_wf();
            lemma_upsert(self.versions(), key_of(version@), version@);
            lemma_upsert(self.name_table(), "latest"@, key_of(version@));
        }
        let key = version.key();
        if self.put(key, version) {
            Some(key)
        } else {
            None
        }
    }

    /// Stores a version under a key, with the note whether it is saved.
    fn store(&mut self, key: VersionKey, version: Version, saved: bool)
        requires
            old(self).wf(),
        ensures
            final(self).wf(),
            final(self).versions() == upsert(old(self).versions(), key, version@),
            final(self).is_saved(key) == saved,
            final(self).saved_but(old(self), key),
            final(self).keeps(old(self)),
            final(self).names == old(self).names,
            final(self).channel == old(self).channel,
            final(self).written == old(self).written,
            final(self).update_interval == old(self).update_interval,
            final(self).directory == old(self).directory,
            final(self).repositories == old(self).repositories,
    {
        let ghost before = self.versions();
        let ghost keys_before = keys_of(self.versions@);
        proof {
            assert(keys_of(before) =~= keys_before);
            lemma_position(keys_before, key);
            lemma_upsert(before, key, version@);
        }
        match find_key(&self.versions, key) {
            Some(i) => {
                self.versions.set(i, (key, version));
                self.saved.set(i, saved);
                proof {
                    assert(version_views(self.versions@) =~= before.update(
                        i as int,
                        (key, version@),
                    ));
                    assert(keys_of(self.versions@) =~= keys_before);
                    assert forall|other: VersionKey| other != key implies #[trigger] self.is_saved(
                        other,
                    ) == old(self).is_saved(other) by {
                        lemma_position(keys_before, other);
                    }
                }
            },
            None => {
                self.versions.push((key, version));
                self.saved.push(saved);
                proof {
                    assert(version_views(self.versions@) =~= before.push((key, version@)));
                    assert(keys_of(self.versions@) =~= keys_before.push(key));
                    lemma_position_push(keys_before, key, key);
                    assert forall|other: VersionKey| other != key implies #[trigger] self.is_saved(
                        other,
                    ) == old(self).is_saved(other) by {
                        lemma_position_push(keys_before, key, other);
                        lemma_position(keys_before, other);
                    }
                }
            },
        }
        proof {
            assert forall|known: VersionKey| old(self).knows(known) implies #[trigger] self.knows(
                known,
            ) by {
                if known != key {
                    assert(lookup(self.versions(), known) == lookup(before, known));
                }
            }
        }
    }

    /// Stores a version under a key, marks it as not saved and points
    /// `latest` at it, unless the key already holds the same version, saved.
    fn put(&mut self, key: VersionKey, version: Version) -> (changed: bool)
        requires
            old(self).wf(),
        ensures
            final(self).wf(),
            changed == (self::changes_at(old(self).versions(), key, version@) || !old(
                self,
            ).is_saved(key)),
            final(self).versions() == upsert(old(self).versions(), key, version@),
            final(self).name_table() == if changed {
                upsert(old(self).name_table(), "latest"@, key)
            } else {
                old(self).name_table()
            },
            final(self).is_saved(key) == !changed,
            final(self).saved_but(old(self), key),
            final(self).announced() == old(self).announced(),
            final(self).written() == old(self).written(),
            final(self).same_settings(old(self)),
            final(self).keeps(old(self)),
            old(self).announced_known() ==> final(self).announced_known(),
            old(self).announced_written() ==> final(self).announced_written(),
            old(self).names_resolve() ==> final(self).names_resolve(),
    {
        proof {
            assert(keys_of(self.versions()) =~= keys_of(self.versions@));
            assert(keys_of(self.name_table()) =~= entry_names(self.names@));
            lemma_position(keys_of(self.versions@), key);
            lemma_upsert(self.versions(), key, version@);
            lemma_upsert(self.name_table(), "latest"@, key);
        }
        let ghost before = self.versions();
        let settled = match find_key(&self.versions, key) {
            Some(i) => self.saved[i] && self.versions[i].1.same_as(&version),
            None => false,
        };
        if settled {
            proof {
                let i = position(keys_of(before), key)->Some_0;
                assert(before.update(i, (key, version@)) =~= before);
            }
            return false;
        }
        self.store(key, version, false);
        let ghost stored = *self;
        let latest = String::from_str("latest");
        let ghost names_before = name_views(self.names@);
        proof {
            lemma_position(entry_names(self.names@), latest@);
        }
        match find_entry(&self.names, &latest) {
            Some(i) => {
                self.names.set(i, (latest, key));
                assert(name_views(self.names@) =~= names_before.update(i as int, ("latest"@, key)));
            },
            None => {
                self.names.push((latest, key));
                assert(name_views(self.names@) =~= names_before.push(("latest"@, key)));
            },
        }
        proof {
            assert(keys_of(self.versions()) =~= keys_of(self.versions@));
            assert(keys_of(self.name_table()) =~= entry_names(self.names@));
            if old(self).names_resolve() {
                assert forall|i: int| 0 <= i < self.name_table().len() implies lookup(
                    self.versions(),
                    (#[trigger] self.name_table()[i]).1,
                ) is Some by {
                    let named = self.name_table()[i].1;
                    if named != key {
                        assert(old(self).name_table()[i].1 == named);
                        assert(old(self).knows(named));
                    }
                }
            }
            assert(self.is_saved(key) == stored.is_saved(key));
            assert forall|other: VersionKey| other != key implies #[trigger] self.is_saved(other)
                == old(self).is_saved(other) by {
                assert(self.is_saved(other) == stored.is_saved(other));
            }
            assert forall|known: VersionKey| old(self).knows(known) implies #[trigger] self.knows(
                known,
            ) by {
                assert(stored.knows(known));
            }
            if old(self).announced_known() {
                assert forall|i: int| 0 <= i < self.announced().len() implies self.knows(
                    #[trigger] self.announced()[i],
                ) by {
                    assert(old(self).knows(old(self).announced()[i]));
                }
            }
            if old(self).announced_written() {
                assert forall|i: int| 0 <= i < self.announced().len() implies self.is_written(
                    #[trigger] self.announced()[i],
                ) by {
                    assert(old(self).is_written(old(self).announced()[i]));
                }
            }
        }
        true
    }

    /// Decides whether subscribers are to be told the keys.
    ///
    /// They are told the keys of the known versions whose file is on disk,
    /// in the order in which the versions became known, and only when that
    /// list differs from what they were told last. A key that they were told
    /// before stays in the list.
    pub fn broadcast(&mut self) -> (r: Option<Vec<VersionKey>>)
        requires
            old(self).wf(),
        ensures
            final(self).wf(),
            final(self).versions() == old(self).versions(),
            final(self).name_table() == old(self).name_table(),
            final(self).same_settings(old(self)),
            final(self).announced() == told(keys_of(old(self).versions()), old(self).written()),
            final(self).written() == old(self).written(),
            final(self).keeps(old(self)),
            final(self).same_saved(old(self)),
            final(self).announced_known(),
            final(self).announced_written(),
            old(self).announced_known() && old(self).announced_written()
                ==> final(self).keeps_announced(old(self)),
            old(self).names_resolve() ==> final(self).names_resolve(),
            match r {
                Some(keys) => keys@ == final(self).announced() && keys@ != old(self).announced(),
                None => old(self).announced() == final(self).announced(),
            },
    {
        let ghost all = keys_of(self.versions());
        proof {
            assert(all =~= keys_of(self.versions@));
            lemma_told(all, self.written@);
        }
        let mut keys: Vec<VersionKey> = Vec::new();
        let mut i: usize = 0;
        while i < self.versions.len()
            invariant
                i <= self.versions.len(),
                all == keys_of(self.versions@),
                keys@ == told(all.take(i as int), self.written@),
            decreases self.versions.len() - i,
        {
            proof {
                assert(all.take(i + 1).drop_last() =~= all.take(i as int));
                assert(all.take(i + 1).last() == self.versions@[i as int].0);
            }
            if holds(&self.written, self.versions[i].0) {
                keys.push(self.versions[i].0);
            }
            i = i + 1;
        }
        proof {
            assert(all.take(all.len() as int) =~= all);
            assert forall|j: int| 0 <= j < keys@.len() implies self.knows(#[trigger] keys@[j])
                && self.is_written(keys@[j]) by {
                lemma_position(all, keys@[j]);
            }
            if old(self).announced_known() && old(self).announced_written() {
                assert forall|key: VersionKey|
                    old(self).announced().contains(key) implies keys@.contains(key) by {
                    let j = choose|j: int|
                        0 <= j < old(self).announced().len() && old(self).announced()[j] == key;
                    assert(old(self).knows(old(self).announced()[j]));
                    assert(old(self).is_written(old(self).announced()[j]));
                    lemma_position(all, key);
                }
            }
        }
        let modified = !same_keys(&keys, &self.channel);
        if modified {
            self.channel = keys.clone();
            Some(keys)
        } else {
            None
        }
    }

    /// The names that stand for a key, if the key is known.
    pub fn names(&self, key: VersionKey) -> (r: Option<Vec<String>>)
        ensures
            match r {
                Some(found) => lookup(self.versions(), key) is Some && texts(
                    found@,
                ) == names_of(self.name_table(), key),
                None => lookup(self.versions(), key) is None,
            },
    {
        proof {
            assert(keys_of(self.versions()) =~= keys_of(self.versions@));
        }
        if find_key(&self.versions, key).is_none() {
            return None;
        }
        let mut found: Vec<String> = Vec::new();
        let mut i: usize = 0;
        proof {
            reveal(Seq::filter);
            assert(name_views(self.names@.take(0)) =~= Seq::empty());
            assert(texts(found@) =~= names_of(
                name_views(self.names@.take(0)),
                key,
            ));
        }
        while i < self.names.len()
            invariant
                i <= self.names.len(),
                texts(found@) == names_of(
                    name_views(self.names@.take(i as int)),
                    key,
                ),
            decreases self.names.len() - i,
        {
            let ghost before = name_views(self.names@.take(i as int));
            let ghost after = name_views(self.names@.take(i + 1));
            proof {
                reveal(Seq::filter);
                assert(after.drop_last() =~= before);
                assert(after.last() == (self.names@[i as int].0@, self.names@[i as int].1));
            }
            if self.names[i].1 == key {
                let ghost found_before = found@;
                found.push(self.names[i].0.clone());
                proof {
                    assert(held_by(after, key) == held_by(before, key).push(after.last()));
                    assert(keys_of(held_by(after, key)) =~= keys_of(held_by(before, key)).push(
                        after.last().0,
                    ));
                    assert(texts(found@) =~= texts(
                        found_before,
                    ).push(after.last().0));
                }
            } else {
                assert(held_by(after, key) == held_by(before, key));
            }
            i = i + 1;
        }
        proof {
            assert(self.names@.take(self.names@.len() as int) =~= self.names@);
        }
        Some(found)
    }

    /// Gives a known key the names listed, and those only.
    ///
    /// Names that stood for the key are taken from it first. A listed name
    /// that stood for another key is moved to this one. The caller persists
    /// the catalog afterwards. A key that is not known gets no name: nothing
    /// changes, and the result says so.
    pub fn set_names(&mut self, key: VersionKey, new_names: Vec<String>) -> (done: bool)
        requires
            old(self).wf(),
        ensures
            final(self).wf(),
            done == old(self).knows(key),
            final(self).name_table() == if done {
                renamed(old(self).name_table(), key, texts(new_names@))
            } else {
                old(self).name_table()
            },
            final(self).versions() == old(self).versions(),
            final(self).announced() == old(self).announced(),
            final(self).written() == old(self).written(),
            final(self).same_saved(old(self)),
            final(self).same_settings(old(self)),
            final(self).keeps(old(self)),
            old(self).announced_known() ==> final(self).announced_known(),
            old(self).announced_written() ==> final(self).announced_written(),
            old(self).names_resolve() ==> final(self).names_resolve(),
    {
        proof {
            assert(keys_of(self.versions()) =~= keys_of(self.versions@));
        }
        if find_key(&self.versions, key).is_none() {
            return false;
        }
        let ghost start = self.name_table();
        let ghost wanted = texts(new_names@);
        let mut kept: Vec<(String, VersionKey)> = Vec::new();
        std::mem::swap(&mut self.names, &mut kept);
        let ghost all = kept@;
        proof {
            reveal(Seq::filter);
            assert(keys_of(start) =~= entry_names(all));
            assert(name_views(all.take(0)) =~= Seq::empty());
            assert(name_views(self.names@) =~= without_value(name_views(all.take(0)), key));
        }
        for entry in it: kept
            invariant
                it.seq() == all,
                start == name_views(all),
                name_views(self.names@) == without_value(
                    name_views(all.take(it.index() as int)),
                    key,
                ),
                self.versions == old(self).versions,
                self.saved == old(self).saved,
                self.channel == old(self).channel,
                self.written == old(self).written,
                self.update_interval == old(self).update_interval,
                self.directory == old(self).directory,
                self.repositories == old(self).repositories,
        {
            let ghost done = it.index() as int;
            let ghost before = name_views(all.take(done));
            let ghost after = name_views(all.take(done + 1));
            let ghost names_before = name_views(self.names@);
            proof {
                reveal(Seq::filter);
                assert(after.drop_last() =~= before);
                assert(after.last() == (all[done].0@, all[done].1));
            }
            if entry.1 != key {
                self.names.push(entry);
                assert(name_views(self.names@) =~= names_before.push((all[done].0@, all[done].1)));
            }
        }
        proof {
            assert(all.take(all.len() as int) =~= all);
            lemma_without_value(start, key);
        }
        let ghost cleared = name_views(self.names@);
        let ghost given = new_names@;
        proof {
            assert(wanted.take(0) =~= Seq::empty());
        }
        for name in it: new_names
            invariant
                it.seq() == given,
                wanted == texts(given),
                distinct(keys_of(name_views(self.names@))),
                name_views(self.names@) == named_all(cleared, wanted.take(it.index() as int), key),
                self.versions == old(self).versions,
                self.saved == old(self).saved,
                self.channel == old(self).channel,
                self.written == old(self).written,
                self.update_interval == old(self).update_interval,
                self.directory == old(self).directory,
                self.repositories == old(self).repositories,
        {
            let ghost done = it.index() as int;
            let ghost names_before = name_views(self.names@);
            proof {
                assert(wanted.take(done + 1).drop_last() =~= wanted.take(done));
                assert(wanted.take(done + 1).last() == name@);
                assert(keys_of(names_before) =~= entry_names(self.names@));
                lemma_position(entry_names(self.names@), name@);
                lemma_upsert(names_before, name@, key);
            }
            match find_entry(&self.names, &name) {
                Some(i) => {
                    self.names.set(i, (name, key));
                    assert(name_views(self.names@) =~= names_before.update(i as int, (name@, key)));
                },
                None => {
                    self.names.push((name, key));
                    assert(name_views(self.names@) =~= names_before.push((name@, key)));
                },
            }
        }
        proof {
            assert(wanted.take(wanted.len() as int) =~= wanted);
            assert(keys_of(self.name_table()) =~= entry_names(self.names@));
            if old(self).names_resolve() {
                lemma_renamed_values(start, key, wanted);
                assert forall|i: int| 0 <= i < self.name_table().len() implies lookup(
                    self.versions(),
                    (#[trigger] self.name_table()[i]).1,
                ) is Some by {
                    let named = self.name_table()[i].1;
                    assert(renamed(start, key, wanted)[i].1 == named);
                    if named != key {
                        let j = choose|j: int| 0 <= j < start.len() && start[j].1 == named;
                        assert(lookup(old(self).versions(), old(self).name_table()[j].1) is Some);
                    }
                }
            }
        }
        true
    }

    /// The catalog as it is to be persisted.
    pub fn metadata(&self) -> (r: PersistedMetadata)
        requires
            self.wf(),
        ensures
            r.versions@ == keys_of(self.versions()),
            name_views(r.names@) == self.name_table(),
    {
        let versions = self.keys();
        let mut names: Vec<(String, VersionKey)> = Vec::new();
        let mut i: usize = 0;
        while i < self.names.len()
            invariant
                i <= self.names.len(),
                names@.len() == i,
                name_views(names@) == name_views(self.names@.take(i as int)),
            decreases self.names.len() - i,
        {
            let ghost before = names@;
            names.push((self.names[i].0.clone(), self.names[i].1));
            assert(name_views(names@) =~= name_views(self.names@.take(i + 1))) by {
                assert forall|k: int| 0 <= k < i + 1 implies name_views(names@)[k] == name_views(
                    self.names@.take(i + 1),
                )[k] by {
                    if k < i {
                        assert(name_views(before)[k] == name_views(self.names@.take(i as int))[k]);
                    }
                }
            }
            i = i + 1;
        }
        assert(self.names@.take(self.names@.len() as int) =~= self.names@);
        PersistedMetadata { versions, names }
    }

    /// The name of the file that holds the catalog.
    pub fn metadata_file() -> (r: String)
        ensures
            r@ == "metadata.json"@,
    {
        String::from_str("metadata.json")
    }

    /// The name of the file that holds the version of a key.
    pub fn version_file(key: VersionKey) -> (r: String)
        ensures
            r@ == "version-"@ + key.text() + ".json"@,
    {
        let hex = key.to_hex();
        let mut r = String::from_str("version-");
        r.append(hex.as_str());
        r.append(".json");
        r
    }

    /// Takes in what was persisted by an earlier run.
    ///
    /// `metadata` is the persisted catalog, if there is one, and `read` holds,
    /// for each key of the catalog in order, the version read for it, or
    /// nothing where its file could not be read. Without a catalog nothing
    /// changes and nobody is told anything.
    ///
    /// Versions that were read become known; each one that was not is
    /// skipped with a warning. Then the persisted names are taken in, in
    /// order; a name whose key did not become known is dropped with a
    /// warning. At the end subscribers are told the keys, as by `broadcast`.
    #[verifier::loop_isolation(false)]
    pub fn hydrate(&mut self, metadata: Option<PersistedMetadata>, read: Vec<Option<Version>>) -> (r:
        Warnings<Option<Vec<VersionKey>>>)
        requires
            old(self).wf(),
        ensures
            final(self).wf(),
            final(self).same_settings(old(self)),
            final(self).keeps(old(self)),
            final(self).keeps_written(old(self)),
            old(self).announced_known() ==> final(self).announced_known(),
            old(self).announced_written() ==> final(self).announced_written(),
            old(self).names_resolve() ==> final(self).names_resolve(),
            old(self).all_written() ==> final(self).all_written(),
            metadata is None ==> {
                &&& final(self).versions() == old(self).versions()
                &&& final(self).name_table() == old(self).name_table()
                &&& final(self).announced() == old(self).announced()
                &&& final(self).written() == old(self).written()
                &&& final(self).same_saved(old(self))
                &&& r.value() is None
                &&& r.warnings().len() == 0
            },
            metadata matches Some(persisted) ==> {
                &&& final(self).versions() == hydrated_versions(
                    old(self).versions(),
                    persisted.versions@,
                    read@,
                    read@.len(),
                )
                &&& final(self).name_table() == hydrated_names(
                    old(self).name_table(),
                    final(self).versions(),
                    name_views(persisted.names@),
                )
                &&& final(self).announced() == told(
                    keys_of(final(self).versions()),
                    final(self).written(),
                )
                &&& forall|key: VersionKey| #[trigger]
                    final(self).is_saved(key) == (old(self).is_saved(key) || was_read(
                        persisted.versions@,
                        read@,
                        read@.len(),
                        key,
                    ))
                &&& final(self).written() == hydrated_written(
                    old(self).written(),
                    persisted.versions@,
                    read@,
                    read@.len(),
                )
                &&& match r.value() {
                    Some(keys) => keys@ == final(self).announced() && keys@ != old(self).announced(),
                    None => final(self).announced() == old(self).announced(),
                }
                &&& r.warnings() == unread_warnings(persisted.versions@, read@, read@.len())
                    + unknown_warnings(final(self).versions(), name_views(persisted.names@))
            },
    {
        let persisted = match metadata {
            Some(persisted) => persisted,
            None => {
                return Warnings::new(None);
            },
        };
        let PersistedMetadata { versions: keys, names } = persisted;
        let mut warnings: Vec<String> = Vec::new();
        let ghost start = self.versions();
        let ghost all = read@;
        let total = read.len();
        proof {
            assert(keys_of(self.versions()) =~= keys_of(self.versions@));
            assert(texts(warnings@) =~= unread_warnings(keys@, all, 0));
        }
        let mut i: usize = 0;
        for item in it: read
            invariant
                it.seq() == all,
                all.len() == total,
                i == it.index(),
                self.wf(),
                self.keeps(old(self)),
                self.versions() == hydrated_versions(start, keys@, all, it.index() as nat),
                texts(warnings@) == unread_warnings(keys@, all, it.index() as nat),
                self.written@ == hydrated_written(
                    old(self).written@,
                    keys@,
                    all,
                    it.index() as nat,
                ),
                forall|key: VersionKey|
                    old(self).written@.contains(key) ==> self.written@.contains(key),
                forall|key: VersionKey|
                    lookup(self.versions(), key) is Some ==> lookup(start, key) is Some
                        || self.written@.contains(key),
                forall|key: VersionKey| #[trigger]
                    self.is_saved(key) == (old(self).is_saved(key) || was_read(
                        keys@,
                        all,
                        it.index() as nat,
                        key,
                    )),
                self.names == old(self).names,
                self.channel == old(self).channel,
                self.update_interval == old(self).update_interval,
                self.directory == old(self).directory,
                self.repositories == old(self).repositories,
        {
            let ghost before = self.versions();
            let ghost earlier = *self;
            if i < keys.len() {
                let key = keys[i];
                match item {
                    Some(version) => {
                        let ghost written_before = self.written@;
                        if !holds(&self.written, key) {
                            self.written.push(key);
                        }
                        let ghost marked = *self;
                        proof {
                            assert(marked.wf());
                            assert forall|other: VersionKey| #[trigger]
                                marked.is_saved(other) == earlier.is_saved(other) by {}
                            assert forall|other: VersionKey| earlier.knows(other) implies marked.knows(
                                other,
                            ) by {}
                        }
                        self.store(key, version, true);
                        proof {
                            marked.lemma_wf();
                            lemma_upsert(before, key, version@);
                            assert(self.written@.contains(key)) by {
                                if !written_before.contains(key) {
                                    assert(self.written@[written_before.len() as int] == key);
                                }
                            }
                            assert forall|other: VersionKey|
                                written_before.contains(other) implies self.written@.contains(
                                other,
                            ) by {
                                let j = choose|j: int|
                                    0 <= j < written_before.len() && written_before[j] == other;
                                assert(self.written@[j] == other);
                            }
                            assert forall|other: VersionKey|
                                lookup(self.versions(), other) is Some implies lookup(
                                start,
                                other,
                            ) is Some || self.written@.contains(other) by {
                                if other != key {
                                    assert(lookup(self.versions(), other) == lookup(before, other));
                                    if lookup(start, other) is None {
                                        assert(written_before.contains(other));
                                    }
                                }
                            }
                            assert forall|other: VersionKey| old(self).knows(
                                other,
                            ) implies #[trigger] self.knows(other) by {
                                assert(earlier.knows(other));
                                assert(marked.knows(other));
                            }
                            assert forall|other: VersionKey| #[trigger]
                                self.is_saved(other) == (old(self).is_saved(other) || was_read(
                                    keys@,
                                    all,
                                    (i + 1) as nat,
                                    other,
                                )) by {
                                if other != key {
                                    assert(self.is_saved(other) == marked.is_saved(other));
                                    assert(marked.is_saved(other) == earlier.is_saved(other));
                                }
                            }
                        }
                    },
                    None => {
                        let mut text = String::from_str("could not hydrate version ");
                        let hex = key.to_hex();
                        text.append(hex.as_str());
                        proof {
                            assert(texts(warnings@.push(text)) =~= texts(warnings@).push(text@));
                        }
                        warnings.push(text);
                    },
                }
            }
            i = i + 1;
        }
        let ghost known = self.versions();
        let ghost loaded = *self;
        let ghost tail = texts(warnings@);
        let ghost names_start = self.name_table();
        let ghost persisted_names = name_views(names@);
        let ghost named = names@;
        proof {
            assert(keys_of(self.name_table()) =~= entry_names(self.names@));
            assert(persisted_names.take(0) =~= Seq::empty());
            assert(texts(warnings@) =~= tail + unknown_warnings(known, persisted_names.take(0)));
        }
        for entry in it: names
            invariant
                it.seq() == named,
                persisted_names == name_views(named),
                known == version_views(self.versions@),
                self.versions == loaded.versions,
                self.saved == loaded.saved,
                distinct(keys_of(self.versions@)),
                distinct(entry_names(self.names@)),
                name_views(self.names@) == hydrated_names(
                    names_start,
                    known,
                    persisted_names.take(it.index() as int),
                ),
                texts(warnings@) == tail + unknown_warnings(
                    known,
                    persisted_names.take(it.index() as int),
                ),
                self.channel == old(self).channel,
                self.written == loaded.written,
                self.update_interval == old(self).update_interval,
                self.directory == old(self).directory,
                self.repositories == old(self).repositories,
        {
            let ghost done = it.index() as int;
            let ghost before = name_views(self.names@);
            let (name, key) = entry;
            proof {
                assert(persisted_names.take(done + 1).drop_last() =~= persisted_names.take(done));
                assert(persisted_names.take(done + 1).last() == (name@, key));
                assert(keys_of(known) =~= keys_of(self.versions@));
                assert(keys_of(before) =~= entry_names(self.names@));
                lemma_position(entry_names(self.names@), name@);
                lemma_upsert(before, name@, key);
            }
            if find_key(&self.versions, key).is_some() {
                match find_entry(&self.names, &name) {
                    Some(j) => {
                        self.names.set(j, (name, key));
                        assert(name_views(self.names@) =~= before.update(j as int, (name@, key)));
                    },
                    None => {
                        self.names.push((name, key));
                        assert(name_views(self.names@) =~= before.push((name@, key)));
                    },
                }
                proof {
                    assert(keys_of(name_views(self.names@)) =~= entry_names(self.names@));
                }
            } else {
                let mut text = String::from_str("unknown key ");
                let hex = key.to_hex();
                text.append(hex.as_str());
                text.append(" for name ");
                text.append(name.as_str());
                proof {
                    assert(text@ =~= "unknown key "@ + key.text() + " for name "@ + name@);
                    assert(texts(warnings@.push(text)) =~= texts(warnings@).push(text@));
                }
                warnings.push(text);
            }
        }
        proof {
            assert(persisted_names.take(persisted_names.len() as int) =~= persisted_names);
            assert(keys_of(start) =~= keys_of(old(self).versions@));
            lemma_hydrated_versions_keep(start, keys@, all, all.len());
            if old(self).names_resolve() {
                lemma_hydrated_names_known(names_start, known, persisted_names);
                assert forall|i: int| 0 <= i < self.name_table().len() implies lookup(
                    self.versions(),
                    (#[trigger] self.name_table()[i]).1,
                ) is Some by {
                    let held = self.name_table()[i].1;
                    assert(hydrated_names(names_start, known, persisted_names)[i].1 == held);
                    if lookup(known, held) is None {
                        let j = choose|j: int|
                            0 <= j < names_start.len() && names_start[j].1 == held;
                        assert(lookup(start, old(self).name_table()[j].1) is Some);
                    }
                }
            }
        }
        proof {
            if old(self).all_written() {
                assert forall|key: VersionKey| #[trigger] self.knows(key) implies self.is_written(
                    key,
                ) by {
                    if lookup(start, key) is Some {
                        assert(old(self).knows(key));
                        assert(old(self).is_written(key));
                    }
                }
            }
        }
        let ghost filled = *self;
        proof {
            assert forall|key: VersionKey| #[trigger]
                filled.is_saved(key) == loaded.is_saved(key) by {}
            assert forall|key: VersionKey| loaded.knows(key) implies #[trigger] filled.knows(key) by {}
        }
        let told = self.broadcast();
        proof {
            if old(self).all_written() {
                assert forall|key: VersionKey| #[trigger] self.knows(key) implies self.is_written(
                    key,
                ) by {
                    assert(filled.knows(key));
                    assert(filled.is_written(key));
                }
            }
            assert forall|key: VersionKey| #[trigger]
                self.is_saved(key) == (old(self).is_saved(key) || was_read(
                    keys@,
                    all,
                    all.len(),
                    key,
                )) by {
                assert(self.is_saved(key) == filled.is_saved(key));
            }
            assert forall|key: VersionKey| old(self).knows(key) implies #[trigger] self.knows(
                key,
            ) by {
                assert(loaded.knows(key));
                assert(filled.knows(key));
            }
        }
        Warnings::new(told).with_warnings(warnings)
    }

    /// Takes note that the version of a key has been written to disk as it
    /// is known. The caller reports this once the file of the version and
    /// the catalog have both been written in full; until then `broadcast`
    /// does not tell the key.
    pub fn persisted(&mut self, key: VersionKey)
        requires
            old(self).wf(),
        ensures
            final(self).wf(),
            final(self).written() == if old(self).is_written(key) {
                old(self).written()
            } else {
                old(self).written().push(key)
            },
            final(self).is_written(key),
            final(self).keeps_written(old(self)),
            final(self).is_saved(key) == old(self).knows(key),
            final(self).saved_but(old(self), key),
            final(self).versions() == old(self).versions(),
            final(self).name_table() == old(self).name_table(),
            final(self).announced() == old(self).announced(),
            final(self).same_settings(old(self)),
            final(self).keeps(old(self)),
            old(self).announced_known() ==> final(self).announced_known(),
            old(self).announced_written() ==> final(self).announced_written(),
            old(self).names_resolve() ==> final(self).names_resolve(),
    {
        let ghost before = self.written@;
        let ghost keys = keys_of(self.versions@);
        proof {
            assert(keys_of(self.versions()) =~= keys);
            lemma_position(keys, key);
        }
        if !holds(&self.written, key) {
            self.written.push(key);
            proof {
                assert(self.written@[before.len() as int] == key);
            }
        }
        match find_key(&self.versions, key) {
            Some(i) => {
                self.saved.set(i, true);
            },
            None => {},
        }
        proof {
            assert forall|other: VersionKey| other != key implies #[trigger] self.is_saved(other)
                == old(self).is_saved(other) by {
                lemma_position(keys, other);
            }
            assert forall|other: VersionKey| before.contains(other) implies self.written@.contains(
                other,
            ) by {
                let j = choose|j: int| 0 <= j < before.len() && before[j] == other;
                assert(self.written@[j] == other);
            }
            if old(self).announced_written() {
                assert forall|i: int| 0 <= i < self.announced().len() implies self.is_written(
                    #[trigger] self.announced()[i],
                ) by {
                    assert(old(self).is_written(old(self).announced()[i]));
                }
            }
        }
    }

    /// Whether the version of a key is on disk as it is known.
    pub fn has_saved(&self, key: VersionKey) -> (r: bool)
        requires
            self.wf(),
        ensures
            r == self.is_saved(key),
    {
        match find_key(&self.versions, key) {
            Some(i) => self.saved[i],
            None => false,
        }
    }

    /// Whether the version file of a key is on disk, as far as the manager
    /// was told.
    pub fn has_written(&self, key: VersionKey) -> (r: bool)
        ensures
            r == self.is_written(key),
    {
        holds(&self.written, key)
    }
}

/// The keys that subscribers are told: of the known keys, in order, the
/// ones whose version file is on disk.
pub open spec fn told(keys: Seq<VersionKey>, written: Seq<VersionKey>) -> Seq<VersionKey>
    decreases keys.len(),
{
    if keys.len() == 0 {
        Seq::empty()
    } else {
        let before = told(keys.drop_last(), written);
        if written.contains(keys.last()) {
            before.push(keys.last())
        } else {
            before
        }
    }
}

/// What subscribers are told are known keys whose file is on disk, and all
/// of them.
pub proof fn lemma_told(keys: Seq<VersionKey>, written: Seq<VersionKey>)
    ensures
        forall|i: int|
            0 <= i < told(keys, written).len() ==> keys.contains(
                #[trigger] told(keys, written)[i],
            ) && written.contains(told(keys, written)[i]),
        forall|key: VersionKey|
            keys.contains(key) && written.contains(key) ==> #[trigger] told(keys, written).contains(
                key,
            ),
    decreases keys.len(),
{
    if keys.len() > 0 {
        let front = keys.drop_last();
        let before = told(front, written);
        let after = told(keys, written);
        lemma_told(front, written);
        assert forall|i: int| 0 <= i < after.len() implies keys.contains(#[trigger] after[i])
            && written.contains(after[i]) by {
            if i < before.len() {
                assert(after[i] == before[i]);
                let j = choose|j: int| 0 <= j < front.len() && front[j] == before[i];
                assert(keys[j] == after[i]);
            } else {
                assert(keys[keys.len() - 1] == after[i]);
            }
        }
        assert forall|key: VersionKey|
            keys.contains(key) && written.contains(key) implies #[trigger] after.contains(key) by {
            if key == keys.last() {
                assert(after[after.len() - 1] == key);
            } else {
                let j = choose|j: int| 0 <= j < keys.len() && keys[j] == key;
                assert(front[j] == key);
                assert(before.contains(key));
                let k = choose|k: int| 0 <= k < before.len() && before[k] == key;
                assert(after[k] == key);
            }
        }
    }
}

/// Whether the version of a key was read, among the first `n` persisted
/// keys.
pub open spec fn was_read(
    keys: Seq<VersionKey>,
    read: Seq<Option<Version>>,
    n: nat,
    key: VersionKey,
) -> bool
    decreases n,
{
    n > 0 && ((n <= keys.len() && n <= read.len() && read[n - 1] is Some && keys[n - 1] == key)
        || was_read(keys, read, (n - 1) as nat, key))
}

/// The keys marked as written after the first `n` persisted keys have been
/// gone through: each key whose version was read is marked.
pub open spec fn hydrated_written(
    written: Seq<VersionKey>,
    keys: Seq<VersionKey>,
    read: Seq<Option<Version>>,
    n: nat,
) -> Seq<VersionKey>
    decreases n,
{
    if n == 0 {
        written
    } else {
        let before = hydrated_written(written, keys, read, (n - 1) as nat);
        if n <= keys.len() && n <= read.len() && read[n - 1] is Some && !before.contains(
            keys[n - 1],
        ) {
            before.push(keys[n - 1])
        } else {
            before
        }
    }
}

/// Whether a list holds a key.
fn holds(keys: &Vec<VersionKey>, key: VersionKey) -> (r: bool)
    ensures
        r == keys@.contains(key),
{
    let mut i: usize = 0;
    while i < keys.len()
        invariant
            i <= keys.len(),
            forall|j: int| 0 <= j < i ==> keys@[j] != key,
        decreases keys.len() - i,
    {
        if keys[i] == key {
            return true;
        }
        i = i + 1;
    }
    false
}

/// The known versions after the first `n` persisted keys have been gone
/// through: each key whose version was read holds that version.
pub open spec fn hydrated_versions(
    versions: Seq<(VersionKey, Seq<RepositoryView>)>,
    keys: Seq<VersionKey>,
    read: Seq<Option<Version>>,
    n: nat,
) -> Seq<(VersionKey, Seq<RepositoryView>)>
    decreases n,
{
    if n == 0 {
        versions
    } else {
        let before = hydrated_versions(versions, keys, read, (n - 1) as nat);
        if n <= keys.len() && n <= read.len() && read[n - 1] is Some {
            upsert(before, keys[n - 1], read[n - 1]->Some_0@)
        } else {
            before
        }
    }
}

/// The warnings for the keys, among the first `n` persisted ones, whose
/// version was not read.
pub open spec fn unread_warnings(keys: Seq<VersionKey>, read: Seq<Option<Version>>, n: nat) -> Seq<
    Seq<char>,
>
    decreases n,
{
    if n == 0 {
        Seq::empty()
    } else {
        let before = unread_warnings(keys, read, (n - 1) as nat);
        if n <= keys.len() && n <= read.len() && read[n - 1] is None {
            before.push("could not hydrate version "@ + keys[n - 1].text())
        } else {
            before
        }
    }
}

/// The names after the persisted names have been gone through: each
/// persisted name whose key is known stands for that key.
pub open spec fn hydrated_names(
    names: Seq<(Seq<char>, VersionKey)>,
    known: Seq<(VersionKey, Seq<RepositoryView>)>,
    persisted: Seq<(Seq<char>, VersionKey)>,
) -> Seq<(Seq<char>, VersionKey)>
    decreases persisted.len(),
{
    if persisted.len() == 0 {
        names
    } else {
        let before = hydrated_names(names, known, persisted.drop_last());
        if lookup(known, persisted.last().1) is Some {
            upsert(before, persisted.last().0, persisted.last().1)
        } else {
            before
        }
    }
}

/// The warnings for the persisted names whose key is not known.
pub open spec fn unknown_warnings(
    known: Seq<(VersionKey, Seq<RepositoryView>)>,
    persisted: Seq<(Seq<char>, VersionKey)>,
) -> Seq<Seq<char>>
    decreases persisted.len(),
{
    if persisted.len() == 0 {
        Seq::empty()
    } else {
        let before = unknown_warnings(known, persisted.drop_last());
        if lookup(known, persisted.last().1) is Some {
            before
        } else {
            before.push(
                "unknown key "@ + persisted.last().1.text() + " for name "@ + persisted.last().0,
            )
        }
    }
}

/// Hydration forgets no version.
proof fn lemma_hydrated_versions_keep(
    versions: Seq<(VersionKey, Seq<RepositoryView>)>,
    keys: Seq<VersionKey>,
    read: Seq<Option<Version>>,
    n: nat,
)
    requires
        distinct(keys_of(versions)),
    ensures
        distinct(keys_of(hydrated_versions(versions, keys, read, n))),
        forall|key: VersionKey|
            lookup(versions, key) is Some ==> #[trigger] lookup(
                hydrated_versions(versions, keys, read, n),
                key,
            ) is Some,
    decreases n,
{
    if n > 0 {
        lemma_hydrated_versions_keep(versions, keys, read, (n - 1) as nat);
        let before = hydrated_versions(versions, keys, read, (n - 1) as nat);
        if n <= keys.len() && n <= read.len() && read[n - 1] is Some {
            let after = upsert(before, keys[n - 1], read[n - 1]->Some_0@);
            lemma_upsert(before, keys[n - 1], read[n - 1]->Some_0@);
            assert forall|key: VersionKey| lookup(versions, key) is Some implies #[trigger] lookup(
                after,
                key,
            ) is Some by {
                assert(lookup(before, key) is Some);
                if key != keys[n - 1] {
                    assert(lookup(after, key) == lookup(before, key));
                }
            }
        }
    }
}

/// After hydration every name stands for a known key or for a key that a
/// name stood for before.
proof fn lemma_hydrated_names_known(
    names: Seq<(Seq<char>, VersionKey)>,
    known: Seq<(VersionKey, Seq<RepositoryView>)>,
    persisted: Seq<(Seq<char>, VersionKey)>,
)
    requires
        distinct(keys_of(names)),
    ensures
        distinct(keys_of(hydrated_names(names, known, persisted))),
        forall|i: int|
            0 <= i < hydrated_names(names, known, persisted).len() ==> lookup(
                known,
                (#[trigger] hydrated_names(names, known, persisted)[i]).1,
            ) is Some || exists|j: int|
                0 <= j < names.len() && names[j].1 == hydrated_names(names, known, persisted)[i].1,
    decreases persisted.len(),
{
    if persisted.len() > 0 {
        lemma_hydrated_names_known(names, known, persisted.drop_last());
        let before = hydrated_names(names, known, persisted.drop_last());
        let after = hydrated_names(names, known, persisted);
        if lookup(known, persisted.last().1) is Some {
            lemma_upsert(before, persisted.last().0, persisted.last().1);
            lemma_position(keys_of(before), persisted.last().0);
            assert forall|i: int| 0 <= i < after.len() implies lookup(
                known,
                (#[trigger] after[i]).1,
            ) is Some || exists|j: int| 0 <= j < names.len() && names[j].1 == after[i].1 by {
                if after[i].1 != persisted.last().1 {
                    assert(before[i].1 == after[i].1);
                }
            }
        }
    } else {
        let after = hydrated_names(names, known, persisted);
        assert forall|i: int| 0 <= i < after.len() implies lookup(known, (#[trigger] after[i]).1)
            is Some || exists|j: int| 0 <= j < names.len() && names[j].1 == after[i].1 by {
            assert(names[i].1 == after[i].1);
        }
    }
}

/// Whether storing a version under a key changes what is known: the key is
/// new, or holds a version that differs.
pub open spec fn changes_at(
    versions: Seq<(VersionKey, Seq<RepositoryView>)>,
    key: VersionKey,
    version: Seq<RepositoryView>,
) -> bool {
    match lookup(versions, key) {
        Some(stored) => stored != version,
        None => true,
    }
}

/// Whether taking in a version changes what is known: its key is new, or
/// holds a version that differs.
pub open spec fn changes(
    versions: Seq<(VersionKey, Seq<RepositoryView>)>,
    version: Seq<RepositoryView>,
) -> bool {
    changes_at(versions, key_of(version), version)
}

/// The names that stand for a key, in the order of the table.
pub open spec fn names_of(table: Seq<(Seq<char>, VersionKey)>, key: VersionKey) -> Seq<Seq<char>> {
    keys_of(held_by(table, key))
}

/// The entries of a table that stand for a key.
pub open spec fn held_by(table: Seq<(Seq<char>, VersionKey)>, key: VersionKey) -> Seq<
    (Seq<char>, VersionKey),
> {
    table.filter(|e: (Seq<char>, VersionKey)| e.1 == key)
}

/// The table with each of the names set to stand for the key, one after the
/// other.
pub open spec fn named_all(
    table: Seq<(Seq<char>, VersionKey)>,
    names: Seq<Seq<char>>,
    key: VersionKey,
) -> Seq<(Seq<char>, VersionKey)>
    decreases names.len(),
{
    if names.len() == 0 {
        table
    } else {
        upsert(named_all(table, names.drop_last(), key), names.last(), key)
    }
}

/// The table after a key has been given the names listed, and those only.
pub open spec fn renamed(
    table: Seq<(Seq<char>, VersionKey)>,
    key: VersionKey,
    names: Seq<Seq<char>>,
) -> Seq<(Seq<char>, VersionKey)> {
    named_all(without_value(table, key), names, key)
}

/// Setting names keeps the names of a table distinct; a listed name stands
/// for the key, and every other name for what it stood for.
pub proof fn lemma_named_all(
    table: Seq<(Seq<char>, VersionKey)>,
    names: Seq<Seq<char>>,
    key: VersionKey,
)
    requires
        distinct(keys_of(table)),
    ensures
        distinct(keys_of(named_all(table, names, key))),
        forall|name: Seq<char>| #[trigger]
            lookup(named_all(table, names, key), name) == if names.contains(name) {
                Some(key)
            } else {
                lookup(table, name)
            },
    decreases names.len(),
{
    if names.len() > 0 {
        let front = names.drop_last();
        lemma_named_all(table, front, key);
        lemma_upsert(named_all(table, front, key), names.last(), key);
        assert forall|name: Seq<char>| #[trigger]
            lookup(named_all(table, names, key), name) == if names.contains(name) {
                Some(key)
            } else {
                lookup(table, name)
            } by {
            let prev = named_all(table, front, key);
            assert(lookup(prev, name) == if front.contains(name) {
                Some(key)
            } else {
                lookup(table, name)
            });
            if name == names.last() {
                assert(names[names.len() - 1] == name);
                assert(names.contains(name));
            } else {
                assert(lookup(upsert(prev, names.last(), key), name) == lookup(prev, name));
                if front.contains(name) {
                    let j = choose|j: int| 0 <= j < front.len() && front[j] == name;
                    assert(names[j] == name);
                    assert(names.contains(name));
                } else if names.contains(name) {
                    let j = choose|j: int| 0 <= j < names.len() && names[j] == name;
                    assert(front[j] == name);
                    assert(false);
                }
            }
        }
    }
}

/// What a name stands for after a key has been given new names: the key, if
/// the name is listed; nothing, if it stood for the key and is not listed;
/// and otherwise what it stood for before.
pub proof fn lemma_renamed(
    table: Seq<(Seq<char>, VersionKey)>,
    key: VersionKey,
    names: Seq<Seq<char>>,
    name: Seq<char>,
)
    requires
        distinct(keys_of(table)),
    ensures
        distinct(keys_of(renamed(table, key, names))),
        lookup(renamed(table, key, names), name) == if names.contains(name) {
            Some(key)
        } else {
            match lookup(table, name) {
                Some(other) => if other != key {
                    Some(other)
                } else {
                    None
                },
                None => None,
            }
        },
{
    lemma_without_value(table, key);
    lemma_named_all(without_value(table, key), names, key);
    assert(lookup(without_value(table, key), name) == match lookup(table, name) {
        Some(other) => if other != key {
            Some(other)
        } else {
            None
        },
        None => None,
    });
}

/// After a key has been given new names, every name stands for that key or
/// for a key that some name stood for before.
proof fn lemma_renamed_values(
    table: Seq<(Seq<char>, VersionKey)>,
    key: VersionKey,
    names: Seq<Seq<char>>,
)
    requires
        distinct(keys_of(table)),
    ensures
        forall|i: int|
            0 <= i < renamed(table, key, names).len() ==> (#[trigger] renamed(
                table,
                key,
                names,
            )[i]).1 == key || exists|j: int|
                0 <= j < table.len() && table[j].1 == renamed(table, key, names)[i].1,
{
    let after = renamed(table, key, names);
    assert forall|i: int| 0 <= i < after.len() implies (#[trigger] after[i]).1 == key || exists|
        j: int,
    |
        0 <= j < table.len() && table[j].1 == after[i].1 by {
        let name = after[i].0;
        lemma_renamed(table, key, names, name);
        lemma_position_distinct(keys_of(after), i);
        assert(keys_of(after)[i] == name);
        assert(lookup(after, name) == Some(after[i].1));
        if after[i].1 != key {
            lemma_position(keys_of(table), name);
            let j = position(keys_of(table), name)->Some_0;
            assert(table[j].1 == after[i].1);
        }
    }
}

/// Whether two lists hold the same keys in the same order.
fn same_keys(a: &Vec<VersionKey>, b: &Vec<VersionKey>) -> (r: bool)
    ensures
        r == (a@ == b@),
{
    if a.len() != b.len() {
        return false;
    }
    let mut i: usize = 0;
    while i < a.len()
        invariant
            i <= a.len(),
            a.len() == b.len(),
            forall|j: int| 0 <= j < i ==> a@[j] == b@[j],
        decreases a.len() - i,
    {
        if a[i] != b[i] {
            return false;
        }
        i = i + 1;
    }
    assert(a@ =~= b@);
    true
}

} // verus!
