use boilmaster::version::key::VersionKey;
use boilmaster::version::manager::{Config, Manager, PersistedMetadata};
use boilmaster::version::version::{LocalPatch, Repository, Version};

fn patch(name: &str, path: &str) -> LocalPatch {
    LocalPatch { name: name.to_string(), path: path.to_string() }
}

fn repository(name: &str, patches: Vec<LocalPatch>) -> Repository {
    Repository::new(name.to_string(), patches).expect("a patch")
}

fn version(patches: &[&str]) -> Version {
    Version {
        repositories: vec![repository(
            "ffxiv",
            patches.iter().map(|name| patch(name, &format!("patches/{name}.patch"))).collect(),
        )],
    }
}

fn manager() -> Manager {
    Manager::new(Config {
        interval: 3600,
        directory: "versions".to_string(),
        repositories: vec!["ffxiv".to_string()],
    })
}

fn named(entries: &[(&str, u64)]) -> Vec<(String, VersionKey)> {
    entries.iter().map(|(name, key)| (name.to_string(), VersionKey(*key))).collect()
}

#[test]
fn keys_are_written_as_sixteen_hex_digits() {
    assert_eq!(VersionKey(0).to_hex(), "0000000000000000");
    assert_eq!(VersionKey(0x1f).to_hex(), "000000000000001f");
    assert_eq!(VersionKey(0x0123_4567_89ab_cdef).to_hex(), "0123456789abcdef");
    assert_eq!(VersionKey(u64::MAX).to_hex(), "ffffffffffffffff");
}

#[test]
fn keys_are_read_back_from_their_text() {
    for key in [0, 1, 15, 16, 255, 0xdead_beef, 0x0123_4567_89ab_cdef, u64::MAX] {
        assert_eq!(VersionKey::from_hex(&VersionKey(key).to_hex()), Some(VersionKey(key)));
    }
    assert_eq!(VersionKey::from_hex("1f"), Some(VersionKey(31)));
    assert_eq!(VersionKey::from_hex("1F"), Some(VersionKey(31)));
    assert_eq!(VersionKey::from_hex("AbCdEf"), Some(VersionKey(0xabcdef)));
    assert_eq!(VersionKey::from_hex("0"), Some(VersionKey(0)));
}

#[test]
fn what_is_no_key_is_refused() {
    for text in ["", "g", "0x1f", "12345678901234567", " 1", "1 ", "-1", "+1", "１"] {
        assert_eq!(VersionKey::from_hex(text), None, "{text:?}");
    }
}

#[test]
fn a_repository_needs_a_patch() {
    assert!(Repository::new("ffxiv".to_string(), Vec::new()).is_none());
    let one = repository("ffxiv", vec![patch("a", "p/a")]);
    assert_eq!(one.name, "ffxiv");
    assert_eq!(one.patch_vec(), vec![patch("a", "p/a")]);
}

#[test]
fn patches_keep_their_order() {
    let patches = vec![patch("c", "3"), patch("a", "1"), patch("b", "2")];
    let repository = repository("ex1", patches.clone());
    assert_eq!(repository.patch_vec(), patches);
    assert_eq!(repository.patches.len(), 3);
    assert_eq!(repository.patches.first(), &patch("c", "3"));
    assert_eq!(repository.patches.last(), &patch("b", "2"));
    let copy = repository.duplicate();
    assert_eq!(copy, repository);
    assert_eq!(copy.clone().patch_vec(), patches);
}

#[test]
fn versions_compare_patch_by_patch() {
    let a = version(&["1", "2"]);
    assert!(a.same_as(&version(&["1", "2"])));
    assert!(a.same_as(&a.duplicate()));
    assert!(!a.same_as(&version(&["1"])));
    assert!(!a.same_as(&version(&["1", "2", "3"])));
    assert!(!a.same_as(&version(&["2", "1"])));
    assert!(!a.same_as(&Version { repositories: Vec::new() }));

    let moved = Version {
        repositories: vec![repository(
            "ffxiv",
            vec![patch("1", "patches/1.patch"), patch("2", "elsewhere/2.patch")],
        )],
    };
    assert!(!a.same_as(&moved));
    let renamed = Version {
        repositories: vec![repository(
            "ex1",
            vec![patch("1", "patches/1.patch"), patch("2", "patches/2.patch")],
        )],
    };
    assert!(!a.same_as(&renamed));
    assert!(patch("1", "x").same_as(&patch("1", "x").duplicate()));
    assert!(!patch("1", "x").same_as(&patch("1", "y")));
}

#[test]
fn keys_are_derived_from_names_not_paths() {
    let key = version(&["1", "2"]).key();
    assert_eq!(version(&["1", "2"]).key(), key);
    assert_eq!(key, VersionKey(0xdbd8_6d4c_a3db_8992));
    let moved = Version {
        repositories: vec![repository("ffxiv", vec![patch("1", "a"), patch("2", "b")])],
    };
    assert_eq!(moved.key(), key);
    assert_ne!(version(&["1"]).key(), key);
    assert_ne!(version(&["2", "1"]).key(), key);
    assert_ne!(version(&["12"]).key(), key);
    assert_ne!(version(&["1", "2", ""]).key(), key);
    let split = Version {
        repositories: vec![
            repository("ffxiv", vec![patch("1", "a")]),
            repository("ex1", vec![patch("2", "b")]),
        ],
    };
    assert_ne!(split.key(), key);
    assert_eq!(Version { repositories: Vec::new() }.key(), VersionKey(0xcbf2_9ce4_8422_2325));
}

#[test]
fn a_fresh_start_announces_one_version() {
    let mut manager = manager();
    assert!(manager.keys().is_empty());
    assert!(manager.subscribe().is_empty());
    assert_eq!(manager.resolve(None), None);

    let key = version(&["1"]).key();
    assert_eq!(manager.update(version(&["1"])), Some(key));
    manager.persisted(key);
    assert_eq!(manager.broadcast(), Some(vec![key]));
    assert_eq!(manager.subscribe(), vec![key]);
    assert_eq!(manager.resolve(None), Some(key));
    assert_eq!(manager.resolve(Some("latest")), Some(key));
}

#[test]
fn an_unchanged_patch_list_announces_nothing() {
    let mut manager = manager();
    let key = manager.update(version(&["1"])).expect("changed");
    manager.persisted(key);
    assert!(manager.broadcast().is_some());
    assert_eq!(manager.update(version(&["1"])), None);
    assert_eq!(manager.broadcast(), None);
    assert_eq!(manager.keys(), vec![version(&["1"]).key()]);
}

#[test]
fn a_new_patch_announces_both_versions() {
    let mut manager = manager();
    let old = manager.update(version(&["1"])).expect("changed");
    manager.persisted(old);
    manager.broadcast();
    let new = manager.update(version(&["1", "2"])).expect("changed");
    manager.persisted(new);
    assert_ne!(old, new);
    assert_eq!(manager.broadcast(), Some(vec![old, new]));
    assert_eq!(manager.resolve(None), Some(new));
    assert_eq!(manager.names(new), Some(vec!["latest".to_string()]));
    assert_eq!(manager.names(old), Some(Vec::new()));
    assert_eq!(manager.names(VersionKey(3)), None);
}

#[test]
fn a_moved_patch_replaces_the_version_without_a_new_announcement() {
    let mut manager = manager();
    let key = manager.update(version(&["1"])).expect("changed");
    manager.persisted(key);
    manager.broadcast();
    let moved =
        Version { repositories: vec![repository("ffxiv", vec![patch("1", "moved/1.patch")])] };
    assert_eq!(manager.update(moved.duplicate()), Some(key));
    assert!(!manager.has_saved(key));
    manager.persisted(key);
    assert!(manager.has_saved(key));
    assert!(manager.version(key).expect("known").same_as(&moved));
    assert_eq!(manager.keys(), vec![key]);
    assert_eq!(manager.broadcast(), None);
}

#[test]
fn a_restart_announces_what_was_persisted_once() {
    let mut first = manager();
    let old = first.update(version(&["1"])).expect("changed");
    let new = first.update(version(&["1", "2"])).expect("changed");
    let metadata = first.metadata();
    assert_eq!(metadata.versions, vec![old, new]);
    assert_eq!(metadata.names, vec![("latest".to_string(), new)]);

    let mut second = manager();
    let read = vec![first.version(old), first.version(new)];
    let (told, warnings) = second.hydrate(Some(metadata), read).decompose();
    assert_eq!(told, Some(vec![old, new]));
    assert!(warnings.is_empty());
    assert_eq!(second.resolve(None), Some(new));
    assert_eq!(second.broadcast(), None);
    assert!(second.version(new).expect("known").same_as(&version(&["1", "2"])));
}

#[test]
fn a_missing_version_file_drops_the_key_and_its_names() {
    let mut manager = manager();
    let metadata = PersistedMetadata {
        versions: vec![VersionKey(1), VersionKey(0xab)],
        names: named(&[("stable", 1), ("latest", 0xab), ("beta", 0xab)]),
    };
    let (told, warnings) =
        manager.hydrate(Some(metadata), vec![Some(version(&["1"])), None]).decompose();
    assert_eq!(told, Some(vec![VersionKey(1)]));
    assert_eq!(
        warnings,
        vec![
            "could not hydrate version 00000000000000ab",
            "unknown key 00000000000000ab for name latest",
            "unknown key 00000000000000ab for name beta",
        ]
    );
    assert_eq!(manager.keys(), vec![VersionKey(1)]);
    assert_eq!(manager.resolve(None), None);
    assert_eq!(manager.resolve(Some("stable")), Some(VersionKey(1)));
    assert_eq!(manager.resolve(Some("beta")), None);
    assert_eq!(manager.version(VersionKey(0xab)).is_none(), true);
}

#[test]
fn without_a_catalog_nothing_is_hydrated() {
    let mut manager = manager();
    let (told, warnings) = manager.hydrate(None, vec![Some(version(&["1"]))]).decompose();
    assert_eq!(told, None);
    assert!(warnings.is_empty());
    assert!(manager.keys().is_empty());

    // An empty catalog hydrates to nothing, and there is nothing new to tell.
    let empty = PersistedMetadata { versions: Vec::new(), names: Vec::new() };
    let (told, warnings) = manager.hydrate(Some(empty), Vec::new()).decompose();
    assert_eq!(told, None);
    assert!(warnings.is_empty());
}

#[test]
fn names_are_set_for_one_key_at_a_time() {
    let mut manager = manager();
    let one = manager.update(version(&["1"])).expect("changed");
    let two = manager.update(version(&["1", "2"])).expect("changed");
    assert!(manager.set_names(one, vec!["6.0".to_string(), "stable".to_string()]));
    assert_eq!(manager.names(one), Some(vec!["6.0".to_string(), "stable".to_string()]));
    assert_eq!(manager.resolve(Some("stable")), Some(one));

    // Names not listed are taken from the key; a listed name moves over from another key.
    manager.set_names(one, vec!["latest".to_string(), "6.0".to_string()]);
    assert_eq!(manager.resolve(Some("stable")), None);
    assert_eq!(manager.resolve(Some("latest")), Some(one));
    assert_eq!(manager.resolve(None), Some(one));
    assert_eq!(manager.names(two), Some(Vec::new()));
    // A name keeps the place at which it was first given.
    assert_eq!(
        manager.metadata().names,
        vec![("latest".to_string(), one), ("6.0".to_string(), one)]
    );

    manager.set_names(one, Vec::new());
    assert_eq!(manager.names(one), Some(Vec::new()));
    assert!(manager.metadata().names.is_empty());
}

#[test]
fn an_unknown_key_gets_no_name() {
    let mut manager = manager();
    let one = manager.update(version(&["1"])).expect("changed");
    assert!(!manager.set_names(VersionKey(7), vec!["latest".to_string(), "x".to_string()]));
    assert_eq!(manager.resolve(None), Some(one));
    assert_eq!(manager.resolve(Some("x")), None);
    assert_eq!(manager.metadata().names, vec![("latest".to_string(), one)]);
    assert!(!self::manager().set_names(VersionKey(7), Vec::new()));
}

#[test]
fn a_pass_whose_writing_failed_is_made_good_by_the_next() {
    let mut manager = manager();
    let key = manager.update(version(&["1"])).expect("changed");
    // The files could not be written: nothing is reported, and nothing is announced.
    assert_eq!(manager.broadcast(), None);
    assert!(manager.subscribe().is_empty());
    // The next pass fetches the same patches and is handed the key again.
    assert_eq!(manager.update(version(&["1"])), Some(key));
    assert_eq!(manager.resolve(None), Some(key));
    manager.persisted(key);
    assert_eq!(manager.broadcast(), Some(vec![key]));
    assert_eq!(manager.update(version(&["1"])), None);

    // A replaced version is handed back in the same way until it is saved.
    let moved =
        Version { repositories: vec![repository("ffxiv", vec![patch("1", "moved/1.patch")])] };
    assert_eq!(manager.update(moved.duplicate()), Some(key));
    assert_eq!(manager.update(moved.duplicate()), Some(key));
    manager.persisted(key);
    assert_eq!(manager.update(moved), None);
}

#[test]
fn an_unwritten_version_is_not_announced_with_a_written_one() {
    let mut manager = manager();
    let lost = manager.update(version(&["1"])).expect("changed");
    let kept = manager.update(version(&["1", "2"])).expect("changed");
    manager.persisted(kept);
    assert_eq!(manager.broadcast(), Some(vec![kept]));
    assert_eq!(manager.keys(), vec![lost, kept]);
    manager.persisted(lost);
    assert_eq!(manager.broadcast(), Some(vec![lost, kept]));
}

#[test]
fn every_name_stands_for_a_known_version() {
    let mut manager = manager();
    let metadata = PersistedMetadata {
        versions: vec![VersionKey(1), VersionKey(2), VersionKey(3)],
        names: named(&[("a", 1), ("b", 2), ("c", 3), ("d", 4)]),
    };
    manager.hydrate(Some(metadata), vec![Some(version(&["1"])), None, Some(version(&["3"]))]);
    let five = manager.update(version(&["5"])).expect("changed");
    manager.set_names(VersionKey(3), vec!["a".to_string(), "e".to_string()]);
    let catalog = manager.metadata();
    assert_eq!(
        catalog.names,
        vec![
            ("a".to_string(), VersionKey(3)),
            ("latest".to_string(), five),
            ("e".to_string(), VersionKey(3)),
        ]
    );
    for (name, key) in catalog.names {
        assert!(manager.version(key).is_some(), "{name}");
        assert!(manager.keys().contains(&key));
    }
}

#[test]
fn persisted_files_are_named_after_their_contents() {
    assert_eq!(Manager::metadata_file(), "metadata.json");
    assert_eq!(Manager::version_file(VersionKey(0xab)), "version-00000000000000ab.json");
    assert_eq!(Manager::version_file(VersionKey(u64::MAX)), "version-ffffffffffffffff.json");
}

#[test]
fn an_unknown_key_has_no_version() {
    let mut manager = manager();
    let key = manager.update(version(&["1"])).expect("changed");
    assert!(manager.version(VersionKey(2)).is_none());
    assert!(manager.version(key).expect("known").same_as(&version(&["1"])));
}

#[test]
fn what_is_announced_has_been_written() {
    let mut manager = manager();
    let one = manager.update(version(&["1"])).expect("changed");
    assert!(!manager.has_written(one));
    manager.persisted(one);
    manager.persisted(one);
    assert!(manager.has_written(one));
    let told = manager.broadcast().expect("told");
    assert_eq!(told, vec![one]);
    assert!(told.iter().all(|key| manager.has_written(*key)));

    // Versions that were read from disk are on disk; the ones that were not read are not known.
    let mut restarted = self::manager();
    let metadata =
        PersistedMetadata { versions: vec![one, VersionKey(9)], names: named(&[("latest", 9)]) };
    let (told, _) = restarted.hydrate(Some(metadata), vec![Some(version(&["1"])), None]).decompose();
    assert_eq!(told, Some(vec![one]));
    assert!(restarted.has_written(one));
    assert!(restarted.has_saved(one));
    assert!(!restarted.has_written(VersionKey(9)));
    assert_eq!(restarted.update(version(&["1"])), None);
}
