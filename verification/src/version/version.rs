//! What a version is made of: repositories of patches.

use nonempty::NonEmpty;
use vstd::prelude::*;

use crate::utility::text::chars_of;
use crate::version::key::VersionKey;

verus! {

/// A patch that has been brought to local storage.
#[derive(Debug, PartialEq, Eq)]
pub struct LocalPatch {
    /// The name of the patch, unique within its repository.
    pub name: String,
    /// Where the patch file lies.
    pub path: String,
}

/// A patch as plain text.
pub struct LocalPatchView {
    pub name: Seq<char>,
    pub path: Seq<char>,
}

impl View for LocalPatch {
    type V = LocalPatchView;

    open spec fn view(&self) -> LocalPatchView {
        LocalPatchView { name: self.name@, path: self.path@ }
    }
}

impl Clone for LocalPatch {
    fn clone(&self) -> (r: LocalPatch)
        ensures
            r == *self,
    {
        self.duplicate()
    }
}

impl LocalPatch {
    /// A copy of the patch.
    pub fn duplicate(&self) -> (r: LocalPatch)
        ensures
            r == *self,
    {
        LocalPatch { name: self.name.clone(), path: self.path.clone() }
    }

    /// Whether two patches have the same name and path.
    pub fn same_as(&self, other: &LocalPatch) -> (r: bool)
        ensures
            r == (self@ == other@),
    {
        self.name == other.name && self.path == other.path
    }
}

/// The list type of the `nonempty` crate: a list that always holds at least
/// one item.
#[verifier::external_type_specification]
#[verifier::external_body]
#[verifier::reject_recursive_types(T)]
pub struct ExNonEmpty<T>(NonEmpty<T>);

/// The patches that a non-empty list holds, first to last.
pub uninterp spec fn patch_list(patches: NonEmpty<LocalPatch>) -> Seq<LocalPatch>;

/// Turns a list of patches into a non-empty list.
///
/// Stands for `NonEmpty::from_vec`, which gives nothing for an empty vector
/// and otherwise a list of the vector's items in their order.
#[verifier::external_body]
fn patches_from_vec(patches: Vec<LocalPatch>) -> (r: Option<NonEmpty<LocalPatch>>)
    ensures
        patches@.len() == 0 ==> r is None,
        patches@.len() > 0 ==> r is Some && patch_list(r->Some_0) == patches@,
{
    NonEmpty::from_vec(patches)
}

/// The number of patches in a non-empty list.
///
/// Stands for `NonEmpty::len`, which counts the first item and the rest.
#[verifier::external_body]
fn patches_len(patches: &NonEmpty<LocalPatch>) -> (n: usize)
    ensures
        n == patch_list(*patches).len(),
        n >= 1,
{
    patches.len()
}

/// The patch at a position of a non-empty list.
///
/// Stands for `NonEmpty::get`, which gives the item at the index, counted
/// from zero at the first item, and nothing from the length on.
#[verifier::external_body]
fn patches_get(patches: &NonEmpty<LocalPatch>, index: usize) -> (r: Option<&LocalPatch>)
    ensures
        index < patch_list(*patches).len() ==> r == Some(&patch_list(*patches)[index as int]),
        index >= patch_list(*patches).len() ==> r is None,
{
    patches.get(index)
}

/// A named, ordered, non-empty run of patches. The order is the order in
/// which the patches apply.
#[derive(Debug, PartialEq, Eq)]
pub struct Repository {
    pub name: String,
    pub patches: NonEmpty<LocalPatch>,
}

/// A repository as plain text.
pub struct RepositoryView {
    pub name: Seq<char>,
    pub patches: Seq<LocalPatchView>,
}

impl View for Repository {
    type V = RepositoryView;

    open spec fn view(&self) -> RepositoryView {
        RepositoryView {
            name: self.name@,
            patches: patch_list(self.patches).map_values(|p: LocalPatch| p@),
        }
    }
}

impl Clone for Repository {
    fn clone(&self) -> (r: Repository)
        ensures
            r@ == self@,
    {
        self.duplicate()
    }
}

impl Repository {
    /// The repository of the given name and patches. There is none without
    /// a patch.
    pub fn new(name: String, patches: Vec<LocalPatch>) -> (r: Option<Repository>)
        ensures
            patches@.len() == 0 ==> r is None,
            patches@.len() > 0 ==> r is Some && r->Some_0.name == name && patch_list(
                r->Some_0.patches,
            ) == patches@,
    {
        match patches_from_vec(patches) {
            Some(patches) => Some(Repository { name, patches }),
            None => None,
        }
    }

    /// The patches of the repository, in the order in which they apply.
    pub fn patch_vec(&self) -> (r: Vec<LocalPatch>)
        ensures
            r@ == patch_list(self.patches),
            r@.len() >= 1,
    {
        let n = patches_len(&self.patches);
        let mut r: Vec<LocalPatch> = Vec::new();
        let mut i: usize = 0;
        while i < n
            invariant
                i <= n,
                n == patch_list(self.patches).len(),
                r@ == patch_list(self.patches).take(i as int),
            decreases n - i,
        {
            match patches_get(&self.patches, i) {
                Some(patch) => {
                    r.push(patch.duplicate());
                },
                None => {},
            }
            assert(r@ =~= patch_list(self.patches).take(i + 1));
            i = i + 1;
        }
        assert(patch_list(self.patches).take(n as int) =~= patch_list(self.patches));
        r
    }

    /// A copy of the repository.
    pub fn duplicate(&self) -> (r: Repository)
        ensures
            r.name == self.name,
            patch_list(r.patches) == patch_list(self.patches),
            r@ == self@,
    {
        let patches = self.patch_vec();
        match patches_from_vec(patches) {
            Some(patches) => Repository { name: self.name.clone(), patches },
            None => vstd::pervasive::unreached(),
        }
    }

    /// Whether two repositories have the same name and the same patches in
    /// the same order.
    pub fn same_as(&self, other: &Repository) -> (r: bool)
        ensures
            r == (self@ == other@),
    {
        if !(self.name == other.name) {
            return false;
        }
        let n = patches_len(&self.patches);
        if n != patches_len(&other.patches) {
            assert(self@.patches.len() != other@.patches.len());
            return false;
        }
        let mut i: usize = 0;
        while i < n
            invariant
                i <= n,
                n == patch_list(self.patches).len(),
                n == patch_list(other.patches).len(),
                self.name@ == other.name@,
                forall|j: int| 0 <= j < i ==> self@.patches[j] == other@.patches[j],
            decreases n - i,
        {
            match (patches_get(&self.patches, i), patches_get(&other.patches, i)) {
                (Some(a), Some(b)) => {
                    if !a.same_as(b) {
                        assert(self@.patches[i as int] != other@.patches[i as int]);
                        return false;
                    }
                },
                _ => {},
            }
            i = i + 1;
        }
        assert(self@.patches =~= other@.patches);
        true
    }
}

/// One version of the corpus: the repositories whose patches make it up.
/// A version is never changed once it has been made.
#[derive(Debug, PartialEq, Eq)]
pub struct Version {
    pub repositories: Vec<Repository>,
}

impl View for Version {
    type V = Seq<RepositoryView>;

    open spec fn view(&self) -> Seq<RepositoryView> {
        self.repositories@.map_values(|r: Repository| r@)
    }
}

impl Clone for Version {
    fn clone(&self) -> (r: Version)
        ensures
            r@ == self@,
    {
        self.duplicate()
    }
}

impl Version {
    /// A copy of the version.
    pub fn duplicate(&self) -> (r: Version)
        ensures
            r@ == self@,
    {
        let mut repositories: Vec<Repository> = Vec::new();
        let mut i: usize = 0;
        while i < self.repositories.len()
            invariant
                i <= self.repositories.len(),
                repositories@.len() == i,
                forall|j: int| 0 <= j < i ==> repositories@[j]@ == self.repositories@[j]@,
            decreases self.repositories.len() - i,
        {
            repositories.push(self.repositories[i].duplicate());
            i = i + 1;
        }
        let r = Version { repositories };
        assert(r@ =~= self@);
        r
    }

    /// Whether two versions are made of the same repositories, patch by
    /// patch and path by path.
    pub fn same_as(&self, other: &Version) -> (r: bool)
        ensures
            r == (self@ == other@),
    {
        if self.repositories.len() != other.repositories.len() {
            assert(self@.len() != other@.len());
            return false;
        }
        let mut i: usize = 0;
        while i < self.repositories.len()
            invariant
                i <= self.repositories.len(),
                self.repositories.len() == other.repositories.len(),
                forall|j: int| 0 <= j < i ==> self@[j] == other@[j],
            decreases self.repositories.len() - i,
        {
            if !self.repositories[i].same_as(&other.repositories[i]) {
                assert(self@[i as int] != other@[i as int]);
                return false;
            }
            i = i + 1;
        }
        assert(self@ =~= other@);
        true
    }
}

/// A running digest with one more value taken in.
pub open spec fn mixed(digest: u64, value: u64) -> u64 {
    (digest ^ value).wrapping_mul(0x0000_0100_0000_01b3)
}

/// A running digest with the characters of a text taken in, first to last.
pub open spec fn mixed_text(digest: u64, text: Seq<char>) -> u64
    decreases text.len(),
{
    if text.len() == 0 {
        digest
    } else {
        mixed(mixed_text(digest, text.drop_last()), text.last() as u64)
    }
}

/// A running digest with a name taken in: its characters, then a mark that
/// no character equals, so that the digest tells where a name ends.
pub open spec fn mixed_name(digest: u64, name: Seq<char>) -> u64 {
    mixed(mixed_text(digest, name), 0x11_0000)
}

/// A running digest with the names of a run of patches taken in, first to
/// last. Where the patches lie is left out.
pub open spec fn mixed_patches(digest: u64, patches: Seq<LocalPatchView>) -> u64
    decreases patches.len(),
{
    if patches.len() == 0 {
        digest
    } else {
        mixed_name(mixed_patches(digest, patches.drop_last()), patches.last().name)
    }
}

/// A running digest with repositories taken in, first to last: for each its
/// name, the names of its patches, and a mark that ends it.
pub open spec fn mixed_repositories(digest: u64, repositories: Seq<RepositoryView>) -> u64
    decreases repositories.len(),
{
    if repositories.len() == 0 {
        digest
    } else {
        let last = repositories.last();
        mixed(
            mixed_patches(
                mixed_name(mixed_repositories(digest, repositories.drop_last()), last.name),
                last.patches,
            ),
            0x11_0001,
        )
    }
}

/// The key of a version: a digest of the names of its repositories and of
/// their patches, in order.
pub open spec fn key_of(version: Seq<RepositoryView>) -> VersionKey {
    VersionKey(mixed_repositories(0xcbf2_9ce4_8422_2325, version))
}

/// Takes one value into a running digest.
fn mix(digest: u64, value: u64) -> (r: u64)
    ensures
        r == mixed(digest, value),
{
    (digest ^ value).wrapping_mul(0x0000_0100_0000_01b3)
}

/// Takes a name into a running digest.
fn mix_name(digest: u64, name: &String) -> (r: u64)
    ensures
        r == mixed_name(digest, name@),
{
    let chars = chars_of(name.as_str());
    let mut r = digest;
    let mut i: usize = 0;
    while i < chars.len()
        invariant
            i <= chars.len(),
            r == mixed_text(digest, chars@.take(i as int)),
        decreases chars.len() - i,
    {
        proof {
            assert(chars@.take(i + 1).drop_last() =~= chars@.take(i as int));
            assert(chars@.take(i + 1).last() == chars@[i as int]);
        }
        r = mix(r, chars[i] as u64);
        i = i + 1;
    }
    assert(chars@.take(chars@.len() as int) =~= chars@);
    mix(r, 0x11_0000)
}

impl Version {
    /// The key of the version. Versions of the same repositories and patches
    /// have the same key, wherever the patches lie.
    pub fn key(&self) -> (r: VersionKey)
        ensures
            r == key_of(self@),
    {
        let mut digest: u64 = 0xcbf2_9ce4_8422_2325;
        let mut i: usize = 0;
        while i < self.repositories.len()
            invariant
                i <= self.repositories.len(),
                digest == mixed_repositories(0xcbf2_9ce4_8422_2325, self@.take(i as int)),
            decreases self.repositories.len() - i,
        {
            let repository = &self.repositories[i];
            proof {
                assert(self@.take(i + 1).drop_last() =~= self@.take(i as int));
                assert(self@.take(i + 1).last() == repository@);
            }
            digest = mix_name(digest, &repository.name);
            let patches = repository.patch_vec();
            let ghost start = digest;
            let ghost views = repository@.patches;
            let mut j: usize = 0;
            while j < patches.len()
                invariant
                    j <= patches.len(),
                    views == patches@.map_values(|p: LocalPatch| p@),
                    digest == mixed_patches(start, views.take(j as int)),
                decreases patches.len() - j,
            {
                proof {
                    assert(views.take(j + 1).drop_last() =~= views.take(j as int));
                    assert(views.take(j + 1).last() == patches@[j as int]@);
                }
                digest = mix_name(digest, &patches[j].name);
                j = j + 1;
            }
            assert(views.take(views.len() as int) =~= views);
            digest = mix(digest, 0x11_0001);
            i = i + 1;
        }
        assert(self@.take(self@.len() as int) =~= self@);
        VersionKey(digest)
    }
}

} // verus!
