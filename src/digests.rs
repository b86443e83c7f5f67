//! Mapping of known-good OCI image digests to the digests that some boot
//! images were shipped with, and the patching of a release index with the
//! latter so that nodes booted from such images find themselves in the graph.
use vstd::prelude::*;

use crate::metadata::{Release, ReleaseOciImage};
use crate::text::same_text;

verus! {

/// The good and the bad digest of one release on one architecture.
pub struct GoodBadDigests {
    pub good: String,
    pub bad: String,
}

/// Digests of one release (`version`) on one architecture.
pub struct DigestEntry {
    pub version: String,
    pub arch: String,
    pub digests: GoodBadDigests,
}

/// Known digest pairs, looked up by release and architecture.
pub struct DigestsMapper {
    pub entries: Vec<DigestEntry>,
}

/// The bad digest of the first entry for `version` and `arch`.
pub open spec fn bad_digest(entries: Seq<DigestEntry>, version: Seq<char>, arch: Seq<char>) -> Option<
    Seq<char>,
>
    decreases entries.len(),
{
    if entries.len() == 0 {
        None
    } else if entries[0].version@ == version && entries[0].arch@ == arch {
        Some(entries[0].digests.bad@)
    } else {
        bad_digest(entries.skip(1), version, arch)
    }
}

/// The position of the first `@` in `s`, if any.
pub open spec fn first_at(s: Seq<char>) -> Option<int>
    decreases s.len(),
{
    if s.len() == 0 {
        None
    } else if s[0] == '@' {
        Some(0)
    } else {
        match first_at(s.skip(1)) {
            Some(i) => Some(i + 1),
            None => None,
        }
    }
}

/// A digested pullspec `name@digest` with its digest replaced by `digest`.
pub open spec fn with_digest(pullspec: Seq<char>, digest: Seq<char>) -> Seq<char> {
    pullspec.take(first_at(pullspec)->0) + "@"@ + digest
}

/// The pullspec of an image of release `version` after patching.
pub open spec fn patched_ref(entries: Seq<DigestEntry>, version: Seq<char>, image: ReleaseOciImage) -> Seq<
    char,
> {
    match bad_digest(entries, version, image.architecture@) {
        Some(bad) => with_digest(image.digest_ref@, bad),
        None => image.digest_ref@,
    }
}

/// Whether every image that has a bad digest is a digested pullspec.
pub open spec fn patchable(entries: Seq<DigestEntry>, r: Release) -> bool {
    match r.oci_images {
        Some(images) => forall|j: int|
            0 <= j < images@.len() && bad_digest(entries, r.version@, (#[trigger] images@[j]).architecture@) is Some
                ==> first_at(images@[j].digest_ref@) is Some,
        None => true,
    }
}

/// Release `new` is release `old` with its image pullspecs patched.
pub open spec fn release_patched(entries: Seq<DigestEntry>, old: Release, new: Release) -> bool {
    &&& new.version == old.version
    &&& new.commits == old.commits
    &&& new.metadata == old.metadata
    &&& match (old.oci_images, new.oci_images) {
        (None, None) => true,
        (Some(a), Some(b)) => {
            &&& a@.len() == b@.len()
            &&& forall|j: int|
                0 <= j < a@.len() ==> (#[trigger] b@[j]).architecture == a@[j].architecture
                    && b@[j].digest_ref@ == patched_ref(entries, old.version@, a@[j])
        },
        _ => false,
    }
}

proof fn lemma_first_at_bounds(s: Seq<char>)
    ensures
        first_at(s) is Some ==> 0 <= first_at(s)->0 < s.len(),
    decreases s.len(),
{
    if s.len() > 0 && s[0] != '@' {
        lemma_first_at_bounds(s.skip(1));
    }
}

fn find_at(s: &String) -> (r: Option<usize>)
    ensures
        r is Some <==> first_at(s@) is Some,
        r is Some ==> r->0 == first_at(s@)->0,
{
    let n = s.as_str().unicode_len();
    let mut i: usize = 0;
    assert(s@.skip(0) =~= s@);
    while i < n
        invariant
            n == s@.len(),
            i <= n,
            first_at(s@) == match first_at(s@.skip(i as int)) {
                Some(k) => Some(k + i),
                None => None::<int>,
            },
        decreases n - i,
    {
        let ghost rest = s@.skip(i as int);
        assert(rest.skip(1) =~= s@.skip(i + 1));
        if s.as_str().get_char(i) == '@' {
            return Some(i);
        }
        i = i + 1;
    }
    assert(s@.skip(n as int).len() == 0);
    None
}

/// Relies on chrono's `Utc::now` and `Timelike::minute`: the minute of the
/// current UTC time, from 0 to 59.
#[verifier::external_body]
fn current_minute() -> (r: u32)
    ensures
        r < 60,
{
    chrono::Timelike::minute(&chrono::Utc::now())
}

/// Whether graphs built during `minute` are patched: even minutes only.
pub fn patch_at_minute(minute: u32) -> (r: bool)
    ensures
        r == (minute % 2 == 0),
{
    minute % 2 == 0
}

impl DigestsMapper {
    /// Whether graphs built now are patched: on even minutes only, so that
    /// every other refresh serves the regular graph.
    pub fn should_patch(&self) -> bool {
        patch_at_minute(current_minute())
    }

    /// The bad digest known for `version` on `arch`, if any.
    pub fn get_bad_hash_for_version_and_arch(&self, version: &String, arch: &String) -> (r: Option<
        String,
    >)
        ensures
            r is Some <==> bad_digest(self.entries@, version@, arch@) is Some,
            r is Some ==> r->0@ == bad_digest(self.entries@, version@, arch@)->0,
    {
        let ghost e = self.entries@;
        let mut i: usize = 0;
        assert(e.skip(0) =~= e);
        while i < self.entries.len()
            invariant
                e == self.entries@,
                i <= e.len(),
                bad_digest(e, version@, arch@) == bad_digest(e.skip(i as int), version@, arch@),
            decreases e.len() - i,
        {
            let entry = &self.entries[i];
            assert(e.skip(i as int).skip(1) =~= e.skip(i + 1));
            assert(e.skip(i as int)[0] == e[i as int]);
            if same_text(entry.version.as_str(), version.as_str()) && same_text(
                entry.arch.as_str(),
                arch.as_str(),
            ) {
                return Some(entry.digests.bad.clone());
            }
            i = i + 1;
        }
        None
    }

    fn patch_image(&self, version: &String, image: &mut ReleaseOciImage)
        requires
            bad_digest(self.entries@, version@, old(image).architecture@) is Some ==> first_at(
                old(image).digest_ref@,
            ) is Some,
        ensures
            final(image).architecture == old(image).architecture,
            final(image).digest_ref@ == patched_ref(self.entries@, version@, *old(image)),
    {
        match self.get_bad_hash_for_version_and_arch(version, &image.architecture) {
            Some(bad) => {
                let at = find_at(&image.digest_ref);
                proof {
                    lemma_first_at_bounds(image.digest_ref@);
                }
                let at = match at {
                    Some(k) => k,
                    None => 0,
                };
                let name = image.digest_ref.as_str().substring_char(0, at);
                let patched = String::from_str(name).concat("@").concat(bad.as_str());
                image.digest_ref = patched;
            },
            None => {},
        }
    }

    /// Patches the OCI image pullspecs of every release but the newest with
    /// the bad digest known for their release and architecture, if any.
    pub fn fix_releases(&self, releases: &mut Vec<Release>)
        requires
            forall|i: int|
                0 <= i < old(releases)@.len() - 1 ==> patchable(
                    self.entries@,
                    #[trigger] old(releases)@[i],
                ),
        ensures
            final(releases)@.len() == old(releases)@.len(),
            old(releases)@.len() > 0 ==> final(releases)@.last() == old(releases)@.last(),
            forall|i: int|
                0 <= i < old(releases)@.len() - 1 ==> release_patched(
                    self.entries@,
                    old(releases)@[i],
                    #[trigger] final(releases)@[i],
                ),
    {
        let n = releases.len();
        if n == 0 {
            return;
        }
        let ghost start = releases@;
        let mut i: usize = 0;
        while i < n - 1
            invariant
                n == releases@.len(),
                n == start.len(),
                n > 0,
                start == old(releases)@,
                i <= n - 1,
                forall|k: int| i <= k < n ==> #[trigger] releases@[k] == start[k],
                forall|k: int|
                    0 <= k < n - 1 ==> patchable(self.entries@, #[trigger] start[k]),
                forall|k: int|
                    0 <= k < i ==> release_patched(self.entries@, start[k], #[trigger] releases@[k]),
            decreases n - 1 - i,
        {
            self.patch_release(&mut releases[i]);
            i = i + 1;
        }
    }

    fn patch_release(&self, release: &mut Release)
        requires
            patchable(self.entries@, *old(release)),
        ensures
            release_patched(self.entries@, *old(release), *final(release)),
    {
        let version = release.version.clone();
        match &mut release.oci_images {
            Some(images) => {
                let ghost a = images@;
                let m = images.len();
                let mut j: usize = 0;
                while j < m
                    invariant
                        m == images@.len(),
                        m == a.len(),
                        version@ == old(release).version@,
                        j <= m,
                        forall|k: int| j <= k < m ==> #[trigger] images@[k] == a[k],
                        forall|k: int|
                            0 <= k < m && bad_digest(self.entries@, version@, (#[trigger] a[k]).architecture@)
                                is Some ==> first_at(a[k].digest_ref@) is Some,
                        forall|k: int|
                            0 <= k < j ==> (#[trigger] images@[k]).architecture == a[k].architecture
                                && images@[k].digest_ref@ == patched_ref(self.entries@, version@, a[k]),
                    decreases m - j,
                {
                    self.patch_image(&version, &mut images[j]);
                    j = j + 1;
                }
            },
            None => {},
        }
    }
}

} // verus!
