use vstd::prelude::*;

use crate::token::strs;
use crate::types::{
    key_of, version_class, ExtensionIdentifier, HandlerError, LatestVersion,
    ManagedExtensionMetadata, VersionInfo, VersionType, BAD_REQUEST,
};

verus! {

/// No two pairs of `s` have the same key.
pub open spec fn unique_keys<V>(s: Seq<(String, V)>) -> bool {
    forall|i: int, j: int|
        0 <= i < s.len() && 0 <= j < s.len() && i != j ==> #[trigger] s[i].0@ != #[trigger] s[j].0@
}

/// The value paired with key `k` in `s`, if any.
pub open spec fn lookup<V>(s: Seq<(String, V)>, k: Seq<char>) -> Option<V> {
    if exists|i: int| 0 <= i < s.len() && #[trigger] s[i].0@ == k {
        Some(s[choose|i: int| 0 <= i < s.len() && #[trigger] s[i].0@ == k].1)
    } else {
        None
    }
}

proof fn lemma_lookup_at<V>(s: Seq<(String, V)>, i: int)
    requires
        unique_keys(s),
        0 <= i < s.len(),
    ensures
        lookup(s, s[i].0@) == Some(s[i].1),
{
    let k = s[i].0@;
    assert(exists|j: int| 0 <= j < s.len() && #[trigger] s[j].0@ == k);
    let j = choose|j: int| 0 <= j < s.len() && #[trigger] s[j].0@ == k;
    assert(i == j);
}

/// The position of key `key` in `list`, if it is there.
fn find_key<V>(list: &Vec<(String, V)>, key: &String) -> (r: Option<usize>)
    ensures
        r matches Some(i) ==> i < list@.len() && list@[i as int].0@ == key@,
        r is None ==> forall|i: int| 0 <= i < list@.len() ==> (#[trigger] list@[i]).0@ != key@,
{
    let mut i: usize = 0;
    while i < list.len()
        invariant
            i <= list@.len(),
            forall|j: int| 0 <= j < i ==> (#[trigger] list@[j]).0@ != key@,
        decreases list@.len() - i,
    {
        if <String as PartialEq>::eq(&list[i].0, key) {
            return Some(i);
        }
        i += 1;
    }
    None
}

/// Pairs `v` with `key` in `list`, replacing what `key` had.
fn upsert<V>(list: &mut Vec<(String, V)>, key: String, v: V)
    requires
        unique_keys(old(list)@),
    ensures
        unique_keys(final(list)@),
        lookup(final(list)@, key@) == Some(v),
        forall|k: Seq<char>| k != key@ ==> #[trigger] lookup(final(list)@, k) == lookup(old(list)@, k),
{
    let ghost pre = list@;
    let ghost kv = key@;
    let ghost vv = v;
    match find_key(list, &key) {
        Some(i) => {
            list.set(i, (key, v));
            proof {
                let s = list@;
                assert forall|a: int, b: int|
                    0 <= a < s.len() && 0 <= b < s.len() && a != b implies #[trigger] s[a].0@
                    != #[trigger] s[b].0@ by {
                    if a != i {
                        assert(s[a] == pre[a]);
                    }
                    if b != i {
                        assert(s[b] == pre[b]);
                    }
                }
                lemma_lookup_at(s, i as int);
                assert forall|k: Seq<char>| k != kv implies #[trigger] lookup(s, k) == lookup(pre, k) by {
                    if exists|j: int| 0 <= j < pre.len() && #[trigger] pre[j].0@ == k {
                        let j = choose|j: int| 0 <= j < pre.len() && #[trigger] pre[j].0@ == k;
                        assert(s[j] == pre[j]);
                        lemma_lookup_at(pre, j);
                        lemma_lookup_at(s, j);
                    } else if exists|j: int| 0 <= j < s.len() && #[trigger] s[j].0@ == k {
                        let j = choose|j: int| 0 <= j < s.len() && #[trigger] s[j].0@ == k;
                        assert(s[j] == pre[j]);
                    }
                }
            }
        },
        None => {
            list.push((key, v));
            proof {
                let s = list@;
                let n = pre.len() as int;
                assert forall|a: int, b: int|
                    0 <= a < s.len() && 0 <= b < s.len() && a != b implies #[trigger] s[a].0@
                    != #[trigger] s[b].0@ by {
                    if a < n {
                        assert(s[a] == pre[a]);
                    }
                    if b < n {
                        assert(s[b] == pre[b]);
                    }
                }
                lemma_lookup_at(s, n);
                assert forall|k: Seq<char>| k != kv implies #[trigger] lookup(s, k) == lookup(pre, k) by {
                    if exists|j: int| 0 <= j < pre.len() && #[trigger] pre[j].0@ == k {
                        let j = choose|j: int| 0 <= j < pre.len() && #[trigger] pre[j].0@ == k;
                        assert(s[j] == pre[j]);
                        lemma_lookup_at(pre, j);
                        lemma_lookup_at(s, j);
                    } else if exists|j: int| 0 <= j < s.len() && #[trigger] s[j].0@ == k {
                        let j = choose|j: int| 0 <= j < s.len() && #[trigger] s[j].0@ == k;
                        assert(s[j] == pre[j]);
                    }
                }
            }
        },
    }
}

fn clone_strings(v: &Vec<String>) -> (r: Vec<String>)
    ensures
        r@ == v@,
{
    let mut r: Vec<String> = Vec::new();
    let mut i: usize = 0;
    while i < v.len()
        invariant
            i <= v@.len(),
            r@ == v@.take(i as int),
        decreases v@.len() - i,
    {
        r.push(v[i].clone());
        assert(r@ =~= v@.take(i + 1));
        i += 1;
    }
    assert(v@.take(i as int) =~= v@);
    r
}

fn clone_option(o: &Option<String>) -> (r: Option<String>)
    ensures
        r == *o,
{
    match o {
        Some(s) => Some(s.clone()),
        None => None,
    }
}

fn clone_latest(l: &LatestVersion) -> (r: LatestVersion)
    ensures
        r == *l,
{
    LatestVersion {
        release: clone_option(&l.release),
        beta: clone_option(&l.beta),
        rc: clone_option(&l.rc),
    }
}

/// The value of the last pair of `s` with key `k`, if any.
pub open spec fn last_value<V>(s: Seq<(String, V)>, k: Seq<char>) -> Option<V>
    decreases s.len(),
{
    if s.len() == 0 {
        None
    } else if s.last().0@ == k {
        Some(s.last().1)
    } else {
        last_value(s.drop_last(), k)
    }
}

/// The counts of `s`, the last pair for a key winning; zero for a key missing.
pub open spec fn count_in(s: Seq<(String, u32)>, k: Seq<char>) -> nat {
    match last_value(s, k) {
        Some(n) => n as nat,
        None => 0,
    }
}

/// The latest versions of `s`, the last pair for a key winning.
pub open spec fn latest_in(s: Seq<(String, LatestVersion)>, k: Seq<char>) -> LatestVersion {
    match last_value(s, k) {
        Some(l) => l,
        None => no_latest(),
    }
}

/// The histories of `s`, the last pair for a key winning.
pub open spec fn history_in(s: Seq<(String, Vec<String>)>, k: Seq<char>) -> Seq<Seq<char>> {
    match last_value(s, k) {
        Some(v) => strs(v@),
        None => Seq::empty(),
    }
}

proof fn lemma_last_value_step<V>(s: Seq<(String, V)>, i: int, k: Seq<char>)
    requires
        0 <= i < s.len(),
    ensures
        last_value(s.take(i + 1), k) == if s[i].0@ == k {
            Some(s[i].1)
        } else {
            last_value(s.take(i), k)
        },
{
    assert(s.take(i + 1).drop_last() =~= s.take(i));
    assert(s.take(i + 1).last() == s[i]);
}

/// No version recorded on any channel.
pub open spec fn no_latest() -> LatestVersion {
    LatestVersion { release: None, beta: None, rc: None }
}

/// `l` with the slot of channel `t` set to `v`.
pub open spec fn with_channel(l: LatestVersion, t: VersionType, v: String) -> LatestVersion {
    match t {
        VersionType::Release => LatestVersion { release: Some(v), ..l },
        VersionType::Beta => LatestVersion { beta: Some(v), ..l },
        VersionType::ReleaseCandidate => LatestVersion { rc: Some(v), ..l },
    }
}

proof fn lemma_last_value_views(a: Seq<(String, Vec<String>)>, b: Seq<(String, Vec<String>)>)
    requires
        a.len() == b.len(),
        forall|j: int| 0 <= j < a.len() ==> (#[trigger] a[j]).0 == b[j].0 && a[j].1@ == b[j].1@,
    ensures
        forall|k: Seq<char>| #[trigger] history_in(a, k) == history_in(b, k),
        forall|k: Seq<char>| #[trigger] last_value(a, k) is Some <==> last_value(b, k) is Some,
    decreases a.len(),
{
    if a.len() > 0 {
        let n = a.len() - 1;
        assert forall|j: int| 0 <= j < n implies (#[trigger] a.drop_last()[j]).0 == b.drop_last()[j].0
            && a.drop_last()[j].1@ == b.drop_last()[j].1@ by {
            assert(a.drop_last()[j] == a[j] && b.drop_last()[j] == b[j]);
        }
        lemma_last_value_views(a.drop_last(), b.drop_last());
        assert(a.last() == a[n] && b.last() == b[n]);
        assert forall|k: Seq<char>| #[trigger] last_value(a, k) is Some <==> last_value(b, k) is Some by {
            assert(last_value(a.drop_last(), k) is Some <==> last_value(b.drop_last(), k) is Some);
            if a[n].0@ != k {
                assert(last_value(a, k) == last_value(a.drop_last(), k));
                assert(last_value(b, k) == last_value(b.drop_last(), k));
            }
        }
        assert forall|k: Seq<char>| #[trigger] history_in(a, k) == history_in(b, k) by {
            assert(history_in(a.drop_last(), k) == history_in(b.drop_last(), k));
            if a[n].0@ == k {
                assert(last_value(a, k) == Some(a[n].1));
                assert(last_value(b, k) == Some(b[n].1));
            } else {
                assert(last_value(a, k) == last_value(a.drop_last(), k));
                assert(last_value(b, k) == last_value(b.drop_last(), k));
            }
        }
    }
}

proof fn lemma_last_is_lookup<V>(s: Seq<(String, V)>)
    requires
        unique_keys(s),
    ensures
        forall|k: Seq<char>| #[trigger] last_value(s, k) == lookup(s, k),
    decreases s.len(),
{
    if s.len() > 0 {
        let d = s.drop_last();
        assert forall|i: int, j: int|
            0 <= i < d.len() && 0 <= j < d.len() && i != j implies #[trigger] d[i].0@ != #[trigger] d[j].0@ by {
            assert(d[i] == s[i] && d[j] == s[j]);
        }
        lemma_last_is_lookup(d);
        assert forall|k: Seq<char>| #[trigger] last_value(s, k) == lookup(s, k) by {
            let n = s.len() - 1;
            assert(s.last() == s[n]);
            if s[n].0@ == k {
                lemma_lookup_at(s, n);
                assert(last_value(s, k) == Some(s[n].1));
            } else if exists|j: int| 0 <= j < d.len() && #[trigger] d[j].0@ == k {
                let j = choose|j: int| 0 <= j < d.len() && #[trigger] d[j].0@ == k;
                assert(s[j] == d[j]);
                lemma_lookup_at(d, j);
                lemma_lookup_at(s, j);
                assert(last_value(s, k) == last_value(d, k));
                assert(last_value(d, k) == lookup(d, k));
            } else {
                if exists|j: int| 0 <= j < s.len() && #[trigger] s[j].0@ == k {
                    let j = choose|j: int| 0 <= j < s.len() && #[trigger] s[j].0@ == k;
                    assert(s[j] == d[j]);
                }
                assert(last_value(s, k) == last_value(d, k));
                assert(last_value(d, k) == lookup(d, k));
            }
        }
    }
}

/// `after` counts one more download under `k` than `before`, unless the
/// count was already at `u32::MAX`.
pub open spec fn counted_once(before: MetadataHandler, after: MetadataHandler, k: Seq<char>) -> bool {
    after.downloads_spec(k) == if before.downloads_spec(k) < u32::MAX {
        before.downloads_spec(k) + 1
    } else {
        before.downloads_spec(k)
    }
}

/// Counting downloads from an extension never downloaded: after each of
/// `states.len() - 1` increments the count is exactly the number made.
pub proof fn lemma_download_count(states: Seq<MetadataHandler>, k: Seq<char>)
    requires
        states.len() >= 1,
        states.len() - 1 <= u32::MAX,
        states[0].downloads_spec(k) == 0,
        forall|i: int| 0 <= i < states.len() - 1 ==> counted_once(#[trigger] states[i], states[i + 1], k),
    ensures
        states.last().downloads_spec(k) == states.len() - 1,
    decreases states.len(),
{
    if states.len() > 1 {
        let d = states.drop_last();
        assert forall|i: int| 0 <= i < d.len() - 1 implies counted_once(#[trigger] d[i], d[i + 1], k) by {
            assert(d[i] == states[i] && d[i + 1] == states[i + 1]);
        }
        lemma_download_count(d, k);
        assert(counted_once(states[states.len() - 2], states[states.len() - 1], k));
    }
}

/// The parts joined with `sep` between each two.
pub open spec fn joined(parts: Seq<Seq<char>>, sep: char) -> Seq<char>
    decreases parts.len(),
{
    if parts.len() == 0 {
        Seq::empty()
    } else if parts.len() == 1 {
        parts[0]
    } else {
        joined(parts.drop_last(), sep) + seq![sep] + parts.last()
    }
}

/// Joins the first `n` strings of `parts` with `sep`.
pub fn join_strings(parts: &Vec<String>, n: usize, sep: char) -> (r: String)
    requires
        n <= parts@.len(),
    ensures
        r@ == joined(strs(parts@.take(n as int)), sep),
{
    let mut r = String::new();
    let mut i: usize = 0;
    while i < n
        invariant
            i <= n,
            n <= parts@.len(),
            r@ == joined(strs(parts@.take(i as int)), sep),
        decreases n - i,
    {
        let ghost before = strs(parts@.take(i as int));
        assert(strs(parts@.take(i + 1)).drop_last() =~= before);
        assert(strs(parts@.take(i + 1)).last() == parts@[i as int]@);
        if i > 0 {
            crate::index::push_char(&mut r, sep);
        } else {
            assert(strs(parts@.take(1)) =~= seq![parts@[0]@]);
        }
        r.append(parts[i].as_str());
        i += 1;
    }
    r
}

/// Where the metadata file of `version` is served, for an extension at `path`.
pub open spec fn metadata_path_of(path: Seq<char>, name: Seq<char>, version: Seq<char>) -> Seq<char> {
    "/registry/"@ + path + "/"@ + name + "-"@ + version + "-metadata.json"@
}

/// Every version of `versions` names a channel.
pub open spec fn all_classified(versions: Seq<Seq<char>>) -> bool {
    forall|i: int| 0 <= i < versions.len() ==> (#[trigger] version_class(versions[i])) is Some
}

/// `after` is `before` with `version` recorded under `key` on channel `t`:
/// appended to the history, made the channel's latest, and nothing else changed.
pub open spec fn version_recorded(
    before: MetadataHandler,
    after: MetadataHandler,
    key: Seq<char>,
    t: VersionType,
    version: String,
) -> bool {
    &&& after.versions_spec(key) == before.versions_spec(key).push(version@)
    &&& after.latest_spec(key) == with_channel(before.latest_spec(key), t, version)
    &&& after.extension_keys() == before.extension_keys().insert(key)
    &&& forall|k: Seq<char>|
        k != key ==> #[trigger] after.versions_spec(k) == before.versions_spec(k)
            && after.latest_spec(k) == before.latest_spec(k)
    &&& forall|k: Seq<char>| #[trigger] after.downloads_spec(k) == before.downloads_spec(k)
}

/// Per-extension bookkeeping: download counts, the latest version on each
/// channel, and the history of recorded versions, filed under `group:name`.
pub struct MetadataHandler {
    downloads: Vec<(String, u32)>,
    latest: Vec<(String, LatestVersion)>,
    versions: Vec<(String, Vec<String>)>,
}

impl MetadataHandler {
    pub closed spec fn wf(&self) -> bool {
        &&& unique_keys(self.downloads@)
        &&& unique_keys(self.latest@)
        &&& unique_keys(self.versions@)
    }

    /// How many times the extension filed under `k` was downloaded.
    pub closed spec fn downloads_spec(&self, k: Seq<char>) -> nat {
        match lookup(self.downloads@, k) {
            Some(n) => n as nat,
            None => 0,
        }
    }

    /// The latest version on each channel of the extension filed under `k`.
    pub closed spec fn latest_spec(&self, k: Seq<char>) -> LatestVersion {
        match lookup(self.latest@, k) {
            Some(l) => l,
            None => no_latest(),
        }
    }

    /// The versions recorded for the extension filed under `k`, oldest first.
    pub closed spec fn versions_spec(&self, k: Seq<char>) -> Seq<Seq<char>> {
        match lookup(self.versions@, k) {
            Some(v) => strs(v@),
            None => Seq::empty(),
        }
    }

    /// The keys of the extensions with at least one recorded version.
    pub closed spec fn extension_keys(&self) -> Set<Seq<char>> {
        Set::new(|k: Seq<char>| lookup(self.versions@, k) is Some)
    }

    /// Bookkeeping with nothing recorded.
    pub fn new() -> (r: MetadataHandler)
        ensures
            r.wf(),
            forall|k: Seq<char>| #[trigger] r.downloads_spec(k) == 0,
            forall|k: Seq<char>| #[trigger] r.latest_spec(k) == no_latest(),
            forall|k: Seq<char>| #[trigger] r.versions_spec(k) == Seq::<Seq<char>>::empty(),
            r.extension_keys() == Set::<Seq<char>>::empty(),
    {
        let r = MetadataHandler { downloads: Vec::new(), latest: Vec::new(), versions: Vec::new() };
        assert(r.extension_keys() =~= Set::<Seq<char>>::empty());
        r
    }

    /// Counts one more download of `d`; a count at `u32::MAX` stays there.
    pub fn increment_download(&mut self, d: &ExtensionIdentifier)
        requires
            old(self).wf(),
        ensures
            final(self).wf(),
            counted_once(*old(self), *final(self), key_of(d.group@, d.name@)),
            forall|k: Seq<char>|
                k != key_of(d.group@, d.name@) ==> #[trigger] final(self).downloads_spec(k)
                    == old(self).downloads_spec(k),
            forall|k: Seq<char>| #[trigger] final(self).latest_spec(k) == old(self).latest_spec(k),
            forall|k: Seq<char>| #[trigger] final(self).versions_spec(k) == old(self).versions_spec(k),
            final(self).extension_keys() == old(self).extension_keys(),
    {
        let key = d.as_key();
        let current = match find_key(&self.downloads, &key) {
            Some(i) => {
                proof {
                    lemma_lookup_at(self.downloads@, i as int);
                }
                self.downloads[i].1
            },
            None => 0,
        };
        let next = if current < u32::MAX {
            current + 1
        } else {
            current
        };
        upsert(&mut self.downloads, key, next);
    }

    /// Records `version` for `id`: appends it to the history and makes it the
    /// latest of its channel. A version whose suffix names no channel is
    /// refused and nothing changes.
    pub fn new_version(&mut self, id: &ExtensionIdentifier, version: String) -> (r: Result<
        (),
        HandlerError,
    >)
        requires
            old(self).wf(),
        ensures
            final(self).wf(),
            version_class(version@) is None ==> {
                &&& r is Err
                &&& r->Err_0.status == crate::types::BAD_REQUEST
                &&& r->Err_0.error_message@ == "Invalid extension version"@
                &&& *final(self) == *old(self)
            },
            version_class(version@) is Some ==> r is Ok && version_recorded(
                *old(self),
                *final(self),
                key_of(id.group@, id.name@),
                version_class(version@)->Some_0,
                version,
            ),
    {
        let class = match VersionType::classify(version.as_str()) {
            Ok(c) => c,
            Err(e) => {
                return Err(e);
            },
        };
        let key = id.as_key();
        let ghost pre = *self;
        let mut history = match find_key(&self.versions, &key) {
            Some(i) => {
                proof {
                    lemma_lookup_at(self.versions@, i as int);
                }
                clone_strings(&self.versions[i].1)
            },
            None => Vec::new(),
        };
        let ghost old_history = history@;
        history.push(version.clone());
        let ghost new_history = history@;
        assert(strs(new_history) =~= strs(old_history).push(version@));
        assert(strs(old_history) == pre.versions_spec(key@));
        upsert(&mut self.versions, key.clone(), history);
        assert(self.versions_spec(key@) == strs(new_history));
        let mut latest = match find_key(&self.latest, &key) {
            Some(i) => {
                proof {
                    lemma_lookup_at(self.latest@, i as int);
                }
                clone_latest(&self.latest[i].1)
            },
            None => LatestVersion { release: None, beta: None, rc: None },
        };
        match class {
            VersionType::Release => {
                latest.release = Some(version);
            },
            VersionType::Beta => {
                latest.beta = Some(version);
            },
            VersionType::ReleaseCandidate => {
                latest.rc = Some(version);
            },
        }
        upsert(&mut self.latest, key, latest);
        proof {
            assert(strs(old_history.push(version)) =~= strs(old_history).push(version@));
            assert(self.extension_keys() =~= pre.extension_keys().insert(key@));
        }
        Ok(())
    }

    /// The download count, latest versions and history of `identifier`;
    /// zero and nothing for an extension never seen.
    pub fn get_managed_metadata(&self, identifier: &ExtensionIdentifier) -> (r: (
        u32,
        LatestVersion,
        Vec<String>,
    ))
        requires
            self.wf(),
        ensures
            r.0 as nat == self.downloads_spec(key_of(identifier.group@, identifier.name@)),
            r.1 == self.latest_spec(key_of(identifier.group@, identifier.name@)),
            strs(r.2@) == self.versions_spec(key_of(identifier.group@, identifier.name@)),
    {
        let key = identifier.as_key();
        let downloads = match find_key(&self.downloads, &key) {
            Some(i) => {
                proof {
                    lemma_lookup_at(self.downloads@, i as int);
                }
                self.downloads[i].1
            },
            None => 0,
        };
        let latest = match find_key(&self.latest, &key) {
            Some(i) => {
                proof {
                    lemma_lookup_at(self.latest@, i as int);
                }
                clone_latest(&self.latest[i].1)
            },
            None => LatestVersion { release: None, beta: None, rc: None },
        };
        let versions = match find_key(&self.versions, &key) {
            Some(i) => {
                proof {
                    lemma_lookup_at(self.versions@, i as int);
                }
                clone_strings(&self.versions[i].1)
            },
            None => Vec::new(),
        };
        (downloads, latest, versions)
    }

    /// How many extensions have at least one recorded version (at most `u32::MAX`).
    pub fn extension_count(&self) -> (r: u32)
        requires
            self.wf(),
        ensures
            r as nat == if self.extension_keys().len() < u32::MAX {
                self.extension_keys().len()
            } else {
                u32::MAX as nat
            },
    {
        let ghost keys = self.versions@.map_values(|p: (String, Vec<String>)| p.0@);
        proof {
            assert(keys.no_duplicates()) by {
                assert forall|i: int, j: int| 0 <= i < keys.len() && 0 <= j < keys.len() && i != j implies keys[i] != keys[j] by {
                    assert(keys[i] == self.versions@[i].0@ && keys[j] == self.versions@[j].0@);
                }
            }
            keys.unique_seq_to_set();
            assert(keys.to_set() =~= self.extension_keys()) by {
                assert forall|k: Seq<char>| keys.to_set().contains(k) == self.extension_keys().contains(k) by {
                    if keys.to_set().contains(k) {
                        let i = choose|i: int| 0 <= i < keys.len() && keys[i] == k;
                        assert(self.versions@[i].0@ == k);
                    }
                    if self.extension_keys().contains(k) {
                        let i = choose|i: int| 0 <= i < self.versions@.len() && #[trigger] self.versions@[i].0@ == k;
                        assert(keys[i] == k);
                    }
                }
            }
        }
        let n = self.versions.len();
        if n < u32::MAX as usize {
            n as u32
        } else {
            u32::MAX
        }
    }

    /// The download counts, latest versions and histories, each as a list of
    /// (key, value) pairs with distinct keys.
    pub fn to_parts(&self) -> (r: (
        Vec<(String, u32)>,
        Vec<(String, LatestVersion)>,
        Vec<(String, Vec<String>)>,
    ))
        requires
            self.wf(),
        ensures
            unique_keys(r.0@) && unique_keys(r.1@) && unique_keys(r.2@),
            forall|k: Seq<char>| #[trigger] count_in(r.0@, k) == self.downloads_spec(k),
            forall|k: Seq<char>| #[trigger] latest_in(r.1@, k) == self.latest_spec(k),
            forall|k: Seq<char>| #[trigger] history_in(r.2@, k) == self.versions_spec(k),
            Set::new(|k: Seq<char>| last_value(r.2@, k) is Some) == self.extension_keys(),
    {
        let mut downloads: Vec<(String, u32)> = Vec::new();
        let mut i: usize = 0;
        while i < self.downloads.len()
            invariant
                i <= self.downloads@.len(),
                downloads@ == self.downloads@.take(i as int),
            decreases self.downloads@.len() - i,
        {
            downloads.push((self.downloads[i].0.clone(), self.downloads[i].1));
            assert(downloads@ =~= self.downloads@.take(i + 1));
            i += 1;
        }
        let mut latest: Vec<(String, LatestVersion)> = Vec::new();
        let mut i: usize = 0;
        while i < self.latest.len()
            invariant
                i <= self.latest@.len(),
                latest@ == self.latest@.take(i as int),
            decreases self.latest@.len() - i,
        {
            latest.push((self.latest[i].0.clone(), clone_latest(&self.latest[i].1)));
            assert(latest@ =~= self.latest@.take(i + 1));
            i += 1;
        }
        let mut versions: Vec<(String, Vec<String>)> = Vec::new();
        let mut i: usize = 0;
        while i < self.versions.len()
            invariant
                i <= self.versions@.len(),
                versions@.len() == i,
                forall|j: int|
                    0 <= j < i ==> (#[trigger] versions@[j]).0 == self.versions@[j].0
                        && versions@[j].1@ == self.versions@[j].1@,
            decreases self.versions@.len() - i,
        {
            versions.push((self.versions[i].0.clone(), clone_strings(&self.versions[i].1)));
            i += 1;
        }
        proof {
            assert(downloads@ =~= self.downloads@);
            assert(latest@ =~= self.latest@);
            lemma_last_value_views(versions@, self.versions@);
            assert forall|a: int, b: int|
                0 <= a < versions@.len() && 0 <= b < versions@.len() && a != b implies #[trigger] versions@[a].0@
                != #[trigger] versions@[b].0@ by {
                assert(versions@[a].0 == self.versions@[a].0 && versions@[b].0 == self.versions@[b].0);
            }
            lemma_last_is_lookup(self.downloads@);
            lemma_last_is_lookup(self.latest@);
            lemma_last_is_lookup(self.versions@);
            assert(Set::new(|k: Seq<char>| last_value(versions@, k) is Some) =~= self.extension_keys());
        }
        (downloads, latest, versions)
    }

    /// Bookkeeping that holds the given pairs; where a key occurs twice, the
    /// later pair wins.
    pub fn from_parts(
        downloads: &Vec<(String, u32)>,
        latest: &Vec<(String, LatestVersion)>,
        versions: &Vec<(String, Vec<String>)>,
    ) -> (r: MetadataHandler)
        ensures
            r.wf(),
            forall|k: Seq<char>| #[trigger] r.downloads_spec(k) == count_in(downloads@, k),
            forall|k: Seq<char>| #[trigger] r.latest_spec(k) == latest_in(latest@, k),
            forall|k: Seq<char>| #[trigger] r.versions_spec(k) == history_in(versions@, k),
            r.extension_keys() == Set::new(|k: Seq<char>| last_value(versions@, k) is Some),
    {
        let mut r = MetadataHandler { downloads: Vec::new(), latest: Vec::new(), versions: Vec::new() };
        let mut i: usize = 0;
        assert(downloads@.take(0) =~= Seq::<(String, u32)>::empty());
        while i < downloads.len()
            invariant
                i <= downloads@.len(),
                r.latest@.len() == 0,
                r.versions@.len() == 0,
                unique_keys(r.downloads@),
                forall|k: Seq<char>| #[trigger] lookup(r.downloads@, k) == last_value(downloads@.take(i as int), k),
            decreases downloads@.len() - i,
        {
            proof {
                assert forall|k: Seq<char>| #[trigger] last_value(downloads@.take(i + 1), k) == if downloads@[i as int].0@ == k {
                    Some(downloads@[i as int].1)
                } else {
                    last_value(downloads@.take(i as int), k)
                } by {
                    lemma_last_value_step(downloads@, i as int, k);
                }
            }
            upsert(&mut r.downloads, downloads[i].0.clone(), downloads[i].1);
            i += 1;
        }
        assert(downloads@.take(i as int) =~= downloads@);
        let mut i: usize = 0;
        assert(latest@.take(0) =~= Seq::<(String, LatestVersion)>::empty());
        while i < latest.len()
            invariant
                i <= latest@.len(),
                r.versions@.len() == 0,
                unique_keys(r.downloads@),
                forall|k: Seq<char>| #[trigger] lookup(r.downloads@, k) == last_value(downloads@, k),
                unique_keys(r.latest@),
                forall|k: Seq<char>| #[trigger] lookup(r.latest@, k) == last_value(latest@.take(i as int), k),
            decreases latest@.len() - i,
        {
            proof {
                assert forall|k: Seq<char>| #[trigger] last_value(latest@.take(i + 1), k) == if latest@[i as int].0@ == k {
                    Some(latest@[i as int].1)
                } else {
                    last_value(latest@.take(i as int), k)
                } by {
                    lemma_last_value_step(latest@, i as int, k);
                }
            }
            upsert(&mut r.latest, latest[i].0.clone(), clone_latest(&latest[i].1));
            i += 1;
        }
        assert(latest@.take(i as int) =~= latest@);
        let mut i: usize = 0;
        assert(versions@.take(0) =~= Seq::<(String, Vec<String>)>::empty());
        while i < versions.len()
            invariant
                i <= versions@.len(),
                unique_keys(r.downloads@),
                forall|k: Seq<char>| #[trigger] lookup(r.downloads@, k) == last_value(downloads@, k),
                unique_keys(r.latest@),
                forall|k: Seq<char>| #[trigger] lookup(r.latest@, k) == last_value(latest@, k),
                unique_keys(r.versions@),
                forall|k: Seq<char>| #[trigger] lookup(r.versions@, k) matches Some(v) ==> last_value(versions@.take(i as int), k) matches Some(w) && v@ == w@,
                forall|k: Seq<char>| #[trigger] lookup(r.versions@, k) is None <==> last_value(versions@.take(i as int), k) is None,
            decreases versions@.len() - i,
        {
            proof {
                assert forall|k: Seq<char>| #[trigger] last_value(versions@.take(i + 1), k) == if versions@[i as int].0@ == k {
                    Some(versions@[i as int].1)
                } else {
                    last_value(versions@.take(i as int), k)
                } by {
                    lemma_last_value_step(versions@, i as int, k);
                }
            }
            upsert(&mut r.versions, versions[i].0.clone(), clone_strings(&versions[i].1));
            i += 1;
        }
        assert(versions@.take(i as int) =~= versions@);
        assert(r.extension_keys() =~= Set::new(|k: Seq<char>| last_value(versions@, k) is Some));
        r
    }

    /// The summary that the metadata route serves for the extension at the
    /// path `segments`: the group is every segment but the last, joined with
    /// dots, and the name is the last. An empty path is refused.
    pub fn managed_metadata(&self, segments: &Vec<String>) -> (r: Result<
        ManagedExtensionMetadata,
        HandlerError,
    >)
        requires
            self.wf(),
        ensures
            segments@.len() == 0 ==> r is Err && r->Err_0.status == BAD_REQUEST,
            segments@.len() > 0 ==> {
                let n = segments@.len() - 1;
                let name = segments@[n]@;
                let key = key_of(joined(strs(segments@.take(n)), '.'), name);
                let path = joined(strs(segments@), '/');
                let vs = self.versions_spec(key);
                &&& r is Ok <==> all_classified(vs)
                &&& r is Err ==> r->Err_0.status == BAD_REQUEST
                &&& r matches Ok(m) ==> {
                    &&& m.downloads as nat == self.downloads_spec(key)
                    &&& m.latest == self.latest_spec(key)
                    &&& m.versions@.len() == vs.len()
                    &&& forall|i: int|
                        0 <= i < vs.len() ==> {
                            &&& (#[trigger] m.versions@[i]).version@ == vs[i]
                            &&& version_class(vs[i]) == Some(m.versions@[i].release_type)
                            &&& m.versions@[i].metadata_path@ == metadata_path_of(path, name, vs[i])
                        }
                }
            },
    {
        let n = segments.len();
        if n == 0 {
            return Err(
                HandlerError::new(String::from_str("Invalid extension path"), None, BAD_REQUEST),
            );
        }
        let group = join_strings(segments, n - 1, '.');
        let name = segments[n - 1].clone();
        let path = join_strings(segments, n, '/');
        proof {
            assert(segments@.take(n as int) =~= segments@);
        }
        let identifier = ExtensionIdentifier { group, name };
        let (downloads, latest, versions) = self.get_managed_metadata(&identifier);
        let ghost vs = strs(versions@);
        let mut infos: Vec<VersionInfo> = Vec::new();
        let mut i: usize = 0;
        while i < versions.len()
            invariant
                i <= versions@.len(),
                vs == strs(versions@),
                vs == self.versions_spec(key_of(identifier.group@, identifier.name@)),
                identifier.group@ == joined(strs(segments@.take(n - 1)), '.'),
                identifier.name@ == segments@[n - 1]@,
                n == segments@.len(),
                n > 0,
                infos@.len() == i,
                forall|k: int| 0 <= k < i ==> (#[trigger] version_class(vs[k])) is Some,
                forall|k: int|
                    0 <= k < i ==> {
                        &&& (#[trigger] infos@[k]).version@ == vs[k]
                        &&& version_class(vs[k]) == Some(infos@[k].release_type)
                        &&& infos@[k].metadata_path@ == metadata_path_of(path@, identifier.name@, vs[k])
                    },
            decreases versions@.len() - i,
        {
            let v = versions[i].as_str();
            assert(vs[i as int] == v@);
            let release_type = match VersionType::classify(v) {
                Ok(t) => t,
                Err(e) => {
                    assert(version_class(vs[i as int]) is None);
                    return Err(e);
                },
            };
            let metadata_path = String::from_str("/registry/").concat(path.as_str()).concat(
                "/",
            ).concat(identifier.name.as_str()).concat("-").concat(v).concat("-metadata.json");
            infos.push(VersionInfo { version: versions[i].clone(), release_type, metadata_path });
            i += 1;
        }
        Ok(ManagedExtensionMetadata { downloads, latest, versions: infos })
    }
}

} // verus!
