use vstd::prelude::*;

use crate::index::Keyed;

verus! {

/// The HTTP status for a request that the registry refuses.
pub const BAD_REQUEST: u16 = 400;

/// The HTTP status for a failure on the registry's side.
pub const INTERNAL_SERVER_ERROR: u16 = 500;

/// An error with a human-readable message, optional details, and a status code.
pub struct HandlerError {
    pub error_message: String,
    pub details: Option<String>,
    pub status: u16,
}

impl HandlerError {
    pub fn new(error_message: String, details: Option<String>, status: u16) -> (r: HandlerError)
        ensures
            r.error_message@ == error_message@,
            r.details == details,
            r.status == status,
    {
        HandlerError { error_message, details, status }
    }

    pub fn server_error(error_message: String, details: Option<String>) -> (r: HandlerError)
        ensures
            r.error_message@ == error_message@,
            r.details == details,
            r.status == INTERNAL_SERVER_ERROR,
    {
        Self::new(error_message, details, INTERNAL_SERVER_ERROR)
    }
}

/// The release channel of a version.
#[derive(PartialEq, Eq, Structural, Clone, Copy, Debug)]
pub enum VersionType {
    Release,
    Beta,
    ReleaseCandidate,
}

/// The characters after the last `-` of `s`, or `None` when `s` holds no `-`.
pub open spec fn suffix_after_last_dash(s: Seq<char>) -> Option<Seq<char>>
    decreases s.len(),
{
    if s.len() == 0 {
        None
    } else if s.last() == '-' {
        Some(Seq::empty())
    } else {
        match suffix_after_last_dash(s.drop_last()) {
            None => None,
            Some(t) => Some(t.push(s.last())),
        }
    }
}

/// The code of `c` with ASCII upper case mapped to lower case.
pub open spec fn ascii_lower(c: char) -> int {
    if 'A' <= c && c <= 'Z' {
        (c as u32) + 32
    } else {
        c as u32 as int
    }
}

/// `s` equals the lowercase word `w` when case is ignored.
pub open spec fn equals_ignoring_case(s: Seq<char>, w: Seq<char>) -> bool {
    &&& s.len() == w.len()
    &&& forall|i: int| 0 <= i < s.len() ==> ascii_lower(#[trigger] s[i]) == w[i] as int
}

/// The channel of a version string, or `None` when its suffix names no channel.
pub open spec fn version_class(v: Seq<char>) -> Option<VersionType> {
    match suffix_after_last_dash(v) {
        None => Some(VersionType::Release),
        Some(t) => if equals_ignoring_case(t, seq!['b', 'e', 't', 'a']) {
            Some(VersionType::Beta)
        } else if equals_ignoring_case(t, seq!['r', 'c']) {
            Some(VersionType::ReleaseCandidate)
        } else {
            None
        },
    }
}

fn lower_code(c: char) -> (r: u32)
    ensures
        r == ascii_lower(c),
{
    if 'A' <= c && c <= 'Z' {
        (c as u32) + 32
    } else {
        c as u32
    }
}

proof fn lemma_suffix_at(s: Seq<char>, i: int)
    requires
        0 <= i <= s.len(),
        forall|k: int| i <= k < s.len() ==> s[k] != '-',
        i == 0 || s[i - 1] == '-',
    ensures
        suffix_after_last_dash(s) == if i == 0 {
            None
        } else {
            Some(s.subrange(i, s.len() as int))
        },
    decreases s.len(),
{
    if s.len() == 0 {
    } else if s.len() == i {
        assert(s.subrange(i, s.len() as int) =~= Seq::<char>::empty());
    } else {
        lemma_suffix_at(s.drop_last(), i);
        if i > 0 {
            assert(s.drop_last().subrange(i, s.len() - 1).push(s.last()) =~= s.subrange(
                i,
                s.len() as int,
            ));
        }
    }
}

/// Whether the characters of `s` from `start` on spell the lowercase word `w`, ignoring case.
fn tail_equals_ignoring_case(s: &str, start: usize, w: &str) -> (r: bool)
    requires
        start <= s@.len(),
    ensures
        r == equals_ignoring_case(s@.subrange(start as int, s@.len() as int), w@),
{
    let n = s.unicode_len();
    let m = w.unicode_len();
    if n - start != m {
        return false;
    }
    let ghost t = s@.subrange(start as int, s@.len() as int);
    let mut k: usize = 0;
    while k < m
        invariant
            k <= m,
            m == w@.len(),
            n == s@.len(),
            t == s@.subrange(start as int, s@.len() as int),
            t.len() == m,
            n - start == m,
            start <= n,
            forall|j: int| 0 <= j < k ==> ascii_lower(#[trigger] t[j]) == w@[j] as int,
        decreases m - k,
    {
        if lower_code(s.get_char(start + k)) != w.get_char(k) as u32 {
            assert(ascii_lower(t[k as int]) != w@[k as int] as int);
            return false;
        }
        k += 1;
    }
    true
}

impl VersionType {
    /// Classifies a version string by the suffix after its last `-`: none is a
    /// release, `beta` and `rc` (in any case) name their channels, and any
    /// other suffix is refused.
    pub fn classify(version: &str) -> (r: Result<VersionType, HandlerError>)
        ensures
            version_class(version@) is Some ==> r == Ok::<VersionType, HandlerError>(
                version_class(version@)->Some_0,
            ),
            version_class(version@) is None ==> r is Err && r->Err_0.status == BAD_REQUEST
                && r->Err_0.error_message@ == "Invalid extension version"@,
    {
        let n = version.unicode_len();
        let mut i = n;
        let mut found = false;
        while i > 0 && !found
            invariant
                i <= n,
                n == version@.len(),
                found ==> i > 0 && version@[i - 1] == '-',
                forall|k: int| i <= k < n ==> version@[k] != '-',
            decreases i, if found { 0int } else { 1int },
        {
            if version.get_char(i - 1) == '-' {
                found = true;
            } else {
                i -= 1;
            }
        }
        proof {
            lemma_suffix_at(version@, i as int);
            reveal_strlit("beta");
            reveal_strlit("rc");
        }
        if i == 0 {
            return Ok(VersionType::Release);
        }
        if tail_equals_ignoring_case(version, i, "beta") {
            Ok(VersionType::Beta)
        } else if tail_equals_ignoring_case(version, i, "rc") {
            Ok(VersionType::ReleaseCandidate)
        } else {
            Err(
                HandlerError::new(
                    String::from_str("Invalid extension version"),
                    Some(
                        String::from_str(
                            "Extension version suffix is invalid, must either end in '', '-BETA', or '-RC",
                        ),
                    ),
                    BAD_REQUEST,
                ),
            )
        }
    }

    /// The lowercase suffix that names this channel.
    pub fn suffix(&self) -> (r: &'static str)
        ensures
            r@ == version_suffix(*self),
    {
        proof {
            reveal_strlit("");
            reveal_strlit("beta");
            reveal_strlit("rc");
        }
        match self {
            VersionType::Release => "",
            VersionType::Beta => "beta",
            VersionType::ReleaseCandidate => "rc",
        }
    }
}

pub open spec fn version_suffix(t: VersionType) -> Seq<char> {
    match t {
        VersionType::Release => Seq::empty(),
        VersionType::Beta => seq!['b', 'e', 't', 'a'],
        VersionType::ReleaseCandidate => seq!['r', 'c'],
    }
}

/// One uploaded bundle: its descriptor, its metadata, and every archive
/// entry as (content, name).
pub struct ExtensionBundle {
    pub runtime_model: ExtensionRuntimeModel,
    pub metadata: ExtensionMetadata,
    pub files: Vec<(Vec<u8>, String)>,
}

/// The most recent version recorded on each channel.
#[derive(Clone, Debug)]
pub struct LatestVersion {
    pub release: Option<String>,
    pub beta: Option<String>,
    pub rc: Option<String>,
}

impl Default for LatestVersion {
    fn default() -> (r: Self)
        ensures
            r.release is None && r.beta is None && r.rc is None,
    {
        LatestVersion { release: None, beta: None, rc: None }
    }
}

/// One recorded version, with its channel and where its metadata is served.
pub struct VersionInfo {
    pub version: String,
    pub release_type: VersionType,
    pub metadata_path: String,
}

/// What the registry reports of one extension.
pub struct ManagedExtensionMetadata {
    pub downloads: u32,
    pub latest: LatestVersion,
    pub versions: Vec<VersionInfo>,
}

/// What a registry says of itself.
#[derive(Clone, Debug)]
pub struct RepositoryMetadata {
    pub name: String,
    pub description: String,
    pub icon: Option<String>,
    pub extension_count: u32,
    pub app_ids: Vec<String>,
}

/// An extension across all its versions: its group and its name.
#[derive(Clone, Debug)]
pub struct ExtensionIdentifier {
    pub group: String,
    pub name: String,
}

impl View for ExtensionIdentifier {
    type V = (Seq<char>, Seq<char>);

    open spec fn view(&self) -> (Seq<char>, Seq<char>) {
        (self.group@, self.name@)
    }
}

impl PartialEq for ExtensionIdentifier {
    fn eq(&self, other: &ExtensionIdentifier) -> (r: bool) {
        <String as PartialEq>::eq(&self.group, &other.group) && <String as PartialEq>::eq(
            &self.name,
            &other.name,
        )
    }
}

impl vstd::std_specs::cmp::PartialEqSpecImpl for ExtensionIdentifier {
    open spec fn obeys_eq_spec() -> bool {
        true
    }

    open spec fn eq_spec(&self, other: &ExtensionIdentifier) -> bool {
        self@ == other@
    }
}

impl Eq for ExtensionIdentifier {

}

impl Keyed for ExtensionIdentifier {
    fn same_as(&self, other: &Self) -> (r: bool) {
        <String as PartialEq>::eq(&self.group, &other.group) && <String as PartialEq>::eq(
            &self.name,
            &other.name,
        )
    }

    fn duplicate(&self) -> (r: Self) {
        ExtensionIdentifier { group: self.group.clone(), name: self.name.clone() }
    }
}

/// The key under which the registry files an extension: `group:name`.
pub open spec fn key_of(group: Seq<char>, name: Seq<char>) -> Seq<char> {
    group + seq![':'] + name
}

impl ExtensionIdentifier {
    pub fn as_key(&self) -> (r: String)
        ensures
            r@ == key_of(self.group@, self.name@),
    {
        proof {
            reveal_strlit(":");
        }
        let r = self.group.clone().concat(":").concat(self.name.as_str());
        r
    }

    /// The identifier that a runtime model declares.
    pub fn from_model(model: &ExtensionRuntimeModel) -> (r: ExtensionIdentifier)
        ensures
            r.group@ == model.group_id@,
            r.name@ == model.name@,
    {
        ExtensionIdentifier { group: model.group_id.clone(), name: model.name.clone() }
    }
}

/// What an extension's metadata file declares.
#[derive(Clone, Debug)]
pub struct ExtensionMetadata {
    pub name: String,
    pub developers: Vec<String>,
    pub icon: Option<String>,
    pub description: String,
    pub tags: Vec<String>,
    pub app: String,
}

/// What an extension's descriptor declares.
#[derive(Clone, Debug)]
pub struct ExtensionRuntimeModel {
    pub api_version: i32,
    pub group_id: String,
    pub name: String,
    pub version: String,
    pub repositories: Vec<std::collections::HashMap<String, String>>,
    pub parents: Vec<ExtensionParent>,
    pub partitions: Vec<PartitionModelReference>,
}

/// A named sub-component that a descriptor refers to.
#[derive(Clone, Debug)]
pub struct PartitionModelReference {
    pub kind: String,
    pub name: String,
}

/// An extension that another one builds on.
#[derive(Clone, Debug)]
pub struct ExtensionParent {
    pub group: String,
    pub extension: String,
    pub version: String,
}

impl ExtensionParent {
    pub fn to_descriptor(&self) -> (r: ExtensionDescriptor)
        ensures
            r.group@ == self.group@,
            r.extension@ == self.extension@,
            r.version@ == self.version@,
    {
        ExtensionDescriptor {
            group: self.group.clone(),
            extension: self.extension.clone(),
            version: self.version.clone(),
        }
    }
}

/// A repository that a partition resolves its dependencies from.
#[derive(Clone, Debug)]
pub struct ExtensionRepository {
    pub kind: String,
    pub settings: std::collections::HashMap<String, String>,
}

/// The runtime model of one partition of an extension.
#[derive(Clone, Debug)]
pub struct PartitionRuntimeModel {
    pub kind: String,
    pub name: String,
    pub repositories: Vec<ExtensionRepository>,
    pub dependencies: Vec<std::collections::HashMap<String, String>>,
    pub options: std::collections::HashMap<String, String>,
}

/// One page of search results.
pub struct SearchResponse {
    pub result: Vec<ExtensionIdentifier>,
}

/// A reference to one version of an extension: `group:extension:version`.
#[derive(Clone, Debug)]
pub struct ExtensionDescriptor {
    pub group: String,
    pub extension: String,
    pub version: String,
}

/// How many times `c` occurs in `s`.
pub open spec fn count_char(s: Seq<char>, c: char) -> nat
    decreases s.len(),
{
    if s.len() == 0 {
        0
    } else {
        count_char(s.drop_last(), c) + if s.last() == c {
            1nat
        } else {
            0nat
        }
    }
}

/// The position of the first `:` in `s` at or after `from`, or the length of `s`.
pub open spec fn next_colon(s: Seq<char>, from: int) -> int
    decreases s.len() - from,
{
    if from >= s.len() {
        s.len() as int
    } else if s[from] == ':' {
        from
    } else {
        next_colon(s, from + 1)
    }
}

proof fn lemma_next_colon(s: Seq<char>, from: int)
    requires
        0 <= from <= s.len(),
    ensures
        from <= next_colon(s, from) <= s.len(),
        next_colon(s, from) < s.len() ==> s[next_colon(s, from)] == ':',
        forall|k: int| from <= k < next_colon(s, from) ==> s[k] != ':',
    decreases s.len() - from,
{
    if from < s.len() && s[from] != ':' {
        lemma_next_colon(s, from + 1);
    }
}

fn find_colon(s: &str, from: usize) -> (r: usize)
    requires
        from <= s@.len(),
    ensures
        r == next_colon(s@, from as int),
{
    let n = s.unicode_len();
    let mut i = from;
    while i < n && s.get_char(i) != ':'
        invariant
            from <= i <= n,
            n == s@.len(),
            next_colon(s@, i as int) == next_colon(s@, from as int),
        decreases n - i,
    {
        i += 1;
    }
    i
}

impl ExtensionDescriptor {
    /// Reads `group:extension:version`; the version ends at a further `:`
    /// if there is one.
    pub fn parse_descriptor(descriptor: &str) -> (r: ExtensionDescriptor)
        requires
            count_char(descriptor@, ':') >= 2,
        ensures
            ({
                let s = descriptor@;
                let a = next_colon(s, 0);
                let b = next_colon(s, a + 1);
                let c = next_colon(s, b + 1);
                &&& r.group@ == s.subrange(0, a)
                &&& r.extension@ == s.subrange(a + 1, b)
                &&& r.version@ == s.subrange(b + 1, c)
            }),
    {
        let ghost s = descriptor@;
        let n = descriptor.unicode_len();
        proof {
            assert(n == s.len());
            lemma_colons(s, 0);
        }
        let a = find_colon(descriptor, 0);
        proof {
            lemma_next_colon(s, 0);
            lemma_no_colon(s.subrange(0, a as int));
            assert(s.subrange(0, a + 1).drop_last() =~= s.subrange(0, a as int));
            lemma_colons(s, a + 1);
        }
        let b = find_colon(descriptor, a + 1);
        proof {
            lemma_next_colon(s, a + 1);
        }
        let c = find_colon(descriptor, b + 1);
        proof {
            lemma_next_colon(s, b + 1);
        }
        ExtensionDescriptor {
            group: String::from_str(descriptor.substring_char(0, a)),
            extension: String::from_str(descriptor.substring_char(a + 1, b)),
            version: String::from_str(descriptor.substring_char(b + 1, c)),
        }
    }
}

proof fn lemma_count_split(s: Seq<char>, k: int)
    requires
        0 <= k <= s.len(),
    ensures
        count_char(s, ':') == count_char(s.subrange(0, k), ':') + count_char(
            s.subrange(k, s.len() as int),
            ':',
        ),
    decreases s.len(),
{
    if s.len() > k {
        lemma_count_split(s.drop_last(), k);
        assert(s.drop_last().subrange(0, k) =~= s.subrange(0, k));
        assert(s.subrange(k, s.len() as int).drop_last() =~= s.drop_last().subrange(
            k,
            s.len() - 1,
        ));
    } else {
        assert(s.subrange(0, k) =~= s);
        assert(s.subrange(k, s.len() as int) =~= Seq::<char>::empty());
    }
}

proof fn lemma_no_colon(s: Seq<char>)
    requires
        forall|k: int| 0 <= k < s.len() ==> s[k] != ':',
    ensures
        count_char(s, ':') == 0,
    decreases s.len(),
{
    if s.len() > 0 {
        lemma_no_colon(s.drop_last());
    }
}

/// With at least two colons from `from` on, the next colon and the one after
/// it both exist.
proof fn lemma_colons(s: Seq<char>, from: int)
    requires
        0 <= from <= s.len(),
        from == 0 ==> count_char(s, ':') >= 2,
        from > 0 ==> s[from - 1] == ':' && count_char(s, ':') >= 2 && count_char(s.subrange(0, from), ':') <= 1,
    ensures
        next_colon(s, from) < s.len(),
{
    lemma_next_colon(s, from);
    let c = next_colon(s, from);
    if c == s.len() {
        lemma_count_split(s, from);
        lemma_no_colon(s.subrange(from, s.len() as int));
        if from == 0 {
            assert(s.subrange(0, 0) =~= Seq::<char>::empty());
        }
    }
}

} // verus!
