use vstd::prelude::*;

use crate::metadata::{version_recorded, MetadataHandler};
use crate::search::{
    gathered, indexed_under, lemma_indexing_stores, lemma_stored_is_found, SearchError,
    SearchHandler,
};
use crate::rank::is_ranking;
use crate::index::IndexNode;
use crate::token::strs;
use crate::types::{
    key_of, version_class, ExtensionBundle, ExtensionIdentifier, ExtensionMetadata, ExtensionRuntimeModel,
    HandlerError, BAD_REQUEST, INTERNAL_SERVER_ERROR,
};

verus! {

/// The rank of the tokens of an extension's name.
pub const NAME_RANK: u8 = 10;

/// The rank of the tokens of an extension's description.
pub const DESCRIPTION_RANK: u8 = 1;

/// zip::result::ZipError, the archive reader's error, carried through opaque.
#[verifier::external_type_specification]
#[verifier::external_body]
pub struct ExZipError(zip::result::ZipError);

/// std::io::Cursor, the in-memory reader under an archive, carried through opaque.
#[verifier::external_type_specification]
#[verifier::external_body]
#[verifier::reject_recursive_types(T)]
pub struct ExCursor<T>(std::io::Cursor<T>);

/// zip::ZipArchive, an opened archive, carried through opaque.
#[verifier::external_type_specification]
#[verifier::external_body]
#[verifier::reject_recursive_types(R)]
pub struct ExZipArchive<R>(zip::ZipArchive<R>);

/// What zip::ZipArchive::new finds in an archive's bytes: each entry's name
/// and, when the entry can be read whole, its content; `None` for bytes that
/// hold no archive.
pub uninterp spec fn zip_archive_of(bytes: Seq<u8>) -> Option<Seq<(Seq<char>, Option<Seq<u8>>)>>;

/// The entries of an opened archive, as `zip_archive_of` lists them.
pub uninterp spec fn archive_entries(archive: zip::ZipArchive<std::io::Cursor<Vec<u8>>>) -> Seq<
    (Seq<char>, Option<Seq<u8>>),
>;

/// Relies on zip::ZipArchive::new: reads the archive's central directory
/// from the bytes, which decide the outcome alone.
#[verifier::external_body]
fn open_archive(bytes: Vec<u8>) -> (r: Result<
    zip::ZipArchive<std::io::Cursor<Vec<u8>>>,
    zip::result::ZipError,
>)
    ensures
        r is Ok <==> zip_archive_of(bytes@) is Some,
        r matches Ok(a) ==> archive_entries(a) == zip_archive_of(bytes@)->Some_0,
{
    zip::ZipArchive::new(std::io::Cursor::new(bytes))
}

/// Relies on zip::ZipArchive::len: the number of entries.
#[verifier::external_body]
fn archive_len(archive: &zip::ZipArchive<std::io::Cursor<Vec<u8>>>) -> (r: usize)
    ensures
        r == archive_entries(*archive).len(),
{
    archive.len()
}

/// Relies on zip::ZipArchive::by_index and the entry's Read impl: the name
/// and the whole content of entry `i`. Reading leaves the entries as they are.
#[verifier::external_body]
fn read_entry(archive: &mut zip::ZipArchive<std::io::Cursor<Vec<u8>>>, i: usize) -> (r: Result<
    (String, Vec<u8>),
    zip::result::ZipError,
>)
    ensures
        archive_entries(*final(archive)) == archive_entries(*old(archive)),
        i < archive_entries(*old(archive)).len() && archive_entries(*old(archive))[i as int].1 is Some
            ==> r is Ok && r->Ok_0.0@ == archive_entries(*old(archive))[i as int].0
            && r->Ok_0.1@ == archive_entries(*old(archive))[i as int].1->Some_0,
        i < archive_entries(*old(archive)).len() && archive_entries(*old(archive))[i as int].1 is None
            ==> r is Err,
{
    let mut file = archive.by_index(i)?;
    let mut content: Vec<u8> = Vec::new();
    std::io::Read::read_to_end(&mut file, &mut content)?;
    Ok((file.name().to_string(), content))
}

/// Relies on ZipError's Display impl: a message that describes the error.
#[verifier::external_body]
fn zip_error_message(e: &zip::result::ZipError) -> (r: String) {
    e.to_string()
}

fn archive_error(e: &zip::result::ZipError) -> (r: HandlerError)
    ensures
        r.status == INTERNAL_SERVER_ERROR,
        r.error_message@ == "Internal server error"@,
{
    HandlerError::server_error(
        String::from_str("Internal server error"),
        Some(zip_error_message(e)),
    )
}

/// Every listed entry can be read whole.
pub open spec fn all_readable(es: Seq<(Seq<char>, Option<Seq<u8>>)>) -> bool {
    forall|i: int| 0 <= i < es.len() ==> (#[trigger] es[i]).1 is Some
}

/// The (name, content) of each entry of a fully readable listing.
pub open spec fn contents(es: Seq<(Seq<char>, Option<Seq<u8>>)>) -> Seq<(Seq<char>, Seq<u8>)> {
    es.map_values(
        |e: (Seq<char>, Option<Seq<u8>>)|
            (
                e.0,
                match e.1 {
                    Some(c) => c,
                    None => Seq::empty(),
                },
            ),
    )
}

/// The entries of the archive in `bytes`, as (name, content) in the archive's
/// order, or `None` when the bytes hold no archive or an entry cannot be read.
pub open spec fn zip_entries(bytes: Seq<u8>) -> Option<Seq<(Seq<char>, Seq<u8>)>> {
    match zip_archive_of(bytes) {
        Some(es) => if all_readable(es) {
            Some(contents(es))
        } else {
            None
        },
        None => None,
    }
}

/// The views of a list of (name, content) entries.
pub open spec fn entry_views(entries: Seq<(String, Vec<u8>)>) -> Seq<(Seq<char>, Seq<u8>)> {
    entries.map_values(|e: (String, Vec<u8>)| (e.0@, e.1@))
}

/// Every entry of a zip archive, as (name, content), in the archive's order.
pub fn read_archive(bytes: Vec<u8>) -> (r: Result<Vec<(String, Vec<u8>)>, HandlerError>)
    ensures
        r is Ok <==> zip_entries(bytes@) is Some,
        r matches Ok(v) ==> entry_views(v@) == zip_entries(bytes@)->Some_0,
        r matches Err(e) ==> e.status == INTERNAL_SERVER_ERROR,
{
    let ghost input = bytes@;
    let mut archive = match open_archive(bytes) {
        Ok(a) => a,
        Err(e) => {
            return Err(archive_error(&e));
        },
    };
    let ghost es = archive_entries(archive);
    let n = archive_len(&archive);
    let mut entries: Vec<(String, Vec<u8>)> = Vec::new();
    let mut i: usize = 0;
    while i < n
        invariant
            i <= n,
            n == es.len(),
            input == bytes@,
            zip_archive_of(input) == Some(es),
            archive_entries(archive) == es,
            forall|j: int| 0 <= j < i ==> (#[trigger] es[j]).1 is Some,
            entry_views(entries@) == contents(es).take(i as int),
        decreases n - i,
    {
        match read_entry(&mut archive, i) {
            Ok(entry) => {
                let ghost before = entries@;
                entries.push(entry);
                assert(entry_views(entries@) =~= contents(es).take(i + 1)) by {
                    assert(entry_views(entries@) =~= entry_views(before).push((entry.0@, entry.1@)));
                }
            },
            Err(e) => {
                assert(es[i as int].1 is None);
                assert(!all_readable(es));
                assert(zip_entries(input) is None);
                return Err(archive_error(&e));
            },
        }
        i += 1;
    }
    assert(contents(es).take(i as int) =~= contents(es));
    Ok(entries)
}

/// The reserved name of the descriptor entry.
pub open spec fn descriptor_name() -> Seq<char> {
    seq!['e', 'r', 'm', '.', 'j', 's', 'o', 'n']
}

/// The reserved name of the metadata entry.
pub open spec fn metadata_name() -> Seq<char> {
    seq!['m', 'e', 't', 'a', 'd', 'a', 't', 'a', '.', 'j', 's', 'o', 'n']
}

/// Whether some entry of `es` is named `name`.
pub open spec fn has_entry(es: Seq<(Seq<char>, Seq<u8>)>, name: Seq<char>) -> bool {
    exists|i: int| 0 <= i < es.len() && #[trigger] es[i].0 == name
}

/// The content of the first entry named `name`.
pub open spec fn first_entry(es: Seq<(Seq<char>, Seq<u8>)>, name: Seq<char>) -> Seq<u8>
    decreases es.len(),
{
    if es.len() == 0 {
        Seq::empty()
    } else if es[0].0 == name {
        es[0].1
    } else {
        first_entry(es.drop_first(), name)
    }
}

/// An archive's descriptor and metadata, not yet parsed, and all its entries
/// as (content, name).
pub struct RawBundle {
    pub descriptor: Vec<u8>,
    pub metadata: Vec<u8>,
    pub files: Vec<(Vec<u8>, String)>,
}

/// `b` holds the first descriptor and metadata entries of `es`, and every
/// entry as (content, name) in order.
pub open spec fn parts_of(es: Seq<(Seq<char>, Seq<u8>)>, b: RawBundle) -> bool {
    &&& b.descriptor@ == first_entry(es, descriptor_name())
    &&& b.metadata@ == first_entry(es, metadata_name())
    &&& b.files@.len() == es.len()
    &&& forall|i: int|
        0 <= i < es.len() ==> (#[trigger] b.files@[i]).1@ == es[i].0 && b.files@[i].0@ == es[i].1
}

/// `r` refuses the bundle as invalid, with `details` saying why.
pub open spec fn refused_for(r: Result<RawBundle, HandlerError>, details: Seq<char>) -> bool {
    &&& r is Err
    &&& r->Err_0.status == BAD_REQUEST
    &&& r->Err_0.error_message@ == "Invalid extension bundle"@
    &&& r->Err_0.details is Some
    &&& r->Err_0.details->Some_0@ == details
}

/// What finding the parts of a bundle with entries `es` gives: a refusal
/// naming the missing descriptor (checked first) or metadata, else the parts.
pub open spec fn located(es: Seq<(Seq<char>, Seq<u8>)>, r: Result<RawBundle, HandlerError>) -> bool {
    &&& !has_entry(es, descriptor_name()) ==> refused_for(r, "No erm.json present in the bundle."@)
    &&& has_entry(es, descriptor_name()) && !has_entry(es, metadata_name()) ==> refused_for(
        r,
        "No metadata.json present in the bundle."@,
    )
    &&& has_entry(es, descriptor_name()) && has_entry(es, metadata_name()) ==> r is Ok && parts_of(
        es,
        r->Ok_0,
    )
}

/// The position of the first entry named `name`, if any.
fn position_of(entries: &Vec<(String, Vec<u8>)>, name: &str) -> (r: Option<usize>)
    ensures
        r matches Some(i) ==> i < entries@.len() && entries@[i as int].0@ == name@
            && first_entry(entry_views(entries@), name@) == entries@[i as int].1@,
        r is None ==> !has_entry(entry_views(entries@), name@),
{
    let ghost ev = entry_views(entries@);
    let mut i: usize = 0;
    assert(ev.subrange(0, ev.len() as int) =~= ev);
    while i < entries.len()
        invariant
            i <= entries@.len(),
            ev == entry_views(entries@),
            forall|j: int| 0 <= j < i ==> (#[trigger] ev[j]).0 != name@,
            first_entry(ev, name@) == first_entry(ev.subrange(i as int, ev.len() as int), name@),
        decreases entries@.len() - i,
    {
        let ghost rest = ev.subrange(i as int, ev.len() as int);
        assert(rest[0] == ev[i as int]);
        assert(ev[i as int] == (entries@[i as int].0@, entries@[i as int].1@));
        if <String as PartialEq>::eq(&entries[i].0, &String::from_str(name)) {
            return Some(i);
        }
        assert(rest.drop_first() =~= ev.subrange(i + 1, ev.len() as int));
        i += 1;
    }
    None
}

fn copy_bytes(b: &Vec<u8>) -> (r: Vec<u8>)
    ensures
        r@ == b@,
{
    let mut r: Vec<u8> = Vec::new();
    let mut i: usize = 0;
    while i < b.len()
        invariant
            i <= b@.len(),
            r@ == b@.take(i as int),
        decreases b@.len() - i,
    {
        r.push(b[i]);
        assert(r@ =~= b@.take(i + 1));
        i += 1;
    }
    assert(b@.take(i as int) =~= b@);
    r
}

fn missing_entry(detail: &str) -> (r: Result<RawBundle, HandlerError>)
    ensures
        refused_for(r, detail@),
{
    Err(
        HandlerError::new(
            String::from_str("Invalid extension bundle"),
            Some(String::from_str(detail)),
            BAD_REQUEST,
        ),
    )
}

/// Finds the descriptor and the metadata among an archive's entries; a
/// bundle without either is refused, the descriptor being checked first.
pub fn locate_parts(entries: Vec<(String, Vec<u8>)>) -> (r: Result<RawBundle, HandlerError>)
    ensures
        located(entry_views(entries@), r),
{
    proof {
        reveal_strlit("erm.json");
        reveal_strlit("metadata.json");
        assert("erm.json"@ =~= descriptor_name());
        assert("metadata.json"@ =~= metadata_name());
    }
    let ghost ev = entry_views(entries@);
    let d = match position_of(&entries, "erm.json") {
        Some(i) => i,
        None => {
            return missing_entry("No erm.json present in the bundle.");
        },
    };
    proof {
        assert(ev[d as int].0 == descriptor_name());
    }
    let m = match position_of(&entries, "metadata.json") {
        Some(i) => i,
        None => {
            return missing_entry("No metadata.json present in the bundle.");
        },
    };
    proof {
        assert(ev[m as int].0 == metadata_name());
    }
    let descriptor = copy_bytes(&entries[d].1);
    let metadata = copy_bytes(&entries[m].1);
    let ghost all = entries@;
    let mut files: Vec<(Vec<u8>, String)> = Vec::new();
    let mut rest = entries;
    let mut k: usize = 0;
    let n = rest.len();
    while k < n
        invariant
            k <= n,
            n == all.len(),
            rest@ == all,
            ev == entry_views(all),
            files@.len() == k,
            forall|i: int|
                0 <= i < k ==> (#[trigger] files@[i]).1@ == ev[i].0 && files@[i].0@ == ev[i].1,
        decreases n - k,
    {
        let name = rest[k].0.clone();
        let content = copy_bytes(&rest[k].1);
        assert(ev[k as int] == (all[k as int].0@, all[k as int].1@));
        files.push((content, name));
        k += 1;
    }
    Ok(RawBundle { descriptor, metadata, files })
}

/// Reads an uploaded archive and finds its descriptor and metadata. Bytes
/// that hold no readable archive fail with an internal error; an archive
/// without a descriptor or metadata entry is refused.
pub fn open_bundle(bytes: Vec<u8>) -> (r: Result<RawBundle, HandlerError>)
    ensures
        zip_entries(bytes@) is None ==> r is Err && r->Err_0.status == INTERNAL_SERVER_ERROR,
        zip_entries(bytes@) is Some ==> located(zip_entries(bytes@)->Some_0, r),
{
    match read_archive(bytes) {
        Ok(entries) => locate_parts(entries),
        Err(e) => Err(e),
    }
}

/// Checks that the bundle's version names a channel.
pub fn validate_bundle(bundle: &ExtensionBundle) -> (r: Result<(), HandlerError>)
    ensures
        r is Ok <==> version_class(bundle.runtime_model.version@) is Some,
        r matches Err(e) ==> e.status == BAD_REQUEST && e.error_message@ == "Invalid extension version"@,
{
    match crate::types::VersionType::classify(bundle.runtime_model.version.as_str()) {
        Ok(_) => Ok(()),
        Err(e) => Err(e),
    }
}

/// The pieces of `s` between dots, empty pieces included.
pub open spec fn split_dots(s: Seq<char>) -> Seq<Seq<char>>
    decreases s.len(),
{
    if s.len() == 0 {
        seq![Seq::empty()]
    } else {
        let prev = split_dots(s.drop_last());
        if s.last() == '.' {
            prev.push(Seq::empty())
        } else {
            prev.drop_last().push(prev.last().push(s.last()))
        }
    }
}

proof fn lemma_split_dots_len(s: Seq<char>)
    ensures
        split_dots(s).len() >= 1,
    decreases s.len(),
{
    if s.len() > 0 {
        lemma_split_dots_len(s.drop_last());
    }
}

/// Splits `s` at every dot.
pub fn split_on_dots(s: &str) -> (r: Vec<String>)
    ensures
        strs(r@) == split_dots(s@),
{
    let n = s.unicode_len();
    let mut r: Vec<String> = Vec::new();
    let mut start: usize = 0;
    let mut i: usize = 0;
    proof {
        assert(s@.take(0) =~= Seq::<char>::empty());
        assert(strs(r@).push(s@.subrange(0, 0)) =~= seq![Seq::<char>::empty()]);
    }
    while i < n
        invariant
            start <= i <= n,
            n == s@.len(),
            strs(r@).push(s@.subrange(start as int, i as int)) == split_dots(s@.take(i as int)),
        decreases n - i,
    {
        proof {
            assert(s@.take(i + 1).drop_last() =~= s@.take(i as int));
            lemma_split_dots_len(s@.take(i as int));
        }
        if s.get_char(i) == '.' {
            let ghost before = r@;
            r.push(String::from_str(s.substring_char(start, i)));
            assert(strs(r@) =~= strs(before).push(s@.subrange(start as int, i as int)));
            start = i + 1;
            assert(s@.subrange(start as int, i + 1) =~= Seq::<char>::empty());
        } else {
            assert(s@.subrange(start as int, i + 1) =~= s@.subrange(start as int, i as int).push(
                s@[i as int],
            ));
            assert(strs(r@).push(s@.subrange(start as int, i + 1)) =~= split_dots(
                s@.take(i as int),
            ).drop_last().push(split_dots(s@.take(i as int)).last().push(s@[i as int])));
        }
        i += 1;
    }
    let ghost before = r@;
    r.push(String::from_str(s.substring_char(start, n)));
    assert(s@.take(n as int) =~= s@);
    assert(strs(r@) =~= strs(before).push(s@.subrange(start as int, n as int)));
    r
}

/// The directory of a stored version, as path segments: the storage root,
/// each dot-separated piece of the group, the name, and the version.
pub open spec fn storage_segments(group: Seq<char>, name: Seq<char>, version: Seq<char>) -> Seq<
    Seq<char>,
> {
    seq![seq!['s', 't', 'a', 't', 'i', 'c']] + split_dots(group) + seq![name, version]
}

/// Where the files of a version of the extension that `model` describes are
/// stored, as path segments.
pub fn storage_path(model: &ExtensionRuntimeModel) -> (r: Vec<String>)
    ensures
        strs(r@) == storage_segments(model.group_id@, model.name@, model.version@),
{
    proof {
        reveal_strlit("static");
        assert("static"@ =~= seq!['s', 't', 'a', 't', 'i', 'c']);
    }
    let mut r: Vec<String> = Vec::new();
    r.push(String::from_str("static"));
    let mut groups = split_on_dots(model.group_id.as_str());
    let ghost g = groups@;
    let ghost r0 = r@;
    r.append(&mut groups);
    assert(strs(r@) =~= strs(r0) + strs(g));
    let ghost r1 = r@;
    r.push(model.name.clone());
    assert(strs(r@) =~= strs(r1).push(model.name@));
    let ghost r2 = r@;
    r.push(model.version.clone());
    assert(strs(r@) =~= strs(r2).push(model.version@));
    assert(strs(r@) =~= storage_segments(model.group_id@, model.name@, model.version@));
    r
}

/// The name under which an archive entry of a version is stored:
/// `<name>-<version>-<entry>`, or `<name>-<version><entry>` for an entry
/// whose name starts with a dot.
pub open spec fn stored_name(name: Seq<char>, version: Seq<char>, entry: Seq<char>) -> Seq<char> {
    if entry.len() > 0 && entry[0] == '.' {
        name + seq!['-'] + version + entry
    } else {
        name + seq!['-'] + version + seq!['-'] + entry
    }
}

/// The name under which archive entry `entry` of `name` at `version` is stored.
pub fn stored_file_name(name: &str, version: &str, entry: &str) -> (r: String)
    ensures
        r@ == stored_name(name@, version@, entry@),
{
    proof {
        reveal_strlit("-");
    }
    let base = String::from_str(name).concat("-").concat(version);
    if entry.unicode_len() > 0 && entry.get_char(0) == '.' {
        base.concat(entry)
    } else {
        base.concat("-").concat(entry)
    }
}

/// Where to write a validated bundle: the directory, and the file name of
/// each archive entry in order.
pub struct WritePlan {
    pub directory: Vec<String>,
    pub file_names: Vec<String>,
}

/// The plan for writing `bundle`, or the refusal of a bundle whose version
/// names no channel.
pub fn prepare_bundle(bundle: &ExtensionBundle) -> (r: Result<WritePlan, HandlerError>)
    ensures
        r is Ok <==> version_class(bundle.runtime_model.version@) is Some,
        r matches Err(e) ==> e.status == BAD_REQUEST && e.error_message@ == "Invalid extension version"@,
        r matches Ok(p) ==> {
            let m = bundle.runtime_model;
            &&& strs(p.directory@) == storage_segments(m.group_id@, m.name@, m.version@)
            &&& p.file_names@.len() == bundle.files@.len()
            &&& forall|i: int|
                0 <= i < bundle.files@.len() ==> (#[trigger] p.file_names@[i])@ == stored_name(
                    m.name@,
                    m.version@,
                    bundle.files@[i].1@,
                )
        },
{
    match validate_bundle(bundle) {
        Ok(()) => {},
        Err(e) => {
            return Err(e);
        },
    }
    let directory = storage_path(&bundle.runtime_model);
    let mut file_names: Vec<String> = Vec::new();
    let mut i: usize = 0;
    while i < bundle.files.len()
        invariant
            i <= bundle.files@.len(),
            file_names@.len() == i,
            forall|k: int|
                0 <= k < i ==> (#[trigger] file_names@[k])@ == stored_name(
                    bundle.runtime_model.name@,
                    bundle.runtime_model.version@,
                    bundle.files@[k].1@,
                ),
        decreases bundle.files@.len() - i,
    {
        file_names.push(
            stored_file_name(
                bundle.runtime_model.name.as_str(),
                bundle.runtime_model.version.as_str(),
                bundle.files[i].1.as_str(),
            ),
        );
        i += 1;
    }
    Ok(WritePlan { directory, file_names })
}

fn search_failure(e: SearchError) -> (r: HandlerError)
    ensures
        r.status == INTERNAL_SERVER_ERROR,
{
    let details = match e {
        SearchError::TokenizationError(m) => m,
        SearchError::IoError(m) => m,
    };
    HandlerError::server_error(String::from_str("Internal search error"), Some(details))
}

/// Records a written bundle: its version in the registry, then its name
/// (at the higher rank) and its description (at the lower) in the index.
/// A version that names no channel is refused before anything changes; a
/// text that the model cannot encode fails with an internal error.
pub fn register_bundle(
    registry: &mut MetadataHandler,
    search: &mut SearchHandler<ExtensionIdentifier>,
    bundle: &ExtensionBundle,
) -> (r: Result<(), HandlerError>)
    requires
        old(registry).wf(),
        old(search).wf(),
    ensures
        final(registry).wf(),
        final(search).wf(),
        final(search).tokenizer_spec() == old(search).tokenizer_spec(),
        version_class(bundle.runtime_model.version@) is None ==> {
            &&& r is Err
            &&& r->Err_0.status == BAD_REQUEST
            &&& r->Err_0.error_message@ == "Invalid extension version"@
            &&& *final(registry) == *old(registry)
            &&& final(search).index_spec() == old(search).index_spec()
        },
        version_class(bundle.runtime_model.version@) is Some ==> version_recorded(
            *old(registry),
            *final(registry),
            key_of(bundle.runtime_model.group_id@, bundle.runtime_model.name@),
            version_class(bundle.runtime_model.version@)->Some_0,
            bundle.runtime_model.version,
        ),
        r is Ok <==> {
            &&& version_class(bundle.runtime_model.version@) is Some
            &&& old(search).tokenizer_spec().tokens_spec(bundle.metadata.name@) is Some
            &&& old(search).tokenizer_spec().tokens_spec(bundle.metadata.description@) is Some
        },
        r is Ok ==> exists|mid: IndexNode<ExtensionIdentifier>|
            #[trigger] indexed_under(
                old(search).index_spec(),
                mid,
                old(search).tokenizer_spec().tokens_spec(bundle.metadata.name@)->Some_0,
                (bundle.runtime_model.group_id@, bundle.runtime_model.name@),
                NAME_RANK,
            ) && indexed_under(
                mid,
                final(search).index_spec(),
                old(search).tokenizer_spec().tokens_spec(bundle.metadata.description@)->Some_0,
                (bundle.runtime_model.group_id@, bundle.runtime_model.name@),
                DESCRIPTION_RANK,
            ),
        r is Err && version_class(bundle.runtime_model.version@) is Some ==> r->Err_0.status
            == INTERNAL_SERVER_ERROR,
{
    let id = ExtensionIdentifier::from_model(&bundle.runtime_model);
    match registry.new_version(&id, bundle.runtime_model.version.clone()) {
        Ok(()) => {},
        Err(e) => {
            return Err(e);
        },
    }
    match search.index(bundle.metadata.name.as_str(), crate::index::Keyed::duplicate(&id), NAME_RANK) {
        Ok(()) => {},
        Err(e) => {
            return Err(search_failure(e));
        },
    }
    let ghost mid = search.index_spec();
    match search.index(bundle.metadata.description.as_str(), id, DESCRIPTION_RANK) {
        Ok(()) => {},
        Err(e) => {
            return Err(search_failure(e));
        },
    }
    assert(indexed_under(
        old(search).index_spec(),
        mid,
        old(search).tokenizer_spec().tokens_spec(bundle.metadata.name@)->Some_0,
        (bundle.runtime_model.group_id@, bundle.runtime_model.name@),
        NAME_RANK,
    ));
    Ok(())
}

/// Once a bundle's name and description are indexed as registration does,
/// a search whose tokens include a token of either lists its identifier.
pub proof fn lemma_registered_is_found(
    before: IndexNode<ExtensionIdentifier>,
    mid: IndexNode<ExtensionIdentifier>,
    after: IndexNode<ExtensionIdentifier>,
    name_tokens: Seq<Seq<char>>,
    description_tokens: Seq<Seq<char>>,
    id: (Seq<char>, Seq<char>),
    t: Seq<char>,
    query: Seq<Seq<char>>,
    results: Seq<(Seq<char>, Seq<char>)>,
)
    requires
        indexed_under(before, mid, name_tokens, id, NAME_RANK),
        indexed_under(mid, after, description_tokens, id, DESCRIPTION_RANK),
        name_tokens.contains(t) || description_tokens.contains(t),
        query.contains(t),
        is_ranking(gathered(after, query), results),
    ensures
        results.contains(id),
{
    lemma_indexing_stores(before, mid, name_tokens, id, NAME_RANK, t, id);
    lemma_indexing_stores(mid, after, description_tokens, id, DESCRIPTION_RANK, t, id);
    lemma_stored_is_found(after, query, t, id, results);
}

} // verus!
