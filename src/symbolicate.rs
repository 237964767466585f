//! Building a symbol cache from a debug file, and resolving an encoded trace against one.
use vstd::prelude::*;
use symbolic::common::{Language, Name, NameMangling};
use symbolic::debuginfo::{Archive, Object, ObjectError};
use symbolic::symcache::{SymCache, SymCacheConverter};
use symbolic_demangle::{Demangle, DemangleOptions};
use crate::vlq::{decode_all, decode_offsets};

verus! {

#[verifier::external_type_specification]
#[verifier::external_body]
pub struct ExSymCache<'a>(SymCache<'a>);

#[verifier::external_type_specification]
#[verifier::external_body]
pub struct ExSymCacheError(symbolic::symcache::Error);

#[verifier::external_type_specification]
#[verifier::external_body]
pub struct ExSymCacheConverter<'a>(SymCacheConverter<'a>);

#[verifier::external_type_specification]
#[verifier::external_body]
pub struct ExArchive<'a>(Archive<'a>);

#[verifier::external_type_specification]
#[verifier::external_body]
pub struct ExObject<'a>(Object<'a>);

#[verifier::external_type_specification]
#[verifier::external_body]
pub struct ExObjectError(ObjectError);

#[verifier::external_type_specification]
#[verifier::external_body]
pub struct ExIoError(std::io::Error);

/// Why building or reading a symbol cache failed.
pub enum SymbolicateError {
    /// The debug file is no object archive, or one of its objects cannot be read.
    Object(ObjectError),
    /// The debug file holds more than one architecture slice (or none).
    FatArchive,
    /// The cache bytes cannot be parsed, or the object cannot be converted.
    Cache(symbolic::symcache::Error),
    /// Writing the cache failed.
    Io(std::io::Error),
}

/// One candidate symbol for an offset.
#[derive(Debug, Clone, PartialEq, Eq)]
pub struct FrameLocation {
    pub demangled_name: String,
    pub name: String,
    pub language: String,
    pub full_path: String,
    pub line: u32,
}

impl View for FrameLocation {
    type V = (Seq<char>, Seq<char>, Seq<char>, Seq<char>, u32);

    open spec fn view(&self) -> Self::V {
        (self.demangled_name@, self.name@, self.language@, self.full_path@, self.line)
    }
}

/// A symbol match as the cache reports it: the possibly mangled function name, the
/// code of its language, the full path of its source file if known, and the line (0 if unknown).
#[derive(Debug, Clone, PartialEq, Eq)]
pub struct SymbolMatch {
    pub name: String,
    pub language: u32,
    pub file: Option<String>,
    pub line: u32,
}

impl View for SymbolMatch {
    type V = (Seq<char>, u32, Option<Seq<char>>, u32);

    open spec fn view(&self) -> Self::V {
        (self.name@, self.language, match self.file {
            Some(f) => Some(f@),
            None => None,
        }, self.line)
    }
}

/// A symbol cache parsed from bytes.
pub struct SymbolCache<'a> {
    cache: SymCache<'a>,
}

impl<'a> SymbolCache<'a> {
    /// What the cache reports for each address whose lookup finishes: the matches,
    /// innermost inlined function first.
    pub closed spec fn table(&self) -> Map<u64, Seq<(Seq<char>, u32, Option<Seq<char>>, u32)>> {
        cache_table(self.cache)
    }

    /// Parses cache bytes; fails where they are no valid cache.
    pub fn parse(data: &'a [u8]) -> (r: Result<SymbolCache<'a>, SymbolicateError>)
        ensures
            r is Err ==> r matches Err(SymbolicateError::Cache(_)),
    {
        match parse_cache(data) {
            Ok(cache) => Ok(SymbolCache { cache }),
            Err(e) => Err(SymbolicateError::Cache(e)),
        }
    }
}

/// A debug file, where it lies in memory, and the archive parsed from it.
pub struct DebugArchive<'a> {
    data: &'a [u8],
    at: usize,
    archive: Archive<'a>,
}

impl<'a> DebugArchive<'a> {
    pub closed spec fn bytes(&self) -> Seq<u8> {
        self.data@
    }

    pub closed spec fn address(&self) -> usize {
        self.at
    }
}

/// One object of a debug archive, with its index and the file it came from.
pub struct DebugObject<'a> {
    data: &'a [u8],
    at: usize,
    index: usize,
    object: Object<'a>,
}

impl<'a> DebugObject<'a> {
    pub closed spec fn bytes(&self) -> Seq<u8> {
        self.data@
    }

    pub closed spec fn address(&self) -> usize {
        self.at
    }

    pub closed spec fn index(&self) -> usize {
        self.index
    }
}

/// An object whose functions and lines a converter has collected.
pub struct ConvertedObject<'a> {
    data: &'a [u8],
    at: usize,
    index: usize,
    conv: SymCacheConverter<'a>,
}

impl<'a> ConvertedObject<'a> {
    pub closed spec fn bytes(&self) -> Seq<u8> {
        self.data@
    }

    pub closed spec fn address(&self) -> usize {
        self.at
    }

    pub closed spec fn index(&self) -> usize {
        self.index
    }
}

/// The lookup table of a parsed cache: for each address whose lookup finishes without
/// panic, the matches it yields. A parsed cache holds its bytes where they lie in memory,
/// so the table is one of the parsed value.
pub uninterp spec fn cache_table(cache: SymCache) -> Map<u64, Seq<(Seq<char>, u32, Option<Seq<char>>, u32)>>;

/// The name-only demangling of `name` for the language with code `language`; the name
/// itself where it cannot be demangled.
pub uninterp spec fn demangled_of(name: Seq<char>, language: u32) -> Seq<char>;

/// The display name of the language with code `language`; an unknown code reads as `unknown`.
pub open spec fn language_label_of(language: u32) -> Seq<char> {
    if language == 1 {
        "C"@
    } else if language == 2 {
        "C++"@
    } else if language == 3 {
        "D"@
    } else if language == 4 {
        "Go"@
    } else if language == 5 {
        "Objective-C"@
    } else if language == 6 {
        "Objective-C++"@
    } else if language == 7 {
        "Rust"@
    } else if language == 8 {
        "Swift"@
    } else if language == 9 {
        "C#"@
    } else if language == 10 {
        "Visual Basic"@
    } else if language == 11 {
        "F#"@
    } else {
        "unknown"@
    }
}

/// Whether the bytes `data`, lying at address `at`, parse as an object archive.
pub uninterp spec fn archive_parses(data: Seq<u8>, at: usize) -> bool;

/// The number of objects of the archive that `data`, lying at `at`, parses to, or `None`
/// where one of them cannot be read.
pub uninterp spec fn archive_slices(data: Seq<u8>, at: usize) -> Option<nat>;

/// Whether a fresh converter accepts object `index` of the archive that `data`, lying at
/// `at`, parses to.
pub uninterp spec fn converts(data: Seq<u8>, at: usize, index: usize) -> bool;

/// The cache bytes that a fresh converter writes for object `index` of the archive that
/// `data`, lying at `at`, parses to.
pub uninterp spec fn symcache_of(data: Seq<u8>, at: usize, index: usize) -> Seq<u8>;

/// The path written for a match without a source file.
pub open spec fn unknown_file() -> Seq<char> {
    "<unknown file>"@
}

/// The frame location of a cache match.
pub open spec fn location_of(m: (Seq<char>, u32, Option<Seq<char>>, u32)) -> (Seq<char>, Seq<char>, Seq<char>, Seq<char>, u32) {
    (demangled_of(m.0, m.1), m.0, language_label_of(m.1), match m.2 {
        Some(p) => p,
        None => unknown_file(),
    }, m.3)
}

/// Whether `locs` are the frame locations of the matches `ms`, in order.
pub open spec fn locations_of(locs: Seq<FrameLocation>, ms: Seq<(Seq<char>, u32, Option<Seq<char>>, u32)>) -> bool {
    locs.len() == ms.len() && forall|i: int| 0 <= i < locs.len() ==> (#[trigger] locs[i])@ == location_of(ms[i])
}

/// What building a cache from the bytes `d`, lying at `at`, gives: the cache of its single
/// object; `FatArchive` where the archive holds another number of objects; `Object` where
/// the archive or one of its objects cannot be read; `Cache` where the object does not convert.
pub open spec fn build_outcome(r: Result<Vec<u8>, SymbolicateError>, d: Seq<u8>, at: usize) -> bool {
    match r {
        Ok(b) => archive_parses(d, at) && archive_slices(d, at) == Some(1nat) && converts(d, at, 0)
            && b@ == symcache_of(d, at, 0),
        Err(SymbolicateError::FatArchive) => archive_parses(d, at) && (archive_slices(d, at) matches Some(n)
            && n != 1),
        Err(SymbolicateError::Object(_)) => !archive_parses(d, at) || archive_slices(d, at) is None,
        Err(SymbolicateError::Cache(_)) => archive_parses(d, at) && archive_slices(d, at) == Some(1nat)
            && !converts(d, at, 0),
        Err(SymbolicateError::Io(_)) => false,
    }
}

/// Relies on `SymCache::parse`. Whether it succeeds depends on where the bytes lie in
/// memory too, so nothing is promised of it.
#[verifier::external_body]
fn parse_cache<'a>(data: &'a [u8]) -> (r: Result<SymCache<'a>, symbolic::symcache::Error>) {
    SymCache::parse(data)
}

/// Relies on `SymCache::lookup` and the accessors of the source locations it yields. It
/// panics or does not finish on some malformed caches: those addresses lie outside the table.
#[verifier::external_body]
fn lookup_matches(c: &SymbolCache, addr: u64) -> (r: Vec<SymbolMatch>)
    requires
        cache_table(c.cache).contains_key(addr),
    ensures
        r@.len() == cache_table(c.cache)[addr].len(),
        forall|i: int| 0 <= i < r@.len() ==> (#[trigger] r@[i])@ == cache_table(c.cache)[addr][i],
{
    c.cache.lookup(addr).map(|sym| SymbolMatch {
        name: sym.function().name().to_owned(),
        language: sym.function().language() as u32,
        file: sym.file().map(|f| f.full_path()),
        line: sym.line(),
    }).collect()
}

/// Relies on `Demangle::try_demangle` of symbolic-demangle, on a name of unknown mangling,
/// with name-only options: the result depends on the name and language alone.
#[verifier::external_body]
fn demangle(name: &str, language: u32) -> (r: String)
    ensures
        r@ == demangled_of(name@, language),
{
    Name::new(name, NameMangling::Unknown, Language::from_u32(language))
        .try_demangle(DemangleOptions::name_only())
        .into_owned()
}

/// Relies on `Language::from_u32` (an unknown code gives `Language::Unknown`) and the
/// `Display` of `Language`: a fixed name per language.
#[verifier::external_body]
fn language_label(language: u32) -> (r: String)
    ensures
        r@ == language_label_of(language),
{
    Language::from_u32(language).to_string()
}

/// Relies on `Archive::parse`, which reads the bytes and checks the alignment of some
/// headers: the outcome depends on the bytes and their address. Records the address.
#[verifier::external_body]
fn open_archive<'a>(data: &'a [u8]) -> (r: Result<DebugArchive<'a>, (usize, ObjectError)>)
    ensures
        match r {
            Ok(a) => a.bytes() == data@ && archive_parses(data@, a.address()),
            Err((at, _)) => !archive_parses(data@, at),
        },
{
    let at = data.as_ptr() as usize;
    Archive::parse(data).map(|archive| DebugArchive { data, at, archive }).map_err(|e| (at, e))
}

/// Relies on `Archive::objects`: the objects in order, or the first error among them.
#[verifier::external_body]
fn archive_objects<'a>(a: &DebugArchive<'a>) -> (r: Result<Vec<DebugObject<'a>>, ObjectError>)
    ensures
        match r {
            Ok(v) => archive_slices(a.bytes(), a.address()) == Some(v@.len()) && forall|i: int|
                0 <= i < v@.len() ==> (#[trigger] v@[i]).bytes() == a.bytes() && v@[i].address()
                    == a.address() && v@[i].index() == i,
            Err(_) => archive_slices(a.bytes(), a.address()) is None,
        },
{
    a.archive.objects().enumerate().map(|(index, o)| {
        o.map(|object| DebugObject { data: a.data, at: a.at, index, object })
    }).collect()
}

/// Relies on `SymCacheConverter::new` and `SymCacheConverter::process_object`: a fresh
/// converter collects the functions and lines of `o`.
#[verifier::external_body]
fn convert_object<'a>(o: DebugObject<'a>) -> (r: Result<ConvertedObject<'a>, symbolic::symcache::Error>)
    ensures
        r is Ok == converts(o.bytes(), o.address(), o.index()),
        r matches Ok(c) ==> c.bytes() == o.bytes() && c.address() == o.address() && c.index() == o.index(),
{
    let mut conv = SymCacheConverter::new();
    conv.process_object(&o.object)?;
    Ok(ConvertedObject { data: o.data, at: o.at, index: o.index, conv })
}

/// Relies on `SymCacheConverter::serialize` into a `Vec<u8>`, whose writes do not fail
/// (the vector grows as needed).
#[verifier::external_body]
fn serialize_cache(c: ConvertedObject) -> (r: Result<Vec<u8>, std::io::Error>)
    ensures
        r is Ok,
        r matches Ok(b) ==> b@ == symcache_of(c.bytes(), c.address(), c.index()),
{
    let mut out: Vec<u8> = Vec::new();
    c.conv.serialize(&mut out).map(|_| out)
}

/// Builds a symbol cache from a debug file that holds exactly one architecture slice.
/// Where the file lies in memory may decide whether it is read (alignment), so the
/// outcome is the one for some address.
pub fn create_symcache(debug_file: &[u8]) -> (r: Result<Vec<u8>, SymbolicateError>)
    ensures
        exists|at: usize| build_outcome(r, debug_file@, at),
{
    let archive = match open_archive(debug_file) {
        Ok(a) => a,
        Err((at, e)) => {
            let r = Err(SymbolicateError::Object(e));
            assert(build_outcome(r, debug_file@, at));
            return r;
        },
    };
    let ghost at = archive.address();
    let mut objects = match archive_objects(&archive) {
        Ok(v) => v,
        Err(e) => {
            let r = Err(SymbolicateError::Object(e));
            assert(build_outcome(r, debug_file@, at));
            return r;
        },
    };
    if objects.len() != 1 {
        let r = Err(SymbolicateError::FatArchive);
        assert(build_outcome(r, debug_file@, at));
        return r;
    }
    let object = objects.pop().unwrap();
    let converted = match convert_object(object) {
        Ok(c) => c,
        Err(e) => {
            let r = Err(SymbolicateError::Cache(e));
            assert(build_outcome(r, debug_file@, at));
            return r;
        },
    };
    let r = match serialize_cache(converted) {
        Ok(bytes) => Ok(bytes),
        Err(e) => Err(SymbolicateError::Io(e)),
    };
    assert(build_outcome(r, debug_file@, at));
    r
}

/// The frame location of the match `m`, given the demangling of its name and the
/// display name of its language: a match without a source file gets the path `<unknown file>`.
pub fn frame_location(m: &SymbolMatch, demangled_name: String, language: String) -> (r: FrameLocation)
    ensures
        r@ == (demangled_name@, m.name@, language@, match m.file {
            Some(p) => p@,
            None => unknown_file(),
        }, m.line),
{
    let full_path = match &m.file {
        Some(p) => p.clone(),
        None => "<unknown file>".to_owned(),
    };
    proof {
        reveal_strlit("<unknown file>");
    }
    FrameLocation { demangled_name, name: m.name.clone(), language, full_path, line: m.line }
}

/// The frame locations of the matches that `cache` reports for `addr`.
fn resolve_offset(cache: &SymbolCache, addr: u64) -> (r: Vec<FrameLocation>)
    requires
        cache.table().contains_key(addr),
    ensures
        locations_of(r@, cache.table()[addr]),
{
    let matches = lookup_matches(cache, addr);
    let ghost ms = cache.table()[addr];
    let mut out: Vec<FrameLocation> = Vec::new();
    let mut i: usize = 0;
    while i < matches.len()
        invariant
            i <= matches@.len(),
            matches@.len() == ms.len(),
            forall|j: int| 0 <= j < matches@.len() ==> (#[trigger] matches@[j])@ == ms[j],
            out@.len() == i,
            forall|j: int| 0 <= j < i ==> (#[trigger] out@[j])@ == location_of(ms[j]),
        decreases matches@.len() - i,
    {
        let m = &matches[i];
        let demangled = demangle(m.name.as_str(), m.language);
        let label = language_label(m.language);
        let loc = frame_location(m, demangled, label);
        proof {
            assert(matches@[i as int]@ == ms[i as int]);
        }
        out.push(loc);
        i = i + 1;
    }
    out
}

/// Decodes `trace` offset by offset and resolves each against `cache`: one list of frame
/// locations per offset, in the order of the trace, an empty list for an offset without
/// matches. Each offset, sign-extended to 64 bits, must have a lookup that finishes.
pub fn symbolicate_addrs(trace: &[u8], cache: &SymbolCache) -> (r: Vec<Vec<FrameLocation>>)
    requires
        forall|i: int| 0 <= i < decode_all(trace@).len() ==> cache.table().contains_key(
            #[trigger] decode_all(trace@)[i] as u64,
        ),
    ensures
        r@.len() == decode_all(trace@).len(),
        forall|i: int| 0 <= i < r@.len() ==> locations_of(
            (#[trigger] r@[i])@,
            cache.table()[decode_all(trace@)[i] as u64],
        ),
{
    let offsets = decode_offsets(trace);
    let mut out: Vec<Vec<FrameLocation>> = Vec::new();
    let mut i: usize = 0;
    while i < offsets.len()
        invariant
            i <= offsets@.len(),
            offsets@ == decode_all(trace@),
            forall|j: int| 0 <= j < offsets@.len() ==> cache.table().contains_key(#[trigger] offsets@[j] as u64),
            out@.len() == i,
            forall|j: int|
                0 <= j < i ==> locations_of((#[trigger] out@[j])@, cache.table()[offsets@[j] as u64]),
        decreases offsets@.len() - i,
    {
        let frames = resolve_offset(cache, offsets[i] as u64);
        out.push(frames);
        i = i + 1;
    }
    out
}

} // verus!
