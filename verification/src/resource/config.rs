//! Configuration files that scripts read.
//!
//! A script loads a file by path and gets a handle, and reads values of the file by handle and
//! dotted path. A file is loaded once: its path gives the same handle ever after.
use vstd::prelude::*;
use vstd::string::*;

use crate::config::ConfigFormat;
use crate::document;
use crate::paths;
use crate::text;
use crate::value::{Json, Value};
use crate::world_access::path;

verus! {

/// Why a configuration could not be loaded or read.
#[derive(Debug, Clone, PartialEq, Eq)]
pub enum ConfigError {
    /// The extension is neither `json` nor `ron`.
    UnsupportedExtension { ext: String, path: String },
    /// The file could not be read.
    Io { path: String, reason: String },
    /// The text could not be parsed.
    Parse { path: String, reason: String },
    /// No configuration has the handle.
    UnknownHandle { handle: i64 },
    /// The path leads nowhere in the configuration.
    PathMiss { path: String, root: String },
}

impl ConfigError {
    /// The message that describes the error.
    pub open spec fn text(self) -> Seq<char> {
        match self {
            ConfigError::UnsupportedExtension { ext, path } => "unsupported config extension `"@ + ext@ + "` for `"@ + path@ + "` — only .json / .ron allowed"@,
            ConfigError::Io { path, reason } => "failed to read config `"@ + path@ + "`: "@ + reason@,
            ConfigError::Parse { path, reason } => "failed to parse config `"@ + path@ + "`: "@ + reason@,
            ConfigError::UnknownHandle { handle } => "config handle "@ + text::signed_digits(handle as int) + " not found in cache"@,
            ConfigError::PathMiss { path, root } => "config path `"@ + path@ + "` cannot be resolved against `"@ + root@ + "`"@,
        }
    }

    /// The error is that the file could not be read.
    pub open spec fn is_io(self, path: Seq<char>, reason: Seq<char>) -> bool {
        self is Io && self->Io_path@ == path && self->Io_reason@ == reason
    }

    /// The error is that the extension is neither `json` nor `ron`; it is told in lower case.
    pub open spec fn is_unsupported(self, ext: Seq<char>, path: Seq<char>) -> bool {
        self is UnsupportedExtension && self->UnsupportedExtension_ext@ == text::ascii_lower(ext)
            && self->UnsupportedExtension_path@ == path
    }

    /// The message that describes the error.
    #[must_use]
    pub fn message(&self) -> (written: String)
        ensures
            written@ == self.text(),
    {
        match self {
            ConfigError::UnsupportedExtension { ext, path } => {
                let mut whole = text::in_between("unsupported config extension `", ext.as_str(), "` for `");
                whole.append(path.as_str());
                whole.append("` — only .json / .ron allowed");
                whole
            },
            ConfigError::Io { path, reason } => {
                let mut whole = text::in_between("failed to read config `", path.as_str(), "`: ");
                whole.append(reason.as_str());
                whole
            },
            ConfigError::Parse { path, reason } => {
                let mut whole = text::in_between("failed to parse config `", path.as_str(), "`: ");
                whole.append(reason.as_str());
                whole
            },
            ConfigError::UnknownHandle { handle } => text::in_between("config handle ", text::signed_text(*handle).as_str(), " not found in cache"),
            ConfigError::PathMiss { path, root } => {
                let mut whole = text::in_between("config path `", path.as_str(), "` cannot be resolved against `");
                whole.append(root.as_str());
                whole.append("`");
                whole
            },
        }
    }
}

/// A configuration: where it came from, and its content.
pub struct LoadedConfig {
    source: String,
    root: Value,
}

/// The content of a [`LoadedConfig`].
#[verifier::ext_equal]
pub struct ConfigContent {
    pub source: Seq<char>,
    pub root: Json,
}

impl View for LoadedConfig {
    type V = ConfigContent;

    closed spec fn view(&self) -> ConfigContent {
        ConfigContent { source: self.source@, root: self.root@ }
    }
}

/// What a configuration holds at `path`: the root for the empty path, else what its segments,
/// empty ones among them, lead to.
pub open spec fn value_at(root: Json, path: Seq<char>) -> Option<Json> {
    if path.len() == 0 {
        Some(root)
    } else {
        match path::get_at(root, text::split_on(path, '.')) {
            Ok(v) => Some(v),
            Err(_) => None,
        }
    }
}

impl LoadedConfig {
    /// The path of the file.
    #[must_use]
    pub fn source(&self) -> (source: &str)
        ensures
            source@ == self@.source,
    {
        self.source.as_str()
    }

    /// The content of the file.
    #[must_use]
    pub fn root(&self) -> (root: &Value)
        ensures
            root@ == self@.root,
    {
        &self.root
    }

    /// The value at `path`, a list of keys and indices with dots between them.
    pub fn get(&self, path: &str) -> (found: Result<&Value, ConfigError>)
        ensures
            match found {
                Ok(v) => value_at(self@.root, path@) == Some(v@),
                Err(e) => value_at(self@.root, path@) is None && e is PathMiss
                    && e->PathMiss_path@ == path@ && e->PathMiss_root@ == self@.source,
            },
    {
        if path.is_empty() {
            return Ok(&self.root);
        }
        let parts = text::split(path, '.');
        let ghost all = text::texts(parts@);
        let mut current: &Value = &self.root;
        let mut i: usize = 0;
        assert(all.skip(0) =~= all);
        while i < parts.len()
            invariant
                i <= parts.len(),
                path@.len() > 0,
                all == text::texts(parts@),
                all == text::split_on(path@, '.'),
                path::get_at(self@.root, all) == path::get_at(current@, all.skip(i as int)),
            decreases parts.len() - i,
        {
            let ghost here = all.skip(i as int);
            assert(here[0] == parts@[i as int]@);
            assert(here.drop_first() =~= all.skip(i + 1));
            match path::step(current, parts[i].as_str()) {
                Ok(next) => {
                    current = next;
                },
                Err(_) => {
                    return Err(
                        ConfigError::PathMiss { path: path.to_owned(), root: self.source.clone() },
                    );
                },
            }
            i += 1;
        }
        Ok(current)
    }
}

/// The configurations of a virtual machine. A handle is a position in the order of loading.
pub struct ConfigCache {
    entries: Vec<LoadedConfig>,
}

/// The configurations, in the order of loading.
pub open spec fn contents(entries: Seq<LoadedConfig>) -> Seq<ConfigContent> {
    entries.map_values(|c: LoadedConfig| c@)
}

/// Whether the configuration at `i` came from the file at `path`, whatever way that path is
/// written.
pub open spec fn came_from(entries: Seq<ConfigContent>, path: Seq<char>, i: int) -> bool {
    0 <= i < entries.len() && paths::components_of(entries[i].source) == paths::components_of(path)
}

/// Whether a configuration came from the file at `path`.
pub open spec fn is_loaded(entries: Seq<ConfigContent>, path: Seq<char>) -> bool {
    exists|i: int| came_from(entries, path, i)
}

/// Whether no two configurations came from one file.
pub open spec fn sources_differ(entries: Seq<ConfigContent>) -> bool {
    forall|i: int, j: int|
        0 <= i < j < entries.len() ==> paths::components_of((#[trigger] entries[i]).source)
            != paths::components_of((#[trigger] entries[j]).source)
}

impl View for ConfigCache {
    type V = Seq<ConfigContent>;

    closed spec fn view(&self) -> Seq<ConfigContent> {
        contents(self.entries@)
    }
}

/// Whether reading the file at `path` leads from one state of the host to the other and gives
/// `text`.
pub open spec fn is_read<W, F: FnOnce(W, &str) -> (W, Result<String, String>)>(
    read: F,
    host: W,
    path: &str,
    after: W,
    text: Result<String, String>,
) -> bool {
    read.ensures((host, path), (after, text))
}

impl ConfigCache {
    /// Every file was loaded once.
    #[verifier::type_invariant]
    spec fn loaded_once(self) -> bool {
        sources_differ(contents(self.entries@))
    }

    /// A cache without configurations.
    #[must_use]
    pub fn new() -> (cache: Self)
        ensures
            cache@ == Seq::<ConfigContent>::empty(),
            sources_differ(cache@),
    {
        let cache = ConfigCache { entries: Vec::new() };
        assert(cache@ =~= Seq::<ConfigContent>::empty());
        cache
    }

    /// The place of the configuration that came from the file at `path`.
    fn place(&self, path: &str) -> (place: Option<usize>)
        ensures
            match place {
                Some(i) => came_from(self@, path@, i as int),
                None => !is_loaded(self@, path@),
            },
    {
        let mut i: usize = 0;
        while i < self.entries.len()
            invariant
                i <= self.entries.len(),
                forall|j: int| 0 <= j < i ==> !#[trigger] came_from(self@, path@, j),
            decreases self.entries.len() - i,
        {
            if paths::same_path(self.entries[i].source.as_str(), path) {
                return Some(i);
            }
            i += 1;
        }
        None
    }

    /// The handle of the file at `relative_path`, seen from `base_dir`. A file that was loaded
    /// before keeps its handle and is not read again; a new one is read from the host and parsed,
    /// and gets the next handle if both succeed.
    pub fn ensure_loaded<W, F: FnOnce(W, &str) -> (W, Result<String, String>)>(
        &mut self,
        base_dir: &str,
        relative_path: &str,
        host: W,
        read: F,
    ) -> (handle: (W, Result<usize, ConfigError>))
        requires
            forall|path: &str| read.requires((host, path)),
        ensures
            sources_differ(final(self)@),
            ({
                let path = paths::joined_path(base_dir@, relative_path@);
                if is_loaded(old(self)@, path) {
                    &&& handle.0 == host
                    &&& final(self)@ == old(self)@
                    &&& handle.1 is Ok
                    &&& came_from(old(self)@, path, handle.1->Ok_0 as int)
                } else {
                    exists|file: &str, text: Result<String, String>|
                        {
                            &&& #[trigger] is_read(read, host, file, handle.0, text)
                            &&& file@ == path
                            &&& match text {
                                Err(reason) => {
                                    &&& final(self)@ == old(self)@
                                    &&& handle.1 is Err
                                    &&& handle.1->Err_0.is_io(relative_path@, reason@)
                                },
                                Ok(text) => exists|root: Result<Value, ConfigError>|
                                    {
                                        &&& #[trigger] is_parsed(
                                            text@,
                                            path,
                                            relative_path@,
                                            root,
                                        )
                                        &&& match root {
                                            Ok(root) => {
                                                &&& handle.1 == Ok::<usize, ConfigError>(
                                                    old(self)@.len() as usize,
                                                )
                                                &&& old(self)@.len() <= usize::MAX
                                                &&& final(self)@ == old(self)@.push(
                                                    ConfigContent { source: path, root: root@ },
                                                )
                                            },
                                            Err(e) => handle.1 == Err::<usize, ConfigError>(e)
                                                && final(self)@ == old(self)@,
                                        }
                                    },
                            }
                        }
                }
            }),
    {
        proof {
            use_type_invariant(&*self);
        }
        let absolute = canonicalize_for_cache(base_dir, relative_path);
        let file: &str = absolute.as_str();
        match self.place(file) {
            Some(id) => {
                return (host, Ok(id));
            },
            None => {},
        }
        let ghost first = host;
        let (host, text) = read(host, file);
        let ghost got = text;
        let loaded = match text {
            Err(reason) => Err(ConfigError::Io { path: relative_path.to_owned(), reason }),
            Ok(text) => {
                let parsed = parse_config(text.as_str(), file, relative_path);
                assert(is_parsed(text@, file@, relative_path@, parsed));
                parsed
            },
        };
        let handle = match loaded {
            Err(e) => (host, Err(e)),
            Ok(root) => {
                let id: usize = self.entries.len();
                let mut entries: Vec<LoadedConfig> = Vec::new();
                std::mem::swap(&mut entries, &mut self.entries);
                let ghost before = entries@;
                entries.push(LoadedConfig { source: file.to_owned(), root });
                proof {
                    let now = contents(entries@);
                    assert(now =~= contents(before).push(
                        ConfigContent { source: file@, root: root@ },
                    ));
                    assert forall|i: int, j: int| 0 <= i < j < now.len() implies paths::components_of(
                        (#[trigger] now[i]).source,
                    ) != paths::components_of((#[trigger] now[j]).source) by {
                        if j == before.len() {
                            assert(!came_from(contents(before), file@, i));
                        } else {
                            assert(now[i] == contents(before)[i]);
                            assert(now[j] == contents(before)[j]);
                        }
                    }
                }
                self.entries = entries;
                (host, Ok(id))
            },
        };
        assert(is_read(read, first, file, handle.0, got));
        handle
    }

    /// The configuration that a handle stands for.
    pub fn get(&self, id: i64) -> (found: Result<&LoadedConfig, ConfigError>)
        ensures
            match found {
                Ok(c) => 0 <= id < self@.len() && c@ == self@[id as int],
                Err(e) => !(0 <= id < self@.len()) && e == (ConfigError::UnknownHandle {
                    handle: id,
                }),
            },
    {
        if id >= 0 && (id as u64 as u128) < self.entries.len() as u128 {
            Ok(&self.entries[id as usize])
        } else {
            Err(ConfigError::UnknownHandle { handle: id })
        }
    }

    /// How many configurations were loaded.
    #[must_use]
    pub fn len(&self) -> (n: usize)
        ensures
            n == self@.len(),
    {
        self.entries.len()
    }

    /// Whether none was loaded.
    #[must_use]
    pub fn is_empty(&self) -> (empty: bool)
        ensures
            empty == (self@.len() == 0),
    {
        self.entries.len() == 0
    }
}

/// The path by which a file is known.
pub fn canonicalize_for_cache(base_dir: &str, relative_path: &str) -> (path: String)
    ensures
        path@ == paths::joined_path(base_dir@, relative_path@),
{
    paths::join(base_dir, relative_path)
}

/// The extension of a path, or nothing.
pub open spec fn extension_or_none(path: Seq<char>) -> Seq<char> {
    match paths::extension_of(path) {
        Some(e) => e,
        None => Seq::empty(),
    }
}

/// The format of the file at `absolute`, which was asked for as `original`.
pub fn config_format(absolute: &str, original: &str) -> (format: Result<ConfigFormat, ConfigError>)
    ensures
        match format {
            Ok(f) => ConfigFormat::of_extension(extension_or_none(absolute@)) == Some(f),
            Err(e) => ConfigFormat::of_extension(extension_or_none(absolute@)) is None
                && e.is_unsupported(extension_or_none(absolute@), original@),
        },
{
    let ext = match paths::extension(absolute) {
        Some(e) => e,
        None => String::new(),
    };
    match ConfigFormat::from_extension(ext.as_str()) {
        Some(f) => Ok(f),
        None => Err(
            ConfigError::UnsupportedExtension {
                ext: text::to_ascii_lower(ext.as_str()),
                path: original.to_owned(),
            },
        ),
    }
}

/// Whether parsing a document, for the file that was asked for as `original`, gives `root`.
pub open spec fn is_root(
    document: Result<Json, Seq<char>>,
    original: Seq<char>,
    root: Result<Value, ConfigError>,
) -> bool {
    match root {
        Ok(v) => document == Ok::<Json, Seq<char>>(v@),
        Err(e) => e is Parse && e->Parse_path@ == original && document == Err::<Json, Seq<char>>(
            e->Parse_reason@,
        ),
    }
}

/// Whether the text of the file at `absolute`, which was asked for as `original`, is parsed to
/// `root`. The extension tells the format.
pub open spec fn is_parsed(
    text: Seq<char>,
    absolute: Seq<char>,
    original: Seq<char>,
    root: Result<Value, ConfigError>,
) -> bool {
    match ConfigFormat::of_extension(extension_or_none(absolute)) {
        Some(ConfigFormat::Json) => is_root(document::json_document(text), original, root),
        Some(ConfigFormat::Ron) => is_root(document::ron_document(text), original, root),
        None => root is Err && root->Err_0.is_unsupported(extension_or_none(absolute), original),
    }
}

/// What a parser gave of the file that was asked for as `original`.
pub fn config_root(parsed: Result<Value, String>, original: &str) -> (root: Result<
    Value,
    ConfigError,
>)
    ensures
        match parsed {
            Ok(v) => root == Ok::<Value, ConfigError>(v),
            Err(reason) => root is Err && root->Err_0 is Parse && root->Err_0->Parse_path@
                == original@ && root->Err_0->Parse_reason == reason,
        },
{
    match parsed {
        Ok(v) => Ok(v),
        Err(reason) => Err(ConfigError::Parse { path: original.to_owned(), reason }),
    }
}

/// The content of the file at `absolute`, which was asked for as `original` and holds `text`. The
/// extension tells the format.
pub fn parse_config(text: &str, absolute: &str, original: &str) -> (root: Result<
    Value,
    ConfigError,
>)
    ensures
        is_parsed(text@, absolute@, original@, root),
{
    match config_format(absolute, original) {
        Ok(ConfigFormat::Json) => config_root(document::parse_json(text), original),
        Ok(ConfigFormat::Ron) => config_root(document::parse_ron(text), original),
        Err(e) => Err(e),
    }
}

/// Loading further files keeps what every older handle stands for.
pub proof fn handles_stay_valid(entries: Seq<ConfigContent>, new: ConfigContent, handle: int)
    requires
        0 <= handle < entries.len(),
    ensures
        entries.push(new)[handle] == entries[handle],
        entries.push(new)[entries.len() as int] == new,
{
}

/// A path has one handle: whatever handle a later load of it gives is the one it has already.
pub proof fn a_path_keeps_its_handle(entries: Seq<ConfigContent>, path: Seq<char>, i: int, j: int)
    requires
        sources_differ(entries),
        came_from(entries, path, i),
        came_from(entries, path, j),
    ensures
        i == j,
{
}

/// A longer path goes one level further down: what stands at a path, a dot and a segment is the
/// child of that name of what stands at the path, and nothing where there is no such child. In
/// an object the segment is a key, in an array the number of an item.
pub proof fn each_segment_goes_one_level_down(root: Json, path: Seq<char>, segment: Seq<char>)
    requires
        !segment.contains('.'),
    ensures
        value_at(root, Seq::<char>::empty()) == Some(root),
        path.len() > 0 ==> value_at(root, path.push('.') + segment) == (match value_at(root, path) {
            Some(Json::Object(map)) => if map.contains_key(segment) {
                Some(map[segment])
            } else {
                None
            },
            Some(Json::Array(items)) => match text::index_of_text(segment) {
                Some(i) => if i < items.len() {
                    Some(items[i as int])
                } else {
                    None
                },
                None => None,
            },
            _ => None,
        }),
        segment.len() > 0 ==> value_at(root, segment) == (match root {
            Json::Object(map) => if map.contains_key(segment) {
                Some(map[segment])
            } else {
                None
            },
            Json::Array(items) => match text::index_of_text(segment) {
                Some(i) => if i < items.len() {
                    Some(items[i as int])
                } else {
                    None
                },
                None => None,
            },
            _ => None,
        }),
{
    text::unbroken_text_is_one_piece(segment, '.');
    text::pieces_of_two_texts(path, segment, '.');
    let above = text::split_on(path, '.');
    assert(above + seq![segment] =~= above.push(segment));
    path::reading_goes_down_step_by_step(root, above, segment);
    path::reading_goes_down_step_by_step(root, Seq::empty(), segment);
    assert(Seq::<Seq<char>>::empty().push(segment) =~= seq![segment]);
}

/// A path leads as many levels down as it has segments: every step on the way is a child of the
/// step before.
pub proof fn a_path_leads_down_by_its_segments(root: Json, path: Seq<char>, n: int)
    requires
        path.len() > 0,
        value_at(root, path) is Some,
        0 <= n < text::split_on(path, '.').len(),
    ensures
        ({
            let segments = text::split_on(path, '.');
            let here = path::get_at(root, segments.take(n));
            let next = path::get_at(root, segments.take(n + 1));
            &&& here is Ok && next is Ok
            &&& path::get_at(root, segments.take(segments.len() as int)) == Ok::<
                Json,
                path::PathFault,
            >(value_at(root, path)->Some_0)
            &&& match here->Ok_0 {
                Json::Object(map) => map.contains_key(segments[n]) && next->Ok_0
                    == map[segments[n]],
                Json::Array(items) => match text::index_of_text(segments[n]) {
                    Some(i) => i < items.len() && next->Ok_0 == items[i as int],
                    None => false,
                },
                _ => false,
            }
        }),
{
    let segments = text::split_on(path, '.');
    assert(segments.take(segments.len() as int) =~= segments);
    way_is_there(root, segments, segments.len() as int, n + 1);
    way_is_there(root, segments, segments.len() as int, n);
    assert(segments.take(n + 1) =~= segments.take(n).push(segments[n]));
    path::reading_goes_down_step_by_step(root, segments.take(n), segments[n]);
}

proof fn way_is_there(root: Json, segments: Seq<Seq<char>>, m: int, n: int)
    requires
        0 <= n <= m <= segments.len(),
        path::get_at(root, segments.take(m)) is Ok,
    ensures
        path::get_at(root, segments.take(n)) is Ok,
    decreases m - n,
{
    if n < m {
        assert(segments.take(m) =~= segments.take(m - 1).push(segments[m - 1]));
        path::reading_goes_down_step_by_step(root, segments.take(m - 1), segments[m - 1]);
        way_is_there(root, segments, m - 1, n);
    }
}

/// What a configuration gives at a longer path is a child of what it gives at the shorter one, and
/// it gives nothing there exactly if it gives nothing at the shorter one or that has no such child.
pub proof fn longer_paths_read_children(
    config: &LoadedConfig,
    path: &str,
    segment: Seq<char>,
    longer: &str,
    above: Result<&Value, ConfigError>,
    found: Result<&Value, ConfigError>,
)
    requires
        call_ensures(LoadedConfig::get, (config, path), above),
        call_ensures(LoadedConfig::get, (config, longer), found),
        path@.len() > 0,
        !segment.contains('.'),
        longer@ == path@.push('.') + segment,
    ensures
        above is Err ==> found is Err,
        above is Ok ==> match above->Ok_0@ {
            Json::Object(map) => (found is Ok <==> map.contains_key(segment)) && (found is Ok
                ==> found->Ok_0@ == map[segment]),
            Json::Array(items) => match text::index_of_text(segment) {
                Some(i) => (found is Ok <==> i < items.len()) && (found is Ok ==> found->Ok_0@
                    == items[i as int]),
                None => found is Err,
            },
            _ => found is Err,
        },
        found is Err ==> found->Err_0 is PathMiss && found->Err_0->PathMiss_path@ == longer@,
{
    each_segment_goes_one_level_down(config@.root, path@, segment);
}

/// A file is loaded once: once a path has a handle, loading it again gives the same handle, leaves
/// the host alone and changes nothing, and the handle stands for the file at that path.
pub proof fn a_file_is_loaded_once<
    W,
    F: FnOnce(W, &str) -> (W, Result<String, String>),
    G: FnOnce(W, &str) -> (W, Result<String, String>),
>(
    c1: &mut ConfigCache,
    c2: &mut ConfigCache,
    base_dir: &str,
    relative_path: &str,
    host: W,
    read: F,
    again: G,
    later: W,
    first: (W, Result<usize, ConfigError>),
    second: (W, Result<usize, ConfigError>),
)
    requires
        call_ensures(
            ConfigCache::ensure_loaded::<W, F>,
            (c1, base_dir, relative_path, host, read),
            first,
        ),
        first.1 is Ok,
        final(c1)@ == old(c2)@,
        call_ensures(
            ConfigCache::ensure_loaded::<W, G>,
            (c2, base_dir, relative_path, later, again),
            second,
        ),
    ensures
        second.0 == later,
        second.1 == first.1,
        final(c2)@ == old(c2)@,
        first.1->Ok_0 < final(c1)@.len(),
        paths::components_of(final(c1)@[first.1->Ok_0 as int].source) == paths::components_of(
            paths::joined_path(base_dir@, relative_path@),
        ),
        forall|i: int|
            0 <= i < old(c1)@.len() ==> i < final(c1)@.len() && #[trigger] final(c1)@[i] == old(
                c1,
            )@[i],
{
    let path = paths::joined_path(base_dir@, relative_path@);
    let handle = first.1->Ok_0 as int;
    assert(came_from(final(c1)@, path, handle));
    assert(is_loaded(old(c2)@, path));
    a_path_keeps_its_handle(old(c2)@, path, handle, second.1->Ok_0 as int);
}

/// A file that cannot be read or parsed gets no handle, and nothing is kept of it.
pub proof fn a_failed_load_keeps_nothing<W, F: FnOnce(W, &str) -> (W, Result<String, String>)>(
    cache: &mut ConfigCache,
    base_dir: &str,
    relative_path: &str,
    host: W,
    read: F,
    loaded: (W, Result<usize, ConfigError>),
)
    requires
        call_ensures(
            ConfigCache::ensure_loaded::<W, F>,
            (cache, base_dir, relative_path, host, read),
            loaded,
        ),
        loaded.1 is Err,
    ensures
        final(cache)@ == old(cache)@,
{
}

/// A file is parsed in the format that its extension tells, in whatever case it is written: what
/// reading the text in that format gives is the content, and a failure names the path as it was
/// asked for. Any other extension is refused, and told in small letters.
pub proof fn files_are_parsed_by_their_extension(
    text: &str,
    absolute: &str,
    original: &str,
    dir: Seq<char>,
    stem: Seq<char>,
    extension: Seq<char>,
    root: Result<Value, ConfigError>,
    json: Result<Value, String>,
    ron: Result<Value, String>,
)
    requires
        absolute@ == dir.push('/') + (stem.push('.') + extension),
        stem.len() > 0,
        !stem.contains('/'),
        stem[0] != '.',
        !extension.contains('/'),
        !extension.contains('.'),
        call_ensures(parse_config, (text, absolute, original), root),
        call_ensures(document::parse_json, (text,), json),
        call_ensures(document::parse_ron, (text,), ron),
    ensures
        text::ascii_lower(extension) == "json"@ ==> (root is Ok <==> json is Ok),
        text::ascii_lower(extension) == "json"@ && root is Ok ==> root->Ok_0@ == json->Ok_0@,
        text::ascii_lower(extension) == "ron"@ ==> (root is Ok <==> ron is Ok),
        text::ascii_lower(extension) == "ron"@ && root is Ok ==> root->Ok_0@ == ron->Ok_0@,
        (text::ascii_lower(extension) == "json"@ || text::ascii_lower(extension) == "ron"@)
            && root is Err ==> root->Err_0 is Parse && root->Err_0->Parse_path@ == original@,
        text::ascii_lower(extension) != "json"@ && text::ascii_lower(extension) != "ron"@ ==> root
            is Err && root->Err_0 is UnsupportedExtension
            && root->Err_0->UnsupportedExtension_path@ == original@
            && root->Err_0->UnsupportedExtension_ext@ == text::ascii_lower(extension),
{
    assert((stem.push('.') + extension)[0] == stem[0]);
    paths::names_are_cut_at_the_last_dot(dir, stem, extension);
    crate::config::extensions_tell_formats_in_any_case(extension);
    crate::config::extensions_tell_formats_in_any_case(text::ascii_lower(extension));
}

/// What a parser gave is kept as it is; a reason is told with the path as it was asked for.
pub proof fn parsed_roots_are_kept(
    parsed: Result<Value, String>,
    original: &str,
    root: Result<Value, ConfigError>,
)
    requires
        call_ensures(config_root, (parsed, original), root),
    ensures
        parsed is Ok ==> root is Ok && root->Ok_0 == parsed->Ok_0,
        parsed is Err ==> root is Err && root->Err_0 is Parse && root->Err_0->Parse_reason
            == parsed->Err_0 && root->Err_0->Parse_path@ == original@,
{
}

/// A file is known by its path, not by how the path is written: a slash that is written twice, or
/// a part that is the current directory, makes no other file of it. Files whose paths end in
/// different names are different.
pub proof fn files_are_known_however_their_path_is_written(
    entries: Seq<ConfigContent>,
    dir: Seq<char>,
    part: Seq<char>,
    other: Seq<char>,
    i: int,
)
    requires
        dir.len() > 0,
        part.len() > 0,
        !part.contains('/'),
        part != seq!['.'],
        other.len() > 0,
        !other.contains('/'),
        other != seq!['.'],
        other != part,
    ensures
        came_from(entries, dir.push('/') + part, i) <==> came_from(
            entries,
            dir.push('/').push('/') + part,
            i,
        ),
        came_from(entries, dir.push('/') + part, i) <==> came_from(
            entries,
            (dir.push('/') + seq!['.']).push('/') + part,
            i,
        ),
        came_from(entries, dir.push('/') + part, i) ==> !came_from(
            entries,
            dir.push('/') + other,
            i,
        ),
{
    let nothing = Seq::<char>::empty();
    assert(dir.push('/') + nothing =~= dir.push('/'));
    assert(!seq!['.'].contains('/'));
    paths::paths_are_made_part_by_part(dir, part);
    paths::paths_are_made_part_by_part(dir, other);
    paths::paths_are_made_part_by_part(dir, nothing);
    paths::paths_are_made_part_by_part(dir, seq!['.']);
    paths::paths_are_made_part_by_part(dir.push('/'), part);
    paths::paths_are_made_part_by_part(dir.push('/') + seq!['.'], part);
    let above = paths::components_of(dir);
    assert(above.push(part).last() == part && above.push(other).last() == other);
}

} // verus!
