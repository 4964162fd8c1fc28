//! Dotted-path navigation: locate, read, insert or modify, and delete fields of a [`Value`] tree
//! with paths of the form `a.b.0`.
//!
//! A path is a list of dot-separated segments; empty segments are dropped. For an object a
//! segment is a key, for an array it is a decimal index. The empty path refers to the root value.
//! Writing creates missing object keys on the way as empty objects.
use vstd::prelude::*;
use vstd::string::*;

use crate::dict::Dict;
use crate::text;
use crate::value;
use crate::value::{Json, Value};

verus! {

/// Why a path operation failed.
#[derive(Debug, Clone, PartialEq, Eq)]
pub enum PathError {
    /// The object does not hold the key.
    KeyNotFound { key: String },
    /// The array index is past the end of the array.
    IndexOutOfBounds { index: usize, len: usize },
    /// The value is neither an object nor an array.
    NotContainer { segment: String },
    /// The array index to assign at is past the append position.
    AssignOutOfBounds { index: usize, len: usize },
    /// The segment is not an array index.
    NonIntegerIndex { segment: String },
    /// The root value has no parent to be removed from.
    RemoveRoot,
}

impl PathError {
    /// The message that describes the error.
    pub open spec fn text(self) -> Seq<char> {
        match self {
            PathError::KeyNotFound { key } => "key `"@ + key@ + "` not found in object"@,
            PathError::IndexOutOfBounds { index, len } => "array index "@ + text::digits(index as nat) + " out of bounds (length "@ + text::digits(len as nat) + ")"@,
            PathError::NotContainer { segment } => "cannot descend into non-container value at segment `"@ + segment@ + "`"@,
            PathError::AssignOutOfBounds { index, len } => "cannot assign at array index "@ + text::digits(index as nat) + ": length is "@ + text::digits(len as nat),
            PathError::NonIntegerIndex { segment } => "array index must be a non-negative integer, got `"@ + segment@ + "`"@,
            PathError::RemoveRoot => "cannot remove the root value"@,
        }
    }

    /// The message that describes the error.
    #[must_use]
    pub fn message(&self) -> (written: String)
        ensures
            written@ == self.text(),
    {
        match self {
            PathError::KeyNotFound { key } => text::in_between("key `", key.as_str(), "` not found in object"),
            PathError::IndexOutOfBounds { index, len } => {
                let mut whole = text::in_between("array index ", text::number_text(*index as u64).as_str(), " out of bounds (length ");
                whole.append(text::number_text(*len as u64).as_str());
                whole.append(")");
                whole
            },
            PathError::NotContainer { segment } => text::in_between("cannot descend into non-container value at segment `", segment.as_str(), "`"),
            PathError::AssignOutOfBounds { index, len } => {
                let mut whole = text::in_between("cannot assign at array index ", text::number_text(*index as u64).as_str(), ": length is ");
                whole.append(text::number_text(*len as u64).as_str());
                whole
            },
            PathError::NonIntegerIndex { segment } => text::in_between("array index must be a non-negative integer, got `", segment.as_str(), "`"),
            PathError::RemoveRoot => "cannot remove the root value".to_owned(),
        }
    }
}

/// The content of a [`PathError`].
pub enum PathFault {
    KeyNotFound { key: Seq<char> },
    IndexOutOfBounds { index: int, len: int },
    NotContainer { segment: Seq<char> },
    AssignOutOfBounds { index: int, len: int },
    NonIntegerIndex { segment: Seq<char> },
    RemoveRoot,
}

impl View for PathError {
    type V = PathFault;

    open spec fn view(&self) -> PathFault {
        match self {
            PathError::KeyNotFound { key } => PathFault::KeyNotFound { key: key@ },
            PathError::IndexOutOfBounds { index, len } => PathFault::IndexOutOfBounds {
                index: *index as int,
                len: *len as int,
            },
            PathError::NotContainer { segment } => PathFault::NotContainer { segment: segment@ },
            PathError::AssignOutOfBounds { index, len } => PathFault::AssignOutOfBounds {
                index: *index as int,
                len: *len as int,
            },
            PathError::NonIntegerIndex { segment } => PathFault::NonIntegerIndex {
                segment: segment@,
            },
            PathError::RemoveRoot => PathFault::RemoveRoot,
        }
    }
}

/// The segments of a dotted path.
pub open spec fn path_segments(path: Seq<char>) -> Seq<Seq<char>> {
    text::non_empty(text::split_on(path, '.'))
}

/// The position in an array of length `len` that `segment` names.
pub open spec fn array_position(segment: Seq<char>, len: int) -> Result<int, PathFault> {
    match text::index_of_text(segment) {
        None => Err(PathFault::NonIntegerIndex { segment }),
        Some(index) => if index < len {
            Ok(index as int)
        } else {
            Err(PathFault::IndexOutOfBounds { index: index as int, len })
        },
    }
}

/// The child of `v` that `segment` names.
pub open spec fn child(v: Json, segment: Seq<char>) -> Result<Json, PathFault> {
    match v {
        Json::Object(map) => if map.contains_key(segment) {
            Ok(map[segment])
        } else {
            Err(PathFault::KeyNotFound { key: segment })
        },
        Json::Array(items) => match array_position(segment, items.len() as int) {
            Ok(i) => Ok(items[i]),
            Err(fault) => Err(fault),
        },
        _ => Err(PathFault::NotContainer { segment }),
    }
}

/// What stands at `segments` below `v`.
pub open spec fn get_at(v: Json, segments: Seq<Seq<char>>) -> Result<Json, PathFault>
    decreases segments.len(),
{
    if segments.len() == 0 {
        Ok(v)
    } else {
        match child(v, segments[0]) {
            Ok(next) => get_at(next, segments.drop_first()),
            Err(fault) => Err(fault),
        }
    }
}

/// `v` with `new` written at `segments`. Object keys that are missing on the way are created; an
/// array takes a new item only at its end, and only as the last step.
pub open spec fn set_at(v: Json, segments: Seq<Seq<char>>, new: Json) -> Result<Json, PathFault>
    decreases segments.len(),
{
    if segments.len() == 0 {
        Ok(new)
    } else {
        let segment = segments[0];
        let rest = segments.drop_first();
        match v {
            Json::Object(map) => {
                let below = if map.contains_key(segment) {
                    map[segment]
                } else {
                    Json::Object(Map::empty())
                };
                match set_at(below, rest, new) {
                    Ok(written) => Ok(Json::Object(map.insert(segment, written))),
                    Err(fault) => Err(fault),
                }
            },
            Json::Array(items) => if rest.len() == 0 {
                match text::index_of_text(segment) {
                    None => Err(PathFault::NonIntegerIndex { segment }),
                    Some(index) => if index < items.len() {
                        Ok(Json::Array(items.update(index as int, new)))
                    } else if index == items.len() {
                        Ok(Json::Array(items.push(new)))
                    } else {
                        Err(
                            PathFault::AssignOutOfBounds {
                                index: index as int,
                                len: items.len() as int,
                            },
                        )
                    },
                }
            } else {
                match array_position(segment, items.len() as int) {
                    Ok(i) => match set_at(items[i], rest, new) {
                        Ok(written) => Ok(Json::Array(items.update(i, written))),
                        Err(fault) => Err(fault),
                    },
                    Err(fault) => Err(fault),
                }
            },
            _ => Err(PathFault::NotContainer { segment }),
        }
    }
}

/// `v` without what stands at `segments`.
pub open spec fn remove_at(v: Json, segments: Seq<Seq<char>>) -> Result<Json, PathFault>
    decreases segments.len(),
{
    if segments.len() == 0 {
        Err(PathFault::RemoveRoot)
    } else {
        let segment = segments[0];
        let rest = segments.drop_first();
        match v {
            Json::Object(map) => if !map.contains_key(segment) {
                Err(PathFault::KeyNotFound { key: segment })
            } else if rest.len() == 0 {
                Ok(Json::Object(map.remove(segment)))
            } else {
                match remove_at(map[segment], rest) {
                    Ok(left) => Ok(Json::Object(map.insert(segment, left))),
                    Err(fault) => Err(fault),
                }
            },
            Json::Array(items) => match array_position(segment, items.len() as int) {
                Ok(i) => if rest.len() == 0 {
                    Ok(Json::Array(items.remove(i)))
                } else {
                    match remove_at(items[i], rest) {
                        Ok(left) => Ok(Json::Array(items.update(i, left))),
                        Err(fault) => Err(fault),
                    }
                },
                Err(fault) => Err(fault),
            },
            _ => Err(PathFault::NotContainer { segment }),
        }
    }
}

/// Splits `path` into its segments; an empty path has none.
pub fn segments(path: &str) -> (parts: Vec<String>)
    ensures
        text::texts(parts@) == path_segments(path@),
{
    let pieces = text::split(path, '.');
    let ghost all = text::texts(pieces@);
    let mut parts: Vec<String> = Vec::new();
    let mut i: usize = 0;
    assert(text::texts(parts@) =~= text::non_empty(all.take(0)));
    while i < pieces.len()
        invariant
            i <= pieces.len(),
            all == text::texts(pieces@),
            text::texts(parts@) == text::non_empty(all.take(i as int)),
        decreases pieces.len() - i,
    {
        let ghost before = parts@;
        assert(all.take(i + 1).drop_last() =~= all.take(i as int));
        if !pieces[i].as_str().is_empty() {
            parts.push(pieces[i].clone());
            assert(text::texts(parts@) =~= text::texts(before).push(pieces@[i as int]@));
        }
        i += 1;
    }
    assert(all.take(all.len() as int) =~= all);
    parts
}

/// Reads a segment as an array index.
pub fn parse_index(segment: &str) -> (index: Result<usize, PathError>)
    ensures
        match index {
            Ok(n) => text::index_of_text(segment@) == Some(n),
            Err(e) => text::index_of_text(segment@) is None && e@ == (PathFault::NonIntegerIndex {
                segment: segment@,
            }),
        },
{
    match text::text_index(segment) {
        Some(n) => Ok(n),
        None => Err(PathError::NonIntegerIndex { segment: segment.to_owned() }),
    }
}

/// Reads a segment as a position in an array of length `len`.
fn position(segment: &str, len: usize) -> (index: Result<usize, PathError>)
    ensures
        match index {
            Ok(i) => array_position(segment@, len as int) == Ok::<int, PathFault>(i as int),
            Err(e) => array_position(segment@, len as int) == Err::<int, PathFault>(e@),
        },
{
    match parse_index(segment) {
        Ok(index) => if index < len {
            Ok(index)
        } else {
            Err(PathError::IndexOutOfBounds { index, len })
        },
        Err(e) => Err(e),
    }
}

/// Descends by one segment.
pub fn step<'v>(value: &'v Value, segment: &str) -> (next: Result<&'v Value, PathError>)
    ensures
        match next {
            Ok(v) => child(value@, segment@) == Ok::<Json, PathFault>(v@),
            Err(e) => child(value@, segment@) == Err::<Json, PathFault>(e@),
        },
{
    match value {
        Value::Object(dict) => {
            let ghost map = value::dict_view(*dict);
            assert(value@ == Json::Object(map));
            match dict.get(segment) {
                Some(v) => {
                    assert(map[segment@] == v@);
                    Ok(v)
                },
                None => Err(PathError::KeyNotFound { key: segment.to_owned() }),
            }
        },
        Value::Array(items) => {
            let ghost list = value::items_view(items@);
            assert(value@ == Json::Array(list));
            match position(segment, items.len()) {
                Ok(i) => {
                    let v = &items[i];
                    assert(list[i as int] == v@);
                    Ok(v)
                },
                Err(e) => Err(e),
            }
        },
        _ => Err(PathError::NotContainer { segment: segment.to_owned() }),
    }
}

/// Writes `new` at `parts[at..]` below `value`.
fn set_below(value: &mut Value, parts: &Vec<String>, at: usize, new: Value) -> (done: Result<
    (),
    PathError,
>)
    requires
        at <= parts.len(),
    ensures
        match done {
            Ok(()) => set_at(old(value)@, text::texts(parts@).skip(at as int), new@) == Ok::<
                Json,
                PathFault,
            >(final(value)@),
            Err(e) => final(value)@ == old(value)@ && set_at(
                old(value)@,
                text::texts(parts@).skip(at as int),
                new@,
            ) == Err::<Json, PathFault>(e@),
        },
    decreases parts.len() - at,
{
    let ghost here = text::texts(parts@).skip(at as int);
    if at == parts.len() {
        *value = new;
        return Ok(());
    }
    let segment = parts[at].as_str();
    assert(here.drop_first() =~= text::texts(parts@).skip(at + 1));
    assert(here[0] == segment@);
    match value {
        Value::Object(dict) => {
            let ghost map = value::dict_view(*dict);
            match dict.remove(segment) {
                Some(below) => {
                    let mut below = below;
                    let done = set_below(&mut below, parts, at + 1, new);
                    dict.insert(segment.to_owned(), below);
                    assert(value::dict_view(*dict) =~= map.insert(segment@, below@));
                    proof {
                        if done is Err {
                            assert(value::dict_view(*dict) =~= map);
                        }
                    }
                    done
                },
                None => {
                    let mut below = Value::Object(Dict::new());
                    assert(below@ == Json::Object(Map::empty())) by {
                        assert(value::dict_view(below->Object_0) =~= Map::empty());
                    }
                    match set_below(&mut below, parts, at + 1, new) {
                        Ok(()) => {
                            dict.insert(segment.to_owned(), below);
                            assert(value::dict_view(*dict) =~= map.insert(segment@, below@));
                            Ok(())
                        },
                        Err(e) => {
                            assert(value::dict_view(*dict) =~= map);
                            Err(e)
                        },
                    }
                },
            }
        },
        Value::Array(items) => {
            let ghost before = value::items_view(items@);
            if at + 1 == parts.len() {
                match parse_index(segment) {
                    Ok(index) => if index < items.len() {
                        items.set(index, new);
                        assert(value::items_view(items@) =~= before.update(index as int, new@));
                        Ok(())
                    } else if index == items.len() {
                        items.push(new);
                        assert(value::items_view(items@) =~= before.push(new@));
                        Ok(())
                    } else {
                        Err(PathError::AssignOutOfBounds { index, len: items.len() })
                    },
                    Err(e) => Err(e),
                }
            } else {
                match position(segment, items.len()) {
                    Ok(i) => {
                        let mut below = Value::Null;
                        std::mem::swap(&mut items[i], &mut below);
                        let done = set_below(&mut below, parts, at + 1, new);
                        items.set(i, below);
                        assert(value::items_view(items@) =~= before.update(i as int, below@));
                        proof {
                            if done is Err {
                                assert(value::items_view(items@) =~= before);
                            }
                        }
                        done
                    },
                    Err(e) => Err(e),
                }
            }
        },
        _ => Err(PathError::NotContainer { segment: segment.to_owned() }),
    }
}

/// Removes what stands at `parts[at..]` below `value`.
fn remove_below(value: &mut Value, parts: &Vec<String>, at: usize) -> (done: Result<(), PathError>)
    requires
        at <= parts.len(),
    ensures
        match done {
            Ok(()) => remove_at(old(value)@, text::texts(parts@).skip(at as int)) == Ok::<
                Json,
                PathFault,
            >(final(value)@),
            Err(e) => final(value)@ == old(value)@ && remove_at(
                old(value)@,
                text::texts(parts@).skip(at as int),
            ) == Err::<Json, PathFault>(e@),
        },
    decreases parts.len() - at,
{
    let ghost here = text::texts(parts@).skip(at as int);
    if at == parts.len() {
        return Err(PathError::RemoveRoot);
    }
    let segment = parts[at].as_str();
    assert(here.drop_first() =~= text::texts(parts@).skip(at + 1));
    assert(here[0] == segment@);
    match value {
        Value::Object(dict) => {
            let ghost map = value::dict_view(*dict);
            match dict.remove(segment) {
                Some(below) => {
                    assert(below@ == map[segment@]);
                    if at + 1 == parts.len() {
                        assert(value::dict_view(*dict) =~= map.remove(segment@));
                        return Ok(());
                    }
                    let mut below = below;
                    let done = remove_below(&mut below, parts, at + 1);
                    dict.insert(segment.to_owned(), below);
                    assert(value::dict_view(*dict) =~= map.insert(segment@, below@));
                    proof {
                        if done is Err {
                            assert(value::dict_view(*dict) =~= map);
                        }
                    }
                    done
                },
                None => {
                    assert(value::dict_view(*dict) =~= map);
                    Err(PathError::KeyNotFound { key: segment.to_owned() })
                },
            }
        },
        Value::Array(items) => {
            let ghost before = value::items_view(items@);
            match position(segment, items.len()) {
                Ok(i) => {
                    if at + 1 == parts.len() {
                        items.remove(i);
                        assert(value::items_view(items@) =~= before.remove(i as int));
                        return Ok(());
                    }
                    let mut below = Value::Null;
                    std::mem::swap(&mut items[i], &mut below);
                    let done = remove_below(&mut below, parts, at + 1);
                    items.set(i, below);
                    assert(value::items_view(items@) =~= before.update(i as int, below@));
                    proof {
                        if done is Err {
                            assert(value::items_view(items@) =~= before);
                        }
                    }
                    done
                },
                Err(e) => Err(e),
            }
        },
        _ => Err(PathError::NotContainer { segment: segment.to_owned() }),
    }
}

/// Reading, writing and deleting by dotted path.
pub trait ValuePathExt: View<V = Json> + Sized {
    /// Reads the value at `path`. Fails when a key or an index is missing on the way, or when a
    /// value on the way is not a container.
    fn path_get(&self, path: &str) -> (found: Result<&Value, PathError>)
        ensures
            match found {
                Ok(v) => get_at(self@, path_segments(path@)) == Ok::<Json, PathFault>(v@),
                Err(e) => get_at(self@, path_segments(path@)) == Err::<Json, PathFault>(e@),
            },
    ;

    /// Writes `value` at `path`, creating missing object keys on the way. A write that fails
    /// changes nothing.
    fn path_set(&mut self, path: &str, value: Value) -> (done: Result<(), PathError>)
        ensures
            match done {
                Ok(()) => set_at(old(self)@, path_segments(path@), value@) == Ok::<
                    Json,
                    PathFault,
                >(final(self)@),
                Err(e) => final(self)@ == old(self)@ && set_at(
                    old(self)@,
                    path_segments(path@),
                    value@,
                ) == Err::<Json, PathFault>(e@),
            },
    ;

    /// Removes the value at `path`. A removal that fails changes nothing.
    fn path_remove(&mut self, path: &str) -> (done: Result<(), PathError>)
        ensures
            match done {
                Ok(()) => remove_at(old(self)@, path_segments(path@)) == Ok::<Json, PathFault>(
                    final(self)@,
                ),
                Err(e) => final(self)@ == old(self)@ && remove_at(
                    old(self)@,
                    path_segments(path@),
                ) == Err::<Json, PathFault>(e@),
            },
    ;
}

impl ValuePathExt for Value {
    fn path_get(&self, path: &str) -> Result<&Value, PathError> {
        let parts = segments(path);
        let ghost all = text::texts(parts@);
        let mut current: &Value = self;
        let mut i: usize = 0;
        assert(all.skip(0) =~= all);
        while i < parts.len()
            invariant
                i <= parts.len(),
                all == text::texts(parts@),
                get_at(self@, all) == get_at(current@, all.skip(i as int)),
                all == path_segments(path@),
            decreases parts.len() - i,
        {
            let ghost here = all.skip(i as int);
            assert(here[0] == parts@[i as int]@);
            assert(here.drop_first() =~= all.skip(i + 1));
            match step(current, parts[i].as_str()) {
                Ok(next) => {
                    current = next;
                },
                Err(e) => {
                    return Err(e);
                },
            }
            i += 1;
        }
        Ok(current)
    }

    fn path_set(&mut self, path: &str, value: Value) -> Result<(), PathError> {
        let parts = segments(path);
        assert(text::texts(parts@).skip(0) =~= text::texts(parts@));
        set_below(self, &parts, 0, value)
    }

    fn path_remove(&mut self, path: &str) -> Result<(), PathError> {
        let parts = segments(path);
        assert(text::texts(parts@).skip(0) =~= text::texts(parts@));
        remove_below(self, &parts, 0)
    }
}

/// What was written at a path is what is read there.
pub proof fn set_then_get(v: Json, segments: Seq<Seq<char>>, new: Json)
    requires
        set_at(v, segments, new) is Ok,
    ensures
        get_at(set_at(v, segments, new)->Ok_0, segments) == Ok::<Json, PathFault>(new),
    decreases segments.len(),
{
    if segments.len() > 0 {
        let segment = segments[0];
        let rest = segments.drop_first();
        match v {
            Json::Object(map) => {
                let below = if map.contains_key(segment) {
                    map[segment]
                } else {
                    Json::Object(Map::empty())
                };
                set_then_get(below, rest, new);
            },
            Json::Array(items) => {
                if rest.len() > 0 {
                    set_then_get(items[array_position(segment, items.len() as int)->Ok_0], rest, new);
                }
            },
            _ => {},
        }
    }
}

/// Of two writes at one path the second is what stays.
pub proof fn set_twice_keeps_the_last(v: Json, segments: Seq<Seq<char>>, first: Json, second: Json)
    requires
        set_at(v, segments, first) is Ok,
    ensures
        set_at(set_at(v, segments, first)->Ok_0, segments, second) == set_at(v, segments, second),
        set_at(v, segments, second) is Ok,
    decreases segments.len(),
{
    if segments.len() > 0 {
        let segment = segments[0];
        let rest = segments.drop_first();
        match v {
            Json::Object(map) => {
                let below = if map.contains_key(segment) {
                    map[segment]
                } else {
                    Json::Object(Map::empty())
                };
                set_twice_keeps_the_last(below, rest, first, second);
                let a = set_at(below, rest, first)->Ok_0;
                let b = set_at(below, rest, second)->Ok_0;
                assert(map.insert(segment, a).insert(segment, b) =~= map.insert(segment, b));
            },
            Json::Array(items) => {
                if rest.len() == 0 {
                    let i = text::index_of_text(segment)->Some_0 as int;
                    if i < items.len() {
                        assert(items.update(i, first).update(i, second) =~= items.update(i, second));
                    } else {
                        assert(items.push(first).update(i, second) =~= items.push(second));
                    }
                } else {
                    let i = array_position(segment, items.len() as int)->Ok_0;
                    set_twice_keeps_the_last(items[i], rest, first, second);
                    let a = set_at(items[i], rest, first)->Ok_0;
                    let b = set_at(items[i], rest, second)->Ok_0;
                    assert(items.update(i, a).update(i, b) =~= items.update(i, b));
                }
            },
            _ => {},
        }
    }
}

/// Whether two paths part ways below `v`: at some value that both reach they name different
/// children.
pub open spec fn apart(v: Json, p: Seq<Seq<char>>, q: Seq<Seq<char>>) -> bool
    decreases p.len(),
{
    p.len() > 0 && q.len() > 0 && match v {
        Json::Object(map) => p[0] != q[0] || (map.contains_key(p[0]) && apart(
            map[p[0]],
            p.drop_first(),
            q.drop_first(),
        )),
        Json::Array(items) => text::index_of_text(p[0]) != text::index_of_text(q[0]) || (
        array_position(p[0], items.len() as int) is Ok && apart(
            items[array_position(p[0], items.len() as int)->Ok_0],
            p.drop_first(),
            q.drop_first(),
        )),
        _ => false,
    }
}

/// A write leaves alone what stands at a path that parts ways with the path written.
pub proof fn set_leaves_other_paths(v: Json, p: Seq<Seq<char>>, new: Json, q: Seq<Seq<char>>)
    requires
        set_at(v, p, new) is Ok,
        get_at(v, q) is Ok,
        apart(v, p, q),
    ensures
        get_at(set_at(v, p, new)->Ok_0, q) == get_at(v, q),
    decreases p.len(),
{
    match v {
        Json::Object(map) => {
            if p[0] == q[0] {
                set_leaves_other_paths(map[p[0]], p.drop_first(), new, q.drop_first());
            }
        },
        Json::Array(items) => {
            if text::index_of_text(p[0]) == text::index_of_text(q[0]) {
                let i = array_position(p[0], items.len() as int)->Ok_0;
                set_leaves_other_paths(items[i], p.drop_first(), new, q.drop_first());
            }
        },
        _ => {},
    }
}

/// A removal succeeds exactly where a read of a non-empty path does, and fails as the read fails.
pub proof fn remove_fails_as_get_fails(v: Json, segments: Seq<Seq<char>>)
    requires
        segments.len() > 0,
    ensures
        remove_at(v, segments) is Ok <==> get_at(v, segments) is Ok,
        remove_at(v, segments) is Err ==> remove_at(v, segments)->Err_0 == get_at(
            v,
            segments,
        )->Err_0,
    decreases segments.len(),
{
    let rest = segments.drop_first();
    if rest.len() == 0 {
        assert(forall|w: Json| #[trigger] get_at(w, rest) == Ok::<Json, PathFault>(w));
    } else if child(v, segments[0]) is Ok {
        remove_fails_as_get_fails(child(v, segments[0])->Ok_0, rest);
    }
}

/// A removal takes one child out of the container that the rest of the path leads to.
pub proof fn remove_acts_on_the_parent(v: Json, parents: Seq<Seq<char>>, last: Seq<char>)
    requires
        remove_at(v, parents.push(last)) is Ok,
    ensures
        get_at(v, parents) is Ok,
        get_at(remove_at(v, parents.push(last))->Ok_0, parents) == remove_at(
            get_at(v, parents)->Ok_0,
            seq![last],
        ),
    decreases parents.len(),
{
    let path = parents.push(last);
    if parents.len() == 0 {
        assert(path =~= seq![last]);
    } else {
        assert(path.drop_first() =~= parents.drop_first().push(last));
        assert(path[0] == parents[0]);
        assert(path.drop_first().len() > 0);
        remove_acts_on_the_parent(child(v, parents[0])->Ok_0, parents.drop_first(), last);
    }
}

/// What was removed from an object cannot be read any more.
pub proof fn remove_then_get(v: Json, parents: Seq<Seq<char>>, last: Seq<char>)
    requires
        remove_at(v, parents.push(last)) is Ok,
        get_at(v, parents)->Ok_0 is Object,
    ensures
        get_at(remove_at(v, parents.push(last))->Ok_0, parents.push(last)) == Err::<
            Json,
            PathFault,
        >(PathFault::KeyNotFound { key: last }),
    decreases parents.len(),
{
    let path = parents.push(last);
    assert(path.drop_first().len() == parents.len());
    if parents.len() > 0 {
        assert(path.drop_first() =~= parents.drop_first().push(last));
        assert(path[0] == parents[0]);
        remove_then_get(child(v, parents[0])->Ok_0, parents.drop_first(), last);
    }
}

/// Removing a value that a write has just added to an existing container restores the tree.
pub proof fn remove_undoes_a_fresh_set(
    v: Json,
    parents: Seq<Seq<char>>,
    last: Seq<char>,
    new: Json,
)
    requires
        get_at(v, parents) is Ok,
        get_at(v, parents.push(last)) is Err,
        set_at(v, parents.push(last), new) is Ok,
    ensures
        remove_at(set_at(v, parents.push(last), new)->Ok_0, parents.push(last)) == Ok::<
            Json,
            PathFault,
        >(v),
    decreases parents.len(),
{
    let path = parents.push(last);
    let rest = path.drop_first();
    assert(rest.len() == parents.len());
    if parents.len() == 0 {
        reveal_with_fuel(set_at, 2);
        assert(path[0] == last);
        if child(v, last) is Ok {
            assert(get_at(child(v, last)->Ok_0, rest) is Ok);
        }
        match v {
            Json::Object(map) => {
                assert(map.insert(last, new).remove(last) =~= map);
            },
            Json::Array(items) => {
                assert(items.push(new).remove(items.len() as int) =~= items);
            },
            _ => {},
        }
    } else {
        assert(rest =~= parents.drop_first().push(last));
        assert(path[0] == parents[0]);
        let below = child(v, parents[0])->Ok_0;
        remove_undoes_a_fresh_set(below, parents.drop_first(), last, new);
        let written = set_at(below, rest, new)->Ok_0;
        match v {
            Json::Object(map) => {
                assert(map.insert(path[0], written).insert(path[0], below) =~= map);
            },
            Json::Array(items) => {
                let i = array_position(path[0], items.len() as int)->Ok_0;
                assert(items.update(i, written).update(i, below) =~= items);
            },
            _ => {},
        }
    }
}

/// Below a key that an object does not hold every write succeeds.
pub proof fn set_creates_missing_keys(
    map: Map<Seq<char>, Json>,
    segments: Seq<Seq<char>>,
    new: Json,
)
    requires
        segments.len() > 0,
        !map.contains_key(segments[0]),
    ensures
        set_at(Json::Object(map), segments, new) is Ok,
    decreases segments.len(),
{
    let rest = segments.drop_first();
    reveal_with_fuel(set_at, 2);
    if rest.len() > 0 {
        set_creates_missing_keys(Map::empty(), rest, new);
    }
}

/// The segments of two paths with a dot between them are those of the one and those of the other;
/// a text without a dot is one segment, unless it is empty.
pub proof fn segments_lie_between_dots(a: Seq<char>, b: Seq<char>, key: Seq<char>)
    ensures
        path_segments(a.push('.') + b) == path_segments(a) + path_segments(b),
        !key.contains('.') && key.len() > 0 ==> path_segments(key) == seq![key],
        path_segments(Seq::<char>::empty()).len() == 0,
{
    text::pieces_of_two_texts(a, b, '.');
    text::only_empty_pieces_go(text::split_on(a, '.'), text::split_on(b, '.'), key);
    if !key.contains('.') {
        text::unbroken_text_is_one_piece(key, '.');
    }
    let nothing = Seq::<char>::empty();
    text::unbroken_text_is_one_piece(nothing, '.');
    text::only_empty_pieces_go(Seq::empty(), Seq::empty(), nothing);
}

/// Reading goes down one segment after the other: what stands at a longer path is the child of
/// what stands at the shorter one. In an object the segment is a key; in an array it is the
/// number of an item, counted from zero; nothing else has children.
pub proof fn reading_goes_down_step_by_step(v: Json, parents: Seq<Seq<char>>, last: Seq<char>)
    ensures
        get_at(v, Seq::<Seq<char>>::empty()) == Ok::<Json, PathFault>(v),
        get_at(v, parents.push(last)) == (match get_at(v, parents) {
            Err(fault) => Err::<Json, PathFault>(fault),
            Ok(Json::Object(map)) => if map.contains_key(last) {
                Ok(map[last])
            } else {
                Err(PathFault::KeyNotFound { key: last })
            },
            Ok(Json::Array(items)) => match text::index_of_text(last) {
                None => Err(PathFault::NonIntegerIndex { segment: last }),
                Some(i) => if i < items.len() {
                    Ok(items[i as int])
                } else {
                    Err(PathFault::IndexOutOfBounds { index: i as int, len: items.len() as int })
                },
            },
            Ok(_) => Err(PathFault::NotContainer { segment: last }),
        }),
    decreases parents.len(),
{
    let path = parents.push(last);
    if parents.len() == 0 {
        assert(path.drop_first().len() == 0);
        assert(path[0] == last);
        match child(v, last) {
            Ok(next) => {
                assert(get_at(next, path.drop_first()) == Ok::<Json, PathFault>(next));
            },
            Err(_) => {},
        }
    } else {
        assert(path[0] == parents[0]);
        assert(path.drop_first() =~= parents.drop_first().push(last));
        match child(v, parents[0]) {
            Ok(next) => {
                reading_goes_down_step_by_step(next, parents.drop_first(), last);
            },
            Err(_) => {},
        }
    }
}

/// Removing an item from an array closes the gap: the array is one shorter, the items before the
/// place stay where they are, and those behind it move up by one, in their order.
pub proof fn removing_an_item_closes_the_gap(
    v: Json,
    parents: Seq<Seq<char>>,
    last: Seq<char>,
    j: int,
)
    requires
        get_at(v, parents) is Ok,
        get_at(v, parents)->Ok_0 is Array,
        text::index_of_text(last) is Some,
        text::index_of_text(last)->Some_0 < get_at(v, parents)->Ok_0->Array_0.len(),
    ensures
        remove_at(v, parents.push(last)) is Ok,
        ({
            let items = get_at(v, parents)->Ok_0->Array_0;
            let left = get_at(remove_at(v, parents.push(last))->Ok_0, parents);
            let place = text::index_of_text(last)->Some_0;
            &&& left is Ok && left->Ok_0 is Array
            &&& left->Ok_0->Array_0.len() == items.len() - 1
            &&& 0 <= j < place ==> left->Ok_0->Array_0[j] == items[j]
            &&& place <= j < items.len() - 1 ==> left->Ok_0->Array_0[j] == items[j + 1]
        }),
{
    reading_goes_down_step_by_step(v, parents, last);
    remove_fails_as_get_fails(v, parents.push(last));
    remove_acts_on_the_parent(v, parents, last);
    let items = get_at(v, parents)->Ok_0->Array_0;
    assert(seq![last].drop_first().len() == 0);
    assert(seq![last][0] == last);
}

/// Removing a key from an object takes out that key alone.
pub proof fn removing_a_key_leaves_the_others(
    v: Json,
    parents: Seq<Seq<char>>,
    last: Seq<char>,
    key: Seq<char>,
)
    requires
        get_at(v, parents) is Ok,
        get_at(v, parents)->Ok_0 is Object,
        get_at(v, parents)->Ok_0->Object_0.contains_key(last),
    ensures
        remove_at(v, parents.push(last)) is Ok,
        ({
            let map = get_at(v, parents)->Ok_0->Object_0;
            let left = get_at(remove_at(v, parents.push(last))->Ok_0, parents);
            &&& left is Ok && left->Ok_0 is Object
            &&& left->Ok_0->Object_0.contains_key(key) <==> map.contains_key(key) && key != last
            &&& map.contains_key(key) && key != last ==> left->Ok_0->Object_0[key] == map[key]
        }),
{
    reading_goes_down_step_by_step(v, parents, last);
    remove_fails_as_get_fails(v, parents.push(last));
    remove_acts_on_the_parent(v, parents, last);
    assert(seq![last].drop_first().len() == 0);
    assert(seq![last][0] == last);
}

/// A removal leaves alone what stands at a path that parts ways with the way to the container.
pub proof fn remove_leaves_other_paths(
    v: Json,
    parents: Seq<Seq<char>>,
    last: Seq<char>,
    q: Seq<Seq<char>>,
)
    requires
        remove_at(v, parents.push(last)) is Ok,
        apart(v, parents, q),
    ensures
        get_at(remove_at(v, parents.push(last))->Ok_0, q) == get_at(v, q),
    decreases parents.len(),
{
    let path = parents.push(last);
    assert(path[0] == parents[0]);
    assert(path.drop_first() =~= parents.drop_first().push(last));
    assert(path.drop_first().len() > 0);
    let left = remove_at(v, path)->Ok_0;
    match v {
        Json::Object(map) => {
            if parents[0] == q[0] {
                remove_leaves_other_paths(
                    map[parents[0]],
                    parents.drop_first(),
                    last,
                    q.drop_first(),
                );
            } else {
                assert(child(left, q[0]) == child(v, q[0]));
            }
        },
        Json::Array(items) => {
            let i = array_position(parents[0], items.len() as int)->Ok_0;
            if text::index_of_text(parents[0]) == text::index_of_text(q[0]) {
                remove_leaves_other_paths(items[i], parents.drop_first(), last, q.drop_first());
            } else {
                assert(child(left, q[0]) == child(v, q[0]));
            }
        },
        _ => {},
    }
}

/// Containers on the way to what is removed keep their keys and their lengths.
pub proof fn removing_keeps_the_way(v: Json, parents: Seq<Seq<char>>, last: Seq<char>, n: int)
    requires
        remove_at(v, parents.push(last)) is Ok,
        0 <= n < parents.len(),
    ensures
        ({
            let before = get_at(v, parents.take(n));
            let after = get_at(remove_at(v, parents.push(last))->Ok_0, parents.take(n));
            &&& before is Ok && after is Ok
            &&& before->Ok_0 is Object <==> after->Ok_0 is Object
            &&& before->Ok_0 is Object ==> after->Ok_0->Object_0.dom()
                == before->Ok_0->Object_0.dom()
            &&& before->Ok_0 is Array <==> after->Ok_0 is Array
            &&& before->Ok_0 is Array ==> after->Ok_0->Array_0.len() == before->Ok_0->Array_0.len()
        }),
    decreases parents.len(),
{
    let path = parents.push(last);
    assert(path[0] == parents[0]);
    assert(path.drop_first() =~= parents.drop_first().push(last));
    assert(path.drop_first().len() > 0);
    let left = remove_at(v, path)->Ok_0;
    if n == 0 {
        assert(parents.take(0).len() == 0);
        if let Json::Object(map) = v {
            assert(left->Object_0.dom() =~= map.dom());
        }
    } else {
        let way = parents.take(n);
        assert(way[0] == parents[0]);
        assert(way.drop_first() =~= parents.drop_first().take(n - 1));
        let below = child(v, parents[0])->Ok_0;
        removing_keeps_the_way(below, parents.drop_first(), last, n - 1);
        assert(child(left, way[0]) == remove_at(below, path.drop_first()));
    }
}

/// Writing acts on the container that the rest of the path leads to. An object gets or replaces
/// that key alone. An array replaces that item alone, or takes the value behind its last item;
/// it refuses a place further on. Any other value takes nothing.
pub proof fn writing_acts_on_the_parent(
    v: Json,
    parents: Seq<Seq<char>>,
    last: Seq<char>,
    new: Json,
)
    requires
        get_at(v, parents) is Ok,
    ensures
        ({
            let written = set_at(v, parents.push(last), new);
            let after = get_at(written->Ok_0, parents);
            match get_at(v, parents)->Ok_0 {
                Json::Object(map) => {
                    &&& written is Ok && after is Ok && after->Ok_0 is Object
                    &&& forall|key: Seq<char>|
                        {
                            &&& #[trigger] after->Ok_0->Object_0.contains_key(key) <==> key == last
                                || map.contains_key(key)
                            &&& key != last && map.contains_key(key) ==> after->Ok_0->Object_0[key]
                                == map[key]
                        }
                    &&& after->Ok_0->Object_0[last] == new
                },
                Json::Array(items) => match text::index_of_text(last) {
                    None => written == Err::<Json, PathFault>(
                        PathFault::NonIntegerIndex { segment: last },
                    ),
                    Some(i) => if i > items.len() {
                        written == Err::<Json, PathFault>(
                            PathFault::AssignOutOfBounds {
                                index: i as int,
                                len: items.len() as int,
                            },
                        )
                    } else {
                        &&& written is Ok && after is Ok && after->Ok_0 is Array
                        &&& after->Ok_0->Array_0.len() == (if i == items.len() {
                            items.len() + 1
                        } else {
                            items.len()
                        })
                        &&& after->Ok_0->Array_0[i as int] == new
                        &&& forall|j: int|
                            0 <= j < items.len() && j != i ==> #[trigger] after->Ok_0->Array_0[j]
                                == items[j]
                    },
                },
                _ => written == Err::<Json, PathFault>(PathFault::NotContainer { segment: last }),
            }
        }),
    decreases parents.len(),
{
    let path = parents.push(last);
    assert(path.drop_first().len() == parents.len());
    if parents.len() == 0 {
        assert(path[0] == last);
        assert forall|w: Json| #[trigger] set_at(w, path.drop_first(), new) == Ok::<Json, PathFault>(
            new,
        ) by {}
        match v {
            Json::Object(map) => {
                let below = if map.contains_key(last) {
                    map[last]
                } else {
                    Json::Object(Map::empty())
                };
                assert(set_at(below, path.drop_first(), new) == Ok::<Json, PathFault>(new));
                assert(set_at(v, path, new) == Ok::<Json, PathFault>(
                    Json::Object(map.insert(last, new)),
                ));
            },
            _ => {},
        }
    } else {
        assert(path[0] == parents[0]);
        assert(path.drop_first() =~= parents.drop_first().push(last));
        let below = child(v, parents[0])->Ok_0;
        writing_acts_on_the_parent(below, parents.drop_first(), last, new);
        let inner = set_at(below, path.drop_first(), new);
        if inner is Ok {
            assert(child(set_at(v, path, new)->Ok_0, parents[0]) == inner);
        }
    }
}

/// The empty path writes the root, and has nothing to remove the root from.
pub proof fn the_empty_path_is_the_root(v: Json, new: Json)
    ensures
        set_at(v, Seq::<Seq<char>>::empty(), new) == Ok::<Json, PathFault>(new),
        remove_at(v, Seq::<Seq<char>>::empty()) == Err::<Json, PathFault>(PathFault::RemoveRoot),
{
}

/// Where an object lacks the next key, writing creates the rest of the way: one object in the
/// other, each with the next segment as its only key, down to the value.
pub proof fn writing_creates_the_way(
    map: Map<Seq<char>, Json>,
    segments: Seq<Seq<char>>,
    new: Json,
    n: int,
)
    requires
        0 < n < segments.len(),
        !map.contains_key(segments[0]),
    ensures
        ({
            let written = set_at(Json::Object(map), segments, new);
            let made = get_at(written->Ok_0, segments.take(n));
            &&& written is Ok
            &&& made is Ok && made->Ok_0 is Object
            &&& made->Ok_0->Object_0.dom() == set![segments[n]]
        }),
    decreases n,
{
    let rest = segments.drop_first();
    let way = segments.take(n);
    set_creates_missing_keys(map, segments, new);
    set_creates_missing_keys(Map::empty(), rest, new);
    let below = set_at(Json::Object(Map::empty()), rest, new)->Ok_0;
    let written = set_at(Json::Object(map), segments, new)->Ok_0;
    assert(written == Json::Object(map.insert(segments[0], below)));
    assert(way[0] == segments[0]);
    assert(way.drop_first() =~= rest.take(n - 1));
    assert(child(written, way[0]) == Ok::<Json, PathFault>(below));
    assert(rest[0] == segments[1]);
    if n == 1 {
        assert(rest.take(0).len() == 0);
        assert(below->Object_0.dom() =~= set![segments[1]]);
    } else {
        writing_creates_the_way(Map::empty(), rest, new, n - 1);
        assert(rest[n - 1] == segments[n]);
    }
}

/// A write that goes through containers that are there changes neither their keys nor their
/// lengths.
pub proof fn writing_keeps_the_way(
    v: Json,
    parents: Seq<Seq<char>>,
    last: Seq<char>,
    new: Json,
    n: int,
)
    requires
        get_at(v, parents) is Ok,
        set_at(v, parents.push(last), new) is Ok,
        0 <= n < parents.len(),
    ensures
        ({
            let before = get_at(v, parents.take(n));
            let after = get_at(set_at(v, parents.push(last), new)->Ok_0, parents.take(n));
            &&& before is Ok && after is Ok
            &&& before->Ok_0 is Object <==> after->Ok_0 is Object
            &&& before->Ok_0 is Object ==> after->Ok_0->Object_0.dom()
                == before->Ok_0->Object_0.dom()
            &&& before->Ok_0 is Array <==> after->Ok_0 is Array
            &&& before->Ok_0 is Array ==> after->Ok_0->Array_0.len() == before->Ok_0->Array_0.len()
        }),
    decreases parents.len(),
{
    let path = parents.push(last);
    assert(path[0] == parents[0]);
    assert(path.drop_first() =~= parents.drop_first().push(last));
    assert(path.drop_first().len() > 0);
    let written = set_at(v, path, new)->Ok_0;
    if n == 0 {
        assert(parents.take(0).len() == 0);
        if let Json::Object(map) = v {
            assert(written->Object_0.dom() =~= map.dom());
        }
    } else {
        let way = parents.take(n);
        assert(way[0] == parents[0]);
        assert(way.drop_first() =~= parents.drop_first().take(n - 1));
        let below = child(v, parents[0])->Ok_0;
        writing_keeps_the_way(below, parents.drop_first(), last, new, n - 1);
        assert(child(written, way[0]) == set_at(below, path.drop_first(), new));
    }
}

/// A read at a longer path gives a child of what a read at the shorter one gives, and fails exactly
/// if the shorter one does or there is no such child.
pub proof fn reads_at_longer_paths_give_children(
    root: &Value,
    path: &str,
    segment: Seq<char>,
    longer: &str,
    above: Result<&Value, PathError>,
    found: Result<&Value, PathError>,
)
    requires
        call_ensures(Value::path_get, (root, path), above),
        call_ensures(Value::path_get, (root, longer), found),
        segment.len() > 0,
        !segment.contains('.'),
        longer@ == path@.push('.') + segment,
    ensures
        above is Err ==> found is Err && found->Err_0@ == above->Err_0@,
        above is Ok ==> match above->Ok_0@ {
            Json::Object(map) => if map.contains_key(segment) {
                found is Ok && found->Ok_0@ == map[segment]
            } else {
                found is Err && found->Err_0@ == (PathFault::KeyNotFound { key: segment })
            },
            Json::Array(items) => match text::index_of_text(segment) {
                Some(i) => if i < items.len() {
                    found is Ok && found->Ok_0@ == items[i as int]
                } else {
                    found is Err && found->Err_0@ == (PathFault::IndexOutOfBounds {
                        index: i as int,
                        len: items.len() as int,
                    })
                },
                None => found is Err && found->Err_0@ == (PathFault::NonIntegerIndex { segment }),
            },
            _ => found is Err && found->Err_0@ == (PathFault::NotContainer { segment }),
        },
{
    segments_lie_between_dots(path@, segment, segment);
    let above_segments = path_segments(path@);
    assert(above_segments + seq![segment] =~= above_segments.push(segment));
    reading_goes_down_step_by_step(root@, above_segments, segment);
}

/// The empty path reads the whole value.
pub proof fn the_empty_path_reads_the_whole(
    root: &Value,
    path: &str,
    found: Result<&Value, PathError>,
)
    requires
        call_ensures(Value::path_get, (root, path), found),
        path@.len() == 0,
    ensures
        found is Ok,
        found->Ok_0@ == root@,
{
    assert(path@ =~= Seq::<char>::empty());
    segments_lie_between_dots(path@, path@, path@);
    assert(path_segments(path@) =~= Seq::<Seq<char>>::empty());
}

/// A value that was set at a path is read there; a failed write changes nothing.
pub proof fn what_was_set_is_read(
    value: &mut Value,
    path: &str,
    new: Value,
    done: Result<(), PathError>,
    after: &Value,
    found: Result<&Value, PathError>,
)
    requires
        call_ensures(Value::path_set, (value, path, new), done),
        after@ == final(value)@,
        call_ensures(Value::path_get, (after, path), found),
    ensures
        done is Ok ==> found is Ok && found->Ok_0@ == new@,
        done is Err ==> final(value)@ == old(value)@,
{
    if done is Ok {
        set_then_get(old(value)@, path_segments(path@), new@);
    }
}

/// Removing item `i` of an array that a path leads to leaves the array one shorter: the items before
/// it stay, and those behind it move up by one and keep their order.
pub proof fn removing_by_index_closes_the_gap(
    value: &mut Value,
    before: &Value,
    parent: &str,
    i: usize,
    path: &str,
    done: Result<(), PathError>,
    after: &Value,
    was: Result<&Value, PathError>,
    now: Result<&Value, PathError>,
    j: int,
)
    requires
        before@ == old(value)@,
        after@ == final(value)@,
        call_ensures(Value::path_get, (before, parent), was),
        was is Ok && was->Ok_0@ is Array && i < was->Ok_0@->Array_0.len(),
        path@ == parent@.push('.') + text::digits(i as nat),
        call_ensures(Value::path_remove, (value, path), done),
        call_ensures(Value::path_get, (after, parent), now),
    ensures
        done is Ok,
        now is Ok && now->Ok_0@ is Array,
        now->Ok_0@->Array_0.len() == was->Ok_0@->Array_0.len() - 1,
        0 <= j < i ==> now->Ok_0@->Array_0[j] == was->Ok_0@->Array_0[j],
        i <= j < was->Ok_0@->Array_0.len() - 1 ==> now->Ok_0@->Array_0[j]
            == was->Ok_0@->Array_0[j + 1],
{
    let last = text::digits(i as nat);
    number_is_a_segment(i as nat);
    text::indices_read_back(i, Seq::empty(), 0);
    segments_lie_between_dots(parent@, last, last);
    let parents = path_segments(parent@);
    assert(parents + seq![last] =~= parents.push(last));
    removing_an_item_closes_the_gap(old(value)@, parents, last, j);
}

proof fn number_is_a_segment(n: nat)
    ensures
        text::digits(n).len() > 0,
        !text::digits(n).contains('.'),
{
    text::digits_read_back(n);
    let written = text::digits(n);
    if written.contains('.') {
        let k = choose|k: int| 0 <= k < written.len() && written[k] == '.';
        assert(text::is_digit(written[k]));
    }
}

/// Removing a key of an object that a path leads to takes out that key alone.
pub proof fn removing_by_key_keeps_the_other_keys(
    value: &mut Value,
    before: &Value,
    parent: &str,
    key: Seq<char>,
    path: &str,
    done: Result<(), PathError>,
    after: &Value,
    was: Result<&Value, PathError>,
    now: Result<&Value, PathError>,
    other: Seq<char>,
)
    requires
        before@ == old(value)@,
        after@ == final(value)@,
        call_ensures(Value::path_get, (before, parent), was),
        was is Ok && was->Ok_0@ is Object && was->Ok_0@->Object_0.contains_key(key),
        key.len() > 0,
        !key.contains('.'),
        path@ == parent@.push('.') + key,
        call_ensures(Value::path_remove, (value, path), done),
        call_ensures(Value::path_get, (after, parent), now),
    ensures
        done is Ok,
        now is Ok && now->Ok_0@ is Object,
        now->Ok_0@->Object_0.contains_key(other) <==> was->Ok_0@->Object_0.contains_key(other)
            && other != key,
        was->Ok_0@->Object_0.contains_key(other) && other != key ==> now->Ok_0@->Object_0[other]
            == was->Ok_0@->Object_0[other],
{
    segments_lie_between_dots(parent@, key, key);
    let parents = path_segments(parent@);
    assert(parents + seq![key] =~= parents.push(key));
    removing_a_key_leaves_the_others(old(value)@, parents, key, other);
}

/// Setting item `i` of an array that a path leads to replaces that item alone, or adds one behind
/// the last; a place further on is refused.
pub proof fn setting_by_index_touches_one_item(
    value: &mut Value,
    before: &Value,
    parent: &str,
    i: usize,
    path: &str,
    new: Value,
    done: Result<(), PathError>,
    after: &Value,
    was: Result<&Value, PathError>,
    now: Result<&Value, PathError>,
    j: int,
)
    requires
        before@ == old(value)@,
        after@ == final(value)@,
        call_ensures(Value::path_get, (before, parent), was),
        was is Ok && was->Ok_0@ is Array,
        path@ == parent@.push('.') + text::digits(i as nat),
        call_ensures(Value::path_set, (value, path, new), done),
        call_ensures(Value::path_get, (after, parent), now),
    ensures
        done is Ok <==> i <= was->Ok_0@->Array_0.len(),
        done is Ok ==> now is Ok && now->Ok_0@ is Array && now->Ok_0@->Array_0[i as int] == new@,
        done is Ok ==> now->Ok_0@->Array_0.len() == (if i == was->Ok_0@->Array_0.len() {
            was->Ok_0@->Array_0.len() + 1
        } else {
            was->Ok_0@->Array_0.len()
        }),
        done is Ok && 0 <= j < was->Ok_0@->Array_0.len() && j != i ==> now->Ok_0@->Array_0[j]
            == was->Ok_0@->Array_0[j],
        done is Err ==> done->Err_0@ == (PathFault::AssignOutOfBounds {
            index: i as int,
            len: was->Ok_0@->Array_0.len() as int,
        }),
{
    let last = text::digits(i as nat);
    number_is_a_segment(i as nat);
    text::indices_read_back(i, Seq::empty(), 0);
    segments_lie_between_dots(parent@, last, last);
    let parents = path_segments(parent@);
    assert(parents + seq![last] =~= parents.push(last));
    writing_acts_on_the_parent(old(value)@, parents, last, new@);
}

/// Setting a key of an object that a path leads to always succeeds, and touches that key alone.
pub proof fn setting_by_key_keeps_the_other_keys(
    value: &mut Value,
    before: &Value,
    parent: &str,
    key: Seq<char>,
    path: &str,
    new: Value,
    done: Result<(), PathError>,
    after: &Value,
    was: Result<&Value, PathError>,
    now: Result<&Value, PathError>,
    other: Seq<char>,
)
    requires
        before@ == old(value)@,
        after@ == final(value)@,
        call_ensures(Value::path_get, (before, parent), was),
        was is Ok && was->Ok_0@ is Object,
        key.len() > 0,
        !key.contains('.'),
        path@ == parent@.push('.') + key,
        call_ensures(Value::path_set, (value, path, new), done),
        call_ensures(Value::path_get, (after, parent), now),
    ensures
        done is Ok,
        now is Ok && now->Ok_0@ is Object,
        now->Ok_0@->Object_0.contains_key(key) && now->Ok_0@->Object_0[key] == new@,
        other != key ==> (now->Ok_0@->Object_0.contains_key(other)
            <==> was->Ok_0@->Object_0.contains_key(other)),
        other != key && was->Ok_0@->Object_0.contains_key(other) ==> now->Ok_0@->Object_0[other]
            == was->Ok_0@->Object_0[other],
{
    segments_lie_between_dots(parent@, key, key);
    let parents = path_segments(parent@);
    assert(parents + seq![key] =~= parents.push(key));
    writing_acts_on_the_parent(old(value)@, parents, key, new@);
    assert(was->Ok_0@->Object_0.contains_key(other) ==> now->Ok_0@->Object_0.contains_key(other));
}

} // verus!
