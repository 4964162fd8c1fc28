//! File paths with `/` between their parts.
//!
//! Paths are texts of this form on every host. A host that separates the parts of its own paths in
//! another way writes them in this form before it hands them over.
use vstd::prelude::*;
use vstd::string::*;

use crate::text;

verus! {

/// Whether a part of a path names something: it is neither empty nor the current directory.
pub open spec fn is_name(part: Seq<char>) -> bool {
    part.len() > 0 && part != seq!['.']
}

/// How many of the parts there are up to the last one that names something.
pub open spec fn named_len(parts: Seq<Seq<char>>) -> nat
    decreases parts.len(),
{
    if parts.len() == 0 {
        0
    } else if is_name(parts.last()) {
        parts.len()
    } else {
        named_len(parts.drop_last())
    }
}

/// The last part of a path that names something, unless it goes up to a parent directory.
pub open spec fn file_name_of(path: Seq<char>) -> Option<Seq<char>> {
    let parts = text::split_on(path, '/');
    let n = named_len(parts);
    if n == 0 || parts[n - 1] == seq!['.', '.'] {
        None
    } else {
        Some(parts[n - 1])
    }
}

/// The parts of a file name between its dots, if the name has an extension: a dot that is not its
/// first character.
pub open spec fn dotted(name: Seq<char>) -> Option<Seq<Seq<char>>> {
    let pieces = text::split_on(name, '.');
    if pieces.len() > 1 && text::joined(pieces.drop_last(), seq!['.']).len() > 0 {
        Some(pieces)
    } else {
        None
    }
}

/// A file name without its extension.
pub open spec fn stem_of_name(name: Seq<char>) -> Seq<char> {
    match dotted(name) {
        Some(pieces) => text::joined(pieces.drop_last(), seq!['.']),
        None => name,
    }
}

/// The file name of a path, without its extension.
pub open spec fn file_stem_of(path: Seq<char>) -> Option<Seq<char>> {
    match file_name_of(path) {
        Some(name) => Some(stem_of_name(name)),
        None => None,
    }
}

/// What follows the last dot of the file name of a path.
pub open spec fn extension_of(path: Seq<char>) -> Option<Seq<char>> {
    match file_name_of(path) {
        Some(name) => match dotted(name) {
            Some(pieces) => Some(pieces.last()),
            None => None,
        },
        None => None,
    }
}

/// `rel` seen from the directory `base`; an absolute path stands for itself.
pub open spec fn joined_path(base: Seq<char>, rel: Seq<char>) -> Seq<char> {
    if rel.len() > 0 && rel[0] == '/' {
        rel
    } else if base.len() > 0 && base.last() != '/' {
        base + seq!['/'] + rel
    } else {
        base + rel
    }
}

/// Those of the parts that name something, a parent directory among them.
pub open spec fn named_parts(parts: Seq<Seq<char>>) -> Seq<Seq<char>>
    decreases parts.len(),
{
    if parts.len() == 0 {
        Seq::empty()
    } else if is_name(parts.last()) {
        named_parts(parts.drop_last()).push(parts.last())
    } else {
        named_parts(parts.drop_last())
    }
}

/// What a path is made of: the root or, at the start of a relative path, the current directory, and
/// the parts that name something. Two texts are one path exactly if these agree, so repeated
/// slashes, a slash at the end and other dots do not count.
pub open spec fn components_of(path: Seq<char>) -> Seq<Seq<char>> {
    let parts = text::split_on(path, '/');
    if path.len() > 0 && path[0] == '/' {
        seq![seq!['/']] + named_parts(parts)
    } else if parts[0] == seq!['.'] {
        seq![seq!['.']] + named_parts(parts)
    } else {
        named_parts(parts)
    }
}

/// The directory that the last part of a path lies in: what stands before that part, up to the part
/// before it. A path that is the root, or empty, lies in none, and the current directory stands in.
pub open spec fn directory_of(path: Seq<char>) -> Seq<char> {
    let parts = text::split_on(path, '/');
    let n = named_len(parts);
    if n == 0 {
        if parts[0] == seq!['.'] {
            Seq::empty()
        } else {
            seq!['.']
        }
    } else {
        let m = named_len(parts.take(n - 1));
        if m > 0 {
            text::joined(parts.take(m as int), seq!['/'])
        } else if path.len() > 0 && path[0] == '/' {
            seq!['/']
        } else if parts[0] == seq!['.'] {
            seq!['.']
        } else {
            Seq::empty()
        }
    }
}

/// The path with `extension` put on its file name, if it has a file name without an extension.
pub open spec fn with_extension_if_none(path: Seq<char>, extension: Seq<char>) -> Seq<char> {
    if extension_of(path) is None && file_name_of(path) is Some {
        let parts = text::split_on(path, '/');
        text::joined(parts.take(named_len(parts) as int), seq!['/']) + seq!['.'] + extension
    } else {
        path
    }
}

fn part_is_name(part: &str) -> (named: bool)
    ensures
        named == is_name(part@),
{
    let chars = text::chars_of(part);
    if chars.len() == 0 {
        return false;
    }
    let dot: bool = chars.len() == 1 && chars[0] == '.';
    assert(dot == (part@ =~= seq!['.']));
    !dot
}

fn count_named(parts: &Vec<String>) -> (n: usize)
    ensures
        n == named_len(text::texts(parts@)),
        n <= parts.len(),
{
    let ghost all = text::texts(parts@);
    let mut n: usize = parts.len();
    assert(all.take(n as int) =~= all);
    while n > 0
        invariant
            n <= parts.len(),
            all == text::texts(parts@),
            named_len(all) == named_len(all.take(n as int)),
        decreases n,
    {
        let ghost here = all.take(n as int);
        assert(here.last() == parts@[n - 1]@);
        assert(here.drop_last() =~= all.take(n - 1));
        if part_is_name(parts[n - 1].as_str()) {
            return n;
        }
        n -= 1;
    }
    n
}

/// The last part of a path that names something, unless it goes up to a parent directory.
pub fn file_name(path: &str) -> (name: Option<String>)
    ensures
        match name {
            Some(s) => file_name_of(path@) == Some(s@),
            None => file_name_of(path@) is None,
        },
{
    let parts = text::split(path, '/');
    let n: usize = count_named(&parts);
    if n == 0 {
        return None;
    }
    let chars = text::chars_of(parts[n - 1].as_str());
    assert(text::texts(parts@)[n - 1] == parts@[n - 1]@);
    let up: bool = chars.len() == 2 && chars[0] == '.' && chars[1] == '.';
    assert(up == (parts@[n - 1]@ =~= seq!['.', '.']));
    if up {
        None
    } else {
        Some(parts[n - 1].clone())
    }
}

/// A file name cut at its last dot into stem and extension.
fn split_name(name: &str) -> (halves: (String, Option<String>))
    ensures
        halves.0@ == stem_of_name(name@),
        match halves.1 {
            Some(e) => dotted(name@) is Some && e@ == dotted(name@)->Some_0.last(),
            None => dotted(name@) is None,
        },
{
    let pieces = text::split(name, '.');
    let ghost all = text::texts(pieces@);
    let last: usize = pieces.len() - 1;
    proof {
        reveal_strlit(".");
        assert("."@ =~= seq!['.']);
        assert(all.take(last as int) =~= all.drop_last());
        assert(all.last() == pieces@[last as int]@);
    }
    if last == 0 {
        return (name.to_owned(), None);
    }
    let stem = text::join_first(&pieces, last, ".");
    if stem.as_str().is_empty() {
        return (name.to_owned(), None);
    }
    (stem, Some(pieces[last].clone()))
}

/// The file name of a path, without its extension.
pub fn file_stem(path: &str) -> (stem: Option<String>)
    ensures
        match stem {
            Some(s) => file_stem_of(path@) == Some(s@),
            None => file_stem_of(path@) is None,
        },
{
    match file_name(path) {
        Some(name) => Some(split_name(name.as_str()).0),
        None => None,
    }
}

/// What follows the last dot of the file name of a path.
pub fn extension(path: &str) -> (ext: Option<String>)
    ensures
        match ext {
            Some(s) => extension_of(path@) == Some(s@),
            None => extension_of(path@) is None,
        },
{
    match file_name(path) {
        Some(name) => split_name(name.as_str()).1,
        None => None,
    }
}

/// `rel` seen from the directory `base`; an absolute path stands for itself.
pub fn join(base: &str, rel: &str) -> (path: String)
    ensures
        path@ == joined_path(base@, rel@),
{
    proof {
        reveal_strlit("/");
        assert("/"@ =~= seq!['/']);
    }
    let rel_chars = text::chars_of(rel);
    if rel_chars.len() > 0 && rel_chars[0] == '/' {
        return rel.to_owned();
    }
    let base_chars = text::chars_of(base);
    let mut path = base.to_owned();
    if base_chars.len() > 0 && base_chars[base_chars.len() - 1] != '/' {
        path.append("/");
    }
    path.append(rel);
    path
}

/// What a path is made of.
pub fn components(path: &str) -> (made_of: Vec<String>)
    ensures
        text::texts(made_of@) == components_of(path@),
{
    proof {
        reveal_strlit("/");
        reveal_strlit(".");
        assert("/"@ =~= seq!['/']);
        assert("."@ =~= seq!['.']);
    }
    let chars = text::chars_of(path);
    let parts = text::split(path, '/');
    let ghost all = text::texts(parts@);
    let mut made_of: Vec<String> = Vec::new();
    if chars.len() > 0 && chars[0] == '/' {
        made_of.push("/".to_owned());
    } else if text::same_text(parts[0].as_str(), ".") {
        made_of.push(".".to_owned());
    }
    let ghost start = text::texts(made_of@);
    let mut i: usize = 0;
    assert(all[0] == parts@[0]@);
    assert(start + named_parts(all.take(0)) =~= start);
    while i < parts.len()
        invariant
            i <= parts.len(),
            all == text::texts(parts@),
            text::texts(made_of@) == start + named_parts(all.take(i as int)),
        decreases parts.len() - i,
    {
        let ghost before = made_of@;
        assert(all.take(i + 1).drop_last() =~= all.take(i as int));
        assert(all.take(i + 1).last() == parts@[i as int]@);
        if part_is_name(parts[i].as_str()) {
            made_of.push(parts[i].clone());
            assert(text::texts(made_of@) =~= text::texts(before).push(parts@[i as int]@));
            assert(text::texts(made_of@) =~= start + named_parts(all.take(i + 1)));
        }
        i += 1;
    }
    proof {
        assert(all.take(all.len() as int) =~= all);
        assert(start =~= (if path@.len() > 0 && path@[0] == '/' {
            seq![seq!['/']]
        } else if all[0] == seq!['.'] {
            seq![seq!['.']]
        } else {
            Seq::empty()
        }));
        assert(text::texts(made_of@) =~= components_of(path@));
    }
    made_of
}

/// Whether two texts are one path.
pub fn same_path(a: &str, b: &str) -> (same: bool)
    ensures
        same == (components_of(a@) == components_of(b@)),
{
    let x = components(a);
    let y = components(b);
    if x.len() != y.len() {
        assert(text::texts(x@).len() != text::texts(y@).len());
        return false;
    }
    let mut i: usize = 0;
    while i < x.len()
        invariant
            i <= x.len() == y.len(),
            text::texts(x@) == components_of(a@),
            text::texts(y@) == components_of(b@),
            forall|j: int| 0 <= j < i ==> (#[trigger] x@[j])@ == y@[j]@,
        decreases x.len() - i,
    {
        if !text::same_text(x[i].as_str(), y[i].as_str()) {
            assert(text::texts(x@)[i as int] != text::texts(y@)[i as int]);
            return false;
        }
        i += 1;
    }
    assert(text::texts(x@) =~= text::texts(y@));
    true
}

/// The directory that the last part of a path lies in.
pub fn parent_dir(path: &str) -> (dir: String)
    ensures
        dir@ == directory_of(path@),
{
    proof {
        reveal_strlit("/");
        reveal_strlit(".");
        reveal_strlit("");
        assert("/"@ =~= seq!['/']);
        assert("."@ =~= seq!['.']);
        assert(""@ =~= Seq::<char>::empty());
    }
    let chars = text::chars_of(path);
    let mut parts = text::split(path, '/');
    let ghost all = text::texts(parts@);
    let n: usize = count_named(&parts);
    assert(all[0] == parts@[0]@);
    let here = text::same_text(parts[0].as_str(), ".");
    if n == 0 {
        return if here {
            "".to_owned()
        } else {
            ".".to_owned()
        };
    }
    parts.truncate(n - 1);
    assert(text::texts(parts@) =~= all.take(n - 1));
    let m: usize = count_named(&parts);
    if m > 0 {
        assert(all.take(n - 1).take(m as int) =~= all.take(m as int));
        text::join_first(&parts, m, "/")
    } else if chars.len() > 0 && chars[0] == '/' {
        "/".to_owned()
    } else if here {
        ".".to_owned()
    } else {
        "".to_owned()
    }
}

/// The path with `ext` put on its file name, if it has a file name without an extension.
pub fn add_extension_if_none(path: &str, ext: &str) -> (whole: String)
    ensures
        whole@ == with_extension_if_none(path@, ext@),
{
    if extension(path).is_some() || file_name(path).is_none() {
        return path.to_owned();
    }
    proof {
        reveal_strlit("/");
        reveal_strlit(".");
        assert("/"@ =~= seq!['/']);
        assert("."@ =~= seq!['.']);
    }
    let parts = text::split(path, '/');
    let n: usize = count_named(&parts);
    let mut whole = text::join_first(&parts, n, "/");
    whole.append(".");
    whole.append(ext);
    whole
}

proof fn parts_of_longer_path(dir: Seq<char>, part: Seq<char>)
    requires
        !part.contains('/'),
    ensures
        text::split_on(dir.push('/') + part, '/') == text::split_on(dir, '/').push(part),
        text::split_on(part, '/') == seq![part],
        text::split_on(dir, '/').len() > 0,
        text::joined(text::split_on(dir, '/'), seq!['/']) == dir,
{
    text::unbroken_text_is_one_piece(part, '/');
    text::pieces_of_two_texts(dir, part, '/');
    text::pieces_join_to_the_text(dir, '/');
    let parts = text::split_on(dir, '/');
    assert(parts + seq![part] =~= parts.push(part));
}

/// The file name is what stands behind the last slash; a slash or a dot at the end does not
/// count, and a path that goes up has no file name.
pub proof fn file_name_is_the_last_part(dir: Seq<char>, name: Seq<char>)
    requires
        !name.contains('/'),
        name.len() > 0,
        name != seq!['.'],
        name != seq!['.', '.'],
    ensures
        file_name_of(dir.push('/') + name) == Some(name),
        file_name_of(name) == Some(name),
        file_name_of(dir.push('/')) == file_name_of(dir),
        file_name_of(dir.push('/').push('.')) == file_name_of(dir),
        file_name_of(dir.push('/').push('.').push('.')) is None,
        file_name_of(Seq::<char>::empty()) is None,
{
    parts_of_longer_path(dir, name);
    assert(seq![name].last() == name);
    let none = Seq::<char>::empty();
    parts_of_longer_path(dir, none);
    assert(dir.push('/') + none =~= dir.push('/'));
    let parts = text::split_on(dir, '/');
    assert(parts.push(none).drop_last() =~= parts);
    let here = seq!['.'];
    parts_of_longer_path(dir, here);
    assert(dir.push('/') + here =~= dir.push('/').push('.'));
    assert(parts.push(here).drop_last() =~= parts);
    named_parts_fit(parts);
    let up = seq!['.', '.'];
    parts_of_longer_path(dir, up);
    assert(dir.push('/') + up =~= dir.push('/').push('.').push('.'));
    assert(up.len() == 2 && here.len() == 1);
    assert(seq![none].drop_last() =~= Seq::<Seq<char>>::empty());
    assert(named_len(seq![none]) == 0) by {
        assert(seq![none].last() == none);
        assert(named_len(Seq::<Seq<char>>::empty()) == 0);
    }
}

proof fn named_parts_fit(parts: Seq<Seq<char>>)
    ensures
        named_len(parts) <= parts.len(),
        named_len(parts) > 0 ==> is_name(parts[named_len(parts) - 1]),
    decreases parts.len(),
{
    if parts.len() > 0 && !is_name(parts.last()) {
        named_parts_fit(parts.drop_last());
    }
}

/// A file name is cut at its last dot: what stands before it is the stem and what stands behind
/// it the extension, so that the two with a dot between them are the name again. A name without a
/// dot, or with one at its start alone, is all stem.
pub proof fn names_are_cut_at_the_last_dot(dir: Seq<char>, stem: Seq<char>, extension: Seq<char>)
    requires
        !stem.contains('/'),
        !extension.contains('/'),
        !extension.contains('.'),
    ensures
        stem.len() > 0 && stem.push('.') + extension != seq!['.', '.'] ==> file_stem_of(
            dir.push('/') + (stem.push('.') + extension),
        ) == Some(stem) && extension_of(dir.push('/') + (stem.push('.') + extension)) == Some(
            extension,
        ),
        extension.len() > 0 ==> file_stem_of(dir.push('/') + extension) == Some(extension)
            && extension_of(dir.push('/') + extension) is None,
        extension.len() > 0 ==> file_stem_of(dir.push('/') + (seq!['.'] + extension)) == Some(
            seq!['.'] + extension,
        ) && extension_of(dir.push('/') + (seq!['.'] + extension)) is None,
{
    let name = stem.push('.') + extension;
    text::unbroken_text_is_one_piece(extension, '.');
    text::pieces_of_two_texts(stem, extension, '.');
    text::pieces_join_to_the_text(stem, '.');
    let pieces = text::split_on(stem, '.');
    assert(text::split_on(name, '.') =~= pieces.push(extension));
    assert(pieces.push(extension).drop_last() =~= pieces);
    assert(!name.contains('/')) by {
        if name.contains('/') {
            let j = choose|j: int| 0 <= j < name.len() && name[j] == '/';
            if j < stem.len() {
                assert(stem[j] == '/');
            } else if j > stem.len() {
                assert(extension[j - stem.len() - 1] == '/');
            }
        }
    }
    if stem.len() > 0 && name != seq!['.', '.'] {
        assert(name.len() >= 2);
        assert(name != seq!['.']) by {
            assert(seq!['.'].len() == 1);
        }
        file_name_is_the_last_part(dir, name);
    }
    if extension.len() > 0 {
        assert(extension[0] != '.');
        assert(extension != seq!['.'] && extension != seq!['.', '.']);
        file_name_is_the_last_part(dir, extension);
        let hidden = seq!['.'] + extension;
        let nothing = Seq::<char>::empty();
        text::pieces_of_two_texts(nothing, extension, '.');
        text::unbroken_text_is_one_piece(nothing, '.');
        assert(nothing.push('.') + extension =~= hidden);
        let two = text::split_on(hidden, '.');
        assert(two =~= seq![nothing, extension]);
        assert(two.drop_last() =~= seq![nothing]);
        assert(text::joined(seq![nothing], seq!['.']) == nothing);
        assert(hidden[1] == extension[0]);
        assert(hidden.len() >= 2);
        assert(hidden != seq!['.', '.']) by {
            assert(seq!['.', '.'][1] == '.');
        }
        assert(hidden != seq!['.']) by {
            assert(seq!['.'].len() == 1);
        }
        assert(!hidden.contains('/')) by {
            if hidden.contains('/') {
                let j = choose|j: int| 0 <= j < hidden.len() && hidden[j] == '/';
                assert(extension[j - 1] == '/');
            }
        }
        file_name_is_the_last_part(dir, hidden);
    }
}

/// A longer path is made of what the shorter one is made of and of its last part; empty parts and
/// dots in between or at the end do not count.
pub proof fn paths_are_made_part_by_part(dir: Seq<char>, part: Seq<char>)
    requires
        !part.contains('/'),
    ensures
        dir.len() > 0 && part.len() > 0 && part != seq!['.'] ==> components_of(
            dir.push('/') + part,
        ) == components_of(dir).push(part),
        dir.len() > 0 && (part.len() == 0 || part == seq!['.']) ==> components_of(
            dir.push('/') + part,
        ) == components_of(dir),
        part.len() > 0 ==> components_of(part) == seq![part],
        part.len() > 0 && part != seq!['.'] ==> components_of(seq!['/'] + part) == seq![
            seq!['/'],
            part,
        ],
        components_of(seq!['/']) == seq![seq!['/']],
        components_of(Seq::<char>::empty()).len() == 0,
{
    let none = Seq::<char>::empty();
    let parts = text::split_on(dir, '/');
    parts_of_longer_path(dir, part);
    assert(parts.push(part).drop_last() =~= parts);
    assert(parts.push(part).last() == part);
    if dir.len() > 0 {
        assert((dir.push('/') + part)[0] == dir[0]);
        assert(parts.push(part)[0] == parts[0]);
        assert(part.len() > 0 && part != seq!['.'] ==> components_of(dir.push('/') + part)
            =~= components_of(dir).push(part));
    }
    assert(named_parts(Seq::<Seq<char>>::empty()) == Seq::<Seq<char>>::empty());
    assert(seq![part].drop_last() =~= Seq::<Seq<char>>::empty());
    assert(seq![part].last() == part);
    if part.len() > 0 {
        assert(part[0] != '/');
        assert(is_name(part) ==> named_parts(seq![part]) =~= seq![part]);
        assert(components_of(part) =~= seq![part]);
    }
    parts_of_longer_path(none, part);
    parts_of_longer_path(none, none);
    assert(none.push('/') + part =~= seq!['/'] + part);
    assert(text::split_on(none, '/') == seq![none]);
    let two = seq![none].push(part);
    assert(two.drop_last() =~= seq![none]);
    assert(two.last() == part);
    assert(seq![none].drop_last() =~= Seq::<Seq<char>>::empty());
    assert(seq![none].last() == none);
    assert(named_parts(seq![none]) =~= Seq::<Seq<char>>::empty());
    assert((seq!['/'] + part)[0] == '/');
    assert(part.len() > 0 && part != seq!['.'] ==> components_of(seq!['/'] + part) =~= seq![
        seq!['/'],
        part,
    ]);
    assert(none.push('/') + none =~= seq!['/']);
    let twice = seq![none].push(none);
    assert(twice.drop_last() =~= seq![none]);
    assert(twice.last() == none);
    assert(components_of(seq!['/']) =~= seq![seq!['/']]);
    assert(none != seq!['.']) by {
        assert(seq!['.'].len() == 1);
    }
}

proof fn named_parts_of_two(a: Seq<Seq<char>>, b: Seq<Seq<char>>)
    ensures
        named_parts(a + b) == named_parts(a) + named_parts(b),
    decreases b.len(),
{
    if b.len() == 0 {
        assert(a + b =~= a);
        assert(named_parts(a) + named_parts(b) =~= named_parts(a));
    } else {
        named_parts_of_two(a, b.drop_last());
        assert((a + b).drop_last() =~= a + b.drop_last());
        assert((a + b).last() == b.last());
        assert(named_parts(a + b) =~= named_parts(a) + named_parts(b));
    }
}

/// A relative path seen from a directory is made of what the directory is made of, followed by
/// what the relative path is made of; an absolute path is what it is from everywhere, and so is
/// any path seen from nowhere.
pub proof fn relative_paths_lie_below_the_base(base: Seq<char>, rel: Seq<char>)
    ensures
        rel.len() > 0 && rel[0] == '/' ==> joined_path(base, rel) == rel,
        base.len() == 0 ==> joined_path(base, rel) == rel,
        base.len() > 0 && (rel.len() == 0 || rel[0] != '/') && (rel.len() == 0 || components_of(
            rel,
        ).len() == 0 || components_of(rel)[0] != seq!['.']) ==> components_of(
            joined_path(base, rel),
        ) == components_of(base) + components_of(rel),
{
    if base.len() == 0 {
        assert(base + rel =~= rel);
    }
    if base.len() > 0 && (rel.len() == 0 || rel[0] != '/') && (rel.len() == 0 || components_of(
        rel,
    ).len() == 0 || components_of(rel)[0] != seq!['.']) {
        let whole = joined_path(base, rel);
        let right = text::split_on(rel, '/');
        text::pieces_join_to_the_text(rel, '/');
        if rel.len() == 0 {
            text::unbroken_text_is_one_piece(rel, '/');
            assert(right[0].len() == 0);
        }
        assert(right[0] != seq!['.']);
        if base.last() == '/' {
            let dir = base.drop_last();
            text::pieces_of_two_texts(dir, rel, '/');
            text::pieces_of_two_texts(dir, Seq::empty(), '/');
            text::pieces_join_to_the_text(dir, '/');
            text::unbroken_text_is_one_piece(Seq::empty(), '/');
            assert(dir.push('/') =~= base);
            assert(dir.push('/') + Seq::<char>::empty() =~= base);
            let left = text::split_on(dir, '/');
            named_parts_of_two(left, right);
            let unnamed = seq![Seq::<char>::empty()];
            named_parts_of_two(left, unnamed);
            assert(unnamed.drop_last() =~= Seq::<Seq<char>>::empty());
            assert(named_parts(unnamed.drop_last()) =~= Seq::<Seq<char>>::empty());
            assert(unnamed.last().len() == 0);
            assert(named_parts(unnamed) =~= Seq::<Seq<char>>::empty());
            assert(named_parts(text::split_on(base, '/')) =~= named_parts(left));
            assert(whole =~= dir.push('/') + rel);
            assert((left + right)[0] == left[0]);
            assert((left + seq![Seq::<char>::empty()])[0] == left[0]);
            assert(whole[0] == base[0]);
            assert(components_of(whole) =~= components_of(base) + components_of(rel));
        } else {
            let left = text::split_on(base, '/');
            text::pieces_of_two_texts(base, rel, '/');
            text::pieces_join_to_the_text(base, '/');
            named_parts_of_two(left, right);
            assert(whole =~= base.push('/') + rel);
            assert((left + right)[0] == left[0]);
            assert(whole[0] == base[0]);
            assert(components_of(whole) =~= components_of(base) + components_of(rel));
        }
    }
}

proof fn parts_up_to_the_last_name(parts: Seq<Seq<char>>)
    ensures
        named_len(parts) <= parts.len(),
        named_parts(parts.take(named_len(parts) as int)) == named_parts(parts),
        named_len(parts) == 0 <==> named_parts(parts).len() == 0,
    decreases parts.len(),
{
    if parts.len() == 0 {
        assert(parts.take(0) =~= parts);
    } else if is_name(parts.last()) {
        assert(parts.take(parts.len() as int) =~= parts);
    } else {
        parts_up_to_the_last_name(parts.drop_last());
        let n = named_len(parts.drop_last()) as int;
        assert(parts.drop_last().take(n) =~= parts.take(n));
    }
}

proof fn joined_parts_split_back(parts: Seq<Seq<char>>)
    requires
        parts.len() > 0,
        forall|i: int| 0 <= i < parts.len() ==> !(#[trigger] parts[i]).contains('/'),
    ensures
        text::split_on(text::joined(parts, seq!['/']), '/') == parts,
    decreases parts.len(),
{
    let last = parts.last();
    assert(!parts[parts.len() - 1].contains('/'));
    text::unbroken_text_is_one_piece(last, '/');
    if parts.len() == 1 {
        assert(parts =~= seq![last]);
    } else {
        let front = parts.drop_last();
        joined_parts_split_back(front);
        let text = text::joined(front, seq!['/']);
        text::pieces_of_two_texts(text, last, '/');
        assert(text + seq!['/'] + last =~= text.push('/') + last);
        assert(front + seq![last] =~= parts);
    }
}

/// The directory of a path is the path without its last part: where a part was put below a
/// directory, that directory comes back, as the same path. A single part lies in the directory
/// that an empty path stands for.
pub proof fn the_directory_is_what_lies_above(dir: Seq<char>, name: Seq<char>)
    requires
        !name.contains('/'),
        name.len() > 0,
        name != seq!['.'],
    ensures
        dir.len() > 0 ==> components_of(directory_of(dir.push('/') + name)) == components_of(dir),
        directory_of(name).len() == 0,
        directory_of(seq!['/'] + name) == seq!['/'],
{
    let none = Seq::<char>::empty();
    let parts = text::split_on(dir, '/');
    let path = dir.push('/') + name;
    parts_of_longer_path(dir, name);
    text::pieces_join_to_the_text(dir, '/');
    assert(parts.push(name).take(parts.len() as int) =~= parts);
    assert(parts.push(name).last() == name);
    assert(parts.push(name)[0] == parts[0]);
    if dir.len() > 0 {
        assert(path[0] == dir[0]);
        parts_up_to_the_last_name(parts);
        let m = named_len(parts);
        if m > 0 {
            let kept = parts.take(m as int);
            assert(parts.push(name).take(m as int) =~= kept);
            assert forall|i: int| 0 <= i < kept.len() implies !(#[trigger] kept[i]).contains('/') by {
                assert(kept[i] == parts[i]);
                if parts[i].contains('/') {
                    let j = choose|j: int| 0 <= j < parts[i].len() && parts[i][j] == '/';
                    assert(parts[i][j] != '/');
                }
            }
            joined_parts_split_back(kept);
            let found = text::joined(kept, seq!['/']);
            assert(directory_of(path) == found);
            assert(kept[0] == parts[0]);
            text::first_part_comes_first(kept[0], kept.drop_first(), seq!['/']);
            assert(seq![kept[0]] + kept.drop_first() =~= kept);
            text::first_part_comes_first(parts[0], parts.drop_first(), seq!['/']);
            assert(seq![parts[0]] + parts.drop_first() =~= parts);
            first_character(kept);
            first_character(parts);
            named_parts_fit(parts);
            assert(is_name(kept[m - 1]));
            assert(parts.len() > 1 || parts[0].len() > 0);
            assert(kept.len() > 1 || kept[0].len() > 0);
            assert(text::joined(parts, seq!['/']) == dir);
            assert(found.len() > 0 && (found[0] == '/' <==> dir[0] == '/'));
            assert(text::split_on(found, '/') == kept);
            assert(named_parts(kept) == named_parts(parts));
            assert(components_of(found) =~= components_of(dir));
        } else {
            paths_are_made_part_by_part(none, name);
            if dir[0] == '/' {
                assert(components_of(dir) =~= seq![seq!['/']]);
            } else {
                first_character(parts);
                if parts[0] == seq!['.'] {
                    assert(components_of(dir) =~= seq![seq!['.']]);
                    paths_are_made_part_by_part(none, seq!['.']);
                } else {
                    assert(components_of(dir) =~= Seq::<Seq<char>>::empty());
                    assert(components_of(none) =~= Seq::<Seq<char>>::empty());
                }
            }
        }
    }
    assert(seq![name].last() == name);
    assert(seq![name].take(0) =~= Seq::<Seq<char>>::empty());
    assert(name[0] != '/');
    assert(named_len(Seq::<Seq<char>>::empty()) == 0);
    parts_of_longer_path(none, name);
    parts_of_longer_path(none, none);
    assert(none.push('/') + name =~= seq!['/'] + name);
    let two = seq![none].push(name);
    assert(text::split_on(none, '/') == seq![none]);
    assert(two.last() == name);
    assert(two.take(1) =~= seq![none]);
    assert(seq![none].last() == none);
    assert(seq![none].drop_last() =~= Seq::<Seq<char>>::empty());
    assert(named_len(seq![none]) == 0);
    assert((seq!['/'] + name)[0] == '/');
}

proof fn first_character(parts: Seq<Seq<char>>)
    requires
        parts.len() > 0,
        !parts[0].contains('/'),
    ensures
        ({
            let whole = text::joined(parts, seq!['/']);
            &&& parts.len() > 1 || parts[0].len() > 0 ==> whole.len() > 0 && (whole[0] == '/' <==>
                parts[0].len() == 0)
        }),
{
    let rest = parts.drop_first();
    assert(seq![parts[0]] + rest =~= parts);
    text::first_part_comes_first(parts[0], rest, seq!['/']);
    if parts[0].len() > 0 {
        assert(parts[0].contains(parts[0][0]));
    }
}

/// A missing extension is put behind the file name with a dot; a name that has one stays.
pub proof fn missing_extensions_are_added(dir: Seq<char>, name: Seq<char>, extension: Seq<char>)
    requires
        !name.contains('/'),
        name.len() > 0,
        name != seq!['.'],
        name != seq!['.', '.'],
    ensures
        !name.contains('.') ==> with_extension_if_none(dir.push('/') + name, extension)
            == dir.push('/') + name + seq!['.'] + extension,
        !name.contains('.') ==> with_extension_if_none(name, extension) == name + seq!['.']
            + extension,
        extension_of(dir.push('/') + name) is Some ==> with_extension_if_none(
            dir.push('/') + name,
            extension,
        ) == dir.push('/') + name,
{
    parts_of_longer_path(dir, name);
    file_name_is_the_last_part(dir, name);
    let parts = text::split_on(dir, '/').push(name);
    assert(parts.last() == name);
    assert(parts.take(parts.len() as int) =~= parts);
    text::pieces_join_to_the_text(dir.push('/') + name, '/');
    assert(seq![name].last() == name);
    assert(seq![name].take(1) =~= seq![name]);
    assert(text::joined(seq![name], seq!['/']) == name);
    if !name.contains('.') {
        text::unbroken_text_is_one_piece(name, '.');
    }
}

/// A bare file name is cut at its last dot as one in a directory is.
pub proof fn bare_names_are_cut_at_the_last_dot(stem: Seq<char>, extension: Seq<char>)
    requires
        stem.len() > 0,
        !stem.contains('/'),
        !extension.contains('/'),
        !extension.contains('.'),
        stem.push('.') + extension != seq!['.', '.'],
    ensures
        file_stem_of(stem.push('.') + extension) == Some(stem),
        extension_of(stem.push('.') + extension) == Some(extension),
{
    let name = stem.push('.') + extension;
    let none = Seq::<char>::empty();
    names_are_cut_at_the_last_dot(none, stem, extension);
    assert(!name.contains('/')) by {
        if name.contains('/') {
            let j = choose|j: int| 0 <= j < name.len() && name[j] == '/';
            if j < stem.len() {
                assert(stem[j] == '/');
            } else if j > stem.len() {
                assert(extension[j - stem.len() - 1] == '/');
            }
        }
    }
    assert(name.len() >= 2);
    assert(name != seq!['.']) by {
        assert(seq!['.'].len() == 1);
    }
    file_name_is_the_last_part(none, name);
}

} // verus!
