//! Paths of files, as the operating system takes them apart and joins them.

use crate::pattern::replaced;
use crate::pieces::{lemma_parted_concat, lemma_parted_one, parted};
use vstd::prelude::*;

verus! {

/// The last position before `j` that holds `c`, or -1.
pub open spec fn last_at(s: Seq<char>, c: char, j: int) -> int
    decreases j,
{
    if j <= 0 {
        -1
    } else if s[j - 1] == c {
        j - 1
    } else {
        last_at(s, c, j - 1)
    }
}

/// Whether every system takes the path apart at its slashes alone: it holds
/// neither a backslash nor a colon, and does not begin with two slashes, which name a
/// server on some.
pub open spec fn is_plain_path(path: Seq<char>) -> bool {
    &&& !path.contains('\\')
    &&& !path.contains(':')
    &&& !(path.len() > 1 && path[0] == '/' && path[1] == '/')
}

/// The last name in a path, where it does not end in `..`.
pub open spec fn file_name(path: Seq<char>) -> Option<Seq<char>> {
    let names = parted(path, '/').filter(|p: Seq<char>| p != "."@);
    if names.len() == 0 || names.last() == ".."@ {
        None
    } else {
        Some(names.last())
    }
}

/// A file name up to its last dot, if that is not its first character.
pub open spec fn stem_of(name: Seq<char>) -> Seq<char> {
    let dot = last_at(name, '.', name.len() as int);
    if dot > 0 {
        name.take(dot)
    } else {
        name
    }
}

/// What follows the last dot of a file name, if that is not its first character.
pub open spec fn extension_of(name: Seq<char>) -> Option<Seq<char>> {
    let dot = last_at(name, '.', name.len() as int);
    if dot > 0 {
        Some(name.skip(dot + 1))
    } else {
        None
    }
}

/// The stem of the file name in a path.
pub open spec fn path_stem(path: Seq<char>) -> Option<Seq<char>> {
    match file_name(path) {
        Some(name) => Some(stem_of(name)),
        None => None,
    }
}

/// The extension of the file name in a path.
pub open spec fn path_extension(path: Seq<char>) -> Option<Seq<char>> {
    match file_name(path) {
        Some(name) => extension_of(name),
        None => None,
    }
}

/// An optional string by its characters.
pub open spec fn opt_text(s: Option<String>) -> Option<Seq<char>> {
    match s {
        Some(t) => Some(t@),
        None => None,
    }
}

/// Whether a path begins with two separators, as the paths of servers do on some systems.
pub open spec fn begins_with_two_separators(path: Seq<char>) -> bool {
    &&& path.len() > 1
    &&& is_separator(path[0])
    &&& is_separator(path[1])
}

/// Whether a character separates the names of a path on some system.
pub open spec fn is_separator(c: char) -> bool {
    c == '/' || c == '\\'
}

/// Whether a path begins with what names a drive on some systems.
pub open spec fn has_drive(path: Seq<char>) -> bool {
    path.len() > 1 && path[1] == ':'
}

/// A path with a slash for each backslash.
pub open spec fn slashed(path: Seq<char>) -> Seq<char> {
    replaced(path, "\\"@, "/"@)
}

/// Whether `stem` is the stem of the file name in a path as some system reads it:
/// with slashes alone between the names, or with backslashes too, after a drive if
/// the path begins with one.
///
/// It is not said what is read of a path that begins with two separators.
pub open spec fn is_stem(path: Seq<char>, stem: Option<Seq<char>>) -> bool {
    &&& is_plain_path(path) ==> stem == path_stem(path)
    &&& !begins_with_two_separators(path) ==> {
        ||| stem == path_stem(path)
        ||| stem == path_stem(slashed(path))
        ||| has_drive(path) && stem == path_stem(slashed(path.skip(2)))
    }
}

/// Whether a path ends in a file name with an extension on every system: its last dot
/// follows a character that may stand in a name, and no separator follows it.
pub open spec fn has_plain_extension(path: Seq<char>) -> bool {
    let dot = last_at(path, '.', path.len() as int);
    &&& 0 < dot < path.len() - 1
    &&& !is_separator(path[dot - 1]) && path[dot - 1] != ':'
    &&& forall|i: int| dot < i < path.len() ==> !is_separator(#[trigger] path[i])
}

/// Whether `ext` is the extension of the file name in a path as some system reads it: as
/// with the stem, and
/// - what follows the last dot of a path that ends in a name with an extension on
///   every system;
/// - always what the path ends in, behind a dot, unless the path ends in a dot or
///   a separator.
pub open spec fn is_extension(path: Seq<char>, ext: Option<Seq<char>>) -> bool {
    &&& is_plain_path(path) ==> ext == path_extension(path)
    &&& !begins_with_two_separators(path) ==> {
        ||| ext == path_extension(path)
        ||| ext == path_extension(slashed(path))
        ||| has_drive(path) && ext == path_extension(slashed(path.skip(2)))
    }
    &&& !begins_with_two_separators(path) && has_plain_extension(path) ==> ext == Some(
        path.skip(last_at(path, '.', path.len() as int) + 1),
    )
    &&& ext is Some && !is_separator(path.last()) && path.last() != '.' ==> ("."@
        + ext->0).is_suffix_of(path)
}

/// `std::path::Path::file_stem`: the file name up to its last dot.
///
/// What separates the names of a path differs between systems where it holds a
/// backslash or a colon; of such a path it is said what the systems make of it. Of
/// one that begins with two separators nothing is said.
#[verifier::external_body]
pub(crate) fn file_stem(path: &str) -> (r: Option<String>)
    ensures
        is_stem(path@, opt_text(r)),
{
    std::path::Path::new(path).file_stem().and_then(|v| v.to_str()).map(|v| v.to_string())
}

/// `std::path::Path::extension`: what follows the last dot of the file name.
///
/// What separates the names of a path differs between systems where it holds a
/// backslash or a colon; of such a path it is said what the systems make of it. Of
/// one that begins with two separators it is said only what it ends in.
#[verifier::external_body]
pub(crate) fn extension(path: &str) -> (r: Option<String>)
    ensures
        is_extension(path@, opt_text(r)),
{
    std::path::Path::new(path).extension().and_then(|v| v.to_str()).map(|v| v.to_string())
}

/// Whether a path is taken literally on some systems, which normalise what is appended to
/// it.
pub open spec fn is_verbatim(path: Seq<char>) -> bool {
    path.len() > 3 && path[0] == '\\' && path[1] == '\\' && path[2] == '?' && path[3] == '\\'
}

/// Whether `base` is the path of a directory to which every system appends a name
/// after a separator: it is not empty, ends in none of `/`, `\` and `:`, and is not
/// verbatim.
pub open spec fn is_open_base(base: Seq<char>) -> bool {
    &&& base.len() > 0
    &&& base.last() != '/'
    &&& base.last() != '\\'
    &&& base.last() != ':'
    &&& !is_verbatim(base)
}

/// Whether every system takes `name` as relative: it begins with no separator and
/// holds no colon.
pub open spec fn is_relative_name(name: Seq<char>) -> bool {
    &&& !name.contains(':')
    &&& name.len() > 0 ==> name[0] != '/' && name[0] != '\\'
}

/// Whether every system takes `base` as a path without a drive or a server.
pub open spec fn has_no_prefix(base: Seq<char>) -> bool {
    &&& !base.contains(':')
    &&& !base.contains('\\')
    &&& !(base.len() > 1 && base[0] == '/' && base[1] == '/')
}

/// Whether `path` is `name` looked up from the directory `base`:
/// - `name` after `base` and a separator of the system;
/// - `name` right after a `base` that ends in a slash, or that is empty;
/// - `name` alone where it begins with a slash.
///
/// Systems differ on a base that ends in a backslash or a colon, and on a name that
/// holds a colon; on each of them it is one of a few paths. On all of them it ends in the
/// name.
pub open spec fn is_joined_path(base: Seq<char>, name: Seq<char>, path: Seq<char>) -> bool {
    let with_slash = base + "/"@ + name;
    let with_backslash = base + "\\"@ + name;
    &&& is_open_base(base) && is_relative_name(name) ==> path == with_slash || path == with_backslash
    &&& base.len() > 0 && base.last() == '/' && !is_verbatim(base) && is_relative_name(name) ==> path == base + name
    &&& base.len() == 0 && is_relative_name(name) ==> path == name
    &&& base.len() > 0 && !is_verbatim(base) && is_relative_name(name) ==> path
        == with_slash || path == with_backslash || path == base + name
    &&& !is_verbatim(base) && (name.len() > 0 ==> name[0] != '/' && name[0] != '\\')
        ==> path == with_slash || path == with_backslash || path == base + name || path == name
    &&& has_no_prefix(base) && "/"@.is_prefix_of(name) ==> path == name
    &&& !is_verbatim(base) ==> name.is_suffix_of(path)
}

/// `std::path::Path::join`: `name` looked up from the directory `base`.
///
/// Which separator is put between them depends on the system. Where systems read the
/// base or the name in different ways, the contract says what holds on each of them; of
/// a verbatim base it says nothing, since some systems normalise such paths.
#[verifier::external_body]
pub(crate) fn join_path(base: &str, name: &str) -> (r: String)
    ensures
        is_joined_path(base@, name@, r@),
{
    std::path::Path::new(base).join(name).to_string_lossy().into_owned()
}

// ---------------------------------------------------------------------------
// Laws
// ---------------------------------------------------------------------------

/// The last place of a character holds it and is followed by no other such place; there
/// is none where the text does not hold it.
pub proof fn law_last_place(s: Seq<char>, c: char)
    ensures
        s.contains(c) ==> {
            let at = last_at(s, c, s.len() as int);
            0 <= at < s.len() && s[at] == c && forall|i: int| at < i < s.len() ==> s[i] != c
        },
        !s.contains(c) ==> last_at(s, c, s.len() as int) == -1,
{
    lemma_last_place(s, c, s.len() as int);
}

proof fn lemma_last_place(s: Seq<char>, c: char, j: int)
    requires
        0 <= j <= s.len(),
    ensures
        -1 <= last_at(s, c, j) < j || j == 0 && last_at(s, c, j) == -1,
        last_at(s, c, j) >= 0 ==> s[last_at(s, c, j)] == c,
        forall|i: int| last_at(s, c, j) < i < j ==> s[i] != c,
    decreases j,
{
    if j > 0 && s[j - 1] != c {
        lemma_last_place(s, c, j - 1);
    }
}

/// The file name of a path is what follows its last slash, where that is a name; what
/// stands before it, and slashes or dots behind it, do not matter.
pub proof fn law_file_name(dir: Seq<char>, name: Seq<char>)
    requires
        name.len() > 0,
        !name.contains('/'),
        name != "."@,
        name != ".."@,
    ensures
        file_name(name) == Some(name),
        file_name(dir + seq!['/'] + name) == Some(name),
        file_name(dir + seq!['/'] + name + seq!['/']) == Some(name),
{
    let p = |p: Seq<char>| p != "."@;
    lemma_parted_one(name, '/');
    reveal(Seq::filter);
    assert(seq![name].drop_last() =~= seq![]);
    assert(seq![name].filter(p) =~= seq![name]) by {
        reveal_with_fuel(Seq::filter, 2);
    }
    lemma_parted_concat(dir, name, '/');
    Seq::filter_distributes_over_add(parted(dir, '/'), seq![name], p);
    let whole = dir + seq!['/'] + name;
    lemma_parted_concat(whole, Seq::empty(), '/');
    lemma_parted_one(Seq::empty(), '/');
    assert(whole + seq!['/'] + Seq::<char>::empty() =~= whole + seq!['/']);
    assert(parted(whole, '/') + Seq::<Seq<char>>::empty() =~= parted(whole, '/'));
}

/// A file name is its stem, a dot and its extension, which holds no dot; a name without a
/// dot, or with one at its start alone, is all stem.
pub proof fn law_stem_and_extension(stem: Seq<char>, ext: Seq<char>)
    requires
        !ext.contains('.'),
    ensures
        stem.len() > 0 ==> stem_of(stem + seq!['.'] + ext) == stem,
        stem.len() > 0 ==> extension_of(stem + seq!['.'] + ext) == Some(ext),
        stem_of(ext) == ext && extension_of(ext) is None,
        stem_of(seq!['.'] + ext) == seq!['.'] + ext && extension_of(seq!['.'] + ext) is None,
{
    law_last_place(ext, '.');
    let name = stem + seq!['.'] + ext;
    let n = stem.len() as int;
    lemma_last_place(name, '.', name.len() as int);
    assert(name[n] == '.');
    assert forall|i: int| n < i < name.len() implies name[i] != '.' by {
        assert(name[i] == ext[i - n - 1]);
    }
    assert(last_at(name, '.', name.len() as int) == n);
    assert(name.take(n) =~= stem);
    assert(name.skip(n + 1) =~= ext);
    let hidden = seq!['.'] + ext;
    lemma_last_place(hidden, '.', hidden.len() as int);
    assert(hidden[0] == '.');
    assert forall|i: int| 0 < i < hidden.len() implies hidden[i] != '.' by {
        assert(hidden[i] == ext[i - 1]);
    }
}

/// The stem and the extension of a path are those of its file name.
pub proof fn law_path_of_a_file(dir: Seq<char>, stem: Seq<char>, ext: Seq<char>)
    requires
        stem.len() > 0,
        ext.len() > 0,
        !stem.contains('/'),
        !ext.contains('/'),
        !ext.contains('.'),
    ensures
        path_stem(dir + seq!['/'] + (stem + seq!['.'] + ext)) == Some(stem),
        path_extension(dir + seq!['/'] + (stem + seq!['.'] + ext)) == Some(ext),
{
    let name = stem + seq!['.'] + ext;
    assert(!name.contains('/')) by {
        if name.contains('/') {
            let i = choose|i: int| 0 <= i < name.len() && name[i] == '/';
            if i < stem.len() {
                assert(stem[i] == '/');
            } else if i > stem.len() {
                assert(ext[i - stem.len() - 1] == '/');
            }
        }
    }
    reveal_strlit(".");
    reveal_strlit("..");
    assert(name.len() >= 3);
    law_file_name(dir, name);
    law_stem_and_extension(stem, ext);
}

/// A name that is looked up from a directory follows it, after a separator. Where the
/// directory ends in a slash, it follows it directly; from no directory it is the name; and
/// a name that begins with a slash leads away from a directory that names neither a drive
/// nor a server.
pub proof fn law_joined_path(base: Seq<char>, name: Seq<char>, path: Seq<char>)
    requires
        is_joined_path(base, name, path),
        !base.contains('\\'),
        !base.contains(':'),
        !name.contains(':'),
    ensures
        base.len() > 0 && base.last() != '/' && (name.len() > 0 ==> name[0] != '/' && name[0] != '\\')
            ==> path == base + seq!['/'] + name || path == base + seq!['\\'] + name,
        base.len() > 0 && base.last() == '/' && (name.len() > 0 ==> name[0] != '/' && name[0] != '\\')
            ==> path == base + name,
        base.len() == 0 && (name.len() > 0 ==> name[0] != '/' && name[0] != '\\') ==> path == name,
        name.len() > 0 && name[0] == '/' && !(base.len() > 1 && base[0] == '/' && base[1] == '/')
            ==> path == name,
{
    reveal_strlit("/");
    reveal_strlit("\\");
    assert("/"@ =~= seq!['/'] && "\\"@ =~= seq!['\\']);
    if base.len() > 0 {
        assert(base.contains(base[0]));
        assert(base.contains(base.last()));
    }
    if name.len() > 0 && name[0] == '/' {
        assert("/"@ =~= name.subrange(0, 1));
    }
}

} // verus!
