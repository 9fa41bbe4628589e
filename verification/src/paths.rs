//! Paths of files, as texts with slashes between their parts, as Unix has them.
use vstd::prelude::*;
use vstd::string::*;
use crate::text::{contains_text, has_prefix, opt_str_view, opt_view, str_eq, strip_prefix};

verus! {

/// The last position of `c` in `s`, or -1.
pub open spec fn last_index(s: Seq<char>, c: char) -> int
    decreases s.len(),
{
    if s.len() == 0 {
        -1
    } else if s.last() == c {
        s.len() - 1
    } else {
        last_index(s.drop_last(), c)
    }
}

/// Behind the last `c` there is none.
pub proof fn lemma_last_index(s: Seq<char>, c: char)
    ensures
        -1 <= last_index(s, c) < s.len(),
        last_index(s, c) >= 0 ==> s[last_index(s, c)] == c,
        forall|i: int| last_index(s, c) < i < s.len() ==> #[trigger] s[i] != c,
    decreases s.len(),
{
    if s.len() > 0 && s.last() != c {
        lemma_last_index(s.drop_last(), c);
        assert forall|i: int| last_index(s, c) < i < s.len() implies #[trigger] s[i] != c by {
            if i < s.len() - 1 {
                assert(s[i] == s.drop_last()[i]);
            }
        }
    }
}

/// A path up to its last slash.
pub open spec fn directory_part(path: Seq<char>) -> Seq<char> {
    path.take(last_index(path, '/') + 1)
}

/// What follows the last slash of a path.
pub open spec fn name_part(path: Seq<char>) -> Seq<char> {
    path.skip(last_index(path, '/') + 1)
}

/// Whether the name that ends a path has an extension: a period that is not its
/// first character.
pub open spec fn has_extension(path: Seq<char>) -> bool {
    last_index(name_part(path), '.') > 0
}

/// The name without its extension.
pub open spec fn stem_part(path: Seq<char>) -> Seq<char> {
    if has_extension(path) {
        name_part(path).take(last_index(name_part(path), '.'))
    } else {
        name_part(path)
    }
}

/// What follows the last period of a name with an extension.
pub open spec fn extension_part(path: Seq<char>) -> Option<Seq<char>> {
    if has_extension(path) {
        Some(name_part(path).skip(last_index(name_part(path), '.') + 1))
    } else {
        None
    }
}

/// Whether a path ends in the name of a file: it does not end in a slash, nor in
/// a part that is one period or two.
pub open spec fn names_a_file(path: Seq<char>) -> bool {
    let name = name_part(path);
    name.len() > 0 && name != seq!['.'] && name != seq!['.', '.']
}

/// Whether there is no name of a file in a path: it is empty or the root, or its
/// last part is two periods.
pub open spec fn is_nameless(path: Seq<char>) -> bool {
    path.len() == 0 || path == seq!['/'] || name_part(path) == seq!['.', '.']
}

/// Whether a path ends in the name of a file that can get another extension:
/// without the one that it has, more is left of it than a single period.
pub open spec fn takes_extension(path: Seq<char>) -> bool {
    names_a_file(path) && stem_part(path) != seq!['.']
}

/// Whether a path has neither two slashes in a row nor a part that is a single
/// period, but for its first.
pub open spec fn is_tidy(path: Seq<char>) -> bool {
    !contains_text(path, seq!['/', '/']) && !contains_text(path, seq!['/', '.', '/'])
}

/// There is no slash in the name of a file without its extension.
pub proof fn lemma_stem_has_no_slash(path: Seq<char>)
    ensures
        !stem_part(path).contains('/'),
{
    let name = name_part(path);
    lemma_last_index(path, '/');
    lemma_last_index(name, '.');
    let at = last_index(path, '/') + 1;
    assert forall|i: int| 0 <= i < stem_part(path).len() implies stem_part(path)[i] != '/' by {
        assert(stem_part(path)[i] == name[i]);
        assert(name[i] == path[at + i]);
    }
}

/// A path with another extension, as `std::path::Path::with_extension` has it.
pub uninterp spec fn extension_replaced(path: Seq<char>, extension: Seq<char>) -> Seq<char>;

/// The extension of a path, as `std::path::Path::extension` has it.
pub uninterp spec fn extension_of(path: Seq<char>) -> Option<Seq<char>>;

/// The name of a file without its extension, as `std::path::Path::file_stem` has
/// it.
pub uninterp spec fn stem_of(path: Seq<char>) -> Option<Seq<char>>;

/// A path with another name of the file, as `std::path::Path::with_file_name`
/// has it.
pub uninterp spec fn name_replaced(path: Seq<char>, name: Seq<char>) -> Seq<char>;

/// A path with another extension: behind the name without the one that it has,
/// where the path ends in a name that can get one; the path as it is, where there
/// is no name in it; and otherwise what `std::path::Path::with_extension` says.
pub open spec fn extended(path: Seq<char>, extension: Seq<char>) -> Seq<char> {
    if takes_extension(path) {
        directory_part(path) + stem_part(path) + seq!['.'] + extension
    } else if is_nameless(path) {
        path
    } else {
        extension_replaced(path, extension)
    }
}

/// The extension of a path: that of the name where the path ends in the name of
/// a file, none where there is no name in it, and otherwise what
/// `std::path::Path::extension` says.
pub open spec fn found_extension(path: Seq<char>) -> Option<Seq<char>> {
    if names_a_file(path) {
        extension_part(path)
    } else if is_nameless(path) {
        None
    } else {
        extension_of(path)
    }
}

/// The name of a file without its extension: that of the path where it ends in
/// the name of a file, none where there is no name in it, and otherwise what
/// `std::path::Path::file_stem` says.
pub open spec fn found_stem(path: Seq<char>) -> Option<Seq<char>> {
    if names_a_file(path) {
        Some(stem_part(path))
    } else if is_nameless(path) {
        None
    } else {
        stem_of(path)
    }
}

/// A path with another name of the file: in the place of the name where the path
/// is tidy and ends in the name of a file, behind a path without a name, and
/// otherwise what `std::path::Path::with_file_name` says.
pub open spec fn renamed(path: Seq<char>, name: Seq<char>) -> Seq<char> {
    if names_a_file(path) && is_tidy(path) {
        directory_part(path) + name
    } else if is_nameless(path) {
        path_in(path, name)
    } else {
        name_replaced(path, name)
    }
}

/// `std::path::Path::with_extension` gives a path another extension, here one
/// that is not empty and has no slash. Where the path ends in the name of a file,
/// the new one stands in the place of the one that the name has, or is appended
/// to a name that has none. A path without a name of a file stays as it is. A
/// name that is left as a single period is not spoken of.
#[verifier::external_body]
pub(crate) fn with_extension(path: &str, extension: &str) -> (out: String)
    requires
        extension@.len() > 0,
        !extension@.contains('/'),
    ensures
        out@ == extension_replaced(path@, extension@),
        takes_extension(path@) ==> out@ == directory_part(path@) + stem_part(path@) + seq!['.']
            + extension@,
        is_nameless(path@) ==> out@ == path@,
{
    std::path::Path::new(path).with_extension(extension).to_string_lossy().into_owned()
}

/// `std::path::Path::extension` gives the extension of a path, where it has one.
/// Where the path ends in the name of a file, it is what follows the last period
/// of the name; a name without a period, or with none but its first character,
/// has no extension, and neither has a path without a name.
#[verifier::external_body]
pub(crate) fn extension(path: &str) -> (out: Option<String>)
    ensures
        opt_view(out) == extension_of(path@),
        names_a_file(path@) ==> opt_view(out) == extension_part(path@),
        is_nameless(path@) ==> out is None,
{
    std::path::Path::new(path).extension().map(|e| e.to_string_lossy().into_owned())
}

/// `std::path::Path::file_stem` gives the name of the file without its
/// extension, where a path has one. Where the path ends in the name of a file, it
/// is what precedes the last period of the name; a name without a period, or with
/// none but its first character, is its own stem. A path without a name has none.
#[verifier::external_body]
pub(crate) fn file_stem(path: &str) -> (out: Option<String>)
    ensures
        opt_view(out) == stem_of(path@),
        names_a_file(path@) ==> opt_view(out) == Some(stem_part(path@)),
        is_nameless(path@) ==> out is None,
{
    std::path::Path::new(path).file_stem().map(|s| s.to_string_lossy().into_owned())
}

/// `std::path::Path::with_file_name` gives a path another name of the file.
/// Where the path ends in the name of a file and the new name has no slash, it
/// stands in its place; slashes and periods that do nothing may be lost from the
/// end of the directory. Where there is no name of a file in the path, the new
/// name is appended to it.
#[verifier::external_body]
pub(crate) fn with_file_name(path: &str, name: &str) -> (out: String)
    ensures
        out@ == name_replaced(path@, name@),
        names_a_file(path@) && is_tidy(path@) && !name@.contains('/') ==> out@ == directory_part(
            path@,
        ) + name@,
        is_nameless(path@) && !name@.contains('/') ==> out@ == path_in(path@, name@),
{
    std::path::Path::new(path).with_file_name(name).to_string_lossy().into_owned()
}

/// The path that `rest` names when it is looked up in the directory `base`: an
/// absolute path is itself, any other is appended behind a slash.
pub open spec fn path_in(base: Seq<char>, rest: Seq<char>) -> Seq<char> {
    if rest.len() > 0 && rest[0] == '/' {
        rest
    } else if base.len() == 0 || base.last() == '/' {
        base + rest
    } else {
        base + seq!['/'] + rest
    }
}

/// Looks up a path in a directory.
pub fn join_path(base: &str, rest: &str) -> (out: String)
    ensures
        out@ == path_in(base@, rest@),
{
    let rest_len = rest.unicode_len();
    if rest_len > 0 && rest.get_char(0) == '/' {
        return rest.to_owned();
    }
    let base_len = base.unicode_len();
    let mut out = base.to_owned();
    if base_len > 0 && base.get_char(base_len - 1) != '/' {
        out.push('/');
    }
    out.append(rest);
    proof {
        assert(out@ =~= path_in(base@, rest@));
    }
    out
}

/// A path with a leading tilde replaced by the home directory, where there is
/// one.
pub open spec fn expanded(path: Seq<char>, home: Option<Seq<char>>) -> Seq<char> {
    match home {
        Some(home) => if path == "~"@ {
            home
        } else if has_prefix(path, "~/"@) {
            path_in(home, path.skip("~/"@.len() as int))
        } else {
            path
        },
        None => path,
    }
}

/// Replaces a leading tilde by the home directory.
pub fn expand_home(path: String, home: Option<&str>) -> (out: String)
    ensures
        out@ == expanded(path@, opt_str_view(home)),
{
    match home {
        Some(home) => {
            if str_eq(path.as_str(), "~") {
                return home.to_owned();
            }
            match strip_prefix(path.as_str(), "~/") {
                Some(rest) => join_path(home, rest.as_str()),
                None => path,
            }
        },
        None => path,
    }
}

/// A file below one of the directories that the user has for such files: in the
/// one that the environment names, or else in the home directory.
pub open spec fn user_file(
    directory: Option<Seq<char>>,
    file: Seq<char>,
    home: Option<Seq<char>>,
    home_file: Seq<char>,
) -> Option<Seq<char>> {
    match (directory, home) {
        (Some(directory), _) => Some(path_in(directory, file)),
        (None, Some(home)) => Some(path_in(home, home_file)),
        (None, None) => None,
    }
}

fn find_user_file(
    directory: Option<&str>,
    file: &str,
    home: Option<&str>,
    home_file: &str,
) -> (out: Option<String>)
    ensures
        opt_view(out) == user_file(opt_str_view(directory), file@, opt_str_view(home), home_file@),
{
    match (directory, home) {
        (Some(directory), _) => Some(join_path(directory, file)),
        (None, Some(home)) => Some(join_path(home, home_file)),
        (None, None) => None,
    }
}

/// Where the configuration of the client is, unless the user says otherwise.
pub open spec fn config_location(
    config_home: Option<Seq<char>>,
    home: Option<Seq<char>>,
) -> Option<Seq<char>> {
    user_file(
        config_home,
        "whisper-relay/client.toml"@,
        home,
        ".config/whisper-relay/client.toml"@,
    )
}

/// Says where the configuration of the client is, unless the user says
/// otherwise.
pub fn default_config_path(config_home: Option<&str>, home: Option<&str>) -> (out: Option<String>)
    ensures
        opt_view(out) == config_location(opt_str_view(config_home), opt_str_view(home)),
{
    find_user_file(
        config_home,
        "whisper-relay/client.toml",
        home,
        ".config/whisper-relay/client.toml",
    )
}

/// Where the client keeps its token, unless the user says otherwise.
pub open spec fn token_cache_location(
    cache_home: Option<Seq<char>>,
    home: Option<Seq<char>>,
) -> Option<Seq<char>> {
    user_file(
        cache_home,
        "whisper-relay/oidc-token.json"@,
        home,
        ".cache/whisper-relay/oidc-token.json"@,
    )
}

/// Says where the client keeps its token, unless the user says otherwise.
pub fn default_token_cache_path(cache_home: Option<&str>, home: Option<&str>) -> (out: Option<
    String,
>)
    ensures
        opt_view(out) == token_cache_location(opt_str_view(cache_home), opt_str_view(home)),
{
    find_user_file(
        cache_home,
        "whisper-relay/oidc-token.json",
        home,
        ".cache/whisper-relay/oidc-token.json",
    )
}

// ---------------------------------------------------------------------------
// Laws
// ---------------------------------------------------------------------------

/// A path that is looked up in a directory stands behind it with one slash between
/// them; an absolute path is itself.
pub proof fn law_lookup(base: Seq<char>, rest: Seq<char>)
    ensures
        path_in(base, seq!['/'] + rest) == seq!['/'] + rest,
        !(rest.len() > 0 && rest[0] == '/') && base.len() > 0 && base.last() != '/' ==> path_in(
            base,
            rest,
        ) == base + seq!['/'] + rest,
        !(rest.len() > 0 && rest[0] == '/') ==> path_in(base + seq!['/'], rest) == base + seq!['/']
            + rest,
        path_in(Seq::empty(), rest) == rest,
{
    assert((seq!['/'] + rest)[0] == '/');
    assert((base + seq!['/']).last() == '/');
    assert(Seq::<char>::empty() + rest =~= rest);
}

/// A tilde stands for the home directory where it is the whole path or its first
/// part, and only where there is one; all other paths stay as they are.
pub proof fn law_home(path: Seq<char>, rest: Seq<char>, home: Seq<char>)
    ensures
        expanded(seq!['~'], Some(home)) == home,
        expanded(seq!['~', '/'] + rest, Some(home)) == path_in(home, rest),
        expanded(path, None) == path,
        path.len() == 0 || path[0] != '~' ==> expanded(path, Some(home)) == path,
        path.len() > 1 && path[1] != '/' ==> expanded(path, Some(home)) == path,
{
    reveal_strlit("~");
    reveal_strlit("~/");
    assert("~"@ =~= seq!['~']);
    assert("~/"@ =~= seq!['~', '/']);
    let below = seq!['~', '/'] + rest;
    assert(below.subrange(0, 2) =~= "~/"@);
    assert(below.skip(2) =~= rest);
    if has_prefix(path, "~/"@) {
        assert(path.subrange(0, 2)[0] == path[0]);
        assert(path.subrange(0, 2)[1] == path[1]);
    }
}

/// The files of the client are in the directories that the environment names, or
/// else in their usual places below the home directory.
pub proof fn law_user_files(directory: Seq<char>, home: Seq<char>, other: Option<Seq<char>>)
    ensures
        config_location(Some(directory), other) == Some(
            path_in(directory, "whisper-relay/client.toml"@),
        ),
        config_location(None, Some(home)) == Some(
            path_in(home, ".config/whisper-relay/client.toml"@),
        ),
        config_location(None, None) is None,
        token_cache_location(Some(directory), other) == Some(
            path_in(directory, "whisper-relay/oidc-token.json"@),
        ),
        token_cache_location(None, Some(home)) == Some(
            path_in(home, ".cache/whisper-relay/oidc-token.json"@),
        ),
        token_cache_location(None, None) is None,
{
}

} // verus!
