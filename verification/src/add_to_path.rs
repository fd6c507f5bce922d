//! Adding a directory to the `PATH` of a process, of the user or of the
//! system. Each function takes what the store holds (the variable's value,
//! or on Unix the text of the environment file) and returns what is to be
//! written back, or `None` where nothing is written and the update fails.
use vstd::prelude::*;

use crate::env_file::{
    assignments_come_first, env_value, first_index_of, get_system_env, lemma_get_after_set,
    lookup, parse_entry, set_system_env, updated_env_file, value_in_line,
};
use crate::path_list::{
    has_entry, lemma_patched_path_has_entry, lemma_present_directory_is_not_added,
    normalized_dir, patch_path, patched_path, replace_char, same_ignoring_ascii_case,
    trim_end_char, Platform,
};
use crate::text::{
    lemma_lines_no_newline, lemma_subrange_lacks, lemma_trim_end_lacks, lemma_trim_start_lacks,
    lines, trim, trim_start,
};

verus! {

/// The name of the variable that lists the directories searched for
/// programs.
pub open spec fn path_key() -> Seq<char> {
    seq!['P', 'A', 'T', 'H']
}

/// What the user or system store holds after adding `dir` to its `PATH`,
/// given what it held (`None` when it could not be read): on Windows the
/// store is the variable's value itself; on Unix it is the text of the
/// environment file, whose `PATH` assignment is rewritten. `None` means that
/// nothing is written: the store could not be read, or on Unix the file
/// assigns no `PATH`.
pub open spec fn updated_store(stored: Option<Seq<char>>, dir: Seq<char>, platform: Platform) -> Option<
    Seq<char>,
> {
    match stored {
        None => None,
        Some(s) => match platform {
            Platform::Windows => Some(patched_path(s, dir, platform)),
            Platform::Unix => match env_value(s, path_key()) {
                None => None,
                Some(p) => Some(
                    updated_env_file(Some(s), path_key(), patched_path(p, dir, platform)),
                ),
            },
        },
    }
}

/// The new `PATH` of the current process after adding `directory`, given
/// its current value (`None` when the variable could not be read, in which
/// case nothing is to be written).
pub fn set_to_process(directory: String, current_path: Option<String>, platform: Platform) -> (r:
    Option<String>)
    ensures
        match current_path {
            Some(p) => r matches Some(n) && n@ == patched_path(p@, directory@, platform),
            None => r is None,
        },
{
    match current_path {
        Some(p) => Some(patch_path(p, directory.as_str(), platform)),
        None => None,
    }
}

/// The store content after adding `directory` to a `PATH` kept in it.
fn add_to_store(directory: &str, stored: Option<String>, platform: Platform) -> (r: Option<String>)
    ensures
        r.deep_view() == updated_store(stored.deep_view(), directory@, platform),
{
    let content = match stored {
        Some(s) => s,
        None => {
            return None;
        },
    };
    match platform {
        Platform::Windows => Some(patch_path(content, directory, platform)),
        Platform::Unix => {
            let key = "PATH";
            proof {
                reveal_strlit("PATH");
                assert(key@ =~= path_key());
            }
            match get_system_env(content.as_str(), key) {
                Err(_) => None,
                Ok(current) => {
                    let patched = patch_path(current, directory, platform);
                    Some(set_system_env(Some(content.as_str()), key, patched.as_str()))
                },
            }
        },
    }
}

/// The user store after adding `directory` to its `PATH`: on Windows the
/// user's `PATH` value, on Unix the text of the environment file (the user
/// and system variables are the same there).
pub fn set_to_user(directory: String, stored: Option<String>, platform: Platform) -> (r: Option<
    String,
>)
    ensures
        r.deep_view() == updated_store(stored.deep_view(), directory@, platform),
{
    add_to_store(directory.as_str(), stored, platform)
}

/// The system store after adding `directory` to its `PATH`: on Windows the
/// system's `PATH` value, on Unix the text of the environment file.
pub fn set_to_system(directory: String, stored: Option<String>, platform: Platform) -> (r: Option<
    String,
>)
    ensures
        r.deep_view() == updated_store(stored.deep_view(), directory@, platform),
{
    add_to_store(directory.as_str(), stored, platform)
}

/// The `PATH` that a store holds: on Windows the store is the value; on Unix
/// the value is read from the environment file.
pub open spec fn stored_path(store: Seq<char>, platform: Platform) -> Option<Seq<char>> {
    match platform {
        Platform::Windows => Some(store),
        Platform::Unix => env_value(store, path_key()),
    }
}

proof fn lemma_value_lacks_newline(line: Seq<char>, key: Seq<char>)
    requires
        !line.contains('\n'),
    ensures
        value_in_line(line, key) matches Some(v) ==> !v.contains('\n'),
{
    if let Some((k, v)) = parse_entry(line) {
        let t = trim(line);
        lemma_trim_start_lacks(line, '\n');
        lemma_trim_end_lacks(trim_start(line), '\n');
        let i: int = first_index_of(t, '=');
        assert(0 <= i < t.len() && t[i] == '=' && forall|j: int| 0 <= j < i ==> t[j] != '=') by {
            let w: int = choose|w: int| 0 <= w < t.len() && t[w] == '=';
            lemma_least_index(t, '=', w);
        }
        lemma_subrange_lacks(t, i + 1, t.len() as int, '\n');
        assert(t.skip(i + 1) =~= t.subrange(i + 1, t.len() as int));
        let u = trim(t.skip(i + 1));
        lemma_trim_start_lacks(t.skip(i + 1), '\n');
        lemma_trim_end_lacks(trim_start(t.skip(i + 1)), '\n');
        if u.len() >= 2 {
            lemma_subrange_lacks(u, 1, u.len() - 1, '\n');
        }
    }
}

/// Some occurrence of `c` is the first one.
proof fn lemma_least_index(s: Seq<char>, c: char, w: int)
    requires
        0 <= w < s.len(),
        s[w] == c,
    ensures
        exists|i: int| 0 <= i < s.len() && s[i] == c && forall|j: int| 0 <= j < i ==> s[j] != c,
    decreases w,
{
    if exists|j: int| 0 <= j < w && s[j] == c {
        let j: int = choose|j: int| 0 <= j < w && s[j] == c;
        lemma_least_index(s, c, j);
    } else {
        assert(0 <= w < s.len() && s[w] == c && forall|j: int| 0 <= j < w ==> s[j] != c);
    }
}

proof fn lemma_lookup_lacks_newline(ls: Seq<Seq<char>>, key: Seq<char>)
    requires
        forall|i: int| 0 <= i < ls.len() ==> !(#[trigger] ls[i]).contains('\n'),
    ensures
        lookup(ls, key) matches Some(v) ==> !v.contains('\n'),
    decreases ls.len(),
{
    if ls.len() > 0 {
        lemma_lookup_lacks_newline(ls.drop_last(), key);
        assert(!ls[ls.len() - 1].contains('\n'));
        lemma_value_lacks_newline(ls.last(), key);
    }
}

proof fn lemma_patched_lacks_newline(path: Seq<char>, dir: Seq<char>, platform: Platform)
    requires
        !path.contains('\n'),
        !dir.contains('\n'),
    ensures
        !patched_path(path, dir, platform).contains('\n'),
{
    let from = platform.foreign_sep();
    let to = platform.dir_sep();
    let rep = replace_char(dir, from, to);
    assert(!rep.contains('\n')) by {
        if rep.contains('\n') {
            let k: int = choose|k: int| 0 <= k < rep.len() && rep[k] == '\n';
            assert(dir[k] == '\n');
        }
    }
    lemma_trim_end_char_lacks(rep, to, '\n');
    let n = normalized_dir(dir, platform);
    let r = patched_path(path, dir, platform);
    if r.contains('\n') {
        let k: int = choose|k: int| 0 <= k < r.len() && r[k] == '\n';
        if k < path.len() {
            assert(path[k] == '\n');
        } else if r == path.push(platform.list_sep()) + n {
            if k > path.len() {
                assert(n[k - path.len() - 1] == '\n');
            }
        } else {
            assert(n[k - path.len()] == '\n');
        }
    }
}

proof fn lemma_trim_end_char_lacks(s: Seq<char>, t: char, c: char)
    requires
        !s.contains(c),
    ensures
        !trim_end_char(s, t).contains(c),
    decreases s.len(),
{
    if s.len() > 0 && s.last() == t {
        lemma_subrange_lacks(s, 0, s.len() - 1, c);
        assert(s.drop_last() =~= s.subrange(0, s.len() - 1));
        lemma_trim_end_char_lacks(s.drop_last(), t, c);
    }
}

/// After adding a directory to the `PATH` of a store, the `PATH` read back
/// from what is written has the normalised directory as an entry; on Unix
/// this holds for a directory without line breaks and a file in which no
/// line reads `PATH` before the first line that starts with `PATH=` (the
/// normalised directory must not contain the list separator on either
/// platform).
pub proof fn lemma_added_directory_is_read_back(store: Seq<char>, dir: Seq<char>, platform: Platform)
    requires
        !normalized_dir(dir, platform).contains(platform.list_sep()),
        platform == Platform::Unix ==> !dir.contains('\n') && assignments_come_first(
            lines(store),
            path_key(),
        ),
    ensures
        updated_store(Some(store), dir, platform) matches Some(written) ==> stored_path(
            written,
            platform,
        ) matches Some(p) && has_entry(p, normalized_dir(dir, platform), platform.list_sep()),
{
    match platform {
        Platform::Windows => {
            lemma_patched_path_has_entry(store, dir, platform);
        },
        Platform::Unix => {
            if let Some(p) = env_value(store, path_key()) {
                lemma_lines_no_newline(store);
                lemma_lookup_lacks_newline(lines(store), path_key());
                lemma_patched_lacks_newline(p, dir, platform);
                lemma_get_after_set(Some(store), path_key(), patched_path(p, dir, platform));
                lemma_patched_path_has_entry(p, dir, platform);
            }
        },
    }
}

/// Adding a directory to the user or system store writes something back
/// whenever the store could be read and (on Unix) assigns `PATH`: the update
/// fails for no other reason, in particular not because the directory is
/// already there.
pub proof fn lemma_store_update_fails_only_without_path(store: Seq<char>, dir: Seq<char>, platform: Platform)
    ensures
        updated_store(Some(store), dir, platform) is Some <==> (platform == Platform::Windows
            || env_value(store, path_key()) is Some),
{
}

/// Adding a directory that the store's `PATH` already holds (as an entry at
/// any position, equal to the normalised directory ignoring ASCII case)
/// succeeds and leaves the `PATH` read back from the store as it was; on
/// Unix for a file in which no line reads `PATH` before the first line that
/// starts with `PATH=`.
pub proof fn lemma_present_directory_keeps_stored_path(
    store: Seq<char>,
    pre: Seq<char>,
    entry: Seq<char>,
    post: Seq<char>,
    dir: Seq<char>,
    platform: Platform,
)
    requires
        stored_path(store, platform) == Some(pre + entry + post),
        pre.len() == 0 || pre.last() == platform.list_sep(),
        post.len() == 0 || post[0] == platform.list_sep(),
        !entry.contains(platform.list_sep()),
        entry.len() == normalized_dir(dir, platform).len(),
        forall|i: int|
            0 <= i < entry.len() ==> #[trigger] same_ignoring_ascii_case(
                entry[i],
                normalized_dir(dir, platform)[i],
            ),
        platform == Platform::Unix ==> assignments_come_first(lines(store), path_key()),
    ensures
        updated_store(Some(store), dir, platform) matches Some(written) && stored_path(
            written,
            platform,
        ) == stored_path(store, platform),
{
    lemma_present_directory_is_not_added(pre, entry, post, dir, platform);
    if platform == Platform::Unix {
        let p = pre + entry + post;
        lemma_lines_no_newline(store);
        lemma_lookup_lacks_newline(lines(store), path_key());
        lemma_get_after_set(Some(store), path_key(), p);
    }
}

} // verus!
