//! The `PATH` list: normalising a directory and adding it to a
//! separator-delimited list of directories unless it is already there.
use vstd::prelude::*;

use crate::text::{
    chars_of, eq_ignore_ascii_case, eq_ignore_ascii_case_range, lemma_split_on_append_field,
    lemma_split_on_concat, lemma_split_on_extend_last, lemma_split_on_len, lemma_split_on_no_sep,
    lemma_split_on_push_sep, push_chars, split_on,
};

verus! {

/// The conventions of the operating system whose `PATH` is edited.
#[derive(Clone, Copy, Debug, PartialEq, Eq)]
pub enum Platform {
    /// `;` between entries, `\` inside paths.
    Windows,
    /// `:` between entries, `/` inside paths.
    Unix,
}

impl Platform {
    /// The character between two entries of the list.
    pub open spec fn list_sep(self) -> char {
        match self {
            Platform::Windows => ';',
            Platform::Unix => ':',
        }
    }

    /// The directory separator of the platform.
    pub open spec fn dir_sep(self) -> char {
        match self {
            Platform::Windows => '\\',
            Platform::Unix => '/',
        }
    }

    /// The directory separator of the other platform, rewritten on input.
    pub open spec fn foreign_sep(self) -> char {
        match self {
            Platform::Windows => '/',
            Platform::Unix => '\\',
        }
    }

    /// The character between two entries of the list.
    pub fn list_separator(&self) -> (c: char)
        ensures
            c == self.list_sep(),
    {
        match self {
            Platform::Windows => ';',
            Platform::Unix => ':',
        }
    }

    /// The directory separator of the platform.
    pub fn dir_separator(&self) -> (c: char)
        ensures
            c == self.dir_sep(),
    {
        match self {
            Platform::Windows => '\\',
            Platform::Unix => '/',
        }
    }

    /// The directory separator of the other platform.
    pub fn foreign_separator(&self) -> (c: char)
        ensures
            c == self.foreign_sep(),
    {
        match self {
            Platform::Windows => '/',
            Platform::Unix => '\\',
        }
    }
}

/// Every occurrence of `from` in `s` replaced by `to`.
pub open spec fn replace_char(s: Seq<char>, from: char, to: char) -> Seq<char> {
    Seq::new(s.len(), |i: int| if s[i] == from { to } else { s[i] })
}

/// `s` without its trailing occurrences of `c` (`str::trim_end_matches`).
pub open spec fn trim_end_char(s: Seq<char>, c: char) -> Seq<char>
    decreases s.len(),
{
    if s.len() > 0 && s.last() == c {
        trim_end_char(s.drop_last(), c)
    } else {
        s
    }
}

/// A directory written with the platform's separators and without trailing
/// separators.
pub open spec fn normalized_dir(dir: Seq<char>, platform: Platform) -> Seq<char> {
    trim_end_char(replace_char(dir, platform.foreign_sep(), platform.dir_sep()), platform.dir_sep())
}

/// Some field of `fields` equals `entry` ignoring ASCII case.
pub open spec fn any_entry(fields: Seq<Seq<char>>, entry: Seq<char>) -> bool {
    exists|k: int| 0 <= k < fields.len() && #[trigger] eq_ignore_ascii_case(fields[k], entry)
}

/// Some entry of the `sep`-separated list `path` equals `entry` ignoring
/// ASCII case.
pub open spec fn has_entry(path: Seq<char>, entry: Seq<char>, sep: char) -> bool {
    any_entry(split_on(path, sep), entry)
}

/// The list `path` after adding the directory `dir`: unchanged when the
/// normalised directory is already one of its entries, otherwise with the
/// directory appended after a separator (none is added to an empty list or
/// one that already ends with a separator).
pub open spec fn patched_path(path: Seq<char>, dir: Seq<char>, platform: Platform) -> Seq<char> {
    let entry = normalized_dir(dir, platform);
    let sep = platform.list_sep();
    if has_entry(path, entry, sep) {
        path
    } else if path.len() > 0 && path.last() != sep {
        path.push(sep) + entry
    } else {
        path + entry
    }
}

proof fn lemma_any_entry_push(fields: Seq<Seq<char>>, x: Seq<char>, entry: Seq<char>)
    ensures
        any_entry(fields.push(x), entry) == (any_entry(fields, entry) || eq_ignore_ascii_case(
            x,
            entry,
        )),
{
    let g = fields.push(x);
    if any_entry(fields, entry) {
        let k: int = choose|k: int| 0 <= k < fields.len() && #[trigger] eq_ignore_ascii_case(fields[k], entry);
        assert(g[k] == fields[k]);
        assert(eq_ignore_ascii_case(g[k], entry));
    }
    if eq_ignore_ascii_case(x, entry) {
        assert(g[fields.len() as int] == x);
        assert(eq_ignore_ascii_case(g[fields.len() as int], entry));
    }
    if any_entry(g, entry) {
        let k: int = choose|k: int| 0 <= k < g.len() && #[trigger] eq_ignore_ascii_case(g[k], entry);
        if k < fields.len() {
            assert(g[k] == fields[k]);
        } else {
            assert(g[k] == x);
        }
    }
}

proof fn lemma_trim_end_step(s: Seq<char>, end: int, c: char)
    requires
        0 < end <= s.len(),
        s[end - 1] == c,
    ensures
        trim_end_char(s.take(end), c) == trim_end_char(s.take(end - 1), c),
{
    assert(s.take(end).drop_last() =~= s.take(end - 1));
}

/// The directory `dir` in the platform's normal form.
pub fn normalize_dir(dir: &str, platform: Platform) -> (n: Vec<char>)
    ensures
        n@ == normalized_dir(dir@, platform),
{
    let cs = chars_of(dir);
    let from = platform.foreign_separator();
    let to = platform.dir_separator();
    let ghost replaced = replace_char(cs@, from, to);
    let mut n: Vec<char> = Vec::new();
    let mut i: usize = 0;
    while i < cs.len()
        invariant
            i <= cs.len(),
            replaced == replace_char(cs@, from, to),
            n@ == replaced.take(i as int),
        decreases cs.len() - i,
    {
        if cs[i] == from {
            n.push(to);
        } else {
            n.push(cs[i]);
        }
        i = i + 1;
        assert(n@ =~= replaced.take(i as int));
    }
    assert(n@ =~= replaced);
    let mut end: usize = n.len();
    while end > 0 && n[end - 1] == to
        invariant
            end <= n.len(),
            n@ == replaced,
            trim_end_char(n@.take(end as int), to) == trim_end_char(replaced, to),
        decreases end,
    {
        proof {
            lemma_trim_end_step(n@, end as int, to);
        }
        end = end - 1;
    }
    assert(n@ =~= n@.take(n.len() as int));
    let ghost kept = n@.take(end as int);
    assert(trim_end_char(kept, to) == kept);
    n.truncate(end);
    assert(n@ =~= kept);
    n
}

/// Whether the `sep`-separated list `path` has an entry equal to `entry`
/// ignoring ASCII case.
pub fn path_has_entry(path: &Vec<char>, entry: &Vec<char>, sep: char) -> (r: bool)
    ensures
        r == has_entry(path@, entry@, sep),
{
    let mut start: usize = 0;
    let mut found = false;
    let mut i: usize = 0;
    while i < path.len()
        invariant
            start <= i <= path.len(),
            split_on(path@.take(i as int), sep).len() >= 1,
            split_on(path@.take(i as int), sep).last() == path@.subrange(start as int, i as int),
            found == any_entry(split_on(path@.take(i as int), sep).drop_last(), entry@),
        decreases path.len() - i,
    {
        let ghost s = path@.take(i as int);
        let ghost f = split_on(s, sep);
        assert(path@.take(i + 1).drop_last() =~= s);
        if path[i] == sep {
            let e = eq_ignore_ascii_case_range(path, start, i, entry);
            proof {
                assert(split_on(path@.take(i + 1), sep) =~= f.push(Seq::<char>::empty()));
                assert(f.push(Seq::<char>::empty()).drop_last() =~= f);
                assert(f =~= f.drop_last().push(f.last()));
                lemma_any_entry_push(f.drop_last(), f.last(), entry@);
            }
            found = found || e;
            start = i + 1;
            i = i + 1;
            assert(path@.subrange(start as int, i as int) =~= Seq::<char>::empty());
        } else {
            proof {
                let g = split_on(path@.take(i + 1), sep);
                assert(g =~= f.update(f.len() - 1, f.last().push(path@[i as int])));
                assert(g.drop_last() =~= f.drop_last());
                assert(g.last() =~= path@.subrange(start as int, i + 1));
            }
            i = i + 1;
        }
    }
    let e = eq_ignore_ascii_case_range(path, start, path.len(), entry);
    proof {
        assert(path@.take(path.len() as int) =~= path@);
        let f = split_on(path@, sep);
        assert(f =~= f.drop_last().push(f.last()));
        lemma_any_entry_push(f.drop_last(), f.last(), entry@);
    }
    found || e
}

/// Adds the directory `add_new` to the `PATH` list `path`: the directory is
/// normalised (the other platform's separators turned into this platform's,
/// trailing separators removed); if an entry of `path` equals it ignoring
/// ASCII case, `path` is returned unchanged, otherwise it is appended.
pub fn patch_path(path: String, add_new: &str, platform: Platform) -> (r: String)
    ensures
        r@ == patched_path(path@, add_new@, platform),
{
    let entry = normalize_dir(add_new, platform);
    let sep = platform.list_separator();
    let p = chars_of(path.as_str());
    if path_has_entry(&p, &entry, sep) {
        return path;
    }
    let mut new_path = path;
    if p.len() > 0 && p[p.len() - 1] != sep {
        let mut sep_chars: Vec<char> = Vec::new();
        sep_chars.push(sep);
        push_chars(&mut new_path, &sep_chars);
        assert(p@ + sep_chars@ =~= p@.push(sep));
    }
    push_chars(&mut new_path, &entry);
    new_path
}

proof fn lemma_trim_end_char_shape(s: Seq<char>, c: char)
    ensures
        trim_end_char(s, c).len() <= s.len(),
        trim_end_char(s, c) == s.take(trim_end_char(s, c).len() as int),
        forall|j: int| trim_end_char(s, c).len() <= j < s.len() ==> s[j] == c,
        trim_end_char(s, c).len() == 0 || trim_end_char(s, c).last() != c,
    decreases s.len(),
{
    if s.len() > 0 && s.last() == c {
        lemma_trim_end_char_shape(s.drop_last(), c);
        let m = trim_end_char(s, c).len() as int;
        assert(s.drop_last().take(m) =~= s.take(m));
        assert forall|j: int| m <= j < s.len() implies s[j] == c by {
            if j < s.len() - 1 {
                assert(s.drop_last()[j] == s[j]);
            }
        }
    } else {
        assert(s.take(s.len() as int) =~= s);
    }
}

/// The normal form of a directory, character by character: it is the
/// directory with the other platform's separator replaced by the platform's
/// own, cut before a run of trailing separators (of either kind) that it
/// removes entirely, so that it never ends with a separator.
pub proof fn lemma_normalized_dir_shape(dir: Seq<char>, platform: Platform)
    ensures
        normalized_dir(dir, platform).len() <= dir.len(),
        forall|i: int|
            0 <= i < normalized_dir(dir, platform).len() ==> #[trigger] normalized_dir(
                dir,
                platform,
            )[i] == (if dir[i] == platform.foreign_sep() {
                platform.dir_sep()
            } else {
                dir[i]
            }),
        forall|j: int|
            normalized_dir(dir, platform).len() <= j < dir.len() ==> #[trigger] dir[j]
                == platform.foreign_sep() || dir[j] == platform.dir_sep(),
        normalized_dir(dir, platform).len() == 0 || (normalized_dir(dir, platform).last()
            != platform.dir_sep() && normalized_dir(dir, platform).last() != platform.foreign_sep()),
{
    let r = replace_char(dir, platform.foreign_sep(), platform.dir_sep());
    lemma_trim_end_char_shape(r, platform.dir_sep());
    let n = normalized_dir(dir, platform);
    assert forall|j: int| n.len() <= j < dir.len() implies #[trigger] dir[j] == platform.foreign_sep()
        || dir[j] == platform.dir_sep() by {
        assert(r[j] == platform.dir_sep());
    }
    assert forall|i: int| 0 <= i < n.len() implies #[trigger] n[i] == (if dir[i]
        == platform.foreign_sep() {
        platform.dir_sep()
    } else {
        dir[i]
    }) by {
        assert(n[i] == r[i]);
    }
    if n.len() > 0 {
        assert(n.last() == r[n.len() - 1]);
    }
}

/// When the directory is not yet in the list, adding it changes the list's
/// entries only by the new entry: it fills the empty last entry that an
/// empty list or a trailing separator leaves, and otherwise becomes one more
/// entry after all existing ones (for a normalised directory without the
/// list separator).
pub proof fn lemma_patched_path_fields(path: Seq<char>, dir: Seq<char>, platform: Platform)
    requires
        !normalized_dir(dir, platform).contains(platform.list_sep()),
        !has_entry(path, normalized_dir(dir, platform), platform.list_sep()),
    ensures
        split_on(patched_path(path, dir, platform), platform.list_sep()) == (if split_on(
            path,
            platform.list_sep(),
        ).last().len() == 0 {
            split_on(path, platform.list_sep()).update(
                split_on(path, platform.list_sep()).len() - 1,
                normalized_dir(dir, platform),
            )
        } else {
            split_on(path, platform.list_sep()).push(normalized_dir(dir, platform))
        }),
{
    let n = normalized_dir(dir, platform);
    let sep = platform.list_sep();
    let f = split_on(path, sep);
    lemma_split_on_len(path, sep);
    if path.len() > 0 && path.last() != sep {
        lemma_split_on_append_field(path, n, sep);
        let d = path.drop_last();
        lemma_split_on_len(d, sep);
        assert(path =~= d.push(path.last()));
        assert(f.last() == split_on(d, sep).last().push(path.last()));
    } else {
        lemma_split_on_extend_last(path, n, sep);
        if path.len() == 0 {
            assert(f =~= seq![Seq::<char>::empty()]);
        } else {
            assert(path =~= path.drop_last().push(sep));
            lemma_split_on_push_sep(path.drop_last(), sep);
        }
        assert(f.last() + n =~= n);
    }
}

/// A directory that no entry of the list equals (character by character,
/// ignoring ASCII case) is added: the list grows.
pub proof fn lemma_absent_directory_is_added(path: Seq<char>, dir: Seq<char>, platform: Platform)
    requires
        forall|k: int|
            0 <= k < split_on(path, platform.list_sep()).len() ==> !({
                let e = #[trigger] split_on(path, platform.list_sep())[k];
                &&& e.len() == normalized_dir(dir, platform).len()
                &&& forall|i: int|
                    0 <= i < e.len() ==> same_ignoring_ascii_case(
                        e[i],
                        normalized_dir(dir, platform)[i],
                    )
            }),
    ensures
        patched_path(path, dir, platform).len() > path.len(),
{
    let n = normalized_dir(dir, platform);
    let sep = platform.list_sep();
    let f = split_on(path, sep);
    if has_entry(path, n, sep) {
        let k: int = choose|k: int| 0 <= k < f.len() && #[trigger] eq_ignore_ascii_case(f[k], n);
        let e = f[k];
        assert forall|i: int| 0 <= i < e.len() implies same_ignoring_ascii_case(e[i], n[i]) by {
            let a = e[i];
            let b = n[i];
            assert(crate::text::ascii_fold(a) == crate::text::ascii_fold(b));
            if 'A' <= a && a <= 'Z' && 'A' <= b && b <= 'Z' {
                assert(a as int == b as int);
                assert(a == b);
            } else if !('A' <= a && a <= 'Z') && !('A' <= b && b <= 'Z') {
                assert(a as int == b as int);
                assert(a == b);
            }
        }
        assert(false);
    }
    lemma_split_on_len(path, sep);
    if !(path.len() > 0 && path.last() != sep) && n.len() == 0 {
        if path.len() == 0 {
            assert(f =~= seq![Seq::<char>::empty()]);
        } else {
            assert(path =~= path.drop_last().push(sep));
            lemma_split_on_push_sep(path.drop_last(), sep);
        }
        let e = f[f.len() - 1];
        assert(e.len() == 0);
        assert(eq_ignore_ascii_case(e, n));
    }
}

/// Two characters are equal after folding ASCII upper-case letters to lower
/// case (`char::eq_ignore_ascii_case`), written out.
pub open spec fn same_ignoring_ascii_case(a: char, b: char) -> bool {
    ||| a == b
    ||| 'A' <= a && a <= 'Z' && a as int + 32 == b as int
    ||| 'A' <= b && b <= 'Z' && b as int + 32 == a as int
}

/// A directory that is already in the list, at any position (the first
/// entry, the last, or one in between), is not added again: when the list
/// consists of `pre`, an entry, and `post`, where `pre` is empty or ends with
/// the list separator, `post` is empty or starts with it, the entry holds no
/// separator, and the entry equals the normalised directory character by
/// character ignoring ASCII case, adding the directory returns the list
/// unchanged.
pub proof fn lemma_present_directory_is_not_added(
    pre: Seq<char>,
    entry: Seq<char>,
    post: Seq<char>,
    dir: Seq<char>,
    platform: Platform,
)
    requires
        pre.len() == 0 || pre.last() == platform.list_sep(),
        post.len() == 0 || post[0] == platform.list_sep(),
        !entry.contains(platform.list_sep()),
        entry.len() == normalized_dir(dir, platform).len(),
        forall|i: int|
            0 <= i < entry.len() ==> #[trigger] same_ignoring_ascii_case(
                entry[i],
                normalized_dir(dir, platform)[i],
            ),
    ensures
        patched_path(pre + entry + post, dir, platform) == pre + entry + post,
{
    let sep = platform.list_sep();
    let n = normalized_dir(dir, platform);
    assert(eq_ignore_ascii_case(entry, n)) by {
        assert forall|i: int| 0 <= i < entry.len() implies #[trigger] crate::text::ascii_fold(entry[i])
            == crate::text::ascii_fold(n[i]) by {
            assert(same_ignoring_ascii_case(entry[i], n[i]));
        }
    }
    // The fields of `entry + post` start with `entry`.
    let tail = entry + post;
    lemma_split_on_no_sep(entry, sep);
    let ft = split_on(tail, sep);
    if post.len() == 0 {
        assert(tail =~= entry);
    } else {
        let q = post.drop_first();
        assert(tail =~= entry.push(sep) + q);
        lemma_split_on_concat(entry, q, sep);
    }
    assert(ft[0] == entry);
    let s = pre + entry + post;
    let f = split_on(s, sep);
    let k: int = if pre.len() == 0 {
        assert(s =~= tail);
        0
    } else {
        let p = pre.drop_last();
        assert(s =~= p.push(sep) + tail);
        lemma_split_on_concat(p, tail, sep);
        split_on(p, sep).len() as int
    };
    lemma_split_on_len(tail, sep);
    assert(f[k] == entry);
    assert(eq_ignore_ascii_case(f[k], n));
    assert(has_entry(s, n, sep));
}

/// After adding a directory, the list has an entry equal to the normalised
/// directory (provided that the directory does not itself contain the list
/// separator, which would make it several entries).
pub proof fn lemma_patched_path_has_entry(path: Seq<char>, dir: Seq<char>, platform: Platform)
    requires
        !normalized_dir(dir, platform).contains(platform.list_sep()),
    ensures
        has_entry(
            patched_path(path, dir, platform),
            normalized_dir(dir, platform),
            platform.list_sep(),
        ),
{
    let n = normalized_dir(dir, platform);
    let sep = platform.list_sep();
    if !has_entry(path, n, sep) {
        let r = patched_path(path, dir, platform);
        if path.len() > 0 && path.last() != sep {
            lemma_split_on_append_field(path, n, sep);
            let f = split_on(r, sep);
            assert(f[f.len() - 1] == n);
            assert(eq_ignore_ascii_case(f[f.len() - 1], n));
        } else {
            lemma_split_on_extend_last(path, n, sep);
            lemma_split_on_len(path, sep);
            let f = split_on(path, sep);
            if path.len() == 0 {
                assert(f =~= seq![Seq::<char>::empty()]);
            } else {
                assert(path =~= path.drop_last().push(sep));
                lemma_split_on_push_sep(path.drop_last(), sep);
            }
            assert(f.last() =~= Seq::<char>::empty());
            assert(f.last() + n =~= n);
            let g = split_on(r, sep);
            assert(g[g.len() - 1] == n);
            assert(eq_ignore_ascii_case(g[g.len() - 1], n));
        }
    }
}

/// Adding the same directory twice has the effect of adding it once
/// (provided that the normalised directory does not contain the list
/// separator).
pub proof fn lemma_patched_path_idempotent(path: Seq<char>, dir: Seq<char>, platform: Platform)
    requires
        !normalized_dir(dir, platform).contains(platform.list_sep()),
    ensures
        patched_path(patched_path(path, dir, platform), dir, platform) == patched_path(
            path,
            dir,
            platform,
        ),
{
    lemma_patched_path_has_entry(path, dir, platform);
}

/// Adding a directory keeps the list it is added to as a prefix: no existing
/// entry is removed, reordered or changed.
pub proof fn lemma_patched_path_keeps_prefix(path: Seq<char>, dir: Seq<char>, platform: Platform)
    ensures
        patched_path(path, dir, platform).len() >= path.len(),
        patched_path(path, dir, platform).take(path.len() as int) == path,
{
    let r = patched_path(path, dir, platform);
    assert(r.take(path.len() as int) =~= path);
}

} // verus!
