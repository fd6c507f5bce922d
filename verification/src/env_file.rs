//! The system environment file (`/etc/environment`): one `KEY=value` or
//! `KEY="value"` assignment per line, with `#` comments and blank lines.
//! Reading a key and writing a key are functions on the file's text; the
//! file itself is read and written by the caller.
use vstd::prelude::*;

use crate::text::{
    chars_of, copy_range, is_ws, join_lines, join_with_newlines, lemma_lines_join,
    lemma_lines_no_newline, lemma_trim_end_keeps_prefix, lemma_trim_strip_cr,
    lemma_trim_unchanged, lines, range_equals, trim_end,
    split_lines, strip_cr, trim, trim_at, trim_start, trim_start_at, views,
};

verus! {

/// Why a key could not be read from the environment file.
#[derive(Clone, Copy, Debug, PartialEq, Eq)]
pub enum EnvFileError {
    /// No line of the file assigns the key.
    KeyNotFound,
}

// ---------------------------------------------------------------------------
// Reading
// ---------------------------------------------------------------------------

/// The position of the first `c` in `s` (`str::find`), meaningful when `s`
/// contains `c`.
pub open spec fn first_index_of(s: Seq<char>, c: char) -> int {
    choose|i: int| 0 <= i < s.len() && s[i] == c && forall|j: int| 0 <= j < i ==> s[j] != c
}

/// A value without the pair of double quotes around it, if it has them.
pub open spec fn unquote(v: Seq<char>) -> Seq<char> {
    if v.len() >= 2 && v[0] == '"' && v.last() == '"' {
        v.subrange(1, v.len() - 1)
    } else {
        v
    }
}

/// The key and value that a line assigns: `None` for a blank line, a
/// comment (first non-blank character `#`) or a line without `=`.
/// Otherwise the key is the trimmed text before the first `=` and the value
/// the trimmed text after it, without surrounding double quotes.
pub open spec fn parse_entry(line: Seq<char>) -> Option<(Seq<char>, Seq<char>)> {
    let t = trim(line);
    if t.len() == 0 || t[0] == '#' || !t.contains('=') {
        None
    } else {
        let i: int = first_index_of(t, '=');
        Some((trim(t.take(i)), unquote(trim(t.skip(i + 1)))))
    }
}

/// The value a line assigns to `key`, if it assigns that key.
pub open spec fn value_in_line(line: Seq<char>, key: Seq<char>) -> Option<Seq<char>> {
    match parse_entry(line) {
        Some((k, v)) => if k == key {
            Some(v)
        } else {
            None
        },
        None => None,
    }
}

/// The value assigned to `key` by the first line that assigns it.
pub open spec fn lookup(ls: Seq<Seq<char>>, key: Seq<char>) -> Option<Seq<char>>
    decreases ls.len(),
{
    if ls.len() == 0 {
        None
    } else {
        match lookup(ls.drop_last(), key) {
            Some(v) => Some(v),
            None => value_in_line(ls.last(), key),
        }
    }
}

/// The value of `key` in the environment file with text `content`.
pub open spec fn env_value(content: Seq<char>, key: Seq<char>) -> Option<Seq<char>> {
    lookup(lines(content), key)
}

proof fn lemma_first_index_of(s: Seq<char>, c: char, i: int)
    requires
        0 <= i < s.len(),
        s[i] == c,
        forall|j: int| 0 <= j < i ==> s[j] != c,
    ensures
        first_index_of(s, c) == i,
{
    assert(0 <= i < s.len() && s[i] == c && forall|j: int| 0 <= j < i ==> s[j] != c);
    let k: int = first_index_of(s, c);
    assert(0 <= k < s.len() && s[k] == c && forall|j: int| 0 <= j < k ==> s[j] != c);
    if k < i {
        assert(s[k] != c);
    }
    if k > i {
        assert(s[i] != c);
    }
}

/// The value that `line` assigns to `key`, if it assigns that key.
pub fn line_value(line: &Vec<char>, key: &Vec<char>) -> (r: Option<Vec<char>>)
    ensures
        match r {
            Some(v) => value_in_line(line@, key@) == Some(v@),
            None => value_in_line(line@, key@) is None,
        },
{
    let (a, b): (usize, usize) = trim_at(line, 0, line.len());
    let ghost t = line@.subrange(a as int, b as int);
    assert(line@.subrange(0, line.len() as int) =~= line@);
    assert(t == trim(line@));
    if a == b {
        return None;
    }
    assert(t[0] == line@[a as int]);
    if line[a] == '#' {
        return None;
    }
    let mut i: usize = a;
    while i < b && line[i] != '='
        invariant
            a <= i <= b <= line.len(),
            t == line@.subrange(a as int, b as int),
            forall|j: int| a <= j < i ==> line@[j] != '=',
        decreases b - i,
    {
        i = i + 1;
    }
    if i == b {
        assert(!t.contains('=')) by {
            if t.contains('=') {
                let j: int = choose|j: int| 0 <= j < t.len() && t[j] == '=';
                assert(line@[a + j] == '=');
            }
        }
        return None;
    }
    proof {
        assert(t[i - a] == '=');
        assert forall|j: int| 0 <= j < i - a implies t[j] != '=' by {
            assert(t[j] == line@[a + j]);
        }
        lemma_first_index_of(t, '=', i - a);
        assert(t.take(i - a) =~= line@.subrange(a as int, i as int));
        assert(t.skip(i - a + 1) =~= line@.subrange(i + 1, b as int));
    }
    let (ka, kb): (usize, usize) = trim_at(line, a, i);
    if !range_equals(line, ka, kb, key) {
        return None;
    }
    let (va, vb): (usize, usize) = trim_at(line, i + 1, b);
    let ghost v = line@.subrange(va as int, vb as int);
    if vb - va >= 2 && line[va] == '"' && line[vb - 1] == '"' {
        assert(v[0] == line@[va as int]);
        assert(v.last() == line@[vb - 1]);
        let r = copy_range(line, va + 1, vb - 1);
        assert(r@ =~= v.subrange(1, v.len() - 1));
        Some(r)
    } else {
        proof {
            if v.len() >= 2 {
                assert(v[0] == line@[va as int]);
                assert(v.last() == line@[vb - 1]);
            }
        }
        Some(copy_range(line, va, vb))
    }
}

/// The value of `key` in the environment file whose text is `content`: the
/// value of the first line that assigns `key`, or `KeyNotFound`.
pub fn get_system_env(content: &str, key: &str) -> (r: Result<String, EnvFileError>)
    ensures
        match env_value(content@, key@) {
            Some(v) => r matches Ok(s) && s@ == v,
            None => r == Err::<String, EnvFileError>(EnvFileError::KeyNotFound),
        },
{
    let text = chars_of(content);
    let k = chars_of(key);
    let ls = split_lines(&text);
    let mut i: usize = 0;
    while i < ls.len()
        invariant
            i <= ls.len(),
            views(ls@) == lines(content@),
            k@ == key@,
            lookup(views(ls@).take(i as int), key@) is None,
        decreases ls.len() - i,
    {
        let found = line_value(&ls[i], &k);
        proof {
            assert(views(ls@).take(i + 1).drop_last() =~= views(ls@).take(i as int));
            assert(views(ls@).take(i + 1).last() == ls@[i as int]@);
        }
        match found {
            Some(v) => {
                proof {
                    lemma_lookup_found(views(ls@), key@, (i + 1) as int);
                }
                return Ok(crate::text::string_from_chars(&v));
            },
            None => {},
        }
        i = i + 1;
    }
    assert(views(ls@).take(ls.len() as int) =~= views(ls@));
    Err(EnvFileError::KeyNotFound)
}

// ---------------------------------------------------------------------------
// Writing
// ---------------------------------------------------------------------------

/// Whether `line`, after leading whitespace, starts with `key=`.
pub open spec fn assigns_key(line: Seq<char>, key: Seq<char>) -> bool {
    key.push('=').is_prefix_of(trim_start(line))
}

/// The line that sets `key` to `value`: `key="value"`.
pub open spec fn assignment(key: Seq<char>, value: Seq<char>) -> Seq<char> {
    key + seq!['=', '"'] + value + seq!['"']
}

/// The lines with every line that starts with `key=` replaced by the
/// assignment of `value`.
pub open spec fn rewritten(ls: Seq<Seq<char>>, key: Seq<char>, value: Seq<char>) -> Seq<
    Seq<char>,
> {
    ls.map_values(
        |l: Seq<char>|
            if assigns_key(l, key) {
                assignment(key, value)
            } else {
                l
            },
    )
}

/// Whether some line starts with `key=`.
pub open spec fn any_assigns(ls: Seq<Seq<char>>, key: Seq<char>) -> bool {
    exists|i: int| 0 <= i < ls.len() && #[trigger] assigns_key(ls[i], key)
}

/// The lines of the environment file after setting `key` to `value`: the
/// lines of the old file (none when it could not be read) with the
/// assignments of `key` replaced, and the assignment appended when no line
/// starts with `key=` afterwards.
pub open spec fn updated_lines(content: Option<Seq<char>>, key: Seq<char>, value: Seq<char>) -> Seq<
    Seq<char>,
> {
    let ls = match content {
        Some(c) => rewritten(lines(c), key, value),
        None => Seq::<Seq<char>>::empty(),
    };
    if any_assigns(ls, key) {
        ls
    } else {
        ls.push(assignment(key, value))
    }
}

/// The text of the environment file after setting `key` to `value`: the
/// updated lines joined with `\n`.
pub open spec fn updated_env_file(content: Option<Seq<char>>, key: Seq<char>, value: Seq<char>) -> Seq<
    char,
> {
    join_lines(updated_lines(content, key, value))
}

/// The text of an optional string.
pub open spec fn opt_view(s: Option<&str>) -> Option<Seq<char>> {
    match s {
        Some(t) => Some(t@),
        None => None,
    }
}

/// Whether `line`, after leading whitespace, starts with `prefix` (`key=`).
fn line_assigns(line: &Vec<char>, prefix: &Vec<char>, key: Ghost<Seq<char>>) -> (r: bool)
    requires
        prefix@ == key@.push('='),
    ensures
        r == assigns_key(line@, key@),
{
    let a: usize = trim_start_at(line, 0, line.len());
    assert(line@.subrange(0, line.len() as int) =~= line@);
    let ghost t = line@.subrange(a as int, line.len() as int);
    if line.len() - a < prefix.len() {
        return false;
    }
    let r = range_equals(line, a, a + prefix.len(), prefix);
    assert(t.subrange(0, prefix.len() as int) =~= line@.subrange(a as int, a + prefix.len()));
    r
}

/// The text of the environment file `content` (`None` when it could not be
/// read) after setting `key` to `value`: every line that starts with `key=`
/// (after leading whitespace) becomes `key="value"`; if no line does, that
/// line is appended; the lines are joined with `\n`.
pub fn set_system_env(content: Option<&str>, key: &str, value: &str) -> (r: String)
    ensures
        r@ == updated_env_file(opt_view(content), key@, value@),
{
    let k = chars_of(key);
    let v = chars_of(value);
    let mut prefix = copy_range(&k, 0, k.len());
    prefix.push('=');
    let mut line_for_key = copy_range(&k, 0, k.len());
    line_for_key.push('=');
    line_for_key.push('"');
    let mut j: usize = 0;
    while j < v.len()
        invariant
            j <= v.len(),
            line_for_key@ == k@ + seq!['=', '"'] + v@.take(j as int),
        decreases v.len() - j,
    {
        line_for_key.push(v[j]);
        j = j + 1;
        assert(line_for_key@ =~= k@ + seq!['=', '"'] + v@.take(j as int));
    }
    line_for_key.push('"');
    assert(k@.subrange(0, k.len() as int) =~= k@);
    assert(v@.take(v.len() as int) =~= v@);
    assert(line_for_key@ =~= assignment(key@, value@));
    assert(prefix@ =~= key@.push('='));
    let ghost old_lines: Seq<Seq<char>> = match content {
        Some(c) => lines(c@),
        None => Seq::<Seq<char>>::empty(),
    };
    let ls: Vec<Vec<char>> = match content {
        Some(c) => split_lines(&chars_of(c)),
        None => Vec::new(),
    };
    assert(views(ls@) =~= old_lines);
    let ghost new_lines = rewritten(old_lines, key@, value@);
    let mut out: Vec<Vec<char>> = Vec::new();
    let mut any = false;
    let mut i: usize = 0;
    while i < ls.len()
        invariant
            i <= ls.len(),
            views(ls@) == old_lines,
            new_lines == rewritten(old_lines, key@, value@),
            prefix@ == key@.push('='),
            line_for_key@ == assignment(key@, value@),
            views(out@) == new_lines.take(i as int),
            any == any_assigns(new_lines.take(i as int), key@),
        decreases ls.len() - i,
    {
        let line = if line_assigns(&ls[i], &prefix, Ghost(key@)) {
            copy_range(&line_for_key, 0, line_for_key.len())
        } else {
            copy_range(&ls[i], 0, ls[i].len())
        };
        assert(line_for_key@.subrange(0, line_for_key.len() as int) =~= line_for_key@);
        assert(ls@[i as int]@.subrange(0, ls@[i as int].len() as int) =~= ls@[i as int]@);
        assert(line@ == new_lines[i as int]);
        let this_assigns = line_assigns(&line, &prefix, Ghost(key@));
        let ghost out_old = out@;
        out.push(line);
        assert(views(out@) =~= views(out_old).push(new_lines[i as int]));
        assert(new_lines.take(i + 1) =~= new_lines.take(i as int).push(new_lines[i as int]));
        proof {
            lemma_any_assigns_push(new_lines.take(i as int), new_lines[i as int], key@);
        }
        any = any || this_assigns;
        i = i + 1;
    }
    assert(new_lines.take(ls.len() as int) =~= new_lines);
    let ghost upd = updated_lines(opt_view(content), key@, value@);
    assert(match opt_view(content) {
        Some(c) => rewritten(lines(c), key@, value@),
        None => Seq::<Seq<char>>::empty(),
    } == new_lines);
    if !any {
        let ghost out_old = out@;
        out.push(line_for_key);
        assert(views(out@) =~= views(out_old).push(assignment(key@, value@)));
    }
    assert(views(out@) == upd);
    join_with_newlines(&out)
}

proof fn lemma_any_assigns_push(ls: Seq<Seq<char>>, x: Seq<char>, key: Seq<char>)
    ensures
        any_assigns(ls.push(x), key) == (any_assigns(ls, key) || assigns_key(x, key)),
{
    let g = ls.push(x);
    if any_assigns(ls, key) {
        let k: int = choose|k: int| 0 <= k < ls.len() && #[trigger] assigns_key(ls[k], key);
        assert(g[k] == ls[k]);
        assert(assigns_key(g[k], key));
    }
    if assigns_key(x, key) {
        assert(g[ls.len() as int] == x);
        assert(assigns_key(g[ls.len() as int], key));
    }
    if any_assigns(g, key) {
        let k: int = choose|k: int| 0 <= k < g.len() && #[trigger] assigns_key(g[k], key);
        if k < ls.len() {
            assert(g[k] == ls[k]);
        }
    }
}

/// The lookup in a prefix that finds the key finds the same value in the
/// whole list.
proof fn lemma_lookup_found(ls: Seq<Seq<char>>, key: Seq<char>, n: int)
    requires
        0 <= n <= ls.len(),
        lookup(ls.take(n), key) is Some,
    ensures
        lookup(ls, key) == lookup(ls.take(n), key),
    decreases ls.len() - n,
{
    if n < ls.len() {
        assert(ls.take(n + 1).drop_last() =~= ls.take(n));
        lemma_lookup_found(ls, key, n + 1);
    } else {
        assert(ls.take(n) =~= ls);
    }
}

// ---------------------------------------------------------------------------
// Reading back what was written
// ---------------------------------------------------------------------------

/// A key that survives the file format: no `=` or line break in it, and
/// (unless empty) it neither starts nor ends with whitespace and does not
/// start with the comment mark `#`.
pub open spec fn is_plain_key(key: Seq<char>) -> bool {
    &&& !key.contains('=')
    &&& !key.contains('\n')
    &&& key.len() > 0 ==> !is_ws(key[0]) && !is_ws(key.last()) && key[0] != '#'
}

/// Every line that gives `key` a value without starting with `key=` comes
/// after a line that starts with `key=`: the first line that mentions the
/// key is one that writing the key replaces.
pub open spec fn assignments_come_first(ls: Seq<Seq<char>>, key: Seq<char>) -> bool {
    forall|i: int|
        0 <= i < ls.len() && (#[trigger] value_in_line(ls[i], key)) is Some && !assigns_key(
            ls[i],
            key,
        ) ==> exists|j: int| 0 <= j < i && #[trigger] assigns_key(ls[j], key)
}

proof fn lemma_assignment_parses(key: Seq<char>, value: Seq<char>)
    requires
        is_plain_key(key),
    ensures
        value_in_line(assignment(key, value), key) == Some(value),
        assigns_key(assignment(key, value), key),
        !value.contains('\n') ==> !assignment(key, value).contains('\n'),
{
    let a = assignment(key, value);
    let n: int = key.len() as int;
    assert(a[n as int] == '=');
    assert(a[n + 1] == '"');
    assert(a.last() == '"');
    assert(a[0] == if n > 0 { key[0] } else { '=' });
    lemma_trim_unchanged(a);
    assert(trim_start(a) == a);
    assert(key.push('=') =~= a.subrange(0, n + 1));
    assert forall|j: int| 0 <= j < n implies a[j] != '=' by {
        assert(a[j] == key[j]);
    }
    lemma_first_index_of(a, '=', n as int);
    assert(a.take(n as int) =~= key);
    if n > 0 {
        assert(key.last() == key[n - 1]);
    }
    lemma_trim_unchanged(key);
    let rest = a.skip(n + 1);
    assert(rest =~= seq!['"'] + value + seq!['"']);
    lemma_trim_unchanged(rest);
    assert(rest.subrange(1, rest.len() - 1) =~= value);
    if !value.contains('\n') && a.contains('\n') {
        let j: int = choose|j: int| 0 <= j < a.len() && a[j] == '\n';
        if j < n {
            assert(key[j] == '\n');
        } else if n + 2 <= j < n + 2 + value.len() {
            assert(value[j - n - 2] == '\n');
        }
    }
}

proof fn lemma_lookup_rewritten(
    ls: Seq<Seq<char>>,
    key: Seq<char>,
    value: Seq<char>,
    n: int,
)
    requires
        is_plain_key(key),
        assignments_come_first(ls, key),
        0 <= n <= ls.len(),
    ensures
        lookup(rewritten(ls, key, value).take(n), key) == (if any_assigns(ls.take(n), key) {
            Some(value)
        } else {
            None
        }),
        any_assigns(rewritten(ls, key, value).take(n), key) == any_assigns(ls.take(n), key),
    decreases n,
{
    let r = rewritten(ls, key, value);
    lemma_assignment_parses(key, value);
    if n == 0 {
        assert(r.take(0) =~= Seq::<Seq<char>>::empty());
        assert(ls.take(0) =~= Seq::<Seq<char>>::empty());
    } else {
        lemma_lookup_rewritten(ls, key, value, n - 1);
        assert(r.take(n).drop_last() =~= r.take(n - 1));
        assert(r.take(n) =~= r.take(n - 1).push(r[n - 1]));
        assert(ls.take(n) =~= ls.take(n - 1).push(ls[n - 1]));
        lemma_any_assigns_push(r.take(n - 1), r[n - 1], key);
        lemma_any_assigns_push(ls.take(n - 1), ls[n - 1], key);
        if !any_assigns(ls.take(n - 1), key) && !assigns_key(ls[n - 1], key) {
            if value_in_line(ls[n - 1], key) is Some {
                let j: int = choose|j: int| 0 <= j < n - 1 && #[trigger] assigns_key(ls[j], key);
                assert(ls.take(n - 1)[j] == ls[j]);
                assert(assigns_key(ls.take(n - 1)[j], key));
            }
        }
    }
}

proof fn lemma_lookup_pointwise(a: Seq<Seq<char>>, b: Seq<Seq<char>>, key: Seq<char>)
    requires
        a.len() == b.len(),
        forall|i: int| 0 <= i < a.len() ==> #[trigger] trim(a[i]) == trim(b[i]),
    ensures
        lookup(a, key) == lookup(b, key),
    decreases a.len(),
{
    if a.len() > 0 {
        assert(trim(a[a.len() - 1]) == trim(b[b.len() - 1]));
        lemma_lookup_pointwise(a.drop_last(), b.drop_last(), key);
    }
}

/// Reading a key from lines joined with `\n` finds what reading it from the
/// lines themselves finds.
proof fn lemma_lookup_join(ls: Seq<Seq<char>>, key: Seq<char>)
    requires
        forall|i: int| 0 <= i < ls.len() ==> !(#[trigger] ls[i]).contains('\n'),
    ensures
        lookup(lines(join_lines(ls)), key) == lookup(ls, key),
{
    if ls.len() == 0 {
        assert(lines(Seq::<char>::empty()) =~= Seq::<Seq<char>>::empty());
    } else {
        lemma_lines_join(ls);
        let dl = ls.drop_last();
        let m = dl.map_values(|l: Seq<char>| strip_cr(l));
        assert forall|i: int| 0 <= i < m.len() implies #[trigger] trim(m[i]) == trim(dl[i]) by {
            lemma_trim_strip_cr(dl[i]);
        }
        lemma_lookup_pointwise(m, dl, key);
        assert(ls.drop_last() == dl);
        if ls.last().len() == 0 {
            assert(trim(ls.last()) =~= Seq::<char>::empty());
        } else {
            assert(m.push(ls.last()).drop_last() =~= m);
        }
    }
}

proof fn lemma_lookup_rewritten_all(ls: Seq<Seq<char>>, key: Seq<char>, value: Seq<char>)
    requires
        is_plain_key(key),
        assignments_come_first(ls, key),
    ensures
        ({
            let r = rewritten(ls, key, value);
            lookup(
                if any_assigns(r, key) {
                    r
                } else {
                    r.push(assignment(key, value))
                },
                key,
            ) == Some(value)
        }),
{
    let r = rewritten(ls, key, value);
    lemma_assignment_parses(key, value);
    lemma_lookup_rewritten(ls, key, value, ls.len() as int);
    assert(ls.take(ls.len() as int) =~= ls);
    assert(r.take(ls.len() as int) =~= r);
    if !any_assigns(r, key) {
        assert(r.push(assignment(key, value)).drop_last() =~= r);
    }
}

proof fn lemma_lookup_updated(content: Option<Seq<char>>, key: Seq<char>, value: Seq<char>)
    requires
        is_plain_key(key),
        content matches Some(c) ==> assignments_come_first(lines(c), key),
    ensures
        lookup(updated_lines(content, key, value), key) == Some(value),
{
    match content {
        Some(c) => {
            lemma_lookup_rewritten_all(lines(c), key, value);
            let r = rewritten(lines(c), key, value);
            let x = if any_assigns(r, key) {
                r
            } else {
                r.push(assignment(key, value))
            };
            assert(lookup(x, key) == Some(value));
            assert(updated_lines(content, key, value) == x);
            assert(lookup(updated_lines(content, key, value), key) == Some(value));
        },
        None => {
            lemma_assignment_parses(key, value);
            let u = updated_lines(content, key, value);
            assert(u =~= seq![assignment(key, value)]);
            assert(u.drop_last() =~= Seq::<Seq<char>>::empty());
            assert(u.last() == assignment(key, value));
            assert(lookup(u.drop_last(), key) is None);
            assert(lookup(u, key) == Some(value));
        },
    }
}

proof fn lemma_updated_no_newline(content: Option<Seq<char>>, key: Seq<char>, value: Seq<char>)
    requires
        is_plain_key(key),
        !value.contains('\n'),
    ensures
        forall|i: int|
            0 <= i < updated_lines(content, key, value).len() ==> !(#[trigger] updated_lines(
                content,
                key,
                value,
            )[i]).contains('\n'),
{
    lemma_assignment_parses(key, value);
    let u = updated_lines(content, key, value);
    if let Some(c) = content {
        lemma_lines_no_newline(c);
    }
    assert forall|i: int| 0 <= i < u.len() implies !(#[trigger] u[i]).contains('\n') by {
        if let Some(c) = content {
            if i < lines(c).len() {
                assert(!lines(c)[i].contains('\n'));
            }
        }
    }
}

/// Reading a key back from the environment file after writing it gives the
/// value written: for a key that the format can hold, a value without line
/// breaks, and an old file in which no line reads the key before the first
/// line that writing replaces (or no old file at all).
pub proof fn lemma_get_after_set(content: Option<Seq<char>>, key: Seq<char>, value: Seq<char>)
    requires
        is_plain_key(key),
        !value.contains('\n'),
        content matches Some(c) ==> assignments_come_first(lines(c), key),
    ensures
        env_value(updated_env_file(content, key, value), key) == Some(value),
{
    lemma_lookup_updated(content, key, value);
    lemma_updated_no_newline(content, key, value);
    lemma_lookup_join(updated_lines(content, key, value), key);
}

// ---------------------------------------------------------------------------
// What reading and writing a key mean
// ---------------------------------------------------------------------------

/// Whether the line parses to an assignment of exactly `key`.
pub open spec fn names_key(line: Seq<char>, key: Seq<char>) -> bool {
    match parse_entry(line) {
        Some(e) => e.0 == key,
        None => false,
    }
}

/// A line `k1=v` (for a key the format can hold and a value without
/// surrounding whitespace) gives a value for `k1` and for no other key: the
/// name read must equal the key asked for exactly, not merely start with it
/// or differ from it in case. The value is `v`, without the double quotes
/// when `v` is enclosed in them.
pub proof fn lemma_line_gives_only_its_own_key(k1: Seq<char>, v: Seq<char>, k2: Seq<char>)
    requires
        is_plain_key(k1),
        k1.len() > 0,
        v.len() == 0 || (!is_ws(v[0]) && !is_ws(v.last())),
    ensures
        value_in_line(k1 + seq!['='] + v, k2) == (if k2 != k1 {
            None
        } else if v.len() >= 2 && v[0] == '"' && v[v.len() - 1] == '"' {
            Some(v.subrange(1, v.len() - 1))
        } else {
            Some(v)
        }),
{
    let a = k1 + seq!['='] + v;
    let n: int = k1.len() as int;
    assert(a[n] == '=');
    assert(a[0] == k1[0]);
    assert(a.last() == if v.len() > 0 { v.last() } else { '=' });
    lemma_trim_unchanged(a);
    assert forall|j: int| 0 <= j < n implies a[j] != '=' by {
        assert(a[j] == k1[j]);
    }
    lemma_first_index_of(a, '=', n);
    assert(a.take(n) =~= k1);
    assert(k1.last() == k1[n - 1]);
    lemma_trim_unchanged(k1);
    assert(a.skip(n + 1) =~= v);
    lemma_trim_unchanged(v);
}

proof fn lemma_lookup_first(ls: Seq<Seq<char>>, key: Seq<char>)
    ensures
        lookup(ls, key) matches Some(v) ==> exists|i: int|
            0 <= i < ls.len() && parse_entry(#[trigger] ls[i]) == Some((key, v)) && forall|j: int|
                0 <= j < i ==> !names_key(ls[j], key),
        lookup(ls, key) is None ==> forall|i: int| 0 <= i < ls.len() ==> !names_key(#[trigger] ls[i], key),
    decreases ls.len(),
{
    if ls.len() > 0 {
        let d = ls.drop_last();
        lemma_lookup_first(d, key);
        let last: int = ls.len() - 1;
        assert(ls.last() == ls[last]);
        match lookup(d, key) {
            Some(v) => {
                let i: int = choose|i: int|
                    0 <= i < d.len() && parse_entry(#[trigger] d[i]) == Some((key, v)) && forall|j: int|
                        0 <= j < i ==> !names_key(d[j], key);
                assert(ls[i] == d[i]);
                assert forall|j: int| 0 <= j < i implies !names_key(ls[j], key) by {
                    assert(ls[j] == d[j]);
                }
            },
            None => {
                assert forall|j: int| 0 <= j < last implies !names_key(ls[j], key) by {
                    assert(ls[j] == d[j]);
                    assert(!names_key(d[j], key));
                }
                if let Some(v) = lookup(ls, key) {
                    assert(parse_entry(ls[last]) == Some((key, v)));
                }
            },
        }
    }
}

/// The value read for `key` is that of the first line whose name is exactly
/// `key`: some line parses to `(key, value)` and no earlier line parses to a
/// name equal to `key`; and nothing is read only when no line's name equals
/// `key`.
pub proof fn lemma_value_is_first_exact_assignment(content: Seq<char>, key: Seq<char>)
    ensures
        env_value(content, key) matches Some(v) ==> exists|i: int|
            0 <= i < lines(content).len() && parse_entry(#[trigger] lines(content)[i]) == Some(
                (key, v),
            ) && forall|j: int| 0 <= j < i ==> !names_key(lines(content)[j], key),
        env_value(content, key) is None ==> forall|i: int|
            0 <= i < lines(content).len() ==> !names_key(#[trigger] lines(content)[i], key),
{
    lemma_lookup_first(lines(content), key);
}

/// A line that writing `key` replaces is one that assigns `key` itself.
proof fn lemma_assigning_line_names_key(l: Seq<char>, key: Seq<char>)
    requires
        is_plain_key(key),
        assigns_key(l, key),
    ensures
        names_key(l, key),
{
    let p = key.push('=');
    let ts = trim_start(l);
    lemma_trim_end_keeps_prefix(ts, p);
    let t = trim(l);
    let n: int = key.len() as int;
    assert(t[n] == p[n]);
    assert(t[0] == p[0]);
    assert forall|j: int| 0 <= j < n implies t[j] != '=' by {
        assert(t[j] == p[j]);
        assert(p[j] == key[j]);
    }
    lemma_first_index_of(t, '=', n);
    assert(t.take(n) =~= key);
    if n > 0 {
        assert(key.last() == key[n - 1]);
    }
    lemma_trim_unchanged(key);
}

proof fn lemma_lookup_same_values(a: Seq<Seq<char>>, b: Seq<Seq<char>>, key: Seq<char>)
    requires
        a.len() == b.len(),
        forall|i: int| 0 <= i < a.len() ==> #[trigger] value_in_line(a[i], key) == value_in_line(b[i], key),
    ensures
        lookup(a, key) == lookup(b, key),
    decreases a.len(),
{
    if a.len() > 0 {
        assert(value_in_line(a[a.len() - 1], key) == value_in_line(b[b.len() - 1], key));
        lemma_lookup_same_values(a.drop_last(), b.drop_last(), key);
    }
}

/// Writing one key leaves every other key as it was: reading any key other
/// than the one written gives what the old file gave (nothing when there
/// was no old file), for a written key that the format can hold and a value
/// without line breaks. In particular a line of a key that differs only in
/// case is kept.
pub proof fn lemma_set_keeps_other_keys(
    content: Option<Seq<char>>,
    key: Seq<char>,
    value: Seq<char>,
    other: Seq<char>,
)
    requires
        is_plain_key(key),
        !value.contains('\n'),
        other != key,
    ensures
        env_value(updated_env_file(content, key, value), other) == match content {
            Some(c) => env_value(c, other),
            None => None,
        },
{
    let a = assignment(key, value);
    lemma_assignment_parses(key, value);
    lemma_assigning_line_names_key(a, key);
    assert(value_in_line(a, other) is None);
    let u = updated_lines(content, key, value);
    lemma_updated_no_newline(content, key, value);
    lemma_lookup_join(u, other);
    let ls: Seq<Seq<char>> = match content {
        Some(c) => lines(c),
        None => Seq::<Seq<char>>::empty(),
    };
    let r = rewritten(ls, key, value);
    assert forall|i: int| 0 <= i < r.len() implies #[trigger] value_in_line(r[i], other)
        == value_in_line(ls[i], other) by {
        if assigns_key(ls[i], key) {
            lemma_assigning_line_names_key(ls[i], key);
        }
    }
    lemma_lookup_same_values(r, ls, other);
    assert(u == (if any_assigns(r, key) {
        r
    } else {
        r.push(a)
    }));
    if !any_assigns(r, key) {
        assert(r.push(a).drop_last() =~= r);
    }
    if content is None {
        assert(ls.len() == 0);
        assert(lookup(ls, other) is None);
    }
}

} // verus!
