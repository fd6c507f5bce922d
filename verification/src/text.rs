//! Character-level building blocks: the mathematical meaning of the string
//! operations the library relies on (splitting, ASCII case folding), and
//! verified loops that compute them on `Vec<char>`.
use vstd::prelude::*;

verus! {

// ---------------------------------------------------------------------------
// Specifications
// ---------------------------------------------------------------------------

/// The fields of `s` between occurrences of `sep`, as `str::split(sep)` yields
/// them: always at least one field, possibly empty ones.
pub open spec fn split_on(s: Seq<char>, sep: char) -> Seq<Seq<char>>
    decreases s.len(),
{
    if s.len() == 0 {
        seq![Seq::<char>::empty()]
    } else {
        let f = split_on(s.drop_last(), sep);
        if s.last() == sep {
            f.push(Seq::<char>::empty())
        } else {
            f.update(f.len() - 1, f.last().push(s.last()))
        }
    }
}

/// A character with ASCII upper-case letters folded to lower case, as a code
/// point (`char::to_ascii_lowercase`).
pub open spec fn ascii_fold(c: char) -> int {
    if 'A' <= c && c <= 'Z' {
        c as int + 32
    } else {
        c as int
    }
}

/// `str::eq_ignore_ascii_case`: equal after folding ASCII letters.
pub open spec fn eq_ignore_ascii_case(a: Seq<char>, b: Seq<char>) -> bool {
    &&& a.len() == b.len()
    &&& forall|i: int| 0 <= i < a.len() ==> #[trigger] ascii_fold(a[i]) == ascii_fold(b[i])
}


/// `char::is_whitespace`: the characters with the Unicode `White_Space`
/// property.
pub open spec fn is_ws(c: char) -> bool {
    ||| ('\t' <= c && c <= '\r')
    ||| c == ' '
    ||| c == '\u{85}'
    ||| c == '\u{A0}'
    ||| c == '\u{1680}'
    ||| ('\u{2000}' <= c && c <= '\u{200A}')
    ||| c == '\u{2028}'
    ||| c == '\u{2029}'
    ||| c == '\u{202F}'
    ||| c == '\u{205F}'
    ||| c == '\u{3000}'
}

/// `str::trim_start`: `s` without its leading whitespace.
pub open spec fn trim_start(s: Seq<char>) -> Seq<char>
    decreases s.len(),
{
    if s.len() > 0 && is_ws(s[0]) {
        trim_start(s.drop_first())
    } else {
        s
    }
}

/// `str::trim_end`: `s` without its trailing whitespace.
pub open spec fn trim_end(s: Seq<char>) -> Seq<char>
    decreases s.len(),
{
    if s.len() > 0 && is_ws(s.last()) {
        trim_end(s.drop_last())
    } else {
        s
    }
}

/// `str::trim`: `s` without leading and trailing whitespace.
pub open spec fn trim(s: Seq<char>) -> Seq<char> {
    trim_end(trim_start(s))
}

/// A line without the carriage return that ended it.
pub open spec fn strip_cr(l: Seq<char>) -> Seq<char> {
    if l.len() > 0 && l.last() == '\r' {
        l.drop_last()
    } else {
        l
    }
}

/// `str::lines` (and `BufRead::lines`): the text split at `\n`, each line
/// that a `\n` ended also losing a `\r` before it, and no final empty line
/// after a last `\n`.
pub open spec fn lines(s: Seq<char>) -> Seq<Seq<char>> {
    let parts = split_on(s, '\n');
    let ended = parts.drop_last().map_values(|l: Seq<char>| strip_cr(l));
    if parts.last().len() == 0 {
        ended
    } else {
        ended.push(parts.last())
    }
}

/// The lines joined with `\n` between them (`[..].join("\n")`).
pub open spec fn join_lines(ls: Seq<Seq<char>>) -> Seq<char>
    decreases ls.len(),
{
    if ls.len() == 0 {
        Seq::<char>::empty()
    } else if ls.len() == 1 {
        ls[0]
    } else {
        join_lines(ls.drop_last()).push('\n') + ls.last()
    }
}

/// The contents of a vector of lines.
pub open spec fn views(ls: Seq<Vec<char>>) -> Seq<Seq<char>> {
    ls.map_values(|l: Vec<char>| l@)
}

// ---------------------------------------------------------------------------
// Lemmas
// ---------------------------------------------------------------------------

/// Splitting never yields an empty list of fields.
pub proof fn lemma_split_on_len(s: Seq<char>, sep: char)
    ensures
        split_on(s, sep).len() >= 1,
    decreases s.len(),
{
    if s.len() > 0 {
        lemma_split_on_len(s.drop_last(), sep);
    }
}

/// No field contains the separator.
pub proof fn lemma_split_on_fields_free(s: Seq<char>, sep: char)
    ensures
        forall|k: int| 0 <= k < split_on(s, sep).len() ==> !(#[trigger] split_on(s, sep)[k]).contains(sep),
    decreases s.len(),
{
    if s.len() > 0 {
        lemma_split_on_len(s.drop_last(), sep);
        lemma_split_on_fields_free(s.drop_last(), sep);
        let f = split_on(s.drop_last(), sep);
        assert forall|k: int| 0 <= k < split_on(s, sep).len() implies !(#[trigger] split_on(s, sep)[k]).contains(sep) by {
            if s.last() != sep && k == f.len() - 1 {
                let fl = f.last().push(s.last());
                if fl.contains(sep) {
                    let j: int = choose|j: int| 0 <= j < fl.len() && fl[j] == sep;
                    assert(f.last()[j] == sep);
                }
            } else if s.last() == sep && k == f.len() {
                assert(split_on(s, sep)[k] =~= Seq::<char>::empty());
            }
        }
    }
}

/// Appending a separator and then a separator-free text adds that text as a
/// new last field.
pub proof fn lemma_split_on_append_field(s: Seq<char>, t: Seq<char>, sep: char)
    requires
        !t.contains(sep),
    ensures
        split_on(s.push(sep) + t, sep) == split_on(s, sep).push(t),
{
    lemma_split_on_extend_last(s.push(sep), t, sep);
    lemma_split_on_push_sep(s, sep);
    assert(Seq::<char>::empty() + t =~= t);
    assert(split_on(s, sep).push(Seq::<char>::empty()).update(split_on(s, sep).len() as int, t)
        =~= split_on(s, sep).push(t));
}

/// Appending separator-free text to a text extends its last field.
pub proof fn lemma_split_on_extend_last(s: Seq<char>, t: Seq<char>, sep: char)
    requires
        !t.contains(sep),
    ensures
        split_on(s + t, sep).len() == split_on(s, sep).len(),
        split_on(s + t, sep) == split_on(s, sep).update(
            split_on(s, sep).len() - 1,
            split_on(s, sep).last() + t,
        ),
    decreases t.len(),
{
    lemma_split_on_len(s, sep);
    if t.len() == 0 {
        assert(s + t =~= s);
        assert(split_on(s, sep).last() + t =~= split_on(s, sep).last());
        assert(split_on(s, sep).update(split_on(s, sep).len() - 1, split_on(s, sep).last())
            =~= split_on(s, sep));
    } else {
        let u = t.drop_last();
        assert(!u.contains(sep)) by {
            if u.contains(sep) {
                let j: int = choose|j: int| 0 <= j < u.len() && u[j] == sep;
                assert(t[j] == sep);
            }
        }
        lemma_split_on_extend_last(s, u, sep);
        assert((s + t).drop_last() =~= s + u);
        assert((s + t).last() == t[t.len() - 1]);
        assert(t[t.len() - 1] != sep);
        assert((split_on(s, sep).last() + u).push(t.last()) =~= split_on(s, sep).last() + t);
        assert(split_on(s + t, sep) =~= split_on(s, sep).update(
            split_on(s, sep).len() - 1,
            split_on(s, sep).last() + t,
        ));
    }
}

/// Appending a separator opens a new, empty last field.
pub proof fn lemma_split_on_push_sep(s: Seq<char>, sep: char)
    ensures
        split_on(s.push(sep), sep) == split_on(s, sep).push(Seq::<char>::empty()),
{
    assert(s.push(sep).drop_last() =~= s);
}

/// Splitting a text made of two texts around a separator splits each part.
pub proof fn lemma_split_on_concat(x: Seq<char>, y: Seq<char>, sep: char)
    ensures
        split_on(x.push(sep) + y, sep) == split_on(x, sep) + split_on(y, sep),
    decreases y.len(),
{
    let a = split_on(x, sep);
    if y.len() == 0 {
        assert(x.push(sep) + y =~= x.push(sep));
        lemma_split_on_push_sep(x, sep);
        assert(split_on(y, sep) =~= seq![Seq::<char>::empty()]);
        assert(a.push(Seq::<char>::empty()) =~= a + seq![Seq::<char>::empty()]);
    } else {
        let z = x.push(sep) + y;
        let yd = y.drop_last();
        assert(z.drop_last() =~= x.push(sep) + yd);
        assert(z.last() == y.last());
        lemma_split_on_concat(x, yd, sep);
        lemma_split_on_len(yd, sep);
        let b = split_on(yd, sep);
        if y.last() == sep {
            assert((a + b).push(Seq::<char>::empty()) =~= a + b.push(Seq::<char>::empty()));
        } else {
            assert((a + b).last() == b.last());
            assert((a + b).update(a.len() + b.len() - 1, b.last().push(y.last())) =~= a + b.update(
                b.len() - 1,
                b.last().push(y.last()),
            ));
        }
    }
}

/// A separator-free text is a single field.
pub proof fn lemma_split_on_no_sep(t: Seq<char>, sep: char)
    requires
        !t.contains(sep),
    ensures
        split_on(t, sep) == seq![t],
{
    lemma_split_on_extend_last(Seq::<char>::empty(), t, sep);
    assert(Seq::<char>::empty() + t =~= t);
    assert(seq![Seq::<char>::empty()].update(0, Seq::<char>::empty() + t) =~= seq![t]);
}

/// Splitting lines joined with `\n` gives the lines back, when none of them
/// contains `\n`.
pub proof fn lemma_split_join(ls: Seq<Seq<char>>)
    requires
        ls.len() >= 1,
        forall|i: int| 0 <= i < ls.len() ==> !(#[trigger] ls[i]).contains('\n'),
    ensures
        split_on(join_lines(ls), '\n') == ls,
    decreases ls.len(),
{
    if ls.len() == 1 {
        lemma_split_on_no_sep(ls[0], '\n');
        assert(ls =~= seq![ls[0]]);
    } else {
        let dl = ls.drop_last();
        assert forall|i: int| 0 <= i < dl.len() implies !(#[trigger] dl[i]).contains('\n') by {
            assert(dl[i] == ls[i]);
        }
        lemma_split_join(dl);
        assert(!ls[ls.len() - 1].contains('\n'));
        lemma_split_on_append_field(join_lines(dl), ls.last(), '\n');
        assert(dl.push(ls.last()) =~= ls);
    }
}

/// The lines of lines joined with `\n`: the same lines, except that a `\r`
/// ending any but the last is dropped, and so is an empty last line.
pub proof fn lemma_lines_join(ls: Seq<Seq<char>>)
    requires
        ls.len() >= 1,
        forall|i: int| 0 <= i < ls.len() ==> !(#[trigger] ls[i]).contains('\n'),
    ensures
        lines(join_lines(ls)) == (if ls.last().len() == 0 {
            ls.drop_last().map_values(|l: Seq<char>| strip_cr(l))
        } else {
            ls.drop_last().map_values(|l: Seq<char>| strip_cr(l)).push(ls.last())
        }),
{
    lemma_split_join(ls);
}

/// No line contains `\n`.
pub proof fn lemma_lines_no_newline(s: Seq<char>)
    ensures
        forall|i: int| 0 <= i < lines(s).len() ==> !(#[trigger] lines(s)[i]).contains('\n'),
{
    let parts = split_on(s, '\n');
    lemma_split_on_len(s, '\n');
    lemma_split_on_fields_free(s, '\n');
    assert forall|i: int| 0 <= i < lines(s).len() implies !(#[trigger] lines(s)[i]).contains('\n') by {
        if i < parts.len() - 1 {
            let p = parts[i];
            assert(!p.contains('\n'));
            assert(lines(s)[i] == strip_cr(p));
            if strip_cr(p).contains('\n') {
                let j: int = choose|j: int| 0 <= j < strip_cr(p).len() && strip_cr(p)[j] == '\n';
                assert(p[j] == '\n');
            }
        } else {
            assert(lines(s)[i] == parts[parts.len() - 1]);
        }
    }
}

/// Fields lack what the text lacks.
pub proof fn lemma_split_on_fields_lack(s: Seq<char>, sep: char, c: char)
    requires
        !s.contains(c),
    ensures
        forall|k: int| 0 <= k < split_on(s, sep).len() ==> !(#[trigger] split_on(s, sep)[k]).contains(c),
    decreases s.len(),
{
    if s.len() > 0 {
        lemma_subrange_lacks(s, 0, s.len() - 1, c);
        assert(s.drop_last() =~= s.subrange(0, s.len() - 1));
        lemma_split_on_len(s.drop_last(), sep);
        lemma_split_on_fields_lack(s.drop_last(), sep, c);
        let f = split_on(s.drop_last(), sep);
        assert forall|k: int| 0 <= k < split_on(s, sep).len() implies !(#[trigger] split_on(s, sep)[k]).contains(c) by {
            if s.last() != sep && k == f.len() - 1 {
                let fl = f.last().push(s.last());
                assert(s.last() == s[s.len() - 1]);
                if fl.contains(c) {
                    let j: int = choose|j: int| 0 <= j < fl.len() && fl[j] == c;
                    if j < f.last().len() {
                        assert(f.last()[j] == c);
                    }
                }
            } else if s.last() == sep && k == f.len() {
                assert(split_on(s, sep)[k] =~= Seq::<char>::empty());
            }
        }
    }
}

/// Joining the `\n`-separated fields of a text with `\n` gives the text.
pub proof fn lemma_join_split(s: Seq<char>)
    ensures
        join_lines(split_on(s, '\n')) == s,
    decreases s.len(),
{
    if s.len() > 0 {
        let d = s.drop_last();
        lemma_join_split(d);
        lemma_split_on_len(d, '\n');
        let f = split_on(d, '\n');
        let c = s.last();
        if c == '\n' {
            let g = f.push(Seq::<char>::empty());
            assert(g.drop_last() =~= f);
            assert(join_lines(g) =~= join_lines(f).push('\n'));
            assert(d.push('\n') =~= s);
        } else {
            let g = f.update(f.len() - 1, f.last().push(c));
            if f.len() == 1 {
                assert(join_lines(g) == g[0]);
                assert(join_lines(f) == f[0]);
            } else {
                assert(g.drop_last() =~= f.drop_last());
                assert(join_lines(g) =~= join_lines(f.drop_last()).push('\n') + f.last().push(c));
                assert(join_lines(f) =~= join_lines(f.drop_last()).push('\n') + f.last());
            }
            assert(join_lines(g) =~= join_lines(f).push(c));
            assert(d.push(c) =~= s);
        }
    }
}

/// For a text without carriage returns, its lines hold no `\n` and joined
/// with `\n` give the text back, less a final `\n`.
pub proof fn lemma_lines_rejoin(s: Seq<char>)
    requires
        !s.contains('\r'),
    ensures
        join_lines(lines(s)) == (if s.len() > 0 && s.last() == '\n' {
            s.drop_last()
        } else {
            s
        }),
        forall|i: int| 0 <= i < lines(s).len() ==> !(#[trigger] lines(s)[i]).contains('\n'),
{
    lemma_lines_no_newline(s);
    let parts = split_on(s, '\n');
    lemma_split_on_len(s, '\n');
    lemma_split_on_fields_lack(s, '\n', '\r');
    lemma_split_on_fields_free(s, '\n');
    lemma_join_split(s);
    let dl = parts.drop_last();
    assert(dl.map_values(|l: Seq<char>| strip_cr(l)) =~= dl) by {
        assert forall|k: int| 0 <= k < dl.len() implies strip_cr(dl[k]) == dl[k] by {
            assert(dl[k] == parts[k]);
            assert(!parts[k].contains('\r'));
            if dl[k].len() > 0 {
                assert(dl[k].last() == dl[k][dl[k].len() - 1]);
            }
        }
    }
    let last = parts.last();
    if last.len() == 0 {
        if parts.len() == 1 {
            assert(s.len() == 0);
        } else {
            assert(parts =~= dl.push(last));
            assert(s =~= join_lines(dl).push('\n') + last);
            assert(s.drop_last() =~= join_lines(dl));
        }
    } else {
        assert(dl.push(last) =~= parts);
        assert(!last.contains('\n'));
        assert(last.last() == last[last.len() - 1]);
        if parts.len() == 1 {
            assert(s == parts[0]);
        } else {
            assert(s =~= join_lines(dl).push('\n') + last);
        }
        assert(s.last() == last.last());
    }
}

proof fn lemma_trim_start_shape(s: Seq<char>) -> (i: int)
    ensures
        0 <= i <= s.len(),
        trim_start(s) == s.subrange(i, s.len() as int),
        forall|k: int| 0 <= k < i ==> is_ws(#[trigger] s[k]),
        i == s.len() || !is_ws(s[i]),
    decreases s.len(),
{
    if s.len() > 0 && is_ws(s[0]) {
        let i0 = lemma_trim_start_shape(s.drop_first());
        assert(s.drop_first().subrange(i0, s.len() - 1) =~= s.subrange(i0 + 1, s.len() as int));
        assert forall|k: int| 0 <= k < i0 + 1 implies is_ws(#[trigger] s[k]) by {
            if k > 0 {
                assert(s[k] == s.drop_first()[k - 1]);
            }
        }
        if i0 + 1 < s.len() {
            assert(s[i0 + 1] == s.drop_first()[i0]);
        }
        i0 + 1
    } else {
        assert(s.subrange(0, s.len() as int) =~= s);
        0
    }
}

proof fn lemma_trim_end_shape(s: Seq<char>) -> (j: int)
    ensures
        0 <= j <= s.len(),
        trim_end(s) == s.subrange(0, j),
        forall|k: int| j <= k < s.len() ==> is_ws(#[trigger] s[k]),
        j == 0 || !is_ws(s[j - 1]),
    decreases s.len(),
{
    if s.len() > 0 && is_ws(s.last()) {
        let j0 = lemma_trim_end_shape(s.drop_last());
        assert(s.drop_last().subrange(0, j0) =~= s.subrange(0, j0));
        assert forall|k: int| j0 <= k < s.len() implies is_ws(#[trigger] s[k]) by {
            if k < s.len() - 1 {
                assert(s[k] == s.drop_last()[k]);
            }
        }
        if j0 > 0 {
            assert(s[j0 - 1] == s.drop_last()[j0 - 1]);
        }
        j0
    } else {
        assert(s.subrange(0, s.len() as int) =~= s);
        if s.len() > 0 {
            assert(s.last() == s[s.len() - 1]);
        }
        s.len() as int
    }
}

/// What trimming keeps: the stretch of the text from its first to its last
/// non-whitespace character (nothing when every character is whitespace);
/// everything before and after that stretch is whitespace.
pub proof fn lemma_trim_shape(s: Seq<char>) -> (r: (int, int))
    ensures
        0 <= r.0 <= r.1 <= s.len(),
        trim(s) == s.subrange(r.0, r.1),
        forall|k: int| 0 <= k < r.0 ==> is_ws(#[trigger] s[k]),
        forall|k: int| r.1 <= k < s.len() ==> is_ws(#[trigger] s[k]),
        r.0 == r.1 || (!is_ws(s[r.0]) && !is_ws(s[r.1 - 1])),
{
    let i = lemma_trim_start_shape(s);
    let t = s.subrange(i, s.len() as int);
    let j = lemma_trim_end_shape(t);
    assert(t.subrange(0, j) =~= s.subrange(i, i + j));
    assert forall|k: int| i + j <= k < s.len() implies is_ws(#[trigger] s[k]) by {
        assert(s[k] == t[k - i]);
    }
    if j > 0 {
        assert(s[i + j - 1] == t[j - 1]);
        assert(s[i] == t[0]);
    }
    (i, i + j)
}

/// Removing leading whitespace from a text extended by one character.
pub proof fn lemma_trim_start_push(m: Seq<char>, c: char)
    ensures
        trim_start(m.push(c)) == (if trim_start(m).len() == 0 {
            trim_start(seq![c])
        } else {
            trim_start(m).push(c)
        }),
    decreases m.len(),
{
    if m.len() == 0 {
        assert(m.push(c) =~= seq![c]);
    } else {
        assert(m.push(c).drop_first() =~= m.drop_first().push(c));
        assert(m.push(c)[0] == m[0]);
        if is_ws(m[0]) {
            lemma_trim_start_push(m.drop_first(), c);
        }
    }
}

/// A line keeps its trimmed text when the `\r` ending it is dropped.
pub proof fn lemma_trim_strip_cr(l: Seq<char>)
    ensures
        trim(strip_cr(l)) == trim(l),
{
    if l.len() > 0 && l.last() == '\r' {
        let m = l.drop_last();
        assert(m.push('\r') =~= l);
        lemma_trim_start_push(m, '\r');
        assert(is_ws('\r'));
        if trim_start(m).len() == 0 {
            assert(seq!['\r'].drop_first() =~= Seq::<char>::empty());
            assert(trim_start(seq!['\r']) == trim_start(Seq::<char>::empty()));
        } else {
            assert(trim_start(m).push('\r').drop_last() =~= trim_start(m));
        }
    }
}

/// Removing trailing whitespace keeps a prefix that ends in a
/// non-whitespace character.
pub proof fn lemma_trim_end_keeps_prefix(s: Seq<char>, p: Seq<char>)
    requires
        p.is_prefix_of(s),
        p.len() > 0,
        !is_ws(p.last()),
    ensures
        p.is_prefix_of(trim_end(s)),
    decreases s.len(),
{
    if s.len() > 0 && is_ws(s.last()) {
        if s.len() == p.len() {
            assert(s.last() == p.last());
        }
        assert(s.drop_last().subrange(0, p.len() as int) =~= s.subrange(0, p.len() as int));
        lemma_trim_end_keeps_prefix(s.drop_last(), p);
    }
}

/// A text that neither starts nor ends with whitespace is its own trim.
pub proof fn lemma_trim_unchanged(s: Seq<char>)
    requires
        s.len() == 0 || (!is_ws(s[0]) && !is_ws(s.last())),
    ensures
        trim(s) == s,
{
}

/// Removing leading whitespace introduces no character.
pub proof fn lemma_trim_start_lacks(s: Seq<char>, c: char)
    requires
        !s.contains(c),
    ensures
        !trim_start(s).contains(c),
    decreases s.len(),
{
    if s.len() > 0 && is_ws(s[0]) {
        lemma_subrange_lacks(s, 1, s.len() as int, c);
        assert(s.drop_first() =~= s.subrange(1, s.len() as int));
        lemma_trim_start_lacks(s.drop_first(), c);
    }
}

/// Removing trailing whitespace introduces no character.
pub proof fn lemma_trim_end_lacks(s: Seq<char>, c: char)
    requires
        !s.contains(c),
    ensures
        !trim_end(s).contains(c),
    decreases s.len(),
{
    if s.len() > 0 && is_ws(s.last()) {
        lemma_subrange_lacks(s, 0, s.len() - 1, c);
        assert(s.drop_last() =~= s.subrange(0, s.len() - 1));
        lemma_trim_end_lacks(s.drop_last(), c);
    }
}

/// A part of a text lacks what the text lacks.
pub proof fn lemma_subrange_lacks(s: Seq<char>, i: int, j: int, c: char)
    requires
        !s.contains(c),
        0 <= i <= j <= s.len(),
    ensures
        !s.subrange(i, j).contains(c),
{
    if s.subrange(i, j).contains(c) {
        let k: int = choose|k: int| 0 <= k < j - i && s.subrange(i, j)[k] == c;
        assert(s[i + k] == c);
    }
}

// ---------------------------------------------------------------------------
// Executable helpers
// ---------------------------------------------------------------------------

/// The characters of `s`, in order.
pub fn chars_of(s: &str) -> (v: Vec<char>)
    ensures
        v@ == s@,
{
    let mut v: Vec<char> = Vec::new();
    for c in it: s.chars()
        invariant
            v@ == it.seq().take(it.index() as int),
            it.seq() == s@,
    {
        v.push(c);
    }
    v
}

/// Appends one character to a `String` by `String::push`. Trusted: the
/// contract claims that `push` adds exactly `c` at the end and changes
/// nothing else, as std's documentation states.
#[verifier::external_body]
fn push_char(s: &mut String, c: char)
    ensures
        final(s)@ == old(s)@.push(c),
{
    s.push(c);
}

/// Appends all characters of `v` to `s`.
pub fn push_chars(s: &mut String, v: &Vec<char>)
    ensures
        final(s)@ == old(s)@ + v@,
{
    let ghost start = s@;
    let mut i: usize = 0;
    while i < v.len()
        invariant
            i <= v.len(),
            s@ == start + v@.take(i as int),
        decreases v.len() - i,
    {
        push_char(s, v[i]);
        i = i + 1;
        assert(v@.take(i as int) =~= v@.take(i - 1).push(v@[i - 1]));
    }
    assert(v@.take(v.len() as int) =~= v@);
}

/// A `String` holding exactly the characters of `v`.
pub fn string_from_chars(v: &Vec<char>) -> (s: String)
    ensures
        s@ == v@,
{
    let mut s = String::new();
    push_chars(&mut s, v);
    assert(Seq::<char>::empty() + v@ =~= v@);
    s
}

/// `char::is_whitespace`.
pub fn is_whitespace(c: char) -> (r: bool)
    ensures
        r == is_ws(c),
{
    ('\t' <= c && c <= '\r') || c == ' ' || c == '\u{85}' || c == '\u{A0}' || c == '\u{1680}'
        || ('\u{2000}' <= c && c <= '\u{200A}') || c == '\u{2028}' || c == '\u{2029}' || c
        == '\u{202F}' || c == '\u{205F}' || c == '\u{3000}'
}

/// The start of `v[start..end]` once leading whitespace is skipped.
pub fn trim_start_at(v: &Vec<char>, start: usize, end: usize) -> (a: usize)
    requires
        start <= end <= v.len(),
    ensures
        start <= a <= end,
        v@.subrange(a as int, end as int) == trim_start(v@.subrange(start as int, end as int)),
{
    let mut a: usize = start;
    while a < end && is_whitespace(v[a])
        invariant
            start <= a <= end <= v.len(),
            trim_start(v@.subrange(a as int, end as int)) == trim_start(
                v@.subrange(start as int, end as int),
            ),
        decreases end - a,
    {
        assert(v@.subrange(a as int, end as int).drop_first() =~= v@.subrange(a + 1, end as int));
        a = a + 1;
    }
    a
}

/// The end of `v[start..end]` once trailing whitespace is dropped.
pub fn trim_end_at(v: &Vec<char>, start: usize, end: usize) -> (b: usize)
    requires
        start <= end <= v.len(),
    ensures
        start <= b <= end,
        v@.subrange(start as int, b as int) == trim_end(v@.subrange(start as int, end as int)),
{
    let mut b: usize = end;
    while b > start && is_whitespace(v[b - 1])
        invariant
            start <= b <= end <= v.len(),
            trim_end(v@.subrange(start as int, b as int)) == trim_end(
                v@.subrange(start as int, end as int),
            ),
        decreases b - start,
    {
        assert(v@.subrange(start as int, b as int).drop_last() =~= v@.subrange(
            start as int,
            b - 1,
        ));
        b = b - 1;
    }
    b
}

/// The bounds of `v[start..end]` with leading and trailing whitespace removed.
pub fn trim_at(v: &Vec<char>, start: usize, end: usize) -> (r: (usize, usize))
    requires
        start <= end <= v.len(),
    ensures
        start <= r.0 <= r.1 <= end,
        v@.subrange(r.0 as int, r.1 as int) == trim(v@.subrange(start as int, end as int)),
{
    let a: usize = trim_start_at(v, start, end);
    let b: usize = trim_end_at(v, a, end);
    (a, b)
}

/// A copy of `v[start..end]`.
pub fn copy_range(v: &Vec<char>, start: usize, end: usize) -> (r: Vec<char>)
    requires
        start <= end <= v.len(),
    ensures
        r@ == v@.subrange(start as int, end as int),
{
    let mut r: Vec<char> = Vec::new();
    let mut i: usize = start;
    while i < end
        invariant
            start <= i <= end <= v.len(),
            r@ == v@.subrange(start as int, i as int),
        decreases end - i,
    {
        r.push(v[i]);
        i = i + 1;
        assert(r@ =~= v@.subrange(start as int, i as int));
    }
    r
}

/// Whether `v[start..end]` equals `w`.
pub fn range_equals(v: &Vec<char>, start: usize, end: usize, w: &Vec<char>) -> (r: bool)
    requires
        start <= end <= v.len(),
    ensures
        r == (v@.subrange(start as int, end as int) == w@),
{
    if end - start != w.len() {
        return false;
    }
    let mut i: usize = 0;
    while i < w.len()
        invariant
            end - start == w.len(),
            start <= end <= v.len(),
            i <= w.len(),
            forall|j: int| 0 <= j < i ==> v@[start + j] == w@[j],
        decreases w.len() - i,
    {
        if v[start + i] != w[i] {
            assert(v@.subrange(start as int, end as int)[i as int] != w@[i as int]);
            return false;
        }
        i = i + 1;
    }
    assert(v@.subrange(start as int, end as int) =~= w@);
    true
}

/// The lines of `v`, as `str::lines` yields them.
pub fn split_lines(v: &Vec<char>) -> (r: Vec<Vec<char>>)
    ensures
        views(r@) == lines(v@),
{
    let mut r: Vec<Vec<char>> = Vec::new();
    let mut cur: Vec<char> = Vec::new();
    let mut i: usize = 0;
    while i < v.len()
        invariant
            i <= v.len(),
            split_on(v@.take(i as int), '\n').len() >= 1,
            views(r@) == split_on(v@.take(i as int), '\n').drop_last().map_values(
                |l: Seq<char>| strip_cr(l),
            ),
            cur@ == split_on(v@.take(i as int), '\n').last(),
        decreases v.len() - i,
    {
        let ghost f = split_on(v@.take(i as int), '\n');
        assert(v@.take(i + 1).drop_last() =~= v@.take(i as int));
        if v[i] == '\n' {
            let ghost line = strip_cr(cur@);
            if cur.len() > 0 && cur[cur.len() - 1] == '\r' {
                cur.pop();
            }
            assert(cur@ =~= line);
            let ghost r_old = r@;
            r.push(cur);
            assert(views(r@) =~= views(r_old).push(line));
            cur = Vec::new();
            proof {
                let g = split_on(v@.take(i + 1), '\n');
                assert(g =~= f.push(Seq::<char>::empty()));
                assert(g.drop_last() =~= f);
                assert(f.map_values(|l: Seq<char>| strip_cr(l)) =~= f.drop_last().map_values(
                    |l: Seq<char>| strip_cr(l),
                ).push(strip_cr(f.last())));
                assert(views(r@) =~= g.drop_last().map_values(|l: Seq<char>| strip_cr(l)));
                assert(cur@ =~= g.last());
            }
        } else {
            cur.push(v[i]);
            proof {
                let g = split_on(v@.take(i + 1), '\n');
                assert(g =~= f.update(f.len() - 1, f.last().push(v@[i as int])));
                assert(g.drop_last() =~= f.drop_last());
                assert(views(r@) =~= g.drop_last().map_values(|l: Seq<char>| strip_cr(l)));
            }
        }
        i = i + 1;
    }
    assert(v@.take(v.len() as int) =~= v@);
    if cur.len() > 0 {
        let ghost r_old = r@;
        let ghost last = cur@;
        r.push(cur);
        assert(views(r@) =~= views(r_old).push(last));
        assert(views(r@) =~= lines(v@));
    }
    r
}

/// The lines joined with `\n` between them, as a `String`.
pub fn join_with_newlines(ls: &Vec<Vec<char>>) -> (s: String)
    ensures
        s@ == join_lines(views(ls@)),
{
    let mut s = String::new();
    let mut i: usize = 0;
    while i < ls.len()
        invariant
            i <= ls.len(),
            s@ == join_lines(views(ls@).take(i as int)),
        decreases ls.len() - i,
    {
        let ghost prev = views(ls@).take(i as int);
        if i > 0 {
            push_char(&mut s, '\n');
        }
        push_chars(&mut s, &ls[i]);
        i = i + 1;
        proof {
            let now = views(ls@).take(i as int);
            assert(now.drop_last() =~= prev);
            assert(now.last() == ls@[i - 1]@);
            if i == 1 {
                assert(Seq::<char>::empty() + ls@[0]@ =~= ls@[0]@);
            }
        }
    }
    assert(views(ls@).take(ls.len() as int) =~= views(ls@));
    s
}

/// `char::to_ascii_lowercase`, as a code point.
pub fn fold_char(c: char) -> (r: u32)
    ensures
        r == ascii_fold(c),
{
    if 'A' <= c && c <= 'Z' {
        (c as u32) + 32
    } else {
        c as u32
    }
}

/// Whether `s[start..end]` equals `t` ignoring ASCII case.
pub fn eq_ignore_ascii_case_range(s: &Vec<char>, start: usize, end: usize, t: &Vec<char>) -> (r:
    bool)
    requires
        start <= end <= s.len(),
    ensures
        r == eq_ignore_ascii_case(s@.subrange(start as int, end as int), t@),
{
    if end - start != t.len() {
        return false;
    }
    let ghost a = s@.subrange(start as int, end as int);
    let mut i: usize = 0;
    while i < t.len()
        invariant
            end - start == t.len(),
            start <= end <= s.len(),
            a == s@.subrange(start as int, end as int),
            i <= t.len(),
            forall|j: int| 0 <= j < i ==> #[trigger] ascii_fold(a[j]) == ascii_fold(t@[j]),
        decreases t.len() - i,
    {
        if fold_char(s[start + i]) != fold_char(t[i]) {
            assert(a[i as int] == s@[start + i]);
            return false;
        }
        assert(a[i as int] == s@[start + i]);
        i = i + 1;
    }
    true
}

} // verus!
