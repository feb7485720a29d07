//! Derived text artifacts of the table: the aligned human listing (and
//! the reverse parse of a line the picker chose from it), the plain
//! listing, and the shell alias file.

use vstd::prelude::*;
use vstd::string::*;
use crate::codec::ctl_free;
use crate::codec::find_from;
use crate::codec::has_space;
use crate::codec::lemma_find_from_is;
use crate::codec::spec_split_lines;
use crate::codec::contains_space;
use crate::errors::BmarkError;
use crate::table::BookmarkTable;

verus! {

/// `n` spaces.
pub open spec fn spaces(n: nat) -> Seq<char>
    decreases n,
{
    if n == 0 {
        Seq::empty()
    } else {
        spaces((n - 1) as nat).push(' ')
    }
}

/// The longest name length in the table.
pub open spec fn max_name_len(s: Seq<(Seq<char>, Seq<char>)>) -> nat
    decreases s.len(),
{
    if s.len() == 0 {
        0
    } else {
        let m = max_name_len(s.drop_last());
        if s.last().0.len() > m {
            s.last().0.len()
        } else {
            m
        }
    }
}

/// How many spaces pad a name of length `k.len()` to width `w`.
pub open spec fn pad_len(k: Seq<char>, w: nat) -> nat {
    if k.len() >= w {
        0nat
    } else {
        (w - k.len()) as nat
    }
}

/// One listing row, without its line break: the name padded to width
/// `w`, the separator, the path.
pub open spec fn spec_human_row(k: Seq<char>, v: Seq<char>, w: nat, sep: Seq<char>) -> Seq<char> {
    k + spaces(pad_len(k, w)) + sep + v
}

/// One listing line: the row and its line break.
pub open spec fn spec_human_line(k: Seq<char>, v: Seq<char>, w: nat, sep: Seq<char>) -> Seq<char> {
    spec_human_row(k, v, w, sep) + seq!['\n']
}

/// The listing lines for the entries at width `w`.
pub open spec fn spec_human_lines(
    s: Seq<(Seq<char>, Seq<char>)>,
    w: nat,
    sep: Seq<char>,
) -> Seq<char>
    decreases s.len(),
{
    if s.len() == 0 {
        Seq::empty()
    } else {
        spec_human_line(s[0].0, s[0].1, w, sep) + spec_human_lines(s.drop_first(), w, sep)
    }
}

/// The aligned two-column listing: every name padded to the longest
/// name's width, then the separator and the path.
pub open spec fn spec_render_human(s: Seq<(Seq<char>, Seq<char>)>, sep: Seq<char>) -> Seq<char> {
    spec_human_lines(s, max_name_len(s), sep)
}

/// The plain listing: `name - path` for each entry, run together.
pub open spec fn spec_render_plain(s: Seq<(Seq<char>, Seq<char>)>) -> Seq<char>
    decreases s.len(),
{
    if s.len() == 0 {
        Seq::empty()
    } else {
        s[0].0 + " - "@ + s[0].1 + spec_render_plain(s.drop_first())
    }
}

/// Renders the aligned two-column listing of the table, one bookmark
/// per line. This is what the terminal shows and what the picker is
/// fed.
pub fn render_human(t: &BookmarkTable, sep: &String) -> (r: String)
    ensures
        r@ == spec_render_human(t@, sep@),
{
    let n = t.len();
    let mut w: usize = 0;
    let mut i: usize = 0;
    proof {
        assert(t@.take(0) =~= Seq::<(Seq<char>, Seq<char>)>::empty());
    }
    while i < n
        invariant
            i <= n,
            n == t@.len(),
            w as nat == max_name_len(t@.take(i as int)),
        decreases n - i,
    {
        let l = t.name_at(i).as_str().unicode_len();
        proof {
            assert(t@.take(i as int + 1).drop_last() =~= t@.take(i as int));
            assert(t@.take(i as int + 1).last() == t@[i as int]);
        }
        if l > w {
            w = l;
        }
        i = i + 1;
    }
    proof {
        assert(t@.take(n as int) =~= t@);
    }
    let ghost gw = w as nat;
    let mut out = String::new();
    i = 0;
    proof {
        assert(t@.skip(0) =~= t@);
        assert(out@ + spec_human_lines(t@.skip(0), gw, sep@) =~= spec_render_human(t@, sep@));
    }
    while i < n
        invariant
            i <= n,
            n == t@.len(),
            w as nat == gw,
            gw == max_name_len(t@),
            out@ + spec_human_lines(t@.skip(i as int), gw, sep@) == spec_render_human(t@, sep@),
        decreases n - i,
    {
        proof {
            assert(t@.skip(i as int).drop_first() =~= t@.skip(i as int + 1));
            assert(t@.skip(i as int)[0] == t@[i as int]);
        }
        let ghost prefix = out@;
        let ghost k = t@[i as int].0;
        let name = t.name_at(i);
        let klen = name.as_str().unicode_len();
        out.append(name.as_str());
        let mut p: usize = klen;
        proof {
            assert(out@ =~= prefix + k + spaces(0));
        }
        while p < w
            invariant
                klen <= p,
                p <= w || p == klen,
                w as nat == gw,
                klen == k.len(),
                out@ == prefix + k + spaces((p - klen) as nat),
            decreases w - p,
        {
            out.append(" ");
            proof {
                reveal_strlit(" ");
                assert(" "@ =~= seq![' ']);
                assert(out@ =~= prefix + k + spaces((p + 1 - klen) as nat));
            }
            p = p + 1;
        }
        proof {
            assert(out@ == prefix + k + spaces(pad_len(k, gw)));
        }
        out.append(sep.as_str());
        out.append(t.path_at(i).as_str());
        out.append("\n");
        proof {
            reveal_strlit("\n");
            assert("\n"@ =~= seq!['\n']);
            assert(out@ =~= prefix + spec_human_line(k, t@[i as int].1, gw, sep@));
            assert(out@ + spec_human_lines(t@.skip(i as int + 1), gw, sep@) =~= spec_render_human(
                t@,
                sep@,
            ));
        }
        i = i + 1;
    }
    proof {
        assert(t@.skip(n as int) =~= Seq::<(Seq<char>, Seq<char>)>::empty());
        assert(out@ =~= spec_render_human(t@, sep@));
    }
    out
}

/// Renders the plain listing: `name - path` for each entry, run
/// together.
pub fn render_plain(t: &BookmarkTable) -> (r: String)
    ensures
        r@ == spec_render_plain(t@),
{
    let n = t.len();
    let mut out = String::new();
    let mut i: usize = 0;
    proof {
        assert(t@.skip(0) =~= t@);
        assert(out@ + spec_render_plain(t@.skip(0)) =~= spec_render_plain(t@));
    }
    while i < n
        invariant
            i <= n,
            n == t@.len(),
            out@ + spec_render_plain(t@.skip(i as int)) == spec_render_plain(t@),
        decreases n - i,
    {
        proof {
            assert(t@.skip(i as int).drop_first() =~= t@.skip(i as int + 1));
            assert(t@.skip(i as int)[0] == t@[i as int]);
        }
        out.append(t.name_at(i).as_str());
        out.append(" - ");
        out.append(t.path_at(i).as_str());
        proof {
            assert(out@ + spec_render_plain(t@.skip(i as int + 1)) =~= spec_render_plain(t@));
        }
        i = i + 1;
    }
    proof {
        assert(t@.skip(n as int) =~= Seq::<(Seq<char>, Seq<char>)>::empty());
        assert(out@ =~= spec_render_plain(t@));
    }
    out
}

/// One alias statement: `alias {prefix}{name}='cd "{path}"'`.
pub open spec fn spec_alias_line(prefix: Seq<char>, k: Seq<char>, v: Seq<char>) -> Seq<char> {
    "alias "@ + prefix + k + "='cd \""@ + v + "\"'\n"@
}

/// The whole alias file: one statement per bookmark whose name has no
/// space, in table order; spaced names are skipped.
pub open spec fn spec_generate(s: Seq<(Seq<char>, Seq<char>)>, prefix: Seq<char>) -> Seq<char>
    decreases s.len(),
{
    if s.len() == 0 {
        Seq::empty()
    } else {
        (if has_space(s[0].0) {
            Seq::empty()
        } else {
            spec_alias_line(prefix, s[0].0, s[0].1)
        }) + spec_generate(s.drop_first(), prefix)
    }
}

/// Renders the alias file from the table. The output is a pure
/// function of the table and the prefix, so regenerating is always
/// byte-identical for the same table.
pub fn generate(t: &BookmarkTable, prefix: &String) -> (r: String)
    ensures
        r@ == spec_generate(t@, prefix@),
{
    let n = t.len();
    let mut out = String::new();
    let mut i: usize = 0;
    proof {
        assert(t@.skip(0) =~= t@);
        assert(out@ + spec_generate(t@.skip(0), prefix@) =~= spec_generate(t@, prefix@));
    }
    while i < n
        invariant
            i <= n,
            n == t@.len(),
            out@ + spec_generate(t@.skip(i as int), prefix@) == spec_generate(t@, prefix@),
        decreases n - i,
    {
        proof {
            assert(t@.skip(i as int).drop_first() =~= t@.skip(i as int + 1));
            assert(t@.skip(i as int)[0] == t@[i as int]);
        }
        if !contains_space(t.name_at(i).as_str()) {
            out.append("alias ");
            out.append(prefix.as_str());
            out.append(t.name_at(i).as_str());
            out.append("='cd \"");
            out.append(t.path_at(i).as_str());
            out.append("\"'\n");
        }
        proof {
            assert(out@ + spec_generate(t@.skip(i as int + 1), prefix@) =~= spec_generate(
                t@,
                prefix@,
            ));
        }
        i = i + 1;
    }
    proof {
        assert(t@.skip(n as int) =~= Seq::<(Seq<char>, Seq<char>)>::empty());
        assert(out@ =~= spec_generate(t@, prefix@));
    }
    out
}

/// The entries whose name has no space: the only ones eligible for an
/// alias.
pub open spec fn unspaced(s: Seq<(Seq<char>, Seq<char>)>) -> Seq<(Seq<char>, Seq<char>)> {
    s.filter(|e: (Seq<char>, Seq<char>)| !has_space(e.0))
}

proof fn lemma_unspaced_push(s: Seq<(Seq<char>, Seq<char>)>, e: (Seq<char>, Seq<char>))
    ensures
        unspaced(s.push(e)) == if !has_space(e.0) {
            unspaced(s).push(e)
        } else {
            unspaced(s)
        },
{
    reveal(Seq::filter);
    assert(s.push(e).drop_last() =~= s);
    assert(s.push(e).last() == e);
}

proof fn lemma_generate_push(
    s: Seq<(Seq<char>, Seq<char>)>,
    e: (Seq<char>, Seq<char>),
    prefix: Seq<char>,
)
    ensures
        spec_generate(s.push(e), prefix) == spec_generate(s, prefix) + (if has_space(e.0) {
            Seq::<char>::empty()
        } else {
            spec_alias_line(prefix, e.0, e.1)
        }),
    decreases s.len(),
{
    let tail = if has_space(e.0) {
        Seq::<char>::empty()
    } else {
        spec_alias_line(prefix, e.0, e.1)
    };
    if s.len() == 0 {
        assert(s.push(e)[0] == e);
        assert(s.push(e).drop_first() =~= Seq::<(Seq<char>, Seq<char>)>::empty());
        assert(spec_generate(Seq::<(Seq<char>, Seq<char>)>::empty(), prefix)
            == Seq::<char>::empty());
        assert(spec_generate(s.push(e), prefix) == tail + Seq::<char>::empty());
        assert(tail + Seq::<char>::empty() =~= tail);
        assert(spec_generate(s, prefix) == Seq::<char>::empty());
        assert(Seq::<char>::empty() + tail =~= tail);
    } else {
        let d = s.drop_first();
        let head = if has_space(s[0].0) {
            Seq::<char>::empty()
        } else {
            spec_alias_line(prefix, s[0].0, s[0].1)
        };
        assert(s.push(e)[0] == s[0]);
        assert(s.push(e).drop_first() =~= d.push(e));
        lemma_generate_push(d, e, prefix);
        assert(spec_generate(s.push(e), prefix) == head + spec_generate(d.push(e), prefix));
        assert(spec_generate(d.push(e), prefix) == spec_generate(d, prefix) + tail);
        assert(head + (spec_generate(d, prefix) + tail) =~= (head + spec_generate(d, prefix))
            + tail);
        assert(spec_generate(s, prefix) == head + spec_generate(d, prefix));
    }
}

/// Bookmarks with a space in their name never appear in the alias
/// file: generating from the table is generating from its unspaced
/// entries alone.
pub proof fn lemma_generate_skips_spaced(s: Seq<(Seq<char>, Seq<char>)>, prefix: Seq<char>)
    ensures
        spec_generate(s, prefix) == spec_generate(unspaced(s), prefix),
    decreases s.len(),
{
    reveal(Seq::filter);
    if s.len() == 0 {
    } else {
        let d = s.drop_last();
        let e = s.last();
        assert(s =~= d.push(e));
        lemma_generate_skips_spaced(d, prefix);
        lemma_generate_push(d, e, prefix);
        lemma_unspaced_push(d, e);
        if has_space(e.0) {
            assert(spec_generate(d, prefix) + Seq::<char>::empty() =~= spec_generate(d, prefix));
        } else {
            lemma_generate_push(unspaced(d), e, prefix);
        }
    }
}

/// The pattern occurs in `s` starting at `i`.
pub open spec fn match_at(s: Seq<char>, pat: Seq<char>, i: int) -> bool {
    0 <= i && i + pat.len() <= s.len() && s.subrange(i, i + pat.len()) == pat
}

/// The first position at or after `from` where the pattern occurs, or
/// -1.
pub open spec fn find_sub_from(s: Seq<char>, pat: Seq<char>, from: int) -> int
    decreases s.len() - from,
{
    if from < 0 || from + pat.len() > s.len() {
        -1
    } else if match_at(s, pat, from) {
        from
    } else if from >= s.len() {
        -1
    } else {
        find_sub_from(s, pat, from + 1)
    }
}

/// A position where the pattern occurs, with no occurrence before it
/// from `from` on, is what `find_sub_from` returns.
proof fn lemma_find_sub_from_is(s: Seq<char>, pat: Seq<char>, from: int, i: int)
    requires
        0 <= from <= i,
        match_at(s, pat, i),
        forall|j: int| from <= j < i ==> !match_at(s, pat, j),
    ensures
        find_sub_from(s, pat, from) == i,
    decreases i - from,
{
    if from < i {
        lemma_find_sub_from_is(s, pat, from + 1, i);
    }
}

/// When the pattern occurs nowhere at or after `from`, `find_sub_from`
/// returns -1.
proof fn lemma_find_sub_from_none(s: Seq<char>, pat: Seq<char>, from: int)
    requires
        0 <= from,
        forall|j: int| from <= j ==> !match_at(s, pat, j),
    ensures
        find_sub_from(s, pat, from) == -1,
    decreases s.len() - from,
{
    if from + pat.len() <= s.len() && from < s.len() {
        lemma_find_sub_from_none(s, pat, from + 1);
    }
}

/// Scans for the first occurrence of `pat` in `s`.
pub fn find_sub_str(s: &str, pat: &str) -> (r: Option<usize>)
    ensures
        match r {
            Some(i) => find_sub_from(s@, pat@, 0) == i && match_at(s@, pat@, i as int),
            None => find_sub_from(s@, pat@, 0) == -1,
        },
{
    let n = s.unicode_len();
    let m = pat.unicode_len();
    if m > n {
        proof {
            assert forall|j: int| 0 <= j implies !match_at(s@, pat@, j) by {}
            lemma_find_sub_from_none(s@, pat@, 0);
        }
        return None;
    }
    let mut i: usize = 0;
    while i <= n - m
        invariant
            m <= n,
            n == s@.len(),
            m == pat@.len(),
            i <= n - m + 1,
            forall|j: int| 0 <= j < i ==> !match_at(s@, pat@, j),
        decreases n - m - i + 1,
    {
        let mut t: usize = 0;
        let mut ok: bool = true;
        while t < m
            invariant
                t <= m,
                i + m <= n,
                n == s@.len(),
                m == pat@.len(),
                ok ==> forall|u: int| 0 <= u < t ==> s@[i + u] == pat@[u],
                !ok ==> exists|u: int| 0 <= u < m && s@[i + u] != pat@[u],
            decreases m - t,
        {
            if s.get_char(i + t) != pat.get_char(t) {
                ok = false;
            }
            t = t + 1;
        }
        if ok {
            proof {
                assert(s@.subrange(i as int, i + m) =~= pat@);
                lemma_find_sub_from_is(s@, pat@, 0, i as int);
            }
            return Some(i);
        }
        proof {
            if match_at(s@, pat@, i as int) {
                let u = choose|u: int| 0 <= u < m && s@[i + u] != pat@[u];
                assert(s@.subrange(i as int, i + m)[u] == s@[i + u]);
            }
        }
        i = i + 1;
    }
    proof {
        assert forall|j: int| 0 <= j implies !match_at(s@, pat@, j) by {
            if j + m <= n {
                assert(!match_at(s@, pat@, j));
            }
        }
        lemma_find_sub_from_none(s@, pat@, 0);
    }
    None
}

/// Drops one trailing line break, if any.
pub open spec fn strip_newline(s: Seq<char>) -> Seq<char> {
    if s.len() > 0 && s[s.len() - 1] == '\n' {
        s.drop_last()
    } else {
        s
    }
}

/// What the reverse parse of a picker's choice yields: everything
/// after the first occurrence of the separator, with the trailing line
/// break removed. `None` for an empty choice or one without the
/// separator.
pub open spec fn spec_choice_path(choice: Seq<char>, sep: Seq<char>) -> Option<Seq<char>> {
    if choice.len() == 0 {
        None
    } else {
        let m = find_sub_from(choice, sep, 0);
        if m < 0 {
            None
        } else {
            Some(strip_newline(choice.subrange(m + sep.len(), choice.len() as int)))
        }
    }
}

/// Recovers the path from the line the picker returned, by the first
/// occurrence of the display separator. An empty choice is a clean
/// cancellation; a line without the separator is unparseable.
pub fn parse_choice(choice: &str, sep: &str) -> (r: Result<String, BmarkError>)
    ensures
        match r {
            Ok(p) => spec_choice_path(choice@, sep@) == Some(p@),
            Err(e) => spec_choice_path(choice@, sep@) is None && (choice@.len() == 0 ==> e
                is NoChoice) && (choice@.len() > 0 ==> e is UnparseableChoice),
        },
{
    let n = choice.unicode_len();
    if n == 0 {
        return Err(BmarkError::NoChoice);
    }
    match find_sub_str(choice, sep) {
        None => Err(BmarkError::UnparseableChoice),
        Some(m) => {
            let mlen = sep.unicode_len();
            let start = m + mlen;
            let ghost after = choice@.subrange(start as int, n as int);
            let end = if start < n && choice.get_char(n - 1) == '\n' {
                n - 1
            } else {
                n
            };
            let path = choice.substring_char(start, end).to_owned();
            proof {
                if start < n && choice@[n - 1] == '\n' {
                    assert(after[after.len() - 1] == choice@[n - 1]);
                    assert(after.drop_last() =~= choice@.subrange(start as int, n as int - 1));
                } else {
                    assert(strip_newline(after) == after);
                }
            }
            Ok(path)
        },
    }
}

/// `n` spaces: length `n`, every character a space.
pub proof fn lemma_spaces_len(n: nat)
    ensures
        spaces(n).len() == n,
        forall|j: int| 0 <= j < n ==> spaces(n)[j] == ' ',
    decreases n,
{
    if n > 0 {
        lemma_spaces_len((n - 1) as nat);
    }
}

/// A listing row of newline-free contents holds no newline itself.
proof fn lemma_row_no_newline(k: Seq<char>, v: Seq<char>, w: nat, sep: Seq<char>)
    requires
        ctl_free(k),
        ctl_free(v),
        forall|j: int| 0 <= j < sep.len() ==> #[trigger] sep[j] != '\n',
    ensures
        forall|j: int|
            0 <= j < spec_human_row(k, v, w, sep).len() ==> #[trigger] spec_human_row(
                k,
                v,
                w,
                sep,
            )[j] != '\n',
{
    let row = spec_human_row(k, v, w, sep);
    let pad = pad_len(k, w);
    lemma_spaces_len(pad);
    assert forall|j: int| 0 <= j < row.len() implies #[trigger] row[j] != '\n' by {
        if j < k.len() {
            assert(row[j] == k[j]);
            assert((k[j] as u32) >= 32);
        } else if j < k.len() + pad {
            assert(row[j] == spaces(pad)[j - k.len()]);
        } else if j < k.len() + pad + sep.len() {
            assert(row[j] == sep[j - k.len() - pad]);
        } else {
            assert(row[j] == v[j - k.len() - pad - sep.len()]);
            assert((v[j - k.len() - pad - sep.len()] as u32) >= 32);
        }
    }
}

/// Cutting the rendered listing at its line breaks gives one row per
/// bookmark, in table order, and one empty segment after the final
/// break.
proof fn lemma_human_lines_split(s: Seq<(Seq<char>, Seq<char>)>, w: nat, sep: Seq<char>)
    requires
        forall|t: int| 0 <= t < s.len() ==> ctl_free((#[trigger] s[t]).0) && ctl_free(s[t].1),
        forall|j: int| 0 <= j < sep.len() ==> #[trigger] sep[j] != '\n',
    ensures
        spec_split_lines(spec_human_lines(s, w, sep)) == Seq::new(
            s.len(),
            |i: int| spec_human_row(s[i].0, s[i].1, w, sep),
        ).push(Seq::<char>::empty()),
    decreases s.len(),
{
    let rows = Seq::new(s.len(), |i: int| spec_human_row(s[i].0, s[i].1, w, sep));
    if s.len() == 0 {
        assert(spec_split_lines(Seq::<char>::empty()) == seq![Seq::<char>::empty()]);
        assert(rows.push(Seq::<char>::empty()) =~= seq![Seq::<char>::empty()]);
    } else {
        let text = spec_human_lines(s, w, sep);
        let row0 = spec_human_row(s[0].0, s[0].1, w, sep);
        let rest = spec_human_lines(s.drop_first(), w, sep);
        lemma_row_no_newline(s[0].0, s[0].1, w, sep);
        assert(text =~= row0 + seq!['\n'] + rest);
        let nl = row0.len() as int;
        assert(text[nl] == '\n');
        assert forall|j: int| 0 <= j < nl implies text[j] != '\n' by {
            assert(text[j] == row0[j]);
        }
        lemma_find_from_is(text, 0, '\n', nl);
        assert(text.subrange(0, nl) =~= row0);
        assert(text.subrange(nl + 1, text.len() as int) =~= rest);
        assert forall|t: int| 0 <= t < s.drop_first().len() implies ctl_free(
            (#[trigger] s.drop_first()[t]).0,
        ) && ctl_free(s.drop_first()[t].1) by {
            assert(s.drop_first()[t] == s[t + 1]);
        }
        lemma_human_lines_split(s.drop_first(), w, sep);
        let rows_rest = Seq::new(
            s.drop_first().len(),
            |i: int| spec_human_row(s.drop_first()[i].0, s.drop_first()[i].1, w, sep),
        );
        assert(spec_split_lines(text) == seq![row0] + rows_rest.push(Seq::<char>::empty()));
        assert forall|i: int| 0 <= i < rows_rest.len() implies rows_rest[i] == rows[i + 1] by {
            assert(s.drop_first()[i] == s[i + 1]);
        }
        assert(seq![row0] + rows_rest.push(Seq::<char>::empty()) =~= rows.push(
            Seq::<char>::empty(),
        ));
    }
}

/// Reverse parse of a rendered listing line: when the separator is
/// non-empty and no occurrence of it starts inside the padded name,
/// cutting the line at the first occurrence and taking the remainder
/// recovers the path exactly.
pub proof fn lemma_reverse_parse(k: Seq<char>, v: Seq<char>, w: nat, sep: Seq<char>)
    requires
        sep.len() > 0,
        forall|j: int|
            0 <= j < k.len() + pad_len(k, w) ==> !match_at(spec_human_line(k, v, w, sep), sep, j),
    ensures
        spec_choice_path(spec_human_line(k, v, w, sep), sep) == Some(v),
{
    let line = spec_human_line(k, v, w, sep);
    lemma_spaces_len(pad_len(k, w));
    let pl = (k.len() + pad_len(k, w)) as int;
    assert(line.len() == pl + sep.len() + v.len() + 1);
    assert(line.subrange(pl, pl + sep.len()) =~= sep);
    assert(match_at(line, sep, pl));
    lemma_find_sub_from_is(line, sep, 0, pl);
    let after = line.subrange(pl + sep.len(), line.len() as int);
    assert(after =~= v + seq!['\n']);
    assert(after[after.len() - 1] == '\n');
    assert(after.drop_last() =~= v);
}

/// Reverse parse over the whole rendered listing: cut the rendering at
/// its line breaks; any chosen line, handed back with a line break,
/// yields exactly the path of its bookmark — provided the separator is
/// non-empty, free of line breaks, and no occurrence of it starts
/// inside the chosen line's padded name.
pub proof fn lemma_open_round_trip(s: Seq<(Seq<char>, Seq<char>)>, sep: Seq<char>, i: int)
    requires
        sep.len() > 0,
        forall|t: int| 0 <= t < s.len() ==> ctl_free((#[trigger] s[t]).0) && ctl_free(s[t].1),
        forall|j: int| 0 <= j < sep.len() ==> #[trigger] sep[j] != '\n',
        0 <= i < s.len(),
        forall|j: int|
            0 <= j < s[i].0.len() + pad_len(s[i].0, max_name_len(s)) ==> !match_at(
                spec_human_line(s[i].0, s[i].1, max_name_len(s), sep),
                sep,
                j,
            ),
    ensures
        spec_split_lines(spec_render_human(s, sep)).len() == s.len() + 1,
        spec_choice_path(
            spec_split_lines(spec_render_human(s, sep))[i] + seq!['\n'],
            sep,
        ) == Some(s[i].1),
{
    let w = max_name_len(s);
    lemma_human_lines_split(s, w, sep);
    let rows = Seq::new(s.len(), |t: int| spec_human_row(s[t].0, s[t].1, w, sep));
    assert(spec_split_lines(spec_render_human(s, sep))[i] == rows[i]);
    assert(rows[i] + seq!['\n'] == spec_human_line(s[i].0, s[i].1, w, sep));
    lemma_reverse_parse(s[i].0, s[i].1, w, sep);
}

} // verus!
