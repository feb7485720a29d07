//! The text format of the bookmark store: one record per line,
//! `name = "path"`, the name quote-wrapped when it contains a space.
//! Serialization and parsing are inverse on well-formed tables.

use vstd::prelude::*;
use vstd::string::*;
use crate::errors::BmarkError;
use crate::order::lemma_lex_lt_irrefl;
use crate::order::lex_lt;
use crate::table::BookmarkTable;
use crate::table::contains_name;
use crate::table::entries_sorted;
use crate::table::lemma_spec_insert_at;
use crate::table::spec_insert;

verus! {

/// No control characters (in particular no newline).
pub open spec fn ctl_free(s: Seq<char>) -> bool {
    forall|i: int| 0 <= i < s.len() ==> (#[trigger] s[i] as u32) >= 32
}

pub open spec fn quote_free(s: Seq<char>) -> bool {
    forall|i: int| 0 <= i < s.len() ==> #[trigger] s[i] != '"'
}

pub open spec fn has_space(s: Seq<char>) -> bool {
    exists|i: int| 0 <= i < s.len() && #[trigger] s[i] == ' '
}

/// A name the format can carry and recover: non-empty, no control
/// characters, no double quote.
pub open spec fn valid_name(s: Seq<char>) -> bool {
    s.len() > 0 && ctl_free(s) && quote_free(s)
}

/// A path the format can carry and recover: no control characters, no
/// double quote.
pub open spec fn valid_path(s: Seq<char>) -> bool {
    ctl_free(s) && quote_free(s)
}

/// The first position at or after `from` holding `c`, or -1.
pub open spec fn find_from(s: Seq<char>, from: int, c: char) -> int
    decreases s.len() - from,
{
    if from < 0 || from >= s.len() {
        -1
    } else if s[from] == c {
        from
    } else {
        find_from(s, from + 1, c)
    }
}

/// What `find_from` returns: the least position with `c`, or -1 when
/// there is none.
pub proof fn lemma_find_from_props(s: Seq<char>, from: int, c: char)
    requires
        0 <= from <= s.len(),
    ensures
        find_from(s, from, c) == -1 ==> forall|j: int| from <= j < s.len() ==> s[j] != c,
        find_from(s, from, c) != -1 ==> from <= find_from(s, from, c) < s.len() && s[find_from(
            s,
            from,
            c,
        )] == c && forall|j: int| from <= j < find_from(s, from, c) ==> s[j] != c,
    decreases s.len() - from,
{
    if from < s.len() && s[from] != c {
        lemma_find_from_props(s, from + 1, c);
    }
}

/// A position that holds `c`, with nothing before it from `from` on, is
/// what `find_from` returns.
pub proof fn lemma_find_from_is(s: Seq<char>, from: int, c: char, i: int)
    requires
        0 <= from <= i < s.len(),
        s[i] == c,
        forall|j: int| from <= j < i ==> s[j] != c,
    ensures
        find_from(s, from, c) == i,
{
    lemma_find_from_props(s, from, c);
    let r = find_from(s, from, c);
    if r == -1 {
        assert(s[i] != c);
    } else if r < i {
        assert(s[r] != c);
    } else if r > i {
        assert(s[i] != c);
    }
}

/// When `c` does not occur from `from` on, `find_from` returns -1.
pub proof fn lemma_find_from_none(s: Seq<char>, from: int, c: char)
    requires
        0 <= from <= s.len(),
        forall|j: int| from <= j < s.len() ==> s[j] != c,
    ensures
        find_from(s, from, c) == -1,
{
    lemma_find_from_props(s, from, c);
    let r = find_from(s, from, c);
    if r != -1 {
        assert(s[r] != c);
    }
}

/// Scans for the first occurrence of `c` at or after `from`.
pub fn find_char(s: &str, from: usize, c: char) -> (r: Option<usize>)
    requires
        from <= s@.len(),
    ensures
        match r {
            Some(i) => from <= i < s@.len() && s@[i as int] == c && find_from(
                s@,
                from as int,
                c,
            ) == i && (forall|j: int| from <= j < i ==> s@[j] != c),
            None => find_from(s@, from as int, c) == -1 && (forall|j: int|
                from <= j < s@.len() ==> s@[j] != c),
        },
{
    let n = s.unicode_len();
    let mut i: usize = from;
    while i < n
        invariant
            from <= i <= n,
            n == s@.len(),
            forall|j: int| from <= j < i ==> s@[j] != c,
        decreases n - i,
    {
        if s.get_char(i) == c {
            proof {
                lemma_find_from_is(s@, from as int, c, i as int);
            }
            return Some(i);
        }
        i = i + 1;
    }
    proof {
        lemma_find_from_none(s@, from as int, c);
    }
    None
}

/// Whether the string holds a space character.
pub fn contains_space(s: &str) -> (r: bool)
    ensures
        r == has_space(s@),
{
    match find_char(s, 0, ' ') {
        Some(_) => true,
        None => false,
    }
}

/// The record separator between key and opening value quote.
pub open spec fn mid_sep() -> Seq<char> {
    seq![' ', '=', ' ', '"']
}

/// The key as written: quote-wrapped exactly when the name holds a
/// space, so the record still parses.
pub open spec fn spec_key_text(k: Seq<char>) -> Seq<char> {
    if has_space(k) {
        seq!['"'] + k + seq!['"']
    } else {
        k
    }
}

/// One record, without its line break: `name = "path"`.
pub open spec fn spec_line(k: Seq<char>, v: Seq<char>) -> Seq<char> {
    spec_key_text(k) + mid_sep() + v + seq!['"']
}

/// One record with its line break.
pub open spec fn spec_entry_text(k: Seq<char>, v: Seq<char>) -> Seq<char> {
    spec_line(k, v) + seq!['\n']
}

/// The whole store file: the records in table order.
pub open spec fn spec_serialize(s: Seq<(Seq<char>, Seq<char>)>) -> Seq<char>
    decreases s.len(),
{
    if s.len() == 0 {
        Seq::empty()
    } else {
        spec_entry_text(s[0].0, s[0].1) + spec_serialize(s.drop_first())
    }
}

/// What follows a record's key: ` = "`, the path, a closing quote. The
/// path may not itself hold a quote.
pub open spec fn parse_value(rest: Seq<char>) -> Option<Seq<char>> {
    if rest.len() >= 5 && rest[0] == ' ' && rest[1] == '=' && rest[2] == ' ' && rest[3] == '"'
        && rest[rest.len() - 1] == '"' && quote_free(rest.subrange(4, rest.len() - 1)) {
        Some(rest.subrange(4, rest.len() - 1))
    } else {
        None
    }
}

/// One non-empty line of the store file: a bare key up to the first
/// space, or a quoted key, then ` = "path"`. `None` when the line is no
/// such record.
pub open spec fn spec_parse_line(line: Seq<char>) -> Option<(Seq<char>, Seq<char>)> {
    if line.len() == 0 {
        None
    } else if line[0] == '"' {
        let close = find_from(line, 1, '"');
        if close <= 1 {
            None
        } else {
            let k = line.subrange(1, close);
            match parse_value(line.subrange(close + 1, line.len() as int)) {
                Some(v) => Some((k, v)),
                None => None,
            }
        }
    } else {
        let sp = find_from(line, 0, ' ');
        if sp <= 0 {
            None
        } else {
            let k = line.subrange(0, sp);
            match parse_value(line.subrange(sp, line.len() as int)) {
                Some(v) => Some((k, v)),
                None => None,
            }
        }
    }
}

/// The file text cut at every newline; a trailing newline leaves a
/// final empty segment.
pub open spec fn spec_split_lines(s: Seq<char>) -> Seq<Seq<char>>
    decreases s.len(),
{
    let nl = find_from(s, 0, '\n');
    if nl < 0 || nl >= s.len() {
        seq![s]
    } else {
        seq![s.subrange(0, nl)] + spec_split_lines(s.subrange(nl + 1, s.len() as int))
    }
}

/// The records of the file's lines in order; empty lines are skipped,
/// and any line that is no record refuses the whole file.
pub open spec fn spec_parse_lines(lines: Seq<Seq<char>>) -> Option<Seq<(Seq<char>, Seq<char>)>>
    decreases lines.len(),
{
    if lines.len() == 0 {
        Some(Seq::empty())
    } else if lines[0].len() == 0 {
        spec_parse_lines(lines.drop_first())
    } else {
        match spec_parse_line(lines[0]) {
            None => None,
            Some(p) => match spec_parse_lines(lines.drop_first()) {
                None => None,
                Some(ps) => Some(seq![p] + ps),
            },
        }
    }
}

/// Folds parsed records into a sorted table; a repeated name refuses
/// the whole file.
pub open spec fn spec_table_from(
    t: Seq<(Seq<char>, Seq<char>)>,
    pairs: Seq<(Seq<char>, Seq<char>)>,
) -> Option<Seq<(Seq<char>, Seq<char>)>>
    decreases pairs.len(),
{
    if pairs.len() == 0 {
        Some(t)
    } else if contains_name(t, pairs[0].0) {
        None
    } else {
        spec_table_from(spec_insert(t, pairs[0].0, pairs[0].1), pairs.drop_first())
    }
}

/// The table a store file denotes, or `None` when the file is corrupt
/// (an unparseable line or a repeated name).
pub open spec fn spec_load(text: Seq<char>) -> Option<Seq<(Seq<char>, Seq<char>)>> {
    match spec_parse_lines(spec_split_lines(text)) {
        None => None,
        Some(ps) => spec_table_from(Seq::empty(), ps),
    }
}

/// Parses one non-empty line into its name and path.
pub fn parse_line(line: &str) -> (r: Option<(String, String)>)
    requires
        line@.len() > 0,
    ensures
        match r {
            Some(p) => spec_parse_line(line@) == Some((p.0@, p.1@)) && p.0@.len() > 0,
            None => spec_parse_line(line@) is None,
        },
{
    let n = line.unicode_len();
    let (key, rs): (String, usize) = if line.get_char(0) == '"' {
        match find_char(line, 1, '"') {
            None => {
                return None;
            },
            Some(close) => {
                if close <= 1 {
                    return None;
                }
                (line.substring_char(1, close).to_owned(), close + 1)
            },
        }
    } else {
        match find_char(line, 0, ' ') {
            None => {
                return None;
            },
            Some(sp) => {
                if sp == 0 {
                    return None;
                }
                (line.substring_char(0, sp).to_owned(), sp)
            },
        }
    };
    let ghost rest = line@.subrange(rs as int, n as int);
    if n - rs < 5 {
        return None;
    }
    if line.get_char(rs) != ' ' || line.get_char(rs + 1) != '=' || line.get_char(rs + 2) != ' '
        || line.get_char(rs + 3) != '"' {
        return None;
    }
    match find_char(line, rs + 4, '"') {
        None => {
            proof {
                assert(rest[rest.len() - 1] == line@[n - 1]);
            }
            None
        },
        Some(q) => {
            if q + 1 != n {
                proof {
                    assert(rest.subrange(4, rest.len() - 1) =~= line@.subrange(
                        rs + 4,
                        n as int - 1,
                    ));
                    assert(line@.subrange(rs + 4, n as int - 1)[q - (rs + 4)] == line@[q as int]);
                    assert(!quote_free(line@.subrange(rs + 4, n as int - 1)));
                }
                return None;
            }
            let value = line.substring_char(rs + 4, n - 1).to_owned();
            proof {
                assert(rest.subrange(4, rest.len() - 1) =~= line@.subrange(rs + 4, n as int - 1));
                assert(rest[rest.len() - 1] == line@[n - 1]);
                assert forall|j: int| 0 <= j < line@.subrange(rs + 4, n as int - 1).len() implies (
                #[trigger] line@.subrange(rs + 4, n as int - 1)[j]) != '"' by {
                    assert(line@.subrange(rs + 4, n as int - 1)[j] == line@[rs + 4 + j]);
                }
                assert(parse_value(rest) == Some(value@));
            }
            Some((key, value))
        },
    }
}

/// Folds the records of the remaining text onto an already-built
/// table.
pub open spec fn spec_load_from(
    t: Seq<(Seq<char>, Seq<char>)>,
    rest: Seq<char>,
) -> Option<Seq<(Seq<char>, Seq<char>)>> {
    match spec_parse_lines(spec_split_lines(rest)) {
        None => None,
        Some(ps) => spec_table_from(t, ps),
    }
}

proof fn lemma_load_skip_empty(t: Seq<(Seq<char>, Seq<char>)>, rest: Seq<char>, after: Seq<char>)
    requires
        spec_split_lines(rest) == seq![Seq::<char>::empty()] + spec_split_lines(after),
    ensures
        spec_load_from(t, rest) == spec_load_from(t, after),
{
    let lines = spec_split_lines(rest);
    assert(lines[0].len() == 0);
    assert(lines.drop_first() =~= spec_split_lines(after));
}

proof fn lemma_load_corrupt(t: Seq<(Seq<char>, Seq<char>)>, rest: Seq<char>, line0: Seq<char>)
    requires
        spec_split_lines(rest).len() > 0,
        spec_split_lines(rest)[0] == line0,
        line0.len() > 0,
        spec_parse_line(line0) is None,
    ensures
        spec_load_from(t, rest) is None,
{
}

proof fn lemma_load_dup(
    t: Seq<(Seq<char>, Seq<char>)>,
    rest: Seq<char>,
    line0: Seq<char>,
    p: (Seq<char>, Seq<char>),
)
    requires
        spec_split_lines(rest).len() > 0,
        spec_split_lines(rest)[0] == line0,
        line0.len() > 0,
        spec_parse_line(line0) == Some(p),
        contains_name(t, p.0),
    ensures
        spec_load_from(t, rest) is None,
{
    let lines = spec_split_lines(rest);
    match spec_parse_lines(lines.drop_first()) {
        None => {},
        Some(ps) => {
            assert((seq![p] + ps)[0] == p);
        },
    }
}

proof fn lemma_load_step(
    t: Seq<(Seq<char>, Seq<char>)>,
    rest: Seq<char>,
    line0: Seq<char>,
    after: Seq<char>,
    p: (Seq<char>, Seq<char>),
)
    requires
        spec_split_lines(rest) == seq![line0] + spec_split_lines(after),
        line0.len() > 0,
        spec_parse_line(line0) == Some(p),
        !contains_name(t, p.0),
    ensures
        spec_load_from(t, rest) == spec_load_from(spec_insert(t, p.0, p.1), after),
{
    let lines = spec_split_lines(rest);
    assert(lines[0] == line0);
    assert(lines.drop_first() =~= spec_split_lines(after));
    match spec_parse_lines(spec_split_lines(after)) {
        None => {},
        Some(ps) => {
            assert((seq![p] + ps)[0] == p);
            assert((seq![p] + ps).drop_first() =~= ps);
        },
    }
}

proof fn lemma_load_last(
    t: Seq<(Seq<char>, Seq<char>)>,
    rest: Seq<char>,
    p: (Seq<char>, Seq<char>),
)
    requires
        spec_split_lines(rest) == seq![rest],
        rest.len() > 0,
        spec_parse_line(rest) == Some(p),
        !contains_name(t, p.0),
    ensures
        spec_load_from(t, rest) == Some::<Seq<(Seq<char>, Seq<char>)>>(spec_insert(t, p.0, p.1)),
{
    let lines = spec_split_lines(rest);
    assert(lines.len() == 1);
    assert(lines[0] == rest);
    assert(lines.drop_first() =~= Seq::<Seq<char>>::empty());
    assert(spec_parse_lines(Seq::<Seq<char>>::empty()) == Some(
        Seq::<(Seq<char>, Seq<char>)>::empty(),
    ));
    assert(spec_parse_lines(lines.drop_first()) == Some(Seq::<(Seq<char>, Seq<char>)>::empty()));
    assert(spec_parse_lines(lines) == Some(seq![p] + Seq::<(Seq<char>, Seq<char>)>::empty()));
    assert(seq![p] + Seq::<(Seq<char>, Seq<char>)>::empty() =~= seq![p]);
    let t2 = spec_insert(t, p.0, p.1);
    assert(seq![p].drop_first() =~= Seq::<(Seq<char>, Seq<char>)>::empty());
    assert(seq![p][0] == p);
    assert(spec_table_from(t2, seq![p].drop_first()) == Some(t2));
    assert(spec_table_from(t, seq![p]) == Some(t2));
}

/// Reads a whole store file into a table. Succeeds exactly when every
/// non-empty line is a record and no name repeats; the resulting table
/// is the records in sorted name order.
pub fn load(text: &str) -> (r: Result<BookmarkTable, BmarkError>)
    ensures
        match r {
            Ok(t) => spec_load(text@) == Some(t@) && t.wf(),
            Err(e) => spec_load(text@) is None && e is StoreCorrupt,
        },
{
    let n = text.unicode_len();
    let mut table = BookmarkTable::new();
    let mut pos: usize = 0;
    proof {
        assert(text@.skip(0) =~= text@);
    }
    loop
        invariant
            pos <= n,
            n == text@.len(),
            table.wf(),
            spec_load(text@) == spec_load_from(table@, text@.skip(pos as int)),
        decreases n - pos,
    {
        let ghost rest = text@.skip(pos as int);
        let nl_opt = find_char(text, pos, '\n');
        let (line_end, has_nl): (usize, bool) = match nl_opt {
            Some(nl) => (nl, true),
            None => (n, false),
        };
        let ghost line0 = text@.subrange(pos as int, line_end as int);
        let ghost after = text@.skip(line_end as int + 1);
        proof {
            if has_nl {
                assert forall|j: int| 0 <= j < line_end - pos implies rest[j] != '\n' by {
                    assert(rest[j] == text@[pos + j]);
                }
                assert(rest[line_end - pos] == text@[line_end as int]);
                lemma_find_from_is(rest, 0, '\n', line_end - pos);
                assert(rest.subrange(0, line_end - pos) =~= line0);
                assert(rest.subrange(line_end - pos + 1, rest.len() as int) =~= after);
                assert(spec_split_lines(rest) == seq![line0] + spec_split_lines(after));
            } else {
                assert forall|j: int| 0 <= j < rest.len() implies rest[j] != '\n' by {
                    assert(rest[j] == text@[pos + j]);
                }
                lemma_find_from_none(rest, 0, '\n');
                assert(spec_split_lines(rest) == seq![rest]);
                assert(rest =~= line0);
            }
        }
        if pos == line_end {
            proof {
                assert(line0 =~= Seq::<char>::empty());
            }
            if !has_nl {
                proof {
                    let lines = spec_split_lines(rest);
                    assert(lines.len() == 1);
                    assert(lines[0] == rest);
                    assert(rest.len() == 0);
                    assert(lines.drop_first() =~= Seq::<Seq<char>>::empty());
                    assert(spec_parse_lines(Seq::<Seq<char>>::empty()) == Some(
                        Seq::<(Seq<char>, Seq<char>)>::empty(),
                    ));
                    assert(spec_parse_lines(lines) == Some(
                        Seq::<(Seq<char>, Seq<char>)>::empty(),
                    ));
                    assert(spec_table_from(table@, Seq::<(Seq<char>, Seq<char>)>::empty())
                        == Some(table@));
                    assert(spec_load_from(table@, rest) == Some(table@));
                }
                return Ok(table);
            }
            proof {
                assert(spec_split_lines(rest) == seq![Seq::<char>::empty()] + spec_split_lines(
                    after,
                ));
                lemma_load_skip_empty(table@, rest, after);
            }
            pos = line_end + 1;
        } else {
            let line = text.substring_char(pos, line_end);
            match parse_line(line) {
                None => {
                    proof {
                        lemma_load_corrupt(table@, rest, line0);
                    }
                    return Err(BmarkError::StoreCorrupt);
                },
                Some((k, v)) => {
                    let ghost p = (k@, v@);
                    match table.insert(k, v) {
                        Err(_) => {
                            proof {
                                lemma_load_dup(table@, rest, line0, p);
                            }
                            return Err(BmarkError::StoreCorrupt);
                        },
                        Ok(t2) => {
                            proof {
                                if has_nl {
                                    lemma_load_step(table@, rest, line0, after, p);
                                } else {
                                    lemma_load_last(table@, rest, p);
                                }
                            }
                            table = t2;
                        },
                    }
                    if !has_nl {
                        return Ok(table);
                    }
                    pos = line_end + 1;
                },
            }
        }
    }
}

/// Renders one record line, as `add` appends it to the store file.
pub fn serialize_entry(name: &String, path: &String) -> (r: String)
    ensures
        r@ == spec_entry_text(name@, path@),
{
    let mut out = String::new();
    if contains_space(name.as_str()) {
        out.append("\"");
        out.append(name.as_str());
        out.append("\"");
    } else {
        out.append(name.as_str());
    }
    out.append(" = \"");
    out.append(path.as_str());
    out.append("\"\n");
    proof {
        reveal_strlit("\"");
        reveal_strlit(" = \"");
        reveal_strlit("\"\n");
        assert(out@ =~= spec_entry_text(name@, path@));
    }
    out
}

/// Renders the whole store file from the table, as `remove` rewrites
/// it.
pub fn serialize_table(t: &BookmarkTable) -> (r: String)
    ensures
        r@ == spec_serialize(t@),
{
    let n = t.len();
    let mut out = String::new();
    let mut i: usize = 0;
    proof {
        assert(t@.skip(0) =~= t@);
    }
    while i < n
        invariant
            i <= n,
            n == t@.len(),
            out@ + spec_serialize(t@.skip(i as int)) == spec_serialize(t@),
        decreases n - i,
    {
        let entry = serialize_entry(t.name_at(i), t.path_at(i));
        proof {
            assert(t@.skip(i as int).drop_first() =~= t@.skip(i as int + 1));
            assert(t@.skip(i as int)[0] == t@[i as int]);
        }
        out.append(entry.as_str());
        proof {
            assert(out@ + spec_serialize(t@.skip(i as int + 1)) =~= spec_serialize(t@));
        }
        i = i + 1;
    }
    proof {
        assert(t@.skip(n as int) =~= Seq::<(Seq<char>, Seq<char>)>::empty());
        assert(out@ =~= spec_serialize(t@));
    }
    out
}

/// The record lines of a table, in table order.
pub open spec fn lines_of(s: Seq<(Seq<char>, Seq<char>)>) -> Seq<Seq<char>> {
    Seq::new(s.len(), |i: int| spec_line(s[i].0, s[i].1))
}

/// A record line of well-formed contents is non-empty and holds no
/// newline.
proof fn lemma_line_no_newline(k: Seq<char>, v: Seq<char>)
    requires
        valid_name(k),
        valid_path(v),
    ensures
        spec_line(k, v).len() > 0,
        forall|j: int| 0 <= j < spec_line(k, v).len() ==> #[trigger] spec_line(k, v)[j] != '\n',
{
    let line = spec_line(k, v);
    let kt = spec_key_text(k);
    assert forall|j: int| 0 <= j < line.len() implies #[trigger] line[j] != '\n' by {
        if j < kt.len() {
            if has_space(k) {
                if 0 < j < kt.len() - 1 {
                    assert(kt[j] == k[j - 1]);
                    assert((k[j - 1] as u32) >= 32);
                }
            } else {
                assert(kt[j] == k[j]);
                assert((k[j] as u32) >= 32);
            }
        } else if j < kt.len() + 4 {
            assert(line[j] == mid_sep()[j - kt.len()]);
        } else if j < kt.len() + 4 + v.len() {
            assert(line[j] == v[j - kt.len() - 4]);
            assert((v[j - kt.len() - 4] as u32) >= 32);
        } else {
            assert(line[j] == '"');
        }
    }
}

/// Serializing and cutting at newlines gives back the record lines,
/// with one empty segment after the final newline.
proof fn lemma_serialize_split(s: Seq<(Seq<char>, Seq<char>)>)
    requires
        forall|i: int|
            0 <= i < s.len() ==> valid_name((#[trigger] s[i]).0) && valid_path(s[i].1),
    ensures
        spec_split_lines(spec_serialize(s)) == lines_of(s).push(Seq::<char>::empty()),
    decreases s.len(),
{
    if s.len() == 0 {
        assert(spec_split_lines(Seq::<char>::empty()) == seq![Seq::<char>::empty()]);
        assert(lines_of(s).push(Seq::<char>::empty()) =~= seq![Seq::<char>::empty()]);
    } else {
        let text = spec_serialize(s);
        let line0 = spec_line(s[0].0, s[0].1);
        let restt = spec_serialize(s.drop_first());
        lemma_line_no_newline(s[0].0, s[0].1);
        assert(text =~= line0 + seq!['\n'] + restt);
        let nl = line0.len() as int;
        assert(text[nl] == '\n');
        assert forall|j: int| 0 <= j < nl implies text[j] != '\n' by {
            assert(text[j] == line0[j]);
        }
        lemma_find_from_is(text, 0, '\n', nl);
        assert(text.subrange(0, nl) =~= line0);
        assert(text.subrange(nl + 1, text.len() as int) =~= restt);
        assert forall|i: int| 0 <= i < s.drop_first().len() implies valid_name(
            (#[trigger] s.drop_first()[i]).0,
        ) && valid_path(s.drop_first()[i].1) by {
            assert(s.drop_first()[i] == s[i + 1]);
        }
        lemma_serialize_split(s.drop_first());
        assert(spec_split_lines(text) == seq![line0] + (lines_of(s.drop_first()).push(
            Seq::<char>::empty(),
        )));
        assert(seq![line0] + lines_of(s.drop_first()).push(Seq::<char>::empty()) =~= lines_of(
            s,
        ).push(Seq::<char>::empty()));
    }
}

/// The value part of a record parses back to the path.
proof fn lemma_parse_value_of(v: Seq<char>)
    requires
        quote_free(v),
    ensures
        parse_value(mid_sep() + v + seq!['"']) == Some(v),
{
    let rest = mid_sep() + v + seq!['"'];
    assert(rest.len() == 5 + v.len());
    assert(rest[0] == ' ' && rest[1] == '=' && rest[2] == ' ' && rest[3] == '"');
    assert(rest[rest.len() - 1] == '"');
    assert(rest.subrange(4, rest.len() - 1) =~= v);
}

/// A record line of well-formed contents parses back to its name and
/// path.
proof fn lemma_parse_line_of_line(k: Seq<char>, v: Seq<char>)
    requires
        valid_name(k),
        valid_path(v),
    ensures
        spec_parse_line(spec_line(k, v)) == Some((k, v)),
{
    let line = spec_line(k, v);
    let kt = spec_key_text(k);
    lemma_parse_value_of(v);
    if has_space(k) {
        assert(line[0] == '"');
        let close = 1 + k.len() as int;
        assert(line[close] == kt[close]);
        assert(kt[close] == '"');
        assert forall|j: int| 1 <= j < close implies line[j] != '"' by {
            assert(line[j] == kt[j]);
            assert(kt[j] == k[j - 1]);
        }
        lemma_find_from_is(line, 1, '"', close);
        assert(line.subrange(1, close) =~= k);
        assert(line.subrange(close + 1, line.len() as int) =~= mid_sep() + v + seq!['"']);
    } else {
        assert(line[0] == k[0]);
        let sp = k.len() as int;
        assert(line[sp] == mid_sep()[0]);
        assert forall|j: int| 0 <= j < sp implies line[j] != ' ' by {
            assert(line[j] == k[j]);
            if k[j] == ' ' {
                assert(has_space(k));
            }
        }
        lemma_find_from_is(line, 0, ' ', sp);
        assert(line.subrange(0, sp) =~= k);
        assert(line.subrange(sp, line.len() as int) =~= mid_sep() + v + seq!['"']);
    }
}

/// The record lines of a well-formed table parse back to its pairs in
/// order.
proof fn lemma_parse_lines_of(s: Seq<(Seq<char>, Seq<char>)>)
    requires
        forall|i: int|
            0 <= i < s.len() ==> valid_name((#[trigger] s[i]).0) && valid_path(s[i].1),
    ensures
        spec_parse_lines(lines_of(s).push(Seq::<char>::empty())) == Some(s),
    decreases s.len(),
{
    let lines = lines_of(s).push(Seq::<char>::empty());
    if s.len() == 0 {
        assert(lines =~= seq![Seq::<char>::empty()]);
        assert(lines[0].len() == 0);
        assert(lines.drop_first() =~= Seq::<Seq<char>>::empty());
        assert(spec_parse_lines(Seq::<Seq<char>>::empty()) == Some(
            Seq::<(Seq<char>, Seq<char>)>::empty(),
        ));
        assert(s =~= Seq::<(Seq<char>, Seq<char>)>::empty());
    } else {
        let line0 = spec_line(s[0].0, s[0].1);
        assert(lines[0] == line0);
        lemma_line_no_newline(s[0].0, s[0].1);
        lemma_parse_line_of_line(s[0].0, s[0].1);
        assert(lines.drop_first() =~= lines_of(s.drop_first()).push(Seq::<char>::empty()));
        assert forall|i: int| 0 <= i < s.drop_first().len() implies valid_name(
            (#[trigger] s.drop_first()[i]).0,
        ) && valid_path(s.drop_first()[i].1) by {
            assert(s.drop_first()[i] == s[i + 1]);
        }
        lemma_parse_lines_of(s.drop_first());
        assert(spec_parse_lines(lines) == Some(seq![(s[0].0, s[0].1)] + s.drop_first()));
        assert(seq![(s[0].0, s[0].1)] + s.drop_first() =~= s);
    }
}

/// Folding already-sorted records onto a sorted prefix keeps them as
/// they are.
proof fn lemma_table_from_sorted(
    t: Seq<(Seq<char>, Seq<char>)>,
    ps: Seq<(Seq<char>, Seq<char>)>,
)
    requires
        entries_sorted(t + ps),
    ensures
        spec_table_from(t, ps) == Some(t + ps),
    decreases ps.len(),
{
    let c = t + ps;
    if ps.len() == 0 {
        assert(c =~= t);
    } else {
        let p = ps[0];
        assert(c[t.len() as int] == p);
        assert forall|j: int| 0 <= j < t.len() implies lex_lt((#[trigger] t[j]).0, p.0) by {
            assert(c[j] == t[j]);
            assert(lex_lt(c[j].0, c[t.len() as int].0));
        }
        if contains_name(t, p.0) {
            let w = choose|i: int| 0 <= i < t.len() && (#[trigger] t[i]).0 == p.0;
            lemma_lex_lt_irrefl(p.0);
            assert(false);
        }
        lemma_spec_insert_at(t, p.0, p.1, t.len() as int);
        assert(spec_insert(t, p.0, p.1) =~= t.push(p));
        assert(t.push(p) + ps.drop_first() =~= c);
        lemma_table_from_sorted(t.push(p), ps.drop_first());
    }
}

/// Round trip: serializing a well-formed table and loading the text
/// again yields exactly the same table, for any table whose names and
/// paths carry no control character and no double quote.
pub proof fn lemma_round_trip(s: Seq<(Seq<char>, Seq<char>)>)
    requires
        entries_sorted(s),
        forall|i: int|
            0 <= i < s.len() ==> valid_name((#[trigger] s[i]).0) && valid_path(s[i].1),
    ensures
        spec_load(spec_serialize(s)) == Some(s),
{
    lemma_serialize_split(s);
    lemma_parse_lines_of(s);
    assert(Seq::<(Seq<char>, Seq<char>)>::empty() + s =~= s);
    lemma_table_from_sorted(Seq::<(Seq<char>, Seq<char>)>::empty(), s);
}

} // verus!
