//! The in-memory bookmark table: entries sorted by name, names unique
//! and non-empty.

use vstd::prelude::*;
use vstd::string::*;
use crate::errors::BmarkError;
use crate::order::lex_lt;
use crate::order::lemma_lex_lt_asym;
use crate::order::lemma_lex_lt_irrefl;
use crate::order::lemma_lex_lt_total;
use crate::order::lemma_lex_lt_trans;
use crate::order::str_eq;
use crate::order::str_lt;

verus! {

/// A named pointer to a directory.
pub struct Bookmark {
    pub name: String,
    pub path: String,
}

impl View for Bookmark {
    type V = (Seq<char>, Seq<char>);

    open spec fn view(&self) -> Self::V {
        (self.name@, self.path@)
    }
}

/// Entries appear in strictly increasing name order, which makes names
/// unique.
pub open spec fn entries_sorted(s: Seq<(Seq<char>, Seq<char>)>) -> bool {
    forall|i: int, j: int| 0 <= i < j < s.len() ==> lex_lt(#[trigger] s[i].0, #[trigger] s[j].0)
}

/// Some entry carries the name `n`.
pub open spec fn contains_name(s: Seq<(Seq<char>, Seq<char>)>, n: Seq<char>) -> bool {
    exists|i: int| 0 <= i < s.len() && (#[trigger] s[i]).0 == n
}

pub open spec fn names_nonempty(s: Seq<(Seq<char>, Seq<char>)>) -> bool {
    forall|i: int| 0 <= i < s.len() ==> (#[trigger] s[i]).0.len() > 0
}

/// Insertion of a pair into a name-sorted sequence of entries, keeping
/// the order.
pub open spec fn spec_insert(
    s: Seq<(Seq<char>, Seq<char>)>,
    k: Seq<char>,
    v: Seq<char>,
) -> Seq<(Seq<char>, Seq<char>)>
    decreases s.len(),
{
    if s.len() == 0 {
        seq![(k, v)]
    } else if lex_lt(k, s[0].0) {
        seq![(k, v)] + s
    } else {
        seq![s[0]] + spec_insert(s.drop_first(), k, v)
    }
}

/// When every name before position `p` is below `k` and every name from
/// `p` on is above it, `spec_insert` places the pair exactly at `p`.
pub proof fn lemma_spec_insert_at(s: Seq<(Seq<char>, Seq<char>)>, k: Seq<char>, v: Seq<char>, p: int)
    requires
        0 <= p <= s.len(),
        forall|j: int| 0 <= j < p ==> lex_lt((#[trigger] s[j]).0, k),
        forall|j: int| p <= j < s.len() ==> lex_lt(k, (#[trigger] s[j]).0),
    ensures
        spec_insert(s, k, v) == s.take(p) + seq![(k, v)] + s.skip(p),
    decreases s.len(),
{
    if s.len() == 0 {
        assert(spec_insert(s, k, v) =~= s.take(0) + seq![(k, v)] + s.skip(0));
    } else if p == 0 {
        assert(lex_lt(k, s[0].0));
        assert(seq![(k, v)] + s =~= s.take(0) + seq![(k, v)] + s.skip(0));
    } else {
        assert(lex_lt(s[0].0, k));
        lemma_lex_lt_asym(s[0].0, k);
        let d = s.drop_first();
        assert forall|j: int| 0 <= j < p - 1 implies lex_lt((#[trigger] d[j]).0, k) by {
            assert(d[j] == s[j + 1]);
        }
        assert forall|j: int| p - 1 <= j < d.len() implies lex_lt(k, (#[trigger] d[j]).0) by {
            assert(d[j] == s[j + 1]);
        }
        lemma_spec_insert_at(d, k, v, p - 1);
        assert(seq![s[0]] + (d.take(p - 1) + seq![(k, v)] + d.skip(p - 1)) =~= s.take(p) + seq![
            (k, v),
        ] + s.skip(p));
    }
}

/// Inserting at its position keeps the entries sorted and the names
/// non-empty.
pub proof fn lemma_spec_insert_props(
    s: Seq<(Seq<char>, Seq<char>)>,
    k: Seq<char>,
    v: Seq<char>,
    p: int,
)
    requires
        0 <= p <= s.len(),
        forall|j: int| 0 <= j < p ==> lex_lt((#[trigger] s[j]).0, k),
        forall|j: int| p <= j < s.len() ==> lex_lt(k, (#[trigger] s[j]).0),
        entries_sorted(s),
    ensures
        spec_insert(s, k, v) == s.take(p) + seq![(k, v)] + s.skip(p),
        entries_sorted(spec_insert(s, k, v)),
        names_nonempty(s) && k.len() > 0 ==> names_nonempty(spec_insert(s, k, v)),
        spec_insert(s, k, v).len() == s.len() + 1,
{
    lemma_spec_insert_at(s, k, v, p);
    let r = spec_insert(s, k, v);
    assert forall|i: int, j: int| 0 <= i < j < r.len() implies lex_lt(
        (#[trigger] r[i]).0,
        (#[trigger] r[j]).0,
    ) by {
        if i < p {
            assert(r[i] == s[i]);
        } else if i == p {
            assert(r[i] == (k, v));
        } else {
            assert(r[i] == s[i - 1]);
        }
        if j < p {
            assert(r[j] == s[j]);
        } else if j == p {
            assert(r[j] == (k, v));
        } else {
            assert(r[j] == s[j - 1]);
        }
    }
    assert(entries_sorted(r));
    if names_nonempty(s) && k.len() > 0 {
        assert forall|i: int| 0 <= i < r.len() implies (#[trigger] r[i]).0.len() > 0 by {
            if i < p {
                assert(r[i] == s[i]);
            } else if i == p {
                assert(r[i] == (k, v));
            } else {
                assert(r[i] == s[i - 1]);
            }
        }
    }
}

/// The entries that survive removing the name `n`: exactly the original
/// entries whose name differs, in their original order.
pub open spec fn remove_name(
    s: Seq<(Seq<char>, Seq<char>)>,
    n: Seq<char>,
) -> Seq<(Seq<char>, Seq<char>)> {
    s.filter(|p: (Seq<char>, Seq<char>)| p.0 != n)
}

/// Removal by name keeps a subsequence: every survivor occurs in the
/// original, no survivor carries the removed name, and order, sortedness
/// and non-emptiness of names are preserved.
pub proof fn lemma_remove_name_props(s: Seq<(Seq<char>, Seq<char>)>, n: Seq<char>)
    ensures
        forall|k: int|
            0 <= k < remove_name(s, n).len() ==> s.contains(#[trigger] remove_name(s, n)[k]),
        forall|k: int| 0 <= k < remove_name(s, n).len() ==> (#[trigger] remove_name(s, n)[k]).0
            != n,
        entries_sorted(s) ==> entries_sorted(remove_name(s, n)),
        names_nonempty(s) ==> names_nonempty(remove_name(s, n)),
    decreases s.len(),
{
    reveal(Seq::filter);
    let f = remove_name(s, n);
    if s.len() == 0 {
    } else {
        let d = s.drop_last();
        assert(entries_sorted(s) ==> entries_sorted(d));
        assert(names_nonempty(s) ==> names_nonempty(d));
        lemma_remove_name_props(d, n);
        let fd = remove_name(d, n);
        assert forall|k: int| 0 <= k < f.len() implies s.contains(#[trigger] f[k]) && f[k].0
            != n by {
            if s.last().0 != n && k == f.len() - 1 {
                assert(f[k] == s.last());
                assert(s[s.len() - 1] == s.last());
            } else {
                assert(f[k] == fd[k]);
                assert(d.contains(fd[k]));
                let j = choose|j: int| 0 <= j < d.len() && d[j] == fd[k];
                assert(s[j] == f[k]);
            }
        }
        if entries_sorted(s) {
            assert forall|i: int, j: int| 0 <= i < j < f.len() implies lex_lt(
                (#[trigger] f[i]).0,
                (#[trigger] f[j]).0,
            ) by {
                if s.last().0 != n && j == f.len() - 1 {
                    assert(f[i] == fd[i]);
                    assert(d.contains(fd[i]));
                    let t = choose|t: int| 0 <= t < d.len() && d[t] == fd[i];
                    assert(s[t] == f[i]);
                    assert(lex_lt(s[t].0, s[s.len() - 1].0));
                } else {
                    assert(f[i] == fd[i] && f[j] == fd[j]);
                }
            }
        }
        if names_nonempty(s) {
            assert forall|k: int| 0 <= k < f.len() implies (#[trigger] f[k]).0.len() > 0 by {
                assert(s.contains(f[k]));
                let t = choose|t: int| 0 <= t < s.len() && s[t] == f[k];
            }
        }
    }
}

/// Removal is exact: on a sorted table, removing a stored name drops
/// exactly one entry, and removing an absent name changes nothing.
pub proof fn lemma_removal_exact(s: Seq<(Seq<char>, Seq<char>)>, n: Seq<char>)
    requires
        entries_sorted(s),
    ensures
        contains_name(s, n) ==> remove_name(s, n).len() == s.len() - 1,
        !contains_name(s, n) ==> remove_name(s, n) == s,
    decreases s.len(),
{
    reveal(Seq::filter);
    if s.len() == 0 {
        assert(remove_name(s, n) =~= s);
    } else {
        let d = s.drop_last();
        let e = s.last();
        assert(entries_sorted(d));
        lemma_removal_exact(d, n);
        assert(s =~= d.push(e));
        lemma_remove_name_push(d, n, e);
        if e.0 == n {
            assert((#[trigger] s[s.len() - 1]).0 == n);
            assert(contains_name(s, n));
            if contains_name(d, n) {
                let w = choose|i: int| 0 <= i < d.len() && (#[trigger] d[i]).0 == n;
                assert(d[w] == s[w]);
                assert(lex_lt(s[w].0, s[s.len() - 1].0));
                lemma_lex_lt_irrefl(n);
                assert(false);
            }
            assert(remove_name(s, n) == remove_name(d, n));
            assert(remove_name(d, n) == d);
        } else {
            assert(remove_name(s, n) == remove_name(d, n).push(e));
            if contains_name(s, n) {
                let w = choose|i: int| 0 <= i < s.len() && (#[trigger] s[i]).0 == n;
                assert(w < s.len() - 1);
                assert((#[trigger] d[w]).0 == n);
                assert(contains_name(d, n));
                assert(remove_name(s, n).len() == s.len() - 1);
            } else {
                if contains_name(d, n) {
                    let w = choose|i: int| 0 <= i < d.len() && (#[trigger] d[i]).0 == n;
                    assert((#[trigger] s[w]).0 == n);
                    assert(false);
                }
                assert(remove_name(s, n) =~= s);
            }
        }
    }
}

/// One step of removal: appending an entry keeps it exactly when its
/// name differs.
pub proof fn lemma_remove_name_push(
    s: Seq<(Seq<char>, Seq<char>)>,
    n: Seq<char>,
    e: (Seq<char>, Seq<char>),
)
    ensures
        remove_name(s.push(e), n) == if e.0 != n {
            remove_name(s, n).push(e)
        } else {
            remove_name(s, n)
        },
{
    reveal(Seq::filter);
    assert(s.push(e).drop_last() =~= s);
    assert(s.push(e).last() == e);
}

proof fn lemma_lt_span(s: Seq<(Seq<char>, Seq<char>)>, i: int, j: int)
    requires
        forall|t: int| 0 <= t < s.len() - 1 ==> lex_lt((#[trigger] s[t]).0, s[t + 1].0),
        0 <= i < j < s.len(),
    ensures
        lex_lt(s[i].0, s[j].0),
    decreases j - i,
{
    if j == i + 1 {
        assert(lex_lt((#[trigger] s[i]).0, s[i + 1].0));
    } else {
        lemma_lt_span(s, i, j - 1);
        assert(lex_lt((#[trigger] s[j - 1]).0, s[j].0));
        lemma_lex_lt_trans(s[i].0, s[j - 1].0, s[j].0);
    }
}

/// Adjacent order is all it takes: a sequence whose neighbours are
/// ordered is sorted throughout.
proof fn lemma_adjacent_sorted(s: Seq<(Seq<char>, Seq<char>)>)
    requires
        forall|t: int| 0 <= t < s.len() - 1 ==> lex_lt((#[trigger] s[t]).0, s[t + 1].0),
    ensures
        entries_sorted(s),
{
    assert forall|i: int, j: int| 0 <= i < j < s.len() implies lex_lt(
        (#[trigger] s[i]).0,
        (#[trigger] s[j]).0,
    ) by {
        lemma_lt_span(s, i, j);
    }
}

/// The bookmark table. Owned by the store; reloaded from its file for
/// every operation, rewritten or appended to after every change.
pub struct BookmarkTable {
    entries: Vec<Bookmark>,
}

impl View for BookmarkTable {
    type V = Seq<(Seq<char>, Seq<char>)>;

    closed spec fn view(&self) -> Self::V {
        Seq::new(self.entries@.len(), |i: int| self.entries@[i]@)
    }
}

impl BookmarkTable {
    /// Entries sorted strictly by name (so names are unique), and no
    /// name empty.
    pub open spec fn wf(&self) -> bool {
        entries_sorted(self@) && names_nonempty(self@)
    }

    /// The empty table.
    pub fn new() -> (r: BookmarkTable)
        ensures
            r@ == Seq::<(Seq<char>, Seq<char>)>::empty(),
            r.wf(),
    {
        let t = BookmarkTable { entries: Vec::new() };
        proof {
            assert(t@ =~= Seq::<(Seq<char>, Seq<char>)>::empty());
        }
        t
    }

    pub fn len(&self) -> (r: usize)
        ensures
            r == self@.len(),
    {
        self.entries.len()
    }

    pub fn name_at(&self, i: usize) -> (r: &String)
        requires
            i < self@.len(),
        ensures
            r@ == self@[i as int].0,
    {
        &self.entries[i].name
    }

    pub fn path_at(&self, i: usize) -> (r: &String)
        requires
            i < self@.len(),
        ensures
            r@ == self@[i as int].1,
    {
        &self.entries[i].path
    }

    /// Decides `wf` at run time, so an unverified caller can test it
    /// before an operation that relies on it.
    pub fn is_wf(&self) -> (r: bool)
        ensures
            r == self.wf(),
    {
        let n = self.entries.len();
        let mut i: usize = 0;
        while i < n
            invariant
                i <= n,
                n == self@.len(),
                forall|j: int| 0 <= j < i ==> (#[trigger] self@[j]).0.len() > 0,
                forall|j: int|
                    0 <= j < i && j + 1 < n ==> lex_lt((#[trigger] self@[j]).0, self@[j + 1].0),
            decreases n - i,
        {
            if self.entries[i].name.as_str().unicode_len() == 0 {
                proof {
                    assert((#[trigger] self@[i as int]).0.len() == 0);
                }
                return false;
            }
            if i + 1 < n && !str_lt(self.entries[i].name.as_str(), self.entries[i + 1].name.as_str())
            {
                proof {
                    assert(!lex_lt((#[trigger] self@[i as int]).0, self@[i as int + 1].0));
                }
                return false;
            }
            i = i + 1;
        }
        proof {
            lemma_adjacent_sorted(self@);
        }
        true
    }

    /// Looks a name up; `Some` carries an index that holds it.
    pub fn find(&self, name: &String) -> (r: Option<usize>)
        ensures
            match r {
                Some(i) => i < self@.len() && self@[i as int].0 == name@,
                None => !contains_name(self@, name@),
            },
    {
        let n = self.entries.len();
        let mut i: usize = 0;
        while i < n
            invariant
                i <= n,
                n == self@.len(),
                forall|j: int| 0 <= j < i ==> (#[trigger] self@[j]).0 != name@,
            decreases n - i,
        {
            if str_eq(self.entries[i].name.as_str(), name.as_str()) {
                return Some(i);
            }
            i = i + 1;
        }
        None
    }

    /// Whether a bookmark of this name is present.
    pub fn has_name(&self, name: &String) -> (r: bool)
        ensures
            r == contains_name(self@, name@),
    {
        match self.find(name) {
            Some(_) => true,
            None => false,
        }
    }

    /// Adds a pair at its sorted position; fails exactly when the name
    /// is already present, and then changes nothing.
    pub fn insert(&self, name: String, path: String) -> (r: Result<BookmarkTable, BmarkError>)
        requires
            self.wf(),
            name@.len() > 0,
        ensures
            match r {
                Ok(t) => !contains_name(self@, name@) && t@ == spec_insert(self@, name@, path@)
                    && t.wf() && t@.len() == self@.len() + 1,
                Err(e) => contains_name(self@, name@) && (e matches BmarkError::DuplicateName(n)
                    && n@ == name@),
            },
    {
        let ghost gname = name@;
        let ghost gpath = path@;
        let n = self.entries.len();
        let mut i: usize = 0;
        while i < n && str_lt(self.entries[i].name.as_str(), name.as_str())
            invariant
                i <= n,
                n == self@.len(),
                gname == name@,
                forall|j: int| 0 <= j < i ==> lex_lt((#[trigger] self@[j]).0, gname),
            decreases n - i,
        {
            i = i + 1;
        }
        if i < n && str_eq(self.entries[i].name.as_str(), name.as_str()) {
            proof {
                assert(self@[i as int].0 == gname);
            }
            return Err(BmarkError::DuplicateName(name));
        }
        proof {
            if i < n {
                lemma_lex_lt_total(gname, self@[i as int].0);
                assert(lex_lt(gname, self@[i as int].0));
            }
            assert forall|j: int| i <= j < n implies lex_lt(gname, (#[trigger] self@[j]).0) by {
                if j > i {
                    lemma_lex_lt_trans(gname, self@[i as int].0, self@[j].0);
                }
            }
            assert forall|j: int| 0 <= j < i implies (#[trigger] self@[j]).0 != gname by {
                if self@[j].0 == gname {
                    lemma_lex_lt_irrefl(gname);
                }
            }
            assert(!contains_name(self@, gname));
        }
        let mut out: Vec<Bookmark> = Vec::new();
        let mut j: usize = 0;
        while j < i
            invariant
                j <= i,
                i <= n,
                n == self@.len(),
                out@.len() == j,
                forall|t: int| 0 <= t < j ==> (#[trigger] out@[t])@ == self@[t],
            decreases i - j,
        {
            out.push(
                Bookmark {
                    name: self.entries[j].name.clone(),
                    path: self.entries[j].path.clone(),
                },
            );
            j = j + 1;
        }
        out.push(Bookmark { name, path });
        while j < n
            invariant
                i <= j <= n,
                n == self@.len(),
                out@.len() == j + 1,
                forall|t: int| 0 <= t < i ==> (#[trigger] out@[t])@ == self@[t],
                out@[i as int]@ == (gname, gpath),
                forall|t: int| i < t <= j ==> (#[trigger] out@[t])@ == self@[t - 1],
            decreases n - j,
        {
            out.push(
                Bookmark {
                    name: self.entries[j].name.clone(),
                    path: self.entries[j].path.clone(),
                },
            );
            j = j + 1;
        }
        let t = BookmarkTable { entries: out };
        proof {
            lemma_spec_insert_props(self@, gname, gpath, i as int);
            assert(t@ =~= self@.take(i as int) + seq![(gname, gpath)] + self@.skip(i as int));
        }
        Ok(t)
    }

    /// Drops the entry of this name; fails exactly when no entry has
    /// it, and then changes nothing.
    pub fn remove(&self, name: &String) -> (r: Result<BookmarkTable, BmarkError>)
        requires
            self.wf(),
        ensures
            match r {
                Ok(t) => contains_name(self@, name@) && t@ == remove_name(self@, name@) && t.wf(),
                Err(e) => !contains_name(self@, name@) && (e matches BmarkError::NotFound(n)
                    && n@ == name@),
            },
    {
        let ghost gname = name@;
        let n = self.entries.len();
        let mut out: Vec<Bookmark> = Vec::new();
        let mut found = false;
        let mut i: usize = 0;
        proof {
            assert(self@.take(0) =~= Seq::<(Seq<char>, Seq<char>)>::empty());
            reveal(Seq::filter);
        }
        while i < n
            invariant
                i <= n,
                n == self@.len(),
                gname == name@,
                Seq::new(out@.len(), |t: int| out@[t]@) == remove_name(
                    self@.take(i as int),
                    gname,
                ),
                found == contains_name(self@.take(i as int), gname),
            decreases n - i,
        {
            let ghost prefix = self@.take(i as int);
            proof {
                assert(self@.take(i as int + 1) =~= prefix.push(self@[i as int]));
                lemma_remove_name_push(prefix, gname, self@[i as int]);
            }
            if str_eq(self.entries[i].name.as_str(), name.as_str()) {
                found = true;
                proof {
                    assert(self@[i as int].0 == gname);
                    assert((#[trigger] self@.take(i as int + 1)[i as int]).0 == gname);
                    assert(contains_name(self@.take(i as int + 1), gname));
                }
            } else {
                out.push(
                    Bookmark {
                        name: self.entries[i].name.clone(),
                        path: self.entries[i].path.clone(),
                    },
                );
                proof {
                    assert(Seq::new(out@.len(), |t: int| out@[t]@) =~= remove_name(
                        prefix,
                        gname,
                    ).push(self@[i as int]));
                    if contains_name(self@.take(i as int + 1), gname) {
                        let t = choose|t: int|
                            0 <= t < i + 1 && (#[trigger] self@.take(i as int + 1)[t]).0 == gname;
                        if t < i {
                            assert((#[trigger] prefix[t]).0 == gname);
                            assert(contains_name(prefix, gname));
                        } else {
                            assert(self@.take(i as int + 1)[t] == self@[i as int]);
                            assert(false);
                        }
                    }
                    if contains_name(prefix, gname) {
                        let t = choose|t: int| 0 <= t < i && (#[trigger] prefix[t]).0 == gname;
                        assert((#[trigger] self@.take(i as int + 1)[t]).0 == gname);
                        assert(contains_name(self@.take(i as int + 1), gname));
                    }
                }
            }
            i = i + 1;
        }
        proof {
            assert(self@.take(n as int) =~= self@);
        }
        if !found {
            return Err(BmarkError::NotFound(name.clone()));
        }
        let t = BookmarkTable { entries: out };
        proof {
            lemma_remove_name_props(self@, gname);
            assert(t@ =~= remove_name(self@, gname));
        }
        Ok(t)
    }
}

} // verus!
