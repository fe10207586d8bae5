use vstd::prelude::*;

verus! {

/// UTF-8 bytes of a series name.
pub open spec fn name_bytes(name: Seq<char>) -> Seq<u8> {
    vstd::utf8::encode_utf8(name)
}

/// Byte-wise lexicographic order on two byte strings of one length.
pub open spec fn lex_before(a: Seq<u8>, b: Seq<u8>) -> bool
    decreases a.len(),
{
    if a.len() == 0 || b.len() == 0 {
        false
    } else if a[0] < b[0] {
        true
    } else if a[0] > b[0] {
        false
    } else {
        lex_before(a.drop_first(), b.drop_first())
    }
}

/// Listing order of series names: shorter names first, names of one
/// length byte-wise lexicographically.
pub open spec fn series_before(a: Seq<u8>, b: Seq<u8>) -> bool {
    a.len() < b.len() || (a.len() == b.len() && lex_before(a, b))
}

/// No two of `names` spell the same name.
pub open spec fn views_distinct(names: Seq<String>) -> bool {
    forall|a: int, b: int| 0 <= a < b < names.len() ==> (#[trigger] names[a])@ != (#[trigger] names[b])@
}

/// `names` is in listing order (equal names may stand side by side).
pub open spec fn in_series_order(names: Seq<String>) -> bool {
    forall|i: int, j: int|
        0 <= i < j < names.len() ==> !series_before(
            name_bytes((#[trigger] names[j])@),
            name_bytes((#[trigger] names[i])@),
        )
}

proof fn lemma_lex_transitive(a: Seq<u8>, b: Seq<u8>, c: Seq<u8>)
    requires
        a.len() == b.len(),
        b.len() == c.len(),
        lex_before(a, b),
        lex_before(b, c),
    ensures
        lex_before(a, c),
    decreases a.len(),
{
    if a[0] == b[0] && b[0] == c[0] {
        lemma_lex_transitive(a.drop_first(), b.drop_first(), c.drop_first());
    }
}

/// The listing order is transitive.
pub proof fn lemma_series_before_transitive(a: Seq<u8>, b: Seq<u8>, c: Seq<u8>)
    requires
        series_before(a, b),
        series_before(b, c),
    ensures
        series_before(a, c),
{
    if a.len() == b.len() && b.len() == c.len() {
        lemma_lex_transitive(a, b, c);
    }
}

/// The listing order never puts a name before itself.
pub proof fn lemma_series_before_irreflexive(a: Seq<u8>)
    ensures
        !series_before(a, a),
    decreases a.len(),
{
    if a.len() > 0 {
        lemma_series_before_irreflexive(a.drop_first());
    }
}

/// Whether `a` comes strictly before `b` in listing order.
pub fn series_precedes(a: &str, b: &str) -> (r: bool)
    ensures
        r == series_before(name_bytes(a@), name_bytes(b@)),
{
    let x = a.as_bytes();
    let y = b.as_bytes();
    if x.len() != y.len() {
        return x.len() < y.len();
    }
    let n = x.len();
    let mut k: usize = 0;
    assert(x@.skip(0) =~= x@);
    assert(y@.skip(0) =~= y@);
    while k < n && x[k] == y[k]
        invariant
            n == x@.len(),
            n == y@.len(),
            k <= n,
            lex_before(x@, y@) == lex_before(x@.skip(k as int), y@.skip(k as int)),
        decreases n - k,
    {
        assert(x@.skip(k as int).drop_first() =~= x@.skip(k + 1));
        assert(y@.skip(k as int).drop_first() =~= y@.skip(k + 1));
        k += 1;
    }
    if k == n {
        false
    } else {
        x[k] < y[k]
    }
}

/// Sorts series names into listing order: by byte length, then
/// byte-wise, as the series list is served.
pub fn sort_series(names: Vec<String>) -> (r: Vec<String>)
    ensures
        r@.len() == names@.len(),
        in_series_order(r@),
        forall|s: String| r@.contains(s) <==> names@.contains(s),
        views_distinct(names@) ==> views_distinct(r@),
{
    let mut out: Vec<String> = Vec::new();
    let n = names.len();
    let mut i: usize = 0;
    while i < n
        invariant
            n == names@.len(),
            i <= n,
            out@.len() == i,
            in_series_order(out@),
            forall|s: String| out@.contains(s) <==> names@.take(i as int).contains(s),
            views_distinct(names@) ==> views_distinct(out@),
        decreases n - i,
    {
        let x = names[i].clone();
        let mut p: usize = 0;
        while p < out.len() && !series_precedes(x.as_str(), out[p].as_str())
            invariant
                p <= out@.len(),
                forall|k: int|
                    0 <= k < p ==> !series_before(name_bytes(x@), name_bytes((#[trigger] out@[k])@)),
            decreases out@.len() - p,
        {
            p += 1;
        }
        let ghost before = out@;
        proof {
            if p < before.len() {
                assert(series_before(name_bytes(x@), name_bytes(before[p as int]@)));
            }
        }
        out.insert(p, x);
        proof {
            assert forall|a: int, b: int| 0 <= a < b < out@.len() implies !series_before(
                name_bytes((#[trigger] out@[b])@),
                name_bytes((#[trigger] out@[a])@),
            ) by {
                if a < p && b == p {
                    assert(out@[b] == x);
                    assert(out@[a] == before[a]);
                } else if a < p && b > p {
                    assert(out@[b] == before[b - 1]);
                    assert(out@[a] == before[a]);
                } else if a == p {
                    assert(out@[a] == x);
                    assert(out@[b] == before[b - 1]);
                    assert(series_before(name_bytes(x@), name_bytes(before[p as int]@)));
                    if series_before(name_bytes(before[b - 1]@), name_bytes(x@)) {
                        lemma_series_before_transitive(
                            name_bytes(before[b - 1]@),
                            name_bytes(x@),
                            name_bytes(before[p as int]@),
                        );
                        if b - 1 == p {
                            lemma_series_before_irreflexive(name_bytes(before[p as int]@));
                        } else {
                            assert(!series_before(
                                name_bytes(before[b - 1]@),
                                name_bytes(before[p as int]@),
                            ));
                        }
                    }
                } else if a > p {
                    assert(out@[b] == before[b - 1]);
                    assert(out@[a] == before[a - 1]);
                } else {
                    assert(out@[b] == before[b]);
                    assert(out@[a] == before[a]);
                }
            }
            if views_distinct(names@) {
                assert forall|k: int| 0 <= k < before.len() implies (#[trigger] before[k])@ != x@ by {
                    assert(before.contains(before[k]));
                    let ti = names@.take(i as int);
                    assert(ti.contains(before[k]));
                    let j = choose|j: int| 0 <= j < ti.len() && ti[j] == before[k];
                    assert(names@[j] == before[k]);
                }
                assert forall|a: int, b: int| 0 <= a < b < out@.len() implies (#[trigger] out@[a])@
                    != (#[trigger] out@[b])@ by {
                    if a < p && b == p {
                        assert(out@[a] == before[a]);
                    } else if a == p {
                        assert(out@[b] == before[b - 1]);
                    } else if a < p && b > p {
                        assert(out@[a] == before[a]);
                        assert(out@[b] == before[b - 1]);
                    } else if a > p {
                        assert(out@[a] == before[a - 1]);
                        assert(out@[b] == before[b - 1]);
                    } else {
                        assert(out@[a] == before[a]);
                        assert(out@[b] == before[b]);
                    }
                }
            }
            let t = names@.take(i + 1);
            assert(t =~= names@.take(i as int).push(names@[i as int]));
            assert forall|s: String| out@.contains(s) <==> t.contains(s) by {
                if out@.contains(s) {
                    let k = choose|k: int| 0 <= k < out@.len() && out@[k] == s;
                    if k == p {
                        assert(t[i as int] == s);
                    } else {
                        if k < p {
                            assert(before[k] == s);
                        } else {
                            assert(before[k - 1] == s);
                        }
                        assert(before.contains(s));
                        let ti = names@.take(i as int);
                        assert(ti.contains(s));
                        let j = choose|j: int| 0 <= j < ti.len() && ti[j] == s;
                        assert(t[j] == s);
                    }
                }
                if t.contains(s) {
                    let k = choose|k: int| 0 <= k < t.len() && t[k] == s;
                    if k < i {
                        assert(names@.take(i as int)[k] == s);
                        assert(names@.take(i as int).contains(s));
                        assert(before.contains(s));
                        let m = choose|m: int| 0 <= m < before.len() && before[m] == s;
                        if m < p {
                            assert(out@[m] == s);
                        } else {
                            assert(out@[m + 1] == s);
                        }
                    } else {
                        assert(out@[p as int] == s);
                    }
                }
            }
        }
        i += 1;
    }
    assert(names@.take(n as int) =~= names@);
    out
}

/// One exported series vector as the catalog sees it: its name, the
/// serialized name of the index it is keyed by, the database it belongs
/// to, and whether it is computed on read (no stored regions).
#[derive(Debug, Clone)]
pub struct SeriesRow {
    pub name: String,
    pub index: String,
    pub db: String,
    pub lazy: bool,
}

/// Series counts of the catalog or of one database.
#[derive(Debug, Clone, Copy, PartialEq, Eq, Structural)]
pub struct SeriesCount {
    /// Distinct series names.
    pub distinct: usize,
    /// Series vectors, one per (name, index).
    pub total: usize,
    /// Vectors computed on read.
    pub lazy: usize,
    /// Vectors with stored data.
    pub stored: usize,
}

/// The names occurring in `rows`.
pub open spec fn names_of(rows: Seq<SeriesRow>) -> Set<Seq<char>>
    decreases rows.len(),
{
    if rows.len() == 0 {
        Set::empty()
    } else {
        names_of(rows.drop_last()).insert(rows.last().name@)
    }
}

/// The indexes of the rows named `name`, in order.
pub open spec fn indexes_in(rows: Seq<SeriesRow>, name: Seq<char>) -> Seq<Seq<char>>
    decreases rows.len(),
{
    if rows.len() == 0 {
        Seq::empty()
    } else if rows.last().name@ == name {
        indexes_in(rows.drop_last(), name).push(rows.last().index@)
    } else {
        indexes_in(rows.drop_last(), name)
    }
}

/// How many of `rows` are lazy.
pub open spec fn lazy_count(rows: Seq<SeriesRow>) -> nat
    decreases rows.len(),
{
    if rows.len() == 0 {
        0
    } else {
        lazy_count(rows.drop_last()) + if rows.last().lazy {
            1nat
        } else {
            0nat
        }
    }
}

/// The rows of database `db`, in insertion order.
pub open spec fn rows_in(rows: Seq<SeriesRow>, db: Seq<char>) -> Seq<SeriesRow>
    decreases rows.len(),
{
    if rows.len() == 0 {
        Seq::empty()
    } else if rows.last().db@ == db {
        rows_in(rows.drop_last(), db).push(rows.last())
    } else {
        rows_in(rows.drop_last(), db)
    }
}

/// The counts of `rows`.
pub open spec fn counted(c: SeriesCount, rows: Seq<SeriesRow>) -> bool {
    &&& c.distinct == names_of(rows).len()
    &&& c.total == rows.len()
    &&& c.lazy == lazy_count(rows)
    &&& c.stored == rows.len() - lazy_count(rows)
}

/// Some row of `rows` has this name and index.
pub open spec fn has_row(rows: Seq<SeriesRow>, name: Seq<char>, index: Seq<char>) -> bool {
    exists|i: int| 0 <= i < rows.len() && (#[trigger] rows[i]).name@ == name && rows[i].index@ == index
}

proof fn lemma_names_of(rows: Seq<SeriesRow>)
    ensures
        names_of(rows).finite(),
        forall|n: Seq<char>|
            #[trigger] names_of(rows).contains(n) <==> exists|i: int| 0 <= i < rows.len() && (#[trigger] rows[i]).name@ == n,
    decreases rows.len(),
{
    if rows.len() > 0 {
        let init = rows.drop_last();
        lemma_names_of(init);
        assert forall|n: Seq<char>| #[trigger] names_of(rows).contains(n) <==> exists|i: int|
            0 <= i < rows.len() && (#[trigger] rows[i]).name@ == n by {
            if names_of(rows).contains(n) && n != rows.last().name@ {
                let i = choose|i: int| 0 <= i < init.len() && (#[trigger] init[i]).name@ == n;
                assert(rows[i] == init[i]);
            }
            if exists|i: int| 0 <= i < rows.len() && (#[trigger] rows[i]).name@ == n {
                let i = choose|i: int| 0 <= i < rows.len() && (#[trigger] rows[i]).name@ == n;
                if i < rows.len() - 1 {
                    assert(init[i] == rows[i]);
                }
            }
        }
    }
}

proof fn lemma_lazy_bound(rows: Seq<SeriesRow>)
    ensures
        lazy_count(rows) <= rows.len(),
    decreases rows.len(),
{
    if rows.len() > 0 {
        lemma_lazy_bound(rows.drop_last());
    }
}

proof fn lemma_rows_in_len(rows: Seq<SeriesRow>, db: Seq<char>)
    ensures
        rows_in(rows, db).len() <= rows.len(),
    decreases rows.len(),
{
    if rows.len() > 0 {
        lemma_rows_in_len(rows.drop_last(), db);
    }
}

/// A row of database `db` with name `n` exists exactly when `n` is among
/// the names of `db`'s rows.
proof fn lemma_rows_in_names(rows: Seq<SeriesRow>, db: Seq<char>, n: Seq<char>)
    ensures
        names_of(rows_in(rows, db)).contains(n) <==> exists|i: int|
            0 <= i < rows.len() && (#[trigger] rows[i]).db@ == db && rows[i].name@ == n,
    decreases rows.len(),
{
    if rows.len() > 0 {
        let init = rows.drop_last();
        lemma_rows_in_names(init, db, n);
        assert(rows_in(init, db).push(rows.last()).drop_last() =~= rows_in(init, db));
        if exists|i: int| 0 <= i < rows.len() && (#[trigger] rows[i]).db@ == db && rows[i].name@ == n {
            let i = choose|i: int| 0 <= i < rows.len() && (#[trigger] rows[i]).db@ == db && rows[i].name@ == n;
            if i < rows.len() - 1 {
                assert(init[i] == rows[i]);
            }
        }
        if exists|i: int| 0 <= i < init.len() && (#[trigger] init[i]).db@ == db && init[i].name@ == n {
            let i = choose|i: int| 0 <= i < init.len() && (#[trigger] init[i]).db@ == db && init[i].name@ == n;
            assert(rows[i] == init[i]);
        }
    }
}

impl SeriesCount {
    pub fn zero() -> (r: Self)
        ensures
            counted(r, Seq::empty()),
    {
        SeriesCount { distinct: 0, total: 0, lazy: 0, stored: 0 }
    }

    /// Counts `rows.push(e)` from the counts of `rows`; `new_name` says
    /// whether `e`'s name is new to `rows`.
    fn add(self, e: &SeriesRow, new_name: bool, Ghost(rows): Ghost<Seq<SeriesRow>>) -> (r: Self)
        requires
            counted(self, rows),
            new_name <==> !names_of(rows).contains(e.name@),
            rows.len() < usize::MAX,
        ensures
            counted(r, rows.push(*e)),
    {
        let ghost ext = rows.push(*e);
        proof {
            assert(ext.drop_last() =~= rows);
            lemma_names_of(rows);
            lemma_lazy_bound(rows);
        }
        let distinct = if new_name {
            proof {
                lemma_names_of(rows);
                assert(names_of(rows).len() <= rows.len()) by {
                    lemma_names_len(rows);
                }
            }
            self.distinct + 1
        } else {
            self.distinct
        };
        if e.lazy {
            SeriesCount { distinct, total: self.total + 1, lazy: self.lazy + 1, stored: self.stored }
        } else {
            SeriesCount { distinct, total: self.total + 1, lazy: self.lazy, stored: self.stored + 1 }
        }
    }
}

proof fn lemma_names_len(rows: Seq<SeriesRow>)
    ensures
        names_of(rows).len() <= rows.len(),
    decreases rows.len(),
{
    if rows.len() > 0 {
        lemma_names_len(rows.drop_last());
        lemma_names_of(rows.drop_last());
    }
}

/// The series catalog as it is assembled: every vector added once per
/// (name, index), with the counts of the whole catalog and of each
/// database kept up to date.
pub struct CatalogBuilder {
    rows: Vec<SeriesRow>,
    counts: SeriesCount,
    by_db: Vec<(String, SeriesCount)>,
}

impl CatalogBuilder {
    /// The vectors added so far, in order.
    pub closed spec fn rows_seq(&self) -> Seq<SeriesRow> {
        self.rows@
    }

    pub closed spec fn wf(&self) -> bool {
        &&& counted(self.counts, self.rows@)
        &&& forall|j: int|
            0 <= j < self.by_db@.len() ==> counted(
                (#[trigger] self.by_db@[j]).1,
                rows_in(self.rows@, self.by_db@[j].0@),
            )
        &&& forall|j: int, k: int|
            0 <= j < k < self.by_db@.len() ==> (#[trigger] self.by_db@[j]).0@ != (#[trigger] self.by_db@[k]).0@
        &&& forall|i: int|
            0 <= i < self.rows@.len() ==> exists|j: int|
                0 <= j < self.by_db@.len() && (#[trigger] self.by_db@[j]).0@ == (#[trigger] self.rows@[i]).db@
        &&& forall|j: int|
            0 <= j < self.by_db@.len() ==> exists|i: int|
                0 <= i < self.rows@.len() && (#[trigger] self.rows@[i]).db@ == (#[trigger] self.by_db@[j]).0@
    }

    pub fn new() -> (r: Self)
        ensures
            r.wf(),
            r.rows_seq() == Seq::<SeriesRow>::empty(),
    {
        CatalogBuilder { rows: Vec::new(), counts: SeriesCount::zero(), by_db: Vec::new() }
    }

    /// Whether a vector with this name and index was added.
    pub fn has_series(&self, name: &String, index: &String) -> (r: bool)
        ensures
            r == has_row(self.rows_seq(), name@, index@),
    {
        let mut i: usize = 0;
        while i < self.rows.len()
            invariant
                i <= self.rows@.len(),
                forall|k: int|
                    0 <= k < i ==> !((#[trigger] self.rows@[k]).name@ == name@ && self.rows@[k].index@ == index@),
            decreases self.rows@.len() - i,
        {
            if self.rows[i].name == *name && self.rows[i].index == *index {
                return true;
            }
            i += 1;
        }
        false
    }

    /// Adds one vector. A second vector under the same name and index is
    /// refused by the `requires` (a catalog holds each once).
    pub fn insert(&mut self, e: SeriesRow)
        requires
            old(self).wf(),
            !has_row(old(self).rows_seq(), e.name@, e.index@),
            old(self).rows_seq().len() < usize::MAX,
        ensures
            final(self).wf(),
            final(self).rows_seq() == old(self).rows_seq().push(e),
    {
        let ghost rows = self.rows@;
        let ghost ext = rows.push(e);
        let (new_name, new_in_db) = novelty(&self.rows, &e);
        proof {
            lemma_rows_in_len(rows, e.db@);
            lemma_rows_in_push(rows, e);
        }
        self.counts = self.counts.add(&e, new_name, Ghost(rows));
        let ghost by_db0 = self.by_db@;
        let found = find_db(&self.by_db, &e.db);
        match found {
            Some(j) => {
                let d = self.by_db[j].0.clone();
                let c = self.by_db[j].1;
                let c2 = c.add(&e, new_in_db, Ghost(rows_in(rows, e.db@)));
                self.by_db.set(j, (d, c2));
            },
            None => {
                proof {
                    assert forall|i: int| 0 <= i < rows.len() implies (#[trigger] rows[i]).db@ != e.db@ by {
                        if rows[i].db@ == e.db@ {
                            let k = choose|k: int| 0 <= k < by_db0.len() && (#[trigger] by_db0[k]).0@ == rows[i].db@;
                        }
                    }
                    lemma_rows_in_empty(rows, e.db@);
                }
                let c2 = SeriesCount::zero().add(&e, new_in_db, Ghost(Seq::empty()));
                self.by_db.push((e.db.clone(), c2));
            },
        }
        self.rows.push(e);
        proof {
            let jn: int = match found {
                Some(j) => j as int,
                None => by_db0.len() as int,
            };
            assert(table_step(by_db0, self.by_db@, rows, e, jn));
            lemma_table_counts(by_db0, self.by_db@, rows, e, jn);
            lemma_table_keys(by_db0, self.by_db@, rows, e, jn);
            lemma_table_cover(by_db0, self.by_db@, rows, e, jn);
            assert(self.rows@ == ext);
        }
    }

    /// Every series name once, in listing order.
    pub fn series_names(&self) -> (r: Vec<String>)
        requires
            self.wf(),
        ensures
            in_series_order(r@),
            views_distinct(r@),
            forall|n: Seq<char>| names_of(self.rows_seq()).contains(n) <==> exists|k: int|
                0 <= k < r@.len() && (#[trigger] r@[k])@ == n,
    {
        let ghost rows = self.rows@;
        let mut names: Vec<String> = Vec::new();
        let mut i: usize = 0;
        while i < self.rows.len()
            invariant
                rows == self.rows@,
                i <= rows.len(),
                views_distinct(names@),
                forall|n: Seq<char>| names_of(rows.take(i as int)).contains(n) <==> exists|k: int|
                    0 <= k < names@.len() && (#[trigger] names@[k])@ == n,
            decreases rows.len() - i,
        {
            let name = &self.rows[i].name;
            let mut seen = false;
            let mut k: usize = 0;
            while k < names.len()
                invariant
                    k <= names@.len(),
                    seen <==> exists|m: int| 0 <= m < k && (#[trigger] names@[m])@ == name@,
                decreases names@.len() - k,
            {
                if names[k] == *name {
                    seen = true;
                }
                k += 1;
            }
            let ghost before = names@;
            if !seen {
                names.push(name.clone());
            }
            proof {
                assert(rows.take(i + 1).drop_last() =~= rows.take(i as int));
                assert(rows.take(i + 1).last() == rows[i as int]);
                assert(names_of(rows.take(i + 1)) == names_of(rows.take(i as int)).insert(rows[i as int].name@));
                if !seen {
                    assert forall|a: int, b: int| 0 <= a < b < names@.len() implies (#[trigger] names@[a])@
                        != (#[trigger] names@[b])@ by {
                        if b == before.len() {
                            assert(names@[a] == before[a]);
                        } else {
                            assert(names@[a] == before[a] && names@[b] == before[b]);
                        }
                    }
                }
                let t1 = rows.take(i + 1);
                assert forall|n: Seq<char>| #[trigger] names_of(t1).contains(n) <==> exists|k: int|
                    0 <= k < names@.len() && (#[trigger] names@[k])@ == n by {
                    if names_of(rows.take(i as int)).contains(n) {
                        let k = choose|k: int| 0 <= k < before.len() && (#[trigger] before[k])@ == n;
                        assert(names@[k] == before[k]);
                    }
                    if exists|k: int| 0 <= k < names@.len() && (#[trigger] names@[k])@ == n {
                        let k = choose|k: int| 0 <= k < names@.len() && (#[trigger] names@[k])@ == n;
                        if k < before.len() {
                            assert(names@[k] == before[k]);
                        }
                    }
                    if n == rows[i as int].name@ && !(!seen) {
                        let m = choose|m: int| 0 <= m < before.len() && (#[trigger] before[m])@ == name@;
                        assert(names@[m] == before[m]);
                    }
                    if n == rows[i as int].name@ && !seen {
                        assert(names@[before.len() as int]@ == n);
                    }
                }
            }
            i += 1;
        }
        assert(rows.take(rows.len() as int) =~= rows);
        let sorted = sort_series(names);
        proof {
            assert forall|n: Seq<char>| names_of(rows).contains(n) <==> exists|k: int|
                0 <= k < sorted@.len() && (#[trigger] sorted@[k])@ == n by {
                if names_of(rows).contains(n) {
                    let k = choose|k: int| 0 <= k < names@.len() && (#[trigger] names@[k])@ == n;
                    assert(names@.contains(names@[k]));
                    assert(sorted@.contains(names@[k]));
                    let j = choose|j: int| 0 <= j < sorted@.len() && sorted@[j] == names@[k];
                    assert(sorted@[j]@ == n);
                }
                if exists|k: int| 0 <= k < sorted@.len() && (#[trigger] sorted@[k])@ == n {
                    let k = choose|k: int| 0 <= k < sorted@.len() && (#[trigger] sorted@[k])@ == n;
                    assert(sorted@.contains(sorted@[k]));
                    assert(names@.contains(sorted@[k]));
                    let j = choose|j: int| 0 <= j < names@.len() && names@[j] == sorted@[k];
                    assert(names@[j]@ == n);
                }
            }
        }
        sorted
    }

    /// The serialized indexes a series name is kept under, in the order
    /// its vectors were added.
    pub fn indexes_of(&self, name: &String) -> (r: Vec<String>)
        ensures
            r@.map_values(|s: String| s@) == indexes_in(self.rows_seq(), name@),
    {
        let ghost rows = self.rows@;
        let mut out: Vec<String> = Vec::new();
        let mut i: usize = 0;
        while i < self.rows.len()
            invariant
                rows == self.rows@,
                i <= rows.len(),
                out@.map_values(|s: String| s@) == indexes_in(rows.take(i as int), name@),
            decreases rows.len() - i,
        {
            let ghost before = out@;
            if self.rows[i].name == *name {
                out.push(self.rows[i].index.clone());
                assert(out@.map_values(|s: String| s@) =~= before.map_values(|s: String| s@).push(
                    rows[i as int].index@,
                ));
            }
            assert(rows.take(i + 1).drop_last() =~= rows.take(i as int));
            assert(rows.take(i + 1).last() == rows[i as int]);
            i += 1;
        }
        assert(rows.take(rows.len() as int) =~= rows);
        out
    }

    /// Counts over the whole catalog.
    pub fn counts(&self) -> (r: SeriesCount)
        requires
            self.wf(),
        ensures
            counted(r, self.rows_seq()),
    {
        self.counts
    }

    /// Counts of database `db`, or `None` when no vector of it was added.
    pub fn counts_for_db(&self, db: &String) -> (r: Option<SeriesCount>)
        requires
            self.wf(),
        ensures
            match r {
                Some(c) => counted(c, rows_in(self.rows_seq(), db@)) && rows_in(self.rows_seq(), db@).len() > 0,
                None => rows_in(self.rows_seq(), db@).len() == 0,
            },
    {
        let mut j: usize = 0;
        while j < self.by_db.len()
            invariant
                self.wf(),
                j <= self.by_db@.len(),
                forall|k: int| 0 <= k < j ==> (#[trigger] self.by_db@[k]).0@ != db@,
            decreases self.by_db@.len() - j,
        {
            if self.by_db[j].0 == *db {
                proof {
                    lemma_rows_in_occupied(self.rows@, db@);
                }
                return Some(self.by_db[j].1);
            }
            j += 1;
        }
        proof {
            lemma_rows_in_occupied(self.rows@, db@);
            if rows_in(self.rows@, db@).len() > 0 {
                let i = choose|i: int| 0 <= i < self.rows@.len() && (#[trigger] self.rows@[i]).db@ == db@;
                let k = choose|k: int| 0 <= k < self.by_db@.len() && (#[trigger] self.by_db@[k]).0@ == self.rows@[i].db@;
            }
        }
        None
    }
}

/// Whether `e`'s name is new to `rows`, and new to the rows of `e`'s
/// database.
fn novelty(rows: &Vec<SeriesRow>, e: &SeriesRow) -> (r: (bool, bool))
    ensures
        r.0 <==> !names_of(rows@).contains(e.name@),
        r.1 <==> !names_of(rows_in(rows@, e.db@)).contains(e.name@),
{
    let mut new_name = true;
    let mut new_in_db = true;
    let mut i: usize = 0;
    while i < rows.len()
        invariant
            i <= rows@.len(),
            new_name <==> forall|k: int| 0 <= k < i ==> (#[trigger] rows@[k]).name@ != e.name@,
            new_in_db <==> forall|k: int|
                0 <= k < i ==> !((#[trigger] rows@[k]).db@ == e.db@ && rows@[k].name@ == e.name@),
        decreases rows@.len() - i,
    {
        if rows[i].name == e.name {
            new_name = false;
            if rows[i].db == e.db {
                new_in_db = false;
            }
        }
        i += 1;
    }
    proof {
        lemma_names_of(rows@);
        lemma_rows_in_names(rows@, e.db@, e.name@);
        if !new_name {
            let k = choose|k: int| 0 <= k < rows@.len() && (#[trigger] rows@[k]).name@ == e.name@;
        }
        if !new_in_db {
            let k = choose|k: int|
                0 <= k < rows@.len() && (#[trigger] rows@[k]).db@ == e.db@ && rows@[k].name@ == e.name@;
        }
    }
    (new_name, new_in_db)
}

/// Position of database `db` in the table.
fn find_db(by_db: &Vec<(String, SeriesCount)>, db: &String) -> (r: Option<usize>)
    ensures
        match r {
            Some(j) => j < by_db@.len() && by_db@[j as int].0@ == db@,
            None => forall|k: int| 0 <= k < by_db@.len() ==> (#[trigger] by_db@[k]).0@ != db@,
        },
{
    let mut j: usize = 0;
    while j < by_db.len()
        invariant
            j <= by_db@.len(),
            forall|k: int| 0 <= k < j ==> (#[trigger] by_db@[k]).0@ != db@,
        decreases by_db@.len() - j,
    {
        if by_db[j].0 == *db {
            return Some(j);
        }
        j += 1;
    }
    None
}

proof fn lemma_rows_in_push(rows: Seq<SeriesRow>, e: SeriesRow)
    ensures
        rows_in(rows.push(e), e.db@) == rows_in(rows, e.db@).push(e),
        forall|d: Seq<char>| d != e.db@ ==> #[trigger] rows_in(rows.push(e), d) == rows_in(rows, d),
{
    assert(rows.push(e).drop_last() =~= rows);
}

/// How the database table changes when `e` is added: the entry at `jn`
/// (an existing one for `e`'s database, or a new one at the end) now
/// counts `e`, every other entry is kept and names another database.
spec fn table_step(
    before: Seq<(String, SeriesCount)>,
    after: Seq<(String, SeriesCount)>,
    rows: Seq<SeriesRow>,
    e: SeriesRow,
    jn: int,
) -> bool {
    &&& 0 <= jn < after.len()
    &&& (after.len() == before.len() || (after.len() == before.len() + 1 && jn == before.len()))
    &&& after[jn].0@ == e.db@
    &&& counted(after[jn].1, rows_in(rows, e.db@).push(e))
    &&& forall|k: int| 0 <= k < before.len() && k != jn ==> #[trigger] after[k] == before[k]
    &&& forall|k: int| 0 <= k < before.len() && k != jn ==> (#[trigger] before[k]).0@ != e.db@
    &&& jn < before.len() ==> before[jn].0@ == e.db@
}

proof fn lemma_table_counts(
    before: Seq<(String, SeriesCount)>,
    after: Seq<(String, SeriesCount)>,
    rows: Seq<SeriesRow>,
    e: SeriesRow,
    jn: int,
)
    requires
        table_step(before, after, rows, e, jn),
        forall|j: int| 0 <= j < before.len() ==> counted((#[trigger] before[j]).1, rows_in(rows, before[j].0@)),
    ensures
        forall|j: int|
            0 <= j < after.len() ==> counted((#[trigger] after[j]).1, rows_in(rows.push(e), after[j].0@)),
{
    lemma_rows_in_push(rows, e);
    assert forall|j: int| 0 <= j < after.len() implies counted(
        (#[trigger] after[j]).1,
        rows_in(rows.push(e), after[j].0@),
    ) by {
        if j != jn {
            assert(after[j] == before[j]);
            assert(before[j].0@ != e.db@);
        }
    }
}

proof fn lemma_table_keys(
    before: Seq<(String, SeriesCount)>,
    after: Seq<(String, SeriesCount)>,
    rows: Seq<SeriesRow>,
    e: SeriesRow,
    jn: int,
)
    requires
        table_step(before, after, rows, e, jn),
        forall|j: int, k: int| 0 <= j < k < before.len() ==> (#[trigger] before[j]).0@ != (#[trigger] before[k]).0@,
    ensures
        forall|j: int, k: int| 0 <= j < k < after.len() ==> (#[trigger] after[j]).0@ != (#[trigger] after[k]).0@,
{
    assert forall|j: int, k: int| 0 <= j < k < after.len() implies (#[trigger] after[j]).0@
        != (#[trigger] after[k]).0@ by {
        if j != jn {
            assert(after[j] == before[j]);
        }
        if k != jn {
            assert(after[k] == before[k]);
        }
        if j != jn && k != jn {
            assert(before[j].0@ != before[k].0@);
        }
    }
}

proof fn lemma_table_cover(
    before: Seq<(String, SeriesCount)>,
    after: Seq<(String, SeriesCount)>,
    rows: Seq<SeriesRow>,
    e: SeriesRow,
    jn: int,
)
    requires
        table_step(before, after, rows, e, jn),
        forall|i: int|
            0 <= i < rows.len() ==> exists|j: int| 0 <= j < before.len() && (#[trigger] before[j]).0@ == (#[trigger] rows[i]).db@,
        forall|j: int|
            0 <= j < before.len() ==> exists|i: int| 0 <= i < rows.len() && (#[trigger] rows[i]).db@ == (#[trigger] before[j]).0@,
    ensures
        forall|i: int|
            0 <= i < rows.push(e).len() ==> exists|j: int|
                0 <= j < after.len() && (#[trigger] after[j]).0@ == (#[trigger] rows.push(e)[i]).db@,
        forall|j: int|
            0 <= j < after.len() ==> exists|i: int|
                0 <= i < rows.push(e).len() && (#[trigger] rows.push(e)[i]).db@ == (#[trigger] after[j]).0@,
{
    let ext = rows.push(e);
    assert forall|i: int| 0 <= i < ext.len() implies exists|j: int|
        0 <= j < after.len() && (#[trigger] after[j]).0@ == (#[trigger] ext[i]).db@ by {
        if i < rows.len() {
            assert(ext[i] == rows[i]);
            let j = choose|j: int| 0 <= j < before.len() && (#[trigger] before[j]).0@ == rows[i].db@;
            if j != jn {
                assert(after[j] == before[j]);
            }
        } else {
            assert(after[jn].0@ == ext[i].db@);
        }
    }
    assert forall|j: int| 0 <= j < after.len() implies exists|i: int|
        0 <= i < ext.len() && (#[trigger] ext[i]).db@ == (#[trigger] after[j]).0@ by {
        if j == jn {
            assert(ext[rows.len() as int] == e);
        } else {
            assert(after[j] == before[j]);
            let i = choose|i: int| 0 <= i < rows.len() && (#[trigger] rows[i]).db@ == before[j].0@;
            assert(ext[i] == rows[i]);
        }
    }
}

proof fn lemma_rows_in_empty(rows: Seq<SeriesRow>, db: Seq<char>)
    requires
        forall|i: int| 0 <= i < rows.len() ==> (#[trigger] rows[i]).db@ != db,
    ensures
        rows_in(rows, db) == Seq::<SeriesRow>::empty(),
    decreases rows.len(),
{
    if rows.len() > 0 {
        let init = rows.drop_last();
        assert forall|i: int| 0 <= i < init.len() implies (#[trigger] init[i]).db@ != db by {
            assert(init[i] == rows[i]);
        }
        lemma_rows_in_empty(init, db);
    }
}

/// Database `db` has rows exactly when some row names it.
proof fn lemma_rows_in_occupied(rows: Seq<SeriesRow>, db: Seq<char>)
    ensures
        rows_in(rows, db).len() > 0 <==> exists|i: int| 0 <= i < rows.len() && (#[trigger] rows[i]).db@ == db,
    decreases rows.len(),
{
    if rows.len() > 0 {
        let init = rows.drop_last();
        lemma_rows_in_occupied(init, db);
        if exists|i: int| 0 <= i < init.len() && (#[trigger] init[i]).db@ == db {
            let i = choose|i: int| 0 <= i < init.len() && (#[trigger] init[i]).db@ == db;
            assert(rows[i] == init[i]);
        }
        if exists|i: int| 0 <= i < rows.len() && (#[trigger] rows[i]).db@ == db {
            let i = choose|i: int| 0 <= i < rows.len() && (#[trigger] rows[i]).db@ == db;
            if i < rows.len() - 1 {
                assert(init[i] == rows[i]);
            }
        }
    }
}

} // verus!
