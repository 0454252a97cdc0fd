//! The tables that have been loaded, as the editor lists them.

use vstd::prelude::*;

verus! {

/// A column of a table or of a query result: its name and its type, as text.
pub struct ColumnMeta {
    pub name: String,
    pub ty: String,
}

/// A loaded table: its name, the format it was read from, its columns and
/// how many rows it holds.
pub struct TableMeta {
    pub name: String,
    pub kind: String,
    pub columns: Vec<ColumnMeta>,
    pub num_rows: usize,
}

/// Keeps the tables whose name differs from `name`.
pub open spec fn named_other_than(name: Seq<char>) -> spec_fn(TableMeta) -> bool {
    |t: TableMeta| t.name@ != name
}

/// Keeps the tables named `name`.
pub open spec fn named(name: Seq<char>) -> spec_fn(TableMeta) -> bool {
    |t: TableMeta| t.name@ == name
}

/// No two tables share a name.
pub open spec fn names_unique(tables: Seq<TableMeta>) -> bool {
    forall|i: int, j: int|
        0 <= i < tables.len() && 0 <= j < tables.len() && i != j ==> tables[i].name@
            != tables[j].name@
}

/// What registering `meta` makes of the list `tables`: every table of the
/// same name leaves, the others keep their order, and `meta` comes last.
pub open spec fn after_register(tables: Seq<TableMeta>, meta: TableMeta) -> Seq<TableMeta> {
    tables.filter(named_other_than(meta.name@)).push(meta)
}

/// Filtering a sequence extended by one element.
proof fn lemma_filter_push<A>(s: Seq<A>, pred: spec_fn(A) -> bool, e: A)
    ensures
        pred(e) ==> s.push(e).filter(pred) == s.filter(pred).push(e),
        !pred(e) ==> s.push(e).filter(pred) == s.filter(pred),
{
    reveal(Seq::filter);
    assert(s.push(e).drop_last() =~= s);
}

/// Filtering twice, where the second test only passes what the first passed,
/// is filtering once by the second.
proof fn lemma_filter_twice<A>(s: Seq<A>, p: spec_fn(A) -> bool, q: spec_fn(A) -> bool)
    requires
        forall|x: A| #[trigger] q(x) ==> p(x),
    ensures
        s.filter(p).filter(q) == s.filter(q),
    decreases s.len(),
{
    reveal(Seq::filter);
    if s.len() > 0 {
        let rest = s.drop_last();
        lemma_filter_twice(rest, p, q);
        assert(rest.push(s.last()) =~= s);
        lemma_filter_push(rest, p, s.last());
        lemma_filter_push(rest, q, s.last());
        lemma_filter_push(rest.filter(p), q, s.last());
    }
}

/// Filtering by two tests that nothing passes both leaves nothing.
proof fn lemma_filter_disjoint<A>(s: Seq<A>, p: spec_fn(A) -> bool, q: spec_fn(A) -> bool)
    requires
        forall|x: A| #[trigger] p(x) ==> !q(x),
    ensures
        s.filter(p).filter(q) == Seq::<A>::empty(),
    decreases s.len(),
{
    reveal(Seq::filter);
    if s.len() > 0 {
        let rest = s.drop_last();
        lemma_filter_disjoint(rest, p, q);
        assert(rest.push(s.last()) =~= s);
        lemma_filter_push(rest, p, s.last());
        lemma_filter_push(rest.filter(p), q, s.last());
    }
}

/// What a filter keeps comes from the sequence filtered.
proof fn lemma_filter_from<A>(s: Seq<A>, p: spec_fn(A) -> bool)
    ensures
        forall|x: A| s.filter(p).contains(x) ==> s.contains(x),
    decreases s.len(),
{
    reveal(Seq::filter);
    if s.len() > 0 {
        let rest = s.drop_last();
        lemma_filter_from(rest, p);
        assert(rest.push(s.last()) =~= s);
        lemma_filter_push(rest, p, s.last());
        assert forall|x: A| s.filter(p).contains(x) implies s.contains(x) by {
            if rest.filter(p).contains(x) {
                assert(rest.contains(x));
                let j = choose|j: int| 0 <= j < rest.len() && rest[j] == x;
                assert(s[j] == x);
            } else {
                assert(x == s.last());
                assert(s[s.len() - 1] == x);
            }
        }
    }
}

/// A filter of tables with distinct names has distinct names.
proof fn lemma_filter_names_unique(s: Seq<TableMeta>, p: spec_fn(TableMeta) -> bool)
    requires
        names_unique(s),
    ensures
        names_unique(s.filter(p)),
    decreases s.len(),
{
    reveal(Seq::filter);
    if s.len() > 0 {
        let rest = s.drop_last();
        let x = s.last();
        assert(names_unique(rest)) by {
            assert forall|i: int, j: int|
                0 <= i < rest.len() && 0 <= j < rest.len() && i != j implies rest[i].name@
                != rest[j].name@ by {
                assert(rest[i] == s[i] && rest[j] == s[j]);
            }
        }
        lemma_filter_names_unique(rest, p);
        lemma_filter_from(rest, p);
        assert(rest.push(x) =~= s);
        lemma_filter_push(rest, p, x);
        let f = rest.filter(p);
        assert forall|i: int| 0 <= i < f.len() implies f[i].name@ != x.name@ by {
            assert(f.contains(f[i]));
            assert(rest.contains(f[i]));
            let j = choose|j: int| 0 <= j < rest.len() && rest[j] == f[i];
            assert(s[j] == f[i]);
            assert(s[s.len() - 1] == x);
        }
        assert(names_unique(s.filter(p))) by {
            if p(x) {
                let g = f.push(x);
                assert forall|i: int, j: int|
                    0 <= i < g.len() && 0 <= j < g.len() && i != j implies g[i].name@
                    != g[j].name@ by {
                    if i < f.len() && j < f.len() {
                        assert(g[i] == f[i] && g[j] == f[j]);
                    } else if i < f.len() {
                        assert(g[i] == f[i] && g[j] == x);
                    } else {
                        assert(g[j] == f[j] && g[i] == x);
                    }
                }
            }
        }
    }
}

/// Loading a table leaves exactly one table of its name, the new one, and
/// puts it last.
pub proof fn law_register_replaces(tables: Seq<TableMeta>, meta: TableMeta)
    ensures
        after_register(tables, meta).filter(named(meta.name@)) == seq![meta],
        after_register(tables, meta).last() == meta,
{
    let f = tables.filter(named_other_than(meta.name@));
    lemma_filter_disjoint(tables, named_other_than(meta.name@), named(meta.name@));
    lemma_filter_push(f, named(meta.name@), meta);
    assert(Seq::<TableMeta>::empty().push(meta) =~= seq![meta]);
}

/// Loading a table leaves the tables of every other name as they were.
pub proof fn law_register_keeps_others(tables: Seq<TableMeta>, meta: TableMeta, name: Seq<char>)
    requires
        name != meta.name@,
    ensures
        after_register(tables, meta).filter(named(name)) == tables.filter(named(name)),
{
    let f = tables.filter(named_other_than(meta.name@));
    lemma_filter_push(f, named(name), meta);
    lemma_filter_twice(tables, named_other_than(meta.name@), named(name));
}

/// Loading a table keeps the names of the catalog distinct.
pub proof fn law_register_keeps_names_unique(tables: Seq<TableMeta>, meta: TableMeta)
    requires
        names_unique(tables),
    ensures
        names_unique(after_register(tables, meta)),
{
    let pred = named_other_than(meta.name@);
    let f = tables.filter(pred);
    lemma_filter_names_unique(tables, pred);
    let g = f.push(meta);
    assert forall|i: int, j: int|
        0 <= i < g.len() && 0 <= j < g.len() && i != j implies g[i].name@ != g[j].name@ by {
        if i < f.len() && j < f.len() {
            assert(g[i] == f[i] && g[j] == f[j]);
        } else if i < f.len() {
            tables.lemma_filter_pred(pred, i);
            assert(g[i] == f[i] && g[j] == meta);
        } else {
            tables.lemma_filter_pred(pred, j);
            assert(g[j] == f[j] && g[i] == meta);
        }
    }
}

/// Loading a table twice under one name is loading the second one alone:
/// the first leaves no trace.
pub proof fn law_reload_replaces(tables: Seq<TableMeta>, first: TableMeta, second: TableMeta)
    requires
        first.name@ == second.name@,
    ensures
        after_register(after_register(tables, first), second) == after_register(tables, second),
{
    let pred = named_other_than(second.name@);
    let f = tables.filter(pred);
    lemma_filter_push(f, pred, first);
    lemma_filter_twice(tables, pred, pred);
}

/// A filter that keeps everything changes nothing.
proof fn lemma_filter_all<A>(s: Seq<A>, p: spec_fn(A) -> bool)
    requires
        forall|i: int| 0 <= i < s.len() ==> #[trigger] p(s[i]),
    ensures
        s.filter(p) == s,
    decreases s.len(),
{
    reveal(Seq::filter);
    if s.len() > 0 {
        let rest = s.drop_last();
        assert forall|i: int| 0 <= i < rest.len() implies #[trigger] p(rest[i]) by {
            assert(rest[i] == s[i]);
        }
        lemma_filter_all(rest, p);
        assert(p(s[s.len() - 1]));
        assert(rest.push(s.last()) =~= s);
    }
}

/// A filter that drops exactly the element at `i` removes it.
proof fn lemma_filter_one<A>(s: Seq<A>, p: spec_fn(A) -> bool, i: int)
    requires
        0 <= i < s.len(),
        !p(s[i]),
        forall|j: int| 0 <= j < s.len() && j != i ==> #[trigger] p(s[j]),
    ensures
        s.filter(p) == s.remove(i),
    decreases s.len(),
{
    reveal(Seq::filter);
    let rest = s.drop_last();
    if i == s.len() - 1 {
        assert forall|j: int| 0 <= j < rest.len() implies #[trigger] p(rest[j]) by {
            assert(rest[j] == s[j]);
        }
        lemma_filter_all(rest, p);
        assert(s.remove(i) =~= rest);
    } else {
        assert(rest[i] == s[i]);
        assert forall|j: int| 0 <= j < rest.len() && j != i implies #[trigger] p(rest[j]) by {
            assert(rest[j] == s[j]);
        }
        lemma_filter_one(rest, p, i);
        assert(p(s[s.len() - 1]));
        assert(rest.remove(i).push(s.last()) =~= s.remove(i));
    }
}

/// Loading a table under a new name appends it and leaves the others as they were.
pub proof fn law_register_new_name_appends(tables: Seq<TableMeta>, meta: TableMeta)
    requires
        forall|i: int| 0 <= i < tables.len() ==> tables[i].name@ != meta.name@,
    ensures
        after_register(tables, meta) == tables.push(meta),
{
    lemma_filter_all(tables, named_other_than(meta.name@));
}

/// Loading a table under a name in use removes the table of that name from
/// its place, keeps the others in order, and appends the new one.
pub proof fn law_register_existing_name(tables: Seq<TableMeta>, meta: TableMeta, i: int)
    requires
        names_unique(tables),
        0 <= i < tables.len(),
        tables[i].name@ == meta.name@,
    ensures
        after_register(tables, meta) == tables.remove(i).push(meta),
{
    assert forall|j: int| 0 <= j < tables.len() && j != i implies #[trigger] named_other_than(
        meta.name@,
    )(tables[j]) by {}
    lemma_filter_one(tables, named_other_than(meta.name@), i);
}

/// The loaded tables, in the order they were last loaded.
pub struct Catalog {
    tables: Vec<TableMeta>,
}

impl View for Catalog {
    type V = Seq<TableMeta>;

    closed spec fn view(&self) -> Seq<TableMeta> {
        self.tables@
    }
}

impl Catalog {
    /// An empty catalog.
    pub fn new() -> (c: Catalog)
        ensures
            c@ == Seq::<TableMeta>::empty(),
    {
        Catalog { tables: Vec::new() }
    }

    /// The loaded tables.
    pub fn tables(&self) -> (r: &Vec<TableMeta>)
        ensures
            r@ == self@,
    {
        &self.tables
    }

    /// Adds a table. A table loaded under a name already in use replaces
    /// the one of that name; the others keep their order.
    pub fn register(&mut self, meta: TableMeta)
        ensures
            final(self)@ == after_register(old(self)@, meta),
    {
        let mut previous: Vec<TableMeta> = Vec::new();
        std::mem::swap(&mut previous, &mut self.tables);
        let ghost pred = named_other_than(meta.name@);
        let ghost prev = previous@;
        let mut kept: Vec<TableMeta> = Vec::new();
        for t in it: previous.into_iter()
            invariant
                it.seq() == prev,
                pred == named_other_than(meta.name@),
                kept@ == prev.take(it.index() as int).filter(pred),
        {
            let ghost i = it.index();
            assert(t == prev[i as int]);
            assert(prev.take(i + 1) =~= prev.take(i as int).push(t));
            proof {
                lemma_filter_push(prev.take(i as int), pred, t);
            }
            if !(t.name == meta.name) {
                kept.push(t);
            }
        }
        assert(prev.take(prev.len() as int) =~= prev);
        kept.push(meta);
        self.tables = kept;
    }
}

} // verus!
