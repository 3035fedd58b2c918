//! Backends: queryable sources of translated text, and their layering.

use vstd::prelude::*;
use crate::text::{
    lemma_seq_lt_irreflexive, lemma_seq_lt_total, lemma_seq_lt_transitive, seq_lt, sorted_strict, str_eq,
    str_lt,
};

verus! {

/// The map that a list of `(key, text)` pairs describes: a later pair
/// overrides an earlier one with the same key.
pub open spec fn entries_map(s: Seq<(Seq<char>, Seq<char>)>) -> Map<Seq<char>, Seq<char>>
    decreases s.len(),
{
    if s.len() == 0 {
        Map::empty()
    } else {
        entries_map(s.drop_last()).insert(s.last().0, s.last().1)
    }
}

/// No key occurs twice in the list.
pub open spec fn keys_unique(s: Seq<(Seq<char>, Seq<char>)>) -> bool {
    forall|i: int, j: int| 0 <= i < j < s.len() ==> #[trigger] s[i].0 != #[trigger] s[j].0
}

/// Position of the last occurrence of `x` in `s`, or -1.
pub open spec fn position_of(s: Seq<Seq<char>>, x: Seq<char>) -> int
    decreases s.len(),
{
    if s.len() == 0 {
        -1
    } else if s.last() == x {
        s.len() - 1
    } else {
        position_of(s.drop_last(), x)
    }
}

/// A source of translated text.
pub trait Backend {
    /// Well-formedness of the backend's own data.
    spec fn inv(&self) -> bool;

    /// The locales that `available_locales` lists, in its order.
    spec fn spec_available_locales(&self) -> Seq<Seq<char>>;

    /// The text held for `key` at exactly `locale`, if any.
    spec fn spec_translate(&self, locale: Seq<char>, key: Seq<char>) -> Option<Seq<char>>;

    /// The `(key, text)` pairs listed for `locale`, or `None` for a locale
    /// the backend does not know.
    spec fn spec_messages_for_locale(&self, locale: Seq<char>) -> Option<Seq<(Seq<char>, Seq<char>)>>;

    /// The locales this backend knows.
    fn available_locales(&self) -> (r: Vec<&str>)
        requires
            self.inv(),
        ensures
            r.deep_view() == self.spec_available_locales(),
    ;

    /// The text for `key` at exactly `locale`; no fallback is applied.
    fn translate(&self, locale: &str, key: &str) -> (r: Option<&str>)
        requires
            self.inv(),
        ensures
            r.deep_view() == self.spec_translate(locale@, key@),
    ;

    /// All `(key, text)` pairs for `locale`.
    fn messages_for_locale(&self, locale: &str) -> (r: Option<Vec<(&str, &str)>>)
        requires
            self.inv(),
        ensures
            r.deep_view() == self.spec_messages_for_locale(locale@),
    ;
}

/// A catalog held in memory: for each locale, its table of `(key, text)` pairs.
pub struct SimpleBackend {
    locales: Vec<String>,
    tables: Vec<Vec<(String, String)>>,
}

impl SimpleBackend {
    closed spec fn locales_v(&self) -> Seq<Seq<char>> {
        self.locales.deep_view()
    }

    closed spec fn tables_v(&self) -> Seq<Seq<(Seq<char>, Seq<char>)>> {
        self.tables.deep_view()
    }

    /// Well-formed: locales strictly ascending, one table per locale, keys
    /// unique within each table.
    pub closed spec fn wf(&self) -> bool {
        &&& self.locales@.len() == self.tables@.len()
        &&& sorted_strict(self.locales_v())
        &&& forall|i: int| 0 <= i < self.tables@.len() ==> keys_unique(#[trigger] self.tables_v()[i])
    }

    /// Create an empty backend.
    pub fn new() -> (r: Self)
        ensures
            r.inv(),
            r@ == Map::<Seq<char>, Map<Seq<char>, Seq<char>>>::empty(),
    {
        let r = SimpleBackend { locales: Vec::new(), tables: Vec::new() };
        assert(r@ =~= Map::<Seq<char>, Map<Seq<char>, Seq<char>>>::empty());
        r
    }

    /// Add translations for `locale`. Keys already held for that locale keep
    /// their text unless `data` sets them; within `data` a later pair for a
    /// key overrides an earlier one.
    pub fn add_translations(&mut self, locale: String, data: Vec<(String, String)>)
        requires
            old(self).inv(),
        ensures
            final(self).inv(),
            final(self)@ == old(self)@.insert(locale@, merged_table(old(self)@, locale@, data.deep_view())),
    {
        let ghost lv = locale@;
        let i = self.locate(locale);
        let ghost ls1 = self.locales_v();
        let ghost ts1 = self.tables_v();
        proof {
            lemma_position_of_unique(ls1, i as int);
        }
        assert(ts1.len() == self.tables@.len());
        assert(self@[lv] == entries_map(ts1[i as int]));
        let mut table = self.tables.remove(i);
        assert(table.deep_view() == ts1[i as int]);
        merge_entries(&mut table, &data);
        let ghost nt = table.deep_view();
        self.tables.insert(i, table);
        assert(self.tables_v() =~= ts1.update(i as int, nt));
        proof {
            lemma_catalog_replace(ls1, ts1, i as int, nt);
            assert(self@ =~= old(self)@.insert(lv, merged_table(old(self)@, lv, data.deep_view())));
        }
    }

    /// Set the whole table of `locale` to what `data` describes, dropping
    /// whatever that locale held before.
    fn put_table(&mut self, locale: String, data: &Vec<(String, String)>)
        requires
            old(self).wf(),
        ensures
            final(self).wf(),
            final(self)@ == old(self)@.insert(locale@, entries_map(data.deep_view())),
    {
        let ghost lv = locale@;
        let i = self.locate(locale);
        let ghost ls1 = self.locales_v();
        let ghost ts1 = self.tables_v();
        assert(ts1.len() == self.tables@.len());
        let mut table: Vec<(String, String)> = Vec::new();
        assert(table.deep_view() =~= Seq::<(Seq<char>, Seq<char>)>::empty());
        assert(entries_map(table.deep_view()) =~= Map::empty());
        merge_entries(&mut table, data);
        assert(entries_map(table.deep_view()) =~= entries_map(data.deep_view()));
        let ghost nt = table.deep_view();
        let ghost old_tables = self.tables@;
        self.tables.set(i, table);
        assert forall|k: int| 0 <= k < self.tables@.len() implies #[trigger] self.tables_v()[k] == ts1.update(
            i as int,
            nt,
        )[k] by {
            if k != i {
                assert(self.tables@[k] == old_tables[k]);
            }
        }
        assert(self.tables_v() =~= ts1.update(i as int, nt));
        proof {
            lemma_catalog_replace(ls1, ts1, i as int, nt);
            assert(self@ =~= old(self)@.insert(lv, entries_map(data.deep_view())));
        }
    }

    /// A backend built from whole tables, one per listed locale. Where a
    /// locale is listed twice, its later table replaces the earlier one as a
    /// whole; within a table a later pair for a key overrides an earlier one.
    pub fn from_tables(tables: Vec<(String, Vec<(String, String)>)>) -> (r: Self)
        ensures
            r.inv(),
            r@ == catalog_from(tables.deep_view()),
    {
        let ghost tv = tables.deep_view();
        let mut r = SimpleBackend::new();
        let mut j: usize = 0;
        assert(tv.subrange(0, 0) =~= Seq::<(Seq<char>, Seq<(Seq<char>, Seq<char>)>)>::empty());
        while j < tables.len()
            invariant
                tv == tables.deep_view(),
                j <= tv.len(),
                r.wf(),
                r@ == catalog_from(tv.subrange(0, j as int)),
            decreases tv.len() - j,
        {
            let locale = tables[j].0.clone();
            assert(tv[j as int] == (locale@, tables@[j as int].1.deep_view()));
            r.put_table(locale, &tables[j].1);
            assert(tv.subrange(0, j + 1).drop_last() =~= tv.subrange(0, j as int));
            j = j + 1;
        }
        assert(tv.subrange(0, j as int) =~= tv);
        r
    }

    /// Find `locale`, adding it with an empty table where it is missing.
    fn locate(&mut self, locale: String) -> (i: usize)
        requires
            old(self).wf(),
        ensures
            final(self).wf(),
            i < final(self).locales@.len(),
            final(self).locales_v()[i as int] == locale@,
            final(self)@ == if old(self)@.contains_key(locale@) {
                old(self)@
            } else {
                old(self)@.insert(locale@, Map::empty())
            },
    {
        let ghost lv = locale@;
        let ghost ls = self.locales_v();
        let ghost ts = self.tables_v();
        let mut i: usize = 0;
        while i < self.locales.len() && str_lt(self.locales[i].as_str(), locale.as_str())
            invariant
                self.wf(),
                ls == self.locales_v(),
                ts == self.tables_v(),
                lv == locale@,
                i <= self.locales@.len(),
                forall|q: int| 0 <= q < i ==> seq_lt(#[trigger] ls[q], lv),
            decreases self.locales@.len() - i,
        {
            i = i + 1;
        }
        let present = i < self.locales.len() && str_eq(self.locales[i].as_str(), locale.as_str());
        if !present {
            proof {
                let nl = ls.insert(i as int, lv);
                assert forall|a: int, b: int| 0 <= a < b < nl.len() implies seq_lt(
                    #[trigger] nl[a],
                    #[trigger] nl[b],
                ) by {
                    if b < i {
                        assert(nl[a] == ls[a] && nl[b] == ls[b]);
                    } else if b == i {
                        assert(nl[a] == ls[a]);
                    } else if a == i {
                        assert(nl[b] == ls[b - 1]);
                        lemma_seq_lt_total(ls[i as int], lv);
                        if b - 1 > i {
                            lemma_seq_lt_transitive(lv, ls[i as int], ls[b - 1]);
                        }
                    } else if a < i {
                        assert(nl[a] == ls[a] && nl[b] == ls[b - 1]);
                    } else {
                        assert(nl[a] == ls[a - 1] && nl[b] == ls[b - 1]);
                    }
                }
                assert forall|q: int| 0 <= q < ls.len() implies ls[q] != lv by {
                    lemma_seq_lt_irreflexive(lv);
                    if q > i {
                        lemma_seq_lt_total(ls[i as int], lv);
                        assert(seq_lt(ls[i as int], ls[q]));
                        if seq_lt(lv, ls[i as int]) {
                            lemma_seq_lt_transitive(lv, ls[i as int], ls[q]);
                        }
                    }
                }
            }
            self.locales.insert(i, locale);
            assert(self.locales_v() =~= ls.insert(i as int, lv));
            let empty: Vec<(String, String)> = Vec::new();
            assert(empty.deep_view() =~= Seq::<(Seq<char>, Seq<char>)>::empty());
            let ghost old_tables = self.tables@;
            self.tables.insert(i, empty);
            assert forall|k: int| 0 <= k < self.tables@.len() implies #[trigger] self.tables_v()[k] == ts.insert(
                i as int,
                Seq::empty(),
            )[k] by {
                if k < i {
                    assert(self.tables@[k] == old_tables[k]);
                } else if k > i {
                    assert(self.tables@[k] == old_tables[k - 1]);
                }
            }
            assert(self.tables_v() =~= ts.insert(i as int, Seq::empty()));
            proof {
                lemma_catalog_insert(ls, ts, i as int, lv, Seq::empty());
                assert(entries_map(Seq::<(Seq<char>, Seq<char>)>::empty()) =~= Map::empty());
                assert(!old(self)@.contains_key(lv));
            }
        } else {
            proof {
                assert(ls[i as int] == lv);
                assert(ls.contains(lv));
                assert(old(self)@.contains_key(lv));
            }
        }
        proof {
            if present {
                lemma_position_of_unique(ls, i as int);
            }
        }
        i
    }

    fn find_locale(&self, locale: &str) -> (r: Option<usize>)
        requires
            self.wf(),
        ensures
            match r {
                Some(i) => i < self.locales@.len() && self.locales_v()[i as int] == locale@
                    && position_of(self.locales_v(), locale@) == i,
                None => !self.locales_v().contains(locale@),
            },
    {
        let mut i: usize = 0;
        while i < self.locales.len()
            invariant
                self.wf(),
                i <= self.locales@.len(),
                forall|j: int| 0 <= j < i ==> self.locales_v()[j] != locale@,
            decreases self.locales@.len() - i,
        {
            if str_eq(self.locales[i].as_str(), locale) {
                proof { lemma_position_of_unique(self.locales_v(), i as int); }
                return Some(i);
            }
            i = i + 1;
        }
        None
    }
}

proof fn lemma_position_of_unique(s: Seq<Seq<char>>, i: int)
    requires
        sorted_strict(s),
        0 <= i < s.len(),
    ensures
        position_of(s, s[i]) == i,
    decreases s.len(),
{
    if i < s.len() - 1 {
        assert(seq_lt(s[i], s.last()));
        lemma_seq_lt_irreflexive(s[i]);
        assert(s.drop_last()[i] == s[i]);
        lemma_position_of_unique(s.drop_last(), i);
    }
}

/// In a list with unique keys, each pair is what the map holds for its key.
pub proof fn lemma_entries_map_unique(s: Seq<(Seq<char>, Seq<char>)>, j: int)
    requires
        keys_unique(s),
        0 <= j < s.len(),
    ensures
        entries_map(s).contains_key(s[j].0),
        entries_map(s)[s[j].0] == s[j].1,
    decreases s.len(),
{
    if j < s.len() - 1 {
        assert(s.drop_last()[j] == s[j]);
        lemma_entries_map_unique(s.drop_last(), j);
    }
}

/// The map holds exactly the keys that occur in the list.
pub proof fn lemma_entries_map_keys(s: Seq<(Seq<char>, Seq<char>)>, k: Seq<char>)
    ensures
        entries_map(s).contains_key(k) <==> exists|j: int| 0 <= j < s.len() && #[trigger] s[j].0 == k,
    decreases s.len(),
{
    if s.len() > 0 {
        lemma_entries_map_keys(s.drop_last(), k);
        if exists|j: int| 0 <= j < s.drop_last().len() && #[trigger] s.drop_last()[j].0 == k {
            let j = choose|j: int| 0 <= j < s.drop_last().len() && #[trigger] s.drop_last()[j].0 == k;
            assert(s[j].0 == k);
        }
        if exists|j: int| 0 <= j < s.len() && #[trigger] s[j].0 == k {
            let j = choose|j: int| 0 <= j < s.len() && #[trigger] s[j].0 == k;
            if j < s.len() - 1 {
                assert(s.drop_last()[j].0 == k);
            }
        }
    }
}

proof fn lemma_entries_map_update(s: Seq<(Seq<char>, Seq<char>)>, m: int, k: Seq<char>, v: Seq<char>)
    requires
        keys_unique(s),
        0 <= m < s.len(),
        s[m].0 == k,
    ensures
        keys_unique(s.update(m, (k, v))),
        entries_map(s.update(m, (k, v))) == entries_map(s).insert(k, v),
{
    let t = s.update(m, (k, v));
    assert(keys_unique(t)) by {
        assert forall|i: int, j: int| 0 <= i < j < t.len() implies #[trigger] t[i].0 != #[trigger] t[j].0 by {
            assert(s[i].0 != s[j].0);
        }
    }
    assert forall|x: Seq<char>| entries_map(t).contains_key(x) <==> entries_map(s).insert(k, v).contains_key(x) by {
        lemma_entries_map_keys(t, x);
        lemma_entries_map_keys(s, x);
        if x != k {
            if exists|j: int| 0 <= j < t.len() && #[trigger] t[j].0 == x {
                let j = choose|j: int| 0 <= j < t.len() && #[trigger] t[j].0 == x;
                assert(s[j].0 == x);
            }
            if exists|j: int| 0 <= j < s.len() && #[trigger] s[j].0 == x {
                let j = choose|j: int| 0 <= j < s.len() && #[trigger] s[j].0 == x;
                assert(t[j].0 == x);
            }
        } else {
            assert(t[m].0 == x);
        }
    }
    assert forall|x: Seq<char>| #[trigger] entries_map(t).contains_key(x) implies entries_map(t)[x] == entries_map(s).insert(k, v)[x] by {
        lemma_entries_map_keys(t, x);
        let j = choose|j: int| 0 <= j < t.len() && #[trigger] t[j].0 == x;
        lemma_entries_map_unique(t, j);
        if j != m {
            lemma_entries_map_unique(s, j);
        }
    }
    assert(entries_map(t) =~= entries_map(s).insert(k, v));
}

fn find_key(t: &Vec<(String, String)>, key: &str) -> (r: Option<usize>)
    ensures
        match r {
            Some(m) => m < t@.len() && t.deep_view()[m as int].0 == key@,
            None => forall|q: int| 0 <= q < t@.len() ==> #[trigger] t.deep_view()[q].0 != key@,
        },
{
    let mut m: usize = 0;
    while m < t.len()
        invariant
            m <= t@.len(),
            forall|q: int| 0 <= q < m ==> #[trigger] t.deep_view()[q].0 != key@,
        decreases t@.len() - m,
    {
        if str_eq(t[m].0.as_str(), key) {
            return Some(m);
        }
        m = m + 1;
    }
    None
}

/// Merge `data` into `table`: each pair of `data` in turn sets its key.
fn merge_entries(table: &mut Vec<(String, String)>, data: &Vec<(String, String)>)
    requires
        keys_unique(old(table).deep_view()),
    ensures
        keys_unique(final(table).deep_view()),
        entries_map(final(table).deep_view()) == entries_map(old(table).deep_view()).union_prefer_right(
            entries_map(data.deep_view()),
        ),
{
    let ghost dv = data.deep_view();
    let ghost base = entries_map(old(table).deep_view());
    let mut j: usize = 0;
    assert(dv.subrange(0, 0) =~= Seq::<(Seq<char>, Seq<char>)>::empty());
    assert(base.union_prefer_right(Map::empty()) =~= base);
    while j < data.len()
        invariant
            dv == data.deep_view(),
            j <= data@.len(),
            keys_unique(table.deep_view()),
            entries_map(table.deep_view()) == base.union_prefer_right(entries_map(dv.subrange(0, j as int))),
        decreases data@.len() - j,
    {
        let k = data[j].0.clone();
        let v = data[j].1.clone();
        assert(dv[j as int] == (k@, v@));
        let ghost tv = table.deep_view();
        let found = find_key(table, k.as_str());
        proof {
            assert(dv.subrange(0, j + 1).drop_last() =~= dv.subrange(0, j as int));
            assert(base.union_prefer_right(entries_map(dv.subrange(0, j as int)).insert(k@, v@))
                =~= base.union_prefer_right(entries_map(dv.subrange(0, j as int))).insert(k@, v@));
        }
        if let Some(m) = found {
            proof { lemma_entries_map_update(tv, m as int, k@, v@); }
            table.set(m, (k, v));
            assert(table.deep_view() =~= tv.update(m as int, (k@, v@)));
        } else {
            table.push((k, v));
            assert(table.deep_view() =~= tv.push((k@, v@)));
            assert(table.deep_view().drop_last() =~= tv);
            assert(keys_unique(table.deep_view())) by {
                let nt = table.deep_view();
                assert forall|a: int, b: int| 0 <= a < b < nt.len() implies #[trigger] nt[a].0 != #[trigger] nt[b].0 by {
                    if b < nt.len() - 1 {
                        assert(tv[a].0 != tv[b].0);
                    } else {
                        assert(tv[a].0 != k@);
                    }
                }
            }
        }
        j = j + 1;
    }
    assert(dv.subrange(0, j as int) =~= dv);
}

impl Backend for SimpleBackend {
    closed spec fn inv(&self) -> bool {
        self.wf()
    }

    closed spec fn spec_available_locales(&self) -> Seq<Seq<char>> {
        self.locales_v()
    }

    open spec fn spec_translate(&self, locale: Seq<char>, key: Seq<char>) -> Option<Seq<char>> {
        if self@.contains_key(locale) && self@[locale].contains_key(key) {
            Some(self@[locale][key])
        } else {
            None
        }
    }

    closed spec fn spec_messages_for_locale(&self, locale: Seq<char>) -> Option<Seq<(Seq<char>, Seq<char>)>> {
        if self.locales_v().contains(locale) {
            Some(self.tables_v()[position_of(self.locales_v(), locale)])
        } else {
            None
        }
    }

    fn available_locales(&self) -> (r: Vec<&str>) {
        let mut r: Vec<&str> = Vec::new();
        let mut i: usize = 0;
        while i < self.locales.len()
            invariant
                i <= self.locales@.len(),
                r@.len() == i,
                r.deep_view() == self.locales_v().subrange(0, i as int),
            decreases self.locales@.len() - i,
        {
            let ghost before = r.deep_view();
            let l = self.locales[i].as_str();
            assert(l@ == self.locales_v()[i as int]);
            r.push(l);
            assert(r.deep_view()[i as int] == l@);
            assert(r.deep_view() =~= before.push(l@));
            assert(r.deep_view() =~= self.locales_v().subrange(0, i + 1));
            i = i + 1;
        }
        assert(self.locales_v().subrange(0, i as int) =~= self.locales_v());
        r
    }

    fn translate(&self, locale: &str, key: &str) -> (r: Option<&str>) {
        match self.find_locale(locale) {
            None => None,
            Some(i) => {
                let t = &self.tables[i];
                assert(self.tables_v().len() == self.tables@.len());
                let ghost tv = self.tables_v()[i as int];
                assert(tv == t.deep_view());
                assert(keys_unique(tv));
                assert(self.locales_v().contains(locale@));
                assert(self@.contains_key(locale@));
                assert(self@[locale@] == entries_map(tv));
                match find_key(t, key) {
                    Some(j) => {
                        proof { lemma_entries_map_unique(tv, j as int); }
                        let v = t[j].1.as_str();
                        assert(tv[j as int] == (key@, v@));
                        Some(v)
                    }
                    None => {
                        proof { lemma_entries_map_keys(tv, key@); }
                        None
                    }
                }
            }
        }
    }

    fn messages_for_locale(&self, locale: &str) -> (r: Option<Vec<(&str, &str)>>) {
        match self.find_locale(locale) {
            None => None,
            Some(i) => {
                let t = &self.tables[i];
                assert(self.tables_v().len() == self.tables@.len());
                let ghost tv = self.tables_v()[i as int];
                assert(tv == t.deep_view());
                let mut r: Vec<(&str, &str)> = Vec::new();
                let mut j: usize = 0;
                while j < t.len()
                    invariant
                        tv == t.deep_view(),
                        j <= t@.len(),
                        r@.len() == j,
                        r.deep_view() == tv.subrange(0, j as int),
                    decreases t@.len() - j,
                {
                    let k = t[j].0.as_str();
                    let v = t[j].1.as_str();
                    assert(tv[j as int] == (k@, v@));
                    let ghost before = r.deep_view();
                    r.push((k, v));
                    assert(r.deep_view()[j as int] == (k@, v@));
                    assert(r.deep_view() =~= before.push((k@, v@)));
                    assert(r.deep_view() =~= tv.subrange(0, j + 1));
                    j = j + 1;
                }
                assert(tv.subrange(0, j as int) =~= tv);
                Some(r)
            }
        }
    }
}

/// The catalog that a sorted list of locales and their tables describe.
pub open spec fn catalog_of(
    locales: Seq<Seq<char>>,
    tables: Seq<Seq<(Seq<char>, Seq<char>)>>,
) -> Map<Seq<char>, Map<Seq<char>, Seq<char>>> {
    Map::new(
        |l: Seq<char>| locales.contains(l),
        |l: Seq<char>| entries_map(tables[position_of(locales, l)]),
    )
}

/// The catalog that a list of `(locale, table)` pairs describes: a later
/// pair for a locale replaces the earlier table as a whole.
pub open spec fn catalog_from(
    s: Seq<(Seq<char>, Seq<(Seq<char>, Seq<char>)>)>,
) -> Map<Seq<char>, Map<Seq<char>, Seq<char>>>
    decreases s.len(),
{
    if s.len() == 0 {
        Map::empty()
    } else {
        catalog_from(s.drop_last()).insert(s.last().0, entries_map(s.last().1))
    }
}

/// The table that `locale` holds once `data` has been added to `catalog`.
pub open spec fn merged_table(
    catalog: Map<Seq<char>, Map<Seq<char>, Seq<char>>>,
    locale: Seq<char>,
    data: Seq<(Seq<char>, Seq<char>)>,
) -> Map<Seq<char>, Seq<char>> {
    let base = if catalog.contains_key(locale) {
        catalog[locale]
    } else {
        Map::empty()
    };
    base.union_prefer_right(entries_map(data))
}

proof fn lemma_catalog_replace(
    ls: Seq<Seq<char>>,
    ts: Seq<Seq<(Seq<char>, Seq<char>)>>,
    i: int,
    nt: Seq<(Seq<char>, Seq<char>)>,
)
    requires
        sorted_strict(ls),
        ls.len() == ts.len(),
        0 <= i < ls.len(),
    ensures
        catalog_of(ls, ts.update(i, nt)) == catalog_of(ls, ts).insert(ls[i], entries_map(nt)),
{
    let a = catalog_of(ls, ts.update(i, nt));
    let b = catalog_of(ls, ts).insert(ls[i], entries_map(nt));
    assert forall|l: Seq<char>| #[trigger] a.contains_key(l) implies a[l] == b[l] by {
        let j = choose|j: int| 0 <= j < ls.len() && ls[j] == l;
        lemma_position_of_unique(ls, j);
        if j != i {
            lemma_seq_lt_irreflexive(ls[j]);
            if j < i {
                assert(seq_lt(ls[j], ls[i]));
            } else {
                assert(seq_lt(ls[i], ls[j]));
            }
        }
    }
    assert(a =~= b);
}

proof fn lemma_catalog_insert(
    ls: Seq<Seq<char>>,
    ts: Seq<Seq<(Seq<char>, Seq<char>)>>,
    i: int,
    l0: Seq<char>,
    nt: Seq<(Seq<char>, Seq<char>)>,
)
    requires
        sorted_strict(ls),
        sorted_strict(ls.insert(i, l0)),
        ls.len() == ts.len(),
        0 <= i <= ls.len(),
    ensures
        catalog_of(ls.insert(i, l0), ts.insert(i, nt)) == catalog_of(ls, ts).insert(l0, entries_map(nt)),
{
    let nl = ls.insert(i, l0);
    let a = catalog_of(nl, ts.insert(i, nt));
    let b = catalog_of(ls, ts).insert(l0, entries_map(nt));
    assert(nl[i] == l0);
    assert forall|l: Seq<char>| a.contains_key(l) <==> b.contains_key(l) by {
        if a.contains_key(l) && l != l0 {
            let j = choose|j: int| 0 <= j < nl.len() && nl[j] == l;
            if j < i {
                assert(ls[j] == l);
            } else {
                assert(ls[j - 1] == l);
            }
        }
        if b.contains_key(l) && l != l0 {
            let j = choose|j: int| 0 <= j < ls.len() && ls[j] == l;
            if j < i {
                assert(nl[j] == l);
            } else {
                assert(nl[j + 1] == l);
            }
        }
        if l == l0 {
            assert(nl[i] == l);
        }
    }
    assert forall|l: Seq<char>| #[trigger] a.contains_key(l) implies a[l] == b[l] by {
        let j = choose|j: int| 0 <= j < nl.len() && nl[j] == l;
        lemma_position_of_unique(nl, j);
        if j != i {
            lemma_seq_lt_irreflexive(nl[j]);
            if j < i {
                assert(seq_lt(nl[j], nl[i]));
                assert(ls[j] == l);
                lemma_position_of_unique(ls, j);
            } else {
                assert(seq_lt(nl[i], nl[j]));
                assert(ls[j - 1] == l);
                lemma_position_of_unique(ls, j - 1);
            }
        }
    }
    assert(a =~= b);
}

impl View for SimpleBackend {
    type V = Map<Seq<char>, Map<Seq<char>, Seq<char>>>;

    /// Locale to (key to text).
    closed spec fn view(&self) -> Self::V {
        catalog_of(self.locales_v(), self.tables_v())
    }
}


/// `a`, then each locale of `b` that is not yet listed, in `b`'s order.
pub open spec fn first_seen_union(a: Seq<Seq<char>>, b: Seq<Seq<char>>) -> Seq<Seq<char>>
    decreases b.len(),
{
    if b.len() == 0 {
        a
    } else {
        let r = first_seen_union(a, b.drop_last());
        if r.contains(b.last()) {
            r
        } else {
            r.push(b.last())
        }
    }
}

/// Two backends layered: the second overrides the first, key by key.
pub struct CombinedBackend<A, B>(A, B);

impl<A: Backend, B: Backend> CombinedBackend<A, B> {
    /// The backend underneath.
    pub closed spec fn base(&self) -> A {
        self.0
    }

    /// The backend on top, whose entries win.
    pub closed spec fn overlay(&self) -> B {
        self.1
    }
}

fn contains_str(v: &Vec<&str>, s: &str) -> (r: bool)
    ensures
        r == v.deep_view().contains(s@),
{
    let mut i: usize = 0;
    while i < v.len()
        invariant
            i <= v@.len(),
            forall|q: int| 0 <= q < i ==> #[trigger] v.deep_view()[q] != s@,
        decreases v@.len() - i,
    {
        if str_eq(v[i], s) {
            assert(v.deep_view()[i as int] == s@);
            return true;
        }
        i = i + 1;
    }
    false
}

impl<A: Backend, B: Backend> Backend for CombinedBackend<A, B> {
    closed spec fn inv(&self) -> bool {
        self.0.inv() && self.1.inv()
    }

    closed spec fn spec_available_locales(&self) -> Seq<Seq<char>> {
        first_seen_union(self.0.spec_available_locales(), self.1.spec_available_locales())
    }

    closed spec fn spec_translate(&self, locale: Seq<char>, key: Seq<char>) -> Option<Seq<char>> {
        match self.1.spec_translate(locale, key) {
            Some(v) => Some(v),
            None => self.0.spec_translate(locale, key),
        }
    }

    closed spec fn spec_messages_for_locale(&self, locale: Seq<char>) -> Option<Seq<(Seq<char>, Seq<char>)>> {
        match (self.1.spec_messages_for_locale(locale), self.0.spec_messages_for_locale(locale)) {
            (None, None) => None,
            (None, a) => a,
            (b, None) => b,
            (Some(b), Some(a)) => Some(
                b + a.filter(|p: (Seq<char>, Seq<char>)| self.1.spec_translate(locale, p.0) is None),
            ),
        }
    }

    fn available_locales(&self) -> (r: Vec<&str>) {
        let mut r = self.0.available_locales();
        let more = self.1.available_locales();
        let ghost a = r.deep_view();
        let ghost b = more.deep_view();
        let mut i: usize = 0;
        assert(b.subrange(0, 0) =~= Seq::<Seq<char>>::empty());
        while i < more.len()
            invariant
                b == more.deep_view(),
                i <= more@.len(),
                r.deep_view() == first_seen_union(a, b.subrange(0, i as int)),
            decreases more@.len() - i,
        {
            let l = more[i];
            assert(b.subrange(0, i + 1).drop_last() =~= b.subrange(0, i as int));
            assert(b.subrange(0, i + 1).last() == l@);
            if !contains_str(&r, l) {
                let ghost before = r.deep_view();
                r.push(l);
                assert(r.deep_view() =~= before.push(l@));
            }
            i = i + 1;
        }
        assert(b.subrange(0, i as int) =~= b);
        r
    }

    fn translate(&self, locale: &str, key: &str) -> (r: Option<&str>) {
        match self.1.translate(locale, key) {
            Some(v) => Some(v),
            None => self.0.translate(locale, key),
        }
    }

    fn messages_for_locale(&self, locale: &str) -> (r: Option<Vec<(&str, &str)>>) {
        match (self.1.messages_for_locale(locale), self.0.messages_for_locale(locale)) {
            (None, None) => None,
            (None, a) => a,
            (b, None) => b,
            (Some(b), Some(a)) => {
                let ghost pred = |p: (Seq<char>, Seq<char>)| self.1.spec_translate(locale@, p.0) is None;
                let ghost av = a.deep_view();
                let ghost bv = b.deep_view();
                let mut r = b;
                let mut j: usize = 0;
                assert(av.subrange(0, 0).filter(pred) =~= Seq::<(Seq<char>, Seq<char>)>::empty()) by {
                    reveal(Seq::filter);
                }
                assert(bv + av.subrange(0, 0).filter(pred) =~= bv);
                while j < a.len()
                    invariant
                        self.inv(),
                        av == a.deep_view(),
                        pred == (|p: (Seq<char>, Seq<char>)| self.1.spec_translate(locale@, p.0) is None),
                        j <= a@.len(),
                        r.deep_view() == bv + av.subrange(0, j as int).filter(pred),
                    decreases a@.len() - j,
                {
                    let (k, v) = a[j];
                    assert(av[j as int] == (k@, v@));
                    assert(av.subrange(0, j + 1).drop_last() =~= av.subrange(0, j as int));
                    assert(av.subrange(0, j + 1).last() == (k@, v@));
                    let ghost before = r.deep_view();
                    if self.1.translate(locale, k).is_none() {
                        r.push((k, v));
                        assert(av.subrange(0, j + 1).filter(pred) == av.subrange(0, j as int).filter(pred).push((k@, v@))) by {
                            reveal(Seq::filter);
                        }
                        assert(r.deep_view() =~= before.push((k@, v@)));
                        assert(r.deep_view() =~= bv + av.subrange(0, j + 1).filter(pred));
                    } else {
                        assert(av.subrange(0, j + 1).filter(pred) == av.subrange(0, j as int).filter(pred)) by {
                            reveal(Seq::filter);
                        }
                    }
                    j = j + 1;
                }
                assert(av.subrange(0, j as int) =~= av);
                Some(r)
            }
        }
    }
}

impl Default for SimpleBackend {
    fn default() -> (r: Self)
        ensures
            r.inv(),
            r@ == Map::<Seq<char>, Map<Seq<char>, Seq<char>>>::empty(),
    {
        Self::new()
    }
}

proof fn lemma_entries_map_last(s: Seq<(Seq<char>, Seq<char>)>, i: int)
    requires
        0 <= i < s.len(),
        forall|j: int| i < j < s.len() ==> #[trigger] s[j].0 != s[i].0,
    ensures
        entries_map(s).contains_key(s[i].0),
        entries_map(s)[s[i].0] == s[i].1,
    decreases s.len(),
{
    if i < s.len() - 1 {
        assert(s.drop_last()[i] == s[i]);
        assert(s.last().0 != s[i].0);
        lemma_entries_map_last(s.drop_last(), i);
    }
}

/// After translations are added for a locale, that locale holds for each key
/// the text of the last pair that names the key.
pub proof fn law_translate_latest(
    before: SimpleBackend,
    after: SimpleBackend,
    locale: Seq<char>,
    data: Seq<(Seq<char>, Seq<char>)>,
    i: int,
)
    requires
        after@ == before@.insert(locale, merged_table(before@, locale, data)),
        0 <= i < data.len(),
        forall|j: int| i < j < data.len() ==> #[trigger] data[j].0 != data[i].0,
    ensures
        after.spec_translate(locale, data[i].0) == Some(data[i].1),
{
    lemma_entries_map_last(data, i);
}

/// The catalog reached from `start` by adding, in turn, each `(locale, data)`
/// of `adds` as `add_translations` does.
pub open spec fn catalog_after(
    start: Map<Seq<char>, Map<Seq<char>, Seq<char>>>,
    adds: Seq<(Seq<char>, Seq<(Seq<char>, Seq<char>)>)>,
) -> Map<Seq<char>, Map<Seq<char>, Seq<char>>>
    decreases adds.len(),
{
    if adds.len() == 0 {
        start
    } else {
        let prev = catalog_after(start, adds.drop_last());
        prev.insert(adds.last().0, merged_table(prev, adds.last().0, adds.last().1))
    }
}

proof fn lemma_catalog_after_latest(
    start: Map<Seq<char>, Map<Seq<char>, Seq<char>>>,
    adds: Seq<(Seq<char>, Seq<(Seq<char>, Seq<char>)>)>,
    locale: Seq<char>,
    key: Seq<char>,
    j: int,
)
    requires
        0 <= j < adds.len(),
        adds[j].0 == locale,
        entries_map(adds[j].1).contains_key(key),
        forall|i: int|
            j < i < adds.len() ==> (#[trigger] adds[i]).0 != locale || !entries_map(adds[i].1).contains_key(key),
    ensures
        catalog_after(start, adds).contains_key(locale),
        catalog_after(start, adds)[locale].contains_key(key),
        catalog_after(start, adds)[locale][key] == entries_map(adds[j].1)[key],
    decreases adds.len(),
{
    if j < adds.len() - 1 {
        let front = adds.drop_last();
        assert(front[j] == adds[j]);
        assert forall|i: int| j < i < front.len() implies (#[trigger] front[i]).0 != locale || !entries_map(
            front[i].1,
        ).contains_key(key) by {
            assert(front[i] == adds[i]);
        }
        lemma_catalog_after_latest(start, front, locale, key, j);
        assert(adds.last() == adds[adds.len() - 1]);
    }
}

/// A backend built by `new` and then a series of `add_translations` calls
/// holds for `(locale, key)` the text of the latest call that set that key
/// at that locale.
pub proof fn law_translate_most_recent(
    b: SimpleBackend,
    adds: Seq<(Seq<char>, Seq<(Seq<char>, Seq<char>)>)>,
    locale: Seq<char>,
    key: Seq<char>,
    j: int,
)
    requires
        b@ == catalog_after(Map::empty(), adds),
        0 <= j < adds.len(),
        adds[j].0 == locale,
        entries_map(adds[j].1).contains_key(key),
        forall|i: int|
            j < i < adds.len() ==> (#[trigger] adds[i]).0 != locale || !entries_map(adds[i].1).contains_key(key),
    ensures
        b.spec_translate(locale, key) == Some(entries_map(adds[j].1)[key]),
{
    lemma_catalog_after_latest(Map::empty(), adds, locale, key, j);
}

/// Adding translations that do not name `key` for `locale` leaves what
/// `locale` holds for `key` as it was.
pub proof fn law_translate_kept(
    before: SimpleBackend,
    after: SimpleBackend,
    added: Seq<char>,
    data: Seq<(Seq<char>, Seq<char>)>,
    locale: Seq<char>,
    key: Seq<char>,
)
    requires
        after@ == before@.insert(added, merged_table(before@, added, data)),
        added != locale || forall|j: int| 0 <= j < data.len() ==> #[trigger] data[j].0 != key,
    ensures
        after.spec_translate(locale, key) == before.spec_translate(locale, key),
{
    lemma_entries_map_keys(data, key);
}

/// The locales of a simple backend are listed in strictly ascending order,
/// hence without duplicates, and are exactly the locales it holds; a locale's
/// listing of messages is present exactly for those locales, has unique keys,
/// and describes that locale's table.
pub proof fn law_simple_listing(b: &SimpleBackend)
    requires
        b.inv(),
    ensures
        sorted_strict(b.spec_available_locales()),
        forall|l: Seq<char>| b.spec_available_locales().contains(l) <==> #[trigger] b@.contains_key(l),
        forall|l: Seq<char>| (#[trigger] b.spec_messages_for_locale(l) is Some) <==> b@.contains_key(l),
        forall|l: Seq<char>|
            #[trigger] b.spec_messages_for_locale(l) matches Some(m) ==> keys_unique(m) && entries_map(m) == b@[l],
{
    assert forall|l: Seq<char>| #[trigger] b.spec_messages_for_locale(l) is Some implies keys_unique(
        b.spec_messages_for_locale(l)->0,
    ) && entries_map(b.spec_messages_for_locale(l)->0) == b@[l] by {
        let j = choose|j: int| 0 <= j < b.locales_v().len() && b.locales_v()[j] == l;
        lemma_position_of_unique(b.locales_v(), j);
        assert(b.tables_v().len() == b.tables@.len());
    }
}

/// Calling `translate` twice with the same arguments on the same backend
/// gives the same answer.
pub proof fn law_translate_repeatable<Bk: Backend>(
    b: &Bk,
    locale: Seq<char>,
    key: Seq<char>,
    first: Option<&str>,
    second: Option<&str>,
)
    requires
        first.deep_view() == b.spec_translate(locale, key),
        second.deep_view() == b.spec_translate(locale, key),
    ensures
        first.deep_view() == second.deep_view(),
{
}

/// The first-seen union keeps `a` as its prefix, holds exactly the locales of
/// `a` and `b`, and adds no duplicate to a list that had none.
pub proof fn lemma_first_seen_union(a: Seq<Seq<char>>, b: Seq<Seq<char>>)
    ensures
        first_seen_union(a, b).len() >= a.len(),
        first_seen_union(a, b).subrange(0, a.len() as int) == a,
        forall|x: Seq<char>| #[trigger] first_seen_union(a, b).contains(x) <==> a.contains(x) || b.contains(x),
        a.no_duplicates() ==> first_seen_union(a, b).no_duplicates(),
    decreases b.len(),
{
    if b.len() == 0 {
        assert(a.subrange(0, a.len() as int) =~= a);
    } else {
        let r = first_seen_union(a, b.drop_last());
        lemma_first_seen_union(a, b.drop_last());
        if !r.contains(b.last()) {
            assert(r.push(b.last()).subrange(0, a.len() as int) =~= r.subrange(0, a.len() as int));
            assert forall|x: Seq<char>| #[trigger] r.push(b.last()).contains(x) <==> r.contains(x) || x == b.last() by {
                if r.push(b.last()).contains(x) && x != b.last() {
                    let q = choose|q: int| 0 <= q < r.push(b.last()).len() && r.push(b.last())[q] == x;
                    assert(r[q] == x);
                }
                if r.contains(x) {
                    let q = choose|q: int| 0 <= q < r.len() && r[q] == x;
                    assert(r.push(b.last())[q] == x);
                }
                if x == b.last() {
                    assert(r.push(b.last())[r.len() as int] == x);
                }
            }
        }
        assert forall|x: Seq<char>| b.contains(x) <==> b.drop_last().contains(x) || x == b.last() by {
            if b.contains(x) && x != b.last() {
                let q = choose|q: int| 0 <= q < b.len() && b[q] == x;
                assert(b.drop_last()[q] == x);
            }
            if b.drop_last().contains(x) {
                let q = choose|q: int| 0 <= q < b.drop_last().len() && b.drop_last()[q] == x;
                assert(b[q] == x);
            }
            if x == b.last() {
                assert(b[b.len() - 1] == x);
            }
        }
    }
}

/// A layered backend is well formed exactly when both of its parts are.
pub proof fn law_combined_inv<A: Backend, B: Backend>(c: &CombinedBackend<A, B>)
    ensures
        c.inv() == (c.base().inv() && c.overlay().inv()),
{
}

/// A layered backend answers from the overlay wherever the overlay has an
/// entry, and from the base otherwise; both are asked at the same locale.
pub proof fn law_override_precedence<A: Backend, B: Backend>(
    c: &CombinedBackend<A, B>,
    locale: Seq<char>,
    key: Seq<char>,
)
    ensures
        c.overlay().spec_translate(locale, key) is Some ==> c.spec_translate(locale, key) == c.overlay().spec_translate(locale, key),
        c.overlay().spec_translate(locale, key) is None ==> c.spec_translate(locale, key) == c.base().spec_translate(locale, key),
{
}

/// A layered backend lists the base's locales in the base's order, then
/// those of the overlay not yet listed, in the overlay's order; it lists
/// exactly the locales of the two, and no duplicate where the base has none.
pub proof fn law_combined_locales<A: Backend, B: Backend>(c: &CombinedBackend<A, B>)
    ensures
        c.spec_available_locales() == first_seen_union(
            c.base().spec_available_locales(),
            c.overlay().spec_available_locales(),
        ),
        c.spec_available_locales().subrange(0, c.base().spec_available_locales().len() as int)
            == c.base().spec_available_locales(),
        forall|l: Seq<char>| #[trigger] c.spec_available_locales().contains(l) <==> c.base().spec_available_locales().contains(l)
            || c.overlay().spec_available_locales().contains(l),
        c.base().spec_available_locales().no_duplicates() ==> c.spec_available_locales().no_duplicates(),
{
    lemma_first_seen_union(c.base().spec_available_locales(), c.overlay().spec_available_locales());
}

/// A layered backend lists, for a locale both sides know, the overlay's
/// messages followed by those of the base whose key the overlay does not
/// translate; for a locale only one side knows, that side's listing.
pub proof fn law_combined_messages<A: Backend, B: Backend>(c: &CombinedBackend<A, B>, locale: Seq<char>)
    ensures
        c.spec_messages_for_locale(locale) == match (
            c.overlay().spec_messages_for_locale(locale),
            c.base().spec_messages_for_locale(locale),
        ) {
            (None, None) => None,
            (None, a) => a,
            (b, None) => b,
            (Some(b), Some(a)) => Some(
                b + a.filter(|p: (Seq<char>, Seq<char>)| c.overlay().spec_translate(locale, p.0) is None),
            ),
        },
{
}

/// Layering of one backend over another.
pub trait BackendExt: Backend + Sized {
    /// Layer `other` over `self`: `other`'s entries win where both have one.
    fn extend<T: Backend>(self, other: T) -> (r: CombinedBackend<Self, T>)
        ensures
            r.base() == self,
            r.overlay() == other,
            r.inv() == (self.inv() && other.inv()),
    ;
}

impl BackendExt for SimpleBackend {
    fn extend<T: Backend>(self, other: T) -> (r: CombinedBackend<Self, T>) {
        CombinedBackend(self, other)
    }
}

impl<A: Backend, B: Backend> BackendExt for CombinedBackend<A, B> {
    fn extend<T: Backend>(self, other: T) -> (r: CombinedBackend<Self, T>) {
        CombinedBackend(self, other)
    }
}

} // verus!
