//! Locale fallback and the resolution of a key to text.

use vstd::prelude::*;
use vstd::string::StrSliceExecFns;
use vstd::string::StringExecFns;
use vstd::seq_lib::{to_multiset_build, to_multiset_insert};
use crate::backend::Backend;
use crate::text::{lemma_seq_lt_irreflexive, lemma_seq_lt_transitive, seq_lt, str_lt};

verus! {

/// Position of the last `-` in `s`, or -1.
pub open spec fn last_hyphen(s: Seq<char>) -> int
    decreases s.len(),
{
    if s.len() == 0 {
        -1
    } else if s.last() == '-' {
        s.len() - 1
    } else {
        last_hyphen(s.drop_last())
    }
}

/// `s` without any trailing private-use markers `-x`.
pub open spec fn trim_private(s: Seq<char>) -> Seq<char>
    decreases s.len(),
{
    if s.len() >= 2 && s[s.len() - 2] == '-' && s[s.len() - 1] == 'x' {
        trim_private(s.subrange(0, s.len() - 2))
    } else {
        s
    }
}

/// The next less specific tag: the last subtag cut off, then any trailing
/// private-use marker; `None` once no `-` is left.
pub open spec fn parent_locale(s: Seq<char>) -> Option<Seq<char>> {
    if last_hyphen(s) < 0 {
        None
    } else {
        Some(trim_private(s.subrange(0, last_hyphen(s))))
    }
}

proof fn lemma_last_hyphen(s: Seq<char>)
    ensures
        -1 <= last_hyphen(s) < s.len(),
        last_hyphen(s) >= 0 ==> s[last_hyphen(s)] == '-',
        forall|q: int| last_hyphen(s) < q < s.len() ==> s[q] != '-',
    decreases s.len(),
{
    if s.len() > 0 && s.last() != '-' {
        lemma_last_hyphen(s.drop_last());
        assert forall|q: int| last_hyphen(s) < q < s.len() implies s[q] != '-' by {
            if q < s.len() - 1 {
                assert(s.drop_last()[q] == s[q]);
            }
        }
    }
}

proof fn lemma_trim_private(s: Seq<char>)
    ensures
        trim_private(s).len() <= s.len(),
        trim_private(s) == s.subrange(0, trim_private(s).len() as int),
    decreases s.len(),
{
    if s.len() >= 2 && s[s.len() - 2] == '-' && s[s.len() - 1] == 'x' {
        let t = s.subrange(0, s.len() - 2);
        lemma_trim_private(t);
        assert(t.subrange(0, trim_private(t).len() as int) =~= s.subrange(0, trim_private(t).len() as int));
    } else {
        assert(s.subrange(0, s.len() as int) =~= s);
    }
}

/// A parent tag is a strictly shorter prefix of its child.
pub proof fn lemma_parent_shorter(s: Seq<char>)
    ensures
        parent_locale(s) matches Some(p) ==> p.len() < s.len() && p == s.subrange(0, p.len() as int),
{
    lemma_last_hyphen(s);
    if last_hyphen(s) >= 0 {
        let t = s.subrange(0, last_hyphen(s));
        lemma_trim_private(t);
        let p = trim_private(t);
        assert(t.subrange(0, p.len() as int) =~= s.subrange(0, p.len() as int));
    }
}

/// The whole chain of ever less specific tags below `s`, most specific first.
/// A parent is always shorter (`lemma_parent_shorter`); the length test only
/// makes the recursion visibly finite.
pub open spec fn fallback_chain(s: Seq<char>) -> Seq<Seq<char>>
    decreases s.len(),
{
    match parent_locale(s) {
        None => Seq::empty(),
        Some(p) => {
            if p.len() < s.len() {
                seq![p] + fallback_chain(p)
            } else {
                Seq::empty()
            }
        },
    }
}

/// The next less specific locale tag below `locale`, if any.
pub fn lookup_fallback(locale: &str) -> (r: Option<&str>)
    ensures
        r.deep_view() == parent_locale(locale@),
{
    let n = locale.unicode_len();
    let mut i: usize = n;
    assert(locale@.subrange(0, n as int) =~= locale@);
    while i > 0 && locale.get_char(i - 1) != '-'
        invariant
            n == locale@.len(),
            i <= n,
            last_hyphen(locale@) == last_hyphen(locale@.subrange(0, i as int)),
        decreases i,
    {
        assert(locale@.subrange(0, i as int).drop_last() =~= locale@.subrange(0, i - 1));
        i = i - 1;
    }
    if i == 0 {
        assert(locale@.subrange(0, 0).len() == 0);
        return None;
    }
    let cut = i - 1;
    assert(last_hyphen(locale@.subrange(0, i as int)) == cut);
    let mut e: usize = cut;
    while e >= 2 && locale.get_char(e - 2) == '-' && locale.get_char(e - 1) == 'x'
        invariant
            n == locale@.len(),
            e <= cut < n,
            trim_private(locale@.subrange(0, cut as int)) == trim_private(locale@.subrange(0, e as int)),
        decreases e,
    {
        assert(locale@.subrange(0, e as int).subrange(0, e - 2) =~= locale@.subrange(0, e - 2));
        e = e - 2;
    }
    assert(trim_private(locale@.subrange(0, e as int)) == locale@.subrange(0, e as int));
    Some(locale.substring_char(0, e))
}

proof fn lemma_chain_unfold(s: Seq<char>, p: Seq<char>)
    requires
        parent_locale(s) == Some(p),
    ensures
        fallback_chain(s) == seq![p] + fallback_chain(p),
{
    lemma_parent_shorter(s);
}

/// The text of the first locale in `locales` at which `backend` holds `key`.
pub open spec fn first_hit<Bk: Backend>(backend: &Bk, locales: Seq<Seq<char>>, key: Seq<char>) -> Option<Seq<char>>
    decreases locales.len(),
{
    if locales.len() == 0 {
        None
    } else {
        match backend.spec_translate(locales[0], key) {
            Some(v) => Some(v),
            None => first_hit(backend, locales.drop_first(), key),
        }
    }
}

/// Looking through two lists in turn is looking through the first, then the second.
pub proof fn lemma_first_hit_concat<Bk: Backend>(
    backend: &Bk,
    s1: Seq<Seq<char>>,
    s2: Seq<Seq<char>>,
    key: Seq<char>,
)
    ensures
        first_hit(backend, s1 + s2, key) == match first_hit(backend, s1, key) {
            Some(v) => Some(v),
            None => first_hit(backend, s2, key),
        },
    decreases s1.len(),
{
    if s1.len() > 0 {
        assert((s1 + s2)[0] == s1[0]);
        assert((s1 + s2).drop_first() =~= s1.drop_first() + s2);
        lemma_first_hit_concat(backend, s1.drop_first(), s2, key);
    } else {
        assert(s1 + s2 =~= s2);
    }
}

/// What `resolve` returns: the text at the first of the requested locale, its
/// fallback chain and the configured fallback locales that has one; else the
/// key itself when no locale was requested; else `locale.key`.
pub open spec fn resolve_spec<Bk: Backend>(
    backend: &Bk,
    locale: Seq<char>,
    key: Seq<char>,
    fallbacks: Seq<Seq<char>>,
) -> Seq<char> {
    match first_hit(backend, seq![locale] + fallback_chain(locale) + fallbacks, key) {
        Some(v) => v,
        None => if locale.len() == 0 {
            key
        } else {
            locale + seq!['.'] + key
        },
    }
}

/// Resolve `key` at `locale`: the exact locale first, then its fallback
/// chain, then each of `fallbacks` in order; on a total miss the key itself
/// for an empty locale, else the visible marker `locale.key`.
pub fn resolve<Bk: Backend>(backend: &Bk, locale: &str, key: &str, fallbacks: &[&str]) -> (r: String)
    requires
        backend.inv(),
    ensures
        r@ == resolve_spec(backend, locale@, key@, fallbacks.deep_view()),
{
    let ghost fb = fallbacks.deep_view();
    let ghost chain = fallback_chain(locale@);
    proof {
        lemma_first_hit_concat(backend, seq![locale@], chain + fb, key@);
        assert(seq![locale@] + chain + fb =~= seq![locale@] + (chain + fb));
        assert(seq![locale@].drop_first() =~= Seq::<Seq<char>>::empty());
        lemma_first_hit_concat(backend, chain, fb, key@);
    }
    if let Some(v) = backend.translate(locale, key) {
        return String::from_str(v);
    }
    proof {
        assert(first_hit(backend, Seq::<Seq<char>>::empty(), key@) is None);
        assert(first_hit(backend, seq![locale@], key@) is None);
    }
    let ghost whole = first_hit(backend, seq![locale@] + chain + fb, key@);
    assert(whole == match first_hit(backend, chain, key@) {
        Some(v) => Some(v),
        None => first_hit(backend, fb, key@),
    });
    let mut current: &str = locale;
    loop
        invariant
            backend.inv(),
            fb == fallbacks.deep_view(),
            chain == fallback_chain(locale@),
            whole == first_hit(backend, seq![locale@] + chain + fb, key@),
            whole == match first_hit(backend, chain, key@) {
                Some(v) => Some(v),
                None => first_hit(backend, fb, key@),
            },
            first_hit(backend, chain, key@) == first_hit(backend, fallback_chain(current@), key@),
        ensures
            first_hit(backend, chain, key@) is None,
        decreases current@.len(),
    {
        match lookup_fallback(current) {
            None => {
                break;
            },
            Some(p) => {
                proof {
                    lemma_chain_unfold(current@, p@);
                    lemma_parent_shorter(current@);
                    assert((seq![p@] + fallback_chain(p@))[0] == p@);
                    assert((seq![p@] + fallback_chain(p@)).drop_first() =~= fallback_chain(p@));
                }
                if let Some(v) = backend.translate(p, key) {
                    assert(backend.spec_translate(p@, key@) == Some(v@));
                    assert(first_hit(backend, seq![p@] + fallback_chain(p@), key@) == Some(v@));
                    return String::from_str(v);
                }
                current = p;
            },
        }
    }
    let mut i: usize = 0;
    assert(fb.skip(0) =~= fb);
    while i < fallbacks.len()
        invariant
            backend.inv(),
            fb == fallbacks.deep_view(),
            chain == fallback_chain(locale@),
            whole == first_hit(backend, seq![locale@] + chain + fb, key@),
            whole == first_hit(backend, fb, key@),
            i <= fb.len(),
            first_hit(backend, fb, key@) == first_hit(backend, fb.skip(i as int), key@),
        decreases fb.len() - i,
    {
        assert(fb.skip(i as int)[0] == fallbacks@[i as int]@);
        assert(fb.skip(i as int).drop_first() =~= fb.skip(i + 1));
        if let Some(v) = backend.translate(fallbacks[i], key) {
            assert(backend.spec_translate(fb.skip(i as int)[0], key@) == Some(v@));
            assert(first_hit(backend, fb.skip(i as int), key@) == Some(v@));
            return String::from_str(v);
        }
        i = i + 1;
    }
    assert(fb.skip(i as int).len() == 0);
    if locale.unicode_len() == 0 {
        return String::from_str(key);
    }
    let mut r = String::from_str(locale);
    proof {
        reveal_strlit(".");
    }
    r.append(".");
    r.append(key);
    r
}

/// Ascending order, where equal strings may sit side by side.
pub open spec fn sorted_asc(s: Seq<Seq<char>>) -> bool {
    forall|i: int, j: int| 0 <= i < j < s.len() ==> !seq_lt(#[trigger] s[j], #[trigger] s[i])
}

/// The backend's locales in ascending order: a layered backend lists them in
/// first-seen order, and this gives the canonical one.
pub fn sorted_locales<Bk: Backend>(backend: &Bk) -> (r: Vec<&str>)
    requires
        backend.inv(),
    ensures
        sorted_asc(r.deep_view()),
        r.deep_view().to_multiset() == backend.spec_available_locales().to_multiset(),
{
    let all = backend.available_locales();
    let ghost src = all.deep_view();
    let mut r: Vec<&str> = Vec::new();
    let mut i: usize = 0;
    assert(src.subrange(0, 0) =~= Seq::<Seq<char>>::empty());
    assert(r.deep_view() =~= Seq::<Seq<char>>::empty());
    while i < all.len()
        invariant
            src == all.deep_view(),
            i <= src.len(),
            sorted_asc(r.deep_view()),
            r.deep_view().to_multiset() == src.subrange(0, i as int).to_multiset(),
        decreases src.len() - i,
    {
        let x = all[i];
        let ghost rv = r.deep_view();
        let mut p: usize = 0;
        while p < r.len() && !str_lt(x, r[p])
            invariant
                rv == r.deep_view(),
                p <= rv.len(),
                forall|q: int| 0 <= q < p ==> !seq_lt(x@, #[trigger] rv[q]),
            decreases rv.len() - p,
        {
            p = p + 1;
        }
        assert(p < rv.len() ==> seq_lt(x@, rv[p as int]));
        let ghost old_r = r@;
        r.insert(p, x);
        assert(r.deep_view() =~= rv.insert(p as int, x@)) by {
            assert forall|k: int| 0 <= k < r@.len() implies #[trigger] r.deep_view()[k] == rv.insert(
                p as int,
                x@,
            )[k] by {
                if k < p {
                    assert(r@[k] == old_r[k]);
                } else if k > p {
                    assert(r@[k] == old_r[k - 1]);
                }
            }
        }
        assert(sorted_asc(r.deep_view())) by {
            let n = rv.insert(p as int, x@);
            assert forall|a: int, b: int| 0 <= a < b < n.len() implies !seq_lt(#[trigger] n[b], #[trigger] n[a]) by {
                if b < p {
                    assert(n[a] == rv[a] && n[b] == rv[b]);
                } else if b == p {
                    assert(n[a] == rv[a]);
                } else if a == p {
                    assert(n[b] == rv[b - 1]);
                    if seq_lt(rv[b - 1], x@) {
                        lemma_seq_lt_transitive(rv[b - 1], x@, rv[p as int]);
                        if b - 1 == p {
                            lemma_seq_lt_irreflexive(rv[p as int]);
                        }
                    }
                } else if a < p {
                    assert(n[a] == rv[a] && n[b] == rv[b - 1]);
                } else {
                    assert(n[a] == rv[a - 1] && n[b] == rv[b - 1]);
                }
            }
        }
        assert(src.subrange(0, i + 1) =~= src.subrange(0, i as int).push(src[i as int]));
        assert(src[i as int] == x@);
        proof {
            to_multiset_insert(rv, p as int, x@);
            to_multiset_build(src.subrange(0, i as int), x@);
        }
        i = i + 1;
    }
    assert(src.subrange(0, i as int) =~= src);
    r
}

} // verus!
