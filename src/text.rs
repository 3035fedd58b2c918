//! Character-level helpers on strings: equality and lexicographic order.

use vstd::prelude::*;
use vstd::string::*;

verus! {

/// `a` comes strictly before `b` in lexicographic order of code points
/// (the order `str` uses, since UTF-8 preserves code point order).
pub open spec fn seq_lt(a: Seq<char>, b: Seq<char>) -> bool
    decreases a.len(),
{
    if b.len() == 0 {
        false
    } else if a.len() == 0 {
        true
    } else if a[0] != b[0] {
        a[0] < b[0]
    } else {
        seq_lt(a.drop_first(), b.drop_first())
    }
}

/// Whether the two strings hold the same characters.
pub fn str_eq(a: &str, b: &str) -> (r: bool)
    ensures
        r == (a@ == b@),
{
    let n = a.unicode_len();
    let m = b.unicode_len();
    if n != m {
        return false;
    }
    let mut i: usize = 0;
    while i < n
        invariant
            n == a@.len(),
            m == b@.len(),
            n == m,
            i <= n,
            a@.subrange(0, i as int) == b@.subrange(0, i as int),
        decreases n - i,
    {
        if a.get_char(i) != b.get_char(i) {
            assert(a@[i as int] != b@[i as int]);
            return false;
        }
        assert(a@.subrange(0, i + 1) =~= a@.subrange(0, i as int).push(a@[i as int]));
        assert(b@.subrange(0, i + 1) =~= b@.subrange(0, i as int).push(b@[i as int]));
        i = i + 1;
    }
    assert(a@ =~= a@.subrange(0, n as int));
    assert(b@ =~= b@.subrange(0, n as int));
    true
}

/// Strictly ascending, hence free of duplicates.
pub open spec fn sorted_strict(s: Seq<Seq<char>>) -> bool {
    forall|i: int, j: int| 0 <= i < j < s.len() ==> seq_lt(#[trigger] s[i], #[trigger] s[j])
}

/// No string sorts before itself.
pub proof fn lemma_seq_lt_irreflexive(a: Seq<char>)
    ensures
        !seq_lt(a, a),
    decreases a.len(),
{
    if a.len() > 0 {
        lemma_seq_lt_irreflexive(a.drop_first());
    }
}

/// The order is transitive.
pub proof fn lemma_seq_lt_transitive(a: Seq<char>, b: Seq<char>, c: Seq<char>)
    requires
        seq_lt(a, b),
        seq_lt(b, c),
    ensures
        seq_lt(a, c),
    decreases a.len(),
{
    if a.len() > 0 && a[0] == b[0] && b[0] == c[0] {
        lemma_seq_lt_transitive(a.drop_first(), b.drop_first(), c.drop_first());
    }
}

/// Two different strings are ordered one way or the other.
pub proof fn lemma_seq_lt_total(a: Seq<char>, b: Seq<char>)
    requires
        a != b,
    ensures
        seq_lt(a, b) || seq_lt(b, a),
    decreases a.len(),
{
    if a.len() > 0 && b.len() > 0 && a[0] == b[0] {
        if a.drop_first() == b.drop_first() {
            assert(a =~= seq![a[0]] + a.drop_first());
            assert(b =~= seq![b[0]] + b.drop_first());
        }
        lemma_seq_lt_total(a.drop_first(), b.drop_first());
    } else if a.len() > 0 && b.len() > 0 {
        assert(a[0] != b[0]);
    } else if a.len() == 0 && b.len() == 0 {
        assert(a =~= b);
    }
}

proof fn lemma_seq_lt_skip(a: Seq<char>, b: Seq<char>, i: int)
    requires
        0 <= i <= a.len(),
        i <= b.len(),
        a.subrange(0, i) == b.subrange(0, i),
    ensures
        seq_lt(a, b) == seq_lt(a.skip(i), b.skip(i)),
    decreases i,
{
    if i > 0 {
        assert(a[0] == a.subrange(0, i)[0]);
        assert(b[0] == b.subrange(0, i)[0]);
        assert(a.drop_first().subrange(0, i - 1) =~= a.subrange(0, i).drop_first());
        assert(b.drop_first().subrange(0, i - 1) =~= b.subrange(0, i).drop_first());
        lemma_seq_lt_skip(a.drop_first(), b.drop_first(), i - 1);
        assert(a.drop_first().skip(i - 1) =~= a.skip(i));
        assert(b.drop_first().skip(i - 1) =~= b.skip(i));
    } else {
        assert(a.skip(0) =~= a);
        assert(b.skip(0) =~= b);
    }
}

/// Whether `a` sorts strictly before `b`.
pub fn str_lt(a: &str, b: &str) -> (r: bool)
    ensures
        r == seq_lt(a@, b@),
{
    let n = a.unicode_len();
    let m = b.unicode_len();
    let mut i: usize = 0;
    while i < n && i < m
        invariant
            n == a@.len(),
            m == b@.len(),
            i <= n,
            i <= m,
            a@.subrange(0, i as int) == b@.subrange(0, i as int),
        decreases n - i,
    {
        let ca = a.get_char(i);
        let cb = b.get_char(i);
        if ca != cb {
            proof {
                lemma_seq_lt_skip(a@, b@, i as int);
                assert(a@.skip(i as int)[0] == ca);
                assert(b@.skip(i as int)[0] == cb);
            }
            return ca < cb;
        }
        assert(a@.subrange(0, i + 1) =~= a@.subrange(0, i as int).push(a@[i as int]));
        assert(b@.subrange(0, i + 1) =~= b@.subrange(0, i as int).push(b@[i as int]));
        i = i + 1;
    }
    proof {
        lemma_seq_lt_skip(a@, b@, i as int);
    }
    i < m
}

} // verus!
