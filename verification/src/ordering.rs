use vstd::prelude::*;

verus! {

/// How many leading elements of `s` come at or before `x` under `le`.
pub open spec fn lead_count<A>(s: Seq<A>, x: A, le: spec_fn(A, A) -> bool) -> nat
    decreases s.len(),
{
    if s.len() == 0 {
        0
    } else if le(s[0], x) {
        1 + lead_count(s.drop_first(), x, le)
    } else {
        0
    }
}

/// Inserts `x` after the leading run of elements that come at or before it.
pub open spec fn insert_sorted<A>(s: Seq<A>, x: A, le: spec_fn(A, A) -> bool) -> Seq<A> {
    let p = lead_count(s, x, le) as int;
    s.take(p).push(x) + s.skip(p)
}

/// Stable insertion sort: each element, in order, goes after every element already
/// placed that comes at or before it.
pub open spec fn sort_by<A>(s: Seq<A>, le: spec_fn(A, A) -> bool) -> Seq<A>
    decreases s.len(),
{
    if s.len() == 0 {
        s
    } else {
        insert_sorted(sort_by(s.drop_last(), le), s.last(), le)
    }
}

/// `p` is the length of the leading run of elements that come at or before `x`.
pub proof fn lemma_lead_count<A>(s: Seq<A>, x: A, le: spec_fn(A, A) -> bool, p: int)
    requires
        0 <= p <= s.len(),
        forall|j: int| 0 <= j < p ==> le(#[trigger] s[j], x),
        p < s.len() ==> !le(s[p], x),
    ensures
        lead_count(s, x, le) == p,
    decreases s.len(),
{
    if s.len() > 0 && p > 0 {
        assert(le(s[0], x));
        assert forall|j: int| 0 <= j < p - 1 implies le(#[trigger] s.drop_first()[j], x) by {
            assert(s.drop_first()[j] == s[j + 1]);
        }
        lemma_lead_count(s.drop_first(), x, le, p - 1);
    }
}

/// The leading run really leads: its elements come at or before `x`, the next does not.
pub proof fn lemma_lead_count_facts<A>(s: Seq<A>, x: A, le: spec_fn(A, A) -> bool)
    ensures
        lead_count(s, x, le) <= s.len(),
        forall|j: int| 0 <= j < lead_count(s, x, le) ==> le(#[trigger] s[j], x),
        lead_count(s, x, le) < s.len() ==> !le(s[lead_count(s, x, le) as int], x),
    decreases s.len(),
{
    if s.len() > 0 && le(s[0], x) {
        lemma_lead_count_facts(s.drop_first(), x, le);
        assert forall|j: int| 0 <= j < lead_count(s, x, le) implies le(#[trigger] s[j], x) by {
            if j > 0 {
                assert(s[j] == s.drop_first()[j - 1]);
            }
        }
    }
}

/// Inserting keeps the length one more and every element drawn from the inputs.
pub proof fn lemma_insert_sorted_elements<A>(s: Seq<A>, x: A, le: spec_fn(A, A) -> bool)
    ensures
        insert_sorted(s, x, le).len() == s.len() + 1,
        forall|i: int|
            0 <= i < s.len() + 1 ==> (#[trigger] insert_sorted(s, x, le)[i] == x || exists|j: int|
                0 <= j < s.len() && insert_sorted(s, x, le)[i] == s[j]),
{
    lemma_lead_count_facts(s, x, le);
    let p = lead_count(s, x, le) as int;
    let r = insert_sorted(s, x, le);
    assert forall|i: int| 0 <= i < s.len() + 1 implies (#[trigger] r[i] == x || exists|j: int|
        0 <= j < s.len() && r[i] == s[j]) by {
        if i < p {
            assert(r[i] == s[i]);
        } else if i > p {
            assert(r[i] == s[i - 1]);
        }
    }
}

/// Sorting keeps the length and draws every element from the input.
pub proof fn lemma_sort_by_elements<A>(s: Seq<A>, le: spec_fn(A, A) -> bool)
    ensures
        sort_by(s, le).len() == s.len(),
        forall|i: int|
            0 <= i < s.len() ==> exists|j: int| 0 <= j < s.len() && #[trigger] sort_by(s, le)[i] == s[j],
    decreases s.len(),
{
    if s.len() > 0 {
        let t = sort_by(s.drop_last(), le);
        lemma_sort_by_elements(s.drop_last(), le);
        lemma_insert_sorted_elements(t, s.last(), le);
        assert forall|i: int| 0 <= i < s.len() implies exists|j: int|
            0 <= j < s.len() && #[trigger] sort_by(s, le)[i] == s[j] by {
            let r = sort_by(s, le);
            if r[i] == s.last() {
                assert(r[i] == s[s.len() - 1]);
            } else {
                let j0 = choose|j0: int| 0 <= j0 < t.len() && r[i] == t[j0];
                let j1 = choose|j1: int| 0 <= j1 < s.len() - 1 && t[j0] == s.drop_last()[j1];
                assert(r[i] == s[j1]);
            }
        }
    }
}

/// Lexicographic order on byte strings, a proper prefix coming first.
pub open spec fn lex_lt(a: Seq<u8>, b: Seq<u8>) -> bool
    decreases a.len(),
{
    if a.len() == 0 {
        b.len() > 0
    } else if b.len() == 0 {
        false
    } else if a[0] < b[0] {
        true
    } else if a[0] > b[0] {
        false
    } else {
        lex_lt(a.drop_first(), b.drop_first())
    }
}

/// Lexicographic order is transitive.
pub proof fn lemma_lex_lt_transitive(a: Seq<u8>, b: Seq<u8>, c: Seq<u8>)
    requires
        lex_lt(a, b),
        lex_lt(b, c),
    ensures
        lex_lt(a, c),
    decreases a.len(),
{
    if a.len() > 0 && b.len() > 0 && c.len() > 0 && a[0] == b[0] && b[0] == c[0] {
        lemma_lex_lt_transitive(a.drop_first(), b.drop_first(), c.drop_first());
    }
}

/// Lexicographic order is irreflexive.
pub proof fn lemma_lex_lt_irreflexive(a: Seq<u8>)
    ensures
        !lex_lt(a, a),
    decreases a.len(),
{
    if a.len() > 0 {
        lemma_lex_lt_irreflexive(a.drop_first());
    }
}

/// Whether `a` comes strictly before `b` in lexicographic byte order.
pub fn bytes_lt(a: &[u8], b: &[u8]) -> (r: bool)
    ensures
        r == lex_lt(a@, b@),
{
    let mut i: usize = 0;
    assert(a@.skip(0) =~= a@);
    assert(b@.skip(0) =~= b@);
    while i < a.len() && i < b.len()
        invariant
            i <= a.len(),
            i <= b.len(),
            lex_lt(a@, b@) == lex_lt(a@.skip(i as int), b@.skip(i as int)),
        decreases a.len() - i,
    {
        assert(a@.skip(i as int)[0] == a@[i as int]);
        assert(b@.skip(i as int)[0] == b@[i as int]);
        if a[i] < b[i] {
            return true;
        }
        if a[i] > b[i] {
            return false;
        }
        assert(a@.skip(i as int).drop_first() =~= a@.skip(i + 1));
        assert(b@.skip(i as int).drop_first() =~= b@.skip(i + 1));
        i = i + 1;
    }
    i == a.len() && i < b.len()
}

} // verus!
