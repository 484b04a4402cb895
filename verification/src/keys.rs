//! Association lists keyed by strings: the engine's maps are vectors of
//! (key, value) pairs with distinct keys, looked up by string view, so that
//! their contents stay fully visible to the verifier.
use vstd::prelude::*;

verus! {

/// The key views of an association list, in order.
pub open spec fn key_views<V>(s: Seq<(String, V)>) -> Seq<Seq<char>> {
    s.map_values(|p: (String, V)| p.0@)
}

/// No two entries share a key.
pub open spec fn distinct_keys<V>(s: Seq<(String, V)>) -> bool {
    forall|i: int, j: int| 0 <= i < j < s.len() ==> s[i].0@ != s[j].0@
}

/// Some entry carries the key `k`.
pub open spec fn has_key<V>(s: Seq<(String, V)>, k: Seq<char>) -> bool {
    exists|i: int| 0 <= i < s.len() && s[i].0@ == k
}

/// The value of the first entry carrying `k`, if any.
pub open spec fn assoc<V>(s: Seq<(String, V)>, k: Seq<char>) -> Option<V>
    decreases s.len(),
{
    if s.len() == 0 {
        None
    } else if s[0].0@ == k {
        Some(s[0].1)
    } else {
        assoc(s.drop_first(), k)
    }
}

pub proof fn lemma_assoc_at<V>(s: Seq<(String, V)>, k: Seq<char>, j: int)
    requires
        0 <= j < s.len(),
        s[j].0@ == k,
        forall|t: int| 0 <= t < j ==> s[t].0@ != k,
    ensures
        assoc(s, k) == Some(s[j].1),
    decreases j,
{
    if j > 0 {
        assert forall|t: int| 0 <= t < j - 1 implies s.drop_first()[t].0@ != k by {
            assert(s.drop_first()[t] == s[t + 1]);
        }
        lemma_assoc_at(s.drop_first(), k, j - 1);
    }
}

pub proof fn lemma_assoc_absent<V>(s: Seq<(String, V)>, k: Seq<char>)
    requires
        forall|t: int| 0 <= t < s.len() ==> s[t].0@ != k,
    ensures
        assoc(s, k) is None,
    decreases s.len(),
{
    if s.len() > 0 {
        assert forall|t: int| 0 <= t < s.len() - 1 implies s.drop_first()[t].0@ != k by {
            assert(s.drop_first()[t] == s[t + 1]);
        }
        lemma_assoc_absent(s.drop_first(), k);
    }
}

/// Replacing the first entry that carries a key changes only that key's value.
pub proof fn lemma_assoc_update<V>(s: Seq<(String, V)>, j: int, e: (String, V), k: Seq<char>)
    requires
        0 <= j < s.len(),
        e.0@ == s[j].0@,
        forall|t: int| 0 <= t < j ==> s[t].0@ != s[j].0@,
    ensures
        assoc(s.update(j, e), k) == if k == s[j].0@ {
            Some(e.1)
        } else {
            assoc(s, k)
        },
    decreases j,
{
    let su = s.update(j, e);
    if j == 0 {
        assert(su.drop_first() =~= s.drop_first());
    } else {
        assert(su[0] == s[0]);
        assert(su.drop_first() =~= s.drop_first().update(j - 1, e));
        assert forall|t: int| 0 <= t < j - 1 implies #[trigger] s.drop_first()[t].0@
            != s.drop_first()[j - 1].0@ by {
            assert(s.drop_first()[t] == s[t + 1]);
            assert(s.drop_first()[j - 1] == s[j]);
        }
        lemma_assoc_update(s.drop_first(), j - 1, e, k);
    }
}

/// Appending an entry with a fresh key changes only that key's value.
pub proof fn lemma_assoc_push<V>(s: Seq<(String, V)>, e: (String, V), k: Seq<char>)
    requires
        !has_key(s, e.0@),
    ensures
        assoc(s.push(e), k) == if k == e.0@ {
            Some(e.1)
        } else {
            assoc(s, k)
        },
    decreases s.len(),
{
    if s.len() == 0 {
        assert(s.push(e)[0] == e);
        assert(s.push(e).drop_first() =~= Seq::<(String, V)>::empty());
        if k == e.0@ {
            assert(assoc(s.push(e), k) == Some(e.1));
        } else {
            assert(assoc(s.push(e), k) == assoc(s.push(e).drop_first(), k));
            assert(assoc(Seq::<(String, V)>::empty(), k) is None);
            assert(assoc(s, k) is None);
        }
    } else {
        assert(s.push(e)[0] == s[0]);
        assert(s[0].0@ != e.0@);
        assert(s.push(e).drop_first() =~= s.drop_first().push(e));
        assert(!has_key(s.drop_first(), e.0@)) by {
            assert forall|t: int| 0 <= t < s.drop_first().len() implies s.drop_first()[t].0@
                != e.0@ by {
                assert(s.drop_first()[t] == s[t + 1]);
            }
        }
        lemma_assoc_push(s.drop_first(), e, k);
    }
}

pub proof fn lemma_push_contains<A>(s: Seq<A>, x: A, y: A)
    ensures
        s.push(x).contains(y) <==> s.contains(y) || x == y,
{
    if s.push(x).contains(y) {
        let i = choose|i: int| 0 <= i < s.push(x).len() && s.push(x)[i] == y;
        if i < s.len() {
            assert(s[i] == y);
        }
    }
    if s.contains(y) {
        let i = choose|i: int| 0 <= i < s.len() && s[i] == y;
        assert(s.push(x)[i] == y);
    }
    assert(s.push(x)[s.len() as int] == x);
}

pub proof fn lemma_has_key_views<V>(s: Seq<(String, V)>, k: Seq<char>)
    ensures
        has_key(s, k) <==> key_views(s).contains(k),
{
    if has_key(s, k) {
        let i = choose|i: int| 0 <= i < s.len() && s[i].0@ == k;
        assert(key_views(s)[i] == k);
    }
    if key_views(s).contains(k) {
        let i = choose|i: int| 0 <= i < key_views(s).len() && key_views(s)[i] == k;
        assert(s[i].0@ == k);
    }
}

pub proof fn lemma_assoc_is_has_key<V>(s: Seq<(String, V)>, k: Seq<char>)
    ensures
        assoc(s, k) is Some <==> has_key(s, k),
    decreases s.len(),
{
    if s.len() > 0 && s[0].0@ != k {
        lemma_assoc_is_has_key(s.drop_first(), k);
        if has_key(s.drop_first(), k) {
            let q = choose|q: int| 0 <= q < s.drop_first().len() && s.drop_first()[q].0@ == k;
            assert(s[q + 1].0@ == k);
        }
        if has_key(s, k) {
            let q = choose|q: int| 0 <= q < s.len() && s[q].0@ == k;
            assert(s.drop_first()[q - 1].0@ == k);
        }
    }
}

/// Index of the first entry carrying the key `k`, if any.
pub fn find_key<V>(s: &Vec<(String, V)>, k: &String) -> (r: Option<usize>)
    ensures
        r matches Some(j) ==> j < s@.len() && s@[j as int].0@ == k@ && (forall|t: int|
            0 <= t < j ==> s@[t].0@ != k@),
        r is None ==> forall|t: int| 0 <= t < s@.len() ==> s@[t].0@ != k@,
{
    let mut j: usize = 0;
    while j < s.len()
        invariant
            j <= s@.len(),
            forall|t: int| 0 <= t < j ==> s@[t].0@ != k@,
        decreases s@.len() - j,
    {
        if s[j].0 == *k {
            return Some(j);
        }
        j += 1;
    }
    None
}

/// Strict lexicographic order on strings, by character code.
pub open spec fn lex_lt(a: Seq<char>, b: Seq<char>) -> bool
    decreases a.len(),
{
    if b.len() == 0 {
        false
    } else if a.len() == 0 {
        true
    } else if a[0] != b[0] {
        (a[0] as u32) < (b[0] as u32)
    } else {
        lex_lt(a.drop_first(), b.drop_first())
    }
}

pub proof fn lemma_lex_total(a: Seq<char>, b: Seq<char>)
    ensures
        lex_lt(a, b) || lex_lt(b, a) || a == b,
    decreases a.len(),
{
    if a.len() == 0 && b.len() == 0 {
        assert(a =~= b);
    } else if a.len() == 0 {
        assert(lex_lt(a, b));
    } else if b.len() == 0 {
        assert(lex_lt(b, a));
    } else {
        if a[0] != b[0] {
            if (a[0] as u32) == (b[0] as u32) {
                lemma_char_code_inj(a[0], b[0]);
            }
        } else {
            lemma_lex_total(a.drop_first(), b.drop_first());
            if a.drop_first() == b.drop_first() {
                assert(a.drop_first().len() == b.drop_first().len());
                assert(a.len() == b.len());
                assert(a =~= b) by {
                    assert forall|i: int| 0 <= i < a.len() implies a[i] == b[i] by {
                        if i > 0 {
                            assert(a.drop_first()[i - 1] == a[i]);
                            assert(b.drop_first()[i - 1] == b[i]);
                            assert(a.drop_first()[i - 1] == b.drop_first()[i - 1]);
                        }
                    }
                }
            }
        }
    }
}

/// Characters with the same code point are the same character.
pub proof fn lemma_char_code_inj(c: char, d: char)
    requires
        c as u32 == d as u32,
    ensures
        c == d,
{
}

pub proof fn lemma_lex_trans(a: Seq<char>, b: Seq<char>, c: Seq<char>)
    requires
        lex_lt(a, b),
        lex_lt(b, c),
    ensures
        lex_lt(a, c),
    decreases a.len(),
{
    if a.len() > 0 && b.len() > 0 && c.len() > 0 {
        if a[0] == b[0] && b[0] == c[0] {
            lemma_lex_trans(a.drop_first(), b.drop_first(), c.drop_first());
        }
    }
}

pub fn str_lex_lt(a: &str, b: &str) -> (r: bool)
    ensures
        r == lex_lt(a@, b@),
{
    let alen = a.unicode_len();
    let blen = b.unicode_len();
    let mut i: usize = 0;
    proof {
        assert(a@.skip(0) =~= a@);
        assert(b@.skip(0) =~= b@);
    }
    while i < alen && i < blen
        invariant
            i <= alen,
            i <= blen,
            alen == a@.len(),
            blen == b@.len(),
            lex_lt(a@, b@) == lex_lt(a@.skip(i as int), b@.skip(i as int)),
        decreases alen - i,
    {
        let ca = a.get_char(i);
        let cb = b.get_char(i);
        proof {
            assert(a@.skip(i as int)[0] == a@[i as int]);
            assert(b@.skip(i as int)[0] == b@[i as int]);
        }
        if ca != cb {
            return (ca as u32) < (cb as u32);
        }
        proof {
            assert(a@.skip(i as int).drop_first() =~= a@.skip(i + 1));
            assert(b@.skip(i as int).drop_first() =~= b@.skip(i + 1));
        }
        i += 1;
    }
    proof {
        if i == alen {
            assert(a@.skip(i as int).len() == 0);
        } else {
            assert(b@.skip(i as int).len() == 0);
        }
    }
    alen < blen
}

} // verus!
