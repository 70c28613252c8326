//! Lexicographic order on strings (by character code point, which is the byte
//! order of their UTF-8 encodings) and sorting of string lists.
use vstd::prelude::*;
use crate::text::chars_of;

verus! {

/// `a` sorts strictly before `b`: at the first position where they differ `a`
/// has the smaller character, or `a` is a proper prefix of `b`.
pub open spec fn lex_lt(a: Seq<char>, b: Seq<char>) -> bool {
    exists|k: int| #[trigger] lex_split(a, b, k)
}

/// `k` is the length of the common prefix of `a` and `b`, and `a` is smaller there.
pub open spec fn lex_split(a: Seq<char>, b: Seq<char>, k: int) -> bool {
    &&& 0 <= k <= a.len()
    &&& k <= b.len()
    &&& a.take(k) == b.take(k)
    &&& ((k == a.len() && k < b.len()) || (k < a.len() && k < b.len() && a[k] < b[k]))
}

pub proof fn lemma_lex_irreflexive(a: Seq<char>)
    ensures
        !lex_lt(a, a),
{
}

pub proof fn lemma_lex_asymmetric(a: Seq<char>, b: Seq<char>)
    requires
        lex_lt(a, b),
    ensures
        !lex_lt(b, a),
{
    let k = choose|k: int| lex_split(a, b, k);
    if lex_lt(b, a) {
        let j = choose|j: int| lex_split(b, a, j);
        if j < k {
            assert(a.take(k)[j] == b.take(k)[j]);
        } else if k < j {
            assert(a.take(j)[k] == b.take(j)[k]);
        }
    }
}

pub proof fn lemma_lex_transitive(a: Seq<char>, b: Seq<char>, c: Seq<char>)
    requires
        lex_lt(a, b),
        lex_lt(b, c),
    ensures
        lex_lt(a, c),
{
    let k1 = choose|k: int| lex_split(a, b, k);
    let k2 = choose|k: int| lex_split(b, c, k);
    if k1 < k2 {
        assert(b.take(k2)[k1] == c.take(k2)[k1]);
        assert(a.take(k1) =~= c.take(k1)) by {
            assert forall|i: int| 0 <= i < k1 implies #[trigger] a.take(k1)[i] == c.take(k1)[i] by {
                assert(a.take(k1)[i] == b.take(k1)[i]);
                assert(b.take(k2)[i] == c.take(k2)[i]);
            }
        }
        assert(lex_split(a, c, k1));
    } else if k2 < k1 {
        assert(a.take(k1)[k2] == b.take(k1)[k2]);
        assert(a.take(k2) =~= c.take(k2)) by {
            assert forall|i: int| 0 <= i < k2 implies #[trigger] a.take(k2)[i] == c.take(k2)[i] by {
                assert(a.take(k1)[i] == b.take(k1)[i]);
                assert(b.take(k2)[i] == c.take(k2)[i]);
            }
        }
        assert(lex_split(a, c, k2));
    } else {
        assert(a.take(k1) =~= c.take(k1)) by {
            assert forall|i: int| 0 <= i < k1 implies #[trigger] a.take(k1)[i] == c.take(k1)[i] by {
                assert(a.take(k1)[i] == b.take(k1)[i]);
                assert(b.take(k2)[i] == c.take(k2)[i]);
            }
        }
        assert(lex_split(a, c, k1));
    }
}

pub proof fn lemma_lex_total(a: Seq<char>, b: Seq<char>)
    requires
        a != b,
    ensures
        lex_lt(a, b) || lex_lt(b, a),
    decreases a.len(),
{
    if a.len() == 0 {
        assert(b.len() > 0) by {
            if b.len() == 0 {
                assert(a =~= b);
            }
        }
        assert(a.take(0) =~= b.take(0));
        assert(lex_split(a, b, 0));
    } else if b.len() == 0 {
        assert(b.take(0) =~= a.take(0));
        assert(lex_split(b, a, 0));
    } else if a[0] != b[0] {
        assert(a.take(0) =~= b.take(0));
        if a[0] < b[0] {
            assert(lex_split(a, b, 0));
        } else {
            assert(lex_split(b, a, 0));
        }
    } else {
        let a1 = a.drop_first();
        let b1 = b.drop_first();
        assert(a1 != b1) by {
            if a1 == b1 {
                assert(a =~= seq![a[0]] + a1);
                assert(b =~= seq![b[0]] + b1);
            }
        }
        lemma_lex_total(a1, b1);
        if lex_lt(a1, b1) {
            let k = choose|k: int| lex_split(a1, b1, k);
            assert(a.take(k + 1) =~= b.take(k + 1)) by {
                assert forall|i: int| 0 <= i < k + 1 implies #[trigger] a.take(k + 1)[i] == b.take(k + 1)[i] by {
                    if i > 0 {
                        assert(a1.take(k)[i - 1] == b1.take(k)[i - 1]);
                    }
                }
            }
            assert(lex_split(a, b, k + 1));
        } else {
            let k = choose|k: int| lex_split(b1, a1, k);
            assert(b.take(k + 1) =~= a.take(k + 1)) by {
                assert forall|i: int| 0 <= i < k + 1 implies #[trigger] b.take(k + 1)[i] == a.take(k + 1)[i] by {
                    if i > 0 {
                        assert(b1.take(k)[i - 1] == a1.take(k)[i - 1]);
                    }
                }
            }
            assert(lex_split(b, a, k + 1));
        }
    }
}

/// `a` sorts strictly before `b` (`a < b` on `String`).
pub fn string_lt(a: &String, b: &String) -> (r: bool)
    ensures
        r == lex_lt(a@, b@),
{
    let x = chars_of(a.as_str());
    let y = chars_of(b.as_str());
    let mut i: usize = 0;
    while i < x.len() && i < y.len()
        invariant
            x@ == a@,
            y@ == b@,
            i <= x@.len(),
            i <= y@.len(),
            x@.take(i as int) == y@.take(i as int),
        decreases x.len() - i,
    {
        if x[i] != y[i] {
            proof {
                if x@[i as int] < y@[i as int] {
                    assert(lex_split(x@, y@, i as int));
                } else {
                    assert(y@.take(i as int) == x@.take(i as int));
                    assert(lex_split(y@, x@, i as int));
                    lemma_lex_asymmetric(y@, x@);
                }
            }
            return x[i] < y[i];
        }
        assert(x@.take(i + 1) =~= y@.take(i + 1)) by {
            assert forall|j: int| 0 <= j < i + 1 implies #[trigger] x@.take(i + 1)[j] == y@.take(i + 1)[j] by {
                if j < i {
                    assert(x@.take(i as int)[j] == y@.take(i as int)[j]);
                }
            }
        }
        i = i + 1;
    }
    proof {
        if i == x@.len() && i < y@.len() {
            assert(lex_split(x@, y@, i as int));
        } else if i == y@.len() && i < x@.len() {
            assert(lex_split(y@, x@, i as int));
            lemma_lex_asymmetric(y@, x@);
        } else {
            assert(x@ =~= y@) by {
                assert(x@ == x@.take(i as int));
                assert(y@ == y@.take(i as int));
            }
            lemma_lex_irreflexive(x@);
        }
    }
    i == x.len() && i < y.len()
}

/// The views of a list of strings.
pub open spec fn views(v: Seq<String>) -> Seq<Seq<char>> {
    v.map_values(|s: String| s@)
}

/// Strictly increasing in lexicographic order (hence free of repeats).
pub open spec fn strictly_sorted(s: Seq<Seq<char>>) -> bool {
    forall|i: int, j: int| 0 <= i < j < s.len() ==> lex_lt(#[trigger] s[i], #[trigger] s[j])
}

/// No string occurs twice.
pub open spec fn distinct(s: Seq<Seq<char>>) -> bool {
    forall|i: int, j: int| 0 <= i < j < s.len() ==> #[trigger] s[i] != #[trigger] s[j]
}

pub proof fn lemma_strictly_sorted_distinct(s: Seq<Seq<char>>)
    requires
        strictly_sorted(s),
    ensures
        distinct(s),
{
    assert forall|i: int, j: int| 0 <= i < j < s.len() implies #[trigger] s[i] != #[trigger] s[j] by {
        lemma_lex_irreflexive(s[i]);
    }
}

/// Sorts a list of distinct strings into increasing lexicographic order
/// (`Vec::sort` on distinct `String`s).
pub fn sort_distinct_strings(v: Vec<String>) -> (out: Vec<String>)
    requires
        distinct(views(v@)),
    ensures
        strictly_sorted(views(out@)),
        views(out@).to_set() == views(v@).to_set(),
        out@.len() == v@.len(),
{
    let mut out: Vec<String> = Vec::new();
    let n = v.len();
    let mut i: usize = 0;
    while i < n
        invariant
            n == v@.len(),
            i <= n,
            distinct(views(v@)),
            strictly_sorted(views(out@)),
            views(out@).to_set() == views(v@).take(i as int).to_set(),
            out@.len() == i,
        decreases n - i,
    {
        let x = v[i].clone();
        let ghost old_out = views(out@);
        assert(!old_out.to_set().contains(x@)) by {
            if old_out.to_set().contains(x@) {
                assert(views(v@).take(i as int).to_set().contains(x@));
                let j = choose|j: int| 0 <= j < i && views(v@).take(i as int)[j] == x@;
                assert(views(v@)[j] == views(v@)[i as int]);
            }
        }
        // find the insertion point
        let mut p: usize = 0;
        while p < out.len() && string_lt(&out[p], &x)
            invariant
                p <= out@.len(),
                views(out@) == old_out,
                forall|q: int| 0 <= q < p ==> lex_lt(#[trigger] old_out[q], x@),
            decreases out.len() - p,
        {
            p = p + 1;
        }
        proof {
            if p < out@.len() {
                assert(!lex_lt(old_out[p as int], x@));
                assert(old_out[p as int] != x@) by {
                    assert(old_out.to_set().contains(old_out[p as int]));
                }
                lemma_lex_total(old_out[p as int], x@);
            }
        }
        out.insert(p, x);
        proof {
            let nw = views(out@);
            assert(nw =~= old_out.insert(p as int, x@));
            assert forall|a: int, b: int| 0 <= a < b < nw.len() implies lex_lt(#[trigger] nw[a], #[trigger] nw[b]) by {
                if b < p {
                } else if a < p && b == p {
                } else if a < p && b > p {
                    lemma_lex_transitive(old_out[a], x@, old_out[p as int]);
                    if b - 1 > p {
                        lemma_lex_transitive(old_out[a], old_out[p as int], old_out[b - 1]);
                    }
                } else if a == p {
                    if b - 1 > p {
                        lemma_lex_transitive(x@, old_out[p as int], old_out[b - 1]);
                    }
                } else {
                }
            }
            assert(views(v@).take(i + 1) =~= views(v@).take(i as int).push(x@));
            assert(nw.to_set() =~= old_out.to_set().insert(x@)) by {
                assert forall|y: Seq<char>| nw.to_set().contains(y) <==> old_out.to_set().insert(x@).contains(y) by {
                    if nw.to_set().contains(y) {
                        let k = choose|k: int| 0 <= k < nw.len() && nw[k] == y;
                        if k < p { assert(old_out[k] == y); }
                        else if k > p { assert(old_out[k - 1] == y); }
                    }
                    if old_out.to_set().contains(y) {
                        let k = choose|k: int| 0 <= k < old_out.len() && old_out[k] == y;
                        if k < p { assert(nw[k] == y); } else { assert(nw[k + 1] == y); }
                    }
                    if y == x@ { assert(nw[p as int] == y); }
                }
            }
            assert(views(v@).take(i as int).push(x@).to_set() =~= views(v@).take(i as int).to_set().insert(x@)) by {
                let s = views(v@).take(i as int);
                assert forall|y: Seq<char>| s.push(x@).to_set().contains(y) <==> s.to_set().insert(x@).contains(y) by {
                    if s.push(x@).to_set().contains(y) {
                        let k = choose|k: int| 0 <= k < s.len() + 1 && s.push(x@)[k] == y;
                        if k < s.len() { assert(s[k] == y); }
                    }
                    if s.to_set().contains(y) {
                        let k = choose|k: int| 0 <= k < s.len() && s[k] == y;
                        assert(s.push(x@)[k] == y);
                    }
                    if y == x@ { assert(s.push(x@)[s.len() as int] == y); }
                }
            }
        }
        i = i + 1;
    }
    assert(views(v@).take(n as int) =~= views(v@));
    out
}

/// The increasing enumeration of a finite set of strings.
pub open spec fn sorted_enum(set: Set<Seq<char>>) -> Seq<Seq<char>> {
    choose|s: Seq<Seq<char>>| strictly_sorted(s) && s.to_set() == set
}

/// Two increasing enumerations of the same set are equal.
pub proof fn lemma_sorted_unique(a: Seq<Seq<char>>, b: Seq<Seq<char>>)
    requires
        strictly_sorted(a),
        strictly_sorted(b),
        a.to_set() == b.to_set(),
    ensures
        a == b,
    decreases a.len(),
{
    if a.len() == 0 {
        if b.len() > 0 {
            assert(b.to_set().contains(b[0]));
        }
        assert(a =~= b);
    } else if b.len() == 0 {
        assert(a.to_set().contains(a[0]));
    } else {
        assert(b.to_set().contains(a[0]));
        assert(a.to_set().contains(b[0]));
        let ka = choose|k: int| 0 <= k < a.len() && #[trigger] a[k] == b[0];
        let kb = choose|k: int| 0 <= k < b.len() && #[trigger] b[k] == a[0];
        if ka > 0 && kb > 0 {
            lemma_lex_asymmetric(a[0], a[ka]);
        }
        assert(a[0] == b[0]) by {
            if ka > 0 && kb == 0 {
            } else if ka == 0 {
            }
        }
        let a1 = a.drop_first();
        let b1 = b.drop_first();
        lemma_strictly_sorted_distinct(a);
        lemma_strictly_sorted_distinct(b);
        assert(a1.to_set() =~= b1.to_set()) by {
            assert forall|x: Seq<char>| a1.to_set().contains(x) <==> b1.to_set().contains(x) by {
                if a1.to_set().contains(x) {
                    let i = choose|i: int| 0 <= i < a1.len() && #[trigger] a1[i] == x;
                    assert(a[i + 1] == x);
                    assert(a.to_set().contains(x));
                    assert(b.to_set().contains(x));
                    let j = choose|j: int| 0 <= j < b.len() && #[trigger] b[j] == x;
                    assert(j != 0);
                    assert(b1[j - 1] == x);
                }
                if b1.to_set().contains(x) {
                    let i = choose|i: int| 0 <= i < b1.len() && #[trigger] b1[i] == x;
                    assert(b[i + 1] == x);
                    assert(b.to_set().contains(x));
                    assert(a.to_set().contains(x));
                    let j = choose|j: int| 0 <= j < a.len() && #[trigger] a[j] == x;
                    assert(j != 0);
                    assert(a1[j - 1] == x);
                }
            }
        }
        lemma_sorted_unique(a1, b1);
        assert(a =~= b) by {
            assert forall|i: int| 0 <= i < a.len() implies a[i] == b[i] by {
                if i > 0 {
                    assert(a1[i - 1] == b1[i - 1]);
                }
            }
        }
    }
}

/// A concrete increasing enumeration is the enumeration.
pub proof fn lemma_sorted_enum_is(s: Seq<Seq<char>>, set: Set<Seq<char>>)
    requires
        strictly_sorted(s),
        s.to_set() == set,
    ensures
        sorted_enum(set) == s,
{
    let t = sorted_enum(set);
    assert(strictly_sorted(t) && t.to_set() == set);
    lemma_sorted_unique(s, t);
}

} // verus!
