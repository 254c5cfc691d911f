//! Sorted sequences of tokens without repeats.

use vstd::prelude::*;
use vstd::string::*;
use crate::token::{lex_lt, token_order, Order};
use crate::token::{lemma_lex_asymmetric, lemma_lex_irreflexive, lemma_lex_total, lemma_lex_transitive};

verus! {

/// The texts of a sequence of strings.
pub open spec fn texts(v: Seq<String>) -> Seq<Seq<char>> {
    Seq::new(v.len(), |i: int| v[i]@)
}

/// Every token comes before each later one, so none occurs twice.
pub open spec fn strictly_sorted(d: Seq<Seq<char>>) -> bool {
    forall|i: int, j: int| 0 <= i < j < d.len() ==> lex_lt(#[trigger] d[i], #[trigger] d[j])
}

/// Two sequences hold the same tokens, whatever the order and the number.
pub open spec fn same_elements(d: Seq<Seq<char>>, toks: Seq<Seq<char>>) -> bool {
    forall|x: Seq<char>| d.contains(x) <==> toks.contains(x)
}

/// The different tokens of `toks`, in order.
pub open spec fn sorted_tokens(toks: Seq<Seq<char>>) -> Seq<Seq<char>> {
    choose|d: Seq<Seq<char>>| strictly_sorted(d) && same_elements(d, toks)
}

/// Puts `t` in its place in a sorted sequence, unless it is there already.
pub fn insert_sorted(d: &mut Vec<String>, t: String)
    requires
        strictly_sorted(texts(old(d)@)),
    ensures
        strictly_sorted(texts(final(d)@)),
        forall|x: Seq<char>|
            texts(final(d)@).contains(x) <==> (texts(old(d)@).contains(x) || x == t@),
        texts(old(d)@).contains(t@) ==> final(d)@ == old(d)@,
        !texts(old(d)@).contains(t@) ==> final(d)@.len() == old(d)@.len() + 1,
{
    let ghost o = texts(d@);
    let n: usize = d.len();
    let mut p: usize = 0;
    let mut stop: bool = false;
    while p < n && !stop
        invariant
            *d == *old(d),
            n == d@.len(),
            p <= n,
            o == texts(d@),
            strictly_sorted(o),
            forall|j: int| 0 <= j < p ==> lex_lt(#[trigger] o[j], t@),
            stop ==> p < n && lex_lt(t@, o[p as int]),
        decreases n - p + (if stop { 0int } else { 1int }),
    {
        match token_order(d[p].as_str(), t.as_str()) {
            Order::Before => {
                p = p + 1;
            },
            Order::Same => {
                assert(o[p as int] == t@);
                assert forall|x: Seq<char>| o.contains(x) || x == t@ implies o.contains(x) by {}
                return ;
            },
            Order::After => {
                stop = true;
            },
        }
    }
    proof {
        assert forall|j: int| p <= j < n implies lex_lt(t@, #[trigger] o[j]) by {
            if j > p {
                lemma_lex_transitive(t@, o[p as int], o[j], 0);
            }
        }
        assert(!o.contains(t@)) by {
            if o.contains(t@) {
                let k = choose|k: int| 0 <= k < o.len() && o[k] == t@;
                lemma_lex_irreflexive(t@, 0);
            }
        }
    }
    d.insert(p, t);
    proof {
        let w = texts(d@);
        assert(w.len() == n + 1);
        assert forall|j: int| 0 <= j < w.len() implies #[trigger] w[j] == (if j < p {
            o[j]
        } else if j == p {
            t@
        } else {
            o[j - 1]
        }) by {}
        assert forall|x: Seq<char>| w.contains(x) <==> (o.contains(x) || x == t@) by {
            if w.contains(x) {
                let k = choose|k: int| 0 <= k < w.len() && w[k] == x;
                if k < p {
                    assert(o[k] == x);
                } else if k > p {
                    assert(o[k - 1] == x);
                }
            }
            if o.contains(x) {
                let k = choose|k: int| 0 <= k < o.len() && o[k] == x;
                if k < p {
                    assert(w[k] == x);
                } else {
                    assert(w[k + 1] == x);
                }
            }
            if x == t@ {
                assert(w[p as int] == x);
            }
        }
        assert forall|i: int, j: int| 0 <= i < j < w.len() implies lex_lt(
            #[trigger] w[i],
            #[trigger] w[j],
        ) by {
            if j < p {
                assert(lex_lt(o[i], o[j]));
            } else if j == p {
                assert(lex_lt(o[i], t@));
            } else if i < p {
                assert(lex_lt(o[i], o[j - 1]));
            } else if i == p {
                assert(lex_lt(t@, o[j - 1]));
            } else {
                assert(lex_lt(o[i - 1], o[j - 1]));
            }
        }
    }
}

/// The different tokens among `tokens`, in order.
pub fn distinct_tokens(tokens: &Vec<String>) -> (r: Vec<String>)
    ensures
        strictly_sorted(texts(r@)),
        same_elements(texts(r@), texts(tokens@)),
        texts(r@) == sorted_tokens(texts(tokens@)),
        r@.len() <= tokens@.len(),
{
    let mut out: Vec<String> = Vec::new();
    let n: usize = tokens.len();
    let ghost toks = texts(tokens@);
    let mut i: usize = 0;
    while i < n
        invariant
            i <= n,
            n == tokens@.len(),
            toks == texts(tokens@),
            strictly_sorted(texts(out@)),
            out@.len() <= i,
            forall|x: Seq<char>|
                texts(out@).contains(x) <==> exists|k: int| 0 <= k < i && toks[k] == x,
        decreases n - i,
    {
        let ghost before = texts(out@);
        insert_sorted(&mut out, tokens[i].clone());
        proof {
            assert forall|x: Seq<char>| texts(out@).contains(x) <==> exists|k: int|
                0 <= k < i + 1 && toks[k] == x by {
                if before.contains(x) {
                    let k = choose|k: int| 0 <= k < i && toks[k] == x;
                    assert(0 <= k < i + 1 && toks[k] == x);
                }
                if x == toks[i as int] {
                    assert(0 <= i < i + 1 && toks[i as int] == x);
                }
                if exists|k: int| 0 <= k < i + 1 && toks[k] == x {
                    let k = choose|k: int| 0 <= k < i + 1 && toks[k] == x;
                    if k < i {
                        assert(before.contains(x));
                    }
                }
            }
        }
        i = i + 1;
    }
    proof {
        assert forall|x: Seq<char>| texts(out@).contains(x) <==> toks.contains(x) by {
            if toks.contains(x) {
                let k = choose|k: int| 0 <= k < toks.len() && toks[k] == x;
                assert(0 <= k < i && toks[k] == x);
            }
        }
        lemma_sorted_unique(texts(out@), sorted_tokens(toks));
    }
    out
}

/// Two sorted sequences that hold the same tokens are the same sequence.
pub proof fn lemma_sorted_unique(a: Seq<Seq<char>>, b: Seq<Seq<char>>)
    requires
        strictly_sorted(a),
        strictly_sorted(b),
        same_elements(a, b),
    ensures
        a == b,
    decreases a.len(),
{
    if a.len() == 0 {
        if b.len() > 0 {
            assert(b.contains(b[0]));
            assert(a.contains(b[0]));
        }
        assert(a =~= b);
    } else {
        let la = a.last();
        assert(a.contains(la));
        assert(b.contains(la));
        let kb = choose|k: int| 0 <= k < b.len() && b[k] == la;
        let lb = b.last();
        assert(b.contains(lb));
        assert(a.contains(lb));
        let ka = choose|k: int| 0 <= k < a.len() && a[k] == lb;
        if kb < b.len() - 1 {
            assert(lex_lt(b[kb], b[b.len() - 1]));
            if ka < a.len() - 1 {
                assert(lex_lt(a[ka], a[a.len() - 1]));
                lemma_lex_asymmetric(la, lb, 0);
            } else {
                lemma_lex_irreflexive(la, 0);
            }
            assert(false);
        }
        assert(la == lb);
        let a2 = a.drop_last();
        let b2 = b.drop_last();
        lemma_lex_irreflexive(la, 0);
        assert forall|x: Seq<char>| a2.contains(x) <==> b2.contains(x) by {
            if a2.contains(x) {
                let k = choose|k: int| 0 <= k < a2.len() && a2[k] == x;
                assert(a[k] == x);
                assert(lex_lt(a[k], a[a.len() - 1]));
                assert(a.contains(x));
                assert(b.contains(x));
                let m = choose|m: int| 0 <= m < b.len() && b[m] == x;
                assert(b2[m] == x);
            }
            if b2.contains(x) {
                let k = choose|k: int| 0 <= k < b2.len() && b2[k] == x;
                assert(b[k] == x);
                assert(lex_lt(b[k], b[b.len() - 1]));
                assert(b.contains(x));
                assert(a.contains(x));
                let m = choose|m: int| 0 <= m < a.len() && a[m] == x;
                assert(a2[m] == x);
            }
        }
        assert forall|i: int, j: int| 0 <= i < j < a2.len() implies lex_lt(
            #[trigger] a2[i],
            #[trigger] a2[j],
        ) by {
            assert(lex_lt(a[i], a[j]));
        }
        assert forall|i: int, j: int| 0 <= i < j < b2.len() implies lex_lt(
            #[trigger] b2[i],
            #[trigger] b2[j],
        ) by {
            assert(lex_lt(b[i], b[j]));
        }
        lemma_sorted_unique(a2, b2);
        assert(a =~= a2.push(la));
        assert(b =~= b2.push(lb));
    }
}

/// A sorted sequence with one more token put in its place.
pub proof fn lemma_sorted_insert(d: Seq<Seq<char>>, t: Seq<char>) -> (e: Seq<Seq<char>>)
    requires
        strictly_sorted(d),
    ensures
        strictly_sorted(e),
        forall|x: Seq<char>| e.contains(x) <==> (d.contains(x) || x == t),
    decreases d.len(),
{
    if d.len() == 0 {
        let e = seq![t];
        assert(e[0] == t);
        e
    } else if d.last() == t {
        assert(d[d.len() - 1] == t);
        d
    } else {
        let last = d.last();
        assert(d[d.len() - 1] == last);
        lemma_lex_total(last, t, 0);
        let d2 = d.drop_last();
        assert forall|x: Seq<char>| d.contains(x) <==> (d2.contains(x) || x == last) by {
            if d.contains(x) {
                let k = choose|k: int| 0 <= k < d.len() && d[k] == x;
                if k < d.len() - 1 {
                    assert(d2[k] == x);
                }
            }
            if d2.contains(x) {
                let k = choose|k: int| 0 <= k < d2.len() && d2[k] == x;
                assert(d[k] == x);
            }
        }
        if lex_lt(last, t) {
            let e = d.push(t);
            assert(e[d.len() as int] == t);
            assert forall|x: Seq<char>| e.contains(x) <==> (d.contains(x) || x == t) by {
                if e.contains(x) {
                    let k = choose|k: int| 0 <= k < e.len() && e[k] == x;
                    if k < d.len() {
                        assert(d[k] == x);
                    }
                }
                if d.contains(x) {
                    let k = choose|k: int| 0 <= k < d.len() && d[k] == x;
                    assert(e[k] == x);
                }
            }
            assert forall|i: int, j: int| 0 <= i < j < e.len() implies lex_lt(
                #[trigger] e[i],
                #[trigger] e[j],
            ) by {
                if j < d.len() {
                    assert(lex_lt(d[i], d[j]));
                } else if i < d.len() - 1 {
                    assert(lex_lt(d[i], d[d.len() - 1]));
                    lemma_lex_transitive(d[i], last, t, 0);
                }
            }
            e
        } else {
            assert forall|i: int, j: int| 0 <= i < j < d2.len() implies lex_lt(
                #[trigger] d2[i],
                #[trigger] d2[j],
            ) by {
                assert(lex_lt(d[i], d[j]));
            }
            let e2 = lemma_sorted_insert(d2, t);
            let e = e2.push(last);
            assert(e[e2.len() as int] == last);
            assert forall|x: Seq<char>| e.contains(x) <==> (d.contains(x) || x == t) by {
                if e.contains(x) {
                    let k = choose|k: int| 0 <= k < e.len() && e[k] == x;
                    if k < e2.len() {
                        assert(e2[k] == x);
                    }
                }
                if e2.contains(x) {
                    let k = choose|k: int| 0 <= k < e2.len() && e2[k] == x;
                    assert(e[k] == x);
                }
            }
            assert forall|i: int, j: int| 0 <= i < j < e.len() implies lex_lt(
                #[trigger] e[i],
                #[trigger] e[j],
            ) by {
                if j < e2.len() {
                    assert(lex_lt(e2[i], e2[j]));
                } else {
                    assert(e2.contains(e2[i]));
                    if d2.contains(e2[i]) {
                        let k = choose|k: int| 0 <= k < d2.len() && d2[k] == e2[i];
                        assert(lex_lt(d[k], d[d.len() - 1]));
                    }
                }
            }
            e
        }
    }
}

/// Every sequence of tokens has a sorted sequence of its different tokens.
pub proof fn lemma_sorted_exists(toks: Seq<Seq<char>>) -> (d: Seq<Seq<char>>)
    ensures
        strictly_sorted(d),
        same_elements(d, toks),
    decreases toks.len(),
{
    if toks.len() == 0 {
        Seq::empty()
    } else {
        let rest = toks.drop_last();
        let d2 = lemma_sorted_exists(rest);
        let d = lemma_sorted_insert(d2, toks.last());
        assert forall|x: Seq<char>| d.contains(x) <==> toks.contains(x) by {
            if toks.contains(x) {
                let k = choose|k: int| 0 <= k < toks.len() && toks[k] == x;
                if k < toks.len() - 1 {
                    assert(rest[k] == x);
                }
            }
            if rest.contains(x) {
                let k = choose|k: int| 0 <= k < rest.len() && rest[k] == x;
                assert(toks[k] == x);
            }
            if x == toks.last() {
                assert(toks[toks.len() - 1] == x);
            }
        }
        d
    }
}

/// `sorted_tokens(toks)` is sorted and holds the tokens of `toks`, each
/// once.
pub proof fn lemma_sorted_tokens(toks: Seq<Seq<char>>)
    ensures
        strictly_sorted(sorted_tokens(toks)),
        same_elements(sorted_tokens(toks), toks),
{
    let d = lemma_sorted_exists(toks);
    assert(strictly_sorted(d) && same_elements(d, toks));
}

} // verus!
