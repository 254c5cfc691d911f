//! Extension tokens: the upper-case suffix of a file name, and their order.

use vstd::prelude::*;
use vstd::string::*;

verus! {

/// The upper-case form of a text, as `str::to_uppercase` of the standard
/// library gives it.
pub uninterp spec fn uppercase_of(s: Seq<char>) -> Seq<char>;

/// Calls `str::to_uppercase`; the contract only gives the result its name.
#[verifier::external_body]
fn to_upper(s: &str) -> (r: String)
    ensures
        r@ == uppercase_of(s@),
{
    s.to_uppercase()
}

/// The token of a file name without an extension.
pub open spec fn sentinel() -> Seq<char> {
    seq!['E', 'L', 'S', 'E']
}

/// Index of the last `.` among the first `n` characters of `name`, or -1.
pub open spec fn last_dot_before(name: Seq<char>, n: int) -> int
    decreases n,
{
    if n <= 0 {
        -1
    } else if name[n - 1] == '.' {
        n - 1
    } else {
        last_dot_before(name, n - 1)
    }
}

/// The extension of a file name: what follows its last `.`. A name without
/// a `.`, a name whose only `.` is its first character, and the name `..`
/// have none.
pub open spec fn extension_of(name: Seq<char>) -> Option<Seq<char>> {
    let dot = last_dot_before(name, name.len() as int);
    if dot <= 0 || name == seq!['.', '.'] {
        None
    } else {
        Some(name.subrange(dot + 1, name.len() as int))
    }
}

/// The token of a file name: its extension in upper case, or the sentinel.
pub open spec fn classify_spec(name: Seq<char>) -> Seq<char> {
    match extension_of(name) {
        Some(ext) => uppercase_of(ext),
        None => sentinel(),
    }
}

/// A name without a `.` has no extension, so its token is the sentinel.
pub proof fn lemma_no_dot_is_sentinel(name: Seq<char>)
    requires
        forall|j: int| 0 <= j < name.len() ==> name[j] != '.',
    ensures
        extension_of(name).is_none(),
        classify_spec(name) == sentinel(),
{
    lemma_no_dot_upto(name, name.len() as int);
}

/// Where none of the first `n` characters is a `.`, no last `.` is found.
pub proof fn lemma_no_dot_upto(name: Seq<char>, n: int)
    requires
        n <= name.len(),
        forall|j: int| 0 <= j < n ==> name[j] != '.',
    ensures
        last_dot_before(name, n) == -1,
    decreases n,
{
    if n > 0 {
        lemma_no_dot_upto(name, n - 1);
    }
}

/// The token depends on nothing but the extension: names with the same
/// extension, or both without one, have the same token.
pub proof fn lemma_classify_by_extension(a: Seq<char>, b: Seq<char>)
    requires
        extension_of(a) == extension_of(b),
    ensures
        classify_spec(a) == classify_spec(b),
{
}

/// The extension of a file name, where it has one.
pub fn extension(name: &str) -> (r: Option<String>)
    ensures
        r.is_some() == extension_of(name@).is_some(),
        r.is_some() ==> r.unwrap()@ == extension_of(name@).unwrap(),
{
    let len: usize = name.unicode_len();
    let mut i: usize = len;
    while i > 0 && name.get_char(i - 1) != '.'
        invariant
            i <= len,
            len == name@.len(),
            last_dot_before(name@, len as int) == last_dot_before(name@, i as int),
        decreases i,
    {
        i = i - 1;
    }
    if i <= 1 {
        return None;
    }
    if len == 2 && name.get_char(0) == '.' {
        assert(name@ =~= seq!['.', '.']);
        return None;
    }
    assert(name@ != seq!['.', '.']) by {
        if name@ == seq!['.', '.'] {
            assert(name@.len() == 2);
            assert(name@[0] == '.');
        }
    }
    Some(String::from_str(name.substring_char(i, len)))
}

/// The token of a file name.
pub fn classify(name: &str) -> (r: String)
    ensures
        r@ == classify_spec(name@),
{
    match extension(name) {
        Some(ext) => to_upper(ext.as_str()),
        None => {
            proof {
                reveal_strlit("ELSE");
                assert("ELSE"@ =~= sentinel());
            }
            String::from_str("ELSE")
        },
    }
}

/// Whether `a` and `b` agree up to `i` and `a` comes first from there on.
pub open spec fn lex_lt_from(a: Seq<char>, b: Seq<char>, i: int) -> bool
    decreases a.len() - i,
{
    if i >= b.len() {
        false
    } else if i >= a.len() {
        true
    } else if a[i] == b[i] {
        lex_lt_from(a, b, i + 1)
    } else {
        (a[i] as u32) < (b[i] as u32)
    }
}

/// The order of tokens: character by character, a proper prefix first.
pub open spec fn lex_lt(a: Seq<char>, b: Seq<char>) -> bool {
    lex_lt_from(a, b, 0)
}

/// How two tokens stand to each other.
#[derive(Clone, Copy, Debug, PartialEq, Eq, Structural)]
pub enum Order {
    Before,
    Same,
    After,
}

/// Compares two tokens.
pub fn token_order(a: &str, b: &str) -> (r: Order)
    ensures
        r == Order::Before <==> lex_lt(a@, b@),
        r == Order::Same <==> a@ == b@,
        r == Order::After <==> lex_lt(b@, a@),
{
    let la: usize = a.unicode_len();
    let lb: usize = b.unicode_len();
    let mut i: usize = 0;
    proof {
        lemma_lex_irreflexive(a@, 0);
    }
    while i < la && i < lb
        invariant
            la == a@.len(),
            lb == b@.len(),
            i <= la,
            i <= lb,
            forall|j: int| 0 <= j < i ==> a@[j] == b@[j],
            lex_lt(a@, b@) == lex_lt_from(a@, b@, i as int),
            lex_lt(b@, a@) == lex_lt_from(b@, a@, i as int),
        decreases la - i,
    {
        let ca: char = a.get_char(i);
        let cb: char = b.get_char(i);
        if ca != cb {
            assert(a@ != b@);
            if (ca as u32) < (cb as u32) {
                return Order::Before;
            } else {
                return Order::After;
            }
        }
        i = i + 1;
    }
    if la < lb {
        assert(a@ != b@);
        Order::Before
    } else if lb < la {
        assert(a@ != b@);
        Order::After
    } else {
        assert(a@ =~= b@);
        Order::Same
    }
}

/// No token comes before itself.
pub proof fn lemma_lex_irreflexive(a: Seq<char>, i: int)
    requires
        0 <= i,
    ensures
        !lex_lt_from(a, a, i),
    decreases a.len() - i,
{
    if i < a.len() {
        lemma_lex_irreflexive(a, i + 1);
    }
}

/// The order of tokens is transitive.
pub proof fn lemma_lex_transitive(a: Seq<char>, b: Seq<char>, c: Seq<char>, i: int)
    requires
        0 <= i,
        lex_lt_from(a, b, i),
        lex_lt_from(b, c, i),
    ensures
        lex_lt_from(a, c, i),
    decreases a.len() - i,
{
    if i < a.len() && i < b.len() && i < c.len() && a[i] == b[i] && b[i] == c[i] {
        lemma_lex_transitive(a, b, c, i + 1);
    }
}

/// Of two different tokens that agree up to `i`, one comes before the
/// other from there on.
pub proof fn lemma_lex_total(a: Seq<char>, b: Seq<char>, i: int)
    requires
        0 <= i <= a.len(),
        i <= b.len(),
        forall|j: int| 0 <= j < i ==> a[j] == b[j],
        a != b,
    ensures
        lex_lt_from(a, b, i) || lex_lt_from(b, a, i),
    decreases a.len() - i,
{
    if i < a.len() && i < b.len() {
        if a[i] == b[i] {
            lemma_lex_total(a, b, i + 1);
        } else {
            vstd::utf8::char_u32_cast(a[i], a[i] as u32);
            vstd::utf8::char_u32_cast(b[i], b[i] as u32);
        }
    } else if a.len() == b.len() {
        assert(a =~= b);
    }
}

/// No two tokens come before each other.
pub proof fn lemma_lex_asymmetric(a: Seq<char>, b: Seq<char>, i: int)
    requires
        0 <= i,
        lex_lt_from(a, b, i),
    ensures
        !lex_lt_from(b, a, i),
    decreases a.len() - i,
{
    if i < a.len() && i < b.len() && a[i] == b[i] {
        lemma_lex_asymmetric(a, b, i + 1);
    }
}

} // verus!
