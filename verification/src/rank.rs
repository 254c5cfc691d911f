//! Ranking of extension tokens by how many files carry each.

use vstd::prelude::*;
use vstd::string::*;
use crate::sorted::{distinct_tokens, same_elements, sorted_tokens, strictly_sorted, texts};
use crate::sorted::{lemma_sorted_tokens, lemma_sorted_unique};
use crate::token::{classify, classify_spec, lex_lt, token_order, Order};
use crate::token::{lemma_lex_irreflexive, lemma_lex_transitive};

verus! {

/// A regular file: the directory it lies in and its name there.
#[derive(Clone, Debug)]
pub struct FileEntry {
    pub parent: String,
    pub name: String,
}

/// The tokens of a sequence of files, one per file and in the same order.
pub open spec fn file_tokens(files: Seq<FileEntry>) -> Seq<Seq<char>> {
    Seq::new(files.len(), |i: int| classify_spec(files[i].name@))
}

/// The token of each file, in the order of the files.
pub fn classify_all(files: &Vec<FileEntry>) -> (r: Vec<String>)
    ensures
        texts(r@) == file_tokens(files@),
        r@.len() == files@.len(),
{
    let mut out: Vec<String> = Vec::new();
    let n: usize = files.len();
    let mut i: usize = 0;
    while i < n
        invariant
            i <= n,
            n == files@.len(),
            out@.len() == i,
            forall|k: int| 0 <= k < i ==> (#[trigger] out@[k])@ == classify_spec(files@[k].name@),
        decreases n - i,
    {
        out.push(classify(files[i].name.as_str()));
        i = i + 1;
    }
    assert(texts(out@) =~= file_tokens(files@));
    out
}

/// The different extension tokens of `files`, in order and each once.
pub fn get_file_extensions(files: &Vec<FileEntry>) -> (r: Vec<String>)
    ensures
        strictly_sorted(texts(r@)),
        same_elements(texts(r@), file_tokens(files@)),
        texts(r@) == sorted_tokens(file_tokens(files@)),
        r@.len() <= files@.len(),
{
    let tokens = classify_all(files);
    distinct_tokens(&tokens)
}

/// How often `t` occurs among the first `n` of `toks`.
pub open spec fn occurrences_upto(toks: Seq<Seq<char>>, t: Seq<char>, n: int) -> nat
    decreases n,
{
    if n <= 0 {
        0
    } else {
        occurrences_upto(toks, t, n - 1) + (if toks[n - 1] == t {
            1nat
        } else {
            0nat
        })
    }
}

/// How often `t` occurs in `toks`.
pub open spec fn occurrences(toks: Seq<Seq<char>>, t: Seq<char>) -> nat {
    occurrences_upto(toks, t, toks.len() as int)
}

/// The order of the ranking: the rarer token first, and of two equally
/// frequent ones the one that comes first as a text.
pub open spec fn ranks_before(toks: Seq<Seq<char>>, t: Seq<char>, u: Seq<char>) -> bool {
    occurrences(toks, t) < occurrences(toks, u) || (occurrences(toks, t) == occurrences(toks, u)
        && lex_lt(t, u))
}

/// How many of the first `n` of `d` do not rank before `t`.
pub open spec fn not_before_upto(toks: Seq<Seq<char>>, d: Seq<Seq<char>>, t: Seq<char>, n: int) -> nat
    decreases n,
{
    if n <= 0 {
        0
    } else {
        not_before_upto(toks, d, t, n - 1) + (if ranks_before(toks, d[n - 1], t) {
            0nat
        } else {
            1nat
        })
    }
}

/// The rank of `t` among the different tokens `d`: the number of them that
/// do not rank before it, itself included. The first of the ranking has the
/// highest rank, the number of different tokens; the last has rank 1.
pub open spec fn rank_among(toks: Seq<Seq<char>>, d: Seq<Seq<char>>, t: Seq<char>) -> nat {
    not_before_upto(toks, d, t, d.len() as int)
}

/// The character of a decimal digit.
pub open spec fn digit(d: nat) -> char {
    if d == 0 {
        '0'
    } else if d == 1 {
        '1'
    } else if d == 2 {
        '2'
    } else if d == 3 {
        '3'
    } else if d == 4 {
        '4'
    } else if d == 5 {
        '5'
    } else if d == 6 {
        '6'
    } else if d == 7 {
        '7'
    } else if d == 8 {
        '8'
    } else {
        '9'
    }
}

/// A number in decimal, without leading zeros.
pub open spec fn decimal(n: nat) -> Seq<char>
    decreases n,
{
    if n < 10 {
        seq![digit(n)]
    } else {
        decimal(n / 10).push(digit(n % 10))
    }
}

/// The folder of a token: its rank, a hyphen, the token.
pub open spec fn folder_name(rank: nat, token: Seq<char>) -> Seq<char> {
    decimal(rank) + seq!['-'] + token
}

/// All tokens are one and the same; true of no token at all.
pub open spec fn all_same(toks: Seq<Seq<char>>) -> bool {
    forall|i: int, j: int| 0 <= i < toks.len() && 0 <= j < toks.len() ==> toks[i] == toks[j]
}

/// The rank of `t` among the different tokens of `toks`.
pub open spec fn rank_of(toks: Seq<Seq<char>>, t: Seq<char>) -> nat {
    rank_among(toks, sorted_tokens(toks), t)
}

/// The ranking of `toks`: each token with the folder of its rank, or
/// nothing where all tokens are the same.
pub open spec fn ranking(toks: Seq<Seq<char>>) -> Map<Seq<char>, Seq<char>> {
    if all_same(toks) {
        Map::empty()
    } else {
        Map::new(|t: Seq<char>| toks.contains(t), |t: Seq<char>| folder_name(rank_of(toks, t), t))
    }
}

/// A token and the folder its files go to.
#[derive(Clone, Debug)]
pub struct RankedFolder {
    pub token: String,
    pub folder: String,
}

/// The folder of each token, the tokens in order and each once.
#[derive(Clone, Debug)]
pub struct RankedFolderMap {
    pub entries: Vec<RankedFolder>,
}

impl View for RankedFolderMap {
    type V = Map<Seq<char>, Seq<char>>;

    open spec fn view(&self) -> Map<Seq<char>, Seq<char>> {
        Map::new(
            |t: Seq<char>| self.tokens().contains(t),
            |t: Seq<char>| self.folders()[self.tokens().index_of(t)],
        )
    }
}

impl RankedFolderMap {
    /// The tokens, in the order of the entries.
    pub open spec fn tokens(&self) -> Seq<Seq<char>> {
        Seq::new(self.entries@.len(), |i: int| self.entries@[i].token@)
    }

    /// The folders, in the order of the entries.
    pub open spec fn folders(&self) -> Seq<Seq<char>> {
        Seq::new(self.entries@.len(), |i: int| self.entries@[i].folder@)
    }

    /// The tokens are in order, so none has two folders.
    pub open spec fn wf(&self) -> bool {
        strictly_sorted(self.tokens())
    }

    /// The entries are the ranking of `toks`: one entry for each different
    /// token, with the folder that its rank gives it.
    pub open spec fn ranks(&self, toks: Seq<Seq<char>>) -> bool {
        &&& strictly_sorted(self.tokens())
        &&& same_elements(self.tokens(), toks)
        &&& forall|i: int|
            0 <= i < self.entries@.len() ==> #[trigger] self.folders()[i] == folder_name(
                rank_among(toks, self.tokens(), self.tokens()[i]),
                self.tokens()[i],
            )
    }

    /// The number of tokens.
    pub fn len(&self) -> (r: usize)
        ensures
            r == self.entries@.len(),
    {
        self.entries.len()
    }

    /// Whether there is no token, and so nothing to sort.
    pub fn is_empty(&self) -> (r: bool)
        ensures
            r == (self.entries@.len() == 0),
    {
        self.entries.len() == 0
    }

    /// The folders, in the order of the tokens.
    pub fn folder_names(&self) -> (r: Vec<String>)
        ensures
            texts(r@) == self.folders(),
            r@.len() == self.entries@.len(),
    {
        let mut out: Vec<String> = Vec::new();
        let n: usize = self.entries.len();
        let mut i: usize = 0;
        while i < n
            invariant
                i <= n,
                n == self.entries@.len(),
                out@.len() == i,
                forall|j: int| 0 <= j < i ==> (#[trigger] out@[j])@ == self.entries@[j].folder@,
            decreases n - i,
        {
            out.push(self.entries[i].folder.clone());
            i = i + 1;
        }
        assert(texts(out@) =~= self.folders());
        out
    }

    /// The folder of `token`, if it has one.
    pub fn get(&self, token: &str) -> (r: Option<String>)
        requires
            self.wf(),
        ensures
            r.is_some() == self@.contains_key(token@),
            r.is_some() ==> r.unwrap()@ == self@[token@],
    {
        let n: usize = self.entries.len();
        let mut i: usize = 0;
        while i < n
            invariant
                i <= n,
                n == self.entries@.len(),
                self.wf(),
                forall|j: int| 0 <= j < i ==> #[trigger] self.tokens()[j] != token@,
            decreases n - i,
        {
            match token_order(self.entries[i].token.as_str(), token) {
                Order::Same => {
                    proof {
                        assert(self.tokens()[i as int] == token@);
                        let k = self.tokens().index_of(token@);
                        assert(0 <= k < n && self.tokens()[k] == token@);
                        if k != i {
                            lemma_lex_irreflexive(token@, 0);
                            if k < i {
                                assert(lex_lt(self.tokens()[k], self.tokens()[i as int]));
                            } else {
                                assert(lex_lt(self.tokens()[i as int], self.tokens()[k]));
                            }
                        }
                    }
                    return Some(self.entries[i].folder.clone());
                },
                _ => {},
            }
            i = i + 1;
        }
        None
    }
}

/// A sequence of tokens has at most one different token exactly if all
/// its tokens are the same.
pub proof fn lemma_all_same(toks: Seq<Seq<char>>, d: Seq<Seq<char>>)
    requires
        strictly_sorted(d),
        same_elements(d, toks),
    ensures
        all_same(toks) <==> d.len() <= 1,
{
    if d.len() >= 2 {
        assert(d.contains(d[0]));
        assert(d.contains(d[1]));
        assert(toks.contains(d[0]));
        assert(toks.contains(d[1]));
        let i = choose|i: int| 0 <= i < toks.len() && toks[i] == d[0];
        let j = choose|j: int| 0 <= j < toks.len() && toks[j] == d[1];
        assert(lex_lt(d[0], d[1]));
        lemma_lex_irreflexive(d[0], 0);
        assert(toks[i] != toks[j]);
    } else {
        assert forall|i: int, j: int| 0 <= i < toks.len() && 0 <= j < toks.len() implies toks[i]
            == toks[j] by {
            assert(toks.contains(toks[i]));
            assert(toks.contains(toks[j]));
            assert(d.contains(toks[i]));
            assert(d.contains(toks[j]));
        }
    }
}

/// Entries that are the ranking of `toks` hold the different tokens of
/// `toks` in their one order and, unless all tokens are the same, the map
/// `ranking(toks)`.
pub proof fn lemma_ranks_is_ranking(toks: Seq<Seq<char>>, r: RankedFolderMap)
    requires
        r.ranks(toks),
    ensures
        r.tokens() == sorted_tokens(toks),
        !all_same(toks) ==> r@ == ranking(toks),
{
    let d = r.tokens();
    let s = sorted_tokens(toks);
    assert(strictly_sorted(d) && same_elements(d, toks));
    assert(strictly_sorted(s) && same_elements(s, toks));
    lemma_sorted_unique(d, s);
    if !all_same(toks) {
        assert forall|t: Seq<char>| r@.contains_key(t) implies #[trigger] r@[t] == ranking(
            toks,
        )[t] by {
            let k = d.index_of(t);
            assert(0 <= k < d.len() && d[k] == t);
            assert(r.folders()[k] == folder_name(rank_among(toks, d, d[k]), d[k]));
        }
        assert(r@ =~= ranking(toks));
    }
}

/// Ranking is a function of the tokens: two rankings of the same tokens
/// agree in every token and every folder.
pub proof fn lemma_rank_deterministic(toks: Seq<Seq<char>>, a: RankedFolderMap, b: RankedFolderMap)
    requires
        a.ranks(toks),
        b.ranks(toks),
    ensures
        a.tokens() == b.tokens(),
        a.folders() == b.folders(),
        a@ == b@,
{
    lemma_sorted_unique(a.tokens(), b.tokens());
    assert(a.folders() =~= b.folders());
    assert(a@ =~= b@);
}

/// The ranking is empty exactly where the tokens are none or all the same,
/// that is where there is at most one different token.
pub proof fn lemma_empty_ranking(toks: Seq<Seq<char>>)
    ensures
        all_same(toks) <==> sorted_tokens(toks).len() <= 1,
        all_same(toks) ==> ranking(toks) == Map::<Seq<char>, Seq<char>>::empty(),
        !all_same(toks) ==> ranking(toks).dom().contains(toks[0]),
{
    lemma_sorted_tokens(toks);
    lemma_all_same(toks, sorted_tokens(toks));
    if !all_same(toks) {
        assert(toks.len() > 0);
        assert(toks.contains(toks[0]));
    }
}

/// A token occurs among the first `n` exactly if its number of occurrences
/// there is not zero.
pub proof fn lemma_occurs(toks: Seq<Seq<char>>, t: Seq<char>, n: int)
    requires
        0 <= n <= toks.len(),
    ensures
        occurrences_upto(toks, t, n) > 0 <==> exists|k: int| 0 <= k < n && toks[k] == t,
    decreases n,
{
    if n > 0 {
        lemma_occurs(toks, t, n - 1);
        if exists|k: int| 0 <= k < n - 1 && toks[k] == t {
            let k = choose|k: int| 0 <= k < n - 1 && toks[k] == t;
            assert(0 <= k < n && toks[k] == t);
        }
        if exists|k: int| 0 <= k < n && toks[k] == t {
            let k = choose|k: int| 0 <= k < n && toks[k] == t;
            if k < n - 1 {
                assert(0 <= k < n - 1 && toks[k] == t);
            }
        }
    }
}

/// Ranks among `d` are the same for two sequences in which every token
/// occurs equally often.
pub proof fn lemma_rank_by_occurrences(
    a: Seq<Seq<char>>,
    b: Seq<Seq<char>>,
    d: Seq<Seq<char>>,
    t: Seq<char>,
    n: int,
)
    requires
        forall|x: Seq<char>| occurrences(a, x) == occurrences(b, x),
    ensures
        not_before_upto(a, d, t, n) == not_before_upto(b, d, t, n),
    decreases n,
{
    if n > 0 {
        lemma_rank_by_occurrences(a, b, d, t, n - 1);
    }
}

/// The ranking does not depend on the order of the tokens: two sequences in
/// which every token occurs equally often have the same ranking.
pub proof fn lemma_ranking_ignores_order(a: Seq<Seq<char>>, b: Seq<Seq<char>>)
    requires
        forall|x: Seq<char>| occurrences(a, x) == occurrences(b, x),
    ensures
        sorted_tokens(a) == sorted_tokens(b),
        all_same(a) == all_same(b),
        ranking(a) == ranking(b),
{
    assert forall|x: Seq<char>| a.contains(x) <==> b.contains(x) by {
        lemma_occurs(a, x, a.len() as int);
        lemma_occurs(b, x, b.len() as int);
        assert(occurrences(a, x) == occurrences(b, x));
    }
    lemma_sorted_tokens(a);
    lemma_sorted_tokens(b);
    let d = sorted_tokens(a);
    assert(same_elements(d, b));
    lemma_sorted_unique(d, sorted_tokens(b));
    lemma_all_same(a, d);
    lemma_all_same(b, d);
    if !all_same(a) {
        assert forall|t: Seq<char>| rank_of(a, t) == rank_of(b, t) by {
            lemma_rank_by_occurrences(a, b, d, t, d.len() as int);
        }
        assert(ranking(a) =~= ranking(b));
    }
}

/// The decimal form of a number is not empty and holds no hyphen.
pub proof fn lemma_decimal_digits(n: nat)
    ensures
        decimal(n).len() >= 1,
        forall|j: int| 0 <= j < decimal(n).len() ==> decimal(n)[j] != '-',
    decreases n,
{
    if n >= 10 {
        lemma_decimal_digits(n / 10);
    }
}

/// A folder's name tells its token: two folders with the same name have
/// the same token and the same rank in decimal.
pub proof fn lemma_folder_tells_token(r1: nat, t1: Seq<char>, r2: nat, t2: Seq<char>)
    requires
        folder_name(r1, t1) == folder_name(r2, t2),
    ensures
        t1 == t2,
        decimal(r1) == decimal(r2),
{
    lemma_decimal_digits(r1);
    lemma_decimal_digits(r2);
    let f1 = folder_name(r1, t1);
    let f2 = folder_name(r2, t2);
    let k1 = decimal(r1).len() as int;
    let k2 = decimal(r2).len() as int;
    assert(f1[k1] == '-');
    assert(f2[k2] == '-');
    if k1 < k2 {
        assert(f2[k1] == decimal(r2)[k1]);
    }
    if k2 < k1 {
        assert(f1[k2] == decimal(r1)[k2]);
    }
    assert(t1 =~= f1.subrange(k1 + 1, f1.len() as int));
    assert(t2 =~= f2.subrange(k2 + 1, f2.len() as int));
    assert(decimal(r1) =~= f1.subrange(0, k1));
    assert(decimal(r2) =~= f2.subrange(0, k2));
}

/// In a ranking no two tokens share a folder: there are as many different
/// folders as different tokens.
pub proof fn lemma_folders_differ(toks: Seq<Seq<char>>, r: RankedFolderMap, i: int, j: int)
    requires
        r.ranks(toks),
        0 <= i < j < r.entries@.len(),
    ensures
        r.folders()[i] != r.folders()[j],
{
    let d = r.tokens();
    assert(lex_lt(d[i], d[j]));
    lemma_lex_irreflexive(d[i], 0);
    if r.folders()[i] == r.folders()[j] {
        lemma_folder_tells_token(
            rank_among(toks, d, d[i]),
            d[i],
            rank_among(toks, d, d[j]),
            d[j],
        );
    }
}

/// The occurrences of a token among the first `n` tokens are its count in
/// the multiset of those tokens.
pub proof fn lemma_occurrences_count(toks: Seq<Seq<char>>, t: Seq<char>, n: int)
    requires
        0 <= n <= toks.len(),
    ensures
        occurrences_upto(toks, t, n) == toks.take(n).to_multiset().count(t),
    decreases n,
{
    broadcast use vstd::multiset::group_multiset_axioms;

    if n == 0 {
        assert(toks.take(0) =~= Seq::<Seq<char>>::empty());
        toks.take(0).to_multiset_ensures();
        assert(toks.take(0).to_multiset().len() == 0);
    } else {
        lemma_occurrences_count(toks, t, n - 1);
        assert(toks.take(n) =~= toks.take(n - 1).push(toks[n - 1]));
        vstd::seq_lib::to_multiset_build(toks.take(n - 1), toks[n - 1]);
    }
}

/// The ranking is a function of the multiset of tokens: sequences that are
/// rearrangements of each other have the same ranking.
pub proof fn lemma_ranking_of_multiset(a: Seq<Seq<char>>, b: Seq<Seq<char>>)
    requires
        a.to_multiset() == b.to_multiset(),
    ensures
        ranking(a) == ranking(b),
{
    assert forall|x: Seq<char>| occurrences(a, x) == occurrences(b, x) by {
        lemma_occurrences_count(a, x, a.len() as int);
        lemma_occurrences_count(b, x, b.len() as int);
        assert(a.take(a.len() as int) =~= a);
        assert(b.take(b.len() as int) =~= b);
    }
    lemma_ranking_ignores_order(a, b);
}

/// Every rank lies between 1 and the number of different tokens.
pub proof fn lemma_rank_bounds(toks: Seq<Seq<char>>, d: Seq<Seq<char>>, i: int, n: int)
    requires
        0 <= i < d.len(),
        0 <= n <= d.len(),
    ensures
        not_before_upto(toks, d, d[i], n) <= n,
        i < n ==> 1 <= not_before_upto(toks, d, d[i], n),
    decreases n,
{
    if n > 0 {
        lemma_rank_bounds(toks, d, i, n - 1);
        if i == n - 1 {
            lemma_lex_irreflexive(d[i], 0);
        }
    }
}

/// The order of the ranking is transitive.
pub proof fn lemma_ranks_before_transitive(
    toks: Seq<Seq<char>>,
    a: Seq<char>,
    b: Seq<char>,
    c: Seq<char>,
)
    requires
        ranks_before(toks, a, b),
        ranks_before(toks, b, c),
    ensures
        ranks_before(toks, a, c),
{
    if lex_lt(a, b) && lex_lt(b, c) {
        lemma_lex_transitive(a, b, c, 0);
    }
}

/// Among the first `n` different tokens, no fewer stand at or after the
/// token that ranks first of two than at or after the other; and one more
/// at least, once the first of the two is among them.
pub proof fn lemma_rank_monotone(toks: Seq<Seq<char>>, d: Seq<Seq<char>>, i: int, j: int, n: int)
    requires
        0 <= i < d.len(),
        0 <= j < d.len(),
        0 <= n <= d.len(),
        ranks_before(toks, d[i], d[j]),
    ensures
        not_before_upto(toks, d, d[i], n) >= not_before_upto(toks, d, d[j], n),
        i < n ==> not_before_upto(toks, d, d[i], n) > not_before_upto(toks, d, d[j], n),
    decreases n,
{
    if n > 0 {
        lemma_rank_monotone(toks, d, i, j, n - 1);
        let v = d[n - 1];
        if ranks_before(toks, v, d[i]) {
            lemma_ranks_before_transitive(toks, v, d[i], d[j]);
        }
        if i == n - 1 {
            lemma_lex_irreflexive(d[i], 0);
        }
    }
}

/// The rarer of two tokens has the higher rank, and of two equally frequent
/// ones the one that comes first as a text: ranks fall along the order of
/// the ranking, from the number of different tokens down to 1.
pub proof fn lemma_rank_order(toks: Seq<Seq<char>>, d: Seq<Seq<char>>, i: int, j: int)
    requires
        0 <= i < d.len(),
        0 <= j < d.len(),
        ranks_before(toks, d[i], d[j]),
    ensures
        rank_among(toks, d, d[i]) > rank_among(toks, d, d[j]),
        1 <= rank_among(toks, d, d[j]),
        rank_among(toks, d, d[i]) <= d.len(),
{
    lemma_rank_monotone(toks, d, i, j, d.len() as int);
    lemma_rank_bounds(toks, d, i, d.len() as int);
    lemma_rank_bounds(toks, d, j, d.len() as int);
}

/// How often `t` occurs in `tokens`.
pub fn count_token(tokens: &Vec<String>, t: &str) -> (r: usize)
    ensures
        r == occurrences(texts(tokens@), t@),
{
    let n: usize = tokens.len();
    let mut c: usize = 0;
    let mut i: usize = 0;
    while i < n
        invariant
            i <= n,
            n == tokens@.len(),
            c <= i,
            c == occurrences_upto(texts(tokens@), t@, i as int),
        decreases n - i,
    {
        match token_order(tokens[i].as_str(), t) {
            Order::Same => {
                c = c + 1;
            },
            _ => {},
        }
        i = i + 1;
    }
    c
}

/// The text of one decimal digit.
fn digit_text(d: usize) -> (r: &'static str)
    requires
        d < 10,
    ensures
        r@ == seq![digit(d as nat)],
{
    proof {
        reveal_strlit("0");
        reveal_strlit("1");
        reveal_strlit("2");
        reveal_strlit("3");
        reveal_strlit("4");
        reveal_strlit("5");
        reveal_strlit("6");
        reveal_strlit("7");
        reveal_strlit("8");
        reveal_strlit("9");
    }
    let r = if d == 0 {
        "0"
    } else if d == 1 {
        "1"
    } else if d == 2 {
        "2"
    } else if d == 3 {
        "3"
    } else if d == 4 {
        "4"
    } else if d == 5 {
        "5"
    } else if d == 6 {
        "6"
    } else if d == 7 {
        "7"
    } else if d == 8 {
        "8"
    } else {
        "9"
    };
    assert(r@ =~= seq![digit(d as nat)]);
    r
}

/// A number written in decimal.
pub fn decimal_text(n: usize) -> (r: String)
    ensures
        r@ == decimal(n as nat),
    decreases n,
{
    if n < 10 {
        String::from_str(digit_text(n))
    } else {
        let mut s = decimal_text(n / 10);
        s.append(digit_text(n % 10));
        assert(s@ =~= decimal(n as nat));
        s
    }
}

/// The rank of the token at `i` among the different tokens `d`.
fn rank_at(d: &Vec<String>, counts: &Vec<usize>, i: usize, Ghost(toks): Ghost<Seq<Seq<char>>>) -> (r:
    usize)
    requires
        i < d@.len(),
        counts@.len() == d@.len(),
        forall|j: int|
            0 <= j < d@.len() ==> #[trigger] counts@[j] == occurrences(toks, texts(d@)[j]),
    ensures
        r == rank_among(toks, texts(d@), texts(d@)[i as int]),
        r <= d@.len(),
{
    let k: usize = d.len();
    let mut rank: usize = 0;
    let mut j: usize = 0;
    while j < k
        invariant
            j <= k,
            k == d@.len(),
            i < k,
            counts@.len() == k,
            rank <= j,
            forall|j: int|
                0 <= j < d@.len() ==> #[trigger] counts@[j] == occurrences(toks, texts(d@)[j]),
            rank == not_before_upto(toks, texts(d@), texts(d@)[i as int], j as int),
        decreases k - j,
    {
        let before = counts[j] < counts[i] || (counts[j] == counts[i] && token_order(
            d[j].as_str(),
            d[i].as_str(),
        ) == Order::Before);
        assert(before == ranks_before(toks, texts(d@)[j as int], texts(d@)[i as int]));
        if !before {
            rank = rank + 1;
        }
        j = j + 1;
    }
    rank
}

/// The folder of each token of `tokens`, by rank. Where all tokens are the
/// same there is nothing to sort, and the result is empty.
pub fn rank_tokens(tokens: &Vec<String>) -> (r: RankedFolderMap)
    ensures
        r.wf(),
        r@ == ranking(texts(tokens@)),
        all_same(texts(tokens@)) ==> r.entries@.len() == 0,
        !all_same(texts(tokens@)) ==> r.ranks(texts(tokens@)),
{
    let ghost toks = texts(tokens@);
    let d = distinct_tokens(tokens);
    let k: usize = d.len();
    proof {
        lemma_all_same(toks, texts(d@));
    }
    let mut entries: Vec<RankedFolder> = Vec::new();
    if k <= 1 {
        let r = RankedFolderMap { entries };
        assert(r.tokens() =~= Seq::<Seq<char>>::empty());
        assert(r@ =~= ranking(toks));
        return r;
    }
    let mut counts: Vec<usize> = Vec::new();
    let mut i: usize = 0;
    while i < k
        invariant
            i <= k,
            k == d@.len(),
            toks == texts(tokens@),
            counts@.len() == i,
            forall|j: int| 0 <= j < i ==> #[trigger] counts@[j] == occurrences(toks, texts(d@)[j]),
        decreases k - i,
    {
        counts.push(count_token(tokens, d[i].as_str()));
        i = i + 1;
    }
    i = 0;
    while i < k
        invariant
            i <= k,
            k == d@.len(),
            counts@.len() == k,
            entries@.len() == i,
            forall|j: int| 0 <= j < k ==> #[trigger] counts@[j] == occurrences(toks, texts(d@)[j]),
            forall|j: int| 0 <= j < i ==> (#[trigger] entries@[j]).token@ == texts(d@)[j],
            forall|j: int|
                0 <= j < i ==> (#[trigger] entries@[j]).folder@ == folder_name(
                    rank_among(toks, texts(d@), texts(d@)[j]),
                    texts(d@)[j],
                ),
        decreases k - i,
    {
        let rank = rank_at(&d, &counts, i, Ghost(toks));
        let mut folder = decimal_text(rank);
        proof {
            reveal_strlit("-");
            assert("-"@ =~= seq!['-']);
        }
        folder.append("-");
        folder.append(d[i].as_str());
        entries.push(RankedFolder { token: d[i].clone(), folder });
        i = i + 1;
    }
    let r = RankedFolderMap { entries };
    proof {
        assert(r.tokens() =~= texts(d@));
        lemma_ranks_is_ranking(toks, r);
    }
    r
}

/// The folder of each extension token of `files`, by rank. Where the files
/// have at most one token between them the result is empty.
pub fn get_file_ext_names(files: &Vec<FileEntry>) -> (r: RankedFolderMap)
    ensures
        r.wf(),
        r@ == ranking(file_tokens(files@)),
        all_same(file_tokens(files@)) ==> r.entries@.len() == 0,
        !all_same(file_tokens(files@)) ==> r.ranks(file_tokens(files@)),
{
    let tokens = classify_all(files);
    rank_tokens(&tokens)
}

} // verus!
