//! The order in which tokens take their passes: longer tokens first, tokens
//! of one length in lexicographic order.

use vstd::prelude::*;
use crate::segment::{string_texts, strings_of, symbols_of, texts_of};
use crate::segment_laws::longest_first;
use crate::text::{
    chars_of_str, comes_before, lemma_lex_total, lemma_lex_transitive, lex_less, same_chars,
};

verus! {

/// `a` takes its pass before `b`: it is longer, or as long and
/// lexicographically smaller.
pub open spec fn outranks(a: Seq<char>, b: Seq<char>) -> bool {
    a.len() > b.len() || (a.len() == b.len() && lex_less(a, b))
}

/// No token of the list outranks one that stands before it.
pub open spec fn ranked(vocab: Seq<Seq<char>>) -> bool {
    forall|i: int, j: int|
        0 <= i < j < vocab.len() ==> !outranks(#[trigger] vocab[j], #[trigger] vocab[i])
}

/// Of two different texts exactly one outranks the other.
pub proof fn lemma_outranks_total(a: Seq<char>, b: Seq<char>)
    ensures
        outranks(a, b) || outranks(b, a) || a == b,
        !(outranks(a, b) && outranks(b, a)),
        a == b ==> !outranks(a, b),
{
    lemma_lex_total(a, b);
}

/// Rank carries over: what outranks a text outranks all that the text
/// outranks.
pub proof fn lemma_outranks_transitive(a: Seq<char>, b: Seq<char>, c: Seq<char>)
    requires
        outranks(a, b),
        outranks(b, c),
    ensures
        outranks(a, c),
{
    if a.len() == b.len() && b.len() == c.len() {
        lemma_lex_transitive(a, b, c);
    }
}

/// A ranked list never has a token before a longer one.
pub proof fn lemma_ranked_longest_first(vocab: Seq<Seq<char>>)
    requires
        ranked(vocab),
    ensures
        longest_first(vocab),
{
    assert forall|a: int, b: int| 0 <= a <= b < vocab.len() implies (#[trigger] vocab[a]).len() >= (
    #[trigger] vocab[b]).len() by {
        if a < b {
            assert(!outranks(vocab[b], vocab[a]));
        }
    }
}

/// A ranked list is the only ranked list of its tokens: two ranked lists that
/// hold the same tokens, each as often as the other, are the same list.
pub proof fn lemma_ranked_unique(a: Seq<Seq<char>>, b: Seq<Seq<char>>)
    requires
        ranked(a),
        ranked(b),
        a.to_multiset() == b.to_multiset(),
    ensures
        a == b,
    decreases a.len(),
{
    broadcast use vstd::seq_lib::group_to_multiset_ensures;

    a.to_multiset_ensures();
    b.to_multiset_ensures();
    assert(a.len() == b.len());
    if a.len() > 0 {
        let x = a[0];
        let y = b[0];
        assert(a.to_multiset().count(x) > 0);
        assert(b.contains(x));
        assert(a.contains(y)) by {
            assert(b.to_multiset().count(y) > 0);
        }
        let i = choose|i: int| 0 <= i < b.len() && b[i] == x;
        let j = choose|j: int| 0 <= j < a.len() && a[j] == y;
        if i > 0 {
            assert(!outranks(b[i], b[0]));
        }
        if j > 0 {
            assert(!outranks(a[j], a[0]));
        }
        lemma_outranks_total(x, y);
        assert(x == y);
        assert(a.drop_first() =~= a.remove(0));
        assert(b.drop_first() =~= b.remove(0));
        vstd::seq_lib::to_multiset_remove(a, 0);
        vstd::seq_lib::to_multiset_remove(b, 0);
        lemma_ranked_unique(a.drop_first(), b.drop_first());
        assert(a =~= seq![x] + a.drop_first());
        assert(b =~= seq![y] + b.drop_first());
    } else {
        assert(a =~= b);
    }
}

/// Whether `a` outranks `b`.
pub fn takes_precedence(a: &Vec<char>, b: &Vec<char>) -> (r: bool)
    ensures
        r == outranks(a@, b@),
{
    if a.len() != b.len() {
        a.len() > b.len()
    } else {
        comes_before(a, b)
    }
}

/// Puts the tokens in ranked order. The result holds each token as often as
/// `tokens` does.
pub fn rank_tokens(tokens: Vec<Vec<char>>) -> (sorted: Vec<Vec<char>>)
    ensures
        ranked(texts_of(sorted@)),
        texts_of(sorted@).to_multiset() == texts_of(tokens@).to_multiset(),
{
    broadcast use vstd::seq_lib::group_to_multiset_ensures;

    let ghost given = texts_of(tokens@);
    let mut rest = tokens;
    let mut sorted: Vec<Vec<char>> = Vec::new();
    assert(texts_of(sorted@).to_multiset().add(texts_of(rest@).to_multiset())
        =~= given.to_multiset());
    while rest.len() > 0
        invariant
            ranked(texts_of(sorted@)),
            texts_of(sorted@).to_multiset().add(texts_of(rest@).to_multiset())
                == given.to_multiset(),
        decreases rest.len(),
    {
        let ghost rest_before = texts_of(rest@);
        let ghost sorted_before = texts_of(sorted@);
        let token = rest.pop().unwrap();
        assert(rest_before =~= texts_of(rest@).push(token@));
        let mut p: usize = 0;
        while p < sorted.len() && !takes_precedence(&token, &sorted[p])
            invariant
                p <= sorted.len(),
                forall|q: int| 0 <= q < p ==> !outranks(token@, #[trigger] sorted@[q]@),
            decreases sorted.len() - p,
        {
            p += 1;
        }
        sorted.insert(p, token);
        proof {
            let now = texts_of(sorted@);
            assert(now =~= sorted_before.insert(p as int, token@));
            vstd::seq_lib::to_multiset_insert(sorted_before, p as int, token@);
            vstd::seq_lib::to_multiset_build(texts_of(rest@), token@);
            assert(now.to_multiset().add(texts_of(rest@).to_multiset())
                =~= sorted_before.to_multiset().add(rest_before.to_multiset()));
            assert forall|i: int, j: int| 0 <= i < j < now.len() implies !outranks(
                #[trigger] now[j],
                #[trigger] now[i],
            ) by {
                if j == p {
                    assert(now[i] == sorted_before[i]);
                } else if i == p {
                    assert(now[j] == sorted_before[j - 1]);
                    if outranks(now[j], token@) {
                        lemma_outranks_transitive(now[j], token@, sorted_before[p as int]);
                        lemma_outranks_total(now[j], token@);
                        if j - 1 > p {
                            assert(!outranks(sorted_before[j - 1], sorted_before[p as int]));
                        }
                    }
                } else {
                    let oi = if i < p { i } else { i - 1 };
                    let oj = if j < p { j } else { j - 1 };
                    assert(now[i] == sorted_before[oi]);
                    assert(now[j] == sorted_before[oj]);
                    assert(!outranks(sorted_before[oj], sorted_before[oi]));
                }
            }
        }
    }
    assert(texts_of(rest@) =~= Seq::<Seq<char>>::empty());
    assert(texts_of(sorted@).to_multiset().add(texts_of(rest@).to_multiset())
        =~= texts_of(sorted@).to_multiset());
    sorted
}

/// `i` is the least index at which `text` stands in the list.
pub open spec fn holds_first(tokens: Seq<Seq<char>>, text: Seq<char>, i: int) -> bool {
    &&& 0 <= i < tokens.len()
    &&& tokens[i] == text
    &&& forall|k: int| 0 <= k < i ==> tokens[k] != text
}

/// The least index at which `text` stands in the list, if it stands there.
pub open spec fn first_index(tokens: Seq<Seq<char>>, text: Seq<char>) -> Option<int> {
    if exists|i: int| holds_first(tokens, text, i) {
        Some(choose|i: int| holds_first(tokens, text, i))
    } else {
        None
    }
}

/// There is at most one least index of a text, and none where the text does
/// not stand in the list.
pub proof fn lemma_first_index(tokens: Seq<Seq<char>>, text: Seq<char>)
    ensures
        forall|i: int| holds_first(tokens, text, i) ==> first_index(tokens, text) == Some(i),
        (forall|k: int| 0 <= k < tokens.len() ==> tokens[k] != text) ==> first_index(tokens, text)
            is None,
{
    assert forall|i: int| holds_first(tokens, text, i) implies first_index(tokens, text) == Some(
        i,
    ) by {
        let j = choose|j: int| holds_first(tokens, text, j);
        assert(holds_first(tokens, text, j));
        if j < i {
            assert(tokens[j] != text);
        }
        if i < j {
            assert(tokens[i] != text);
        }
    }
}

/// A vocabulary in ranked order. A token is known by its index in that
/// order.
pub struct Ranked {
    vocab: Vec<String>,
    symbols: Vec<Vec<char>>,
}

impl Ranked {
    /// The texts of the tokens, in ranked order.
    pub closed spec fn tokens(&self) -> Seq<Seq<char>> {
        string_texts(self.vocab@)
    }

    /// The tokens stand in ranked order, and each has its characters at hand.
    pub closed spec fn wf(&self) -> bool {
        &&& texts_of(self.symbols@) == string_texts(self.vocab@)
        &&& ranked(self.tokens())
    }

    /// The tokens of a well-formed vocabulary stand in ranked order, so that
    /// none stands before a longer one.
    pub proof fn lemma_wf(&self)
        requires
            self.wf(),
        ensures
            ranked(self.tokens()),
            longest_first(self.tokens()),
            self.tokens().len() <= usize::MAX,
    {
        lemma_ranked_longest_first(self.tokens());
        assert(self.tokens().len() == self.vocab.len());
    }

    /// The given tokens in ranked order.
    pub fn new(tokens: Vec<String>) -> (r: Ranked)
        ensures
            r.wf(),
            ranked(r.tokens()),
            r.tokens().to_multiset() == string_texts(tokens@).to_multiset(),
    {
        let symbols = rank_tokens(symbols_of(&tokens));
        let vocab = strings_of(&symbols);
        Ranked { vocab, symbols }
    }

    /// The vocabulary without tokens.
    pub fn empty() -> (r: Ranked)
        ensures
            r.wf(),
            r.tokens().len() == 0,
    {
        let r = Ranked { vocab: Vec::new(), symbols: Vec::new() };
        assert(texts_of(r.symbols@) =~= string_texts(r.vocab@));
        r
    }

    /// The number of tokens.
    pub fn len(&self) -> (n: usize)
        ensures
            n == self.tokens().len(),
    {
        self.vocab.len()
    }

    /// The text of the token with index `id`.
    pub fn token(&self, id: usize) -> (text: &String)
        requires
            id < self.tokens().len(),
        ensures
            text@ == self.tokens()[id as int],
    {
        &self.vocab[id]
    }

    /// The texts of the tokens, in ranked order.
    pub fn strings(&self) -> (list: &Vec<String>)
        ensures
            string_texts(list@) == self.tokens(),
    {
        &self.vocab
    }

    /// The characters of the tokens, in ranked order.
    pub fn symbols(&self) -> (list: &Vec<Vec<char>>)
        requires
            self.wf(),
        ensures
            texts_of(list@) == self.tokens(),
    {
        &self.symbols
    }

    /// The index of the first token whose text is `token`.
    pub fn index_of(&self, token: &String) -> (found: Option<usize>)
        requires
            self.wf(),
        ensures
            match found {
                Some(i) => first_index(self.tokens(), token@) == Some(i as int) && i
                    < self.tokens().len(),
                None => first_index(self.tokens(), token@) is None,
            },
    {
        let wanted = chars_of_str(token.as_str());
        let mut i: usize = 0;
        proof {
            lemma_first_index(self.tokens(), token@);
        }
        while i < self.symbols.len()
            invariant
                i <= self.symbols.len(),
                self.wf(),
                wanted@ == token@,
                forall|k: int| 0 <= k < i ==> self.tokens()[k] != token@,
            decreases self.symbols.len() - i,
        {
            assert(texts_of(self.symbols@)[i as int] == self.symbols@[i as int]@);
            if same_chars(&self.symbols[i], &wanted) {
                assert(holds_first(self.tokens(), token@, i as int));
                return Some(i);
            }
            i += 1;
        }
        assert(self.symbols.len() == self.tokens().len()) by {
            assert(texts_of(self.symbols@).len() == self.symbols.len());
        }
        None
    }
}

/// `order` lists each index below `n` exactly once.
pub open spec fn lists_indices(order: Seq<usize>, n: nat) -> bool {
    &&& order.len() == n
    &&& forall|i: int| 0 <= i < order.len() ==> (#[trigger] order[i]) < n
    &&& forall|i: int, j: int| 0 <= i < j < order.len() ==> order[i] != order[j]
    &&& forall|id: usize| id < n ==> #[trigger] order.contains(id)
}

/// The token with index `x` goes before the token with index `y`: its text
/// is lexicographically smaller, or the texts are the same and `x` is the
/// smaller index.
pub open spec fn goes_before(tokens: Seq<Seq<char>>, x: usize, y: usize) -> bool {
    lex_less(tokens[x as int], tokens[y as int]) || (tokens[x as int] == tokens[y as int] && x
        < y)
}

/// Each index of the list goes before all that follow it.
pub open spec fn in_lex_order(tokens: Seq<Seq<char>>, order: Seq<usize>) -> bool {
    forall|i: int, j: int|
        0 <= i < j < order.len() ==> goes_before(tokens, #[trigger] order[i], #[trigger] order[j])
}

/// `order` lists the indices of the tokens, each once, in the lexicographic
/// order of their texts; tokens with the same text keep their order.
pub open spec fn lex_ordered(tokens: Seq<Seq<char>>, order: Seq<usize>) -> bool {
    lists_indices(order, tokens.len()) && in_lex_order(tokens, order)
}

/// Two lists in lexicographic order that hold the same indices are the same
/// list.
pub proof fn lemma_in_lex_order_unique(tokens: Seq<Seq<char>>, a: Seq<usize>, b: Seq<usize>)
    requires
        in_lex_order(tokens, a),
        in_lex_order(tokens, b),
        forall|x: usize| a.contains(x) <==> b.contains(x),
    ensures
        a == b,
    decreases a.len(),
{
    if a.len() == 0 {
        if b.len() > 0 {
            assert(b.contains(b[0]));
        }
        assert(a =~= b);
    } else {
        assert(a.contains(a[0]));
        assert(b.contains(a[0]));
        let i = choose|i: int| 0 <= i < b.len() && b[i] == a[0];
        assert(b.contains(b[0]));
        assert(a.contains(b[0]));
        let j = choose|j: int| 0 <= j < a.len() && a[j] == b[0];
        lemma_lex_total(tokens[a[0] as int], tokens[b[0] as int]);
        if i > 0 {
            assert(goes_before(tokens, b[0], b[i]));
        }
        if j > 0 {
            assert(goes_before(tokens, a[0], a[j]));
        }
        assert(a[0] == b[0]);
        let (ra, rb) = (a.drop_first(), b.drop_first());
        assert forall|x: usize| ra.contains(x) <==> rb.contains(x) by {
            lemma_lex_total(tokens[a[0] as int], tokens[x as int]);
            if ra.contains(x) {
                let q = choose|q: int| 0 <= q < ra.len() && ra[q] == x;
                assert(goes_before(tokens, a[0], a[q + 1]));
                assert(a.contains(x));
                assert(b.contains(x));
                let r = choose|r: int| 0 <= r < b.len() && b[r] == x;
                assert(rb[r - 1] == x);
            }
            if rb.contains(x) {
                let q = choose|q: int| 0 <= q < rb.len() && rb[q] == x;
                assert(goes_before(tokens, b[0], b[q + 1]));
                assert(b.contains(x));
                assert(a.contains(x));
                let r = choose|r: int| 0 <= r < a.len() && a[r] == x;
                assert(ra[r - 1] == x);
            }
        }
        assert forall|p: int, q: int| 0 <= p < q < ra.len() implies goes_before(
            tokens,
            #[trigger] ra[p],
            #[trigger] ra[q],
        ) by {
            assert(goes_before(tokens, a[p + 1], a[q + 1]));
        }
        assert forall|p: int, q: int| 0 <= p < q < rb.len() implies goes_before(
            tokens,
            #[trigger] rb[p],
            #[trigger] rb[q],
        ) by {
            assert(goes_before(tokens, b[p + 1], b[q + 1]));
        }
        lemma_in_lex_order_unique(tokens, ra, rb);
        assert(a =~= seq![a[0]] + ra);
        assert(b =~= seq![b[0]] + rb);
    }
}

/// There is one lexicographic order of the indices of a list of tokens.
pub proof fn lemma_lex_ordered_unique(tokens: Seq<Seq<char>>, a: Seq<usize>, b: Seq<usize>)
    requires
        lex_ordered(tokens, a),
        lex_ordered(tokens, b),
    ensures
        a == b,
{
    assert forall|x: usize| a.contains(x) <==> b.contains(x) by {
        if a.contains(x) {
            let i = choose|i: int| 0 <= i < a.len() && a[i] == x;
            assert(a[i] < tokens.len());
        }
        if b.contains(x) {
            let i = choose|i: int| 0 <= i < b.len() && b[i] == x;
            assert(b[i] < tokens.len());
        }
    }
    lemma_in_lex_order_unique(tokens, a, b);
}

/// The indices of the tokens in the lexicographic order of their texts;
/// tokens with the same text keep their order.
pub fn lex_order(tokens: &Vec<Vec<char>>) -> (order: Vec<usize>)
    ensures
        lex_ordered(texts_of(tokens@), order@),
{
    let ghost texts = texts_of(tokens@);
    let mut order: Vec<usize> = Vec::new();
    let mut k: usize = 0;
    while k < tokens.len()
        invariant
            k <= tokens.len(),
            texts == texts_of(tokens@),
            lists_indices(order@, k as nat),
            in_lex_order(texts, order@),
            forall|i: int, j: int|
                0 <= i < j < order.len() ==> !lex_less(
                    tokens@[order@[j] as int]@,
                    tokens@[order@[i] as int]@,
                ),
        decreases tokens.len() - k,
    {
        let ghost before = order@;
        let mut p: usize = 0;
        while p < order.len() && !comes_before(&tokens[k], &tokens[order[p]])
            invariant
                k < tokens.len(),
                p <= order.len(),
                forall|i: int| 0 <= i < order.len() ==> (#[trigger] order@[i]) < k,
                forall|q: int|
                    0 <= q < p ==> !lex_less(tokens@[k as int]@, tokens@[order@[q] as int]@),
            decreases order.len() - p,
        {
            p += 1;
        }
        order.insert(p, k);
        proof {
            let now = order@;
            assert forall|i: int| 0 <= i < now.len() implies (#[trigger] now[i]) < k + 1 by {
                if i < p {
                    assert(now[i] == before[i]);
                } else if i > p {
                    assert(now[i] == before[i - 1]);
                }
            }
            assert forall|i: int, j: int| 0 <= i < j < now.len() implies now[i] != now[j]
                && !lex_less(tokens@[now[j] as int]@, tokens@[now[i] as int]@) && goes_before(
                texts,
                #[trigger] now[i],
                #[trigger] now[j],
            ) by {
                lemma_lex_total(tokens@[now[i] as int]@, tokens@[now[j] as int]@);
                let oi = if i < p {
                    i
                } else {
                    i - 1
                };
                let oj = if j < p {
                    j
                } else {
                    j - 1
                };
                if j == p {
                    assert(now[i] == before[i]);
                    assert(before[i] < k);
                } else if i == p {
                    assert(now[j] == before[oj]);
                    let (a, b, c) = (
                        tokens@[before[oj] as int]@,
                        tokens@[k as int]@,
                        tokens@[before[p as int] as int]@,
                    );
                    lemma_lex_total(b, c);
                    lemma_lex_total(a, c);
                    if lex_less(a, b) {
                        lemma_lex_transitive(a, b, c);
                        lemma_lex_total(a, b);
                        if oj > p {
                            assert(!lex_less(a, c));
                        }
                    }
                    if oj > p {
                        assert(!lex_less(a, c));
                        assert(goes_before(texts, before[p as int], before[oj]));
                    }
                } else {
                    assert(now[i] == before[oi]);
                    assert(now[j] == before[oj]);
                    assert(goes_before(texts, before[oi], before[oj]));
                }
            }
            assert forall|id: usize| id < k + 1 implies #[trigger] now.contains(id) by {
                if id < k {
                    assert(before.contains(id));
                    let i = choose|i: int| 0 <= i < before.len() && before[i] == id;
                    if i < p {
                        assert(now[i] == id);
                    } else {
                        assert(now[i + 1] == id);
                    }
                } else {
                    assert(now[p as int] == id);
                }
            }
        }
        k += 1;
    }
    order
}

} // verus!
