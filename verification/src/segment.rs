//! The segmentation engine: every character slot of a text is claimed by at
//! most one token occurrence, tokens being tried in vocabulary order, and the
//! claimed runs are then collapsed into the sequence of token indices.

use vstd::prelude::*;

verus! {

/// What covers one character slot: the index of the token and the running
/// number of that token's accepted occurrence. `None` marks an uncovered slot.
pub type Tag = Option<(usize, usize)>;

/// One character of the text being segmented, with its tag.
pub type CharInfo = (char, Option<(usize, usize)>);

/// `token` stands in `text` at offset `at`.
pub open spec fn occurs_at(text: Seq<char>, token: Seq<char>, at: int) -> bool {
    &&& 0 <= at
    &&& at + token.len() <= text.len()
    &&& forall|j: int| 0 <= j < token.len() ==> text[at + j] == #[trigger] token[j]
}

/// No slot of `tags` in `at .. at + len` is covered yet.
pub open spec fn is_free(tags: Seq<Tag>, at: int, len: int) -> bool {
    forall|j: int| at <= j < at + len ==> (#[trigger] tags[j]) is None
}

/// `tags` after the slots `at .. at + len` have been given `tag`.
pub open spec fn claim(tags: Seq<Tag>, at: int, len: int, tag: (usize, usize)) -> Seq<Tag> {
    Seq::new(
        tags.len(),
        |j: int|
            if at <= j < at + len {
                Some(tag)
            } else {
                tags[j]
            },
    )
}

/// One token's pass over the text, from offset `from` rightwards. An occurrence
/// whose slots are all free is accepted: its slots get the tag `(id, count)`,
/// the pass goes on behind it and the count goes up. Any other offset is passed
/// over.
pub open spec fn scan_from(
    text: Seq<char>,
    token: Seq<char>,
    id: usize,
    tags: Seq<Tag>,
    from: int,
    count: nat,
) -> Seq<Tag>
    decreases text.len() - from,
{
    if token.len() == 0 || from < 0 || from + token.len() > text.len() {
        tags
    } else if occurs_at(text, token, from) && is_free(tags, from, token.len() as int) {
        scan_from(
            text,
            token,
            id,
            claim(tags, from, token.len() as int, (id, count as usize)),
            from + token.len(),
            count + 1,
        )
    } else {
        scan_from(text, token, id, tags, from + 1, count)
    }
}

/// The tags after the first `upto` tokens of `vocab` have each made their pass,
/// in vocabulary order, over a text that started out uncovered.
pub open spec fn tag_tokens(text: Seq<char>, vocab: Seq<Seq<char>>, upto: int) -> Seq<Tag>
    decreases upto,
{
    if upto <= 0 {
        Seq::new(text.len(), |j: int| None::<(usize, usize)>)
    } else {
        scan_from(
            text,
            vocab[upto - 1],
            (upto - 1) as usize,
            tag_tokens(text, vocab, upto - 1),
            0,
            0,
        )
    }
}

/// The tags of `text` once every token of `vocab` has made its pass.
pub open spec fn tagging(text: Seq<char>, vocab: Seq<Seq<char>>) -> Seq<Tag> {
    tag_tokens(text, vocab, vocab.len() as int)
}

/// Slot `j` is covered and opens a run: it is the first slot, or the slot
/// before it carries another tag or none.
pub open spec fn starts_run(tags: Seq<Tag>, j: int) -> bool {
    tags[j] is Some && (j == 0 || tags[j - 1] != tags[j])
}

/// The token indices of the runs that start in the first `n` slots, in order.
pub open spec fn collapse_upto(tags: Seq<Tag>, n: int) -> Seq<usize>
    decreases n,
{
    if n <= 0 {
        Seq::empty()
    } else if starts_run(tags, n - 1) {
        collapse_upto(tags, n - 1).push(tags[n - 1].unwrap().0)
    } else {
        collapse_upto(tags, n - 1)
    }
}

/// One token index for each run of slots that carry the same tag; uncovered
/// slots contribute nothing.
pub open spec fn collapse(tags: Seq<Tag>) -> Seq<usize> {
    collapse_upto(tags, tags.len() as int)
}

/// The index sequence that segmenting `text` with `vocab` yields.
pub open spec fn segmentation(text: Seq<char>, vocab: Seq<Seq<char>>) -> Seq<usize> {
    collapse(tagging(text, vocab))
}

/// The texts that the indices `ids` stand for.
pub open spec fn token_texts(vocab: Seq<Seq<char>>, ids: Seq<usize>) -> Seq<Seq<char>> {
    Seq::new(ids.len(), |i: int| vocab[ids[i] as int])
}

/// The text that a sequence of token indices spells.
pub open spec fn decode(vocab: Seq<Seq<char>>, ids: Seq<usize>) -> Seq<char> {
    token_texts(vocab, ids).flatten()
}

/// The offsets of the slots that no token covers, in rising order.
pub open spec fn uncovered_upto(tags: Seq<Tag>, n: int) -> Seq<usize>
    decreases n,
{
    if n <= 0 {
        Seq::empty()
    } else if tags[n - 1] is None {
        uncovered_upto(tags, n - 1).push((n - 1) as usize)
    } else {
        uncovered_upto(tags, n - 1)
    }
}

/// The character sequences of a token list.
pub open spec fn texts_of(vocab: Seq<Vec<char>>) -> Seq<Seq<char>> {
    Seq::new(vocab.len(), |i: int| vocab[i]@)
}

/// The tags of a slot vector.
pub open spec fn slot_tags(slots: Seq<CharInfo>) -> Seq<Tag> {
    Seq::new(slots.len(), |i: int| slots[i].1)
}

/// The characters of a slot vector.
pub open spec fn slot_chars(slots: Seq<CharInfo>) -> Seq<char> {
    Seq::new(slots.len(), |i: int| slots[i].0)
}

/// The character sequences of a list of strings.
pub open spec fn string_texts(strings: Seq<String>) -> Seq<Seq<char>> {
    Seq::new(strings.len(), |i: int| strings[i]@)
}

/// The offsets of all uncovered slots, in rising order.
pub open spec fn uncovered(tags: Seq<Tag>) -> Seq<usize> {
    uncovered_upto(tags, tags.len() as int)
}

/// Whether two tags are the same.
pub(crate) fn same_tag(a: Tag, b: Tag) -> (r: bool)
    ensures
        r == (a == b),
{
    match (a, b) {
        (None, None) => true,
        (Some(x), Some(y)) => x.0 == y.0 && x.1 == y.1,
        _ => false,
    }
}

/// Whether `token` stands in `chars` at `at` with all its slots still free.
pub(crate) fn fits(chars: &Vec<char>, token: &Vec<char>, tags: &Vec<Tag>, at: usize) -> (r: bool)
    requires
        at + token.len() <= chars.len(),
        tags.len() == chars.len(),
    ensures
        r == (occurs_at(chars@, token@, at as int) && is_free(
            tags@,
            at as int,
            token.len() as int,
        )),
{
    let w = token.len();
    let mut j: usize = 0;
    while j < w
        invariant
            w == token.len(),
            at + w <= chars.len(),
            tags.len() == chars.len(),
            j <= w,
            forall|k: int| 0 <= k < j ==> chars@[at + k] == #[trigger] token@[k],
            forall|k: int| at <= k < at + j ==> (#[trigger] tags@[k]) is None,
        decreases w - j,
    {
        if chars[at + j] != token[j] {
            assert(chars@[at + j] != token@[j as int]);
            return false;
        }
        if tags[at + j].is_some() {
            assert(tags@[at + j] is Some);
            return false;
        }
        j += 1;
    }
    true
}

/// Gives the slots `at .. at + len` the tag `tag`.
pub(crate) fn claim_slots(tags: &mut Vec<Tag>, at: usize, len: usize, tag: (usize, usize))
    requires
        at + len <= old(tags).len(),
    ensures
        final(tags)@ == claim(old(tags)@, at as int, len as int, tag),
{
    let ghost before = tags@;
    let mut j: usize = 0;
    while j < len
        invariant
            j <= len,
            at + len <= tags.len(),
            tags@ == claim(before, at as int, j as int, tag),
        decreases len - j,
    {
        tags.set(at + j, Some(tag));
        j += 1;
    }
}

/// One token's pass over the whole text.
pub fn scan_token(chars: &Vec<char>, token: &Vec<char>, id: usize, tags: &mut Vec<Tag>)
    requires
        old(tags).len() == chars.len(),
    ensures
        final(tags).len() == old(tags).len(),
        final(tags)@ == scan_from(chars@, token@, id, old(tags)@, 0, 0),
{
    let n = chars.len();
    let w = token.len();
    if w == 0 || w > n {
        return ;
    }
    let ghost before = tags@;
    let mut i: usize = 0;
    let mut count: usize = 0;
    while i <= n - w
        invariant
            0 < w <= n,
            n == chars.len(),
            w == token.len(),
            tags.len() == n,
            i <= n,
            count <= i,
            scan_from(chars@, token@, id, tags@, i as int, count as nat) == scan_from(
                chars@,
                token@,
                id,
                before,
                0,
                0,
            ),
        decreases n - i,
    {
        if fits(chars, token, tags, i) {
            claim_slots(tags, i, w, (id, count));
            count += 1;
            i += w;
        } else {
            i += 1;
        }
    }
}

/// Whether every slot is covered.
pub fn all_tagged(tags: &Vec<Tag>) -> (r: bool)
    ensures
        r == (forall|j: int| 0 <= j < tags.len() ==> (#[trigger] tags@[j]) is Some),
{
    let mut j: usize = 0;
    while j < tags.len()
        invariant
            j <= tags.len(),
            forall|k: int| 0 <= k < j ==> (#[trigger] tags@[k]) is Some,
        decreases tags.len() - j,
    {
        if tags[j].is_none() {
            return false;
        }
        j += 1;
    }
    true
}

/// A pass over a text whose slots are all covered changes nothing.
pub proof fn lemma_scan_of_covered(
    text: Seq<char>,
    token: Seq<char>,
    id: usize,
    tags: Seq<Tag>,
    from: int,
    count: nat,
)
    requires
        tags.len() == text.len(),
        forall|j: int| 0 <= j < tags.len() ==> (#[trigger] tags[j]) is Some,
    ensures
        scan_from(text, token, id, tags, from, count) == tags,
    decreases text.len() - from,
{
    if token.len() == 0 || from < 0 || from + token.len() > text.len() {
    } else {
        assert(tags[from] is Some);
        lemma_scan_of_covered(text, token, id, tags, from + 1, count);
    }
}

/// Once every slot is covered, the passes of further tokens change nothing.
pub proof fn lemma_covered_stays(text: Seq<char>, vocab: Seq<Seq<char>>, done: int, upto: int)
    requires
        0 <= done <= upto,
        forall|j: int|
            0 <= j < text.len() ==> (#[trigger] tag_tokens(text, vocab, done)[j]) is Some,
    ensures
        tag_tokens(text, vocab, upto) == tag_tokens(text, vocab, done),
    decreases upto - done,
{
    if done < upto {
        lemma_covered_stays(text, vocab, done, upto - 1);
        lemma_tag_tokens_len(text, vocab, done);
        lemma_scan_of_covered(
            text,
            vocab[upto - 1],
            (upto - 1) as usize,
            tag_tokens(text, vocab, done),
            0,
            0,
        );
    }
}

/// A pass keeps the number of slots.
pub proof fn lemma_scan_len(
    text: Seq<char>,
    token: Seq<char>,
    id: usize,
    tags: Seq<Tag>,
    from: int,
    count: nat,
)
    ensures
        scan_from(text, token, id, tags, from, count).len() == tags.len(),
    decreases text.len() - from,
{
    if token.len() == 0 || from < 0 || from + token.len() > text.len() {
    } else if occurs_at(text, token, from) && is_free(tags, from, token.len() as int) {
        lemma_scan_len(
            text,
            token,
            id,
            claim(tags, from, token.len() as int, (id, count as usize)),
            from + token.len(),
            count + 1,
        );
    } else {
        lemma_scan_len(text, token, id, tags, from + 1, count);
    }
}

/// There is one tag for each character of the text.
pub proof fn lemma_tag_tokens_len(text: Seq<char>, vocab: Seq<Seq<char>>, upto: int)
    ensures
        tag_tokens(text, vocab, upto).len() == text.len(),
    decreases upto,
{
    if upto > 0 {
        lemma_tag_tokens_len(text, vocab, upto - 1);
        lemma_scan_len(
            text,
            vocab[upto - 1],
            (upto - 1) as usize,
            tag_tokens(text, vocab, upto - 1),
            0,
            0,
        );
    }
}

/// Tags every slot of `chars` that a token of `vocab` can claim, the tokens
/// taking their passes in the order of `vocab`. The passes end early once
/// nothing is left uncovered.
pub fn tag_text(chars: &Vec<char>, vocab: &Vec<Vec<char>>) -> (tags: Vec<Tag>)
    ensures
        tags.len() == chars.len(),
        tags@ == tagging(chars@, texts_of(vocab@)),
{
    let mut tags: Vec<Tag> = Vec::new();
    let mut j: usize = 0;
    while j < chars.len()
        invariant
            j <= chars.len(),
            tags@ == Seq::new(j as nat, |k: int| None::<(usize, usize)>),
        decreases chars.len() - j,
    {
        tags.push(None);
        j += 1;
    }
    let mut t: usize = 0;
    while t < vocab.len()
        invariant
            t <= vocab.len(),
            tags.len() == chars.len(),
            tags@ == tag_tokens(chars@, texts_of(vocab@), t as int),
        decreases vocab.len() - t,
    {
        if all_tagged(&tags) {
            proof {
                lemma_covered_stays(chars@, texts_of(vocab@), t as int, vocab.len() as int);
            }
            return tags;
        }
        scan_token(chars, &vocab[t], t, &mut tags);
        t += 1;
    }
    tags
}

/// Collapses each run of slots with one tag into the index of its token.
pub fn collapse_tags(tags: &Vec<Tag>) -> (ids: Vec<usize>)
    ensures
        ids@ == collapse(tags@),
{
    let mut ids: Vec<usize> = Vec::new();
    let mut j: usize = 0;
    while j < tags.len()
        invariant
            j <= tags.len(),
            ids@ == collapse_upto(tags@, j as int),
        decreases tags.len() - j,
    {
        match tags[j] {
            Some(tag) => {
                if j == 0 || !same_tag(tags[j - 1], tags[j]) {
                    ids.push(tag.0);
                }
            },
            None => {},
        }
        j += 1;
    }
    ids
}

/// The offsets of the slots that carry no tag.
pub fn uncovered_slots(tags: &Vec<Tag>) -> (offsets: Vec<usize>)
    ensures
        offsets@ == uncovered(tags@),
{
    let mut offsets: Vec<usize> = Vec::new();
    let mut j: usize = 0;
    while j < tags.len()
        invariant
            j <= tags.len(),
            offsets@ == uncovered_upto(tags@, j as int),
        decreases tags.len() - j,
    {
        if tags[j].is_none() {
            offsets.push(j);
        }
        j += 1;
    }
    offsets
}

/// The character vectors of a list of strings.
pub(crate) fn symbols_of(strings: &Vec<String>) -> (symbols: Vec<Vec<char>>)
    ensures
        texts_of(symbols@) == string_texts(strings@),
{
    let mut symbols: Vec<Vec<char>> = Vec::new();
    let mut i: usize = 0;
    while i < strings.len()
        invariant
            i <= strings.len(),
            symbols.len() == i,
            forall|k: int| 0 <= k < i ==> (#[trigger] symbols@[k])@ == strings@[k]@,
        decreases strings.len() - i,
    {
        symbols.push(crate::text::chars_of_str(strings[i].as_str()));
        i += 1;
    }
    assert(texts_of(symbols@) =~= string_texts(strings@));
    symbols
}

/// The strings of a list of character vectors.
pub(crate) fn strings_of(symbols: &Vec<Vec<char>>) -> (strings: Vec<String>)
    ensures
        string_texts(strings@) == texts_of(symbols@),
{
    let mut strings: Vec<String> = Vec::new();
    let mut i: usize = 0;
    while i < symbols.len()
        invariant
            i <= symbols.len(),
            strings.len() == i,
            forall|k: int| 0 <= k < i ==> (#[trigger] strings@[k])@ == symbols@[k]@,
        decreases symbols.len() - i,
    {
        strings.push(crate::text::string_of(&symbols[i]));
        i += 1;
    }
    assert(string_texts(strings@) =~= texts_of(symbols@));
    strings
}

/// A copy of a list of strings.
pub(crate) fn copy_strings(strings: &Vec<String>) -> (copy: Vec<String>)
    ensures
        string_texts(copy@) == string_texts(strings@),
{
    let mut copy: Vec<String> = Vec::new();
    let mut i: usize = 0;
    while i < strings.len()
        invariant
            i <= strings.len(),
            copy.len() == i,
            forall|k: int| 0 <= k < i ==> (#[trigger] copy@[k])@ == strings@[k]@,
        decreases strings.len() - i,
    {
        copy.push(strings[i].clone());
        i += 1;
    }
    assert(string_texts(copy@) =~= string_texts(strings@));
    copy
}

/// The texts of the tokens that `ids` name, as strings.
pub(crate) fn texts_for(vocab: &Vec<String>, ids: &Vec<usize>) -> (out: Vec<String>)
    requires
        forall|k: int| 0 <= k < ids.len() ==> (#[trigger] ids@[k]) < vocab.len(),
    ensures
        string_texts(out@) == token_texts(string_texts(vocab@), ids@),
{
    let mut out: Vec<String> = Vec::new();
    let mut i: usize = 0;
    while i < ids.len()
        invariant
            i <= ids.len(),
            out.len() == i,
            forall|k: int| 0 <= k < ids.len() ==> (#[trigger] ids@[k]) < vocab.len(),
            forall|k: int| 0 <= k < i ==> (#[trigger] out@[k])@ == vocab@[ids@[k] as int]@,
        decreases ids.len() - i,
    {
        out.push(vocab[ids[i]].clone());
        i += 1;
    }
    assert(string_texts(out@) =~= token_texts(string_texts(vocab@), ids@));
    out
}

/// The text that the tokens named by `ids` spell, one after the other.
pub(crate) fn spell(vocab: &Vec<String>, ids: &[usize]) -> (text: String)
    requires
        forall|k: int| 0 <= k < ids.len() ==> (#[trigger] ids@[k]) < vocab.len(),
    ensures
        text@ == decode(string_texts(vocab@), ids@),
{
    let mut text = String::new();
    let mut i: usize = 0;
    assert(token_texts(string_texts(vocab@), ids@.take(0)) =~= Seq::<Seq<char>>::empty());
    while i < ids.len()
        invariant
            i <= ids.len(),
            forall|k: int| 0 <= k < ids.len() ==> (#[trigger] ids@[k]) < vocab.len(),
            text@ == decode(string_texts(vocab@), ids@.take(i as int)),
        decreases ids.len() - i,
    {
        proof {
            let done = ids@.take(i as int);
            assert(ids@.take(i + 1) =~= done.push(ids@[i as int]));
            assert(token_texts(string_texts(vocab@), done.push(ids@[i as int]))
                =~= token_texts(string_texts(vocab@), done).push(vocab@[ids@[i as int] as int]@));
            token_texts(string_texts(vocab@), done).lemma_flatten_push(
                vocab@[ids@[i as int] as int]@,
            );
        }
        text.append(vocab[ids[i]].as_str());
        i += 1;
    }
    assert(ids@.take(ids.len() as int) =~= ids@);
    text
}

/// The slots of a text: each character beside its tag.
pub(crate) fn slots_of(chars: &Vec<char>, tags: &Vec<Tag>) -> (slots: Vec<CharInfo>)
    requires
        tags.len() == chars.len(),
    ensures
        slot_chars(slots@) == chars@,
        slot_tags(slots@) == tags@,
{
    let mut slots: Vec<CharInfo> = Vec::new();
    let mut i: usize = 0;
    while i < chars.len()
        invariant
            i <= chars.len(),
            tags.len() == chars.len(),
            slots.len() == i,
            forall|k: int| 0 <= k < i ==> (#[trigger] slots@[k]) == (chars@[k], tags@[k]),
        decreases chars.len() - i,
    {
        slots.push((chars[i], tags[i]));
        i += 1;
    }
    assert(slot_chars(slots@) =~= chars@);
    assert(slot_tags(slots@) =~= tags@);
    slots
}

/// The tags of a slot list.
pub(crate) fn tags_in(slots: &[CharInfo]) -> (tags: Vec<Tag>)
    ensures
        tags@ == slot_tags(slots@),
{
    let mut tags: Vec<Tag> = Vec::new();
    let mut i: usize = 0;
    while i < slots.len()
        invariant
            i <= slots.len(),
            tags.len() == i,
            forall|k: int| 0 <= k < i ==> (#[trigger] tags@[k]) == slots@[k].1,
        decreases slots.len() - i,
    {
        tags.push(slots[i].1);
        i += 1;
    }
    assert(tags@ =~= slot_tags(slots@));
    tags
}

} // verus!
