//! Inverted index: tokenize synthetic documents into postings, then answer AND queries.

use vstd::prelude::*;

use crate::decimal::{
    digits_of,
    is_digit,
    law_parse_inverts_digits,
    lemma_digits_of,
    parse_usize,
    parsed,
    push_decimal,
};
use crate::rng::{draw, TraceRng};
use crate::workloads::text::xor_seq;

verus! {

pub const ROUNDS: usize = 4;

pub const DOCS: usize = 4_096;

pub const ELEMENTS: usize = 16_384;

pub const VOCAB: usize = 512;

pub const TERMS_PER_DOC: usize = 24;

pub const QUERIES: usize = 16;

/// The word of term number `term`: a `t`, then the number.
pub open spec fn word_of(term: usize) -> Seq<u8> {
    seq![116u8] + digits_of(term as nat)
}

/// A document's text: each word followed by a space.
pub open spec fn rendered(terms: Seq<usize>) -> Seq<u8>
    decreases terms.len(),
{
    if terms.len() == 0 {
        Seq::empty()
    } else {
        rendered(terms.drop_last()) + word_of(terms.last()) + seq![32u8]
    }
}

/// Where the word that covers `from` ends: at the next space, or at the end.
pub open spec fn word_end(text: Seq<u8>, from: int) -> int
    decreases text.len() - from,
{
    if from >= text.len() || text[from] == 32 {
        from
    } else {
        word_end(text, from + 1)
    }
}

/// The words from `from` on: what lies between spaces.
pub open spec fn words_from(text: Seq<u8>, from: int) -> Seq<Seq<u8>>
    decreases text.len() - from,
{
    if from >= text.len() {
        Seq::empty()
    } else if text[from] == 32 {
        words_from(text, from + 1)
    } else {
        let end = word_end(text, from);
        if end <= from || end > text.len() {
            Seq::empty()
        } else {
            seq![text.subrange(from, end)] + words_from(text, end)
        }
    }
}

proof fn lemma_word_end(text: Seq<u8>, from: int)
    requires
        0 <= from <= text.len(),
    ensures
        from <= word_end(text, from) <= text.len(),
        forall|i: int| from <= i < word_end(text, from) ==> text[i] != 32,
        word_end(text, from) < text.len() ==> text[word_end(text, from)] == 32,
    decreases text.len() - from,
{
    if from < text.len() && text[from] != 32 {
        lemma_word_end(text, from + 1);
    }
}

/// A run without a space up to `end` ends at `end`.
proof fn lemma_word_end_at(text: Seq<u8>, from: int, end: int)
    requires
        0 <= from <= end < text.len(),
        text[end] == 32,
        forall|i: int| from <= i < end ==> text[i] != 32,
    ensures
        word_end(text, from) == end,
    decreases end - from,
{
    if from < end {
        lemma_word_end_at(text, from + 1, end);
    }
}

/// Text that ends in a space, or is empty, followed by a word and a space, has one
/// word more.
proof fn lemma_one_word_more(front: Seq<u8>, word: Seq<u8>, from: int)
    requires
        0 <= from <= front.len(),
        front.len() > 0 ==> front.last() == 32,
        word.len() > 0,
        forall|i: int| 0 <= i < word.len() ==> word[i] != 32,
    ensures
        words_from(front + word + seq![32u8], from) == words_from(front, from).push(word),
    decreases front.len() - from,
{
    let text = front + word + seq![32u8];
    if from == front.len() {
        assert(text[from] == word[0]);
        lemma_word_end_at(text, from, from + word.len());
        assert(text.subrange(from, from + word.len()) =~= word);
        assert(words_from(text, text.len() as int) =~= Seq::<Seq<u8>>::empty());
        assert(text[from + word.len()] == 32);
        assert(words_from(text, from + word.len()) == words_from(text, from + word.len() + 1));
        assert(words_from(text, from) =~= seq![word] + words_from(text, from + word.len()));
        assert(words_from(front, from) =~= Seq::<Seq<u8>>::empty());
        assert(seq![word] + Seq::<Seq<u8>>::empty() =~= Seq::<Seq<u8>>::empty().push(word));
    } else if front[from] == 32 {
        assert(text[from] == 32);
        lemma_one_word_more(front, word, from + 1);
    } else {
        assert(text[from] == front[from]);
        lemma_word_end(front, from);
        let end = word_end(front, from);
        assert(end < front.len()) by {
            if end == front.len() {
                assert(front[front.len() - 1] == 32);
            }
        }
        assert(end > from) by {
            assert(front[end] == 32);
        }
        assert forall|i: int| from <= i < end implies text[i] != 32 by {
            assert(text[i] == front[i]);
        }
        assert(text[end] == front[end]);
        lemma_word_end_at(text, from, end);
        assert(text.subrange(from, end) =~= front.subrange(from, end));
        lemma_one_word_more(front, word, end);
        assert(seq![front.subrange(from, end)] + words_from(front, end).push(word) =~= (seq![
            front.subrange(from, end),
        ] + words_from(front, end)).push(word));
    }
}

/// A word holds no space.
proof fn lemma_word(term: usize)
    ensures
        word_of(term).len() > 1,
        forall|i: int| 0 <= i < word_of(term).len() ==> word_of(term)[i] != 32,
{
    lemma_digits_of(term as nat);
    let digits = digits_of(term as nat);
    assert forall|i: int| 0 <= i < word_of(term).len() implies word_of(term)[i] != 32 by {
        if i > 0 {
            assert(word_of(term)[i] == digits[i - 1]);
            assert(is_digit(digits[i - 1]));
        }
    }
}

/// The words of a document's text are the words of its terms.
pub proof fn law_words_of_rendered(terms: Seq<usize>)
    ensures
        words_from(rendered(terms), 0) == terms.map_values(|term: usize| word_of(term)),
        rendered(terms).len() > 0 ==> rendered(terms).last() == 32,
    decreases terms.len(),
{
    let words = terms.map_values(|term: usize| word_of(term));
    if terms.len() == 0 {
        assert(words =~= Seq::<Seq<u8>>::empty());
    } else {
        let front = terms.drop_last();
        law_words_of_rendered(front);
        lemma_word(terms.last());
        lemma_one_word_more(rendered(front), word_of(terms.last()), 0);
        assert(words =~= front.map_values(|term: usize| word_of(term)).push(
            word_of(terms.last()),
        ));
    }
}

/// A word's term number, if it is a word.
fn term_of(word: &[u8]) -> (term: Option<usize>)
    ensures
        forall|number: usize| word@ == #[trigger] word_of(number) ==> term == Some(number),
{
    if word.len() == 0 || word[0] != 116 {
        return None;
    }
    let digits = vstd::slice::slice_subrange(word, 1, word.len());
    proof {
        assert forall|number: usize| word@ == #[trigger] word_of(number) implies digits@
            == digits_of(number as nat) by {
            assert(digits@ =~= digits_of(number as nat));
            law_parse_inverts_digits(number as nat, usize::MAX as nat);
        }
        assert forall|number: usize| word@ == #[trigger] word_of(number) implies parsed(
            digits@,
            usize::MAX as nat,
        ) == Some(number as nat) by {
            law_parse_inverts_digits(number as nat, usize::MAX as nat);
        }
    }
    parse_usize(digits)
}

/// Term numbers of the words of a text, in order. Words that name no term are skipped.
pub fn tokenize(text: &Vec<u8>) -> (terms: Vec<usize>)
    ensures
        forall|source: Seq<usize>| text@ == #[trigger] rendered(source) ==> terms@ == source,
{
    let mut terms: Vec<usize> = Vec::new();
    let mut from: usize = 0;
    proof {
        assert forall|source: Seq<usize>| text@ == #[trigger] rendered(source) implies
            terms@.is_prefix_of(source) && words_from(text@, 0) == source.skip(
            0,
        ).map_values(|term: usize| word_of(term)) by {
            law_words_of_rendered(source);
            assert(source.skip(0) =~= source);
        }
    }
    while from < text.len()
        invariant
            from <= text@.len(),
            forall|source: Seq<usize>| text@ == #[trigger] rendered(source) ==> terms@.len()
                <= source.len() && terms@ == source.take(terms@.len() as int) && words_from(
                text@,
                from as int,
            ) == source.skip(terms@.len() as int).map_values(|term: usize| word_of(term)),
        decreases text@.len() - from,
    {
        if text[from] == 32 {
            from = from + 1;
        } else {
            let ghost start = from as int;
            let ghost before = terms@;
            let mut end: usize = from;
            proof {
                lemma_word_end(text@, start);
            }
            while end < text.len() && text[end] != 32
                invariant
                    start <= end <= text@.len(),
                    end <= word_end(text@, start) <= text@.len(),
                    forall|i: int| start <= i < word_end(text@, start) ==> text@[i] != 32,
                    word_end(text@, start) < text@.len() ==> text@[word_end(text@, start)] == 32,
                decreases text@.len() - end,
            {
                end = end + 1;
            }
            assert(end == word_end(text@, start));
            let word = vstd::slice::slice_subrange(text.as_slice(), from, end);
            let term = term_of(word);
            if let Some(number) = term {
                terms.push(number);
            }
            from = end;
            proof {
                assert forall|source: Seq<usize>| text@ == #[trigger] rendered(source) implies
                    terms@.len() <= source.len() && terms@ == source.take(terms@.len() as int)
                    && words_from(text@, from as int) == source.skip(
                    terms@.len() as int,
                ).map_values(|term: usize| word_of(term)) by {
                    let rest = source.skip(before.len() as int);
                    let words = rest.map_values(|term: usize| word_of(term));
                    assert(words_from(text@, start) == words);
                    assert(words_from(text@, start)[0] == word@);
                    assert(words.len() > 0);
                    assert(words[0] == word_of(rest[0]));
                    assert(term == Some(rest[0]));
                    assert(terms@ =~= source.take(terms@.len() as int));
                    let later = source.skip(terms@.len() as int);
                    assert(words_from(text@, from as int) =~= words.skip(1));
                    assert(later.map_values(|term: usize| word_of(term)) =~= words.skip(1));
                }
            }
        }
    }
    proof {
        assert forall|source: Seq<usize>| text@ == #[trigger] rendered(source) implies terms@
            == source by {
            let rest = source.skip(terms@.len() as int);
            assert(words_from(text@, from as int).len() == 0);
            assert(rest.map_values(|term: usize| word_of(term)).len() == rest.len());
            assert(source.take(terms@.len() as int) =~= source);
        }
    }
    terms
}

/// The terms of document `doc`.
pub open spec fn doc_terms(seed: u64, doc: nat) -> Seq<usize> {
    Seq::new(
        TERMS_PER_DOC as nat,
        |j: int| draw(seed, (TERMS_PER_DOC * doc + j) as nat, VOCAB as int) as usize,
    )
}

/// The id that document `doc` has in postings.
pub open spec fn doc_id(doc: nat) -> u32 {
    if doc <= u32::MAX {
        doc as u32
    } else {
        u32::MAX
    }
}

/// Postings with `id` behind them, unless it is their last already.
pub open spec fn posted(postings: Seq<u32>, id: u32) -> Seq<u32> {
    if postings.len() > 0 && postings.last() == id {
        postings
    } else {
        postings.push(id)
    }
}

/// The documents among the first `docs` that hold `term`, in order.
pub open spec fn postings_of(seed: u64, docs: nat, term: usize) -> Seq<u32>
    decreases docs,
{
    if docs == 0 {
        Seq::empty()
    } else {
        let earlier = postings_of(seed, (docs - 1) as nat, term);
        if doc_terms(seed, (docs - 1) as nat).contains(term) {
            posted(earlier, doc_id((docs - 1) as nat))
        } else {
            earlier
        }
    }
}

/// Render one document.
fn render_doc(rng: &mut TraceRng, Ghost(seed): Ghost<u64>, Ghost(doc): Ghost<nat>) -> (text: Vec<u8>)
    requires
        old(rng).at(seed, (TERMS_PER_DOC * doc) as nat),
    ensures
        final(rng).at(seed, (TERMS_PER_DOC * (doc + 1)) as nat),
        text@ == rendered(doc_terms(seed, doc)),
{
    let mut text: Vec<u8> = Vec::new();
    let mut j: usize = 0;
    let ghost terms = doc_terms(seed, doc);
    assert(terms.take(0) =~= Seq::<usize>::empty());
    while j < TERMS_PER_DOC
        invariant
            j <= TERMS_PER_DOC,
            terms == doc_terms(seed, doc),
            rng.at(seed, (TERMS_PER_DOC * doc + j) as nat),
            text@ == rendered(terms.take(j as int)),
        decreases TERMS_PER_DOC - j,
    {
        let ghost before = text@;
        let term: usize = rng.next_usize(VOCAB);
        text.push(116);
        push_decimal(&mut text, term);
        text.push(32);
        j = j + 1;
        proof {
            assert(terms[j - 1] == term);
            assert(terms.take(j as int).drop_last() =~= terms.take(j - 1));
            assert(text@ =~= before + word_of(term) + seq![32u8]);
        }
    }
    assert(terms.take(TERMS_PER_DOC as int) =~= terms);
    text
}

/// The index holds the postings of the first `docs` documents.
pub open spec fn indexed(index: Seq<Vec<u32>>, seed: u64, docs: nat) -> bool {
    &&& index.len() == VOCAB
    &&& forall|term: int|
        0 <= term < VOCAB ==> (#[trigger] index[term])@ == postings_of(seed, docs, term as usize)
}

/// Add one document's terms to the index.
fn index_doc(
    index: &mut Vec<Vec<u32>>,
    terms: &Vec<usize>,
    id: u32,
    Ghost(seed): Ghost<u64>,
    Ghost(doc): Ghost<nat>,
)
    requires
        indexed(old(index)@, seed, doc),
        terms@ == doc_terms(seed, doc),
        id == doc_id(doc),
    ensures
        indexed(final(index)@, seed, doc + 1),
{
    let ghost before = index@;
    let mut j: usize = 0;
    while j < terms.len()
        invariant
            j <= terms@.len(),
            terms@ == doc_terms(seed, doc),
            before.len() == VOCAB,
            index@.len() == VOCAB,
            forall|term: int|
                0 <= term < VOCAB ==> (#[trigger] index@[term])@ == if terms@.take(
                    j as int,
                ).contains(term as usize) {
                    posted(before[term]@, id)
                } else {
                    before[term]@
                },
        decreases terms@.len() - j,
    {
        let term: usize = terms[j];
        let ghost round = index@;
        assert(term < VOCAB);
        let len: usize = index[term].len();
        let fresh = len == 0 || index[term][len - 1] != id;
        if fresh {
            let mut postings = index[term].clone();
            postings.push(id);
            index.set(term, postings);
        }
        proof {
            let was = terms@.take(j as int);
            let now = terms@.take(j + 1);
            assert forall|other: int| 0 <= other < VOCAB implies (#[trigger] index@[other])@
                == if now.contains(other as usize) {
                posted(before[other]@, id)
            } else {
                before[other]@
            } by {
                assert(now[j as int] == term);
                if other != term {
                    assert(now.contains(other as usize) == was.contains(other as usize)) by {
                        if now.contains(other as usize) {
                            let k = choose|k: int| 0 <= k < now.len() && now[k] == other as usize;
                            assert(was[k] == other as usize);
                        }
                        if was.contains(other as usize) {
                            let k = choose|k: int| 0 <= k < was.len() && was[k] == other as usize;
                            assert(now[k] == other as usize);
                        }
                    }
                    assert(index@[other] == round[other]);
                } else {
                    assert(now.contains(other as usize));
                    assert(round[other]@ == if was.contains(other as usize) {
                        posted(before[other]@, id)
                    } else {
                        before[other]@
                    });
                }
            }
        }
        j = j + 1;
    }
    assert(terms@.take(terms@.len() as int) =~= terms@);
}

/// How many ids of `left` are in `right`.
pub open spec fn common(left: Seq<u32>, right: Seq<u32>) -> nat
    decreases left.len(),
{
    if left.len() == 0 {
        0
    } else {
        common(left.drop_last(), right) + if right.contains(left.last()) {
            1nat
        } else {
            0nat
        }
    }
}

/// Whether `ids` holds `id`.
fn has_id(ids: &Vec<u32>, id: u32) -> (found: bool)
    ensures
        found == ids@.contains(id),
{
    let mut i: usize = 0;
    while i < ids.len()
        invariant
            i <= ids@.len(),
            forall|k: int| 0 <= k < i ==> ids@[k] != id,
        decreases ids@.len() - i,
    {
        if ids[i] == id {
            assert(ids@[i as int] == id);
            return true;
        }
        i = i + 1;
    }
    false
}

fn count_common(left: &Vec<u32>, right: &Vec<u32>) -> (count: usize)
    ensures
        count == common(left@, right@),
        count <= left@.len(),
{
    let mut count: usize = 0;
    let mut i: usize = 0;
    assert(left@.take(0) =~= Seq::<u32>::empty());
    while i < left.len()
        invariant
            i <= left@.len(),
            count == common(left@.take(i as int), right@),
            count <= i,
        decreases left@.len() - i,
    {
        if has_id(right, left[i]) {
            count = count + 1;
        }
        i = i + 1;
        assert(left@.take(i as int).drop_last() =~= left@.take(i - 1));
    }
    assert(left@.take(left@.len() as int) =~= left@);
    count
}

/// Documents that answer the first `queries` queries: each asks for two neighbouring terms.
pub open spec fn matched_in(seed: u64, docs: nat, queries: nat) -> nat
    decreases queries,
{
    if queries == 0 {
        0
    } else {
        matched_in(seed, docs, (queries - 1) as nat) + common(
            postings_of(seed, docs, (queries - 1) as usize),
            postings_of(seed, docs, queries as usize),
        )
    }
}

/// Terms among the first `terms` that some document holds.
pub open spec fn terms_in(seed: u64, docs: nat, terms: nat) -> nat
    decreases terms,
{
    if terms == 0 {
        0
    } else {
        terms_in(seed, docs, (terms - 1) as nat) + if postings_of(
            seed,
            docs,
            (terms - 1) as usize,
        ).len() > 0 {
            1nat
        } else {
            0nat
        }
    }
}

/// Ids in the postings of the first `terms` terms.
pub open spec fn ids_in(seed: u64, docs: nat, terms: nat) -> nat
    decreases terms,
{
    if terms == 0 {
        0
    } else {
        ids_in(seed, docs, (terms - 1) as nat) + postings_of(seed, docs, (terms - 1) as usize).len()
    }
}

/// How many of the first `terms` terms a document holds.
spec fn distinct_in(doc: Seq<usize>, terms: nat) -> nat
    decreases terms,
{
    if terms == 0 {
        0
    } else {
        distinct_in(doc, (terms - 1) as nat) + if doc.contains((terms - 1) as usize) {
            1nat
        } else {
            0nat
        }
    }
}

/// The first `terms` terms that a document holds.
spec fn distinct_set(doc: Seq<usize>, terms: nat) -> Set<usize> {
    Set::new(|term: usize| term < terms && doc.contains(term))
}

proof fn lemma_distinct_count(doc: Seq<usize>, terms: nat)
    requires
        terms <= usize::MAX,
    ensures
        distinct_set(doc, terms).finite(),
        distinct_set(doc, terms).len() == distinct_in(doc, terms),
    decreases terms,
{
    if terms == 0 {
        assert(distinct_set(doc, terms) =~= Set::empty());
    } else {
        let fewer = distinct_set(doc, (terms - 1) as nat);
        let last = (terms - 1) as usize;
        lemma_distinct_count(doc, (terms - 1) as nat);
        if doc.contains(last) {
            assert(distinct_set(doc, terms) =~= fewer.insert(last));
        } else {
            assert(distinct_set(doc, terms) =~= fewer);
        }
    }
}

/// A document of so many terms holds at most as many different ones.
proof fn lemma_distinct_bound(doc: Seq<usize>, terms: nat)
    requires
        terms <= usize::MAX,
    ensures
        distinct_in(doc, terms) <= doc.len(),
{
    lemma_distinct_count(doc, terms);
    doc.lemma_cardinality_of_set();
    vstd::seq_lib::seq_to_set_is_finite(doc);
    assert(distinct_set(doc, terms).subset_of(doc.to_set()));
    vstd::set_lib::lemma_len_subset(distinct_set(doc, terms), doc.to_set());
}

/// One more document adds an id for each term that it holds.
proof fn lemma_ids_step(seed: u64, docs: nat, terms: nat)
    requires
        docs > 0,
    ensures
        ids_in(seed, docs, terms) <= ids_in(seed, (docs - 1) as nat, terms) + distinct_in(
            doc_terms(seed, (docs - 1) as nat),
            terms,
        ),
    decreases terms,
{
    if terms > 0 {
        lemma_ids_step(seed, docs, (terms - 1) as nat);
    }
}

proof fn lemma_no_ids(seed: u64, terms: nat)
    ensures
        ids_in(seed, 0, terms) == 0,
    decreases terms,
{
    if terms > 0 {
        lemma_no_ids(seed, (terms - 1) as nat);
    }
}

/// Every document adds at most as many ids as it has terms.
proof fn lemma_ids_bound(seed: u64, docs: nat, terms: nat)
    requires
        terms <= usize::MAX,
    ensures
        ids_in(seed, docs, terms) <= TERMS_PER_DOC * docs,
    decreases docs,
{
    if docs == 0 {
        lemma_no_ids(seed, terms);
    } else {
        lemma_ids_bound(seed, (docs - 1) as nat, terms);
        lemma_ids_step(seed, docs, terms);
        lemma_distinct_bound(doc_terms(seed, (docs - 1) as nat), terms);
    }
}

/// The checksum of one index.
pub open spec fn index_checksum(seed: u64, docs: nat) -> usize {
    let matched = matched_in(seed, docs, QUERIES as nat) as usize;
    let terms = terms_in(seed, docs, VOCAB as nat) as usize;
    let ids = ids_in(seed, docs, VOCAB as nat) as usize;
    (matched ^ terms) ^ ids
}

/// Index the documents of one round and answer the queries.
fn index_round(seed: u64, docs: usize) -> (value: usize)
    requires
        TERMS_PER_DOC * docs <= usize::MAX,
    ensures
        value == index_checksum(seed, docs as nat),
{
    let mut rng = TraceRng::new(seed);
    let mut index: Vec<Vec<u32>> = Vec::new();
    let mut term: usize = 0;
    while term < VOCAB
        invariant
            term <= VOCAB,
            index@.len() == term,
            forall|k: int| 0 <= k < term ==> (#[trigger] index@[k])@ == Seq::<u32>::empty(),
        decreases VOCAB - term,
    {
        index.push(Vec::new());
        term = term + 1;
    }
    let mut doc: usize = 0;
    while doc < docs
        invariant
            doc <= docs,
            rng.at(seed, (TERMS_PER_DOC * doc) as nat),
            indexed(index@, seed, doc as nat),
        decreases docs - doc,
    {
        let id: u32 = if doc <= u32::MAX as usize {
            doc as u32
        } else {
            u32::MAX
        };
        let text = render_doc(&mut rng, Ghost(seed), Ghost(doc as nat));
        let terms = tokenize(&text);
        index_doc(&mut index, &terms, id, Ghost(seed), Ghost(doc as nat));
        doc = doc + 1;
    }
    let mut matched: usize = 0;
    let mut query: usize = 0;
    while query < QUERIES
        invariant
            query <= QUERIES,
            indexed(index@, seed, docs as nat),
            TERMS_PER_DOC * docs <= usize::MAX,
            matched == matched_in(seed, docs as nat, query as nat),
            matched <= ids_in(seed, docs as nat, query as nat),
        decreases QUERIES - query,
    {
        proof {
            lemma_ids_bound(seed, docs as nat, (query + 1) as nat);
            assert(index@[query as int]@ == postings_of(seed, docs as nat, query));
            assert(index@[query + 1]@ == postings_of(seed, docs as nat, (query + 1) as usize));
        }
        let answers: usize = if index[query].len() > 0 && index[query + 1].len() > 0 {
            count_common(&index[query], &index[query + 1])
        } else {
            proof {
                lemma_nothing_common(
                    postings_of(seed, docs as nat, query),
                    postings_of(seed, docs as nat, (query + 1) as usize),
                );
            }
            0
        };
        matched = matched + answers;
        query = query + 1;
    }
    let mut terms: usize = 0;
    let mut ids: usize = 0;
    let mut at: usize = 0;
    while at < VOCAB
        invariant
            at <= VOCAB,
            indexed(index@, seed, docs as nat),
            TERMS_PER_DOC * docs <= usize::MAX,
            terms == terms_in(seed, docs as nat, at as nat),
            ids == ids_in(seed, docs as nat, at as nat),
            terms <= at,
        decreases VOCAB - at,
    {
        proof {
            lemma_ids_bound(seed, docs as nat, (at + 1) as nat);
            assert(index@[at as int]@ == postings_of(seed, docs as nat, at));
        }
        let len: usize = index[at].len();
        if len > 0 {
            terms = terms + 1;
        }
        ids = ids + len;
        at = at + 1;
    }
    (matched ^ terms) ^ ids
}

/// Nothing is common with an empty list.
proof fn lemma_nothing_common(left: Seq<u32>, right: Seq<u32>)
    requires
        left.len() == 0 || right.len() == 0,
    ensures
        common(left, right) == 0,
    decreases left.len(),
{
    if left.len() > 0 {
        lemma_nothing_common(left.drop_last(), right);
    }
}

/// One index for each round.
pub fn text_index(rounds: usize, docs: usize) -> (checksum: usize)
    requires
        TERMS_PER_DOC * docs <= usize::MAX,
    ensures
        checksum == xor_seq(
            Seq::new(
                rounds as nat,
                |round: int| index_checksum(0x7ea7_1de0u64 ^ (round as u64), docs as nat),
            ),
        ),
{
    let mut checksum: usize = 0;
    let mut round: usize = 0;
    let ghost value = |round: int| index_checksum(0x7ea7_1de0u64 ^ (round as u64), docs as nat);
    assert(Seq::new(0, value) =~= Seq::<usize>::empty());
    while round < rounds
        invariant
            round <= rounds,
            TERMS_PER_DOC * docs <= usize::MAX,
            value == |round: int|
                index_checksum(0x7ea7_1de0u64 ^ (round as u64), docs as nat),
            checksum == xor_seq(Seq::new(round as nat, value)),
        decreases rounds - round,
    {
        let seed: u64 = 0x7ea7_1de0u64 ^ (round as u64);
        checksum = checksum ^ index_round(seed, docs);
        round = round + 1;
        assert(Seq::new(round as nat, value).drop_last() =~= Seq::new((round - 1) as nat, value));
    }
    checksum
}

/// `checksum` is one that the workload may return.
pub open spec fn is_checksum(checksum: usize) -> bool {
    checksum == xor_seq(
        Seq::new(
            ROUNDS as nat,
            |round: int| index_checksum(0x7ea7_1de0u64 ^ (round as u64), DOCS as nat),
        ),
    )
}

pub fn run() -> (checksum: usize)
    ensures
        is_checksum(checksum),
{
    text_index(ROUNDS, DOCS)
}

} // verus!
