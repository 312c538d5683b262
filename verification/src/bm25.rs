//! The lexical index: which words occur where and how often, the counts that a BM25 score is made
//! of.
//!
//! [`tokenize`] splits text into lower-case words. [`Bm25Index`] counts them over one text field of
//! a set of records. [`Bm25Index::score`] gives the counts that the relevance of one record to a
//! query depends on; the score itself is floating-point arithmetic on those counts.
use vstd::prelude::*;

use crate::ir::{Record, RecordId, Value};
#[allow(unused_imports)]
use crate::ir::{RecV, RidV, ValV};
use crate::ordmap;
use crate::ordmap::{Dup, OrdMap};
use crate::text;

verus! {

/// The character is a letter or a number of Unicode.
pub uninterp spec fn alphanumeric(c: char) -> bool;

/// The lower case of a text.
pub uninterp spec fn lowercase(s: Seq<char>) -> Seq<char>;

/// A letter or a digit of ASCII.
pub open spec fn ascii_alphanumeric(c: char) -> bool {
    'a' <= c <= 'z' || 'A' <= c <= 'Z' || '0' <= c <= '9'
}

/// All characters are ASCII.
pub open spec fn all_ascii(s: Seq<char>) -> bool {
    forall|i: int| 0 <= i < s.len() ==> (#[trigger] s[i] as int) < 128
}

/// `char::is_alphanumeric` depends on the character alone. In ASCII it is true of the letters and
/// the digits.
pub assume_specification[ char::is_alphanumeric ](c: char) -> (r: bool)
    ensures
        r == alphanumeric(c),
        (c as int) < 128 ==> r == ascii_alphanumeric(c),
;

/// `str::to_lowercase` depends on the text alone. It maps each character to one or more, so a text
/// that is not empty stays so. On ASCII text it lowers the letters.
pub assume_specification[ str::to_lowercase ](s: &str) -> (r: String)
    ensures
        r@ == lowercase(s@),
        s@.len() > 0 ==> r@.len() > 0,
        all_ascii(s@) ==> r@ == text::lower(s@),
;

/// `acc` with the word `w` behind it, in lower case; an empty word adds nothing.
pub open spec fn with_word(acc: Seq<Seq<char>>, w: Seq<char>) -> Seq<Seq<char>> {
    if w.len() > 0 {
        acc.push(lowercase(w))
    } else {
        acc
    }
}

/// The words of `s` from position `i` on, behind `acc`; `word` is the run of letters and numbers
/// that ends at `i`.
pub open spec fn words_from(
    s: Seq<char>,
    i: int,
    word: Seq<char>,
    acc: Seq<Seq<char>>,
) -> Seq<Seq<char>>
    decreases s.len() - i,
{
    if 0 <= i < s.len() {
        if alphanumeric(s[i]) {
            words_from(s, i + 1, word.push(s[i]), acc)
        } else {
            words_from(s, i + 1, Seq::empty(), with_word(acc, word))
        }
    } else {
        with_word(acc, word)
    }
}

/// The words of a text: each longest run of letters and numbers, in lower case.
pub open spec fn words(s: Seq<char>) -> Seq<Seq<char>> {
    words_from(s, 0, Seq::empty(), Seq::empty())
}

/// None of the words is empty.
pub open spec fn none_empty(ws: Seq<Seq<char>>) -> bool {
    forall|i: int| 0 <= i < ws.len() ==> (#[trigger] ws[i]).len() > 0
}

fn push_word(out: &mut Vec<String>, word: &String)
    requires
        none_empty(ordmap::views(old(out)@)),
    ensures
        ordmap::views(final(out)@) == with_word(ordmap::views(old(out)@), word@),
        none_empty(ordmap::views(final(out)@)),
{
    let ghost before = ordmap::views(out@);
    if !word.as_str().is_empty() {
        let w = word.as_str().to_lowercase();
        let ghost wv = w@;
        out.push(w);
        assert(ordmap::views(out@) =~= before.push(wv));
    }
}

/// Splits text into its words: each longest run of letters and numbers, in lower case. No word is
/// empty.
pub fn tokenize(input: &str) -> (r: Vec<String>)
    ensures
        ordmap::views(r@) == words(input@),
        none_empty(words(input@)),
{
    let src = text::chars_of(input);
    let mut out: Vec<String> = Vec::new();
    let mut word = String::new();
    let mut i: usize = 0;
    assert(ordmap::views(out@) =~= Seq::<Seq<char>>::empty());
    assert(word@ =~= Seq::<char>::empty());
    while i < src.len()
        invariant
            src@ == input@,
            i <= src.len(),
            words(input@) == words_from(src@, i as int, word@, ordmap::views(out@)),
            none_empty(ordmap::views(out@)),
        decreases src.len() - i,
    {
        let c: char = src[i];
        if c.is_alphanumeric() {
            word.push(c);
        } else {
            push_word(&mut out, &word);
            word = String::new();
            assert(word@ =~= Seq::<char>::empty());
        }
        i = i + 1;
    }
    push_word(&mut out, &word);
    out
}

/// One more, up to the largest `u64`.
pub open spec fn more(n: u64) -> u64 {
    if n < u64::MAX {
        (n + 1) as u64
    } else {
        n
    }
}

/// The sum, up to the largest `u64`.
pub open spec fn plus(a: u64, b: u64) -> u64 {
    if a + b <= u64::MAX {
        (a + b) as u64
    } else {
        u64::MAX
    }
}

/// Counts by word.
pub type CountsV = Seq<(Seq<char>, u64)>;

/// The count of a word.
pub open spec fn count_in(counts: CountsV, w: Seq<char>) -> u64 {
    match ordmap::lookup::<String, u64>(counts, w) {
        Some(n) => n,
        None => 0,
    }
}

/// `counts` with one more of `w`.
pub open spec fn counted(counts: CountsV, w: Seq<char>) -> CountsV {
    ordmap::put::<String, u64>(counts, w, more(count_in(counts, w)))
}

/// How often each of the first `n` of `ws` occurs among them.
pub open spec fn counts_of(ws: Seq<Seq<char>>, n: int) -> CountsV
    decreases n,
{
    if n <= 0 {
        Seq::empty()
    } else {
        counted(counts_of(ws, n - 1), ws[n - 1])
    }
}

/// `df` with one more of each of the first `n` words of `counts`.
pub open spec fn df_with(df: CountsV, counts: CountsV, n: int) -> CountsV
    decreases n,
{
    if n <= 0 {
        df
    } else {
        counted(df_with(df, counts, n - 1), counts[n - 1].0)
    }
}

/// The sum of the first `n` counts.
pub open spec fn sum_of(counts: CountsV, n: int) -> u64
    decreases n,
{
    if n <= 0 {
        0
    } else {
        plus(sum_of(counts, n - 1), counts[n - 1].1)
    }
}

/// A lexical index over one text field.
#[derive(Debug, PartialEq)]
pub struct Bm25Index {
    /// The field that is indexed.
    field: String,
    /// How often each word occurs in each indexed record.
    docs: OrdMap<RecordId, OrdMap<String, u64>>,
    /// How many records were indexed.
    n_docs: u64,
    /// How many words they hold together.
    total_tokens: u64,
    /// In how many of them each word occurs.
    df: OrdMap<String, u64>,
}

#[verifier::ext_equal]
pub struct IndexV {
    pub field: Seq<char>,
    pub docs: Seq<(RidV, CountsV)>,
    pub n_docs: u64,
    pub total_tokens: u64,
    pub df: CountsV,
}

impl View for Bm25Index {
    type V = IndexV;

    closed spec fn view(&self) -> IndexV {
        IndexV {
            field: self.field@,
            docs: self.docs@,
            n_docs: self.n_docs,
            total_tokens: self.total_tokens,
            df: self.df@,
        }
    }
}

/// The text of a field of a record, if it holds a string.
pub open spec fn field_text(rec: RecV, field: Seq<char>) -> Option<Seq<char>> {
    match ordmap::lookup::<String, ValV>(rec.body, field) {
        Some(ValV::Str(s)) => Some(s),
        _ => None,
    }
}

/// The index over `field` of no record.
pub open spec fn empty_index(field: Seq<char>) -> IndexV {
    IndexV { field, docs: Seq::empty(), n_docs: 0, total_tokens: 0, df: Seq::empty() }
}

/// `ix` with the record `rec` in it; a record whose field holds no string adds nothing.
pub open spec fn indexed(ix: IndexV, rec: RecV) -> IndexV {
    match field_text(rec, ix.field) {
        None => ix,
        Some(s) => {
            let counts = counts_of(words(s), words(s).len() as int);
            IndexV {
                field: ix.field,
                docs: ordmap::put::<RecordId, CountsV>(ix.docs, rec.id, counts),
                n_docs: more(ix.n_docs),
                total_tokens: plus(ix.total_tokens, sum_of(counts, counts.len() as int)),
                df: df_with(ix.df, counts, counts.len() as int),
            }
        },
    }
}

/// The index over `field` of the first `n` records.
pub open spec fn index_of(field: Seq<char>, recs: Seq<RecV>, n: int) -> IndexV
    decreases n,
{
    if n <= 0 {
        empty_index(field)
    } else {
        indexed(index_of(field, recs, n - 1), recs[n - 1])
    }
}

/// What the relevance of a record depends on: for each distinct word of the query that the record
/// holds, how often the record holds it and how many records hold it; the number of records; the
/// words of all of them together, and of this one.
#[derive(Debug, PartialEq, Eq)]
pub struct Bm25Terms {
    pub terms: Vec<(u64, u64)>,
    pub n_docs: u64,
    pub total_tokens: u64,
    pub doc_len: u64,
}

#[verifier::ext_equal]
pub struct TermsV {
    pub terms: Seq<(u64, u64)>,
    pub n_docs: u64,
    pub total_tokens: u64,
    pub doc_len: u64,
}

impl View for Bm25Terms {
    type V = TermsV;

    open spec fn view(&self) -> TermsV {
        TermsV {
            terms: self.terms@,
            n_docs: self.n_docs,
            total_tokens: self.total_tokens,
            doc_len: self.doc_len,
        }
    }
}

/// `w` is among the first `n` of `ws`.
pub open spec fn among(ws: Seq<Seq<char>>, w: Seq<char>, n: int) -> bool {
    exists|i: int| 0 <= i < n && #[trigger] ws[i] == w
}

/// The frequencies of the first `n` words of `query`, each word once, the ones that the record
/// does not hold left out.
pub open spec fn terms_of(counts: CountsV, df: CountsV, query: Seq<Seq<char>>, n: int) -> Seq<
    (u64, u64),
>
    decreases n,
{
    if n <= 0 {
        Seq::empty()
    } else {
        let before = terms_of(counts, df, query, n - 1);
        let w = query[n - 1];
        if among(query, w, n - 1) || count_in(counts, w) == 0 {
            before
        } else {
            let d = count_in(df, w);
            before.push(
                (
                    count_in(counts, w),
                    if d == 0 {
                        1
                    } else {
                        d
                    },
                ),
            )
        }
    }
}

/// What the relevance of the record `id` to `query` depends on; `None` where its score is zero
/// because the index does not hold the record, the record holds no word, or the query has none.
pub open spec fn relevance(ix: IndexV, id: RidV, query: Seq<Seq<char>>) -> Option<TermsV> {
    match ordmap::lookup::<RecordId, CountsV>(ix.docs, id) {
        None => None,
        Some(counts) => if counts.len() == 0 || query.len() == 0 {
            None
        } else {
            Some(
                TermsV {
                    terms: terms_of(counts, ix.df, query, query.len() as int),
                    n_docs: ix.n_docs,
                    total_tokens: ix.total_tokens,
                    doc_len: sum_of(counts, counts.len() as int),
                },
            )
        },
    }
}

fn count_one(counts: &mut OrdMap<String, u64>, w: &String)
    ensures
        final(counts)@ == counted(old(counts)@, w@),
{
    let n: u64 = count_of(counts, w);
    counts.insert(w.dup(), n.saturating_add(1));
}

fn count_of(counts: &OrdMap<String, u64>, w: &String) -> (r: u64)
    ensures
        r == count_in(counts@, w@),
{
    match counts.get(w) {
        Some(n) => *n,
        None => 0,
    }
}

fn sum_counts(counts: &OrdMap<String, u64>) -> (r: u64)
    ensures
        r == sum_of(counts@, counts@.len() as int),
{
    let mut sum: u64 = 0;
    let mut i: usize = 0;
    while i < counts.entries.len()
        invariant
            i <= counts.entries.len(),
            sum == sum_of(counts@, i as int),
        decreases counts.entries.len() - i,
    {
        assert(counts@[i as int].1 == counts.entries@[i as int].1);
        sum = sum.saturating_add(counts.entries[i].1);
        i = i + 1;
    }
    sum
}

fn in_first(ws: &Vec<String>, w: &String, n: usize) -> (r: bool)
    requires
        n <= ws.len(),
    ensures
        r == among(ordmap::views(ws@), w@, n as int),
{
    let mut i: usize = 0;
    while i < n
        invariant
            i <= n <= ws.len(),
            forall|j: int| 0 <= j < i ==> #[trigger] ordmap::views(ws@)[j] != w@,
        decreases n - i,
    {
        assert(ordmap::views(ws@)[i as int] == ws@[i as int]@);
        if text::text_same(ws[i].as_str(), w.as_str()) {
            return true;
        }
        i = i + 1;
    }
    false
}

impl Bm25Index {
    /// The index over `field` of `records`. A record counts if its field holds a string.
    pub fn new(field: &str, records: &Vec<Record>) -> (r: Self)
        ensures
            r@ == index_of(field@, ordmap::views(records@), records@.len() as int),
    {
        let ghost recs = ordmap::views(records@);
        let mut ix = Bm25Index {
            field: text::owned(field),
            docs: OrdMap::new(),
            n_docs: 0,
            total_tokens: 0,
            df: OrdMap::new(),
        };
        assert(ix@ =~= empty_index(field@));
        let mut i: usize = 0;
        while i < records.len()
            invariant
                i <= records.len(),
                recs == ordmap::views(records@),
                ix@ == index_of(field@, recs, i as int),
                ix@.field == field@,
            decreases records.len() - i,
        {
            assert(recs[i as int] == records@[i as int]@);
            ix.index_record(&records[i]);
            i = i + 1;
        }
        ix
    }

    fn index_record(&mut self, rec: &Record)
        ensures
            final(self)@ == indexed(old(self)@, rec@),
            final(self)@.field == old(self)@.field,
    {
        let input = match rec.body.get(&self.field) {
            Some(Value::Str(s)) => s,
            _ => return,
        };
        let ws = tokenize(input.as_str());
        let ghost wv = ordmap::views(ws@);
        let mut counts: OrdMap<String, u64> = OrdMap::new();
        let mut i: usize = 0;
        while i < ws.len()
            invariant
                i <= ws.len(),
                wv == ordmap::views(ws@),
                counts@ == counts_of(wv, i as int),
            decreases ws.len() - i,
        {
            assert(wv[i as int] == ws@[i as int]@);
            count_one(&mut counts, &ws[i]);
            i = i + 1;
        }
        let sum = sum_counts(&counts);
        let ghost df0 = self.df@;
        let mut df: OrdMap<String, u64> = OrdMap::new();
        std::mem::swap(&mut df, &mut self.df);
        let mut j: usize = 0;
        while j < counts.entries.len()
            invariant
                j <= counts.entries.len(),
                df@ == df_with(df0, counts@, j as int),
            decreases counts.entries.len() - j,
        {
            assert(counts@[j as int].0 == counts.entries@[j as int].0@);
            count_one(&mut df, &counts.entries[j].0);
            j = j + 1;
        }
        self.df = df;
        self.total_tokens = self.total_tokens.saturating_add(sum);
        self.n_docs = self.n_docs.saturating_add(1);
        self.docs.insert(rec.id.dup(), counts);
    }

    /// What the relevance of the record `id` to the words of a query depends on; `None` where its
    /// score is zero without a look at the words.
    pub fn score(&self, id: &RecordId, query: &Vec<String>) -> (r: Option<Bm25Terms>)
        ensures
            ordmap::opt_view(r) == relevance(self@, id@, ordmap::views(query@)),
    {
        let counts = match self.docs.get(id) {
            Some(counts) => counts,
            None => return None,
        };
        if counts.is_empty() || query.len() == 0 {
            return None;
        }
        let ghost qs = ordmap::views(query@);
        let mut terms: Vec<(u64, u64)> = Vec::new();
        let mut i: usize = 0;
        while i < query.len()
            invariant
                i <= query.len(),
                qs == ordmap::views(query@),
                terms@ == terms_of(counts@, self.df@, qs, i as int),
            decreases query.len() - i,
        {
            assert(qs[i as int] == query@[i as int]@);
            if !in_first(query, &query[i], i) {
                let f: u64 = count_of(counts, &query[i]);
                if f != 0 {
                    let d: u64 = count_of(&self.df, &query[i]);
                    let d: u64 = if d == 0 {
                        1
                    } else {
                        d
                    };
                    terms.push((f, d));
                }
            }
            i = i + 1;
        }
        Some(
            Bm25Terms {
                terms,
                n_docs: self.n_docs,
                total_tokens: self.total_tokens,
                doc_len: sum_counts(counts),
            },
        )
    }

    /// The field that is indexed.
    pub fn field(&self) -> (r: &str)
        ensures
            r@ == self@.field,
    {
        self.field.as_str()
    }

    /// How many records were indexed.
    pub fn len(&self) -> (r: usize)
        ensures
            r == self@.docs.len(),
    {
        self.docs.len()
    }

    /// Whether no record was indexed.
    pub fn is_empty(&self) -> (r: bool)
        ensures
            r == (self@.docs.len() == 0),
    {
        self.docs.is_empty()
    }
}

// ---------------------------------------------------------------------------------------------
// Laws
// ---------------------------------------------------------------------------------------------
/// How often `w` occurs among the first `n` of `ws`.
pub open spec fn occurrences(ws: Seq<Seq<char>>, w: Seq<char>, n: int) -> nat
    decreases n,
{
    if n <= 0 {
        0
    } else {
        occurrences(ws, w, n - 1) + if ws[n - 1] == w {
            1nat
        } else {
            0
        }
    }
}

proof fn lemma_occurrences(ws: Seq<Seq<char>>, w: Seq<char>, n: int)
    requires
        0 <= n,
    ensures
        occurrences(ws, w, n) <= n,
        occurrences(ws, w, n) > 0 <==> among(ws, w, n),
    decreases n,
{
    if n > 0 {
        lemma_occurrences(ws, w, n - 1);
        if ws[n - 1] == w {
            assert(among(ws, w, n));
        }
        if among(ws, w, n - 1) {
            let i = choose|i: int| 0 <= i < n - 1 && #[trigger] ws[i] == w;
            assert(ws[i] == w);
        }
    }
}

/// Counting one more of `v` raises its count and no other.
proof fn lemma_counted(counts: CountsV, v: Seq<char>, w: Seq<char>)
    requires
        ordmap::ascending::<String, u64>(counts),
    ensures
        ordmap::ascending::<String, u64>(counted(counts, v)),
        count_in(counted(counts, v), w) == if v == w {
            more(count_in(counts, v))
        } else {
            count_in(counts, w)
        },
        ordmap::holds::<String, u64>(counted(counts, v), w) <==> v == w || ordmap::holds::<
            String,
            u64,
        >(counts, w),
{
    let n = more(count_in(counts, v));
    ordmap::lemma_put_ascending::<String, u64>(counts, v, n);
    ordmap::lemma_put_lookup_same::<String, u64>(counts, v, n);
    if v != w {
        ordmap::lemma_put_lookup_other::<String, u64>(counts, v, n, w);
    }
}

/// The counts of a text are how often each word occurs in it, and they hold the words that occur.
pub proof fn law_counts_are_frequencies(ws: Seq<Seq<char>>, n: int, w: Seq<char>)
    requires
        0 <= n <= ws.len(),
        n <= u64::MAX,
    ensures
        ordmap::ascending::<String, u64>(counts_of(ws, n)),
        count_in(counts_of(ws, n), w) == occurrences(ws, w, n),
        ordmap::holds::<String, u64>(counts_of(ws, n), w) <==> among(ws, w, n),
    decreases n,
{
    if n > 0 {
        law_counts_are_frequencies(ws, n - 1, w);
        law_counts_are_frequencies(ws, n - 1, ws[n - 1]);
        lemma_counted(counts_of(ws, n - 1), ws[n - 1], w);
        lemma_occurrences(ws, w, n - 1);
        lemma_occurrences(ws, w, n);
        lemma_occurrences(ws, ws[n - 1], n - 1);
    }
}

/// The key `w` is among the first `n` keys.
spec fn key_among(counts: CountsV, w: Seq<char>, n: int) -> bool {
    exists|i: int| 0 <= i < n && (#[trigger] counts[i]).0 == w
}

proof fn lemma_df_with(df: CountsV, counts: CountsV, n: int, w: Seq<char>)
    requires
        0 <= n <= counts.len(),
        ordmap::ascending::<String, u64>(df),
        ordmap::ascending::<String, u64>(counts),
        count_in(df, w) < u64::MAX,
    ensures
        ordmap::ascending::<String, u64>(df_with(df, counts, n)),
        count_in(df_with(df, counts, n), w) == count_in(df, w) + if key_among(counts, w, n) {
            1int
        } else {
            0
        },
    decreases n,
{
    if n > 0 {
        lemma_df_with(df, counts, n - 1, w);
        lemma_counted(df_with(df, counts, n - 1), counts[n - 1].0, w);
        if counts[n - 1].0 == w {
            assert(key_among(counts, w, n));
            if key_among(counts, w, n - 1) {
                let i = choose|i: int| 0 <= i < n - 1 && (#[trigger] counts[i]).0 == w;
                assert(text::text_lt(counts[i].0, counts[n - 1].0));
                text::lemma_text_lt_irreflexive(w);
            }
        } else if key_among(counts, w, n) {
            let i = choose|i: int| 0 <= i < n && (#[trigger] counts[i]).0 == w;
            assert(counts[i].0 == w);
        } else if key_among(counts, w, n - 1) {
            let i = choose|i: int| 0 <= i < n - 1 && (#[trigger] counts[i]).0 == w;
            assert(counts[i].0 == w);
        }
    }
}

/// The record has a text in `field`.
pub open spec fn has_text(rec: RecV, field: Seq<char>) -> bool {
    field_text(rec, field) is Some
}

/// The record has a text in `field`, and `w` is one of its words.
pub open spec fn has_word(rec: RecV, field: Seq<char>, w: Seq<char>) -> bool {
    field_text(rec, field) matches Some(s) && words(s).contains(w)
}

/// How many of the first `n` records have a text in `field`.
pub open spec fn texts(recs: Seq<RecV>, field: Seq<char>, n: int) -> nat
    decreases n,
{
    if n <= 0 {
        0
    } else {
        texts(recs, field, n - 1) + if has_text(recs[n - 1], field) {
            1nat
        } else {
            0
        }
    }
}

/// How many of the first `n` records have the word `w` in `field`.
pub open spec fn holders(recs: Seq<RecV>, field: Seq<char>, w: Seq<char>, n: int) -> nat
    decreases n,
{
    if n <= 0 {
        0
    } else {
        holders(recs, field, w, n - 1) + if has_word(recs[n - 1], field, w) {
            1nat
        } else {
            0
        }
    }
}

proof fn lemma_holders_bound(recs: Seq<RecV>, field: Seq<char>, w: Seq<char>, n: int)
    requires
        0 <= n,
    ensures
        holders(recs, field, w, n) <= texts(recs, field, n) <= n,
    decreases n,
{
    if n > 0 {
        lemma_holders_bound(recs, field, w, n - 1);
    }
}

/// An index counts its records and, for each word, the records that hold it.
pub proof fn law_index_counts_documents(field: Seq<char>, recs: Seq<RecV>, n: int, w: Seq<char>)
    requires
        0 <= n <= recs.len(),
        n < u64::MAX,
        forall|i: int|
            0 <= i < n && has_text(#[trigger] recs[i], field) ==> words(
                field_text(recs[i], field)->0,
            ).len() <= u64::MAX,
    ensures
        ({
            let ix = index_of(field, recs, n);
            &&& ix.field == field
            &&& ix.n_docs == texts(recs, field, n)
            &&& ordmap::ascending::<String, u64>(ix.df)
            &&& count_in(ix.df, w) == holders(recs, field, w, n)
        }),
    decreases n,
{
    if n > 0 {
        law_index_counts_documents(field, recs, n - 1, w);
        lemma_holders_bound(recs, field, w, n - 1);
        lemma_holders_bound(recs, field, w, n);
        let ix = index_of(field, recs, n - 1);
        let rec = recs[n - 1];
        if let Some(s) = field_text(rec, field) {
            let ws = words(s);
            let counts = counts_of(ws, ws.len() as int);
            assert(has_text(recs[n - 1], field));
            law_counts_are_frequencies(ws, ws.len() as int, w);
            lemma_df_with(ix.df, counts, counts.len() as int, w);
            ordmap::lemma_holds::<String, u64>(counts, w);
            assert(key_among(counts, w, counts.len() as int) <==> ordmap::holds::<String, u64>(
                counts,
                w,
            ));
            assert(among(ws, w, ws.len() as int) <==> ws.contains(w)) by {
                if ws.contains(w) {
                    let i = choose|i: int| 0 <= i < ws.len() && ws[i] == w;
                    assert(ws[i] == w);
                }
            }
        }
    }
}

proof fn lemma_sum_split(counts: CountsV, p: int, n: int)
    requires
        0 <= p < n <= counts.len(),
    ensures
        raw_sum(counts, n) == raw_sum(counts.remove(p), n - 1) + counts[p].1,
    decreases n,
{
    if n - 1 > p {
        lemma_sum_split(counts, p, n - 1);
        assert(counts.remove(p)[n - 2] == counts[n - 1]);
    } else {
        lemma_sum_same(counts, counts.remove(p), p);
    }
}

proof fn lemma_sum_same(a: CountsV, b: CountsV, n: int)
    requires
        0 <= n <= a.len(),
        n <= b.len(),
        forall|i: int| 0 <= i < n ==> #[trigger] a[i] == b[i],
    ensures
        raw_sum(a, n) == raw_sum(b, n),
    decreases n,
{
    if n > 0 {
        lemma_sum_same(a, b, n - 1);
        assert(a[n - 1] == b[n - 1]);
    }
}

/// The sum of the first `n` counts, without a bound.
spec fn raw_sum(counts: CountsV, n: int) -> nat
    decreases n,
{
    if n <= 0 {
        0
    } else {
        raw_sum(counts, n - 1) + counts[n - 1].1 as nat
    }
}

proof fn lemma_raw_counts(ws: Seq<Seq<char>>, n: int)
    requires
        0 <= n <= ws.len(),
        n <= u64::MAX,
    ensures
        raw_sum(counts_of(ws, n), counts_of(ws, n).len() as int) == n,
    decreases n,
{
    if n > 0 {
        lemma_raw_counts(ws, n - 1);
        let before = counts_of(ws, n - 1);
        let after = counts_of(ws, n);
        let w = ws[n - 1];
        law_counts_are_frequencies(ws, n - 1, w);
        lemma_occurrences(ws, w, n - 1);
        let p = ordmap::slot::<String, u64>(before, w, 0);
        ordmap::lemma_slot::<String, u64>(before, w, 0);
        lemma_sum_split(after, p, after.len() as int);
        if ordmap::holds::<String, u64>(before, w) {
            lemma_sum_split(before, p, before.len() as int);
            assert(after.remove(p) =~= before.remove(p));
        } else {
            assert(after.remove(p) =~= before);
        }
    }
}

proof fn lemma_sum_of(counts: CountsV, n: int)
    requires
        0 <= n <= counts.len(),
        raw_sum(counts, n) <= u64::MAX,
    ensures
        sum_of(counts, n) == raw_sum(counts, n),
    decreases n,
{
    if n > 0 {
        lemma_sum_of(counts, n - 1);
    }
}

/// The counts of a text add up to its number of words.
pub proof fn law_counts_add_up(ws: Seq<Seq<char>>)
    requires
        ws.len() <= u64::MAX,
    ensures
        sum_of(counts_of(ws, ws.len() as int), counts_of(ws, ws.len() as int).len() as int)
            == ws.len(),
{
    lemma_raw_counts(ws, ws.len() as int);
    lemma_sum_of(counts_of(ws, ws.len() as int), counts_of(ws, ws.len() as int).len() as int);
}

/// How many words the first `n` records have in `field` together.
pub open spec fn word_total(recs: Seq<RecV>, field: Seq<char>, n: int) -> nat
    decreases n,
{
    if n <= 0 {
        0
    } else {
        word_total(recs, field, n - 1) + match field_text(recs[n - 1], field) {
            Some(s) => words(s).len(),
            None => 0,
        }
    }
}

/// An index counts the words of its records.
pub proof fn law_index_counts_words(field: Seq<char>, recs: Seq<RecV>, n: int)
    requires
        0 <= n <= recs.len(),
        word_total(recs, field, n) <= u64::MAX,
    ensures
        index_of(field, recs, n).total_tokens == word_total(recs, field, n),
        index_of(field, recs, n).field == field,
    decreases n,
{
    if n > 0 {
        law_index_counts_words(field, recs, n - 1);
        if let Some(s) = field_text(recs[n - 1], field) {
            law_counts_add_up(words(s));
        }
    }
}

/// A record whose field holds no text has no relevance to any query, and neither has one to a query
/// without words.
pub proof fn law_no_text_no_relevance(
    field: Seq<char>,
    recs: Seq<RecV>,
    n: int,
    id: RidV,
    query: Seq<Seq<char>>,
)
    requires
        0 <= n <= recs.len(),
        forall|i: int|
            0 <= i < n && (#[trigger] recs[i]).id == id ==> !has_text(recs[i], field),
    ensures
        relevance(index_of(field, recs, n), id, query) is None,
        relevance(index_of(field, recs, n), id, Seq::empty()) is None,
{
    lemma_unindexed(field, recs, n, id);
}

proof fn lemma_unindexed(field: Seq<char>, recs: Seq<RecV>, n: int, id: RidV)
    requires
        0 <= n <= recs.len(),
        forall|i: int|
            0 <= i < n && (#[trigger] recs[i]).id == id ==> !has_text(recs[i], field),
    ensures
        ordmap::ascending::<RecordId, CountsV>(index_of(field, recs, n).docs),
        ordmap::lookup::<RecordId, CountsV>(index_of(field, recs, n).docs, id) is None,
        index_of(field, recs, n).field == field,
    decreases n,
{
    if n > 0 {
        lemma_unindexed(field, recs, n - 1, id);
        let ix = index_of(field, recs, n - 1);
        let rec = recs[n - 1];
        if let Some(s) = field_text(rec, field) {
            let counts = counts_of(words(s), words(s).len() as int);
            ordmap::lemma_put_ascending::<RecordId, CountsV>(ix.docs, rec.id, counts);
            assert(rec.id != id);
            ordmap::lemma_put_lookup_other::<RecordId, CountsV>(ix.docs, rec.id, counts, id);
        }
    }
}

/// A word of the query that a record does not hold, or that occurred earlier in the query, adds
/// nothing to its relevance.
pub proof fn law_terms_are_distinct_held_words(
    counts: CountsV,
    df: CountsV,
    query: Seq<Seq<char>>,
    n: int,
)
    requires
        0 < n <= query.len(),
        among(query, query[n - 1], n - 1) || count_in(counts, query[n - 1]) == 0,
    ensures
        terms_of(counts, df, query, n) == terms_of(counts, df, query, n - 1),
{
}

proof fn lemma_words_acc(s: Seq<char>, i: int, word: Seq<char>, acc: Seq<Seq<char>>)
    ensures
        words_from(s, i, word, acc) == acc + words_from(s, i, word, Seq::empty()),
    decreases s.len() - i,
{
    let none = Seq::<Seq<char>>::empty();
    assert(with_word(acc, word) =~= acc + with_word(none, word));
    if 0 <= i < s.len() {
        if alphanumeric(s[i]) {
            lemma_words_acc(s, i + 1, word.push(s[i]), acc);
        } else {
            lemma_words_acc(s, i + 1, Seq::empty(), with_word(acc, word));
            lemma_words_acc(s, i + 1, Seq::empty(), with_word(none, word));
            let rest = words_from(s, i + 1, Seq::empty(), none);
            assert((acc + with_word(none, word)) + rest =~= acc + (with_word(none, word) + rest));
        }
    }
}

/// Behind `off` characters, the words are those of the text that stands there.
proof fn lemma_words_behind(
    whole: Seq<char>,
    s: Seq<char>,
    off: int,
    i: int,
    word: Seq<char>,
    acc: Seq<Seq<char>>,
)
    requires
        0 <= off,
        0 <= i <= s.len(),
        whole.len() == off + s.len(),
        forall|k: int| 0 <= k < s.len() ==> #[trigger] s[k] == whole[off + k],
    ensures
        words_from(whole, off + i, word, acc) == words_from(s, i, word, acc),
    decreases s.len() - i,
{
    if i < s.len() {
        assert(s[i] == whole[off + i]);
        if alphanumeric(s[i]) {
            lemma_words_behind(whole, s, off, i + 1, word.push(s[i]), acc);
        } else {
            lemma_words_behind(whole, s, off, i + 1, Seq::empty(), with_word(acc, word));
        }
    }
}

/// Before a separator, the words are those of the text that ends there.
proof fn lemma_words_before(
    whole: Seq<char>,
    s: Seq<char>,
    i: int,
    word: Seq<char>,
    acc: Seq<Seq<char>>,
)
    requires
        0 <= i <= s.len() < whole.len(),
        forall|k: int| 0 <= k < s.len() ==> #[trigger] s[k] == whole[k],
        !alphanumeric(whole[s.len() as int]),
    ensures
        words_from(whole, i, word, acc) == words_from(
            whole,
            (s.len() + 1) as int,
            Seq::empty(),
            words_from(s, i, word, acc),
        ),
    decreases s.len() - i,
{
    if i < s.len() {
        assert(s[i] == whole[i]);
        if alphanumeric(s[i]) {
            lemma_words_before(whole, s, i + 1, word.push(s[i]), acc);
        } else {
            lemma_words_before(whole, s, i + 1, Seq::empty(), with_word(acc, word));
        }
    }
}

/// A separator splits a text: the words of the whole are those before it and then those behind it.
pub proof fn law_separator_splits_words(a: Seq<char>, c: char, b: Seq<char>)
    requires
        !alphanumeric(c),
    ensures
        words(a.push(c) + b) == words(a) + words(b),
{
    let whole = a.push(c) + b;
    let none = Seq::<Seq<char>>::empty();
    lemma_words_before(whole, a, 0, Seq::empty(), none);
    assert forall|k: int| 0 <= k < b.len() implies #[trigger] b[k] == whole[a.len() + 1 + k] by {}
    lemma_words_behind(whole, b, (a.len() + 1) as int, 0, Seq::empty(), words(a));
    lemma_words_acc(b, 0, Seq::empty(), words(a));
}

/// A text of letters and numbers alone is one word, in lower case; an empty text has no word.
pub proof fn law_unbroken_text_is_one_word(s: Seq<char>)
    requires
        forall|i: int| 0 <= i < s.len() ==> alphanumeric(#[trigger] s[i]),
    ensures
        words(s) == if s.len() == 0 {
            Seq::empty()
        } else {
            seq![lowercase(s)]
        },
{
    lemma_unbroken(s, 0);
    assert(s.take(0) =~= Seq::<char>::empty());
    assert(with_word(Seq::empty(), s) =~= if s.len() == 0 {
        Seq::empty()
    } else {
        seq![lowercase(s)]
    });
}

proof fn lemma_unbroken(s: Seq<char>, i: int)
    requires
        0 <= i <= s.len(),
        forall|k: int| 0 <= k < s.len() ==> alphanumeric(#[trigger] s[k]),
    ensures
        words_from(s, i, s.take(i), Seq::empty()) == with_word(Seq::empty(), s),
    decreases s.len() - i,
{
    if i < s.len() {
        assert(alphanumeric(s[i]));
        lemma_unbroken(s, i + 1);
        assert(s.take(i + 1) =~= s.take(i).push(s[i]));
    } else {
        assert(s.take(i) =~= s);
    }
}

/// No two records have the same id.
pub open spec fn distinct_ids(recs: Seq<RecV>) -> bool {
    forall|i: int, j: int|
        0 <= i < j < recs.len() ==> (#[trigger] recs[i]).id != (#[trigger] recs[j]).id
}

/// The maps of the index are in order.
spec fn index_wf(ix: IndexV) -> bool {
    ordmap::ascending::<RecordId, CountsV>(ix.docs) && ordmap::ascending::<String, u64>(ix.df)
}

proof fn lemma_counts_ascend(ws: Seq<Seq<char>>, n: int)
    requires
        0 <= n <= ws.len(),
    ensures
        ordmap::ascending::<String, u64>(counts_of(ws, n)),
    decreases n,
{
    if n > 0 {
        lemma_counts_ascend(ws, n - 1);
        lemma_counted(counts_of(ws, n - 1), ws[n - 1], ws[n - 1]);
    }
}

/// A word is counted exactly if it occurs.
proof fn lemma_counted_words(ws: Seq<Seq<char>>, n: int, w: Seq<char>)
    requires
        0 <= n <= ws.len(),
    ensures
        count_in(counts_of(ws, n), w) > 0 <==> among(ws, w, n),
        counts_of(ws, n).len() == 0 ==> n == 0,
    decreases n,
{
    if n > 0 {
        lemma_counted_words(ws, n - 1, w);
        lemma_counts_ascend(ws, n - 1);
        lemma_counted(counts_of(ws, n - 1), ws[n - 1], w);
        lemma_counted(counts_of(ws, n - 1), ws[n - 1], ws[n - 1]);
        if ws[n - 1] == w {
            assert(among(ws, w, n));
        }
        if among(ws, w, n - 1) {
            let i = choose|i: int| 0 <= i < n - 1 && #[trigger] ws[i] == w;
            assert(ws[i] == w);
        }
        if among(ws, w, n) {
            let i = choose|i: int| 0 <= i < n && #[trigger] ws[i] == w;
            assert(i == n - 1 || among(ws, w, n - 1));
        }
    }
}

/// Adding the words of a record raises the count of each of them by one.
proof fn lemma_df_raised(df: CountsV, counts: CountsV, n: int, w: Seq<char>)
    requires
        0 <= n <= counts.len(),
        ordmap::ascending::<String, u64>(df),
        ordmap::ascending::<String, u64>(counts),
    ensures
        ({
            let after = df_with(df, counts, n);
            &&& ordmap::ascending::<String, u64>(after)
            &&& ordmap::lookup::<String, u64>(after, w) == if key_among(counts, w, n) {
                Some(more(count_in(df, w)))
            } else {
                ordmap::lookup::<String, u64>(df, w)
            }
        }),
    decreases n,
{
    if n > 0 {
        let before = df_with(df, counts, n - 1);
        let v = counts[n - 1].0;
        lemma_df_raised(df, counts, n - 1, w);
        lemma_counted(before, v, w);
        if v == w {
            assert(key_among(counts, w, n));
            if key_among(counts, w, n - 1) {
                let i = choose|i: int| 0 <= i < n - 1 && (#[trigger] counts[i]).0 == w;
                assert(text::text_lt(counts[i].0, counts[n - 1].0));
                text::lemma_text_lt_irreflexive(w);
            }
            ordmap::lemma_put_lookup_same::<String, u64>(before, v, more(count_in(before, v)));
        } else {
            ordmap::lemma_put_lookup_other::<String, u64>(before, v, more(count_in(before, v)), w);
            if key_among(counts, w, n) {
                let i = choose|i: int| 0 <= i < n && (#[trigger] counts[i]).0 == w;
                assert(counts[i].0 == w && i < n - 1);
            }
            if key_among(counts, w, n - 1) {
                let i = choose|i: int| 0 <= i < n - 1 && (#[trigger] counts[i]).0 == w;
                assert(counts[i].0 == w);
            }
        }
    }
}

proof fn lemma_indexed_wf(ix: IndexV, rec: RecV)
    requires
        index_wf(ix),
    ensures
        index_wf(indexed(ix, rec)),
        indexed(ix, rec).field == ix.field,
{
    if let Some(s) = field_text(rec, ix.field) {
        let counts = counts_of(words(s), words(s).len() as int);
        lemma_counts_ascend(words(s), words(s).len() as int);
        lemma_df_raised(ix.df, counts, counts.len() as int, s);
        ordmap::lemma_put_ascending::<RecordId, CountsV>(ix.docs, rec.id, counts);
    }
}

proof fn lemma_index_wf(field: Seq<char>, recs: Seq<RecV>, n: int)
    requires
        0 <= n <= recs.len(),
    ensures
        index_wf(index_of(field, recs, n)),
        index_of(field, recs, n).field == field,
    decreases n,
{
    if n > 0 {
        lemma_index_wf(field, recs, n - 1);
        lemma_indexed_wf(index_of(field, recs, n - 1), recs[n - 1]);
    }
}

/// Two records may be indexed in either order.
proof fn lemma_indexing_commutes(ix: IndexV, a: RecV, b: RecV)
    requires
        index_wf(ix),
        a.id != b.id,
    ensures
        indexed(indexed(ix, a), b) == indexed(indexed(ix, b), a),
{
    lemma_indexed_wf(ix, a);
    lemma_indexed_wf(ix, b);
    match (field_text(a, ix.field), field_text(b, ix.field)) {
        (Some(s), Some(t)) => {
            let ca = counts_of(words(s), words(s).len() as int);
            let cb = counts_of(words(t), words(t).len() as int);
            let (na, nb) = (ca.len() as int, cb.len() as int);
            lemma_counts_ascend(words(s), words(s).len() as int);
            lemma_counts_ascend(words(t), words(t).len() as int);
            let x = indexed(indexed(ix, a), b);
            let y = indexed(indexed(ix, b), a);
            lemma_indexed_wf(indexed(ix, a), b);
            lemma_indexed_wf(indexed(ix, b), a);
            assert forall|id: RidV| #[trigger]
                ordmap::lookup::<RecordId, CountsV>(x.docs, id) == ordmap::lookup::<
                    RecordId,
                    CountsV,
                >(y.docs, id) by {
                lemma_two_puts(ix.docs, a.id, ca, b.id, cb, id);
                lemma_two_puts(ix.docs, b.id, cb, a.id, ca, id);
            }
            ordmap::lemma_same_map::<RecordId, CountsV>(x.docs, y.docs);
            assert forall|w: Seq<char>| #[trigger]
                ordmap::lookup::<String, u64>(x.df, w) == ordmap::lookup::<String, u64>(
                    y.df,
                    w,
                ) by {
                lemma_df_raised(ix.df, ca, na, w);
                lemma_df_raised(ix.df, cb, nb, w);
                lemma_df_raised(df_with(ix.df, ca, na), cb, nb, w);
                lemma_df_raised(df_with(ix.df, cb, nb), ca, na, w);
            }
            ordmap::lemma_same_map::<String, u64>(x.df, y.df);
        },
        _ => {},
    }
}

proof fn lemma_two_puts(
    docs: Seq<(RidV, CountsV)>,
    i: RidV,
    a: CountsV,
    j: RidV,
    b: CountsV,
    id: RidV,
)
    requires
        ordmap::ascending::<RecordId, CountsV>(docs),
        i != j,
    ensures
        ordmap::lookup::<RecordId, CountsV>(
            ordmap::put::<RecordId, CountsV>(ordmap::put::<RecordId, CountsV>(docs, i, a), j, b),
            id,
        ) == if id == j {
            Some(b)
        } else if id == i {
            Some(a)
        } else {
            ordmap::lookup::<RecordId, CountsV>(docs, id)
        },
{
    let once = ordmap::put::<RecordId, CountsV>(docs, i, a);
    ordmap::lemma_put_ascending::<RecordId, CountsV>(docs, i, a);
    ordmap::lemma_put_lookup_same::<RecordId, CountsV>(docs, i, a);
    ordmap::lemma_put_lookup_same::<RecordId, CountsV>(once, j, b);
    if id != j {
        ordmap::lemma_put_lookup_other::<RecordId, CountsV>(once, j, b, id);
        if id != i {
            ordmap::lemma_put_lookup_other::<RecordId, CountsV>(docs, i, a, id);
        }
    }
}

proof fn lemma_index_prefix(field: Seq<char>, recs: Seq<RecV>, others: Seq<RecV>, n: int)
    requires
        0 <= n <= recs.len(),
        n <= others.len(),
        forall|i: int| 0 <= i < n ==> #[trigger] recs[i] == others[i],
    ensures
        index_of(field, recs, n) == index_of(field, others, n),
    decreases n,
{
    if n > 0 {
        lemma_index_prefix(field, recs, others, n - 1);
        assert(recs[n - 1] == others[n - 1]);
    }
}

/// Any one of the records may be indexed last.
proof fn lemma_indexed_last(field: Seq<char>, recs: Seq<RecV>, p: int, n: int)
    requires
        distinct_ids(recs),
        0 <= p < n <= recs.len(),
    ensures
        index_of(field, recs, n) == indexed(index_of(field, recs.remove(p), n - 1), recs[p]),
    decreases n,
{
    let rest = recs.remove(p);
    if p == n - 1 {
        lemma_index_prefix(field, recs, rest, n - 1);
    } else {
        lemma_indexed_last(field, recs, p, n - 1);
        lemma_index_wf(field, rest, n - 2);
        assert(rest[n - 2] == recs[n - 1]);
        assert(recs[p].id != recs[n - 1].id);
        lemma_indexing_commutes(index_of(field, rest, n - 2), recs[p], recs[n - 1]);
    }
}

proof fn lemma_textless_index(field: Seq<char>, recs: Seq<RecV>, n: int)
    requires
        0 <= n <= recs.len(),
        forall|i: int| 0 <= i < recs.len() ==> !has_text(#[trigger] recs[i], field),
    ensures
        index_of(field, recs, n) == empty_index(field),
    decreases n,
{
    if n > 0 {
        lemma_textless_index(field, recs, n - 1);
        assert(!has_text(recs[n - 1], field));
    }
}

/// The index depends on which records have a text in its field, and neither on their order nor on
/// the other records: two lists that hold the same such records give the same index.
pub proof fn law_index_ignores_order(field: Seq<char>, recs: Seq<RecV>, others: Seq<RecV>)
    requires
        distinct_ids(recs),
        distinct_ids(others),
        forall|r: RecV| #[trigger]
            has_text(r, field) ==> (recs.contains(r) <==> others.contains(r)),
    ensures
        index_of(field, recs, recs.len() as int) == index_of(field, others, others.len() as int),
    decreases others.len(),
{
    let (n, m) = (recs.len() as int, others.len() as int);
    if m == 0 {
        assert forall|i: int| 0 <= i < n implies !has_text(#[trigger] recs[i], field) by {
            if has_text(recs[i], field) {
                assert(recs.contains(recs[i]));
                assert(others.contains(recs[i]));
            }
        }
        lemma_textless_index(field, recs, n);
    } else {
        let x = others[m - 1];
        let fewer = others.drop_last();
        lemma_index_prefix(field, others, fewer, m - 1);
        lemma_index_wf(field, fewer, m - 1);
        if !has_text(x, field) {
            assert forall|r: RecV| #[trigger] has_text(r, field) implies (recs.contains(r)
                <==> fewer.contains(r)) by {
                lemma_contains_less(others, r);
            }
            law_index_ignores_order(field, recs, fewer);
        } else {
            assert(others.contains(x));
            assert(recs.contains(x));
            let p = choose|p: int| 0 <= p < recs.len() && recs[p] == x;
            let rest = recs.remove(p);
            assert forall|i: int, j: int| 0 <= i < j < rest.len() implies (#[trigger] rest[i]).id
                != (#[trigger] rest[j]).id by {
                let a = if i < p {
                    i
                } else {
                    i + 1
                };
                let b = if j < p {
                    j
                } else {
                    j + 1
                };
                assert(recs[a].id != recs[b].id);
            }
            assert forall|r: RecV| #[trigger] has_text(r, field) implies (rest.contains(r)
                <==> fewer.contains(r)) by {
                lemma_contains_less(others, r);
                lemma_contains_removed(recs, p, r);
                if r == x && fewer.contains(r) {
                    let k = choose|k: int| 0 <= k < fewer.len() && fewer[k] == r;
                    assert(others[k].id != others[m - 1].id);
                }
            }
            law_index_ignores_order(field, rest, fewer);
            lemma_indexed_last(field, recs, p, n);
        }
    }
}

proof fn lemma_contains_less(recs: Seq<RecV>, r: RecV)
    requires
        recs.len() > 0,
    ensures
        recs.contains(r) <==> recs.drop_last().contains(r) || r == recs.last(),
{
    let less = recs.drop_last();
    if recs.contains(r) {
        let k = choose|k: int| 0 <= k < recs.len() && recs[k] == r;
        if k < less.len() {
            assert(less[k] == r);
        }
    }
    if less.contains(r) {
        let k = choose|k: int| 0 <= k < less.len() && less[k] == r;
        assert(recs[k] == r);
    }
    assert(recs[recs.len() - 1] == recs.last());
}

proof fn lemma_contains_removed(recs: Seq<RecV>, p: int, r: RecV)
    requires
        distinct_ids(recs),
        0 <= p < recs.len(),
    ensures
        recs.remove(p).contains(r) <==> recs.contains(r) && r != recs[p],
{
    let rest = recs.remove(p);
    if rest.contains(r) {
        let k = choose|k: int| 0 <= k < rest.len() && rest[k] == r;
        let i = if k < p {
            k
        } else {
            k + 1
        };
        assert(recs[i] == r);
        if i < p {
            assert(recs[i].id != recs[p].id);
        } else {
            assert(recs[p].id != recs[i].id);
        }
    }
    if recs.contains(r) && r != recs[p] {
        let i = choose|i: int| 0 <= i < recs.len() && recs[i] == r;
        let k = if i < p {
            i
        } else {
            i - 1
        };
        assert(rest[k] == r);
    }
}

/// What the index holds of the record at `i`: the counts of its words.
proof fn lemma_indexed_record(field: Seq<char>, recs: Seq<RecV>, n: int, i: int)
    requires
        distinct_ids(recs),
        0 <= i < n <= recs.len(),
    ensures
        ordmap::lookup::<RecordId, CountsV>(index_of(field, recs, n).docs, recs[i].id) == (
        match field_text(recs[i], field) {
            Some(s) => Some(counts_of(words(s), words(s).len() as int)),
            None => None,
        }),
    decreases n,
{
    let ix = index_of(field, recs, n - 1);
    lemma_index_wf(field, recs, n - 1);
    let last = recs[n - 1];
    if i < n - 1 {
        lemma_indexed_record(field, recs, n - 1, i);
        assert(recs[i].id != last.id);
        if let Some(s) = field_text(last, field) {
            let counts = counts_of(words(s), words(s).len() as int);
            ordmap::lemma_put_lookup_other::<RecordId, CountsV>(
                ix.docs,
                last.id,
                counts,
                recs[i].id,
            );
        }
    } else {
        match field_text(last, field) {
            Some(s) => {
                let counts = counts_of(words(s), words(s).len() as int);
                ordmap::lemma_put_lookup_same::<RecordId, CountsV>(ix.docs, last.id, counts);
            },
            None => {
                assert forall|j: int| 0 <= j < n && (#[trigger] recs[j]).id == last.id implies
                    !has_text(recs[j], field) by {
                    if j < n - 1 {
                        assert(recs[j].id != recs[n - 1].id);
                    }
                }
                lemma_unindexed(field, recs, n, last.id);
            },
        }
    }
}

/// A record with the id `id` has a word of the query in `field`.
pub open spec fn shares_a_word(
    field: Seq<char>,
    recs: Seq<RecV>,
    id: RidV,
    query: Seq<Seq<char>>,
) -> bool {
    exists|i: int, j: int|
        0 <= i < recs.len() && 0 <= j < query.len() && (#[trigger] recs[i]).id == id && has_word(
            recs[i],
            field,
            #[trigger] query[j],
        )
}

/// There are terms exactly if one of the first `n` words of the query is counted.
proof fn lemma_some_terms(counts: CountsV, df: CountsV, query: Seq<Seq<char>>, n: int)
    requires
        0 <= n <= query.len(),
    ensures
        terms_of(counts, df, query, n).len() > 0 <==> exists|j: int|
            0 <= j < n && count_in(counts, #[trigger] query[j]) > 0,
    decreases n,
{
    if n > 0 {
        lemma_some_terms(counts, df, query, n - 1);
        let w = query[n - 1];
        if count_in(counts, w) > 0 {
            if among(query, w, n - 1) {
                let i = choose|i: int| 0 <= i < n - 1 && #[trigger] query[i] == w;
                assert(count_in(counts, query[i]) > 0);
            }
            assert(count_in(counts, query[n - 1]) > 0);
        }
        if exists|j: int| 0 <= j < n - 1 && count_in(counts, #[trigger] query[j]) > 0 {
            let j = choose|j: int| 0 <= j < n - 1 && count_in(counts, #[trigger] query[j]) > 0;
            assert(count_in(counts, query[j]) > 0);
        }
    }
}

/// A record is relevant to a query, that is, has a term to score, exactly if it has a word of the
/// query in the indexed field.
pub proof fn law_relevance_is_a_shared_word(
    field: Seq<char>,
    recs: Seq<RecV>,
    id: RidV,
    query: Seq<Seq<char>>,
)
    requires
        distinct_ids(recs),
    ensures
        (relevance(index_of(field, recs, recs.len() as int), id, query) matches Some(t)
            && t.terms.len() > 0) <==> shares_a_word(field, recs, id, query),
{
    let n = recs.len() as int;
    let ix = index_of(field, recs, n);
    let m = query.len() as int;
    if exists|i: int| 0 <= i < n && (#[trigger] recs[i]).id == id {
        let i = choose|i: int| 0 <= i < n && (#[trigger] recs[i]).id == id;
        lemma_indexed_record(field, recs, n, i);
        match field_text(recs[i], field) {
            None => {
                lemma_only_record(recs, i);
            },
            Some(s) => {
                let ws = words(s);
                let counts = counts_of(ws, ws.len() as int);
                lemma_some_terms(counts, ix.df, query, m);
                assert forall|j: int| 0 <= j < m implies (count_in(counts, #[trigger] query[j]) > 0
                    <==> has_word(recs[i], field, query[j])) by {
                    lemma_counted_words(ws, ws.len() as int, query[j]);
                    if ws.contains(query[j]) {
                        let k = choose|k: int| 0 <= k < ws.len() && ws[k] == query[j];
                        assert(ws[k] == query[j]);
                    }
                }
                lemma_only_record(recs, i);
                lemma_counted_words(ws, ws.len() as int, s);
                if shares_a_word(field, recs, id, query) {
                    let (a, j) = choose|a: int, j: int|
                        0 <= a < recs.len() && 0 <= j < query.len() && (#[trigger] recs[a]).id == id
                            && has_word(recs[a], field, #[trigger] query[j]);
                    assert(a == i);
                    assert(count_in(counts, query[j]) > 0);
                    lemma_counted_words(ws, ws.len() as int, query[j]);
                }
            },
        }
    } else {
        lemma_unindexed(field, recs, n, id);
    }
}

proof fn lemma_only_record(recs: Seq<RecV>, i: int)
    requires
        distinct_ids(recs),
        0 <= i < recs.len(),
    ensures
        forall|a: int| 0 <= a < recs.len() && (#[trigger] recs[a]).id == recs[i].id ==> a == i,
{
    assert forall|a: int| 0 <= a < recs.len() && (#[trigger] recs[a]).id == recs[i].id implies a
        == i by {
        if a < i {
            assert(recs[a].id != recs[i].id);
        } else if a > i {
            assert(recs[i].id != recs[a].id);
        }
    }
}

proof fn lemma_terms_prefix(
    counts: CountsV,
    df: CountsV,
    query: Seq<Seq<char>>,
    longer: Seq<Seq<char>>,
    n: int,
)
    requires
        0 <= n <= query.len() <= longer.len(),
        forall|i: int| 0 <= i < query.len() ==> #[trigger] query[i] == longer[i],
    ensures
        terms_of(counts, df, query, n) == terms_of(counts, df, longer, n),
    decreases n,
{
    if n > 0 {
        lemma_terms_prefix(counts, df, query, longer, n - 1);
        let w = query[n - 1];
        assert(w == longer[n - 1]);
        if among(query, w, n - 1) {
            let i = choose|i: int| 0 <= i < n - 1 && #[trigger] query[i] == w;
            assert(longer[i] == w);
        }
        if among(longer, w, n - 1) {
            let i = choose|i: int| 0 <= i < n - 1 && #[trigger] longer[i] == w;
            assert(query[i] == w);
        }
    }
}

/// Repeating a word of the query changes no relevance.
pub proof fn law_repeated_words_count_once(
    ix: IndexV,
    id: RidV,
    query: Seq<Seq<char>>,
    j: int,
)
    requires
        0 <= j < query.len(),
    ensures
        relevance(ix, id, query.push(query[j])) == relevance(ix, id, query),
{
    let longer = query.push(query[j]);
    let n = query.len() as int;
    if let Some(counts) = ordmap::lookup::<RecordId, CountsV>(ix.docs, id) {
        assert(longer[j] == longer[n]);
        assert(among(longer, longer[n], n));
        lemma_terms_prefix(counts, ix.df, query, longer, n);
    }
}

proof fn lemma_terms_range(
    counts: CountsV,
    df: CountsV,
    query: Seq<Seq<char>>,
    n: int,
    len: int,
    docs: int,
)
    requires
        0 <= n <= query.len(),
        docs >= 1,
        forall|w: Seq<char>| #[trigger] count_in(counts, w) <= len,
        forall|w: Seq<char>| #[trigger] count_in(df, w) <= docs,
    ensures
        forall|i: int|
            0 <= i < terms_of(counts, df, query, n).len() ==> 1 <= (#[trigger] terms_of(
                counts,
                df,
                query,
                n,
            )[i]).0 <= len && 1 <= terms_of(counts, df, query, n)[i].1 <= docs,
    decreases n,
{
    if n > 0 {
        lemma_terms_range(counts, df, query, n - 1, len, docs);
        let w = query[n - 1];
        assert(count_in(counts, w) <= len);
        assert(count_in(df, w) <= docs);
        let before = terms_of(counts, df, query, n - 1);
        let after = terms_of(counts, df, query, n);
        assert forall|i: int| 0 <= i < after.len() implies 1 <= (#[trigger] after[i]).0 <= len && 1
            <= after[i].1 <= docs by {
            if i < before.len() {
                assert(after[i] == before[i]);
            }
        }
    }
}

proof fn lemma_record_counts(field: Seq<char>, recs: Seq<RecV>, n: int, i: int)
    requires
        0 <= i < n <= recs.len(),
        has_text(recs[i], field),
    ensures
        texts(recs, field, n) >= 1,
        words(field_text(recs[i], field)->0).len() <= word_total(recs, field, n),
    decreases n,
{
    if i < n - 1 {
        lemma_record_counts(field, recs, n - 1, i);
    }
}

/// The counts behind a relevance are in range: each term occurs in the record and in no more records
/// than there are, none occurs more often than the record has words, and the record has a word and no
/// more of them than all records together.
pub proof fn law_terms_are_in_range(
    field: Seq<char>,
    recs: Seq<RecV>,
    id: RidV,
    query: Seq<Seq<char>>,
)
    requires
        distinct_ids(recs),
        recs.len() < u64::MAX,
        word_total(recs, field, recs.len() as int) <= u64::MAX,
    ensures
        relevance(index_of(field, recs, recs.len() as int), id, query) matches Some(t) ==> {
            &&& 1 <= t.n_docs <= recs.len()
            &&& 1 <= t.doc_len <= t.total_tokens
            &&& forall|i: int|
                0 <= i < t.terms.len() ==> 1 <= (#[trigger] t.terms[i]).0 <= t.doc_len && 1
                    <= t.terms[i].1 <= t.n_docs
        },
{
    let n = recs.len() as int;
    let ix = index_of(field, recs, n);
    if exists|i: int| 0 <= i < n && (#[trigger] recs[i]).id == id && has_text(recs[i], field) {
        let i = choose|i: int|
            0 <= i < n && (#[trigger] recs[i]).id == id && has_text(recs[i], field);
        assert forall|j: int| 0 <= j < n && has_text(#[trigger] recs[j], field) implies words(
            field_text(recs[j], field)->0,
        ).len() <= u64::MAX by {
            lemma_record_counts(field, recs, n, j);
        }
        lemma_record_counts(field, recs, n, i);
        lemma_indexed_record(field, recs, n, i);
        let ws = words(field_text(recs[i], field)->0);
        let m = ws.len() as int;
        let counts = counts_of(ws, m);
        law_counts_add_up(ws);
        law_index_counts_words(field, recs, n);
        law_index_counts_documents(field, recs, n, Seq::empty());
        lemma_holders_bound(recs, field, Seq::empty(), n);
        assert forall|w: Seq<char>| #[trigger] count_in(counts, w) <= m by {
            law_counts_are_frequencies(ws, m, w);
            lemma_occurrences(ws, w, m);
        }
        assert forall|w: Seq<char>| #[trigger] count_in(ix.df, w) <= ix.n_docs by {
            law_index_counts_documents(field, recs, n, w);
            lemma_holders_bound(recs, field, w, n);
        }
        lemma_terms_range(counts, ix.df, query, query.len() as int, m, ix.n_docs as int);
        if m == 0 {
            assert(counts.len() == 0);
        }
    } else {
        assert forall|j: int| 0 <= j < n && (#[trigger] recs[j]).id == id implies !has_text(
            recs[j],
            field,
        ) by {}
        lemma_unindexed(field, recs, n, id);
    }
}

proof fn lemma_holders_filtered(recs: Seq<RecV>, field: Seq<char>, w: Seq<char>, n: int)
    requires
        0 <= n <= recs.len(),
    ensures
        holders(recs, field, w, n) == recs.take(n).filter(
            |r: RecV|
                ordmap::lookup::<String, ValV>(r.body, field) is Some && ordmap::lookup::<
                    String,
                    ValV,
                >(r.body, field)->0 is Str && words(
                    ordmap::lookup::<String, ValV>(r.body, field)->0->Str_0,
                ).contains(w),
        ).len(),
        texts(recs, field, n) == recs.take(n).filter(
            |r: RecV|
                ordmap::lookup::<String, ValV>(r.body, field) is Some && ordmap::lookup::<
                    String,
                    ValV,
                >(r.body, field)->0 is Str,
        ).len(),
    decreases n,
{
    reveal(Seq::filter);
    if n > 0 {
        lemma_holders_filtered(recs, field, w, n - 1);
        assert(recs.take(n).drop_last() =~= recs.take(n - 1));
        assert(recs.take(n).last() == recs[n - 1]);
    } else {
        assert(recs.take(0) =~= Seq::<RecV>::empty());
    }
}

proof fn lemma_occurrences_filtered(ws: Seq<Seq<char>>, w: Seq<char>, n: int)
    requires
        0 <= n <= ws.len(),
    ensures
        occurrences(ws, w, n) == ws.take(n).filter(|x: Seq<char>| x == w).len(),
    decreases n,
{
    reveal(Seq::filter);
    if n > 0 {
        lemma_occurrences_filtered(ws, w, n - 1);
        assert(ws.take(n).drop_last() =~= ws.take(n - 1));
        assert(ws.take(n).last() == ws[n - 1]);
    } else {
        assert(ws.take(0) =~= Seq::<Seq<char>>::empty());
    }
}

/// What one more word of a query adds to the relevance of a record, exactly. A new word that the record
/// holds adds a term: how often the text of the record holds it, and how many records hold it. A word
/// that the record does not hold adds nothing. Beside the terms stand the number of records with a text,
/// the words of all texts together, and those of this one.
pub proof fn law_a_word_of_the_query_adds_its_counts(
    field: Seq<char>,
    recs: Seq<RecV>,
    i: int,
    s: Seq<char>,
    query: Seq<Seq<char>>,
    w: Seq<char>,
)
    requires
        distinct_ids(recs),
        recs.len() < u64::MAX,
        word_total(recs, field, recs.len() as int) <= u64::MAX,
        0 <= i < recs.len(),
        ordmap::lookup::<String, ValV>(recs[i].body, field) == Some(ValV::Str(s)),
        words(s).len() > 0,
        !query.contains(w),
    ensures
        ({
            let ix = index_of(field, recs, recs.len() as int);
            let before = if query.len() == 0 {
                Seq::empty()
            } else {
                relevance(ix, recs[i].id, query)->0.terms
            };
            let after = relevance(ix, recs[i].id, query.push(w));
            let held = words(s).filter(|x: Seq<char>| x == w).len();
            let by = recs.filter(
                |r: RecV|
                    ordmap::lookup::<String, ValV>(r.body, field) is Some && ordmap::lookup::<
                        String,
                        ValV,
                    >(r.body, field)->0 is Str && words(
                        ordmap::lookup::<String, ValV>(r.body, field)->0->Str_0,
                    ).contains(w),
            ).len();
            &&& query.len() > 0 ==> relevance(ix, recs[i].id, query) is Some
            &&& after is Some
            &&& !words(s).contains(w) ==> after->0.terms == before
            &&& words(s).contains(w) ==> held >= 1 && by >= 1 && after->0.terms == before.push(
                (held as u64, by as u64),
            )
            &&& after->0.n_docs == recs.filter(
                |r: RecV|
                    ordmap::lookup::<String, ValV>(r.body, field) is Some && ordmap::lookup::<
                        String,
                        ValV,
                    >(r.body, field)->0 is Str,
            ).len()
            &&& after->0.total_tokens == word_total(recs, field, recs.len() as int)
            &&& after->0.doc_len == words(s).len()
        }),
{
    let n = recs.len() as int;
    let ix = index_of(field, recs, n);
    let ws = words(s);
    let m = ws.len() as int;
    let counts = counts_of(ws, m);
    let longer = query.push(w);
    let q = query.len() as int;
    assert(field_text(recs[i], field) == Some(s));
    assert forall|j: int| 0 <= j < n && has_text(#[trigger] recs[j], field) implies words(
        field_text(recs[j], field)->0,
    ).len() <= u64::MAX by {
        lemma_record_counts(field, recs, n, j);
    }
    lemma_record_counts(field, recs, n, i);
    lemma_indexed_record(field, recs, n, i);
    law_counts_add_up(ws);
    law_index_counts_words(field, recs, n);
    law_index_counts_documents(field, recs, n, w);
    law_counts_are_frequencies(ws, m, w);
    law_counts_are_frequencies(ws, m, ws[0]);
    assert(among(ws, ws[0], m));
    assert(counts.len() > 0);
    lemma_holders_filtered(recs, field, w, n);
    assert(recs.take(n) =~= recs);
    lemma_occurrences_filtered(ws, w, m);
    assert(ws.take(m) =~= ws);
    lemma_terms_prefix(counts, ix.df, query, longer, q);
    assert(longer[q] == w);
    if among(longer, w, q) {
        let k = choose|k: int| 0 <= k < q && #[trigger] longer[k] == w;
        assert(query[k] == w);
        assert(query.contains(w));
    }
    assert(terms_of(counts, ix.df, longer, 0) =~= Seq::<(u64, u64)>::empty());
    assert(terms_of(counts, ix.df, query, 0) =~= Seq::<(u64, u64)>::empty());
    lemma_occurrences(ws, w, m);
    lemma_holders_bound(recs, field, w, n);
    if ws.contains(w) {
        let k = choose|k: int| 0 <= k < ws.len() && ws[k] == w;
        assert(among(ws, w, m));
        assert(has_word(recs[i], field, w));
        lemma_one_holder(recs, field, w, n, i);
        lemma_one_occurrence(ws, w, m, k);
    } else {
        if among(ws, w, m) {
            let k = choose|k: int| 0 <= k < m && #[trigger] ws[k] == w;
            assert(ws.contains(w));
        }
        lemma_no_occurrence(ws, w, m);
    }
}

proof fn lemma_one_holder(recs: Seq<RecV>, field: Seq<char>, w: Seq<char>, n: int, i: int)
    requires
        0 <= i < n <= recs.len(),
        has_word(recs[i], field, w),
    ensures
        holders(recs, field, w, n) >= 1,
    decreases n,
{
    if i < n - 1 {
        lemma_one_holder(recs, field, w, n - 1, i);
    }
}

proof fn lemma_one_occurrence(ws: Seq<Seq<char>>, w: Seq<char>, n: int, k: int)
    requires
        0 <= k < n <= ws.len(),
        ws[k] == w,
    ensures
        occurrences(ws, w, n) >= 1,
    decreases n,
{
    if k < n - 1 {
        lemma_one_occurrence(ws, w, n - 1, k);
    }
}

proof fn lemma_no_occurrence(ws: Seq<Seq<char>>, w: Seq<char>, n: int)
    requires
        0 <= n <= ws.len(),
        !ws.contains(w),
    ensures
        occurrences(ws, w, n) == 0,
    decreases n,
{
    if n > 0 {
        lemma_no_occurrence(ws, w, n - 1);
        assert(ws[n - 1] != w) by {
            if ws[n - 1] == w {
                assert(ws.contains(w));
            }
        }
    }
}

} // verus!
