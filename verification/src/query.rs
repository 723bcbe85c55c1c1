//! Query document trees.
//!
//! A query is modelled as a tree of conjunctions, disjunctions and terms.
//! The tree can report which terms of which fields it would match
//! (`to_field_terms`) and write them into a document (`to_document`).
//! A conjunction contributes only its highest-scoring branch, where the
//! score of a term rises as its document frequency falls; scores are
//! compared exactly over rationals derived from the collection statistics.

use vstd::prelude::*;
use vstd::string::StringExecFns;

verus! {

/// A field of the schema, identified by its ordinal.
#[derive(Clone, Copy, PartialEq, Eq, Structural, Debug, Hash)]
pub struct Field {
    field_id: u32,
}

impl Field {
    /// The field's ordinal.
    pub closed spec fn spec_id(self) -> u32 {
        self.field_id
    }

    /// Wrap a field ordinal.
    pub fn from_field_id(field_id: u32) -> (r: Field)
        ensures
            r.spec_id() == field_id,
    {
        Field { field_id }
    }

    /// The field's ordinal.
    pub fn field_id(&self) -> (r: u32)
        ensures
            r == self.spec_id(),
    {
        self.field_id
    }
}

/// A term: a text in one field.
#[derive(Clone, Debug)]
pub struct Term {
    field: Field,
    text: String,
}

impl Term {
    /// The field the term belongs to.
    pub closed spec fn spec_field(self) -> u32 {
        self.field.field_id
    }

    /// The term's text.
    pub closed spec fn spec_text(self) -> Seq<char> {
        self.text@
    }

    /// Build a text term for a field.
    pub fn from_field_text(field: Field, text: &str) -> (r: Term)
        ensures
            r.spec_field() == field.spec_id(),
            r.spec_text() == text@,
    {
        Term { field, text: text.to_owned() }
    }

    /// The field the term belongs to.
    pub fn field(&self) -> (r: Field)
        ensures
            r.spec_id() == self.spec_field(),
    {
        self.field
    }

    /// The term's text.
    pub fn text(&self) -> (r: &str)
        ensures
            r@ == self.spec_text(),
    {
        self.text.as_str()
    }

    /// An equal copy of the term.
    fn duplicate(&self) -> (r: Term)
        ensures
            r == *self,
    {
        Term { field: self.field, text: self.text.clone() }
    }

    /// Whether two terms have the same field and text.
    pub fn term_eq(&self, other: &Term) -> (r: bool)
        ensures
            r == (self.spec_field() == other.spec_field() && self.spec_text()
                == other.spec_text()),
    {
        self.field.field_id == other.field.field_id && self.text == other.text
    }
}

/// The statistics source failed to answer.
#[derive(Clone, Copy, PartialEq, Eq, Structural, Debug)]
pub struct StatsError;

/// Collection statistics used to weigh terms, supplied by the index.
/// The spec functions are each implementation's abstract answer: `None`
/// stands for a failing call.
pub trait Bm25StatisticsProvider {
    /// The total number of documents, if available.
    spec fn spec_total_num_docs(&self) -> Option<u64>;

    /// The total number of tokens of a field, if available.
    spec fn spec_total_num_tokens(&self, field: Field) -> Option<u64>;

    /// The number of documents containing a term, if available.
    spec fn spec_doc_freq(&self, term: Term) -> Option<u64>;

    /// The total number of documents in the collection.
    fn total_num_docs(&self) -> (r: Result<u64, StatsError>)
        ensures
            match r {
                Ok(v) => self.spec_total_num_docs() == Some(v),
                Err(_) => self.spec_total_num_docs() is None,
            },
    ;

    /// The total number of tokens of a field.
    fn total_num_tokens(&self, field: Field) -> (r: Result<u64, StatsError>)
        ensures
            match r {
                Ok(v) => self.spec_total_num_tokens(field) == Some(v),
                Err(_) => self.spec_total_num_tokens(field) is None,
            },
    ;

    /// The number of documents containing `term`.
    fn doc_freq(&self, term: &Term) -> (r: Result<u64, StatsError>)
        ensures
            match r {
                Ok(v) => self.spec_doc_freq(*term) == Some(v),
                Err(_) => self.spec_doc_freq(*term) is None,
            },
    ;
}

/// Statistics are clamped to this bound before entering a score, so that
/// score numerators and denominators stay within `u64`.
pub const SCORE_CLAMP: u64 = 9223372036854775806;

/// Numerator of the score given to an empty disjunction.
pub const SCORE_ONE_NUM: u64 = 2718281828459045235;

/// Denominator of the score given to an empty disjunction.
pub const SCORE_ONE_DEN: u64 = 1000000000000000000;

/// A term-tree score, ordered `MinusOne < Zero < Ratio`, with `Ratio`
/// values ordered as exact positive rationals. A term with document
/// frequency `df` out of `n` documents scores `Ratio` with numerator
/// `2 * n + 2` and denominator `2 * df + 1` (after clamping), so rarer
/// terms score higher; a term whose statistics fail scores `Zero`, a
/// wildcard scores `MinusOne`, and an empty disjunction scores the fixed
/// `Ratio` of `SCORE_ONE_NUM / SCORE_ONE_DEN`.
#[derive(Clone, Copy, PartialEq, Eq, Structural, Debug)]
pub enum Score {
    MinusOne,
    Zero,
    Ratio { num: u64, den: u64 },
}

/// Strict order on scores.
pub open spec fn score_lt(a: Score, b: Score) -> bool {
    match (a, b) {
        (Score::MinusOne, Score::MinusOne) => false,
        (Score::MinusOne, _) => true,
        (Score::Zero, Score::Ratio { .. }) => true,
        (Score::Zero, _) => false,
        (Score::Ratio { num: an, den: ad }, Score::Ratio { num: bn, den: bd }) => an * bd < bn
            * ad,
        (Score::Ratio { .. }, _) => false,
    }
}

/// Compare two scores; exact with respect to `score_lt`.
pub fn score_less(a: &Score, b: &Score) -> (r: bool)
    ensures
        r == score_lt(*a, *b),
{
    match (a, b) {
        (Score::MinusOne, Score::MinusOne) => false,
        (Score::MinusOne, _) => true,
        (Score::Zero, Score::Ratio { .. }) => true,
        (Score::Zero, _) => false,
        (Score::Ratio { num: an, den: ad }, Score::Ratio { num: bn, den: bd }) => {
            proof {
                assert((*an as u128) * (*bd as u128) < 0x1_0000_0000_0000_0000_0000_0000_0000_0000
                    && (*bn as u128) * (*ad as u128)
                    < 0x1_0000_0000_0000_0000_0000_0000_0000_0000) by (nonlinear_arith)
                    requires
                        *an <= u64::MAX,
                        *bd <= u64::MAX,
                        *bn <= u64::MAX,
                        *ad <= u64::MAX;
            }
            (*an as u128) * (*bd as u128) < (*bn as u128) * (*ad as u128)
        },
        (Score::Ratio { .. }, _) => false,
    }
}

/// The score of a term with document frequency `df` among `n` documents.
pub open spec fn term_score(df: u64, n: u64) -> Score {
    Score::Ratio {
        num: (2 * (if n <= SCORE_CLAMP {
            n as int
        } else {
            SCORE_CLAMP as int
        }) + 2) as u64,
        den: (2 * (if df <= SCORE_CLAMP {
            df as int
        } else {
            SCORE_CLAMP as int
        }) + 1) as u64,
    }
}

/// A query document tree: a term, a wildcard, or a boolean combination.
#[derive(Debug)]
pub enum QueryDocumentTree {
    /// All branches must match; only the highest-scoring branch
    /// contributes terms.
    Conjunction(Vec<QueryDocumentTree>),
    /// Any branch may match; every branch contributes terms.
    Disjunction(Vec<QueryDocumentTree>),
    /// A single term.
    Term(Term),
    /// Matches any term; carries no term of its own.
    AnyTerm,
}

impl QueryDocumentTree {
    /// The score of this tree: a term scores by its statistics, a
    /// conjunction scores the maximum of its branches (starting from
    /// `Zero`), a disjunction the minimum (starting from the fixed
    /// `Ratio` near `SCORE_ONE_NUM / SCORE_ONE_DEN`).
    pub open spec fn spec_score<P: Bm25StatisticsProvider>(self, p: P) -> Score
        decreases self,
    {
        match self {
            QueryDocumentTree::AnyTerm => Score::MinusOne,
            QueryDocumentTree::Term(t) => match (p.spec_doc_freq(t), p.spec_total_num_docs()) {
                (Some(df), Some(n)) => term_score(df, n),
                _ => Score::Zero,
            },
            QueryDocumentTree::Conjunction(ts) => Self::max_score_upto(ts@, p, ts@.len() as int),
            QueryDocumentTree::Disjunction(ts) => Self::min_score_upto(ts@, p, ts@.len() as int),
        }
    }

    /// Left fold of the maximum score of the first `n` branches,
    /// starting from `Zero`; a later branch replaces the running maximum
    /// only when strictly greater.
    pub open spec fn max_score_upto<P: Bm25StatisticsProvider>(
        ts: Seq<QueryDocumentTree>,
        p: P,
        n: int,
    ) -> Score
        decreases ts, n,
    {
        if n <= 0 || n > ts.len() {
            Score::Zero
        } else {
            let prev = Self::max_score_upto(ts, p, n - 1);
            let s = ts[n - 1].spec_score(p);
            if score_lt(prev, s) {
                s
            } else {
                prev
            }
        }
    }

    /// Left fold of the minimum score of the first `n` branches,
    /// starting from the empty-disjunction `Ratio`.
    pub open spec fn min_score_upto<P: Bm25StatisticsProvider>(
        ts: Seq<QueryDocumentTree>,
        p: P,
        n: int,
    ) -> Score
        decreases ts, n,
    {
        if n <= 0 || n > ts.len() {
            Score::Ratio { num: SCORE_ONE_NUM, den: SCORE_ONE_DEN }
        } else {
            let prev = Self::min_score_upto(ts, p, n - 1);
            let s = ts[n - 1].spec_score(p);
            if score_lt(s, prev) {
                s
            } else {
                prev
            }
        }
    }

    /// Index of the branch a conjunction contributes: the first branch
    /// attaining the maximal score among the first `n`.
    pub open spec fn best_idx_upto<P: Bm25StatisticsProvider>(
        ts: Seq<QueryDocumentTree>,
        p: P,
        n: int,
    ) -> int
        decreases ts, n,
    {
        if n <= 1 {
            0
        } else {
            let b = Self::best_idx_upto(ts, p, n - 1);
            if 0 <= b < ts.len() && 0 < n <= ts.len() && score_lt(
                ts[b].spec_score(p),
                ts[n - 1].spec_score(p),
            ) {
                n - 1
            } else {
                b
            }
        }
    }

    /// The (field, text) pairs this tree contributes: a term contributes
    /// itself, a disjunction the union of its branches, a conjunction
    /// only its best branch, and a wildcard nothing.
    pub open spec fn selected_terms<P: Bm25StatisticsProvider>(self, p: P) -> Set<(u32, Seq<char>)>
        decreases self,
    {
        match self {
            QueryDocumentTree::AnyTerm => Set::empty(),
            QueryDocumentTree::Term(t) => Set::empty().insert((t.spec_field(), t.spec_text())),
            QueryDocumentTree::Disjunction(ts) => Self::union_upto(ts@, p, ts@.len() as int),
            QueryDocumentTree::Conjunction(ts) => {
                if ts@.len() == 0 {
                    Set::empty()
                } else {
                    let b = Self::best_idx_upto(ts@, p, ts@.len() as int);
                    if 0 <= b < ts@.len() {
                        ts@[b].selected_terms(p)
                    } else {
                        Set::empty()
                    }
                }
            },
        }
    }

    /// Union of the terms contributed by the first `n` branches.
    pub open spec fn union_upto<P: Bm25StatisticsProvider>(
        ts: Seq<QueryDocumentTree>,
        p: P,
        n: int,
    ) -> Set<(u32, Seq<char>)>
        decreases ts, n,
    {
        if n <= 0 || n > ts.len() {
            Set::empty()
        } else {
            Self::union_upto(ts, p, n - 1).union(ts[n - 1].selected_terms(p))
        }
    }

    /// The term collection walk runs into a wildcard, for which no field
    /// terms are defined: a term never, a disjunction if any branch does,
    /// a conjunction if its best branch does.
    pub open spec fn reaches_any_term<P: Bm25StatisticsProvider>(self, p: P) -> bool
        decreases self,
    {
        match self {
            QueryDocumentTree::AnyTerm => true,
            QueryDocumentTree::Term(_) => false,
            QueryDocumentTree::Disjunction(ts) => exists|i: int|
                0 <= i < ts@.len() && (#[trigger] ts@[i]).reaches_any_term(p),
            QueryDocumentTree::Conjunction(ts) => {
                if ts@.len() == 0 {
                    false
                } else {
                    let b = Self::best_idx_upto(ts@, p, ts@.len() as int);
                    0 <= b < ts@.len() && ts@[b].reaches_any_term(p)
                }
            },
        }
    }

    /// The score of this tree under the given statistics.
    #[verifier::loop_isolation(false)]
    pub fn score<P: Bm25StatisticsProvider>(&self, statistics_provider: &P) -> (r: Score)
        ensures
            r == self.spec_score(*statistics_provider),
        decreases *self,
    {
        match self {
            QueryDocumentTree::AnyTerm => Score::MinusOne,
            QueryDocumentTree::Term(t) => {
                match (statistics_provider.doc_freq(t), statistics_provider.total_num_docs()) {
                    (Ok(df), Ok(n)) => {
                        let nc = if n <= SCORE_CLAMP {
                            n
                        } else {
                            SCORE_CLAMP
                        };
                        let dc = if df <= SCORE_CLAMP {
                            df
                        } else {
                            SCORE_CLAMP
                        };
                        Score::Ratio { num: 2 * nc + 2, den: 2 * dc + 1 }
                    },
                    _ => Score::Zero,
                }
            },
            QueryDocumentTree::Conjunction(ts) => {
                let mut acc = Score::Zero;
                let mut i: usize = 0;
                while i < ts.len()
                    invariant
                        0 <= i <= ts@.len(),
                        acc == Self::max_score_upto(ts@, *statistics_provider, i as int),
                    decreases ts@.len() - i,
                {
                    let s = ts[i].score(statistics_provider);
                    if score_less(&acc, &s) {
                        acc = s;
                    }
                    i = i + 1;
                }
                acc
            },
            QueryDocumentTree::Disjunction(ts) => {
                let mut acc = Score::Ratio { num: SCORE_ONE_NUM, den: SCORE_ONE_DEN };
                let mut i: usize = 0;
                while i < ts.len()
                    invariant
                        0 <= i <= ts@.len(),
                        acc == Self::min_score_upto(ts@, *statistics_provider, i as int),
                    decreases ts@.len() - i,
                {
                    let s = ts[i].score(statistics_provider);
                    if score_less(&s, &acc) {
                        acc = s;
                    }
                    i = i + 1;
                }
                acc
            },
        }
    }

    /// Collect this tree's terms, grouped by field, into `field_terms`.
    /// Exactly the tree's selected (field, text) pairs are added; what was
    /// present stays present.
    #[verifier::loop_isolation(false)]
    pub fn to_field_terms<P: Bm25StatisticsProvider>(
        &self,
        field_terms: &mut FieldTerms,
        statistics_provider: &P,
    )
        requires
            !self.reaches_any_term(*statistics_provider),
        ensures
            forall|f: u32, t: Seq<char>|
                #[trigger] final(field_terms).has(f, t) <==> (old(field_terms).has(f, t)
                    || self.selected_terms(*statistics_provider).contains((f, t))),
            old(field_terms).dedup_wf() ==> final(field_terms).dedup_wf(),
        decreases *self,
    {
        match self {
            QueryDocumentTree::AnyTerm => {
                proof {
                    assert(self.reaches_any_term(*statistics_provider));
                    assert(false);
                }
            },
            QueryDocumentTree::Term(term) => {
                field_terms.insert(term.duplicate());
            },
            QueryDocumentTree::Disjunction(ts) => {
                let ghost p = *statistics_provider;
                let mut i: usize = 0;
                while i < ts.len()
                    invariant
                        0 <= i <= ts@.len(),
                        forall|j: int|
                            0 <= j < ts@.len() ==> !(#[trigger] ts@[j]).reaches_any_term(p),
                        forall|f: u32, t: Seq<char>|
                            #[trigger] field_terms.has(f, t) <==> (old(field_terms).has(f, t)
                                || Self::union_upto(ts@, p, i as int).contains((f, t))),
                        old(field_terms).dedup_wf() ==> field_terms.dedup_wf(),
                        p == *statistics_provider,
                    decreases ts@.len() - i,
                {
                    proof {
                        assert(ts@[i as int].reaches_any_term(p) ==> exists|j: int|
                            0 <= j < ts@.len() && (#[trigger] ts@[j]).reaches_any_term(p));
                    }
                    ts[i].to_field_terms(field_terms, statistics_provider);
                    i = i + 1;
                }
            },
            QueryDocumentTree::Conjunction(ts) => {
                let ghost p = *statistics_provider;
                if ts.len() == 0 {
                    return ;
                }
                let mut best: usize = 0;
                let mut best_score = ts[0].score(statistics_provider);
                let mut i: usize = 1;
                while i < ts.len()
                    invariant
                        1 <= i <= ts@.len(),
                        0 <= best < i,
                        best as int == Self::best_idx_upto(ts@, p, i as int),
                        best_score == ts@[best as int].spec_score(p),
                        p == *statistics_provider,
                    decreases ts@.len() - i,
                {
                    let s = ts[i].score(statistics_provider);
                    if score_less(&best_score, &s) {
                        best = i;
                        best_score = s;
                    }
                    i = i + 1;
                }
                ts[best].to_field_terms(field_terms, statistics_provider);
            },
        }
    }

    /// Write this tree's terms into `document`: for each field carrying
    /// selected terms, one text made of the terms' texts joined by single
    /// spaces. Exactly the selected (field, text) pairs appear, each field
    /// once, each text once within its field; the order is the collection
    /// order of the walk.
    pub fn to_document<P: Bm25StatisticsProvider>(
        &self,
        document: &mut TantivyDocument,
        scorer: &P,
    )
        requires
            !self.reaches_any_term(*scorer),
        ensures
            exists|fts: Seq<(u32, Seq<Seq<char>>)>|
                #![trigger fts.len()]
                {
                    &&& final(document).view() == old(document).view() + fts.map_values(
                        |e: (u32, Seq<Seq<char>>)| (e.0, join_texts(e.1)),
                    )
                    &&& (forall|f: u32, t: Seq<char>|
                        (exists|i: int|
                            0 <= i < fts.len() && (#[trigger] fts[i]).0 == f
                                && fts[i].1.contains(t)) <==> #[trigger] self.selected_terms(
                            *scorer,
                        ).contains((f, t)))
                    &&& (forall|i: int, j: int|
                        0 <= i < j < fts.len() ==> (#[trigger] fts[i]).0 != (
                        #[trigger] fts[j]).0)
                    &&& (forall|i: int, a: int, b: int|
                        0 <= i < fts.len() && 0 <= a < b < fts[i].1.len() ==> #[trigger] fts[i].1[a]
                            != #[trigger] fts[i].1[b])
                },
    {
        let mut field_terms = FieldTerms::new();
        self.to_field_terms(&mut field_terms, scorer);
        write_field_terms(document, &field_terms);
        proof {
            let fts = field_terms.view();
            assert forall|f: u32, t: Seq<char>|
                (exists|i: int|
                    0 <= i < fts.len() && (#[trigger] fts[i]).0 == f && fts[i].1.contains(t))
                    <==> self.selected_terms(*scorer).contains((f, t)) by {
                assert(field_terms.has(f, t) <==> (exists|i: int|
                    0 <= i < fts.len() && (#[trigger] fts[i]).0 == f && fts[i].1.contains(t)));
            }
        }
    }
}

/// Terms grouped by field, in first-insertion order of the fields.
pub struct FieldTerms {
    entries: Vec<(Field, Vec<Term>)>,
}

impl FieldTerms {
    /// The grouped view: one (field ordinal, texts) entry per field.
    pub closed spec fn view(&self) -> Seq<(u32, Seq<Seq<char>>)> {
        self.entries@.map_values(
            |e: (Field, Vec<Term>)|
                (e.0.field_id, e.1@.map_values(|t: Term| t.text@)),
        )
    }

    /// The pair (field, text) is recorded.
    pub open spec fn has(&self, f: u32, t: Seq<char>) -> bool {
        exists|i: int|
            0 <= i < self.view().len() && (#[trigger] self.view()[i]).0 == f
                && self.view()[i].1.contains(t)
    }

    /// Fields occur once, and texts occur once within their field.
    pub open spec fn dedup_wf(&self) -> bool {
        &&& forall|i: int, j: int|
            0 <= i < j < self.view().len() ==> (#[trigger] self.view()[i]).0 != (
            #[trigger] self.view()[j]).0
        &&& forall|i: int, a: int, b: int|
            0 <= i < self.view().len() && 0 <= a < b < self.view()[i].1.len() ==> #[trigger] self
                .view()[i].1[a] != #[trigger] self.view()[i].1[b]
    }

    /// An empty grouping.
    pub fn new() -> (r: FieldTerms)
        ensures
            r.view() == Seq::<(u32, Seq<Seq<char>>)>::empty(),
            r.dedup_wf(),
            forall|f: u32, t: Seq<char>| !r.has(f, t),
    {
        let r = FieldTerms { entries: Vec::new() };
        proof {
            assert(r.view() =~= Seq::<(u32, Seq<Seq<char>>)>::empty());
        }
        r
    }

    /// Whether a text equal to the term's is recorded under the field.
    #[verifier::loop_isolation(false)]
    pub fn contains(&self, field: Field, term: &Term) -> (r: bool)
        ensures
            r == self.has(field.spec_id(), term.spec_text()),
    {
        let n = self.entries.len();
        let mut i: usize = 0;
        while i < n
            invariant
                n == self.entries@.len(),
                0 <= i <= n,
                forall|j: int|
                    0 <= j < i ==> !((#[trigger] self.view()[j]).0 == field.field_id
                        && self.view()[j].1.contains(term.text@)),
            decreases n - i,
        {
            if self.entries[i].0.field_id == field.field_id {
                if contains_text(&self.entries[i].1, term) {
                    proof {
                        let a = choose|a: int|
                            0 <= a < self.entries@[i as int].1@.len() && (
                            #[trigger] self.entries@[i as int].1@[a]).text@ == term.text@;
                        assert(self.view()[i as int].1[a] == term.text@);
                        assert(self.view()[i as int].1.contains(term.text@));
                        assert(self.has(field.field_id, term.text@));
                    }
                    return true;
                } else {
                    proof {
                        assert forall|a: int|
                            0 <= a < self.view()[i as int].1.len() implies #[trigger] self.view()[
                            i as int
                        ].1[a] != term.text@ by {
                            assert(self.view()[i as int].1[a] == self.entries@[i as int].1@[a].text@);
                        }
                        assert(!self.view()[i as int].1.contains(term.text@));
                    }
                }
            }
            i = i + 1;
        }
        proof {
            assert(!self.has(field.field_id, term.text@));
        }
        false
    }

    /// Record a term under its field, keeping fields and texts unique.
    #[verifier::loop_isolation(false)]
    pub fn insert(&mut self, term: Term)
        ensures
            forall|f: u32, t: Seq<char>|
                #[trigger] final(self).has(f, t) <==> (old(self).has(f, t) || (f
                    == term.spec_field() && t == term.spec_text())),
            old(self).dedup_wf() ==> final(self).dedup_wf(),
    {
        let ghost pre = *self;
        let n = self.entries.len();
        let mut i: usize = 0;
        while i < n
            invariant
                *self == pre,
                n == self.entries@.len(),
                0 <= i <= n,
                forall|j: int|
                    0 <= j < i ==> (#[trigger] self.entries@[j]).0.field_id
                        != term.field.field_id,
            decreases n - i,
        {
            if self.entries[i].0.field_id == term.field.field_id {
                if contains_text(&self.entries[i].1, &term) {
                    proof {
                        let a = choose|a: int|
                            0 <= a < self.entries@[i as int].1@.len() && (
                            #[trigger] self.entries@[i as int].1@[a]).text@ == term.text@;
                        assert(pre.view()[i as int].1[a] == term.text@);
                        assert(pre.view()[i as int].1.contains(term.text@));
                        assert((pre.view()[i as int]).0 == term.field.field_id);
                        assert(pre.has(term.field.field_id, term.text@));
                    }
                } else {
                    let mut entry = self.entries.remove(i);
                    entry.1.push(term);
                    self.entries.push(entry);
                    proof {
                        lemma_field_terms_regrouped(pre, *self, i as int);
                    }
                }
                return ;
            }
            i = i + 1;
        }
        // first term of its field: append a fresh entry
        let field = term.field;
        let ghost text = term.text@;
        let mut terms: Vec<Term> = Vec::new();
        terms.push(term);
        self.entries.push((field, terms));
        proof {
            lemma_field_terms_appended(pre, *self, field.field_id, text);
        }
    }
}

/// Whether some term of the list carries this term's text.
fn contains_text(terms: &Vec<Term>, term: &Term) -> (r: bool)
    ensures
        r == exists|a: int| 0 <= a < terms@.len() && (#[trigger] terms@[a]).text@ == term.text@,
{
    let mut j: usize = 0;
    while j < terms.len()
        invariant
            0 <= j <= terms@.len(),
            forall|a: int| 0 <= a < j ==> (#[trigger] terms@[a]).text@ != term.text@,
        decreases terms@.len() - j,
    {
        if terms[j].text == term.text {
            proof {
                assert((terms@[j as int]).text@ == term.text@);
            }
            return true;
        }
        j = j + 1;
    }
    false
}

/// After moving the entry of an existing field to the end with one more
/// text appended (a text it did not hold), the recorded pairs grow by
/// exactly that pair, and uniqueness is preserved.
proof fn lemma_field_terms_regrouped(pre: FieldTerms, post: FieldTerms, i: int)
    requires
        0 <= i < pre.entries@.len(),
        post.entries@.len() == pre.entries@.len(),
        forall|j: int|
            0 <= j < pre.entries@.len() - 1 ==> #[trigger] post.entries@[j]
                == pre.entries@.remove(i)[j],
        post.entries@.last().0 == pre.entries@[i].0,
        post.entries@.last().1@.len() == pre.entries@[i].1@.len() + 1,
        forall|a: int|
            0 <= a < pre.entries@[i].1@.len() ==> #[trigger] post.entries@.last().1@[a]
                == pre.entries@[i].1@[a],
        forall|a: int|
            0 <= a < pre.entries@[i].1@.len() ==> (#[trigger] pre.entries@[i].1@[a]).text@
                != post.entries@.last().1@.last().text@,
    ensures
        forall|f: u32, t: Seq<char>|
            #[trigger] post.has(f, t) <==> (pre.has(f, t) || (f == pre.entries@[i].0.field_id && t
                == post.entries@.last().1@.last().text@)),
        pre.dedup_wf() ==> post.dedup_wf(),
{
    let l = pre.entries@.len() as int;
    let fid = pre.entries@[i].0.field_id;
    let newt = post.entries@.last().1@.last().text@;
    // index correspondence between the two views
    assert forall|j: int| 0 <= j < l - 1 implies #[trigger] post.view()[j] == (if j < i {
        pre.view()[j]
    } else {
        pre.view()[j + 1]
    }) by {
        assert(post.entries@[j] == pre.entries@.remove(i)[j]);
        if j < i {
            assert(pre.entries@.remove(i)[j] == pre.entries@[j]);
        } else {
            assert(pre.entries@.remove(i)[j] == pre.entries@[j + 1]);
        }
    }
    assert(post.view()[l - 1].0 == fid);
    assert(post.view()[l - 1].1 =~= pre.view()[i].1.push(newt));
    assert forall|f: u32, t: Seq<char>| #[trigger] post.has(f, t) implies (pre.has(f, t) || (f
        == fid && t == newt)) by {
        let j = choose|j: int|
            0 <= j < post.view().len() && (#[trigger] post.view()[j]).0 == f
                && post.view()[j].1.contains(t);
        if j < l - 1 {
            if j < i {
                assert(pre.view()[j].0 == f && pre.view()[j].1.contains(t));
            } else {
                assert(pre.view()[j + 1].0 == f && pre.view()[j + 1].1.contains(t));
            }
        } else {
            let a = choose|a: int|
                0 <= a < post.view()[j].1.len() && post.view()[j].1[a] == t;
            if a < pre.view()[i].1.len() {
                assert(pre.view()[i].1[a] == t);
                assert(pre.view()[i].0 == f && pre.view()[i].1.contains(t));
            } else {
                assert(t == newt);
            }
        }
    }
    assert forall|f: u32, t: Seq<char>| (pre.has(f, t) || (f == fid && t == newt)) implies
        #[trigger] post.has(f, t) by {
        if pre.has(f, t) {
            let j = choose|j: int|
                0 <= j < pre.view().len() && (#[trigger] pre.view()[j]).0 == f
                    && pre.view()[j].1.contains(t);
            if j == i {
                let a = choose|a: int| 0 <= a < pre.view()[i].1.len() && pre.view()[i].1[a] == t;
                assert(post.view()[l - 1].1[a] == t);
                assert(post.view()[l - 1].0 == f && post.view()[l - 1].1.contains(t));
            } else if j < i {
                assert(post.view()[j].0 == f && post.view()[j].1.contains(t));
            } else {
                assert(post.view()[j - 1].0 == f && post.view()[j - 1].1.contains(t));
            }
        } else {
            assert(post.view()[l - 1].1.last() == newt);
            assert(post.view()[l - 1].1.contains(newt));
            assert(post.view()[l - 1].0 == f && post.view()[l - 1].1.contains(t));
        }
    }
    if pre.dedup_wf() {
        assert forall|x: int, y: int|
            0 <= x < y < post.view().len() implies (#[trigger] post.view()[x]).0 != (
        #[trigger] post.view()[y]).0 by {
            let x0: int = if x < i {
                x
            } else if x < l - 1 {
                x + 1
            } else {
                i
            };
            let y0: int = if y < i {
                y
            } else if y < l - 1 {
                y + 1
            } else {
                i
            };
            assert(post.view()[x].0 == pre.view()[x0].0);
            assert(post.view()[y].0 == pre.view()[y0].0);
            if x0 < y0 {
                assert(pre.view()[x0].0 != pre.view()[y0].0);
            } else {
                assert(pre.view()[y0].0 != pre.view()[x0].0);
            }
        }
        assert forall|x: int, a: int, b: int|
            0 <= x < post.view().len() && 0 <= a < b < post.view()[x].1.len() implies #[trigger] post
                .view()[x].1[a] != #[trigger] post.view()[x].1[b] by {
            if x < l - 1 {
                let x0: int = if x < i {
                    x
                } else {
                    x + 1
                };
                assert(post.view()[x] == pre.view()[x0]);
                assert(pre.view()[x0].1[a] != pre.view()[x0].1[b]);
            } else {
                let texts = pre.view()[i].1;
                if b < texts.len() {
                    assert(post.view()[x].1[a] == texts[a] && post.view()[x].1[b] == texts[b]);
                    assert(texts[a] != texts[b]);
                } else {
                    assert(post.view()[x].1[b] == newt);
                    assert(post.view()[x].1[a] == texts[a]);
                    assert(pre.entries@[i].1@[a].text@ != newt);
                }
            }
        }
    }
}

/// After appending a fresh entry for a field not seen before, holding one
/// text, the recorded pairs grow by exactly that pair, and uniqueness is
/// preserved.
proof fn lemma_field_terms_appended(pre: FieldTerms, post: FieldTerms, fid: u32, text: Seq<char>)
    requires
        post.entries@.len() == pre.entries@.len() + 1,
        forall|j: int|
            0 <= j < pre.entries@.len() ==> #[trigger] post.entries@[j] == pre.entries@[j],
        post.entries@.last().0.field_id == fid,
        post.entries@.last().1@.len() == 1,
        post.entries@.last().1@[0].text@ == text,
        forall|j: int|
            0 <= j < pre.entries@.len() ==> (#[trigger] pre.entries@[j]).0.field_id != fid,
    ensures
        forall|f: u32, t: Seq<char>|
            #[trigger] post.has(f, t) <==> (pre.has(f, t) || (f == fid && t == text)),
        pre.dedup_wf() ==> post.dedup_wf(),
{
    let l = pre.entries@.len() as int;
    assert(forall|j: int| 0 <= j < l ==> #[trigger] post.view()[j] == pre.view()[j]);
    assert(post.view()[l].0 == fid);
    assert(post.view()[l].1 =~= seq![text]);
    assert forall|f: u32, t: Seq<char>| #[trigger] post.has(f, t) implies (pre.has(f, t) || (f
        == fid && t == text)) by {
        let j = choose|j: int|
            0 <= j < post.view().len() && (#[trigger] post.view()[j]).0 == f
                && post.view()[j].1.contains(t);
        if j < l {
            assert(pre.view()[j].0 == f && pre.view()[j].1.contains(t));
        } else {
            let a = choose|a: int|
                0 <= a < post.view()[j].1.len() && post.view()[j].1[a] == t;
            assert(t == text);
        }
    }
    assert forall|f: u32, t: Seq<char>| (pre.has(f, t) || (f == fid && t == text)) implies
        #[trigger] post.has(f, t) by {
        if pre.has(f, t) {
            let j = choose|j: int|
                0 <= j < pre.view().len() && (#[trigger] pre.view()[j]).0 == f
                    && pre.view()[j].1.contains(t);
            assert(post.view()[j].0 == f && post.view()[j].1.contains(t));
        } else {
            assert(post.view()[l].1[0] == text);
            assert(post.view()[l].0 == f && post.view()[l].1.contains(t));
        }
    }
    if pre.dedup_wf() {
        assert forall|x: int, y: int|
            0 <= x < y < post.view().len() implies (#[trigger] post.view()[x]).0 != (
        #[trigger] post.view()[y]).0 by {
            if y < l {
                assert(pre.view()[x].0 != pre.view()[y].0);
            } else {
                assert(post.view()[x].0 == pre.view()[x].0);
                assert(pre.entries@[x].0.field_id != fid);
            }
        }
        assert forall|x: int, a: int, b: int|
            0 <= x < post.view().len() && 0 <= a < b < post.view()[x].1.len() implies #[trigger] post
                .view()[x].1[a] != #[trigger] post.view()[x].1[b] by {
            if x < l {
                assert(post.view()[x] == pre.view()[x]);
                assert(pre.view()[x].1[a] != pre.view()[x].1[b]);
            }
        }
    }
}

/// The texts of one field joined by single spaces.
pub open spec fn join_texts(ts: Seq<Seq<char>>) -> Seq<char>
    decreases ts.len(),
{
    if ts.len() == 0 {
        Seq::empty()
    } else if ts.len() == 1 {
        ts[0]
    } else {
        join_texts(ts.drop_last()) + seq![' '] + ts.last()
    }
}

/// A document under construction: texts added per field, in order.
pub struct TantivyDocument {
    entries: Vec<(Field, String)>,
}

impl TantivyDocument {
    /// The added texts, in order.
    pub closed spec fn view(&self) -> Seq<(u32, Seq<char>)> {
        self.entries@.map_values(|e: (Field, String)| (e.0.field_id, e.1@))
    }

    /// An empty document.
    pub fn new() -> (r: TantivyDocument)
        ensures
            r.view() == Seq::<(u32, Seq<char>)>::empty(),
    {
        let r = TantivyDocument { entries: Vec::new() };
        proof {
            assert(r.view() =~= Seq::<(u32, Seq<char>)>::empty());
        }
        r
    }

    /// Append a text for a field.
    pub fn add_text(&mut self, field: Field, text: String)
        ensures
            final(self).view() == old(self).view().push((field.spec_id(), text@)),
    {
        self.entries.push((field, text));
        proof {
            assert(self.view() =~= old(self).view().push((field.field_id, text@)));
        }
    }

    /// How many texts were added.
    pub fn len(&self) -> (r: usize)
        ensures
            r == self.view().len(),
    {
        self.entries.len()
    }

    /// The field ordinal and text at one position.
    pub fn entry_at(&self, i: usize) -> (r: (u32, String))
        requires
            i < self.view().len(),
        ensures
            r.0 == self.view()[i as int].0,
            r.1@ == self.view()[i as int].1,
    {
        let e = &self.entries[i];
        (e.0.field_id, e.1.clone())
    }
}

/// Append, for every field of `field_terms` in stored order, one text made
/// of the field's term texts joined by single spaces.
pub fn write_field_terms(document: &mut TantivyDocument, field_terms: &FieldTerms)
    ensures
        final(document).view() == old(document).view() + field_terms.view().map_values(
            |e: (u32, Seq<Seq<char>>)| (e.0, join_texts(e.1)),
        ),
{
    let ghost mapped = field_terms.view().map_values(
        |e: (u32, Seq<Seq<char>>)| (e.0, join_texts(e.1)),
    );
    let n = field_terms.entries.len();
    let mut i: usize = 0;
    proof {
        assert(document.view() =~= old(document).view() + mapped.take(0));
    }
    while i < n
        invariant
            n == field_terms.entries@.len(),
            mapped == field_terms.view().map_values(
                |e: (u32, Seq<Seq<char>>)| (e.0, join_texts(e.1)),
            ),
            0 <= i <= n,
            document.view() == old(document).view() + mapped.take(i as int),
        decreases n - i,
    {
        let entry = &field_terms.entries[i];
        let ghost tv = entry.1@.map_values(|t: Term| t.text@);
        let mut joined = String::new();
        let m = entry.1.len();
        let mut j: usize = 0;
        proof {
            assert(joined@ =~= join_texts(tv.take(0)));
        }
        while j < m
            invariant
                m == entry.1@.len(),
                tv == entry.1@.map_values(|t: Term| t.text@),
                0 <= j <= m,
                joined@ == join_texts(tv.take(j as int)),
            decreases m - j,
        {
            if j > 0 {
                joined.append(" ");
            }
            joined.append(entry.1[j].text.as_str());
            proof {
                reveal_strlit(" ");
                assert(" "@ =~= seq![' ']);
                assert(tv.take(j as int + 1).last() == tv[j as int]);
                assert(tv.take(j as int + 1).drop_last() =~= tv.take(j as int));
                if j == 0 {
                    assert(joined@ =~= tv[0]);
                    assert(join_texts(tv.take(1)) == tv.take(1)[0]);
                } else {
                    assert(joined@ =~= join_texts(tv.take(j as int)) + seq![' '] + tv[j as int]);
                }
            }
            j = j + 1;
        }
        proof {
            assert(tv.take(m as int) =~= tv);
            assert(field_terms.view()[i as int] == (entry.0.field_id, tv));
            assert(mapped[i as int] == (entry.0.field_id, join_texts(tv)));
        }
        let field = entry.0;
        document.add_text(field, joined);
        proof {
            assert(mapped.take(i as int + 1) =~= mapped.take(i as int).push(mapped[i as int]));
            assert(document.view() =~= old(document).view() + mapped.take(i as int + 1));
        }
        i = i + 1;
    }
    proof {
        assert(mapped.take(n as int) =~= mapped);
        assert(document.view() =~= old(document).view() + mapped);
    }
}

/// First-match lookup of a (field, text) key in a frequency table; 0 when
/// the key is absent.
pub open spec fn freq_lookup(entries: Seq<(Term, u64)>, f: u32, t: Seq<char>) -> u64
    decreases entries.len(),
{
    if entries.len() == 0 {
        0
    } else if entries[0].0.spec_field() == f && entries[0].0.spec_text() == t {
        entries[0].1
    } else {
        freq_lookup(entries.drop_first(), f, t)
    }
}

/// An in-memory statistics source over an explicit term-frequency table:
/// the reference implementation of [`Bm25StatisticsProvider`]. Every call
/// answers; a term absent from the table has document frequency 0.
pub struct SimpleStatisticsProvider {
    document_count: u64,
    term_doc_freq: Vec<(Term, u64)>,
}

impl SimpleStatisticsProvider {
    /// A provider over the given document count and frequency table.
    pub fn new(document_count: u64, term_doc_freq: Vec<(Term, u64)>) -> (r:
        SimpleStatisticsProvider)
        ensures
            r.spec_total_num_docs() == Some(document_count),
            forall|term: Term|
                #[trigger] r.spec_doc_freq(term) == Some(
                    freq_lookup(term_doc_freq@, term.spec_field(), term.spec_text()),
                ),
    {
        SimpleStatisticsProvider { document_count, term_doc_freq }
    }
}

impl Bm25StatisticsProvider for SimpleStatisticsProvider {
    closed spec fn spec_total_num_docs(&self) -> Option<u64> {
        Some(self.document_count)
    }

    closed spec fn spec_total_num_tokens(&self, field: Field) -> Option<u64> {
        Some(0)
    }

    closed spec fn spec_doc_freq(&self, term: Term) -> Option<u64> {
        Some(freq_lookup(self.term_doc_freq@, term.spec_field(), term.spec_text()))
    }

    fn total_num_docs(&self) -> (r: Result<u64, StatsError>) {
        Ok(self.document_count)
    }

    fn total_num_tokens(&self, field: Field) -> (r: Result<u64, StatsError>) {
        Ok(0)
    }

    #[verifier::loop_isolation(false)]
    fn doc_freq(&self, term: &Term) -> (r: Result<u64, StatsError>) {
        let n = self.term_doc_freq.len();
        let mut j: usize = 0;
        proof {
            assert(self.term_doc_freq@.skip(0) =~= self.term_doc_freq@);
        }
        while j < n
            invariant
                n == self.term_doc_freq@.len(),
                0 <= j <= n,
                freq_lookup(self.term_doc_freq@, term.spec_field(), term.spec_text())
                    == freq_lookup(
                    self.term_doc_freq@.skip(j as int),
                    term.spec_field(),
                    term.spec_text(),
                ),
            decreases n - j,
        {
            proof {
                assert(self.term_doc_freq@.skip(j as int)[0] == self.term_doc_freq@[j as int]);
                assert(self.term_doc_freq@.skip(j as int).drop_first() =~= self.term_doc_freq@.skip(
                    j as int + 1,
                ));
            }
            if self.term_doc_freq[j].0.term_eq(term) {
                return Ok(self.term_doc_freq[j].1);
            }
            j = j + 1;
        }
        proof {
            assert(self.term_doc_freq@.skip(n as int).len() == 0);
        }
        Ok(0)
    }
}

} // verus!
