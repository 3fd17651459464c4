use crate::utills::{split_first, take_and_skip, SpamClassifierError};
use unicode_segmentation::UnicodeSegmentation;
use vstd::prelude::*;
use vstd::string::*;

verus! {

/// A token's model entry: the token, its ham count and its spam count.
pub type TableEntry = (Seq<char>, nat, nat);

/// How often a token was seen in ham and in spam training text, smoothed.
#[derive(Debug, Clone, Copy, PartialEq, Eq, Structural)]
pub struct Counter {
    pub ham: u64,
    pub spam: u64,
}

/// What the model knows of one word of a message: its counts, or nothing.
#[derive(Debug, Clone, Copy, PartialEq, Eq, Structural)]
pub enum WordRating {
    Known { ham: u64, spam: u64 },
    Unknown,
}

/// A word-frequency spam classifier: one table from tokens to counters.
pub struct BayesianSpamClassifier {
    tokens: Vec<String>,
    counters: Vec<Counter>,
    ham_total: u64,
    spam_total: u64,
}

/// The words of `s` under Unicode word segmentation.
pub uninterp spec fn unicode_words_of(s: Seq<char>) -> Seq<Seq<char>>;

/// The table holds `w`.
pub open spec fn has_token(t: Seq<TableEntry>, w: Seq<char>) -> bool {
    exists|i: int| 0 <= i < t.len() && t[i].0 == w
}

/// The position of `w` in the table; meaningful where `has_token(t, w)`.
pub open spec fn token_index(t: Seq<TableEntry>, w: Seq<char>) -> int {
    choose|i: int| 0 <= i < t.len() && t[i].0 == w
}

/// The `(ham, spam)` counts of `w`, if the table holds it.
pub open spec fn lookup(t: Seq<TableEntry>, w: Seq<char>) -> Option<(nat, nat)> {
    if has_token(t, w) {
        let i = token_index(t, w);
        Some((t[i].1, t[i].2))
    } else {
        None
    }
}

/// Tokens are unique and every counter is at least one.
pub open spec fn well_formed_table(t: Seq<TableEntry>) -> bool {
    &&& forall|i: int, j: int| 0 <= i < j < t.len() ==> t[i].0 != t[j].0
    &&& forall|i: int| 0 <= i < t.len() ==> t[i].1 >= 1 && t[i].2 >= 1
}

/// One observation of `w`: a known token has one counter raised, a new one
/// starts at `(ham 1, spam 2)` for spam and `(ham 2, spam 1)` for ham.
pub open spec fn train_word(t: Seq<TableEntry>, w: Seq<char>, spam: bool) -> Seq<TableEntry> {
    if has_token(t, w) {
        let i = token_index(t, w);
        if spam {
            t.update(i, (w, t[i].1, t[i].2 + 1))
        } else {
            t.update(i, (w, t[i].1 + 1, t[i].2))
        }
    } else if spam {
        t.push((w, 1, 2))
    } else {
        t.push((w, 2, 1))
    }
}

/// One observation of each word of `ws`, in order.
pub open spec fn train_words(t: Seq<TableEntry>, ws: Seq<Seq<char>>, spam: bool) -> Seq<TableEntry>
    decreases ws.len(),
{
    if ws.len() == 0 {
        t
    } else {
        train_word(train_words(t, ws.drop_last(), spam), ws.last(), spam)
    }
}

/// The sum of the ham counters.
pub open spec fn sum_ham(t: Seq<TableEntry>) -> nat
    decreases t.len(),
{
    if t.len() == 0 {
        0
    } else {
        sum_ham(t.drop_last()) + t.last().1
    }
}

/// The sum of the spam counters.
pub open spec fn sum_spam(t: Seq<TableEntry>) -> nat
    decreases t.len(),
{
    if t.len() == 0 {
        0
    } else {
        sum_spam(t.drop_last()) + t.last().2
    }
}

/// Training `n` words keeps both totals within `u64`.
pub open spec fn fits(t: Seq<TableEntry>, n: nat) -> bool {
    sum_ham(t) + 2 * n <= u64::MAX && sum_spam(t) + 2 * n <= u64::MAX
}

/// The table after training on `msg`; it stays as it was where a total would overflow.
pub open spec fn train_message(t: Seq<TableEntry>, msg: Seq<char>, spam: bool) -> Seq<TableEntry> {
    let ws = unicode_words_of(msg);
    if fits(t, ws.len()) {
        train_words(t, ws, spam)
    } else {
        t
    }
}

/// The rating of `w`: its counts where the table holds it, else `Unknown`.
pub open spec fn rating_of(t: Seq<TableEntry>, w: Seq<char>) -> WordRating {
    match lookup(t, w) {
        Some((h, s)) => WordRating::Known { ham: h as u64, spam: s as u64 },
        None => WordRating::Unknown,
    }
}

/// The table that a list of stored entries describes.
pub open spec fn entries_view(e: Seq<(String, Counter)>) -> Seq<TableEntry> {
    Seq::new(e.len(), |i: int| (e[i].0@, e[i].1.ham as nat, e[i].1.spam as nat))
}

/// The dataset label of ham lines.
pub open spec fn ham_label() -> Seq<char> {
    seq!['h', 'a', 'm']
}

/// The dataset label of spam lines.
pub open spec fn spam_label() -> Seq<char> {
    seq!['s', 'p', 'a', 'm']
}

/// The table after one dataset line `label<TAB>message`, or `None` where the line
/// has no tab, an empty label or an empty message. Other labels change nothing.
pub open spec fn train_line(t: Seq<TableEntry>, line: Seq<char>) -> Option<Seq<TableEntry>> {
    match split_first(line, '\t') {
        None => None,
        Some((label, msg)) => {
            if label.len() == 0 || msg.len() == 0 {
                None
            } else if label == ham_label() {
                Some(train_message(t, msg, false))
            } else if label == spam_label() {
                Some(train_message(t, msg, true))
            } else {
                Some(t)
            }
        },
    }
}

/// The table after the lines in order, stopping at the first malformed one, and
/// whether every line was well formed.
pub open spec fn train_dataset(t: Seq<TableEntry>, lines: Seq<Seq<char>>) -> (Seq<TableEntry>, bool)
    decreases lines.len(),
{
    if lines.len() == 0 {
        (t, true)
    } else {
        let (t1, ok) = train_dataset(t, lines.drop_last());
        if !ok {
            (t1, false)
        } else {
            match train_line(t1, lines.last()) {
                Some(t2) => (t2, true),
                None => (t1, false),
            }
        }
    }
}

proof fn lemma_dataset_fails(t0: Seq<TableEntry>, lines: Seq<Seq<char>>, i: int, t: Seq<TableEntry>)
    requires
        0 <= i < lines.len(),
        train_dataset(t0, lines.take(i)) == (t, true),
        train_line(t, lines[i]) is None,
    ensures
        train_dataset(t0, lines) == (t, false),
{
    assert(lines.take(i + 1).drop_last() =~= lines.take(i));
    assert(lines.take(i + 1).last() == lines[i]);
    assert(train_dataset(t0, lines.take(i + 1)) == (t, false));
    lemma_dataset_stops(t0, lines, i + 1);
}

proof fn lemma_dataset_stops(t: Seq<TableEntry>, lines: Seq<Seq<char>>, k: int)
    requires
        0 <= k <= lines.len(),
        !train_dataset(t, lines.take(k)).1,
    ensures
        train_dataset(t, lines) == train_dataset(t, lines.take(k)),
    decreases lines.len(),
{
    if k == lines.len() {
        assert(lines.take(k) =~= lines);
    } else {
        assert(lines.drop_last().take(k) =~= lines.take(k));
        lemma_dataset_stops(t, lines.drop_last(), k);
    }
}

proof fn lemma_sum_push(t: Seq<TableEntry>, e: TableEntry)
    ensures
        sum_ham(t.push(e)) == sum_ham(t) + e.1,
        sum_spam(t.push(e)) == sum_spam(t) + e.2,
{
    assert(t.push(e).drop_last() =~= t);
}

proof fn lemma_sum_update(t: Seq<TableEntry>, i: int, e: TableEntry)
    requires
        0 <= i < t.len(),
    ensures
        sum_ham(t.update(i, e)) + t[i].1 == sum_ham(t) + e.1,
        sum_spam(t.update(i, e)) + t[i].2 == sum_spam(t) + e.2,
    decreases t.len(),
{
    if i == t.len() - 1 {
        assert(t.update(i, e).drop_last() =~= t.drop_last());
    } else {
        assert(t.update(i, e).drop_last() =~= t.drop_last().update(i, e));
        lemma_sum_update(t.drop_last(), i, e);
    }
}

proof fn lemma_entry_le_sum(t: Seq<TableEntry>, i: int)
    requires
        0 <= i < t.len(),
    ensures
        t[i].1 <= sum_ham(t),
        t[i].2 <= sum_spam(t),
    decreases t.len(),
{
    if i < t.len() - 1 {
        lemma_entry_le_sum(t.drop_last(), i);
    }
}

proof fn lemma_sum_prefix(t: Seq<TableEntry>, k: int)
    requires
        0 <= k <= t.len(),
    ensures
        sum_ham(t.take(k)) <= sum_ham(t),
        sum_spam(t.take(k)) <= sum_spam(t),
    decreases t.len(),
{
    if k < t.len() {
        assert(t.drop_last().take(k) =~= t.take(k));
        lemma_sum_prefix(t.drop_last(), k);
    } else {
        assert(t.take(k) =~= t);
    }
}

/// One observation raises each total by at most two and keeps the table well formed.
pub proof fn lemma_train_word(t: Seq<TableEntry>, w: Seq<char>, spam: bool)
    requires
        well_formed_table(t),
    ensures
        well_formed_table(train_word(t, w, spam)),
        sum_ham(t) <= sum_ham(train_word(t, w, spam)) <= sum_ham(t) + 2,
        sum_spam(t) <= sum_spam(train_word(t, w, spam)) <= sum_spam(t) + 2,
        has_token(train_word(t, w, spam), w),
        forall|v: Seq<char>| has_token(t, v) ==> has_token(train_word(t, w, spam), v),
{
    let r = train_word(t, w, spam);
    if has_token(t, w) {
        let i = token_index(t, w);
        lemma_sum_update(t, i, r[i]);
        assert(r[i].0 == w);
        assert forall|v: Seq<char>| has_token(t, v) implies has_token(r, v) by {
            let j = choose|j: int| 0 <= j < t.len() && t[j].0 == v;
            assert(r[j].0 == v);
        }
    } else {
        let e: TableEntry = if spam { (w, 1, 2) } else { (w, 2, 1) };
        lemma_sum_push(t, e);
        assert(r[t.len() as int].0 == w);
        assert forall|v: Seq<char>| has_token(t, v) implies has_token(r, v) by {
            let j = choose|j: int| 0 <= j < t.len() && t[j].0 == v;
            assert(r[j].0 == v);
        }
    }
}

/// The spam count (`spam`) or ham count (`!spam`) of `w`; meaningful where `has_token(t, w)`.
pub open spec fn count_of(t: Seq<TableEntry>, w: Seq<char>, spam: bool) -> nat {
    if spam {
        t[token_index(t, w)].2
    } else {
        t[token_index(t, w)].1
    }
}

proof fn lemma_index_unique(t: Seq<TableEntry>, v: Seq<char>, i: int)
    requires
        well_formed_table(t),
        0 <= i < t.len(),
        t[i].0 == v,
    ensures
        has_token(t, v),
        token_index(t, v) == i,
{
    assert(has_token(t, v));
    let k = token_index(t, v);
    if k != i {
        if k < i {
            assert(t[k].0 != t[i].0);
        } else {
            assert(t[i].0 != t[k].0);
        }
    }
}

proof fn lemma_train_word_counts(t: Seq<TableEntry>, w: Seq<char>, spam: bool, v: Seq<char>)
    requires
        well_formed_table(t),
        has_token(t, v),
    ensures
        count_of(train_word(t, w, spam), v, spam) >= count_of(t, v, spam),
        v == w ==> count_of(train_word(t, w, spam), v, spam) == count_of(t, v, spam) + 1,
{
    let r = train_word(t, w, spam);
    lemma_train_word(t, w, spam);
    let i = token_index(t, v);
    assert(r[i].0 == v);
    lemma_index_unique(r, v, i);
}

/// Training a word list keeps the table well formed, keeps every token, adds
/// every word, and raises each total by at most two per word.
pub proof fn lemma_train_words(t: Seq<TableEntry>, ws: Seq<Seq<char>>, spam: bool)
    requires
        well_formed_table(t),
    ensures
        well_formed_table(train_words(t, ws, spam)),
        sum_ham(t) <= sum_ham(train_words(t, ws, spam)) <= sum_ham(t) + 2 * ws.len(),
        sum_spam(t) <= sum_spam(train_words(t, ws, spam)) <= sum_spam(t) + 2 * ws.len(),
        forall|v: Seq<char>| has_token(t, v) ==> has_token(train_words(t, ws, spam), v),
        forall|k: int| 0 <= k < ws.len() ==> has_token(train_words(t, ws, spam), #[trigger] ws[k]),
    decreases ws.len(),
{
    if ws.len() > 0 {
        let t1 = train_words(t, ws.drop_last(), spam);
        lemma_train_words(t, ws.drop_last(), spam);
        lemma_train_word(t1, ws.last(), spam);
        assert forall|k: int| 0 <= k < ws.len() implies has_token(train_words(t, ws, spam), #[trigger] ws[k]) by {
            if k < ws.len() - 1 {
                assert(ws.drop_last()[k] == ws[k]);
            }
        }
    }
}

proof fn lemma_train_words_counts(t: Seq<TableEntry>, ws: Seq<Seq<char>>, spam: bool, v: Seq<char>)
    requires
        well_formed_table(t),
        has_token(t, v),
    ensures
        count_of(train_words(t, ws, spam), v, spam) >= count_of(t, v, spam),
        ws.contains(v) ==> count_of(train_words(t, ws, spam), v, spam) > count_of(t, v, spam),
    decreases ws.len(),
{
    if ws.len() > 0 {
        let t1 = train_words(t, ws.drop_last(), spam);
        lemma_train_words(t, ws.drop_last(), spam);
        lemma_train_words_counts(t, ws.drop_last(), spam, v);
        lemma_train_word_counts(t1, ws.last(), spam, v);
        if ws.contains(v) && v != ws.last() {
            let k = choose|k: int| 0 <= k < ws.len() && ws[k] == v;
            assert(ws.drop_last()[k] == v);
        }
    }
}

/// Every token of a classifier's table has a ham count and a spam count of at least one.
pub proof fn lemma_counts_at_least_one(c: &BayesianSpamClassifier, w: Seq<char>)
    requires
        c.wf(),
        has_token(c@, w),
    ensures
        lookup(c@, w) matches Some((h, s)) && h >= 1 && s >= 1,
{
    c.lemma_well_formed();
}

/// Both totals are zero exactly when the table is empty, and positive otherwise;
/// so ratings against them never divide by zero.
pub proof fn lemma_totals_zero_iff_empty(c: &BayesianSpamClassifier)
    requires
        c.wf(),
    ensures
        (c@.len() == 0) == (sum_ham(c@) == 0),
        (c@.len() == 0) == (sum_spam(c@) == 0),
{
    c.lemma_well_formed();
}

/// Training is accumulative: training a message a second time with the same
/// label raises that label's count of each of its words once more.
pub proof fn lemma_training_accumulates(t: Seq<TableEntry>, msg: Seq<char>, spam: bool, w: Seq<char>)
    requires
        well_formed_table(t),
        unicode_words_of(msg).contains(w),
        fits(train_message(t, msg, spam), unicode_words_of(msg).len()),
    ensures
        has_token(train_message(t, msg, spam), w),
        count_of(train_message(train_message(t, msg, spam), msg, spam), w, spam)
            > count_of(train_message(t, msg, spam), w, spam),
{
    let ws = unicode_words_of(msg);
    let t1 = train_words(t, ws, spam);
    lemma_train_words(t, ws, spam);
    assert(fits(t, ws.len()));
    let k = choose|k: int| 0 <= k < ws.len() && ws[k] == w;
    assert(has_token(t1, ws[k]));
    lemma_train_words_counts(t1, ws, spam, w);
}

fn dataset_format_message() -> String {
    "The specified dataset file is in invalid format!".to_owned()
}

impl View for BayesianSpamClassifier {
    type V = Seq<TableEntry>;

    closed spec fn view(&self) -> Seq<TableEntry> {
        Seq::new(
            self.tokens@.len(),
            |i: int| (self.tokens@[i]@, self.counters@[i].ham as nat, self.counters@[i].spam as nat),
        )
    }
}

impl BayesianSpamClassifier {
    /// The classifier's invariant: a well-formed table and totals that match it.
    pub closed spec fn wf(&self) -> bool {
        &&& self.tokens@.len() == self.counters@.len()
        &&& well_formed_table(self@)
        &&& self.ham_total == sum_ham(self@)
        &&& self.spam_total == sum_spam(self@)
    }

    proof fn lemma_well_formed(&self)
        requires
            self.wf(),
        ensures
            well_formed_table(self@),
            (self@.len() == 0) == (sum_ham(self@) == 0),
            (self@.len() == 0) == (sum_spam(self@) == 0),
    {
        if self@.len() > 0 {
            lemma_entry_le_sum(self@, self@.len() - 1);
        }
    }

    /// A classifier with an empty table.
    pub fn new() -> (r: Self)
        ensures
            r.wf(),
            r@ == Seq::<TableEntry>::empty(),
    {
        let r = BayesianSpamClassifier { tokens: Vec::new(), counters: Vec::new(), ham_total: 0, spam_total: 0 };
        assert(r@ =~= Seq::<TableEntry>::empty());
        r
    }

    /// Relies on `UnicodeSegmentation::unicode_words`: the words of `msg`, in order.
    #[verifier::external_body]
    fn split_string_into_list_of_words(&self, msg: &str) -> (r: Vec<String>)
        ensures
            r@.map_values(|w: String| w@) == unicode_words_of(msg@),
            msg@.len() == 0 ==> r@.len() == 0,
    {
        msg.unicode_words().map(|word| word.to_string()).collect()
    }

    fn find_token(&self, w: &String) -> (r: Option<usize>)
        requires
            self.wf(),
        ensures
            match r {
                Some(i) => i < self@.len() && self@[i as int].0 == w@ && token_index(self@, w@) == i,
                None => !has_token(self@, w@),
            },
    {
        let n = self.tokens.len();
        let mut i: usize = 0;
        while i < n
            invariant
                self.wf(),
                n == self@.len(),
                i <= n,
                forall|j: int| 0 <= j < i ==> self@[j].0 != w@,
            decreases n - i,
        {
            if self.tokens[i] == *w {
                proof {
                    assert(self@[i as int].0 == w@);
                    let k = token_index(self@, w@);
                    assert(self@[k].0 == w@);
                }
                return Some(i);
            }
            i = i + 1;
        }
        None
    }

    fn observe(&mut self, w: String, spam: bool)
        requires
            old(self).wf(),
            sum_ham(old(self)@) + 2 <= u64::MAX,
            sum_spam(old(self)@) + 2 <= u64::MAX,
        ensures
            final(self).wf(),
            final(self)@ == train_word(old(self)@, w@, spam),
    {
        proof {
            lemma_train_word(self@, w@, spam);
        }
        let ghost t = self@;
        match self.find_token(&w) {
            Some(i) => {
                let c = self.counters[i];
                proof {
                    lemma_entry_le_sum(t, i as int);
                }
                let c2 = if spam {
                    Counter { ham: c.ham, spam: c.spam + 1 }
                } else {
                    Counter { ham: c.ham + 1, spam: c.spam }
                };
                self.counters.set(i, c2);
                proof {
                    lemma_sum_update(t, i as int, self@[i as int]);
                    assert(self@ =~= train_word(t, w@, spam));
                }
                if spam {
                    self.spam_total = self.spam_total + 1;
                } else {
                    self.ham_total = self.ham_total + 1;
                }
            },
            None => {
                let c = if spam {
                    Counter { ham: 1, spam: 2 }
                } else {
                    Counter { ham: 2, spam: 1 }
                };
                self.tokens.push(w);
                self.counters.push(c);
                proof {
                    assert(self@ =~= train_word(t, w@, spam));
                    lemma_sum_push(t, self@.last());
                }
                self.ham_total = self.ham_total + c.ham;
                self.spam_total = self.spam_total + c.spam;
            },
        }
    }

    fn train_words(&mut self, words: Vec<String>, spam: bool)
        requires
            old(self).wf(),
            fits(old(self)@, words@.len()),
        ensures
            final(self).wf(),
            final(self)@ == train_words(old(self)@, words@.map_values(|w: String| w@), spam),
    {
        let ghost t0 = self@;
        let ghost ws = words@.map_values(|w: String| w@);
        let n = words.len();
        let mut i: usize = 0;
        while i < n
            invariant
                self.wf(),
                n == words@.len(),
                ws == words@.map_values(|w: String| w@),
                fits(t0, n as nat),
                i <= n,
                self@ == train_words(t0, ws.take(i as int), spam),
                sum_ham(self@) <= sum_ham(t0) + 2 * i,
                sum_spam(self@) <= sum_spam(t0) + 2 * i,
            decreases n - i,
        {
            let w = words[i].clone();
            proof {
                lemma_train_word(self@, w@, spam);
                assert(ws.take(i + 1).drop_last() =~= ws.take(i as int));
            }
            self.observe(w, spam);
            i = i + 1;
        }
        assert(ws.take(n as int) =~= ws);
    }

    /// Counts every word of `msg` once more as spam; where a total would
    /// overflow `u64` the table is left as it was.
    pub fn train_spam(&mut self, msg: &str)
        requires
            old(self).wf(),
        ensures
            final(self).wf(),
            final(self)@ == train_message(old(self)@, msg@, true),
    {
        let words = self.split_string_into_list_of_words(msg);
        if words.len() as u128 * 2 + self.ham_total as u128 <= u64::MAX as u128
            && words.len() as u128 * 2 + self.spam_total as u128 <= u64::MAX as u128 {
            self.train_words(words, true);
        }
    }

    /// Counts every word of `msg` once more as ham; where a total would
    /// overflow `u64` the table is left as it was.
    pub fn train_ham(&mut self, msg: &str)
        requires
            old(self).wf(),
        ensures
            final(self).wf(),
            final(self)@ == train_message(old(self)@, msg@, false),
    {
        let words = self.split_string_into_list_of_words(msg);
        if words.len() as u128 * 2 + self.ham_total as u128 <= u64::MAX as u128
            && words.len() as u128 * 2 + self.spam_total as u128 <= u64::MAX as u128 {
            self.train_words(words, false);
        }
    }

    /// Rates each word of `msg` in order: its counts if the table holds it, else `Unknown`.
    pub fn rate_words(&self, msg: &str) -> (r: Vec<WordRating>)
        requires
            self.wf(),
        ensures
            r@ == unicode_words_of(msg@).map_values(|w: Seq<char>| rating_of(self@, w)),
    {
        let words = self.split_string_into_list_of_words(msg);
        let ghost ws = words@.map_values(|w: String| w@);
        let mut ratings: Vec<WordRating> = Vec::new();
        let n = words.len();
        let mut i: usize = 0;
        while i < n
            invariant
                self.wf(),
                n == words@.len(),
                ws == words@.map_values(|w: String| w@),
                i <= n,
                ratings@ == ws.take(i as int).map_values(|w: Seq<char>| rating_of(self@, w)),
            decreases n - i,
        {
            let rating = match self.find_token(&words[i]) {
                Some(k) => {
                    let c = self.counters[k];
                    WordRating::Known { ham: c.ham, spam: c.spam }
                },
                None => WordRating::Unknown,
            };
            ratings.push(rating);
            assert(ratings@ =~= ws.take(i + 1).map_values(|w: Seq<char>| rating_of(self@, w)));
            i = i + 1;
        }
        assert(ws.take(n as int) =~= ws);
        ratings
    }

    /// Builds a classifier from stored entries; `None` where two entries share a
    /// token, a counter is zero, or a total overflows `u64`.
    pub fn new_from_pre_trained(entries: Vec<(String, Counter)>) -> (r: Option<Self>)
        ensures
            r is Some <==> (well_formed_table(entries_view(entries@)) && sum_ham(entries_view(entries@))
                <= u64::MAX && sum_spam(entries_view(entries@)) <= u64::MAX),
            r matches Some(c) ==> c.wf() && c@ == entries_view(entries@),
    {
        let ghost ev = entries_view(entries@);
        let mut r = BayesianSpamClassifier::new();
        let n = entries.len();
        let mut i: usize = 0;
        while i < n
            invariant
                r.wf(),
                n == entries@.len(),
                ev == entries_view(entries@),
                i <= n,
                r@ == ev.take(i as int),
            decreases n - i,
        {
            let token = entries[i].0.clone();
            let c = entries[i].1;
            proof {
                assert(ev.take(i + 1) =~= r@.push(ev[i as int]));
                lemma_sum_push(r@, ev[i as int]);
            }
            if c.ham == 0 || c.spam == 0 {
                proof {
                    assert(ev.take(i + 1)[i as int] == ev[i as int]);
                }
                return None;
            }
            if r.find_token(&token).is_some() {
                proof {
                    let k = token_index(r@, token@);
                    assert(ev[k].0 == ev[i as int].0);
                }
                return None;
            }
            if r.ham_total > u64::MAX - c.ham || r.spam_total > u64::MAX - c.spam {
                proof {
                    lemma_sum_prefix(ev, i as int + 1);
                }
                return None;
            }
            r.tokens.push(token);
            r.counters.push(c);
            r.ham_total = r.ham_total + c.ham;
            r.spam_total = r.spam_total + c.spam;
            assert(r@ =~= ev.take(i + 1));
            i = i + 1;
        }
        assert(ev.take(n as int) =~= ev);
        Some(r)
    }

    /// The table's entries, in the order in which tokens were first seen.
    pub fn entries(&self) -> (r: Vec<(String, Counter)>)
        requires
            self.wf(),
        ensures
            entries_view(r@) == self@,
    {
        let mut out: Vec<(String, Counter)> = Vec::new();
        let n = self.tokens.len();
        let mut i: usize = 0;
        while i < n
            invariant
                self.wf(),
                n == self@.len(),
                i <= n,
                out@.len() == i,
                entries_view(out@) == self@.take(i as int),
            decreases n - i,
        {
            let token = self.tokens[i].clone();
            let c = self.counters[i];
            out.push((token, c));
            assert(entries_view(out@) =~= self@.take(i + 1));
            i = i + 1;
        }
        assert(self@.take(n as int) =~= self@);
        out
    }

    /// Trains on each dataset line `label<TAB>message` in order. A malformed line
    /// stops the work with `InvalidDatasetFormatError`; what came before it stays trained.
    pub fn create_model_from_dataset(&mut self, lines: &Vec<String>) -> (r: Result<(), SpamClassifierError>)
        requires
            old(self).wf(),
        ensures
            final(self).wf(),
            final(self)@ == train_dataset(old(self)@, lines@.map_values(|l: String| l@)).0,
            r is Ok <==> train_dataset(old(self)@, lines@.map_values(|l: String| l@)).1,
            r matches Err(e) ==> e is InvalidDatasetFormatError,
    {
        let ghost t0 = self@;
        let ghost ls = lines@.map_values(|l: String| l@);
        let n = lines.len();
        let mut i: usize = 0;
        while i < n
            invariant
                self.wf(),
                n == lines@.len(),
                ls == lines@.map_values(|l: String| l@),
                i <= n,
                t0 == old(self)@,
                train_dataset(t0, ls.take(i as int)) == (self@, true),
            decreases n - i,
        {
            let line = lines[i].as_str();
            proof {
                assert(ls.take(i + 1).drop_last() =~= ls.take(i as int));
                assert(ls.take(i + 1).last() == line@);
            }
            let split_line = take_and_skip(line, '\t');
            match split_line {
                None => {
                    proof {
                        lemma_dataset_fails(t0, ls, i as int, self@);
                    }
                    return Err(SpamClassifierError::InvalidDatasetFormatError(dataset_format_message()));
                },
                Some((first, second)) => {
                    if first.is_empty() || second.is_empty() {
                        proof {
                            lemma_dataset_fails(t0, ls, i as int, self@);
                        }
                        return Err(SpamClassifierError::InvalidDatasetFormatError(dataset_format_message()));
                    }
                    let label = first.to_owned();
                    let ghost before = self@;
                    proof {
                        reveal_strlit("ham");
                        reveal_strlit("spam");
                        assert("ham"@ =~= ham_label());
                        assert("spam"@ =~= spam_label());
                    }
                    if label == "ham".to_owned() {
                        self.train_ham(second);
                    } else if label == "spam".to_owned() {
                        self.train_spam(second);
                    }
                    assert(train_line(before, line@) == Some(self@));
                },
            }
            i = i + 1;
        }
        assert(ls.take(n as int) =~= ls);
        Ok(())
    }

    /// The sum of the spam counts over the whole table.
    pub fn spam_total_count(&self) -> (r: u64)
        requires
            self.wf(),
        ensures
            r == sum_spam(self@),
    {
        self.spam_total
    }

    /// The sum of the ham counts over the whole table.
    pub fn ham_total_count(&self) -> (r: u64)
        requires
            self.wf(),
        ensures
            r == sum_ham(self@),
    {
        self.ham_total
    }
}

} // verus!
