//! The analyzer: derives summary statistics from a fixed, already-filtered
//! entry sequence. Analysis is a total, pure function of the entries: it
//! never fails, and the empty sequence yields an empty analysis.
//!
//! Keyword ranking sorts by count descending with a stable sort, so entries
//! with equal counts keep their first-seen order (the documented tie-break).

use vstd::prelude::*;

use crate::parser::{spec_format_timestamp, EntryView, LogEntry, LogLevel};
use crate::text::{chars_eq_str, chars_to_string, normalize, normalize_token, split_ws,
    str_to_chars, tokenize};

verus! {

// ---------------------------------------------------------------------------
// Level distribution
// ---------------------------------------------------------------------------

/// How many entries of `s` carry level `l`.
pub open spec fn count_level(s: Seq<EntryView>, l: LogLevel) -> nat
    decreases s.len(),
{
    if s.len() == 0 {
        0
    } else {
        count_level(s.drop_last(), l) + if s.last().level == l {
            1nat
        } else {
            0nat
        }
    }
}

/// The level distribution of `s`: one pair per level actually observed, in
/// the fixed order Info, Warn, Error. Levels never seen are absent, not
/// zero-valued.
pub open spec fn spec_level_counts(s: Seq<EntryView>) -> Seq<(LogLevel, nat)> {
    (if count_level(s, LogLevel::Info) > 0 {
        seq![(LogLevel::Info, count_level(s, LogLevel::Info))]
    } else {
        Seq::empty()
    }) + (if count_level(s, LogLevel::Warn) > 0 {
        seq![(LogLevel::Warn, count_level(s, LogLevel::Warn))]
    } else {
        Seq::empty()
    }) + (if count_level(s, LogLevel::Error) > 0 {
        seq![(LogLevel::Error, count_level(s, LogLevel::Error))]
    } else {
        Seq::empty()
    })
}

/// The sum of the counts of a level distribution.
pub open spec fn sum_counts(s: Seq<(LogLevel, nat)>) -> nat
    decreases s.len(),
{
    if s.len() == 0 {
        0
    } else {
        sum_counts(s.drop_last()) + s.last().1
    }
}

/// Every entry carries exactly one of the three levels.
pub proof fn lemma_count_level_split(s: Seq<EntryView>)
    ensures
        count_level(s, LogLevel::Info) + count_level(s, LogLevel::Warn) + count_level(
            s,
            LogLevel::Error,
        ) == s.len(),
    decreases s.len(),
{
    if s.len() > 0 {
        lemma_count_level_split(s.drop_last());
    }
}

proof fn lemma_sum_counts_app(a: Seq<(LogLevel, nat)>, b: Seq<(LogLevel, nat)>)
    ensures
        sum_counts(a + b) == sum_counts(a) + sum_counts(b),
    decreases b.len(),
{
    if b.len() == 0 {
        assert(a + b =~= a);
    } else {
        assert((a + b).drop_last() =~= a + b.drop_last());
        lemma_sum_counts_app(a, b.drop_last());
    }
}

/// Law: a level never appears in the distribution with a zero count — keys
/// are present only for levels seen at least once.
pub proof fn lemma_level_counts_positive(s: Seq<EntryView>)
    ensures
        forall|j: int|
            0 <= j < spec_level_counts(s).len() ==> (#[trigger] spec_level_counts(s)[j]).1 >= 1,
{
}

/// Law: the counts of the level distribution sum to the number of entries,
/// since every entry carries a recognized level.
pub proof fn lemma_level_counts_sum(s: Seq<EntryView>)
    ensures
        sum_counts(spec_level_counts(s)) == s.len(),
{
    let a = if count_level(s, LogLevel::Info) > 0 {
        seq![(LogLevel::Info, count_level(s, LogLevel::Info))]
    } else {
        Seq::<(LogLevel, nat)>::empty()
    };
    let b = if count_level(s, LogLevel::Warn) > 0 {
        seq![(LogLevel::Warn, count_level(s, LogLevel::Warn))]
    } else {
        Seq::<(LogLevel, nat)>::empty()
    };
    let c = if count_level(s, LogLevel::Error) > 0 {
        seq![(LogLevel::Error, count_level(s, LogLevel::Error))]
    } else {
        Seq::<(LogLevel, nat)>::empty()
    };
    lemma_sum_counts_app(a + b, c);
    lemma_sum_counts_app(a, b);
    assert(sum_counts(Seq::<(LogLevel, nat)>::empty()) == 0);
    assert(sum_counts(a) == count_level(s, LogLevel::Info)) by {
        if count_level(s, LogLevel::Info) > 0 {
            assert(a.drop_last() =~= Seq::<(LogLevel, nat)>::empty());
            assert(sum_counts(a) == sum_counts(a.drop_last()) + a.last().1);
        }
    }
    assert(sum_counts(b) == count_level(s, LogLevel::Warn)) by {
        if count_level(s, LogLevel::Warn) > 0 {
            assert(b.drop_last() =~= Seq::<(LogLevel, nat)>::empty());
            assert(sum_counts(b) == sum_counts(b.drop_last()) + b.last().1);
        }
    }
    assert(sum_counts(c) == count_level(s, LogLevel::Error)) by {
        if count_level(s, LogLevel::Error) > 0 {
            assert(c.drop_last() =~= Seq::<(LogLevel, nat)>::empty());
            assert(sum_counts(c) == sum_counts(c.drop_last()) + c.last().1);
        }
    }
    lemma_count_level_split(s);
}

// ---------------------------------------------------------------------------
// Keyword extraction
// ---------------------------------------------------------------------------

/// The fixed stopword set: common English function words excluded from
/// keyword ranking regardless of frequency.
pub open spec fn spec_stopwords() -> Seq<Seq<char>> {
    seq![
        "the"@,
        "and"@,
        "for"@,
        "with"@,
        "from"@,
        "that"@,
        "this"@,
        "have"@,
        "has"@,
        "been"@,
        "was"@,
        "were"@,
        "are"@,
        "will"@,
        "would"@,
        "could"@,
        "should"@,
    ]
}

/// Whether a normalized token is counted as a keyword: longer than three
/// characters and not a stopword.
pub open spec fn keyword_ok(w: Seq<char>) -> bool {
    w.len() > 3 && !spec_stopwords().contains(w)
}

/// The qualifying normalized forms of a token sequence, in order.
pub open spec fn quals_of_tokens(toks: Seq<Seq<char>>) -> Seq<Seq<char>>
    decreases toks.len(),
{
    if toks.len() == 0 {
        Seq::empty()
    } else {
        quals_of_tokens(toks.drop_last()) + if keyword_ok(normalize(toks.last())) {
            seq![normalize(toks.last())]
        } else {
            Seq::empty()
        }
    }
}

/// The qualifying normalized tokens of one message.
pub open spec fn message_keywords(m: Seq<char>) -> Seq<Seq<char>> {
    quals_of_tokens(split_ws(m))
}

/// The qualifying normalized tokens of all entries, in entry order.
pub open spec fn all_keywords(s: Seq<EntryView>) -> Seq<Seq<char>>
    decreases s.len(),
{
    if s.len() == 0 {
        Seq::empty()
    } else {
        all_keywords(s.drop_last()) + message_keywords(s.last().message)
    }
}

/// How many times `w` occurs in `toks`.
pub open spec fn count_word(toks: Seq<Seq<char>>, w: Seq<char>) -> nat
    decreases toks.len(),
{
    if toks.len() == 0 {
        0
    } else {
        count_word(toks.drop_last(), w) + if toks.last() == w {
            1nat
        } else {
            0nat
        }
    }
}

/// The distinct elements of `toks`, in first-occurrence order.
pub open spec fn distinct_in_order(toks: Seq<Seq<char>>) -> Seq<Seq<char>>
    decreases toks.len(),
{
    if toks.len() == 0 {
        Seq::empty()
    } else {
        distinct_in_order(toks.drop_last()) + if toks.drop_last().contains(toks.last()) {
            Seq::empty()
        } else {
            seq![toks.last()]
        }
    }
}

/// The occurrence counts of `toks`: one pair per distinct element, keyed in
/// first-occurrence order.
pub open spec fn spec_word_counts(toks: Seq<Seq<char>>) -> Seq<(Seq<char>, nat)> {
    distinct_in_order(toks).map_values(|w: Seq<char>| (w, count_word(toks, w)))
}

/// `x` inserted into `s` after every pair whose count is at least `x`'s:
/// the insertion step of a stable sort by count descending.
pub open spec fn insert_desc(x: (Seq<char>, nat), s: Seq<(Seq<char>, nat)>) -> Seq<
    (Seq<char>, nat),
>
    decreases s.len(),
{
    if s.len() == 0 {
        seq![x]
    } else if s[0].1 >= x.1 {
        seq![s[0]] + insert_desc(x, s.drop_first())
    } else {
        seq![x] + s
    }
}

/// `s` sorted by count descending, stably: pairs with equal counts keep
/// their relative order.
pub open spec fn sort_desc(s: Seq<(Seq<char>, nat)>) -> Seq<(Seq<char>, nat)>
    decreases s.len(),
{
    if s.len() == 0 {
        s
    } else {
        insert_desc(s.last(), sort_desc(s.drop_last()))
    }
}

/// The first `n` elements of `s`, or all of `s` if it is shorter.
pub open spec fn take_up_to(s: Seq<(Seq<char>, nat)>, n: int) -> Seq<(Seq<char>, nat)> {
    if s.len() <= n {
        s
    } else {
        s.take(n)
    }
}

/// The ranked keywords of `s`: occurrence counts of all qualifying normalized
/// tokens, sorted by count descending (stable), truncated to `limit`.
pub open spec fn spec_top_keywords(s: Seq<EntryView>, limit: int) -> Seq<(Seq<char>, nat)> {
    take_up_to(sort_desc(spec_word_counts(all_keywords(s))), limit)
}

// ---------------------------------------------------------------------------
// Time range
// ---------------------------------------------------------------------------

/// The formatted timestamps of the first and last entry, in sequence order —
/// deliberately not a minimum/maximum scan: entries are assumed chronological,
/// and the range reflects the surviving sequence as it stands.
pub open spec fn spec_time_range(s: Seq<EntryView>) -> Option<(Seq<char>, Seq<char>)> {
    if s.len() == 0 {
        None
    } else {
        Some(
            (
                spec_format_timestamp(s[0].timestamp),
                spec_format_timestamp(s[s.len() - 1].timestamp),
            ),
        )
    }
}

// ---------------------------------------------------------------------------
// The analysis result
// ---------------------------------------------------------------------------

/// The mathematical value of a [`LogAnalysis`].
#[verifier::ext_equal]
pub struct AnalysisView {
    pub total_lines: nat,
    pub level_counts: Seq<(LogLevel, nat)>,
    pub top_keywords: Seq<(Seq<char>, nat)>,
    pub time_range: Option<(Seq<char>, Seq<char>)>,
}

/// The complete analysis of an entry sequence, as one mathematical value.
pub open spec fn spec_analyze(s: Seq<EntryView>) -> AnalysisView {
    AnalysisView {
        total_lines: s.len(),
        level_counts: spec_level_counts(s),
        top_keywords: spec_top_keywords(s, 5),
        time_range: spec_time_range(s),
    }
}

/// The immutable output of one analysis run.
pub struct LogAnalysis {
    /// Number of entries analyzed.
    pub total_lines: usize,
    /// Level distribution; keys present only for levels actually observed,
    /// in the fixed order Info, Warn, Error.
    pub level_counts: Vec<(LogLevel, usize)>,
    /// Ranked keywords: at most five pairs, by count descending.
    pub top_keywords: Vec<(String, usize)>,
    /// Formatted first and last timestamp; present iff the input was
    /// non-empty.
    pub time_range: Option<(String, String)>,
}

/// The mathematical value of a level-count vector.
pub open spec fn level_counts_abs(s: Seq<(LogLevel, usize)>) -> Seq<(LogLevel, nat)> {
    s.map_values(|p: (LogLevel, usize)| (p.0, p.1 as nat))
}

/// The mathematical value of a keyword-count vector over character vectors.
pub open spec fn wc_abs(s: Seq<(Vec<char>, usize)>) -> Seq<(Seq<char>, nat)> {
    s.map_values(|p: (Vec<char>, usize)| (p.0@, p.1 as nat))
}

/// The mathematical value of a keyword-count vector over strings.
pub open spec fn kw_abs(s: Seq<(String, usize)>) -> Seq<(Seq<char>, nat)> {
    s.map_values(|p: (String, usize)| (p.0@, p.1 as nat))
}

impl View for LogAnalysis {
    type V = AnalysisView;

    open spec fn view(&self) -> AnalysisView {
        AnalysisView {
            total_lines: self.total_lines as nat,
            level_counts: level_counts_abs(self.level_counts@),
            top_keywords: kw_abs(self.top_keywords@),
            time_range: match self.time_range {
                Some(r) => Some((r.0@, r.1@)),
                None => None,
            },
        }
    }
}

// ---------------------------------------------------------------------------
// Supporting lemmas
// ---------------------------------------------------------------------------

proof fn lemma_count_word_le(toks: Seq<Seq<char>>, w: Seq<char>)
    ensures
        count_word(toks, w) <= toks.len(),
    decreases toks.len(),
{
    if toks.len() > 0 {
        lemma_count_word_le(toks.drop_last(), w);
    }
}

proof fn lemma_count_word_zero(toks: Seq<Seq<char>>, w: Seq<char>)
    requires
        !toks.contains(w),
    ensures
        count_word(toks, w) == 0,
    decreases toks.len(),
{
    if toks.len() > 0 {
        assert(!toks.drop_last().contains(w)) by {
            if toks.drop_last().contains(w) {
                let i = choose|i: int| 0 <= i < toks.drop_last().len() && toks.drop_last()[i] == w;
                assert(toks[i] == w);
            }
        }
        lemma_count_word_zero(toks.drop_last(), w);
        assert(toks.last() != w) by {
            if toks.last() == w {
                assert(toks[toks.len() - 1] == w);
            }
        }
    }
}

proof fn lemma_count_word_push(toks: Seq<Seq<char>>, t: Seq<char>, w: Seq<char>)
    ensures
        count_word(toks.push(t), w) == count_word(toks, w) + if t == w {
            1nat
        } else {
            0nat
        },
{
    assert(toks.push(t).drop_last() =~= toks);
    assert(toks.push(t).last() == t);
}

proof fn lemma_distinct_contains(toks: Seq<Seq<char>>, w: Seq<char>)
    ensures
        distinct_in_order(toks).contains(w) <==> toks.contains(w),
    decreases toks.len(),
{
    if toks.len() > 0 {
        lemma_distinct_contains(toks.drop_last(), w);
        let d = distinct_in_order(toks);
        let dd = distinct_in_order(toks.drop_last());
        if toks.contains(w) {
            let i = choose|i: int| 0 <= i < toks.len() && toks[i] == w;
            if i < toks.len() - 1 {
                assert(toks.drop_last()[i] == w);
                assert(toks.drop_last().contains(w));
                let j = choose|j: int| 0 <= j < dd.len() && dd[j] == w;
                assert(d[j] == w);
                assert(d.contains(w));
            } else {
                // w is the last element
                if toks.drop_last().contains(toks.last()) {
                    let j = choose|j: int| 0 <= j < dd.len() && dd[j] == w;
                    assert(d[j] == w);
                    assert(d.contains(w));
                } else {
                    assert(d[d.len() - 1] == w);
                    assert(d.contains(w));
                }
            }
        }
        if d.contains(w) {
            let j = choose|j: int| 0 <= j < d.len() && d[j] == w;
            if j < dd.len() {
                assert(dd[j] == w);
                assert(dd.contains(w));
                let i = choose|i: int| 0 <= i < toks.drop_last().len() && toks.drop_last()[i] == w;
                assert(toks[i] == w);
                assert(toks.contains(w));
            } else {
                assert(d[j] == toks.last());
                assert(toks[toks.len() - 1] == w);
                assert(toks.contains(w));
            }
        }
    }
}

proof fn lemma_distinct_unique(toks: Seq<Seq<char>>)
    ensures
        forall|i: int, j: int|
            0 <= i < j < distinct_in_order(toks).len() ==> #[trigger] distinct_in_order(toks)[i]
                != #[trigger] distinct_in_order(toks)[j],
    decreases toks.len(),
{
    if toks.len() > 0 {
        lemma_distinct_unique(toks.drop_last());
        let d = distinct_in_order(toks);
        let dd = distinct_in_order(toks.drop_last());
        assert forall|i: int, j: int| 0 <= i < j < d.len() implies #[trigger] d[i] != #[trigger] d[j] by {
            if j < dd.len() {
                assert(d[i] == dd[i] && d[j] == dd[j]);
            } else {
                // j indexes the newly added last element
                assert(!toks.drop_last().contains(toks.last()));
                assert(d[j] == toks.last());
                assert(d[i] == dd[i]);
                assert(dd.contains(dd[i]));
                lemma_distinct_contains(toks.drop_last(), dd[i]);
            }
        }
    }
}

proof fn lemma_quals_take_step(toks: Seq<Seq<char>>, j: int)
    requires
        0 <= j < toks.len(),
    ensures
        quals_of_tokens(toks.take(j + 1)) == quals_of_tokens(toks.take(j)) + if keyword_ok(
            normalize(toks[j]),
        ) {
            seq![normalize(toks[j])]
        } else {
            Seq::<Seq<char>>::empty()
        },
{
    assert(toks.take(j + 1).drop_last() =~= toks.take(j));
    assert(toks.take(j + 1).last() == toks[j]);
}

proof fn lemma_quals_take_len(toks: Seq<Seq<char>>, j: int)
    requires
        0 <= j <= toks.len(),
    ensures
        quals_of_tokens(toks.take(j)).len() <= quals_of_tokens(toks).len(),
    decreases toks.len() - j,
{
    if j == toks.len() {
        assert(toks.take(j) =~= toks);
    } else {
        lemma_quals_take_step(toks, j);
        lemma_quals_take_len(toks, j + 1);
    }
}

proof fn lemma_all_keywords_take_step(s: Seq<EntryView>, i: int)
    requires
        0 <= i < s.len(),
    ensures
        all_keywords(s.take(i + 1)) == all_keywords(s.take(i)) + message_keywords(s[i].message),
{
    assert(s.take(i + 1).drop_last() =~= s.take(i));
    assert(s.take(i + 1).last() == s[i]);
}

proof fn lemma_all_keywords_take_len(s: Seq<EntryView>, i: int)
    requires
        0 <= i <= s.len(),
    ensures
        all_keywords(s.take(i)).len() <= all_keywords(s).len(),
    decreases s.len() - i,
{
    if i == s.len() {
        assert(s.take(i) =~= s);
    } else {
        lemma_all_keywords_take_step(s, i);
        lemma_all_keywords_take_len(s, i + 1);
    }
}

proof fn lemma_quals_ok(toks: Seq<Seq<char>>)
    ensures
        forall|j: int|
            0 <= j < quals_of_tokens(toks).len() ==> keyword_ok(
                #[trigger] quals_of_tokens(toks)[j],
            ),
    decreases toks.len(),
{
    if toks.len() > 0 {
        lemma_quals_ok(toks.drop_last());
        let qd = quals_of_tokens(toks.drop_last());
        let q = quals_of_tokens(toks);
        assert forall|j: int| 0 <= j < q.len() implies keyword_ok(#[trigger] q[j]) by {
            if j < qd.len() {
                assert(q[j] == qd[j]);
            } else {
                assert(q[j] == normalize(toks.last()));
            }
        }
    }
}

proof fn lemma_all_keywords_ok(s: Seq<EntryView>)
    ensures
        forall|j: int|
            0 <= j < all_keywords(s).len() ==> keyword_ok(#[trigger] all_keywords(s)[j]),
    decreases s.len(),
{
    if s.len() > 0 {
        lemma_all_keywords_ok(s.drop_last());
        lemma_quals_ok(split_ws(s.last().message));
        let ad = all_keywords(s.drop_last());
        let mk = message_keywords(s.last().message);
        let a = all_keywords(s);
        assert forall|j: int| 0 <= j < a.len() implies keyword_ok(#[trigger] a[j]) by {
            if j < ad.len() {
                assert(a[j] == ad[j]);
            } else {
                assert(a[j] == mk[j - ad.len()]);
            }
        }
    }
}

proof fn lemma_insert_desc_at(s: Seq<(Seq<char>, nat)>, x: (Seq<char>, nat), p: int)
    requires
        0 <= p <= s.len(),
        forall|q: int| 0 <= q < p ==> (#[trigger] s[q]).1 >= x.1,
        p < s.len() ==> s[p].1 < x.1,
    ensures
        insert_desc(x, s) == s.subrange(0, p) + seq![x] + s.subrange(p, s.len() as int),
    decreases p,
{
    if p == 0 {
        if s.len() == 0 {
            assert(insert_desc(x, s) =~= s.subrange(0, 0) + seq![x] + s.subrange(0, 0));
        } else {
            assert(insert_desc(x, s) =~= s.subrange(0, 0) + seq![x] + s.subrange(
                0,
                s.len() as int,
            ));
        }
    } else {
        let d = s.drop_first();
        assert(forall|q: int| 0 <= q < p - 1 ==> (#[trigger] d[q]).1 >= x.1) by {
            assert(forall|q: int| 0 <= q < p - 1 ==> d[q] == s[q + 1]);
        }
        lemma_insert_desc_at(d, x, p - 1);
        assert(insert_desc(x, s) == seq![s[0]] + insert_desc(x, d));
        assert(seq![s[0]] + (d.subrange(0, p - 1) + seq![x] + d.subrange(p - 1, d.len() as int))
            =~= s.subrange(0, p) + seq![x] + s.subrange(p, s.len() as int));
    }
}

/// Whether the counts of `s` are non-increasing.
pub open spec fn sorted_desc(s: Seq<(Seq<char>, nat)>) -> bool {
    forall|i: int, j: int| 0 <= i <= j < s.len() ==> (#[trigger] s[i]).1 >= (#[trigger] s[j]).1
}

proof fn lemma_insert_desc_sorted(x: (Seq<char>, nat), s: Seq<(Seq<char>, nat)>)
    requires
        sorted_desc(s),
    ensures
        sorted_desc(insert_desc(x, s)),
        insert_desc(x, s).len() == s.len() + 1,
    decreases s.len(),
{
    if s.len() == 0 {
    } else if s[0].1 >= x.1 {
        let d = s.drop_first();
        assert(sorted_desc(d)) by {
            assert(forall|q: int| 0 <= q < d.len() ==> d[q] == s[q + 1]);
        }
        lemma_insert_desc_sorted(x, d);
        let r = seq![s[0]] + insert_desc(x, d);
        assert forall|i: int, j: int| 0 <= i <= j < r.len() implies (#[trigger] r[i]).1
            >= (#[trigger] r[j]).1 by {
            if i == 0 && j > 0 {
                // s[0] outranks everything in insert_desc(x, d)
                lemma_insert_desc_elements(x, d);
                let e = insert_desc(x, d)[j - 1];
                if e == x {
                } else {
                    let q = choose|q: int| 0 <= q < d.len() && d[q] == e;
                    assert(s[q + 1] == e);
                }
            }
        }
    } else {
        let r = seq![x] + s;
        assert forall|i: int, j: int| 0 <= i <= j < r.len() implies (#[trigger] r[i]).1
            >= (#[trigger] r[j]).1 by {
            if i == 0 && j > 0 {
                assert(r[j] == s[j - 1]);
                assert(s[0].1 >= s[j - 1].1);
            }
        }
    }
}

proof fn lemma_insert_desc_elements(x: (Seq<char>, nat), s: Seq<(Seq<char>, nat)>)
    ensures
        insert_desc(x, s).len() == s.len() + 1,
        forall|j: int|
            0 <= j < insert_desc(x, s).len() ==> (#[trigger] insert_desc(x, s)[j]) == x
                || s.contains(insert_desc(x, s)[j]),
    decreases s.len(),
{
    if s.len() == 0 {
    } else if s[0].1 >= x.1 {
        let d = s.drop_first();
        lemma_insert_desc_elements(x, d);
        let r = seq![s[0]] + insert_desc(x, d);
        assert forall|j: int| 0 <= j < r.len() implies (#[trigger] r[j]) == x || s.contains(
            r[j],
        ) by {
            if j == 0 {
                assert(s[0] == r[0]);
                assert(s.contains(s[0]));
            } else {
                let e = insert_desc(x, d)[j - 1];
                if e != x {
                    let q = choose|q: int| 0 <= q < d.len() && d[q] == e;
                    assert(s[q + 1] == e);
                    assert(s.contains(e));
                }
            }
        }
    } else {
        let r = seq![x] + s;
        assert forall|j: int| 0 <= j < r.len() implies (#[trigger] r[j]) == x || s.contains(
            r[j],
        ) by {
            if j > 0 {
                assert(r[j] == s[j - 1]);
                assert(s.contains(s[j - 1]));
            }
        }
    }
}

proof fn lemma_sort_desc_sorted(s: Seq<(Seq<char>, nat)>)
    ensures
        sorted_desc(sort_desc(s)),
        sort_desc(s).len() == s.len(),
        forall|j: int|
            0 <= j < sort_desc(s).len() ==> s.contains(#[trigger] sort_desc(s)[j]),
    decreases s.len(),
{
    if s.len() > 0 {
        let d = s.drop_last();
        lemma_sort_desc_sorted(d);
        lemma_insert_desc_sorted(s.last(), sort_desc(d));
        lemma_insert_desc_elements(s.last(), sort_desc(d));
        assert forall|j: int| 0 <= j < sort_desc(s).len() implies s.contains(
            #[trigger] sort_desc(s)[j],
        ) by {
            let e = sort_desc(s)[j];
            if e == s.last() {
                assert(s[s.len() - 1] == e);
            } else {
                assert(sort_desc(d).contains(e));
                let q = choose|q: int| 0 <= q < sort_desc(d).len() && sort_desc(d)[q] == e;
                assert(d.contains(e));
                let q2 = choose|q2: int| 0 <= q2 < d.len() && d[q2] == e;
                assert(s[q2] == e);
            }
        }
    }
}

// ---------------------------------------------------------------------------
// Laws about the ranked keywords
// ---------------------------------------------------------------------------

/// Law: the ranked keyword list has at most five pairs and its counts are
/// non-increasing.
pub proof fn lemma_top_keywords_sorted(s: Seq<EntryView>)
    ensures
        spec_top_keywords(s, 5).len() <= 5,
        forall|i: int, j: int|
            0 <= i <= j < spec_top_keywords(s, 5).len() ==> (#[trigger] spec_top_keywords(s, 5)[i]).1
                >= (#[trigger] spec_top_keywords(s, 5)[j]).1,
{
    let sorted = sort_desc(spec_word_counts(all_keywords(s)));
    lemma_sort_desc_sorted(spec_word_counts(all_keywords(s)));
    assert forall|i: int, j: int| 0 <= i <= j < spec_top_keywords(s, 5).len() implies (
    #[trigger] spec_top_keywords(s, 5)[i]).1 >= (#[trigger] spec_top_keywords(s, 5)[j]).1 by {
        assert(spec_top_keywords(s, 5)[i] == sorted[i]);
        assert(spec_top_keywords(s, 5)[j] == sorted[j]);
    }
}

/// Law: every ranked keyword qualifies — its normalized form is longer than
/// three characters and is not a stopword.
pub proof fn lemma_top_keywords_qualify(s: Seq<EntryView>)
    ensures
        forall|j: int|
            0 <= j < spec_top_keywords(s, 5).len() ==> keyword_ok(
                (#[trigger] spec_top_keywords(s, 5)[j]).0,
            ),
{
    let toks = all_keywords(s);
    let wc = spec_word_counts(toks);
    let sorted = sort_desc(wc);
    lemma_sort_desc_sorted(wc);
    lemma_all_keywords_ok(s);
    assert forall|j: int| 0 <= j < spec_top_keywords(s, 5).len() implies keyword_ok(
        (#[trigger] spec_top_keywords(s, 5)[j]).0,
    ) by {
        let e = spec_top_keywords(s, 5)[j];
        assert(e == sorted[j]);
        assert(sorted.contains(e)) by {
            assert(sorted[j] == e);
        }
        assert(wc.contains(e));
        let q = choose|q: int| 0 <= q < wc.len() && wc[q] == e;
        assert(e.0 == distinct_in_order(toks)[q]);
        assert(distinct_in_order(toks).contains(e.0)) by {
            assert(distinct_in_order(toks)[q] == e.0);
        }
        lemma_distinct_contains(toks, e.0);
        let p = choose|p: int| 0 <= p < toks.len() && toks[p] == e.0;
        assert(keyword_ok(toks[p]));
    }
}

/// Law: the analysis is a pure function of the entry sequence — two runs on
/// equal entries yield identical results.
pub proof fn lemma_analyze_deterministic(
    entries: Seq<EntryView>,
    first: AnalysisView,
    second: AnalysisView,
)
    requires
        first == spec_analyze(entries),
        second == spec_analyze(entries),
    ensures
        first == second,
{
}

// ---------------------------------------------------------------------------
// The analyzer
// ---------------------------------------------------------------------------

/// Machine limit under which keyword counts cannot overflow: the number of
/// qualifying tokens fits in `usize`. Any entry sequence that exists in
/// memory satisfies it, since each qualifying token occupies several bytes
/// of some message.
pub open spec fn keyword_counts_fit(s: Seq<EntryView>) -> bool {
    all_keywords(s).len() <= usize::MAX
}

/// Derives summary statistics from a fixed entry sequence.
pub struct LogAnalyzer {
    entries: Vec<LogEntry>,
}

impl LogAnalyzer {
    /// The entry sequence this analyzer was built over.
    pub closed spec fn entries_view(&self) -> Seq<EntryView> {
        self.entries.deep_view()
    }

    /// Takes ownership of an already-filtered entry sequence.
    pub fn new(entries: Vec<LogEntry>) -> (r: Self)
        ensures
            r.entries_view() == entries.deep_view(),
    {
        LogAnalyzer { entries }
    }

    /// The full analysis: entry count, level distribution, ranked keywords,
    /// and the first/last time range. Pure and total: the result is a
    /// function of the entries alone, and the empty sequence yields an empty
    /// analysis.
    pub fn analyze(&self) -> (r: LogAnalysis)
        requires
            keyword_counts_fit(self.entries_view()),
        ensures
            r@ == spec_analyze(self.entries_view()),
            r.total_lines == self.entries_view().len(),
    {
        let total_lines = self.entries.len();
        let level_counts = self.count_by_level();
        let top_keywords = self.extract_top_keywords(5);
        let time_range = self.calculate_time_range();
        let r = LogAnalysis { total_lines, level_counts, top_keywords, time_range };
        assert(r@ =~= spec_analyze(self.entries_view()));
        r
    }

    /// The level distribution: a single pass, one counter per level; levels
    /// never observed are absent from the result.
    pub fn count_by_level(&self) -> (r: Vec<(LogLevel, usize)>)
        ensures
            level_counts_abs(r@) == spec_level_counts(self.entries_view()),
    {
        let ghost ents = self.entries_view();
        let n = self.entries.len();
        let mut info: usize = 0;
        let mut warn: usize = 0;
        let mut error: usize = 0;
        let mut i: usize = 0;
        while i < n
            invariant
                n == self.entries@.len(),
                ents == self.entries.deep_view(),
                0 <= i <= n,
                info == count_level(ents.take(i as int), LogLevel::Info),
                warn == count_level(ents.take(i as int), LogLevel::Warn),
                error == count_level(ents.take(i as int), LogLevel::Error),
                info + warn + error == i,
            decreases n - i,
        {
            proof {
                assert(ents.take(i as int + 1).drop_last() =~= ents.take(i as int));
                assert(ents.take(i as int + 1).last() == ents[i as int]);
            }
            match self.entries[i].level {
                LogLevel::Info => {
                    info = info + 1;
                },
                LogLevel::Warn => {
                    warn = warn + 1;
                },
                LogLevel::Error => {
                    error = error + 1;
                },
            }
            i = i + 1;
        }
        proof {
            assert(ents.take(n as int) =~= ents);
        }
        let mut r: Vec<(LogLevel, usize)> = Vec::new();
        if info > 0 {
            r.push((LogLevel::Info, info));
        }
        if warn > 0 {
            r.push((LogLevel::Warn, warn));
        }
        if error > 0 {
            r.push((LogLevel::Error, error));
        }
        proof {
            assert(level_counts_abs(r@) =~= spec_level_counts(ents));
        }
        r
    }

    /// The fixed stopword list.
    pub fn build_stopwords(&self) -> (r: Vec<&'static str>)
        ensures
            r.deep_view() == spec_stopwords(),
    {
        let mut v: Vec<&'static str> = Vec::new();
        v.push("the");
        v.push("and");
        v.push("for");
        v.push("with");
        v.push("from");
        v.push("that");
        v.push("this");
        v.push("have");
        v.push("has");
        v.push("been");
        v.push("was");
        v.push("were");
        v.push("are");
        v.push("will");
        v.push("would");
        v.push("could");
        v.push("should");
        proof {
            assert(v.deep_view() =~= spec_stopwords());
        }
        v
    }

    /// The ranked keywords: tokenize every message by whitespace, normalize
    /// each token, discard short tokens and stopwords, count occurrences,
    /// sort by count descending (stable, so equal counts keep first-seen
    /// order) and truncate to `limit`.
    pub fn extract_top_keywords(&self, limit: usize) -> (r: Vec<(String, usize)>)
        requires
            keyword_counts_fit(self.entries_view()),
        ensures
            kw_abs(r@) == spec_top_keywords(self.entries_view(), limit as int),
    {
        let ghost ents = self.entries_view();
        let stopwords = self.build_stopwords();
        let n = self.entries.len();
        let mut counts: Vec<(Vec<char>, usize)> = Vec::new();
        let mut i: usize = 0;
        while i < n
            invariant
                n == self.entries@.len(),
                ents == self.entries.deep_view(),
                all_keywords(ents).len() <= usize::MAX,
                stopwords.deep_view() == spec_stopwords(),
                0 <= i <= n,
                wc_abs(counts@) == spec_word_counts(all_keywords(ents.take(i as int))),
            decreases n - i,
        {
            let msg_chars = str_to_chars(self.entries[i].message.as_str());
            let toks = tokenize(&msg_chars);
            let ghost tk = split_ws(ents[i as int].message);
            proof {
                assert(msg_chars@ == ents[i as int].message);
                assert(toks.deep_view() == tk);
            }
            let m = toks.len();
            let mut j: usize = 0;
            while j < m
                invariant
                    n == self.entries@.len(),
                    ents == self.entries.deep_view(),
                    all_keywords(ents).len() <= usize::MAX,
                    stopwords.deep_view() == spec_stopwords(),
                    0 <= i < n,
                    tk == split_ws(ents[i as int].message),
                    m == toks@.len(),
                    toks.deep_view() == tk,
                    0 <= j <= m,
                    wc_abs(counts@) == spec_word_counts(
                        all_keywords(ents.take(i as int)) + quals_of_tokens(tk.take(j as int)),
                    ),
                decreases m - j,
            {
                let w = normalize_token(&toks[j]);
                let ghost prior = all_keywords(ents.take(i as int)) + quals_of_tokens(
                    tk.take(j as int),
                );
                proof {
                    assert(toks@[j as int]@ == tk[j as int]);
                    lemma_quals_take_step(tk, j as int);
                }
                let qualifying = w.len() > 3 && !is_stopword(&w, &stopwords);
                assert(qualifying == keyword_ok(normalize(tk[j as int])));
                if qualifying {
                    proof {
                        lemma_quals_take_len(tk, j as int + 1);
                        lemma_all_keywords_take_step(ents, i as int);
                        lemma_all_keywords_take_len(ents, i as int + 1);
                        assert(prior.len() + 1 == all_keywords(ents.take(i as int)).len()
                            + quals_of_tokens(tk.take(j as int + 1)).len());
                        assert(prior.len() < usize::MAX);
                    }
                    bump_count(&mut counts, w, Ghost(prior));
                    proof {
                        assert(prior.push(normalize(tk[j as int])) =~= all_keywords(
                            ents.take(i as int),
                        ) + quals_of_tokens(tk.take(j as int + 1)));
                    }
                } else {
                    proof {
                        assert(all_keywords(ents.take(i as int)) + quals_of_tokens(
                            tk.take(j as int + 1),
                        ) =~= prior);
                    }
                }
                j = j + 1;
            }
            proof {
                assert(tk.take(m as int) =~= tk);
                lemma_all_keywords_take_step(ents, i as int);
            }
            i = i + 1;
        }
        proof {
            assert(ents.take(n as int) =~= ents);
        }
        let sorted = sort_by_count_desc(counts);
        let mut limited = sorted;
        let ghost sorted_abs = wc_abs(limited@);
        limited.truncate(limit);
        proof {
            if limit as int <= sorted_abs.len() {
                assert(wc_abs(limited@) =~= take_up_to(sorted_abs, limit as int));
            } else {
                assert(wc_abs(limited@) =~= take_up_to(sorted_abs, limit as int));
            }
        }
        let k = limited.len();
        let mut r: Vec<(String, usize)> = Vec::new();
        let mut q: usize = 0;
        while q < k
            invariant
                k == limited@.len(),
                0 <= q <= k,
                kw_abs(r@) == wc_abs(limited@).take(q as int),
            decreases k - q,
        {
            let ghost r_before = kw_abs(r@);
            let word = chars_to_string(&limited[q].0);
            let c = limited[q].1;
            proof {
                assert(word@ == limited@[q as int].0@);
            }
            r.push((word, c));
            q = q + 1;
            proof {
                assert(kw_abs(r@) =~= r_before.push(
                    (limited@[q as int - 1].0@, limited@[q as int - 1].1 as nat),
                ));
                assert(kw_abs(r@) =~= wc_abs(limited@).take(q as int));
            }
        }
        proof {
            assert(wc_abs(limited@).take(k as int) =~= wc_abs(limited@));
        }
        r
    }

    /// The time range: the first and last entry's formatted timestamps, in
    /// sequence order (not a minimum/maximum scan); absent for no entries.
    pub fn calculate_time_range(&self) -> (r: Option<(String, String)>)
        ensures
            match r {
                Some(p) => spec_time_range(self.entries_view()) == Some((p.0@, p.1@)),
                None => spec_time_range(self.entries_view()) == None::<(Seq<char>, Seq<char>)>,
            },
    {
        let n = self.entries.len();
        if n == 0 {
            return None;
        }
        let first = self.entries[0].timestamp.format();
        let last = self.entries[n - 1].timestamp.format();
        Some((first, last))
    }
}

/// Whether the character vectors `a` and `b` hold the same characters.
fn chars_eq(a: &Vec<char>, b: &Vec<char>) -> (r: bool)
    ensures
        r == (a@ == b@),
{
    let n = a.len();
    if b.len() != n {
        return false;
    }
    let mut i: usize = 0;
    while i < n
        invariant
            n == a@.len() == b@.len(),
            0 <= i <= n,
            forall|k: int| 0 <= k < i ==> a@[k] == b@[k],
        decreases n - i,
    {
        if a[i] != b[i] {
            return false;
        }
        i = i + 1;
    }
    assert(a@ =~= b@);
    true
}

/// Whether `w` is one of the stopwords.
fn is_stopword(w: &Vec<char>, stopwords: &Vec<&'static str>) -> (r: bool)
    requires
        stopwords.deep_view() == spec_stopwords(),
    ensures
        r == spec_stopwords().contains(w@),
{
    let n = stopwords.len();
    let wlen = w.len();
    let mut i: usize = 0;
    while i < n
        invariant
            n == stopwords@.len(),
            stopwords.deep_view() == spec_stopwords(),
            wlen == w@.len(),
            0 <= i <= n,
            forall|q: int| 0 <= q < i ==> spec_stopwords()[q] != w@,
        decreases n - i,
    {
        let hit = chars_eq_str(w, 0, wlen, stopwords[i]);
        proof {
            assert(w@.subrange(0, wlen as int) =~= w@);
        }
        if hit {
            assert(spec_stopwords()[i as int] == w@);
            return true;
        }
        i = i + 1;
    }
    assert(!spec_stopwords().contains(w@));
    false
}

/// Records one more occurrence of `w`: bumps its count if it is already
/// keyed, else appends it with count one, keeping first-seen key order.
#[verifier::loop_isolation(false)]
fn bump_count(
    counts: &mut Vec<(Vec<char>, usize)>,
    w: Vec<char>,
    Ghost(prior): Ghost<Seq<Seq<char>>>,
)
    requires
        wc_abs(old(counts)@) == spec_word_counts(prior),
        prior.len() < usize::MAX,
    ensures
        wc_abs(final(counts)@) == spec_word_counts(prior.push(w@)),
{
    let ghost toks = prior.push(w@);
    let ghost d = distinct_in_order(prior);
    proof {
        assert(toks.drop_last() =~= prior);
        assert(toks.last() == w@);
        lemma_distinct_unique(prior);
        lemma_count_word_le(prior, w@);
    }
    let n = counts.len();
    let mut i: usize = 0;
    while i < n
        invariant
            n == counts@.len(),
            wc_abs(counts@) == spec_word_counts(prior),
            0 <= i <= n,
            forall|q: int| 0 <= q < i ==> (#[trigger] counts@[q]).0@ != w@,
        decreases n - i,
    {
        if chars_eq(&counts[i].0, &w) {
            // w already keyed at i: bump its count in place
            proof {
                assert(wc_abs(counts@).len() == counts@.len());
                assert(spec_word_counts(prior).len() == d.len());
                assert(wc_abs(counts@)[i as int] == spec_word_counts(prior)[i as int]);
                assert(spec_word_counts(prior)[i as int] == (
                    d[i as int],
                    count_word(prior, d[i as int]),
                ));
                assert(wc_abs(counts@)[i as int].0 == counts@[i as int].0@);
                assert(d[i as int] == w@);
                assert(d.contains(w@)) by {
                    assert(d[i as int] == w@);
                }
                lemma_distinct_contains(prior, w@);
                assert(prior.contains(w@));
                assert(distinct_in_order(toks) =~= d);
            }
            let ghost before = counts@;
            let entry = counts.remove(i);
            let c = entry.1;
            proof {
                assert(c as nat == count_word(prior, w@));
            }
            counts.insert(i, (entry.0, c + 1));
            proof {
                assert(counts@ =~= before.update(i as int, (before[i as int].0, (c
                    + 1) as usize)));
                let target = spec_word_counts(toks);
                assert(target.len() == d.len());
                assert forall|q: int| 0 <= q < wc_abs(counts@).len() implies wc_abs(counts@)[q]
                    == target[q] by {
                    lemma_count_word_push(prior, w@, d[q]);
                    assert(target[q] == (d[q], count_word(toks, d[q])));
                    if q == i as int {
                        assert(counts@[q] == (before[i as int].0, (c + 1) as usize));
                        assert(count_word(toks, w@) == count_word(prior, w@) + 1);
                    } else {
                        // distinct keys: d[q] != w@, so the count is unchanged
                        assert(d[q] != d[i as int]);
                        assert(counts@[q] == before[q]);
                        assert(wc_abs(before)[q] == spec_word_counts(prior)[q]);
                    }
                }
                assert(wc_abs(counts@) =~= target);
            }
            return ;
        }
        i = i + 1;
    }
    // w not yet keyed: append with count one
    proof {
        assert(!d.contains(w@)) by {
            if d.contains(w@) {
                let q = choose|q: int| 0 <= q < d.len() && d[q] == w@;
                assert(wc_abs(counts@)[q].0 == w@);
                assert(counts@[q].0@ == w@);
            }
        }
        lemma_distinct_contains(prior, w@);
        assert(!prior.contains(w@));
        lemma_count_word_zero(prior, w@);
    }
    let ghost before = counts@;
    let ghost wv = w@;
    counts.push((w, 1));
    proof {
        let target = spec_word_counts(toks);
        assert(distinct_in_order(toks) =~= d.push(wv));
        assert(target.len() == d.len() + 1);
        assert(wc_abs(before).len() == d.len());
        assert forall|q: int| 0 <= q < wc_abs(counts@).len() implies wc_abs(counts@)[q]
            == target[q] by {
            assert(target[q] == (
                distinct_in_order(toks)[q],
                count_word(toks, distinct_in_order(toks)[q]),
            ));
            lemma_count_word_push(prior, wv, distinct_in_order(toks)[q]);
            if q < d.len() {
                assert(counts@[q] == before[q]);
                assert(wc_abs(before)[q] == spec_word_counts(prior)[q]);
                assert(distinct_in_order(toks)[q] == d[q]);
                assert(d[q] != wv) by {
                    if d[q] == wv {
                        assert(d.contains(wv)) by {
                            assert(d[q] == wv);
                        }
                    }
                }
            } else {
                assert(distinct_in_order(toks)[q] == wv);
                assert(wc_abs(counts@)[q] == (wv, 1nat));
                assert(count_word(toks, wv) == count_word(prior, wv) + 1);
            }
        }
        assert(wc_abs(counts@) =~= target);
    }
}

/// Sorts key/count pairs by count descending with a stable insertion sort:
/// pairs with equal counts keep their relative (first-seen) order.
fn sort_by_count_desc(counts: Vec<(Vec<char>, usize)>) -> (r: Vec<(Vec<char>, usize)>)
    ensures
        wc_abs(r@) == sort_desc(wc_abs(counts@)),
{
    let ghost orig = wc_abs(counts@);
    let mut rest = counts;
    let total = rest.len();
    let mut out: Vec<(Vec<char>, usize)> = Vec::new();
    let mut i: usize = 0;
    while rest.len() > 0
        invariant
            total == orig.len(),
            i + rest@.len() == total,
            wc_abs(rest@) == orig.skip(i as int),
            wc_abs(out@) == sort_desc(orig.take(i as int)),
        decreases rest@.len(),
    {
        let ghost rest_abs = wc_abs(rest@);
        let ghost rest_before = rest@;
        let x = rest.remove(0);
        proof {
            assert(wc_abs(rest@) =~= rest_abs.skip(1));
            assert(rest_abs.skip(1) =~= orig.skip(i as int + 1));
            assert(x == rest_before[0]);
            assert(rest_abs[0] == (rest_before[0].0@, rest_before[0].1 as nat));
            assert(rest_abs[0] == orig.skip(i as int)[0]);
            assert(orig.skip(i as int)[0] == orig[i as int]);
            assert((x.0@, x.1 as nat) == orig[i as int]);
        }
        let olen = out.len();
        let mut p: usize = 0;
        while p < olen && out[p].1 >= x.1
            invariant
                olen == out@.len(),
                0 <= p <= olen,
                forall|q: int| 0 <= q < p ==> (#[trigger] out@[q]).1 >= x.1,
            decreases olen - p,
        {
            p = p + 1;
        }
        let ghost out_abs = wc_abs(out@);
        let ghost x_abs = (x.0@, x.1 as nat);
        proof {
            assert(forall|q: int| 0 <= q < p ==> (#[trigger] out_abs[q]).1 >= x_abs.1);
            lemma_insert_desc_at(out_abs, x_abs, p as int);
        }
        out.insert(p, x);
        proof {
            assert(wc_abs(out@) =~= out_abs.subrange(0, p as int) + seq![x_abs]
                + out_abs.subrange(p as int, out_abs.len() as int));
            assert(orig.take(i as int + 1).drop_last() =~= orig.take(i as int));
            assert(orig.take(i as int + 1).last() == orig[i as int]);
            assert(wc_abs(out@) == insert_desc(x_abs, sort_desc(orig.take(i as int))));
        }
        i = i + 1;
    }
    proof {
        assert(orig.take(i as int) =~= orig);
    }
    out
}

} // verus!
