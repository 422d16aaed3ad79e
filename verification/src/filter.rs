//! Entry filtering: keeps the entries that satisfy an optional keyword
//! constraint and an optional inclusive time window. Absent constraints impose
//! no restriction; all supplied constraints must hold at once. Survivors keep
//! their order and are not changed.

use vstd::prelude::*;

use crate::parser::{ts_le, EntryView, LogEntry, Timestamp};
use crate::text::str_to_chars;

verus! {

/// Whether `k` occurs in `m` as a contiguous (case-sensitive) substring.
pub open spec fn contains_sub(m: Seq<char>, k: Seq<char>) -> bool {
    exists|i: int| 0 <= i && i + k.len() <= m.len() && #[trigger] m.subrange(i, i + k.len()) == k
}

/// Whether the characters of `k` occur at position `i` of `m`.
fn matches_at(m: &Vec<char>, k: &Vec<char>, i: usize) -> (r: bool)
    requires
        i + k@.len() <= m@.len(),
    ensures
        r == (m@.subrange(i as int, i as int + k@.len()) == k@),
{
    let klen = k.len();
    let mlen = m.len();
    let mut j: usize = 0;
    while j < klen
        invariant
            i + klen <= mlen,
            mlen == m@.len(),
            klen == k@.len(),
            0 <= j <= klen,
            forall|p: int| 0 <= p < j ==> m@.subrange(i as int, i as int + klen)[p] == k@[p],
        decreases klen - j,
    {
        if m[i + j] != k[j] {
            assert(m@.subrange(i as int, i as int + klen as int)[j as int] != k@[j as int]);
            return false;
        }
        j = j + 1;
    }
    assert(m@.subrange(i as int, i as int + klen as int) =~= k@);
    true
}

/// Whether `k` occurs in `m` as a contiguous substring.
pub fn contains_substring(m: &Vec<char>, k: &Vec<char>) -> (r: bool)
    ensures
        r == contains_sub(m@, k@),
{
    let mlen = m.len();
    let klen = k.len();
    if klen > mlen {
        assert(!contains_sub(m@, k@));
        return false;
    }
    if klen == 0 {
        proof {
            assert(m@.subrange(0, 0 + k@.len() as int) =~= k@);
        }
        return true;
    }
    let bound = mlen - klen;
    let mut i: usize = 0;
    while i <= bound
        invariant
            mlen == m@.len(),
            klen == k@.len(),
            1 <= klen <= mlen,
            bound == mlen - klen,
            0 <= i <= bound + 1,
            forall|p: int| 0 <= p < i ==> #[trigger] m@.subrange(p, p + klen as int) != k@,
        decreases bound - i + 1,
    {
        if matches_at(m, k, i) {
            return true;
        }
        i = i + 1;
    }
    assert(!contains_sub(m@, k@));
    false
}

/// The keyword constraint of a filter, as a mathematical value.
pub open spec fn keyword_view(keyword: Option<String>) -> Option<Seq<char>> {
    match keyword {
        Some(k) => Some(k@),
        None => None,
    }
}

/// Whether an entry satisfies all three constraints: the message contains the
/// keyword (if one is supplied), and the timestamp lies inside the inclusive
/// window (where its ends are supplied).
pub open spec fn spec_retain(
    e: EntryView,
    keyword: Option<Seq<char>>,
    from: Option<Timestamp>,
    to: Option<Timestamp>,
) -> bool {
    &&& match keyword {
        Some(k) => contains_sub(e.message, k),
        None => true,
    }
    &&& match from {
        Some(f) => ts_le(f, e.timestamp),
        None => true,
    }
    &&& match to {
        Some(t) => ts_le(e.timestamp, t),
        None => true,
    }
}

/// The subsequence of `s` whose entries satisfy all supplied constraints,
/// in their original order.
pub open spec fn spec_filter(
    s: Seq<EntryView>,
    keyword: Option<Seq<char>>,
    from: Option<Timestamp>,
    to: Option<Timestamp>,
) -> Seq<EntryView>
    decreases s.len(),
{
    if s.len() == 0 {
        Seq::empty()
    } else {
        spec_filter(s.drop_last(), keyword, from, to) + if spec_retain(
            s.last(),
            keyword,
            from,
            to,
        ) {
            seq![s.last()]
        } else {
            Seq::empty()
        }
    }
}

/// Keeps the entries that satisfy the supplied constraints: the message must
/// contain `keyword` (case-sensitive) if one is given, and the timestamp must
/// lie in the inclusive window `[from, to]` where those ends are given.
/// Survivors keep their original order.
pub fn apply_filters(
    entries: Vec<LogEntry>,
    keyword: &Option<String>,
    from: &Option<Timestamp>,
    to: &Option<Timestamp>,
) -> (r: Vec<LogEntry>)
    ensures
        r.deep_view() == spec_filter(entries.deep_view(), keyword_view(*keyword), *from, *to),
{
    let ghost kw = keyword_view(*keyword);
    let kw_chars: Option<Vec<char>> = match keyword {
        Some(k) => Some(str_to_chars(k.as_str())),
        None => None,
    };
    let n = entries.len();
    let mut out: Vec<LogEntry> = Vec::new();
    let mut i: usize = 0;
    while i < n
        invariant
            n == entries@.len(),
            0 <= i <= n,
            match (kw_chars, kw) {
                (Some(v), Some(s)) => v@ == s,
                (None, None) => true,
                _ => false,
            },
            out.deep_view() == spec_filter(entries.deep_view().take(i as int), kw, *from, *to),
        decreases n - i,
    {
        let ghost prefix = entries.deep_view().take(i as int);
        let ghost next = entries.deep_view().take(i as int + 1);
        proof {
            assert(next.drop_last() =~= prefix);
            assert(next.last() == entries.deep_view()[i as int]);
        }
        let e = &entries[i];
        let keep_keyword = match &kw_chars {
            Some(k) => {
                let mc = str_to_chars(e.message.as_str());
                contains_substring(&mc, k)
            },
            None => true,
        };
        let keep_from = match from {
            Some(f) => f.le(&e.timestamp),
            None => true,
        };
        let keep_to = match to {
            Some(t) => e.timestamp.le(t),
            None => true,
        };
        if keep_keyword && keep_from && keep_to {
            let ghost before = out.deep_view();
            out.push(e.clone());
            proof {
                assert(out.deep_view() =~= before.push(e@));
                assert(before.push(e@) =~= spec_filter(next, kw, *from, *to));
            }
        } else {
            proof {
                assert(out.deep_view() =~= spec_filter(next, kw, *from, *to));
            }
        }
        i = i + 1;
    }
    proof {
        assert(entries.deep_view().take(n as int) =~= entries.deep_view());
    }
    out
}

/// An order-preserving-subset relation: `a` can be had from `b` by deleting
/// elements, without reordering the survivors.
pub open spec fn is_subseq_of(a: Seq<EntryView>, b: Seq<EntryView>) -> bool
    decreases b.len(),
{
    if a.len() == 0 {
        true
    } else if b.len() == 0 {
        false
    } else {
        (a.last() == b.last() && is_subseq_of(a.drop_last(), b.drop_last())) || is_subseq_of(
            a,
            b.drop_last(),
        )
    }
}

/// Law: for every combination of constraints, the filtered sequence is a
/// subsequence (an order-preserving subset) of the original, and every
/// retained entry satisfies all supplied constraints.
pub proof fn lemma_filter_is_subsequence(
    s: Seq<EntryView>,
    keyword: Option<Seq<char>>,
    from: Option<Timestamp>,
    to: Option<Timestamp>,
)
    ensures
        is_subseq_of(spec_filter(s, keyword, from, to), s),
        forall|j: int|
            0 <= j < spec_filter(s, keyword, from, to).len() ==> spec_retain(
                #[trigger] spec_filter(s, keyword, from, to)[j],
                keyword,
                from,
                to,
            ),
    decreases s.len(),
{
    if s.len() > 0 {
        lemma_filter_is_subsequence(s.drop_last(), keyword, from, to);
        let f = spec_filter(s, keyword, from, to);
        let fd = spec_filter(s.drop_last(), keyword, from, to);
        if spec_retain(s.last(), keyword, from, to) {
            assert(f =~= fd.push(s.last()));
            assert(f.last() == s.last());
            assert(f.drop_last() =~= fd);
        } else {
            assert(f =~= fd);
        }
    }
}

} // verus!
