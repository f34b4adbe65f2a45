//! The filter/sort pipeline over normalized records: an optional substring
//! filter, the per-record name sort, and the final record sort.

use vstd::prelude::*;
use vstd::relations::sorted_by;

use crate::conversation::ConversationView;
use crate::conversation::NormalizedConversation;
use crate::sort::lemma_multiset_map;
use crate::sort::record_leq_fn;
use crate::sort::sort_conversations;
use crate::sort::sort_names;
use crate::text::is_substring;
use crate::text::lex_leq_fn;
use crate::text::str_contains;

verus! {

/// Whether a record survives the substring filter: an empty substring keeps
/// every record, a nonempty one keeps exactly the records in which at least
/// one name contains it.
pub open spec fn keeps(c: ConversationView, sub: Seq<char>) -> bool {
    sub.len() == 0 || exists|i: int| 0 <= i < c.names.len() && is_substring(sub, c.names[i])
}

/// The filter as a predicate value on records.
pub open spec fn keep_fn(sub: Seq<char>) -> spec_fn(NormalizedConversation) -> bool {
    |c: NormalizedConversation| keeps(c@, sub)
}

/// The views of a run of records, in order.
pub open spec fn record_views(s: Seq<NormalizedConversation>) -> Seq<ConversationView> {
    s.map_values(|c: NormalizedConversation| c@)
}

/// The view of a record once its names are sorted in the code-point order.
pub open spec fn name_sorted_view(c: NormalizedConversation) -> ConversationView {
    ConversationView {
        id: c@.id,
        type_marker: c@.type_marker,
        names: c@.names.sort_by(lex_leq_fn()),
        is_archived: c@.is_archived,
        is_deleted: c@.is_deleted,
    }
}

/// The views of a run of records once each record's names are sorted.
pub open spec fn name_sorted_views(s: Seq<NormalizedConversation>) -> Seq<ConversationView> {
    s.map_values(|c: NormalizedConversation| name_sorted_view(c))
}

/// A filter that keeps every record returns the run unchanged.
proof fn lemma_filter_keep_all(s: Seq<NormalizedConversation>, pred: spec_fn(
    NormalizedConversation,
) -> bool)
    requires
        forall|i: int| 0 <= i < s.len() ==> #[trigger] pred(s[i]),
    ensures
        s.filter(pred) == s,
    decreases s.len(),
{
    reveal(Seq::filter);
    if s.len() > 0 {
        assert forall|i: int| 0 <= i < s.drop_last().len() implies #[trigger] pred(
            s.drop_last()[i],
        ) by {
            assert(s.drop_last()[i] == s[i]);
        }
        lemma_filter_keep_all(s.drop_last(), pred);
        assert(pred(s[s.len() - 1]));
        assert(s.filter(pred) =~= s);
    }
}

/// Whether at least one of the record's names contains the substring.
pub fn name_matches(c: &NormalizedConversation, substring: &str) -> (r: bool)
    ensures
        r == exists|i: int| 0 <= i < c@.names.len() && is_substring(substring@, c@.names[i]),
{
    let n = c.names.len();
    let mut k: usize = 0;
    while k < n
        invariant
            n == c.names@.len(),
            c@.names.len() == n,
            k <= n,
            forall|i: int| 0 <= i < k ==> !is_substring(substring@, c@.names[i]),
        decreases n - k,
    {
        proof {
            assert(c@.names[k as int] == c.names@[k as int]@);
        }
        if str_contains(c.names[k].as_str(), substring) {
            return true;
        }
        k = k + 1;
    }
    false
}

/// Applies the substring filter: exactly the records with a matching name
/// survive, in their incoming order, and an empty substring changes
/// nothing.
pub fn filter_conversations(records: Vec<NormalizedConversation>, substring: &str) -> (out: Vec<
    NormalizedConversation,
>)
    ensures
        out@ == records@.filter(keep_fn(substring@)),
        substring@.len() == 0 ==> out@ == records@,
{
    let ghost orig = records@;
    let ghost pred = keep_fn(substring@);
    if substring.unicode_len() == 0 {
        proof {
            assert(forall|i: int| 0 <= i < orig.len() ==> #[trigger] pred(orig[i]));
            lemma_filter_keep_all(orig, pred);
        }
        return records;
    }
    let mut rem = records;
    let mut out: Vec<NormalizedConversation> = Vec::new();
    let total = rem.len();
    let mut i: usize = 0;
    proof {
        assert(rem@ =~= orig.skip(0));
        assert(orig.take(0) =~= Seq::<NormalizedConversation>::empty());
        assert(out@ =~= orig.take(0).filter(pred));
    }
    while rem.len() > 0
        invariant
            total == orig.len(),
            i <= orig.len(),
            rem@ == orig.skip(i as int),
            out@ == orig.take(i as int).filter(pred),
            pred == keep_fn(substring@),
            substring@.len() > 0,
        decreases rem@.len(),
    {
        let c = rem.remove(0);
        proof {
            assert(c == orig[i as int]);
            assert(rem@ =~= orig.skip(i + 1));
            assert(orig.take(i + 1).drop_last() =~= orig.take(i as int));
            assert(orig.take(i + 1).last() == orig[i as int]);
        }
        let ghost out_before = out@;
        if name_matches(&c, substring) {
            proof {
                assert(pred(c));
            }
            out.push(c);
            proof {
                reveal(Seq::filter);
                assert(out@ == out_before.push(c));
                assert(out@ =~= orig.take(i + 1).filter(pred));
            }
        } else {
            proof {
                reveal(Seq::filter);
                assert(!pred(c));
                assert(out@ =~= orig.take(i + 1).filter(pred));
            }
        }
        i = i + 1;
    }
    proof {
        assert(orig.take(i as int) =~= orig);
    }
    out
}

/// Sorts each record's names in place (by rebuilding the record around the
/// sorted list): views change exactly by sorting their name lists.
fn sort_all_names(records: Vec<NormalizedConversation>) -> (out: Vec<NormalizedConversation>)
    ensures
        record_views(out@) == name_sorted_views(records@),
{
    let ghost orig = records@;
    let mut rem = records;
    let mut out: Vec<NormalizedConversation> = Vec::new();
    let total = rem.len();
    let mut i: usize = 0;
    proof {
        assert(rem@ =~= orig.skip(0));
        assert(record_views(out@) =~= name_sorted_views(orig.take(0)));
    }
    while rem.len() > 0
        invariant
            total == orig.len(),
            i <= orig.len(),
            rem@ == orig.skip(i as int),
            record_views(out@) == name_sorted_views(orig.take(i as int)),
        decreases rem@.len(),
    {
        let c = rem.remove(0);
        proof {
            assert(c == orig[i as int]);
            assert(rem@ =~= orig.skip(i + 1));
        }
        let NormalizedConversation { id, type_marker, names, is_archived, is_deleted } = c;
        let names = sort_names(names);
        let rebuilt = NormalizedConversation { id, type_marker, names, is_archived, is_deleted };
        proof {
            assert(rebuilt@ == name_sorted_view(c));
        }
        let ghost out_before = out@;
        out.push(rebuilt);
        proof {
            assert(record_views(out@) =~= record_views(out_before).push(rebuilt@));
            assert(record_views(out@) =~= name_sorted_views(orig.take(i + 1)));
        }
        i = i + 1;
    }
    proof {
        assert(orig.take(i as int) =~= orig);
    }
    out
}

/// Runs the whole post-processing pipeline in the listing's order: the
/// substring filter, then each record's name sort, then the record sort.
/// The result holds, as views, exactly the surviving records with their
/// names sorted, ordered by type marker and then by name list.
pub fn finalize(records: Vec<NormalizedConversation>, substring: &str) -> (out: Vec<
    NormalizedConversation,
>)
    ensures
        sorted_by(out@, record_leq_fn()),
        record_views(out@).to_multiset() == name_sorted_views(
            records@.filter(keep_fn(substring@)),
        ).to_multiset(),
{
    let filtered = filter_conversations(records, substring);
    let renamed = sort_all_names(filtered);
    let ghost renamed0 = renamed@;
    let out = sort_conversations(renamed);
    proof {
        lemma_multiset_map(out@, renamed0, |c: NormalizedConversation| c@);
    }
    out
}

} // verus!
