//! Ordering and sorting of normalized records: the lexicographic order on
//! name lists, the record order (type marker first, then names), and the
//! sorts the pipeline runs.

use vstd::prelude::*;
use vstd::relations::sorted_by;

use crate::conversation::NormalizedConversation;
use crate::text::lemma_lex_leq_antisymmetric;
use crate::text::lemma_lex_leq_connected;
use crate::text::lemma_lex_leq_reflexive;
use crate::text::lemma_lex_leq_total_ordering;
use crate::text::lemma_lex_leq_transitive;
use crate::text::lex_leq;
use crate::text::lex_leq_fn;
use crate::text::str_lex_leq;

verus! {

/// Lexicographic order on name lists: element by element in the code-point
/// order, a strict prefix first.
pub open spec fn names_leq(a: Seq<Seq<char>>, b: Seq<Seq<char>>) -> bool
    decreases a.len(),
{
    if a.len() == 0 {
        true
    } else if b.len() == 0 {
        false
    } else if a.first() == b.first() {
        names_leq(a.drop_first(), b.drop_first())
    } else {
        lex_leq(a.first(), b.first())
    }
}

pub proof fn lemma_names_leq_transitive(a: Seq<Seq<char>>, b: Seq<Seq<char>>, c: Seq<Seq<char>>)
    requires
        names_leq(a, b),
        names_leq(b, c),
    ensures
        names_leq(a, c),
    decreases a.len(),
{
    if a.len() > 0 {
        assert(b.len() > 0);
        assert(c.len() > 0);
        if a.first() == b.first() && b.first() == c.first() {
            lemma_names_leq_transitive(a.drop_first(), b.drop_first(), c.drop_first());
        } else if a.first() == b.first() {
            assert(a.first() != c.first());
        } else if b.first() == c.first() {
            assert(a.first() != c.first());
        } else {
            lemma_lex_leq_transitive(a.first(), b.first(), c.first());
            if a.first() == c.first() {
                lemma_lex_leq_antisymmetric(a.first(), b.first());
                assert(false);
            }
        }
    }
}

pub proof fn lemma_names_leq_connected(a: Seq<Seq<char>>, b: Seq<Seq<char>>)
    ensures
        names_leq(a, b) || names_leq(b, a),
    decreases a.len(),
{
    if a.len() > 0 && b.len() > 0 {
        if a.first() == b.first() {
            lemma_names_leq_connected(a.drop_first(), b.drop_first());
        } else {
            lemma_lex_leq_connected(a.first(), b.first());
        }
    }
}

/// The order the final listing obeys: records group by type marker in
/// code-point order, and records of one marker order by their name lists.
pub open spec fn record_leq(a: NormalizedConversation, b: NormalizedConversation) -> bool {
    if a.type_marker != b.type_marker {
        (a.type_marker as u32) < (b.type_marker as u32)
    } else {
        names_leq(a@.names, b@.names)
    }
}

/// The record order as a relation value.
pub open spec fn record_leq_fn() -> spec_fn(NormalizedConversation, NormalizedConversation) -> bool {
    |a: NormalizedConversation, b: NormalizedConversation| record_leq(a, b)
}

pub proof fn lemma_record_leq_connected(a: NormalizedConversation, b: NormalizedConversation)
    ensures
        record_leq(a, b) || record_leq(b, a),
{
    if a.type_marker == b.type_marker {
        lemma_names_leq_connected(a@.names, b@.names);
    }
}

pub proof fn lemma_record_leq_transitive(
    a: NormalizedConversation,
    b: NormalizedConversation,
    c: NormalizedConversation,
)
    requires
        record_leq(a, b),
        record_leq(b, c),
    ensures
        record_leq(a, c),
{
    if a.type_marker == b.type_marker && b.type_marker == c.type_marker {
        lemma_names_leq_transitive(a@.names, b@.names, c@.names);
    }
}

/// Compares two strings in the code-point order, as the name sort needs it.
fn string_le(a: &String, b: &String) -> (r: bool)
    ensures
        r == lex_leq(a@, b@),
{
    str_lex_leq(a.as_str(), b.as_str())
}

/// Compares two name lists lexicographically.
fn names_le(a: &Vec<String>, b: &Vec<String>) -> (r: bool)
    ensures
        r == names_leq(a.deep_view(), b.deep_view()),
{
    let alen = a.len();
    let blen = b.len();
    let mut i: usize = 0;
    proof {
        assert(a.deep_view().skip(0) =~= a.deep_view());
        assert(b.deep_view().skip(0) =~= b.deep_view());
    }
    loop
        invariant
            alen == a@.len(),
            blen == b@.len(),
            a.deep_view().len() == a@.len(),
            b.deep_view().len() == b@.len(),
            i <= alen,
            i <= blen,
            names_leq(a.deep_view(), b.deep_view()) == names_leq(
                a.deep_view().skip(i as int),
                b.deep_view().skip(i as int),
            ),
        decreases alen - i,
    {
        if i == alen {
            return true;
        }
        if i == blen {
            return false;
        }
        proof {
            assert(a.deep_view().skip(i as int).first() == a@[i as int]@);
            assert(b.deep_view().skip(i as int).first() == b@[i as int]@);
        }
        if a[i] == b[i] {
            proof {
                assert(a.deep_view().skip(i as int).drop_first() =~= a.deep_view().skip(i + 1));
                assert(b.deep_view().skip(i as int).drop_first() =~= b.deep_view().skip(i + 1));
            }
            i = i + 1;
        } else {
            return string_le(&a[i], &b[i]);
        }
    }
}

/// Compares two records: type marker first, then the name lists.
fn record_le(a: &NormalizedConversation, b: &NormalizedConversation) -> (r: bool)
    ensures
        r == record_leq(*a, *b),
{
    if a.type_marker == b.type_marker {
        names_le(&a.names, &b.names)
    } else {
        (a.type_marker as u32) < (b.type_marker as u32)
    }
}

/// Sequences with equal multisets keep equal multisets under a map.
pub proof fn lemma_multiset_map<A, B>(s1: Seq<A>, s2: Seq<A>, f: spec_fn(A) -> B)
    requires
        s1.to_multiset() == s2.to_multiset(),
    ensures
        s1.map_values(f).to_multiset() == s2.map_values(f).to_multiset(),
    decreases s1.len(),
{
    broadcast use vstd::seq_lib::group_to_multiset_ensures;
    broadcast use vstd::multiset::group_multiset_axioms;

    if s1.len() == 0 {
        assert(s2.len() == s2.to_multiset().len());
        assert(s1.map_values(f) =~= s2.map_values(f));
    } else {
        let x = s1.last();
        assert(s1.contains(x));
        assert(s2.to_multiset().count(x) > 0);
        assert(s2.contains(x));
        let j = choose|j: int| 0 <= j < s2.len() && s2[j] == x;
        let s1p = s1.drop_last();
        let s2p = s2.remove(j);
        assert(s1.remove(s1.len() - 1) =~= s1p);
        assert(s1p.to_multiset() == s1.to_multiset().remove(x));
        assert(s2p.to_multiset() == s2.to_multiset().remove(x));
        lemma_multiset_map(s1p, s2p, f);
        let m1 = s1.map_values(f);
        let m2 = s2.map_values(f);
        assert(m1.remove(m1.len() - 1) =~= s1p.map_values(f));
        assert(m2.remove(j) =~= s2p.map_values(f));
        assert(m1[m1.len() - 1] == f(x));
        assert(m2[j] == f(x));
        assert(m1.remove(m1.len() - 1).to_multiset() == m1.to_multiset().remove(f(x)));
        assert(m2.remove(j).to_multiset() == m2.to_multiset().remove(f(x)));
        assert(m1.to_multiset().remove(f(x)) == m2.to_multiset().remove(f(x)));
        assert(m1.contains(f(x)));
        assert(m2.contains(f(x)));
        assert(m1.to_multiset() =~= m2.to_multiset()) by {
            assert(m1.to_multiset().count(f(x)) > 0);
            assert(m2.to_multiset().count(f(x)) > 0);
            assert forall|e: B| m1.to_multiset().count(e) == m2.to_multiset().count(e) by {
                assert(m1.to_multiset().remove(f(x)).count(e) == m2.to_multiset().remove(
                    f(x),
                ).count(e));
            }
        }
    }
}

/// The views of a run of strings, in order.
pub open spec fn string_views(s: Seq<String>) -> Seq<Seq<char>> {
    s.map_values(|x: String| x@)
}

/// Sorts a record's name list ascending in the code-point order: the result
/// is a permutation of the input and is exactly the lexicographic sort of
/// its views.
pub fn sort_names(names: Vec<String>) -> (out: Vec<String>)
    ensures
        out@.to_multiset() == names@.to_multiset(),
        sorted_by(out.deep_view(), lex_leq_fn()),
        out.deep_view() == names.deep_view().sort_by(lex_leq_fn()),
{
    broadcast use vstd::seq_lib::group_to_multiset_ensures;
    broadcast use vstd::multiset::group_multiset_axioms;

    let ghost orig = names@;
    let mut rem = names;
    let mut out: Vec<String> = Vec::new();
    proof {
        assert(out@.to_multiset().add(rem@.to_multiset()) =~= orig.to_multiset());
    }
    while rem.len() > 0
        invariant
            out@.to_multiset().add(rem@.to_multiset()) == orig.to_multiset(),
            sorted_by(string_views(out@), lex_leq_fn()),
            forall|i: int, j: int|
                0 <= i < out@.len() && 0 <= j < rem@.len() ==> lex_leq(
                    #[trigger] out@[i]@,
                    #[trigger] rem@[j]@,
                ),
        decreases rem@.len(),
    {
        let mut m: usize = 0;
        let mut t: usize = 1;
        proof {
            lemma_lex_leq_reflexive(rem@[0]@);
        }
        while t < rem.len()
            invariant
                rem@.len() >= 1,
                m < t <= rem@.len(),
                forall|j: int| 0 <= j < t ==> lex_leq(rem@[m as int]@, #[trigger] rem@[j]@),
            decreases rem@.len() - t,
        {
            if string_le(&rem[t], &rem[m]) {
                proof {
                    assert forall|j: int| 0 <= j < t + 1 implies lex_leq(
                        rem@[t as int]@,
                        #[trigger] rem@[j]@,
                    ) by {
                        if j < t {
                            lemma_lex_leq_transitive(rem@[t as int]@, rem@[m as int]@, rem@[j]@);
                        } else {
                            lemma_lex_leq_reflexive(rem@[t as int]@);
                        }
                    }
                }
                m = t;
            } else {
                proof {
                    lemma_lex_leq_connected(rem@[t as int]@, rem@[m as int]@);
                }
            }
            t = t + 1;
        }
        let ghost rem_before = rem@;
        let ghost out_before = out@;
        let x = rem.remove(m);
        out.push(x);
        proof {
            broadcast use vstd::seq_lib::group_to_multiset_ensures;
            broadcast use vstd::multiset::group_multiset_axioms;

            assert(rem@ =~= rem_before.remove(m as int));
            assert(rem_before.remove(m as int).to_multiset() == rem_before.to_multiset().remove(
                x,
            ));
            assert(out@ == out_before.push(x));
            assert(out@.to_multiset() == out_before.to_multiset().insert(x));
            assert(out@.to_multiset().add(rem@.to_multiset()) =~= orig.to_multiset()) by {
                assert(rem_before.to_multiset().count(x) > 0) by {
                    assert(rem_before.contains(x));
                }
            }
            assert(string_views(out@) =~= string_views(out_before).push(x@));
            assert(sorted_by(string_views(out@), lex_leq_fn())) by {
                assert forall|i: int, j: int|
                    0 <= i < j < string_views(out@).len() implies lex_leq_fn()(
                    string_views(out@)[i],
                    string_views(out@)[j],
                ) by {
                    if j == out@.len() - 1 {
                        assert(string_views(out@)[i] == out_before[i]@);
                        assert(string_views(out@)[j] == x@);
                        assert(lex_leq(out_before[i]@, rem_before[m as int]@));
                    } else {
                        assert(string_views(out@)[i] == string_views(out_before)[i]);
                        assert(string_views(out@)[j] == string_views(out_before)[j]);
                    }
                }
            }
            assert forall|i: int, j: int|
                0 <= i < out@.len() && 0 <= j < rem@.len() implies lex_leq(
                #[trigger] out@[i]@,
                #[trigger] rem@[j]@,
            ) by {
                let jj = if j < m { j } else { j + 1 };
                assert(rem@[j] == rem_before[jj]);
                if i < out@.len() - 1 {
                    assert(out@[i] == out_before[i]);
                } else {
                    assert(out@[i] == x);
                }
            }
        }
    }
    proof {
        assert(rem@.to_multiset().len() == 0);
        assert(out@.to_multiset() =~= orig.to_multiset());
        lemma_lex_leq_total_ordering();
        lemma_multiset_map(out@, orig, |x: String| x@);
        assert(out.deep_view() =~= string_views(out@));
        assert(names.deep_view() =~= string_views(orig));
        string_views(orig).lemma_sort_by_ensures(lex_leq_fn());
        vstd::seq_lib::lemma_sorted_unique(
            string_views(out@),
            string_views(orig).sort_by(lex_leq_fn()),
            lex_leq_fn(),
        );
    }
    out
}

/// Sorting an already-sorted name list yields the same list: the
/// lexicographic sort is idempotent.
pub proof fn lemma_name_sort_idempotent(names: Seq<Seq<char>>)
    requires
        sorted_by(names, lex_leq_fn()),
    ensures
        names.sort_by(lex_leq_fn()) == names,
{
    lemma_lex_leq_total_ordering();
    names.lemma_sort_by_ensures(lex_leq_fn());
    vstd::seq_lib::lemma_sorted_unique(names.sort_by(lex_leq_fn()), names, lex_leq_fn());
}

/// Sorts the normalized records: the result is a permutation of the input,
/// ordered by type marker and then by name list.
pub fn sort_conversations(records: Vec<NormalizedConversation>) -> (out: Vec<
    NormalizedConversation,
>)
    ensures
        out@.to_multiset() == records@.to_multiset(),
        sorted_by(out@, record_leq_fn()),
{
    broadcast use vstd::seq_lib::group_to_multiset_ensures;
    broadcast use vstd::multiset::group_multiset_axioms;

    let ghost orig = records@;
    let mut rem = records;
    let mut out: Vec<NormalizedConversation> = Vec::new();
    proof {
        assert(out@.to_multiset().add(rem@.to_multiset()) =~= orig.to_multiset());
    }
    while rem.len() > 0
        invariant
            out@.to_multiset().add(rem@.to_multiset()) == orig.to_multiset(),
            sorted_by(out@, record_leq_fn()),
            forall|i: int, j: int|
                0 <= i < out@.len() && 0 <= j < rem@.len() ==> record_leq(
                    #[trigger] out@[i],
                    #[trigger] rem@[j],
                ),
        decreases rem@.len(),
    {
        let mut m: usize = 0;
        let mut t: usize = 1;
        proof {
            lemma_record_leq_connected(rem@[0], rem@[0]);
        }
        while t < rem.len()
            invariant
                rem@.len() >= 1,
                m < t <= rem@.len(),
                forall|j: int| 0 <= j < t ==> record_leq(rem@[m as int], #[trigger] rem@[j]),
            decreases rem@.len() - t,
        {
            if record_le(&rem[t], &rem[m]) {
                proof {
                    assert forall|j: int| 0 <= j < t + 1 implies record_leq(
                        rem@[t as int],
                        #[trigger] rem@[j],
                    ) by {
                        if j < t {
                            lemma_record_leq_transitive(rem@[t as int], rem@[m as int], rem@[j]);
                        } else {
                            lemma_record_leq_connected(rem@[t as int], rem@[t as int]);
                        }
                    }
                }
                m = t;
            } else {
                proof {
                    lemma_record_leq_connected(rem@[t as int], rem@[m as int]);
                }
            }
            t = t + 1;
        }
        let ghost rem_before = rem@;
        let ghost out_before = out@;
        let x = rem.remove(m);
        out.push(x);
        proof {
            broadcast use vstd::seq_lib::group_to_multiset_ensures;
            broadcast use vstd::multiset::group_multiset_axioms;

            assert(rem@ =~= rem_before.remove(m as int));
            assert(rem_before.remove(m as int).to_multiset() == rem_before.to_multiset().remove(
                x,
            ));
            assert(out@ == out_before.push(x));
            assert(out@.to_multiset() == out_before.to_multiset().insert(x));
            assert(out@.to_multiset().add(rem@.to_multiset()) =~= orig.to_multiset()) by {
                assert(rem_before.to_multiset().count(x) > 0) by {
                    assert(rem_before.contains(x));
                }
            }
            assert(sorted_by(out@, record_leq_fn())) by {
                assert forall|i: int, j: int| 0 <= i < j < out@.len() implies record_leq_fn()(
                    out@[i],
                    out@[j],
                ) by {
                    if j == out@.len() - 1 {
                        assert(record_leq(out_before[i], rem_before[m as int]));
                    }
                }
            }
            assert forall|i: int, j: int|
                0 <= i < out@.len() && 0 <= j < rem@.len() implies record_leq(
                #[trigger] out@[i],
                #[trigger] rem@[j],
            ) by {
                let jj = if j < m { j } else { j + 1 };
                assert(rem@[j] == rem_before[jj]);
                if i < out@.len() - 1 {
                    assert(out@[i] == out_before[i]);
                } else {
                    assert(out@[i] == x);
                }
            }
        }
    }
    proof {
        assert(rem@.to_multiset().len() == 0);
        assert(out@.to_multiset() =~= orig.to_multiset());
    }
    out
}

} // verus!
