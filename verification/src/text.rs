//! Verified string primitives: lexicographic code-point order, substring
//! search, last-occurrence search, and splitting on a separator. Contracts
//! are stated over `Seq<char>` views.

use vstd::prelude::*;
use vstd::string::StringExecFns;

verus! {

/// Lexicographic code-point order on character sequences: `a` is less than
/// or equal to `b`.
pub open spec fn lex_leq(a: Seq<char>, b: Seq<char>) -> bool
    decreases a.len(),
{
    if a.len() == 0 {
        true
    } else if b.len() == 0 {
        false
    } else if (a.first() as u32) < (b.first() as u32) {
        true
    } else if (a.first() as u32) > (b.first() as u32) {
        false
    } else {
        lex_leq(a.drop_first(), b.drop_first())
    }
}

/// The order as a binary relation value, for use with vstd's sorting
/// vocabulary.
pub open spec fn lex_leq_fn() -> spec_fn(Seq<char>, Seq<char>) -> bool {
    |a: Seq<char>, b: Seq<char>| lex_leq(a, b)
}

pub proof fn lemma_lex_leq_reflexive(a: Seq<char>)
    ensures
        lex_leq(a, a),
    decreases a.len(),
{
    if a.len() > 0 {
        lemma_lex_leq_reflexive(a.drop_first());
    }
}

pub proof fn lemma_lex_leq_antisymmetric(a: Seq<char>, b: Seq<char>)
    requires
        lex_leq(a, b),
        lex_leq(b, a),
    ensures
        a == b,
    decreases a.len(),
{
    if a.len() == 0 {
        assert(b.len() == 0);
        assert(a =~= b);
    } else {
        assert(b.len() > 0);
        assert((a.first() as u32) == (b.first() as u32));
        vstd::utf8::char_u32_cast(a.first(), a.first() as u32);
        vstd::utf8::char_u32_cast(b.first(), b.first() as u32);
        assert(a.first() == b.first());
        lemma_lex_leq_antisymmetric(a.drop_first(), b.drop_first());
        assert(a =~= b) by {
            assert(forall|i: int|
                1 <= i < a.len() ==> a[i] == a.drop_first()[i - 1] && b[i] == b.drop_first()[i
                    - 1]);
        }
    }
}

pub proof fn lemma_lex_leq_transitive(a: Seq<char>, b: Seq<char>, c: Seq<char>)
    requires
        lex_leq(a, b),
        lex_leq(b, c),
    ensures
        lex_leq(a, c),
    decreases a.len(),
{
    if a.len() > 0 {
        if b.len() > 0 && c.len() > 0 && (a.first() as u32) == (b.first() as u32) && (b.first()
            as u32) == (c.first() as u32) {
            lemma_lex_leq_transitive(a.drop_first(), b.drop_first(), c.drop_first());
        }
    }
}

pub proof fn lemma_lex_leq_connected(a: Seq<char>, b: Seq<char>)
    ensures
        lex_leq(a, b) || lex_leq(b, a),
    decreases a.len(),
{
    if a.len() > 0 && b.len() > 0 && (a.first() as u32) == (b.first() as u32) {
        lemma_lex_leq_connected(a.drop_first(), b.drop_first());
    }
}

/// The lexicographic order on character sequences is a total order.
pub proof fn lemma_lex_leq_total_ordering()
    ensures
        vstd::relations::total_ordering(lex_leq_fn()),
{
    let leq = lex_leq_fn();
    assert forall|a: Seq<char>| #[trigger] leq(a, a) by {
        lemma_lex_leq_reflexive(a);
    }
    assert forall|a: Seq<char>, b: Seq<char>| #[trigger] leq(a, b) && #[trigger] leq(b, a)
        implies a == b by {
        lemma_lex_leq_antisymmetric(a, b);
    }
    assert forall|a: Seq<char>, b: Seq<char>, c: Seq<char>|
        #[trigger] leq(a, b) && #[trigger] leq(b, c) implies leq(a, c) by {
        lemma_lex_leq_transitive(a, b, c);
    }
    assert forall|a: Seq<char>, b: Seq<char>| #[trigger] leq(a, b) || #[trigger] leq(b, a) by {
        lemma_lex_leq_connected(a, b);
    }
}

/// `needle` occurs in `hay` starting at position `i`.
pub open spec fn matches_at(hay: Seq<char>, needle: Seq<char>, i: int) -> bool {
    0 <= i && i + needle.len() <= hay.len() && hay.subrange(i, i + needle.len()) == needle
}

/// `needle` occurs somewhere in `hay`.
pub open spec fn is_substring(needle: Seq<char>, hay: Seq<char>) -> bool {
    exists|i: int| matches_at(hay, needle, i)
}

/// Whether `needle` occurs in `hay` starting at `i`, by character comparison.
pub fn match_at(hay: &str, needle: &str, i: usize) -> (r: bool)
    requires
        i + needle@.len() <= hay@.len(),
    ensures
        r == matches_at(hay@, needle@, i as int),
{
    let h = hay.unicode_len();
    let n = needle.unicode_len();
    let mut j: usize = 0;
    while j < n
        invariant
            j <= n,
            h == hay@.len(),
            n == needle@.len(),
            i + n <= h,
            forall|k: int| 0 <= k < j ==> hay@[i + k] == needle@[k],
        decreases n - j,
    {
        if hay.get_char(i + j) != needle.get_char(j) {
            assert(!matches_at(hay@, needle@, i as int)) by {
                if hay@.subrange(i as int, i + needle@.len()) == needle@ {
                    assert(hay@.subrange(i as int, i + needle@.len())[j as int] == hay@[i + j]);
                }
            }
            return false;
        }
        j = j + 1;
    }
    assert(hay@.subrange(i as int, i + needle@.len()) =~= needle@);
    true
}

/// Substring containment, as the filter uses it: case-sensitive, by code
/// points, with no normalization.
pub fn str_contains(hay: &str, needle: &str) -> (r: bool)
    ensures
        r == is_substring(needle@, hay@),
{
    let h = hay.unicode_len();
    let n = needle.unicode_len();
    if n > h {
        assert(!is_substring(needle@, hay@));
        return false;
    }
    if n == 0 {
        assert(matches_at(hay@, needle@, 0)) by {
            assert(hay@.subrange(0, 0) =~= needle@);
        }
        return true;
    }
    let mut i: usize = 0;
    while i <= h - n
        invariant
            1 <= n <= h,
            h == hay@.len(),
            n == needle@.len(),
            i <= h - n + 1,
            forall|j: int| 0 <= j < i ==> !matches_at(hay@, needle@, j),
        decreases h - n - i + 1,
    {
        if match_at(hay, needle, i) {
            return true;
        }
        i = i + 1;
    }
    assert forall|j: int| !matches_at(hay@, needle@, j) by {
        if j >= i {
            assert(j + needle@.len() > hay@.len());
        }
    }
    false
}

/// Lexicographic comparison of two strings: `a` is less than or equal to
/// `b` in code-point order.
pub fn str_lex_leq(a: &str, b: &str) -> (r: bool)
    ensures
        r == lex_leq(a@, b@),
{
    let alen = a.unicode_len();
    let blen = b.unicode_len();
    let mut i: usize = 0;
    proof {
        assert(a@.skip(0) =~= a@);
        assert(b@.skip(0) =~= b@);
    }
    loop
        invariant
            alen == a@.len(),
            blen == b@.len(),
            i <= alen,
            i <= blen,
            lex_leq(a@, b@) == lex_leq(a@.skip(i as int), b@.skip(i as int)),
        decreases alen - i,
    {
        if i == alen {
            return true;
        }
        if i == blen {
            return false;
        }
        let ca = a.get_char(i);
        let cb = b.get_char(i);
        assert(a@.skip(i as int).first() == ca && b@.skip(i as int).first() == cb);
        if (ca as u32) < (cb as u32) {
            return true;
        }
        if (ca as u32) > (cb as u32) {
            return false;
        }
        assert(a@.skip(i as int).drop_first() =~= a@.skip(i + 1));
        assert(b@.skip(i as int).drop_first() =~= b@.skip(i + 1));
        i = i + 1;
    }
}

/// The last position at which `c` occurs in `s`.
pub open spec fn last_index_of(s: Seq<char>, c: char) -> Option<int>
    decreases s.len(),
{
    if s.len() == 0 {
        Option::None
    } else if s.last() == c {
        Option::Some(s.len() - 1)
    } else {
        last_index_of(s.drop_last(), c)
    }
}

pub proof fn lemma_last_index_of_properties(s: Seq<char>, c: char)
    ensures
        match last_index_of(s, c) {
            Option::Some(i) => 0 <= i < s.len() && s[i] == c && (forall|j: int|
                i < j < s.len() ==> s[j] != c),
            Option::None => forall|j: int| 0 <= j < s.len() ==> s[j] != c,
        },
    decreases s.len(),
{
    if s.len() > 0 && s.last() != c {
        lemma_last_index_of_properties(s.drop_last(), c);
        assert(forall|j: int| 0 <= j < s.len() - 1 ==> s[j] == s.drop_last()[j]);
    }
}

/// A position holding `c`, with none after it, is the last occurrence.
pub proof fn lemma_last_index_of_is_some(s: Seq<char>, c: char, i: int)
    requires
        0 <= i < s.len(),
        s[i] == c,
        forall|j: int| i < j < s.len() ==> s[j] != c,
    ensures
        last_index_of(s, c) == Option::Some(i),
    decreases s.len(),
{
    if i < s.len() - 1 {
        assert(s.last() != c);
        assert(forall|j: int| 0 <= j < s.len() - 1 ==> s.drop_last()[j] == s[j]);
        lemma_last_index_of_is_some(s.drop_last(), c, i);
    }
}

/// Finds the last occurrence of `c` in `s`.
pub fn find_last(s: &str, c: char) -> (r: Option<usize>)
    ensures
        match r {
            Option::Some(i) => last_index_of(s@, c) == Option::Some(i as int),
            Option::None => last_index_of(s@, c) is None,
        },
{
    let len = s.unicode_len();
    let mut i: usize = len;
    proof {
        assert(s@.take(len as int) =~= s@);
    }
    while i > 0
        invariant
            i <= len,
            len == s@.len(),
            last_index_of(s@, c) == last_index_of(s@.take(i as int), c),
        decreases i,
    {
        let ch = s.get_char(i - 1);
        assert(s@.take(i as int).last() == s@[i - 1]);
        if ch == c {
            assert(last_index_of(s@.take(i as int), c) == Option::Some(i - 1 as int));
            return Some(i - 1);
        }
        assert(s@.take(i as int).drop_last() =~= s@.take(i - 1 as int));
        i = i - 1;
    }
    assert(s@.take(0) =~= Seq::<char>::empty());
    None
}

/// The parts joined into one sequence, with the separator between each two
/// neighbours.
pub open spec fn join_with(parts: Seq<Seq<char>>, sep: Seq<char>) -> Seq<char>
    decreases parts.len(),
{
    if parts.len() == 0 {
        Seq::empty()
    } else if parts.len() == 1 {
        parts.first()
    } else {
        parts.first() + sep + join_with(parts.drop_first(), sep)
    }
}

/// Joining one more part appends one separator and the part.
pub proof fn lemma_join_with_push(parts: Seq<Seq<char>>, sep: Seq<char>, part: Seq<char>)
    requires
        parts.len() >= 1,
    ensures
        join_with(parts.push(part), sep) == join_with(parts, sep) + sep + part,
    decreases parts.len(),
{
    let grown = parts.push(part);
    assert(grown.first() == parts.first());
    if parts.len() == 1 {
        assert(grown.drop_first() =~= seq![part]);
        assert(join_with(seq![part], sep) == part);
        assert(join_with(grown, sep) =~= join_with(parts, sep) + sep + part);
    } else {
        assert(grown.drop_first() =~= parts.drop_first().push(part));
        lemma_join_with_push(parts.drop_first(), sep, part);
        let tail = join_with(parts.drop_first(), sep);
        assert(join_with(grown, sep) == grown.first() + sep + (tail + sep + part));
        assert(join_with(parts, sep) == parts.first() + sep + tail);
        assert(grown.first() + sep + (tail + sep + part) =~= (parts.first() + sep + tail) + sep
            + part);
    }
}

/// Joins the strings with the separator between each two neighbours, as the
/// listing request joins the enabled conversation types.
pub fn join_strings(parts: &Vec<String>, sep: &str) -> (out: String)
    ensures
        out@ == join_with(parts.deep_view(), sep@),
{
    let n = parts.len();
    if n == 0 {
        proof {
            assert(parts.deep_view().len() == 0);
        }
        return String::new();
    }
    let mut out = parts[0].clone();
    let mut i: usize = 1;
    proof {
        assert(parts.deep_view().take(1) =~= seq![parts@[0]@]);
    }
    loop
        invariant
            1 <= i <= n,
            n == parts@.len(),
            parts.deep_view().len() == n,
            out@ == join_with(parts.deep_view().take(i as int), sep@),
        decreases n - i,
    {
        if i == n {
            proof {
                assert(parts.deep_view().take(i as int) =~= parts.deep_view());
            }
            return out;
        }
        let ghost prefix = parts.deep_view().take(i as int);
        out.append(sep);
        out.append(parts[i].as_str());
        proof {
            assert(parts.deep_view().take(i + 1) =~= prefix.push(parts@[i as int]@));
            lemma_join_with_push(prefix, sep@, parts@[i as int]@);
        }
        i = i + 1;
    }
}

/// The position of the first (leftmost) occurrence of `sep` in `s`; `None`
/// when `sep` does not occur or is empty.
pub open spec fn first_match(s: Seq<char>, sep: Seq<char>) -> Option<int>
    decreases s.len(),
{
    if sep.len() == 0 || s.len() < sep.len() {
        Option::None
    } else if s.take(sep.len() as int) == sep {
        Option::Some(0)
    } else {
        match first_match(s.drop_first(), sep) {
            Option::Some(i) => Option::Some(i + 1),
            Option::None => Option::None,
        }
    }
}

/// A position that matches, with none earlier, is the first match.
pub proof fn lemma_first_match_is_some(s: Seq<char>, sep: Seq<char>, i: int)
    requires
        sep.len() >= 1,
        matches_at(s, sep, i),
        forall|j: int| 0 <= j < i ==> !matches_at(s, sep, j),
    ensures
        first_match(s, sep) == Option::Some(i),
    decreases s.len(),
{
    assert(s.len() >= sep.len());
    if i == 0 {
        assert(s.take(sep.len() as int) =~= s.subrange(0, sep.len() as int));
    } else {
        assert(!matches_at(s, sep, 0));
        assert(s.take(sep.len() as int) != sep) by {
            assert(s.take(sep.len() as int) =~= s.subrange(0, sep.len() as int));
        }
        let t = s.drop_first();
        assert(matches_at(t, sep, i - 1)) by {
            assert(t.subrange(i - 1, i - 1 + sep.len()) =~= s.subrange(i, i + sep.len()));
        }
        assert forall|j: int| 0 <= j < i - 1 implies !matches_at(t, sep, j) by {
            assert(!matches_at(s, sep, j + 1));
            if j + sep.len() <= t.len() {
                assert(t.subrange(j, j + sep.len()) =~= s.subrange(j + 1, j + 1 + sep.len()));
            }
        }
        lemma_first_match_is_some(t, sep, i - 1);
    }
}

/// Where no position matches, there is no first match.
pub proof fn lemma_first_match_is_none(s: Seq<char>, sep: Seq<char>)
    requires
        sep.len() >= 1,
        forall|j: int| !matches_at(s, sep, j),
    ensures
        first_match(s, sep) is None,
    decreases s.len(),
{
    if s.len() >= sep.len() {
        assert(!matches_at(s, sep, 0));
        assert(s.take(sep.len() as int) != sep) by {
            assert(s.take(sep.len() as int) =~= s.subrange(0, sep.len() as int));
        }
        let t = s.drop_first();
        assert forall|j: int| !matches_at(t, sep, j) by {
            assert(!matches_at(s, sep, j + 1));
            if 0 <= j && j + sep.len() <= t.len() {
                assert(t.subrange(j, j + sep.len()) =~= s.subrange(j + 1, j + 1 + sep.len()));
            }
        }
        lemma_first_match_is_none(t, sep);
    }
}

/// The parts of `s` between the occurrences of `sep`, scanning leftmost
/// first, as `str::split` yields them: adjacent separators give empty parts,
/// and a sequence without the separator is a single part.
pub open spec fn split_on(s: Seq<char>, sep: Seq<char>) -> Seq<Seq<char>>
    decreases s.len(),
{
    if sep.len() == 0 {
        seq![s]
    } else {
        match first_match(s, sep) {
            Option::Some(i) => {
                if 0 <= i && i + sep.len() <= s.len() {
                    seq![s.take(i)] + split_on(s.skip(i + sep.len()), sep)
                } else {
                    seq![s]
                }
            },
            Option::None => seq![s],
        }
    }
}

/// A split yields at least one part.
pub proof fn lemma_split_on_nonempty(s: Seq<char>, sep: Seq<char>)
    ensures
        split_on(s, sep).len() >= 1,
    decreases s.len(),
{
    if sep.len() >= 1 {
        match first_match(s, sep) {
            Option::Some(i) => {
                if 0 <= i && i + sep.len() <= s.len() {
                    lemma_split_on_nonempty(s.skip(i + sep.len()), sep);
                }
            },
            Option::None => {},
        }
    }
}

/// Finds the first occurrence of `sep` at or after `start`.
fn find_match_from(s: &str, sep: &str, start: usize) -> (r: Option<usize>)
    requires
        sep@.len() >= 1,
        start <= s@.len(),
    ensures
        match r {
            Option::Some(m) => start <= m && m + sep@.len() <= s@.len() && matches_at(
                s@,
                sep@,
                m as int,
            ) && (forall|j: int| start <= j < m ==> !matches_at(s@, sep@, j)),
            Option::None => forall|j: int| j >= start ==> !matches_at(s@, sep@, j),
        },
{
    let slen = s.unicode_len();
    let seplen = sep.unicode_len();
    if seplen > slen || start > slen - seplen {
        assert forall|j: int| j >= start implies !matches_at(s@, sep@, j) by {
            assert(j + sep@.len() > s@.len());
        }
        return None;
    }
    let mut m: usize = start;
    while m <= slen - seplen
        invariant
            slen == s@.len(),
            seplen == sep@.len(),
            1 <= seplen <= slen,
            start <= m <= slen - seplen + 1,
            forall|j: int| start <= j < m ==> !matches_at(s@, sep@, j),
        decreases slen - seplen - m + 1,
    {
        if match_at(s, sep, m) {
            return Some(m);
        }
        m = m + 1;
    }
    assert forall|j: int| j >= start implies !matches_at(s@, sep@, j) by {
        if j >= m {
            assert(j + sep@.len() > s@.len());
        }
    }
    None
}

/// Occurrences in a suffix are occurrences in the whole, shifted.
proof fn lemma_matches_at_shift(s: Seq<char>, sep: Seq<char>, start: int, k: int)
    requires
        0 <= start <= s.len(),
        0 <= k,
    ensures
        matches_at(s.skip(start), sep, k) == matches_at(s, sep, start + k),
{
    if k + sep.len() <= s.skip(start).len() {
        assert(s.skip(start).subrange(k, k + sep.len()) =~= s.subrange(
            start + k,
            start + k + sep.len(),
        ));
    }
}

/// Splits `s` on the separator `sep`, leftmost occurrence first, keeping
/// empty parts, as `str::split` does.
pub fn split_on_str(s: &str, sep: &str) -> (parts: Vec<String>)
    requires
        sep@.len() >= 1,
    ensures
        parts.deep_view() == split_on(s@, sep@),
{
    let slen = s.unicode_len();
    let mut parts: Vec<String> = Vec::new();
    let mut start: usize = 0;
    proof {
        assert(s@.skip(0) =~= s@);
        assert(parts.deep_view() + split_on(s@, sep@) =~= split_on(s@, sep@));
    }
    loop
        invariant
            slen == s@.len(),
            sep@.len() >= 1,
            start <= slen,
            parts.deep_view() + split_on(s@.skip(start as int), sep@) == split_on(s@, sep@),
        decreases slen - start,
    {
        let ghost rem = s@.skip(start as int);
        let found = find_match_from(s, sep, start);
        match found {
            Some(m) => {
                proof {
                    assert(matches_at(rem, sep@, m - start)) by {
                        lemma_matches_at_shift(s@, sep@, start as int, m - start);
                    }
                    assert forall|j: int| 0 <= j < m - start implies !matches_at(rem, sep@, j) by {
                        lemma_matches_at_shift(s@, sep@, start as int, j);
                    }
                    lemma_first_match_is_some(rem, sep@, m - start);
                    assert(rem.take(m - start) =~= s@.subrange(start as int, m as int));
                    assert(rem.skip(m - start + sep@.len()) =~= s@.skip(m + sep@.len()));
                }
                let piece = s.substring_char(start, m);
                let owned = String::from_str(piece);
                let ghost old_parts = parts.deep_view();
                parts.push(owned);
                proof {
                    assert(parts.deep_view() =~= old_parts.push(rem.take(m - start)));
                    assert(parts.deep_view() + split_on(s@.skip(m + sep@.len() as int), sep@)
                        =~= split_on(s@, sep@));
                }
                start = m + sep.unicode_len();
            },
            None => {
                proof {
                    assert forall|j: int| !matches_at(rem, sep@, j) by {
                        if j >= 0 {
                            lemma_matches_at_shift(s@, sep@, start as int, j);
                        }
                    }
                    lemma_first_match_is_none(rem, sep@);
                    assert(split_on(rem, sep@) == seq![rem]);
                }
                let piece = s.substring_char(start, slen);
                let owned = String::from_str(piece);
                let ghost old_parts = parts.deep_view();
                parts.push(owned);
                proof {
                    assert(owned@ =~= rem);
                    assert(parts.deep_view() =~= old_parts.push(rem));
                    assert(parts.deep_view() =~= split_on(s@, sep@));
                }
                return parts;
            },
        }
    }
}

} // verus!
