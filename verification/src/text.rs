use vstd::prelude::*;

verus! {

broadcast use vstd::utf8::encode_utf8_decode_utf8;

/// Byte-wise comparison of a prefix of `a` with the whole of `b`.
pub fn bytes_prefix_eq(a: &[u8], len: usize, b: &[u8]) -> (r: bool)
    ensures
        r == (len <= a@.len() && a@.subrange(0, len as int) == b@),
{
    if len > a.len() || len != b.len() {
        return false;
    }
    let mut i: usize = 0;
    while i < len
        invariant
            len <= a@.len(),
            len == b@.len(),
            i <= len,
            forall|j: int| 0 <= j < i ==> a@[j] == b@[j],
        decreases len - i,
    {
        if a[i] != b[i] {
            return false;
        }
        i = i + 1;
    }
    assert(a@.subrange(0, len as int) =~= b@);
    true
}

/// Equality of two string slices, by their characters.
pub fn str_eq(a: &str, b: &str) -> (r: bool)
    ensures
        r == (a@ == b@),
{
    let ab = a.as_bytes();
    let bb = b.as_bytes();
    let r = bytes_prefix_eq(ab, ab.len(), bb);
    proof {
        assert(ab@.subrange(0, ab@.len() as int) =~= ab@);
        if r {
            assert(vstd::utf8::decode_utf8(vstd::utf8::encode_utf8(a@)) == a@);
            assert(vstd::utf8::decode_utf8(vstd::utf8::encode_utf8(b@)) == b@);
        }
    }
    r
}

/// `sep` occurs in `s` at index `i`.
pub open spec fn occurs_at(s: Seq<char>, sep: Seq<char>, i: int) -> bool {
    0 <= i && i + sep.len() <= s.len() && s.subrange(i, i + sep.len()) == sep
}

/// The first index at or after `from` where `sep` occurs in `s`.
pub open spec fn first_occurrence(s: Seq<char>, sep: Seq<char>, from: int) -> Option<int>
    decreases s.len() - from,
{
    if from < 0 || from + sep.len() > s.len() {
        None
    } else if occurs_at(s, sep, from) {
        Some(from)
    } else if sep.len() == 0 {
        None
    } else {
        first_occurrence(s, sep, from + 1)
    }
}

/// The first piece of `s` split at `sep` (what `s.split(sep).next()` gives).
pub open spec fn split_first(s: Seq<char>, sep: Seq<char>) -> Seq<char> {
    match first_occurrence(s, sep, 0) {
        Some(p) => s.take(p),
        None => s,
    }
}

/// The last piece of `s` split at `sep`, matching `sep` from left to right without overlaps
/// (what `s.split(sep).last()` gives).
pub open spec fn split_last(s: Seq<char>, sep: Seq<char>) -> Seq<char>
    decreases s.len(),
{
    if sep.len() == 0 {
        s
    } else {
        match first_occurrence(s, sep, 0) {
            Some(p) => if 0 <= p && p + sep.len() <= s.len() {
                split_last(s.skip(p + sep.len()), sep)
            } else {
                s
            },
            None => s,
        }
    }
}

/// The characters of a string.
pub fn chars_of(s: &str) -> (r: Vec<char>)
    ensures
        r@ == s@,
{
    let len = s.unicode_len();
    let mut r: Vec<char> = Vec::new();
    let mut i: usize = 0;
    while i < len
        invariant
            len == s@.len(),
            i <= len,
            r@ == s@.take(i as int),
        decreases len - i,
    {
        r.push(s.get_char(i));
        i = i + 1;
        assert(r@ =~= s@.take(i as int));
    }
    assert(s@.take(len as int) =~= s@);
    r
}

/// The first index at or after `from` (relative to `lo`) where `sep` occurs in the window
/// `cs[lo..hi]`.
pub fn find_in_window(cs: &Vec<char>, lo: usize, hi: usize, from: usize, sep: &Vec<char>) -> (r: Option<usize>)
    requires
        lo <= hi <= cs.len(),
        sep.len() > 0,
    ensures
        r matches Some(p) ==> first_occurrence(cs@.subrange(lo as int, hi as int), sep@, from as int) == Some(p as int),
        r is None ==> first_occurrence(cs@.subrange(lo as int, hi as int), sep@, from as int) is None,
    decreases hi - lo - from,
{
    let ghost w = cs@.subrange(lo as int, hi as int);
    if from > hi - lo || sep.len() > hi - lo - from {
        return None;
    }
    let mut k: usize = 0;
    while k < sep.len()
        invariant
            lo <= hi <= cs.len(),
            from + sep.len() <= hi - lo,
            w == cs@.subrange(lo as int, hi as int),
            k <= sep.len(),
            forall|m: int| 0 <= m < k ==> w[from + m] == sep@[m],
        decreases sep.len() - k,
    {
        if cs[lo + from + k] != sep[k] {
            proof {
                assert(w[from + k] != sep@[k as int]);
                assert(w.subrange(from as int, from + sep.len())[k as int] != sep@[k as int]);
            }
            let r = find_in_window(cs, lo, hi, from + 1, sep);
            return r;
        }
        k = k + 1;
    }
    assert(w.subrange(from as int, from + sep.len()) =~= sep@);
    Some(from)
}

/// The end of the first piece of the window `cs[lo..hi]` split at `sep`.
pub fn split_first_window(cs: &Vec<char>, lo: usize, hi: usize, sep: &Vec<char>) -> (r: usize)
    requires
        lo <= hi <= cs.len(),
        sep.len() > 0,
    ensures
        lo <= r <= hi,
        cs@.subrange(lo as int, r as int) == split_first(cs@.subrange(lo as int, hi as int), sep@),
{
    match find_in_window(cs, lo, hi, 0, sep) {
        Some(p) => {
            proof {
                lemma_first_occurrence_bound(cs@.subrange(lo as int, hi as int), sep@, 0);
                assert(cs@.subrange(lo as int, (lo + p) as int) =~= cs@.subrange(lo as int, hi as int).take(p as int));
            }
            lo + p
        },
        None => hi,
    }
}

pub proof fn lemma_first_occurrence_bound(s: Seq<char>, sep: Seq<char>, from: int)
    ensures
        first_occurrence(s, sep, from) matches Some(p) ==> from <= p && occurs_at(s, sep, p),
    decreases s.len() - from,
{
    if !(from < 0 || from + sep.len() > s.len()) && !occurs_at(s, sep, from) && sep.len() != 0 {
        lemma_first_occurrence_bound(s, sep, from + 1);
    }
}

/// The start of the last piece of the window `cs[lo..hi]` split at `sep`.
pub fn split_last_window(cs: &Vec<char>, lo: usize, hi: usize, sep: &Vec<char>) -> (r: usize)
    requires
        lo <= hi <= cs.len(),
        sep.len() > 0,
    ensures
        lo <= r <= hi,
        cs@.subrange(r as int, hi as int) == split_last(cs@.subrange(lo as int, hi as int), sep@),
{
    let mut start = lo;
    loop
        invariant
            lo <= start <= hi <= cs.len(),
            sep.len() > 0,
            split_last(cs@.subrange(start as int, hi as int), sep@) == split_last(
                cs@.subrange(lo as int, hi as int),
                sep@,
            ),
        decreases hi - start,
    {
        let ghost w = cs@.subrange(start as int, hi as int);
        match find_in_window(cs, start, hi, 0, sep) {
            Some(p) => {
                proof {
                    lemma_first_occurrence_bound(w, sep@, 0);
                    assert(w.skip(p + sep.len()) =~= cs@.subrange(start + p + sep.len(), hi as int));
                }
                start = start + p + sep.len();
            },
            None => {
                return start;
            },
        }
    }
}

/// `sep` does not occur at or after `from` when its first character does not.
pub proof fn lemma_no_occurrence(s: Seq<char>, sep: Seq<char>, from: int)
    requires
        sep.len() > 0,
        !s.contains(sep[0]),
    ensures
        first_occurrence(s, sep, from) is None,
    decreases s.len() - from,
{
    if !(from < 0 || from + sep.len() > s.len()) {
        assert(s.subrange(from, from + sep.len())[0] == s[from]);
        lemma_no_occurrence(s, sep, from + 1);
    }
}

/// When `sep` does not occur, the first piece of `s` split at it is the whole of `s`, and so is
/// the last piece.
pub proof fn lemma_split_without_separator(s: Seq<char>, sep: Seq<char>)
    requires
        sep.len() > 0,
        !s.contains(sep[0]),
    ensures
        split_first(s, sep) == s,
        split_last(s, sep) == s,
{
    lemma_no_occurrence(s, sep, 0);
}

/// The first occurrence of `sep` at or after `from` is at `p` when it occurs there and nowhere
/// in between.
pub proof fn lemma_first_occurrence_at(s: Seq<char>, sep: Seq<char>, from: int, p: int)
    requires
        sep.len() > 0,
        0 <= from <= p,
        occurs_at(s, sep, p),
        forall|i: int| from <= i < p ==> !occurs_at(s, sep, i),
    ensures
        first_occurrence(s, sep, from) == Some(p),
    decreases p - from,
{
    if from < p {
        lemma_first_occurrence_at(s, sep, from + 1, p);
    }
}

/// The first occurrence at or after `from` comes no later than any occurrence at or after
/// `from`.
pub proof fn lemma_first_occurrence_min(s: Seq<char>, sep: Seq<char>, from: int, q: int)
    requires
        sep.len() > 0,
        0 <= from <= q,
        occurs_at(s, sep, q),
    ensures
        first_occurrence(s, sep, from) matches Some(p) && from <= p <= q && occurs_at(s, sep, p),
    decreases q - from,
{
    if !occurs_at(s, sep, from) {
        lemma_first_occurrence_min(s, sep, from + 1, q);
    }
}

/// Before the first occurrence at or after `from`, the separator does not occur.
pub proof fn lemma_first_occurrence_none_before(s: Seq<char>, sep: Seq<char>, from: int)
    requires
        sep.len() > 0,
        0 <= from,
    ensures
        first_occurrence(s, sep, from) matches Some(p) ==> forall|i: int| from <= i < p ==> !#[trigger] occurs_at(s, sep, i),
        first_occurrence(s, sep, from) is None ==> forall|i: int| from <= i ==> !#[trigger] occurs_at(s, sep, i),
    decreases s.len() - from,
{
    if !(from + sep.len() > s.len()) && !occurs_at(s, sep, from) {
        lemma_first_occurrence_none_before(s, sep, from + 1);
    }
}

/// The first piece of a split contains no separator, so splitting it again gives it back.
pub proof fn lemma_split_first_idempotent(s: Seq<char>, sep: Seq<char>)
    requires
        sep.len() > 0,
    ensures
        split_first(split_first(s, sep), sep) == split_first(s, sep),
{
    lemma_first_occurrence_none_before(s, sep, 0);
    if let Some(p) = first_occurrence(s, sep, 0) {
        lemma_first_occurrence_bound(s, sep, 0);
        let t = s.take(p);
        assert forall|i: int| 0 <= i implies !#[trigger] occurs_at(t, sep, i) by {
            if occurs_at(t, sep, i) {
                assert(t.subrange(i, i + sep.len()) =~= s.subrange(i, i + sep.len()));
                assert(occurs_at(s, sep, i));
            }
        }
        lemma_first_occurrence_none_before(t, sep, 0);
        if first_occurrence(t, sep, 0) is Some {
            lemma_first_occurrence_bound(t, sep, 0);
        }
    }
}

/// The last piece of `m + "::" + p` split at `::` is `p`, when `p` has no colon and `m` does
/// not end with one.
pub proof fn lemma_split_last_after_module_path(m: Seq<char>, p: Seq<char>)
    requires
        !p.contains(':'),
        m.len() == 0 || m.last() != ':',
    ensures
        split_last(m + seq![':', ':'] + p, seq![':', ':']) == p,
    decreases m.len(),
{
    let sep = seq![':', ':'];
    let s = m + sep + p;
    assert(s.subrange(m.len() as int, m.len() as int + 2) =~= sep);
    lemma_first_occurrence_min(s, sep, 0, m.len() as int);
    let q = first_occurrence(s, sep, 0)->0;
    if q == m.len() {
        assert(s.skip(q + 2) =~= p);
        lemma_split_without_separator(p, sep);
    } else {
        assert(s.subrange(q, q + 2)[0] == s[q]);
        assert(s.subrange(q, q + 2)[1] == s[q + 1]);
        if q + 1 == m.len() {
            assert(m.last() == s[q]);
        }
        assert(q + 2 <= m.len());
        let m2 = m.skip(q + 2);
        assert(s.skip(q + 2) =~= m2 + sep + p);
        if m2.len() > 0 {
            assert(m2.last() == m.last());
        }
        lemma_split_last_after_module_path(m2, p);
    }
}

} // verus!
