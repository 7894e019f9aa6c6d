//! Character-sequence helpers: conversions between `str`/`String` and
//! `Vec<char>`, substring search, replacement, splitting and joining.

use vstd::prelude::*;

verus! {

broadcast use vstd::string::group_string_axioms;

/// The characters of `s`, in order.
pub fn chars_of(s: &str) -> (v: Vec<char>)
    ensures
        v@ == s@,
{
    let mut v: Vec<char> = Vec::new();
    for c in it: s.chars()
        invariant
            it.seq() == s@,
            v@ == it.seq().take(it.index() as int),
    {
        v.push(c);
    }
    v
}

/// A `String` holding exactly the characters of `v`.
///
/// Trusted: calls std's `FromIterator<char>` for `String`, whose
/// documentation says the string is the characters in iteration order.
#[verifier::external_body]
pub fn string_of(v: &Vec<char>) -> (s: String)
    ensures
        s@ == v@,
{
    v.iter().collect()
}

/// A copy of `v`.
pub fn copy_chars(v: &Vec<char>) -> (w: Vec<char>)
    ensures
        w@ == v@,
{
    let mut w: Vec<char> = Vec::new();
    let mut i: usize = 0;
    while i < v.len()
        invariant
            i <= v.len(),
            w@ == v@.take(i as int),
        decreases v.len() - i,
    {
        w.push(v[i]);
        i = i + 1;
        assert(w@ == v@.take(i as int));
    }
    assert(v@.take(v.len() as int) == v@);
    w
}

/// Appends the characters of `tail` to `v`.
pub fn push_all(v: &mut Vec<char>, tail: &Vec<char>)
    ensures
        final(v)@ == old(v)@ + tail@,
{
    let mut i: usize = 0;
    while i < tail.len()
        invariant
            i <= tail.len(),
            v@ == old(v)@ + tail@.take(i as int),
        decreases tail.len() - i,
    {
        v.push(tail[i]);
        i = i + 1;
        assert(v@ == old(v)@ + tail@.take(i as int));
    }
    assert(tail@.take(tail.len() as int) == tail@);
}

/// Whether `a` and `b` hold the same characters.
pub fn same_chars(a: &Vec<char>, b: &Vec<char>) -> (r: bool)
    ensures
        r == (a@ == b@),
{
    if a.len() != b.len() {
        return false;
    }
    let mut i: usize = 0;
    while i < a.len()
        invariant
            a.len() == b.len(),
            i <= a.len(),
            forall|j: int| 0 <= j < i ==> a@[j] == b@[j],
        decreases a.len() - i,
    {
        if a[i] != b[i] {
            return false;
        }
        i = i + 1;
    }
    assert(a@ =~= b@);
    true
}

/// `p` occurs in `s` starting at index `i`.
pub open spec fn occurs_at(s: Seq<char>, p: Seq<char>, i: int) -> bool {
    0 <= i && i + p.len() <= s.len() && s.subrange(i, i + p.len()) == p
}

/// `p` is a substring of `s` (the empty pattern is a substring of anything).
pub open spec fn contains_seq(s: Seq<char>, p: Seq<char>) -> bool {
    exists|i: int| occurs_at(s, p, i)
}

/// Whether `p` occurs in `s` at index `i`.
pub fn matches_at(s: &Vec<char>, p: &Vec<char>, i: usize) -> (r: bool)
    ensures
        r == occurs_at(s@, p@, i as int),
{
    if i > s.len() || p.len() > s.len() - i {
        return false;
    }
    let mut j: usize = 0;
    while j < p.len()
        invariant
            i + p.len() <= s.len(),
            j <= p.len(),
            forall|k: int| 0 <= k < j ==> s@[i + k] == p@[k],
        decreases p.len() - j,
    {
        if s[i + j] != p[j] {
            assert(s@.subrange(i as int, i + p.len())[j as int] != p@[j as int]);
            return false;
        }
        j = j + 1;
    }
    assert(s@.subrange(i as int, i + p.len()) =~= p@);
    true
}

/// Whether `p` is a substring of `s`.
pub fn contains(s: &Vec<char>, p: &Vec<char>) -> (r: bool)
    ensures
        r == contains_seq(s@, p@),
{
    if p.len() == 0 {
        assert(s@.subrange(0, 0) =~= p@);
        assert(occurs_at(s@, p@, 0));
        return true;
    }
    if p.len() > s.len() {
        assert forall|i: int| !occurs_at(s@, p@, i) by {}
        return false;
    }
    let last = s.len() - p.len();
    let mut i: usize = 0;
    while i <= last
        invariant
            last == s.len() - p.len(),
            p.len() > 0,
            i <= last + 1,
            forall|k: int| 0 <= k < i ==> !occurs_at(s@, p@, k),
        decreases last + 1 - i,
    {
        if matches_at(s, p, i) {
            return true;
        }
        i = i + 1;
    }
    assert forall|k: int| !occurs_at(s@, p@, k) by {
        if 0 <= k < i {
        }
    }
    false
}

/// Every non-overlapping occurrence of the non-empty pattern `p` in `s`,
/// scanning from the left, replaced by `r` (the semantics of `str::replace`).
pub open spec fn replace_all(s: Seq<char>, p: Seq<char>, r: Seq<char>) -> Seq<char>
    decreases s.len(),
{
    if s.len() == 0 {
        seq![]
    } else if p.len() > 0 && occurs_at(s, p, 0) {
        r + replace_all(s.skip(p.len() as int), p, r)
    } else {
        seq![s[0]] + replace_all(s.skip(1), p, r)
    }
}

/// `s` with every occurrence of `p` replaced by `r`, left to right.
pub fn replace(s: &Vec<char>, p: &Vec<char>, r: &Vec<char>) -> (out: Vec<char>)
    requires
        p@.len() > 0,
    ensures
        out@ == replace_all(s@, p@, r@),
{
    let mut out: Vec<char> = Vec::new();
    let mut i: usize = 0;
    assert(s@.skip(0) == s@);
    while i < s.len()
        invariant
            p@.len() > 0,
            i <= s.len(),
            out@ + replace_all(s@.skip(i as int), p@, r@) == replace_all(s@, p@, r@),
        decreases s.len() - i,
    {
        let ghost rest = s@.skip(i as int);
        if matches_at(s, p, i) {
            assert(rest.subrange(0, p@.len() as int) == s@.subrange(i as int, i + p@.len()));
            assert(occurs_at(rest, p@, 0));
            assert(rest.skip(p@.len() as int) == s@.skip(i + p@.len()));
            push_all(&mut out, r);
            i = i + p.len();
        } else {
            assert(!occurs_at(rest, p@, 0)) by {
                if occurs_at(rest, p@, 0) {
                    assert(rest.subrange(0, p@.len() as int) == s@.subrange(
                        i as int,
                        i + p@.len(),
                    ));
                }
            }
            assert(rest.skip(1) == s@.skip(i + 1));
            assert(rest[0] == s@[i as int]);
            out.push(s[i]);
            i = i + 1;
        }
    }
    assert(s@.skip(i as int).len() == 0);
    out
}

/// The pieces of `s` between occurrences of `c` (the semantics of
/// `str::split` with a `char` pattern): always at least one piece.
pub open spec fn split_on(s: Seq<char>, c: char) -> Seq<Seq<char>>
    decreases s.len(),
{
    if s.len() == 0 {
        seq![seq![]]
    } else {
        let init = split_on(s.drop_last(), c);
        if s.last() == c {
            init.push(seq![])
        } else {
            init.update(init.len() - 1, init.last().push(s.last()))
        }
    }
}

/// `split_on` always yields at least one piece.
pub proof fn lemma_split_on_nonempty(s: Seq<char>, c: char)
    ensures
        split_on(s, c).len() >= 1,
    decreases s.len(),
{
    if s.len() > 0 {
        lemma_split_on_nonempty(s.drop_last(), c);
    }
}

/// The pieces joined back together, with `c` between consecutive pieces.
pub open spec fn join_with(parts: Seq<Seq<char>>, c: char) -> Seq<char>
    decreases parts.len(),
{
    if parts.len() == 0 {
        seq![]
    } else if parts.len() == 1 {
        parts[0]
    } else {
        join_with(parts.drop_last(), c).push(c) + parts.last()
    }
}

/// The pieces of `s` between occurrences of `c`.
pub fn split(s: &Vec<char>, c: char) -> (parts: Vec<Vec<char>>)
    ensures
        parts@.len() == split_on(s@, c).len(),
        forall|i: int| 0 <= i < parts@.len() ==> #[trigger] parts@[i]@ == split_on(s@, c)[i],
{
    let mut parts: Vec<Vec<char>> = Vec::new();
    let mut cur: Vec<char> = Vec::new();
    let mut i: usize = 0;
    assert(s@.take(0) =~= Seq::<char>::empty());
    while i < s.len()
        invariant
            i <= s.len(),
            parts@.len() + 1 == split_on(s@.take(i as int), c).len(),
            forall|k: int|
                0 <= k < parts@.len() ==> #[trigger] parts@[k]@ == split_on(
                    s@.take(i as int),
                    c,
                )[k],
            cur@ == split_on(s@.take(i as int), c).last(),
        decreases s.len() - i,
    {
        let ghost prev = s@.take(i as int);
        let ghost next = s@.take(i + 1);
        assert(next.drop_last() == prev);
        assert(next.last() == s@[i as int]);
        proof {
            lemma_split_on_nonempty(prev, c);
        }
        if s[i] == c {
            parts.push(cur);
            cur = Vec::new();
        } else {
            cur.push(s[i]);
        }
        i = i + 1;
    }
    assert(s@.take(s.len() as int) == s@);
    proof {
        lemma_split_on_nonempty(s@, c);
    }
    parts.push(cur);
    parts
}

/// Appending a character to the last piece appends it to the joined text.
pub proof fn lemma_join_extend_last(parts: Seq<Seq<char>>, c: char, x: char)
    requires
        parts.len() >= 1,
    ensures
        join_with(parts.update(parts.len() - 1, parts.last().push(x)), c) == join_with(
            parts,
            c,
        ).push(x),
{
    let q = parts.update(parts.len() - 1, parts.last().push(x));
    if parts.len() > 1 {
        assert(q.drop_last() == parts.drop_last());
    }
}

/// Extending the last piece by the separator and more text extends the
/// joined text the same way.
pub proof fn lemma_join_extend_last_with(parts: Seq<Seq<char>>, c: char, x: Seq<char>)
    requires
        parts.len() >= 1,
    ensures
        join_with(parts.update(parts.len() - 1, parts.last().push(c) + x), c) == join_with(
            parts,
            c,
        ).push(c) + x,
{
    let q = parts.update(parts.len() - 1, parts.last().push(c) + x);
    if parts.len() > 1 {
        assert(q.drop_last() == parts.drop_last());
        let j = join_with(parts.drop_last(), c);
        assert(j.push(c) + (parts.last().push(c) + x) =~= (j.push(c) + parts.last()).push(c) + x);
    }
}

/// Joining the pieces of a split with the same separator gives back the text.
pub proof fn lemma_join_split(s: Seq<char>, c: char)
    ensures
        join_with(split_on(s, c), c) == s,
    decreases s.len(),
{
    if s.len() > 0 {
        let init = split_on(s.drop_last(), c);
        lemma_join_split(s.drop_last(), c);
        lemma_split_on_nonempty(s.drop_last(), c);
        if s.last() == c {
            assert(init.push(seq![]).drop_last() == init);
            assert(s == s.drop_last().push(c) + Seq::<char>::empty());
        } else {
            lemma_join_extend_last(init, c, s.last());
            assert(s == s.drop_last().push(s.last()));
        }
    }
}

} // verus!

verus! {

/// A substring is found wherever in the text it stands, and only where it
/// stands: `contains_seq` holds exactly when some slice of `s` equals `p`.
pub proof fn lemma_contains_seq_anywhere(s: Seq<char>, p: Seq<char>)
    ensures
        contains_seq(s, p) <==> exists|i: int|
            0 <= i && i + p.len() <= s.len() && #[trigger] s.subrange(i, i + p.len()) == p,
{
    if contains_seq(s, p) {
        let i = choose|i: int| occurs_at(s, p, i);
        assert(s.subrange(i, i + p.len()) == p);
    }
    if exists|i: int| 0 <= i && i + p.len() <= s.len() && #[trigger] s.subrange(i, i + p.len()) == p {
        let i = choose|i: int|
            0 <= i && i + p.len() <= s.len() && #[trigger] s.subrange(i, i + p.len()) == p;
        assert(occurs_at(s, p, i));
    }
}

} // verus!

verus! {

/// Up to the first replacement character, the replaced text agrees with
/// the original: characters only change where a replacement was written.
proof fn lemma_replace_prefix(t: Seq<char>, p: Seq<char>, r: Seq<char>, k: int)
    requires
        p.len() > 0,
        r.len() > 0,
        0 <= k <= replace_all(t, p, r).len(),
        forall|i: int| 0 <= i < k ==> replace_all(t, p, r)[i] != r[0],
    ensures
        k <= t.len(),
        replace_all(t, p, r).take(k) == t.take(k),
    decreases t.len(),
{
    let res = replace_all(t, p, r);
    if k > 0 && t.len() > 0 {
        if occurs_at(t, p, 0) {
            assert(res[0] == r[0]);
        } else {
            let rest = replace_all(t.skip(1), p, r);
            assert(res == seq![t[0]] + rest);
            assert forall|i: int| 0 <= i < k - 1 implies rest[i] != r[0] by {
                assert(res[i + 1] == rest[i]);
            }
            lemma_replace_prefix(t.skip(1), p, r, k - 1);
            assert(res.take(k) =~= seq![t[0]] + rest.take(k - 1));
            assert(t.take(k) =~= seq![t[0]] + t.skip(1).take(k - 1));
        }
    }
}

/// An occurrence in `a` shifted past a prefix is an occurrence in `pre + a`,
/// and back.
proof fn lemma_occurs_after_prefix(pre: Seq<char>, a: Seq<char>, q: Seq<char>, x: int)
    requires
        x >= pre.len(),
        occurs_at(pre + a, q, x),
    ensures
        occurs_at(a, q, x - pre.len()),
{
    assert((pre + a).subrange(x, x + q.len()) =~= a.subrange(x - pre.len(), x - pre.len() + q.len()));
}

/// Replacing every occurrence of `p` by text that shares no character
/// with `p` leaves no occurrence of `p`.
pub proof fn lemma_replace_removes_pattern(s: Seq<char>, p: Seq<char>, r: Seq<char>)
    requires
        p.len() > 0,
        r.len() > 0,
        forall|i: int, j: int| 0 <= i < r.len() && 0 <= j < p.len() ==> r[i] != p[j],
    ensures
        !contains_seq(replace_all(s, p, r), p),
    decreases s.len(),
{
    let res = replace_all(s, p, r);
    if s.len() > 0 {
        assert forall|x: int| !occurs_at(res, p, x) by {
            if occurs_at(res, p, x) {
                assert(res.subrange(x, x + p.len())[0] == p[0]);
                if occurs_at(s, p, 0) {
                    let rest = replace_all(s.skip(p.len() as int), p, r);
                    assert(res == r + rest);
                    if x < r.len() {
                        assert(res[x] == r[x]);
                    } else {
                        lemma_occurs_after_prefix(r, rest, p, x);
                        lemma_replace_removes_pattern(s.skip(p.len() as int), p, r);
                    }
                } else {
                    let rest = replace_all(s.skip(1), p, r);
                    assert(res == seq![s[0]] + rest);
                    if x == 0 {
                        assert forall|i: int| 0 <= i < p.len() implies res[i] != r[0] by {
                            assert(res.subrange(0, p.len() as int)[i] == res[i]);
                        }
                        lemma_replace_prefix(s, p, r, p.len() as int);
                        assert(res.take(p.len() as int) == res.subrange(0, p.len() as int));
                        assert(s.take(p.len() as int) == s.subrange(0, p.len() as int));
                    } else {
                        lemma_occurs_after_prefix(seq![s[0]], rest, p, x);
                        lemma_replace_removes_pattern(s.skip(1), p, r);
                    }
                }
            }
        }
    }
}

/// Replacing `p` by text that shares no character with `q` creates no
/// occurrence of `q` where there was none.
pub proof fn lemma_replace_keeps_absent(s: Seq<char>, p: Seq<char>, r: Seq<char>, q: Seq<char>)
    requires
        p.len() > 0,
        r.len() > 0,
        q.len() > 0,
        !contains_seq(s, q),
        forall|i: int, j: int| 0 <= i < r.len() && 0 <= j < q.len() ==> r[i] != q[j],
    ensures
        !contains_seq(replace_all(s, p, r), q),
    decreases s.len(),
{
    let res = replace_all(s, p, r);
    if s.len() > 0 {
        assert forall|x: int| !occurs_at(res, q, x) by {
            if occurs_at(res, q, x) {
                assert(res.subrange(x, x + q.len())[0] == q[0]);
                if occurs_at(s, p, 0) {
                    let tail = s.skip(p.len() as int);
                    let rest = replace_all(tail, p, r);
                    assert(res == r + rest);
                    if x < r.len() {
                        assert(res[x] == r[x]);
                    } else {
                        assert forall|y: int| !occurs_at(tail, q, y) by {
                            if occurs_at(tail, q, y) {
                                assert(s.subrange(y + p.len(), y + p.len() + q.len()) =~= tail.subrange(
                                    y,
                                    y + q.len(),
                                ));
                                assert(occurs_at(s, q, y + p.len()));
                            }
                        }
                        lemma_occurs_after_prefix(r, rest, q, x);
                        lemma_replace_keeps_absent(tail, p, r, q);
                    }
                } else {
                    let tail = s.skip(1);
                    let rest = replace_all(tail, p, r);
                    assert(res == seq![s[0]] + rest);
                    if x == 0 {
                        assert forall|i: int| 0 <= i < q.len() implies res[i] != r[0] by {
                            assert(res.subrange(0, q.len() as int)[i] == res[i]);
                        }
                        lemma_replace_prefix(s, p, r, q.len() as int);
                        assert(res.take(q.len() as int) == res.subrange(0, q.len() as int));
                        assert(s.take(q.len() as int) == s.subrange(0, q.len() as int));
                        assert(occurs_at(s, q, 0));
                    } else {
                        assert forall|y: int| !occurs_at(tail, q, y) by {
                            if occurs_at(tail, q, y) {
                                assert(s.subrange(y + 1, y + 1 + q.len()) =~= tail.subrange(
                                    y,
                                    y + q.len(),
                                ));
                                assert(occurs_at(s, q, y + 1));
                            }
                        }
                        lemma_occurs_after_prefix(seq![s[0]], rest, q, x);
                        lemma_replace_keeps_absent(tail, p, r, q);
                    }
                }
            }
        }
    }
}

/// Text without the pattern's first character is left as it is.
pub proof fn lemma_replace_without_pattern(s: Seq<char>, p: Seq<char>, r: Seq<char>)
    requires
        p.len() > 0,
        forall|i: int| 0 <= i < s.len() ==> s[i] != p[0],
    ensures
        replace_all(s, p, r) == s,
    decreases s.len(),
{
    if s.len() > 0 {
        if occurs_at(s, p, 0) {
            assert(s.subrange(0, p.len() as int)[0] == s[0]);
        }
        lemma_replace_without_pattern(s.skip(1), p, r);
        assert(seq![s[0]] + s.skip(1) =~= s);
    }
}

} // verus!
