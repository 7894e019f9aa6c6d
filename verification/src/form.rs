//! `application/x-www-form-urlencoded` data: parsing (done by the `url`
//! crate) and looking names up in the parsed pairs.

use vstd::prelude::*;
use crate::text::{chars_of, same_chars};

verus! {

/// The (name, value) pairs that `url::form_urlencoded::parse` yields for
/// `input`, in input order, each side percent-decoded with `+` read as a space.
pub uninterp spec fn form_pairs(input: Seq<u8>) -> Seq<(Seq<char>, Seq<char>)>;

/// The pairs of a parsed form as character sequences.
pub open spec fn pairs_view(pairs: Seq<(String, String)>) -> Seq<(Seq<char>, Seq<char>)> {
    pairs.map_values(|p: (String, String)| (p.0@, p.1@))
}

/// The pairs of a form as character sequences.
pub open spec fn chars_pairs_view(pairs: Seq<(Vec<char>, Vec<char>)>) -> Seq<(Seq<char>, Seq<char>)> {
    pairs.map_values(|p: (Vec<char>, Vec<char>)| (p.0@, p.1@))
}

/// Parses form-encoded bytes into their (name, value) pairs.
///
/// Trusted: calls `url::form_urlencoded::parse` and collects what it yields,
/// turning each `Cow<str>` into a `String`; the pairs are named `form_pairs`.
#[verifier::external_body]
pub(crate) fn parse_form(input: &[u8]) -> (pairs: Vec<(String, String)>)
    ensures
        pairs_view(pairs@) == form_pairs(input@),
{
    url::form_urlencoded::parse(input).map(|(k, v)| (k.into_owned(), v.into_owned())).collect()
}

/// The value that a map collected from `pairs` holds for `name`: later
/// pairs overwrite earlier ones, so the last pair named `name` wins.
pub open spec fn form_lookup(pairs: Seq<(Seq<char>, Seq<char>)>, name: Seq<char>) -> Option<
    Seq<char>,
>
    decreases pairs.len(),
{
    if pairs.len() == 0 {
        None
    } else if pairs.last().0 == name {
        Some(pairs.last().1)
    } else {
        form_lookup(pairs.drop_last(), name)
    }
}

/// The value of the first pair named `name`, if any.
pub open spec fn form_first(pairs: Seq<(Seq<char>, Seq<char>)>, name: Seq<char>) -> Option<
    Seq<char>,
>
    decreases pairs.len(),
{
    if pairs.len() == 0 {
        None
    } else if pairs[0].0 == name {
        Some(pairs[0].1)
    } else {
        form_first(pairs.drop_first(), name)
    }
}

/// The pairs with their names and values as character vectors.
pub fn pairs_to_chars(pairs: &Vec<(String, String)>) -> (out: Vec<(Vec<char>, Vec<char>)>)
    ensures
        chars_pairs_view(out@) == pairs_view(pairs@),
{
    let mut out: Vec<(Vec<char>, Vec<char>)> = Vec::new();
    let mut i: usize = 0;
    while i < pairs.len()
        invariant
            i <= pairs.len(),
            chars_pairs_view(out@) == pairs_view(pairs@).take(i as int),
        decreases pairs.len() - i,
    {
        let k = chars_of(pairs[i].0.as_str());
        let v = chars_of(pairs[i].1.as_str());
        let ghost old_out = out@;
        out.push((k, v));
        assert(out@ == old_out.push((k, v)));
        assert(k@ == pairs@[i as int].0@ && v@ == pairs@[i as int].1@);
        assert(chars_pairs_view(out@) == chars_pairs_view(old_out).push((k@, v@)));
        i = i + 1;
        assert(chars_pairs_view(out@) =~= pairs_view(pairs@).take(i as int));
    }
    assert(pairs_view(pairs@).take(i as int) =~= pairs_view(pairs@));
    out
}

/// The value of the last pair named `name`.
pub fn lookup_last<'a>(pairs: &'a Vec<(Vec<char>, Vec<char>)>, name: &Vec<char>) -> (r: Option<
    &'a Vec<char>,
>)
    ensures
        match r {
            Some(v) => form_lookup(chars_pairs_view(pairs@), name@) == Some(v@),
            None => form_lookup(chars_pairs_view(pairs@), name@) is None,
        },
{
    let ghost all = chars_pairs_view(pairs@);
    let mut i: usize = pairs.len();
    assert(all.take(i as int) =~= all);
    while i > 0
        invariant
            i <= pairs.len(),
            all == chars_pairs_view(pairs@),
            form_lookup(all.take(i as int), name@) == form_lookup(all, name@),
        decreases i,
    {
        let ghost pre = all.take(i as int);
        assert(pre.last() == all[i - 1]);
        assert(pre.drop_last() =~= all.take(i - 1));
        if same_chars(&pairs[i - 1].0, name) {
            return Some(&pairs[i - 1].1);
        }
        i = i - 1;
    }
    None
}

/// The value of the first pair named `name`.
pub fn lookup_first<'a>(pairs: &'a Vec<(Vec<char>, Vec<char>)>, name: &Vec<char>) -> (r: Option<
    &'a Vec<char>,
>)
    ensures
        match r {
            Some(v) => form_first(chars_pairs_view(pairs@), name@) == Some(v@),
            None => form_first(chars_pairs_view(pairs@), name@) is None,
        },
{
    let ghost all = chars_pairs_view(pairs@);
    let mut i: usize = 0;
    assert(all.skip(0) =~= all);
    while i < pairs.len()
        invariant
            i <= pairs.len(),
            all == chars_pairs_view(pairs@),
            form_first(all.skip(i as int), name@) == form_first(all, name@),
        decreases pairs.len() - i,
    {
        let ghost rest = all.skip(i as int);
        assert(rest[0] == all[i as int]);
        assert(rest.drop_first() =~= all.skip(i + 1));
        if same_chars(&pairs[i].0, name) {
            return Some(&pairs[i].1);
        }
        i = i + 1;
    }
    None
}

} // verus!

verus! {

/// The value looked up for `name` is that of the last pair named `name`;
/// there is none exactly when no pair is named `name`.
pub proof fn lemma_form_lookup_is_last_pair(pairs: Seq<(Seq<char>, Seq<char>)>, name: Seq<char>)
    ensures
        form_lookup(pairs, name) is None <==> forall|j: int|
            0 <= j < pairs.len() ==> (#[trigger] pairs[j]).0 != name,
        forall|j: int|
            0 <= j < pairs.len() && (#[trigger] pairs[j]).0 == name && (forall|k: int|
                j < k < pairs.len() ==> pairs[k].0 != name) ==> form_lookup(pairs, name) == Some(
                pairs[j].1,
            ),
    decreases pairs.len(),
{
    if pairs.len() > 0 {
        let rest = pairs.drop_last();
        let last = pairs.len() - 1;
        lemma_form_lookup_is_last_pair(rest, name);
        assert forall|j: int| 0 <= j < rest.len() implies #[trigger] rest[j] == pairs[j] by {}
        if pairs[last].0 != name {
            assert forall|j: int|
                0 <= j < pairs.len() && (#[trigger] pairs[j]).0 == name && (forall|k: int|
                    j < k < pairs.len() ==> pairs[k].0 != name) implies form_lookup(pairs, name)
                == Some(pairs[j].1) by {
                assert(rest[j] == pairs[j]);
                assert forall|k: int| j < k < rest.len() implies rest[k].0 != name by {
                    assert(rest[k] == pairs[k]);
                }
            }
            if forall|j: int| 0 <= j < rest.len() ==> (#[trigger] rest[j]).0 != name {
                assert forall|j: int| 0 <= j < pairs.len() implies (#[trigger] pairs[j]).0 != name by {
                    if j < last {
                        assert(rest[j] == pairs[j]);
                    }
                }
            }
        } else {
            assert forall|j: int|
                0 <= j < pairs.len() && (#[trigger] pairs[j]).0 == name && (forall|k: int|
                    j < k < pairs.len() ==> pairs[k].0 != name) implies form_lookup(pairs, name)
                == Some(pairs[j].1) by {
                if j < last {
                    assert(pairs[last].0 != name);
                }
            }
        }
    }
}

/// The value found first for `name` is that of the first pair named
/// `name`; there is none exactly when no pair is named `name`.
pub proof fn lemma_form_first_is_first_pair(pairs: Seq<(Seq<char>, Seq<char>)>, name: Seq<char>)
    ensures
        form_first(pairs, name) is None <==> forall|j: int|
            0 <= j < pairs.len() ==> (#[trigger] pairs[j]).0 != name,
        forall|j: int|
            0 <= j < pairs.len() && (#[trigger] pairs[j]).0 == name && (forall|k: int|
                0 <= k < j ==> pairs[k].0 != name) ==> form_first(pairs, name) == Some(pairs[j].1),
    decreases pairs.len(),
{
    if pairs.len() > 0 {
        let rest = pairs.drop_first();
        lemma_form_first_is_first_pair(rest, name);
        assert forall|j: int| 0 <= j < rest.len() implies #[trigger] rest[j] == pairs[j + 1] by {}
        if pairs[0].0 != name {
            assert forall|j: int|
                0 <= j < pairs.len() && (#[trigger] pairs[j]).0 == name && (forall|k: int|
                    0 <= k < j ==> pairs[k].0 != name) implies form_first(pairs, name) == Some(
                pairs[j].1,
            ) by {
                assert(rest[j - 1] == pairs[j]);
                assert forall|k: int| 0 <= k < j - 1 implies rest[k].0 != name by {
                    assert(rest[k] == pairs[k + 1]);
                }
            }
            if forall|j: int| 0 <= j < rest.len() ==> (#[trigger] rest[j]).0 != name {
                assert forall|j: int| 0 <= j < pairs.len() implies (#[trigger] pairs[j]).0 != name by {
                    if j > 0 {
                        assert(rest[j - 1] == pairs[j]);
                    }
                }
            }
        }
    }
}

} // verus!
