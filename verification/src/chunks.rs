//! Packing a list of names into `+`-joined groups small enough for one
//! cookie each.

use vstd::prelude::*;
use crate::text::{chars_of, string_of, push_all, copy_chars, join_with};

verus! {

/// The byte budget of one group: 4000 bytes leave headroom under the
/// 4096-byte cookie cap for the cookie's name and attributes.
pub const COOKIE_LIST_LIMIT: u64 = 4000;

/// The number of bytes in the UTF-8 encoding of `c`.
pub open spec fn char_width(c: char) -> nat {
    if (c as u32) <= 0x7f {
        1
    } else if (c as u32) <= 0x7ff {
        2
    } else if (c as u32) <= 0xffff {
        3
    } else {
        4
    }
}

/// The number of bytes in the UTF-8 encoding of `s` (what `str::len` reports).
pub open spec fn byte_len(s: Seq<char>) -> nat
    decreases s.len(),
{
    if s.len() == 0 {
        0
    } else {
        byte_len(s.drop_last()) + char_width(s.last())
    }
}

/// The bytes a group of items takes up: each item's bytes plus one
/// separator byte per item.
pub open spec fn group_bytes(items: Seq<Seq<char>>) -> nat
    decreases items.len(),
{
    if items.len() == 0 {
        0
    } else {
        group_bytes(items.drop_last()) + byte_len(items.last()) + 1
    }
}

/// Greedy packing of `items`, in order: the finished groups and the group
/// still being filled. An item starts a new group when adding its bytes to
/// the current group's would pass the limit.
pub open spec fn pack(items: Seq<Seq<char>>) -> (Seq<Seq<Seq<char>>>, Seq<Seq<char>>)
    decreases items.len(),
{
    if items.len() == 0 {
        (seq![], seq![])
    } else {
        let (done, cur) = pack(items.drop_last());
        let x = items.last();
        if group_bytes(cur) + byte_len(x) > COOKIE_LIST_LIMIT {
            (done.push(cur), seq![x])
        } else {
            (done, cur.push(x))
        }
    }
}

/// The groups of `items`, each joined with `+`; the last group is always
/// there, so the result is never empty.
pub open spec fn size_limited_groups(items: Seq<Seq<char>>) -> Seq<Seq<char>> {
    let (done, cur) = pack(items);
    done.push(cur).map_values(|g: Seq<Seq<char>>| join_with(g, '+'))
}

/// The character sequences held by a vector of character vectors.
pub open spec fn views(v: Seq<Vec<char>>) -> Seq<Seq<char>> {
    v.map_values(|x: Vec<char>| x@)
}

/// The character sequences held by a vector of strings.
pub open spec fn string_views(v: Seq<String>) -> Seq<Seq<char>> {
    v.map_values(|x: String| x@)
}

/// The UTF-8 width of one character.
fn char_byte_width(c: char) -> (w: u128)
    ensures
        w == char_width(c),
{
    let u = c as u32;
    if u <= 0x7f {
        1
    } else if u <= 0x7ff {
        2
    } else if u <= 0xffff {
        3
    } else {
        4
    }
}

/// The number of bytes in the UTF-8 encoding of `s`.
pub fn byte_length(s: &Vec<char>) -> (n: u128)
    ensures
        n == byte_len(s@),
        n <= 4 * (usize::MAX as u128),
{
    let mut n: u128 = 0;
    let mut i: usize = 0;
    while i < s.len()
        invariant
            i <= s.len(),
            n == byte_len(s@.take(i as int)),
            n <= 4 * i,
            i <= usize::MAX,
        decreases s.len() - i,
    {
        let ghost pre = s@.take(i as int);
        assert(s@.take(i + 1).drop_last() == pre);
        n = n + char_byte_width(s[i]);
        i = i + 1;
    }
    assert(s@.take(s.len() as int) == s@);
    n
}

/// The greedy packing of `items` into `+`-joined groups.
pub fn join_chars_until_size_limit(items: &Vec<Vec<char>>) -> (groups: Vec<Vec<char>>)
    ensures
        views(groups@) == size_limited_groups(views(items@)),
{
    let ghost all = views(items@);
    let mut result: Vec<Vec<char>> = Vec::new();
    let mut list: Vec<char> = Vec::new();
    let mut count: usize = 0;
    let mut current_size: u128 = 0;
    let ghost mut done: Seq<Seq<Seq<char>>> = seq![];
    let ghost mut cur: Seq<Seq<char>> = seq![];
    let mut i: usize = 0;
    assert(all.take(0) =~= Seq::<Seq<char>>::empty());
    while i < items.len()
        invariant
            all == views(items@),
            i <= items.len(),
            (done, cur) == pack(all.take(i as int)),
            views(result@) == done.map_values(|g: Seq<Seq<char>>| join_with(g, '+')),
            list@ == join_with(cur, '+'),
            count == cur.len(),
            count <= i,
            current_size == group_bytes(cur),
            current_size <= 4 * (usize::MAX as u128) + 1,
        decreases items.len() - i,
    {
        let ghost pre = all.take(i as int);
        assert(all.take(i + 1).drop_last() == pre);
        assert(all.take(i + 1).last() == items@[i as int]@);
        let item_size = byte_length(&items[i]);
        if current_size + item_size > COOKIE_LIST_LIMIT as u128 {
            let ghost old_result = views(result@);
            result.push(list);
            assert(views(result@) == old_result.push(join_with(cur, '+')));
            proof {
                done = done.push(cur);
                cur = seq![items@[i as int]@];
                assert(cur.drop_last() =~= Seq::<Seq<char>>::empty());
                assert(cur.last() == items@[i as int]@);
                assert(group_bytes(cur) == group_bytes(cur.drop_last()) + byte_len(cur.last()) + 1);
                assert(group_bytes(cur.drop_last()) == 0);
            }
            list = copy_chars(&items[i]);
            count = 1;
            current_size = item_size + 1;
            assert(views(result@) =~= done.map_values(|g: Seq<Seq<char>>| join_with(g, '+')));
        } else {
            if count > 0 {
                list.push('+');
            }
            push_all(&mut list, &items[i]);
            proof {
                let x = items@[i as int]@;
                assert(cur.push(x).drop_last() == cur);
                if cur.len() == 0 {
                    assert(cur.push(x) == seq![x]);
                }
                cur = cur.push(x);
            }
            count = count + 1;
            current_size = current_size + item_size + 1;
        }
        i = i + 1;
    }
    assert(all.take(items.len() as int) == all);
    let ghost old_result = result@;
    result.push(list);
    assert(views(result@) =~= views(old_result).push(join_with(cur, '+')));
    assert(views(result@) =~= done.push(cur).map_values(|g: Seq<Seq<char>>| join_with(g, '+')));
    result
}

/// Joins names with `+` into as few groups as the greedy packing allows,
/// each group starting a new one when the next name's bytes would push it
/// past 4000 bytes.
pub fn join_until_size_limit(vec: &Vec<String>) -> (groups: Vec<String>)
    ensures
        string_views(groups@) == size_limited_groups(string_views(vec@)),
{
    let mut items: Vec<Vec<char>> = Vec::new();
    let mut i: usize = 0;
    while i < vec.len()
        invariant
            i <= vec.len(),
            views(items@) == string_views(vec@).take(i as int),
        decreases vec.len() - i,
    {
        let ghost old_items = items@;
        let c = chars_of(vec[i].as_str());
        items.push(c);
        assert(items@ == old_items.push(c));
        assert(views(items@) =~= views(old_items).push(vec@[i as int]@));
        assert(string_views(vec@).take(i + 1) =~= string_views(vec@).take(i as int).push(vec@[i as int]@));
        i = i + 1;
    }
    assert(string_views(vec@).take(vec.len() as int) =~= string_views(vec@));
    let packed = join_chars_until_size_limit(&items);
    let mut groups: Vec<String> = Vec::new();
    let mut j: usize = 0;
    while j < packed.len()
        invariant
            j <= packed.len(),
            string_views(groups@) == views(packed@).take(j as int),
        decreases packed.len() - j,
    {
        let ghost old_groups = groups@;
        let g = string_of(&packed[j]);
        groups.push(g);
        assert(groups@ == old_groups.push(g));
        assert(string_views(groups@) =~= string_views(old_groups).push(packed@[j as int]@));
        assert(views(packed@).take(j + 1) =~= views(packed@).take(j as int).push(packed@[j as int]@));
        j = j + 1;
    }
    assert(views(packed@).take(packed.len() as int) =~= views(packed@));
    groups
}

} // verus!

verus! {

/// Packing, then joining each group with `+` and the groups with `+`,
/// gives the same text as joining the items with `+`, provided the first
/// item alone fits in a group (else an empty group comes first).
pub proof fn lemma_pack_rejoin(items: Seq<Seq<char>>)
    requires
        items.len() >= 1,
        byte_len(items[0]) <= COOKIE_LIST_LIMIT,
    ensures
        join_with(size_limited_groups(items), '+') == join_with(items, '+'),
        pack(items).1.len() >= 1,
    decreases items.len(),
{
    let (done, cur) = pack(items);
    let x = items.last();
    let jw = |g: Seq<Seq<char>>| join_with(g, '+');
    if items.len() == 1 {
        let (d0, c0) = pack(items.drop_last());
        assert(items.drop_last().len() == 0);
        assert(d0 == Seq::<Seq<Seq<char>>>::empty() && c0 == Seq::<Seq<char>>::empty());
        assert(group_bytes(c0) == 0);
        assert(items[0] == x);
        assert(done == d0 && cur == c0.push(x));
        assert(cur =~= seq![x]);
        assert(done.push(cur).map_values(jw) =~= seq![x]);
        assert(join_with(seq![x], '+') == x);
        assert(join_with(items, '+') == items[0]);
    } else {
        let rest = items.drop_last();
        assert(rest[0] == items[0]);
        lemma_pack_rejoin(rest);
        let (d, c) = pack(rest);
        let m = d.push(c).map_values(jw);
        assert(join_with(m, '+') == join_with(rest, '+'));
        assert(join_with(items, '+') == join_with(rest, '+').push('+') + x);
        if group_bytes(c) + byte_len(x) > COOKIE_LIST_LIMIT {
            assert(done == d.push(c) && cur == seq![x]);
            assert(done.push(cur).map_values(jw) =~= m.push(x));
            assert(m.push(x).drop_last() == m);
        } else {
            assert(done == d && cur == c.push(x));
            assert(c.push(x).drop_last() == c);
            assert(jw(c.push(x)) == join_with(c, '+').push('+') + x);
            assert(done.push(cur).map_values(jw) =~= m.update(
                m.len() - 1,
                m.last().push('+') + x,
            ));
            crate::text::lemma_join_extend_last_with(m, '+', x);
        }
    }
}

/// The numbered cookies of a list, read back in order and joined with `+`,
/// give the list as it was sent, provided its first item fits in a group.
pub proof fn lemma_list_round_trip(list: Seq<char>)
    requires
        byte_len(crate::text::split_on(list, '+')[0]) <= COOKIE_LIST_LIMIT,
    ensures
        join_with(size_limited_groups(crate::text::split_on(list, '+')), '+') == list,
{
    crate::text::lemma_split_on_nonempty(list, '+');
    lemma_pack_rejoin(crate::text::split_on(list, '+'));
    crate::text::lemma_join_split(list, '+');
}

/// Bytes add up over concatenation.
pub proof fn lemma_byte_len_concat(a: Seq<char>, b: Seq<char>)
    ensures
        byte_len(a + b) == byte_len(a) + byte_len(b),
    decreases b.len(),
{
    if b.len() > 0 {
        lemma_byte_len_concat(a, b.drop_last());
        assert((a + b).drop_last() == a + b.drop_last());
        assert((a + b).last() == b.last());
    } else {
        assert(a + b == a);
    }
}

/// A group joined with `+` takes one byte less than its items and their
/// separators.
pub proof fn lemma_joined_group_bytes(g: Seq<Seq<char>>)
    requires
        g.len() >= 1,
    ensures
        byte_len(join_with(g, '+')) + 1 == group_bytes(g),
    decreases g.len(),
{
    assert(('+' as u32) == 43);
    assert(char_width('+') == 1);
    if g.len() == 1 {
        assert(g.drop_last().len() == 0);
        assert(g.last() == g[0]);
        assert(group_bytes(g.drop_last()) == 0);
    } else {
        lemma_joined_group_bytes(g.drop_last());
        let j = join_with(g.drop_last(), '+');
        lemma_byte_len_concat(j.push('+'), g.last());
        assert(j.push('+').drop_last() == j);
        assert(j.push('+').last() == '+');
        assert(byte_len(j.push('+')) == byte_len(j) + 1);
    }
}

/// While packing items that each fit, every group stays within one byte of
/// the limit (the byte of its last, unused, separator).
pub proof fn lemma_pack_bounded(items: Seq<Seq<char>>)
    requires
        forall|i: int| 0 <= i < items.len() ==> byte_len(#[trigger] items[i]) <= COOKIE_LIST_LIMIT,
    ensures
        forall|k: int|
            0 <= k < pack(items).0.len() ==> group_bytes(#[trigger] pack(items).0[k])
                <= COOKIE_LIST_LIMIT + 1,
        group_bytes(pack(items).1) <= COOKIE_LIST_LIMIT + 1,
    decreases items.len(),
{
    if items.len() > 0 {
        let rest = items.drop_last();
        assert forall|i: int| 0 <= i < rest.len() implies byte_len(#[trigger] rest[i])
            <= COOKIE_LIST_LIMIT by {
            assert(rest[i] == items[i]);
        }
        lemma_pack_bounded(rest);
        let (d, c) = pack(rest);
        let x = items.last();
        assert(byte_len(items[items.len() - 1]) <= COOKIE_LIST_LIMIT);
        if group_bytes(c) + byte_len(x) > COOKIE_LIST_LIMIT {
            assert(seq![x].drop_last() =~= Seq::<Seq<char>>::empty());
            assert(seq![x].last() == x);
            assert(group_bytes(Seq::<Seq<char>>::empty()) == 0);
            assert(group_bytes(seq![x]) == byte_len(x) + 1);
            assert forall|k: int| 0 <= k < d.push(c).len() implies group_bytes(
                #[trigger] d.push(c)[k],
            ) <= COOKIE_LIST_LIMIT + 1 by {
                if k < d.len() {
                    assert(d.push(c)[k] == d[k]);
                }
            }
        } else {
            assert(c.push(x).drop_last() == c);
        }
    }
}

/// When every item fits in a group, every group, joined with `+`, is at
/// most 4000 bytes, so each numbered cookie stays under the cookie size cap.
pub proof fn lemma_groups_fit(items: Seq<Seq<char>>)
    requires
        forall|i: int| 0 <= i < items.len() ==> byte_len(#[trigger] items[i]) <= COOKIE_LIST_LIMIT,
    ensures
        forall|k: int|
            0 <= k < size_limited_groups(items).len() ==> byte_len(
                #[trigger] size_limited_groups(items)[k],
            ) <= COOKIE_LIST_LIMIT,
{
    lemma_pack_bounded(items);
    let (done, cur) = pack(items);
    let all = done.push(cur);
    assert forall|k: int| 0 <= k < size_limited_groups(items).len() implies byte_len(
        #[trigger] size_limited_groups(items)[k],
    ) <= COOKIE_LIST_LIMIT by {
        let g = all[k];
        assert(size_limited_groups(items)[k] == join_with(g, '+'));
        if k < done.len() {
            assert(g == done[k]);
        }
        if g.len() >= 1 {
            lemma_joined_group_bytes(g);
        }
    }
}

} // verus!

verus! {

/// `byte_len` is the length of the UTF-8 encoding, as `str::len` reports it.
pub proof fn lemma_byte_len_is_utf8_len(s: Seq<char>)
    ensures
        byte_len(s) == vstd::utf8::encode_utf8(s).len(),
    decreases s.len(),
{
    if s.len() > 0 {
        let c = s[0];
        lemma_byte_len_is_utf8_len(s.drop_first());
        lemma_byte_len_concat(seq![c], s.drop_first());
        assert(seq![c] + s.drop_first() == s);
        assert(seq![c].drop_last() =~= Seq::<char>::empty());
        let one = seq![c];
        assert(one.last() == c);
        assert(one.drop_last() =~= Seq::<char>::empty());
        assert(byte_len(one.drop_last()) == 0);
        assert(byte_len(one) == byte_len(one.drop_last()) + char_width(one.last()));
        vstd::utf8::char_is_scalar(c);
        let u = c as u32;
        let e = vstd::utf8::encode_scalar(u);
        if vstd::utf8::has_width_1_encoding(u) {
            assert(e.len() == 1);
        } else if vstd::utf8::has_width_2_encoding(u) {
            assert(e.len() == 2);
        } else if vstd::utf8::has_width_3_encoding(u) {
            assert(e.len() == 3);
        } else {
            assert(e.len() == 4);
        }
        assert(vstd::utf8::encode_utf8(s) == e + vstd::utf8::encode_utf8(s.drop_first()));
    }
}

} // verus!

verus! {

/// The items of consecutive groups, laid end to end.
pub open spec fn concat_groups(groups: Seq<Seq<Seq<char>>>) -> Seq<Seq<char>>
    decreases groups.len(),
{
    if groups.len() == 0 {
        seq![]
    } else {
        concat_groups(groups.drop_last()) + groups.last()
    }
}

/// `parts` splits `items`, in order, greedily under the byte limit: an
/// item joins the group being filled exactly when the group stays within
/// 4000 bytes with it, and a new group starts only when the next item
/// would take the current one past 4000 bytes. Only the first group may be
/// empty (when the first item alone is over the limit).
pub open spec fn greedy_partition(items: Seq<Seq<char>>, parts: Seq<Seq<Seq<char>>>) -> bool {
    &&& parts.len() >= 1
    &&& concat_groups(parts) == items
    &&& forall|k: int| 1 <= k < parts.len() ==> (#[trigger] parts[k]).len() >= 1
    &&& parts[0].len() >= 1 ==> byte_len(parts[0][0]) <= COOKIE_LIST_LIMIT
    &&& forall|k: int, j: int|
        0 <= k < parts.len() && 1 <= j < parts[k].len() ==> group_bytes(parts[k].take(j))
            + byte_len(#[trigger] parts[k][j]) <= COOKIE_LIST_LIMIT
    &&& forall|k: int|
        0 <= k < parts.len() - 1 ==> group_bytes(#[trigger] parts[k]) + byte_len(parts[k + 1][0])
            > COOKIE_LIST_LIMIT
}

/// The greedy packing meets the greedy partition rules.
proof fn lemma_pack_is_greedy(items: Seq<Seq<char>>)
    ensures
        greedy_partition(items, pack(items).0.push(pack(items).1)),
        items.len() >= 1 ==> pack(items).1.len() >= 1,
    decreases items.len(),
{
    let (done, cur) = pack(items);
    let parts = done.push(cur);
    if items.len() == 0 {
        assert(parts == seq![Seq::<Seq<char>>::empty()]);
        assert(parts.drop_last() =~= Seq::<Seq<Seq<char>>>::empty());
        assert(concat_groups(parts) =~= concat_groups(parts.drop_last()) + parts.last());
        assert(concat_groups(parts) =~= items);
        assert(greedy_partition(items, parts));
    } else {
        let rest = items.drop_last();
        let x = items.last();
        lemma_pack_is_greedy(rest);
        let (d, c) = pack(rest);
        let old = d.push(c);
        assert(items == rest.push(x));
        assert(old.drop_last() == d && old.last() == c);
        if group_bytes(c) + byte_len(x) > COOKIE_LIST_LIMIT {
            assert(done == old && cur == seq![x]);
            assert(parts.drop_last() == old);
            assert(concat_groups(parts) == concat_groups(old) + seq![x]);
            assert(concat_groups(parts) =~= items);
            assert forall|k: int| 1 <= k < parts.len() implies (#[trigger] parts[k]).len() >= 1 by {
                if k < old.len() {
                    assert(parts[k] == old[k]);
                }
            }
            assert(parts[0] == old[0]);
            assert forall|k: int, j: int|
                0 <= k < parts.len() && 1 <= j < parts[k].len() implies group_bytes(parts[k].take(j))
                + byte_len(#[trigger] parts[k][j]) <= COOKIE_LIST_LIMIT by {
                assert(k < old.len());
                assert(parts[k] == old[k]);
            }
            assert(parts.len() >= 1);
            assert(parts[0].len() >= 1 ==> byte_len(parts[0][0]) <= COOKIE_LIST_LIMIT);
            assert forall|k: int| 0 <= k < parts.len() - 1 implies group_bytes(#[trigger] parts[k])
                + byte_len(parts[k + 1][0]) > COOKIE_LIST_LIMIT by {
                assert(parts[k] == old[k]);
                if k + 1 < old.len() {
                    assert(parts[k + 1] == old[k + 1]);
                } else {
                    assert(k == old.len() - 1);
                    assert(old[k] == c);
                    assert(parts[k + 1] == seq![x]);
                }
            }
        } else {
            assert(done == d && cur == c.push(x));
            assert(parts.drop_last() == d);
            assert(concat_groups(parts) == concat_groups(d) + c.push(x));
            assert(concat_groups(old) == concat_groups(d) + c);
            assert(concat_groups(parts) =~= items);
            if rest.len() == 0 {
                assert(c.len() == 0 && d.len() == 0);
                assert(group_bytes(c) == 0);
            }
            assert forall|k: int| 1 <= k < parts.len() implies (#[trigger] parts[k]).len() >= 1 by {
                if k < d.len() {
                    assert(parts[k] == old[k]);
                }
            }
            if d.len() == 0 {
                assert(parts[0] == c.push(x));
                if c.len() >= 1 {
                    assert(old[0] == c);
                    assert(c.push(x)[0] == c[0]);
                } else {
                    assert(c.push(x)[0] == x);
                    assert(group_bytes(c) == 0);
                }
            } else {
                assert(parts[0] == old[0]);
            }
            assert forall|k: int, j: int|
                0 <= k < parts.len() && 1 <= j < parts[k].len() implies group_bytes(parts[k].take(j))
                + byte_len(#[trigger] parts[k][j]) <= COOKIE_LIST_LIMIT by {
                if k < d.len() {
                    assert(parts[k] == old[k]);
                } else {
                    assert(k == d.len());
                    assert(parts[k] == c.push(x));
                    assert(old[k] == c);
                    if j < c.len() {
                        assert(c.push(x).take(j) == c.take(j));
                        assert(c.push(x)[j] == c[j]);
                    } else {
                        assert(j == c.len());
                        assert(c.push(x).take(j) == c);
                        assert(c.push(x)[j] == x);
                    }
                }
            }
            assert forall|k: int| 0 <= k < parts.len() - 1 implies group_bytes(#[trigger] parts[k])
                + byte_len(parts[k + 1][0]) > COOKIE_LIST_LIMIT by {
                assert(parts[k] == old[k]);
                if k + 1 < d.len() {
                    assert(parts[k + 1] == old[k + 1]);
                } else {
                    assert(k + 1 == d.len());
                    assert(parts[k + 1] == c.push(x));
                    assert(old[k + 1] == c);
                    assert(c.len() >= 1);
                    assert(c.push(x)[0] == c[0]);
                }
            }
        }
    }
}

/// The groups of a list are its items split greedily under the 4000-byte
/// limit, each joined with `+`: a group is closed only when the next item
/// would take it past the limit, so items that fit together share a group.
pub proof fn lemma_groups_are_greedy(items: Seq<Seq<char>>)
    ensures
        exists|parts: Seq<Seq<Seq<char>>>|
            greedy_partition(items, parts) && size_limited_groups(items) == parts.map_values(
                |g: Seq<Seq<char>>| join_with(g, '+'),
            ),
{
    lemma_pack_is_greedy(items);
    let parts = pack(items).0.push(pack(items).1);
    assert(size_limited_groups(items) == parts.map_values(|g: Seq<Seq<char>>| join_with(g, '+')));
}

} // verus!
