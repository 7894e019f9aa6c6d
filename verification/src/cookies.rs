//! Cookie updates a settings request asks for, and the numbered cookies
//! (`name`, `name1`, `name2`, ...) that carry a long `+`-separated list.

use vstd::prelude::*;
use vstd::arithmetic::power::pow;
use crate::text::{copy_chars, push_all, contains, contains_seq, occurs_at, string_of};
use crate::decimal::{dec, lemma_dec_facts, increment_numeral};
use crate::chunks::views;

verus! {

/// One change to the response's cookies. An inserted cookie carries its
/// path, whether it is `HttpOnly`, and how many weeks from the time of the
/// response it expires.
#[derive(Debug, PartialEq, Eq)]
pub enum CookieAction {
    Insert { name: String, value: String, path: String, http_only: bool, expires_in_weeks: u32 },
    Remove { name: String },
}

/// A cookie change, as character sequences.
pub enum CookieOp {
    Insert {
        name: Seq<char>,
        value: Seq<char>,
        path: Seq<char>,
        http_only: bool,
        expires_in_weeks: u32,
    },
    Remove { name: Seq<char> },
}

impl View for CookieAction {
    type V = CookieOp;

    open spec fn view(&self) -> CookieOp {
        match self {
            CookieAction::Insert { name, value, path, http_only, expires_in_weeks } => CookieOp::Insert {
                name: name@,
                value: value@,
                path: path@,
                http_only: *http_only,
                expires_in_weeks: *expires_in_weeks,
            },
            CookieAction::Remove { name } => CookieOp::Remove { name: name@ },
        }
    }
}

/// How long a settings cookie lasts: 52 weeks.
pub const COOKIE_LIFETIME_WEEKS: u32 = 52;

/// A settings cookie: path `/`, `HttpOnly`, expiring 52 weeks ahead.
pub open spec fn insert_op(name: Seq<char>, value: Seq<char>) -> CookieOp {
    CookieOp::Insert {
        name: name,
        value: value,
        path: seq!['/'],
        http_only: true,
        expires_in_weeks: COOKIE_LIFETIME_WEEKS,
    }
}

/// Sets settings cookie `name` to `value`.
pub fn insert_action(name: &Vec<char>, value: &Vec<char>) -> (a: CookieAction)
    ensures
        a@ == insert_op(name@, value@),
{
    let mut path: Vec<char> = Vec::new();
    path.push('/');
    assert(path@ == seq!['/']);
    CookieAction::Insert {
        name: string_of(name),
        value: string_of(value),
        path: string_of(&path),
        http_only: true,
        expires_in_weeks: COOKIE_LIFETIME_WEEKS,
    }
}

/// The changes of a sequence of actions.
pub open spec fn ops_view(actions: Seq<CookieAction>) -> Seq<CookieOp> {
    actions.map_values(|a: CookieAction| a@)
}

/// The name of the cookie that holds part `i` of list `name`: the bare
/// name for the first part, the name followed by `i` for the others.
pub open spec fn numbered_name(name: Seq<char>, i: nat) -> Seq<char> {
    if i == 0 {
        name
    } else {
        name + dec(i)
    }
}

/// The cookie header holds `name` followed by the numeral of `k` and `=`,
/// i.e. a numbered cookie `name{k}` was sent.
pub open spec fn is_stale(header: Seq<char>, name: Seq<char>, k: nat) -> bool {
    contains_seq(header, (name + dec(k)).push('='))
}

/// `n` numbered cookies from `start` on were sent and the next one was not.
pub open spec fn stale_run_ends_at(header: Seq<char>, name: Seq<char>, start: nat, n: nat) -> bool {
    &&& forall|j: nat| j < n ==> #[trigger] is_stale(header, name, start + j)
    &&& !is_stale(header, name, start + n)
}

/// How many numbered cookies, counting from `start`, the header holds
/// without a gap.
pub open spec fn stale_run(header: Seq<char>, name: Seq<char>, start: nat) -> nat {
    choose|n: nat| stale_run_ends_at(header, name, start, n)
}

/// Removals of the numbered cookies `name{start}`, `name{start+1}`, ...
/// that the header holds without a gap.
pub open spec fn stale_removals(header: Seq<char>, name: Seq<char>, start: nat) -> Seq<CookieOp> {
    Seq::new(
        stale_run(header, name, start),
        |j: int| CookieOp::Remove { name: name + dec((start + j) as nat) },
    )
}

/// Sets of the numbered cookies of list `name`, one per group.
pub open spec fn numbered_sets(name: Seq<char>, groups: Seq<Seq<char>>) -> Seq<CookieOp> {
    Seq::new(
        groups.len(),
        |i: int| insert_op(numbered_name(name, i as nat), groups[i]),
    )
}

/// A run that ends at `n` is the run.
pub proof fn lemma_stale_run_unique(header: Seq<char>, name: Seq<char>, start: nat, n: nat)
    requires
        stale_run_ends_at(header, name, start, n),
    ensures
        stale_run(header, name, start) == n,
{
    let m = stale_run(header, name, start);
    assert(stale_run_ends_at(header, name, start, m));
    if m < n {
        assert(is_stale(header, name, start + m));
    } else if m > n {
        assert(is_stale(header, name, start + n));
    }
}

/// A numbered cookie named in the header has a numeral shorter than the
/// header, so its number is below `10^len`.
pub proof fn lemma_stale_bound(header: Seq<char>, name: Seq<char>, k: nat)
    requires
        is_stale(header, name, k),
    ensures
        k < pow(10, header.len()),
{
    let p = (name + dec(k)).push('=');
    let i = choose|i: int| occurs_at(header, p, i);
    assert(occurs_at(header, p, i));
    lemma_dec_facts(k);
    assert(dec(k).len() <= header.len());
    vstd::arithmetic::power::lemma_pow_increases(10, dec(k).len(), header.len());
}

/// Appends removals of the numbered cookies `name{start}`, `name{start+1}`,
/// ... for as long as the header holds them.
pub(crate) fn push_stale_removals(
    actions: &mut Vec<CookieAction>,
    header: &Vec<char>,
    name: &Vec<char>,
    start: Vec<char>,
    Ghost(start_n): Ghost<nat>,
)
    requires
        start@ == dec(start_n),
    ensures
        ops_view(final(actions)@) == ops_view(old(actions)@) + stale_removals(
            header@,
            name@,
            start_n,
        ),
{
    let mut digits = start;
    let ghost mut k: nat = start_n;
    let ghost base = ops_view(actions@);
    let ghost limit = pow(10, header@.len());
    loop
        invariant
            limit == pow(10, header@.len()),
            k >= start_n,
            digits@ == dec(k),
            forall|j: nat| j < k - start_n ==> #[trigger] is_stale(header@, name@, start_n + j),
            ops_view(actions@) == base + Seq::new(
                (k - start_n) as nat,
                |j: int| CookieOp::Remove { name: name@ + dec((start_n + j) as nat) },
            ),
        ensures
            k >= start_n,
            stale_run_ends_at(header@, name@, start_n, (k - start_n) as nat),
            ops_view(actions@) == base + Seq::new(
                (k - start_n) as nat,
                |j: int| CookieOp::Remove { name: name@ + dec((start_n + j) as nat) },
            ),
        decreases limit - k,
    {
        let mut cookie_name = copy_chars(name);
        push_all(&mut cookie_name, &digits);
        let mut pattern = copy_chars(&cookie_name);
        pattern.push('=');
        if !contains(header, &pattern) {
            assert(start_n + (k - start_n) == k);
            break;
        }
        proof {
            lemma_stale_bound(header@, name@, k);
            assert(k < limit);
        }
        let ghost old_actions = actions@;
        let ghost run = Seq::new(
            (k - start_n) as nat,
            |j: int| CookieOp::Remove { name: name@ + dec((start_n + j) as nat) },
        );
        let s = string_of(&cookie_name);
        actions.push(CookieAction::Remove { name: s });
        increment_numeral(&mut digits, Ghost(k));
        proof {
            assert(actions@ == old_actions.push(CookieAction::Remove { name: s }));
            assert(ops_view(actions@) == ops_view(old_actions).push(
                CookieOp::Remove { name: name@ + dec(k) },
            ));
            let next = Seq::new(
                (k + 1 - start_n) as nat,
                |j: int| CookieOp::Remove { name: name@ + dec((start_n + j) as nat) },
            );
            assert(next =~= run.push(CookieOp::Remove { name: name@ + dec(k) }));
            assert forall|j: nat| j < k + 1 - start_n implies #[trigger] is_stale(
                header@,
                name@,
                start_n + j,
            ) by {
                if j == k - start_n {
                    assert(start_n + j == k);
                }
            }
            k = k + 1;
        }
    }
    proof {
        lemma_stale_run_unique(header@, name@, start_n, (k - start_n) as nat);
        assert(Seq::new(
            (k - start_n) as nat,
            |j: int| CookieOp::Remove { name: name@ + dec((start_n + j) as nat) },
        ) =~= stale_removals(header@, name@, start_n));
    }
}

/// Appends the sets of the numbered cookies of list `name`, one per group,
/// and returns the numeral of the number of groups.
pub fn push_numbered_sets(
    actions: &mut Vec<CookieAction>,
    name: &Vec<char>,
    groups: &Vec<Vec<char>>,
) -> (count: Vec<char>)
    ensures
        ops_view(final(actions)@) == ops_view(old(actions)@) + numbered_sets(
            name@,
            views(groups@),
        ),
        count@ == dec(groups@.len()),
{
    let ghost base = ops_view(actions@);
    let mut digits: Vec<char> = Vec::new();
    digits.push('0');
    assert(digits@ == dec(0));
    let mut i: usize = 0;
    while i < groups.len()
        invariant
            i <= groups.len(),
            digits@ == dec(i as nat),
            ops_view(actions@) == base + numbered_sets(name@, views(groups@).take(i as int)),
        decreases groups.len() - i,
    {
        let cookie_name = if i == 0 {
            copy_chars(name)
        } else {
            let mut n = copy_chars(name);
            push_all(&mut n, &digits);
            n
        };
        let ghost old_actions = actions@;
        let a = insert_action(&cookie_name, &groups[i]);
        actions.push(a);
        increment_numeral(&mut digits, Ghost(i as nat));
        proof {
            assert(actions@ == old_actions.push(a));
            assert(ops_view(actions@) == ops_view(old_actions).push(a@));
            assert(numbered_sets(name@, views(groups@).take(i + 1)) =~= numbered_sets(
                name@,
                views(groups@).take(i as int),
            ).push(a@));
        }
        i = i + 1;
    }
    assert(views(groups@).take(groups.len() as int) =~= views(groups@));
    digits
}

} // verus!

verus! {

/// Walks forward from `n` to the first number the header does not hold.
proof fn lemma_find_run_end(header: Seq<char>, name: Seq<char>, start: nat, n: nat, bound: nat)
    requires
        forall|j: nat| j < n ==> #[trigger] is_stale(header, name, start + j),
        !is_stale(header, name, start + bound),
        n <= bound,
    ensures
        stale_run_ends_at(header, name, start, stale_run(header, name, start)),
    decreases bound - n,
{
    if is_stale(header, name, start + n) {
        assert forall|j: nat| j < n + 1 implies #[trigger] is_stale(header, name, start + j) by {
            if j == n {
            }
        }
        lemma_find_run_end(header, name, start, n + 1, bound);
    } else {
        lemma_stale_run_unique(header, name, start, n);
    }
}

/// The run of numbered cookies in a header always ends: a numeral longer
/// than the header cannot occur in it.
pub proof fn lemma_stale_run_ends(header: Seq<char>, name: Seq<char>, start: nat)
    ensures
        stale_run_ends_at(header, name, start, stale_run(header, name, start)),
{
    let bound = pow(10, header.len()) as nat;
    vstd::arithmetic::power::lemma_pow_positive(10, header.len());
    if is_stale(header, name, start + bound) {
        lemma_stale_bound(header, name, start + bound);
    }
    lemma_find_run_end(header, name, start, 0, bound);
}

/// Only numbered cookies that the header holds are removed, and the
/// removals stop at the first number the header lacks.
pub proof fn lemma_removals_were_sent(header: Seq<char>, name: Seq<char>, start: nat)
    ensures
        forall|j: int|
            0 <= j < stale_removals(header, name, start).len() ==> contains_seq(
                header,
                (#[trigger] stale_removals(header, name, start)[j])->Remove_name.push('='),
            ),
        !contains_seq(
            header,
            (name + dec(start + stale_removals(header, name, start).len())).push('='),
        ),
{
    lemma_stale_run_ends(header, name, start);
    let n = stale_run(header, name, start);
    assert forall|j: int| 0 <= j < stale_removals(header, name, start).len() implies contains_seq(
        header,
        (#[trigger] stale_removals(header, name, start)[j])->Remove_name.push('='),
    ) by {
        let jn = j as nat;
        assert(is_stale(header, name, start + jn));
    }
}

/// Distinct parts of a list go to distinct cookies.
pub proof fn lemma_numbered_names_distinct(name: Seq<char>, i: nat, k: nat)
    requires
        i != k,
    ensures
        numbered_name(name, i) != numbered_name(name, k),
{
    crate::decimal::lemma_dec_facts(i);
    crate::decimal::lemma_dec_facts(k);
    if i != 0 && k != 0 {
        if name + dec(i) == name + dec(k) {
            assert(dec(i) =~= (name + dec(i)).skip(name.len() as int));
            assert(dec(k) =~= (name + dec(k)).skip(name.len() as int));
            crate::decimal::lemma_dec_injective(i, k);
        }
    } else if i == 0 {
        assert((name + dec(k)).len() > name.len());
    } else {
        assert((name + dec(i)).len() > name.len());
    }
}

/// A list's cookie sets and its removals of older numbered cookies never
/// name the same cookie: the parts written are `0..n`, the removals start
/// at `n`.
pub proof fn lemma_sets_and_removals_disjoint(
    header: Seq<char>,
    name: Seq<char>,
    groups: Seq<Seq<char>>,
)
    requires
        groups.len() >= 1,
    ensures
        forall|i: int, j: int|
            0 <= i < groups.len() && 0 <= j < stale_removals(header, name, groups.len()).len()
                ==> (#[trigger] numbered_sets(name, groups)[i])->Insert_name != (
            #[trigger] stale_removals(header, name, groups.len())[j])->Remove_name,
{
    assert forall|i: int, j: int|
        0 <= i < groups.len() && 0 <= j < stale_removals(header, name, groups.len()).len()
        implies (#[trigger] numbered_sets(name, groups)[i])->Insert_name != (
        #[trigger] stale_removals(header, name, groups.len())[j])->Remove_name by {
        let k = (groups.len() + j) as nat;
        lemma_numbered_names_distinct(name, i as nat, k);
        assert(numbered_name(name, k) == name + dec(k));
    }
}

} // verus!

verus! {

/// At one position of the header at most one numbered cookie of a list
/// starts: the numeral ends at the `=` that follows it.
proof fn lemma_one_number_per_position(header: Seq<char>, name: Seq<char>, k1: nat, k2: nat, p: int)
    requires
        occurs_at(header, (name + dec(k1)).push('='), p),
        occurs_at(header, (name + dec(k2)).push('='), p),
    ensures
        k1 == k2,
{
    let d1 = dec(k1);
    let d2 = dec(k2);
    let p1 = (name + d1).push('=');
    let p2 = (name + d2).push('=');
    lemma_dec_facts(k1);
    lemma_dec_facts(k2);
    let n = name.len() as int;
    assert forall|i: int| 0 <= i < p1.len() implies header[p + i] == #[trigger] p1[i] by {
        assert(header.subrange(p, p + p1.len())[i] == header[p + i]);
    }
    assert forall|i: int| 0 <= i < p2.len() implies header[p + i] == #[trigger] p2[i] by {
        assert(header.subrange(p, p + p2.len())[i] == header[p + i]);
    }
    if d1.len() < d2.len() {
        assert(p1[n + d1.len()] == '=');
        assert(p2[n + d1.len()] == d2[d1.len() as int]);
        assert(crate::decimal::is_digit(d2[d1.len() as int]));
    } else if d2.len() < d1.len() {
        assert(p2[n + d2.len()] == '=');
        assert(p1[n + d2.len()] == d1[d2.len() as int]);
        assert(crate::decimal::is_digit(d1[d2.len() as int]));
    } else {
        assert forall|i: int| 0 <= i < d1.len() implies d1[i] == d2[i] by {
            assert(p1[n + i] == d1[i]);
            assert(p2[n + i] == d2[i]);
        }
        assert(d1 =~= d2);
        crate::decimal::lemma_dec_injective(k1, k2);
    }
}

/// A list's leftover numbered cookies that get removed are no more than
/// the header's length: each was found at its own place in the header.
pub proof fn lemma_removals_bounded(header: Seq<char>, name: Seq<char>, start: nat)
    ensures
        stale_removals(header, name, start).len() <= header.len(),
{
    lemma_stale_run_ends(header, name, start);
    let n = stale_run(header, name, start);
    let pat = |j: int| (name + dec((start + j) as nat)).push('=');
    let pos = Seq::new(n, |j: int| choose|p: int| #[trigger] occurs_at(header, pat(j), p));
    assert forall|j: int| 0 <= j < n implies occurs_at(header, pat(j), #[trigger] pos[j]) by {
        let jn = j as nat;
        assert(is_stale(header, name, start + jn));
        assert(pat(j) == (name + dec(start + jn)).push('='));
    }
    assert(pos.no_duplicates()) by {
        assert forall|a: int, b: int| 0 <= a < pos.len() && 0 <= b < pos.len() && a != b implies pos[a]
            != pos[b] by {
            if pos[a] == pos[b] {
                lemma_one_number_per_position(
                    header,
                    name,
                    (start + a) as nat,
                    (start + b) as nat,
                    pos[a],
                );
            }
        }
    }
    pos.unique_seq_to_set();
    vstd::set_lib::lemma_int_range(0, header.len() as int);
    assert forall|p: int| pos.to_set().contains(p) implies vstd::set_lib::set_int_range(
        0,
        header.len() as int,
    ).contains(p) by {
        let j = choose|j: int| 0 <= j < pos.len() && pos[j] == p;
        assert(occurs_at(header, pat(j), pos[j]));
    }
    vstd::set_lib::lemma_len_subset(pos.to_set(), vstd::set_lib::set_int_range(0, header.len() as int));
}

} // verus!

verus! {

/// The header carries cookie `name{k}` somewhere: `name`, the numeral of
/// `k` and `=` stand together at some position.
pub open spec fn header_sends(header: Seq<char>, name: Seq<char>, k: nat) -> bool {
    exists|i: int|
        0 <= i && i + name.len() + dec(k).len() + 1 <= header.len() && #[trigger] header.subrange(
            i,
            i + name.len() + dec(k).len() + 1,
        ) == (name + dec(k)).push('=')
}

/// Every numbered cookie the header carries in an unbroken run from
/// `start` is removed, in order, wherever in the header it stands.
pub proof fn lemma_sent_numbered_cookies_are_removed(
    header: Seq<char>,
    name: Seq<char>,
    start: nat,
    n: nat,
)
    requires
        forall|j: nat| j < n ==> #[trigger] header_sends(header, name, start + j),
    ensures
        stale_removals(header, name, start).len() >= n,
        forall|j: int|
            0 <= j < n ==> #[trigger] stale_removals(header, name, start)[j] == (CookieOp::Remove {
                name: name + dec((start + j) as nat),
            }),
{
    assert forall|j: nat| j < n implies #[trigger] is_stale(header, name, start + j) by {
        assert(header_sends(header, name, start + j));
        let k = (start + j) as nat;
        let i = choose|i: int|
            0 <= i && i + name.len() + dec(k).len() + 1 <= header.len() && #[trigger] header.subrange(
                i,
                i + name.len() + dec(k).len() + 1,
            ) == (name + dec(k)).push('=');
        assert(occurs_at(header, (name + dec(k)).push('='), i));
    }
    lemma_stale_run_ends(header, name, start);
    let m = stale_run(header, name, start);
    if m < n {
        assert(is_stale(header, name, start + m));
    }
}

} // verus!
