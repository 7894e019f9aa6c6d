//! What the settings endpoints do with a request: the preference cookies
//! they set or remove, the numbered subscription and filter cookies, and
//! where they redirect.

use vstd::prelude::*;
use crate::text::{chars_of, string_of, replace, replace_all, split, split_on};
use crate::form::{
    form_pairs, pairs_view, chars_pairs_view, parse_form, pairs_to_chars, lookup_last,
    form_lookup, lemma_form_lookup_is_last_pair,
};
use crate::chunks::{join_chars_until_size_limit, size_limited_groups, views};
use crate::cookies::{
    CookieAction, CookieOp, insert_op, insert_action, ops_view, numbered_sets, stale_removals, push_numbered_sets,
    push_stale_removals,
};
use crate::decimal::dec;

verus! {

/// The names of the preferences kept in cookies, in the order they are
/// written.
pub open spec fn pref_names() -> Seq<Seq<char>> {
    seq![
        "theme"@,
        "front_page"@,
        "layout"@,
        "wide"@,
        "comment_sort"@,
        "post_sort"@,
        "blur_spoiler"@,
        "show_nsfw"@,
        "blur_nsfw"@,
        "use_hls"@,
        "hide_hls_notification"@,
        "autoplay_videos"@,
        "hide_sidebar_and_summary"@,
        "fixed_navbar"@,
        "hide_awards"@,
        "hide_score"@,
        "disable_visit_reddit_confirmation"@,
        "video_quality"@,
        "remove_default_feeds"@,
        "geo_filter"@,
    ]
}

/// The names of the preferences kept in cookies.
pub fn prefs() -> (names: Vec<&'static str>)
    ensures
        names@.map_values(|s: &str| s@) == pref_names(),
{
    let names: Vec<&'static str> = vec![
        "theme",
        "front_page",
        "layout",
        "wide",
        "comment_sort",
        "post_sort",
        "blur_spoiler",
        "show_nsfw",
        "blur_nsfw",
        "use_hls",
        "hide_hls_notification",
        "autoplay_videos",
        "hide_sidebar_and_summary",
        "fixed_navbar",
        "hide_awards",
        "hide_score",
        "disable_visit_reddit_confirmation",
        "video_quality",
        "remove_default_feeds",
        "geo_filter",
    ];
    assert(names@.map_values(|s: &str| s@) =~= pref_names());
    names
}

/// The change for one preference: set it to the form's value, or, when
/// the form lacks it, remove it if `remove_missing`.
pub open spec fn pref_op(form: Seq<(Seq<char>, Seq<char>)>, name: Seq<char>, remove_missing: bool) -> Seq<
    CookieOp,
> {
    match form_lookup(form, name) {
        Some(v) => seq![insert_op(name, v)],
        None => if remove_missing {
            seq![CookieOp::Remove { name: name }]
        } else {
            seq![]
        },
    }
}

/// The changes for the preferences `names`, in order.
pub open spec fn pref_ops(
    form: Seq<(Seq<char>, Seq<char>)>,
    names: Seq<Seq<char>>,
    remove_missing: bool,
) -> Seq<CookieOp>
    decreases names.len(),
{
    if names.len() == 0 {
        seq![]
    } else {
        pref_ops(form, names.drop_last(), remove_missing) + pref_op(
            form,
            names.last(),
            remove_missing,
        )
    }
}

/// The changes for list `name` (`subscriptions` or `filters`): when the
/// form has it, its `+`-separated items packed into numbered cookies, then
/// removal of the older numbered cookies the header still holds past them;
/// when it lacks it and `remove_missing`, removal of the bare cookie and of
/// the numbered ones from 1 on.
pub open spec fn list_ops(
    form: Seq<(Seq<char>, Seq<char>)>,
    header: Seq<char>,
    name: Seq<char>,
    remove_missing: bool,
) -> Seq<CookieOp> {
    match form_lookup(form, name) {
        Some(v) => {
            let groups = size_limited_groups(split_on(v, '+'));
            numbered_sets(name, groups) + stale_removals(header, name, groups.len())
        },
        None => if remove_missing {
            seq![CookieOp::Remove { name: name }] + stale_removals(header, name, 1)
        } else {
            seq![]
        },
    }
}

/// Where a restore or update redirects: the `redirect` value with `%26`
/// turned into `&` and then `%23` into `#`, made absolute with a leading
/// `/`; the site root when there is no such value.
pub open spec fn redirect_location(value: Option<Seq<char>>) -> Seq<char> {
    match value {
        None => seq!['/'],
        Some(v) => {
            let r = replace_all(
                replace_all(v, seq!['%', '2', '6'], seq!['&']),
                seq!['%', '2', '3'],
                seq!['#'],
            );
            if r.len() > 0 && r[0] == '/' {
                r
            } else {
                seq!['/'] + r
            }
        },
    }
}

/// All cookie changes of a restore (`remove_missing`) or update.
pub open spec fn plan_ops(
    form: Seq<(Seq<char>, Seq<char>)>,
    header: Seq<char>,
    remove_missing: bool,
) -> Seq<CookieOp> {
    pref_ops(form, pref_names(), remove_missing) + list_ops(
        form,
        header,
        "subscriptions"@,
        remove_missing,
    ) + list_ops(form, header, "filters"@, remove_missing)
}

/// A redirect response and the cookie changes that go with it, in the
/// order they are made.
#[derive(Debug, PartialEq, Eq)]
pub struct CookiePlan {
    pub location: String,
    pub actions: Vec<CookieAction>,
}

/// Appends the change for each preference in `names`.
fn push_pref_actions(
    actions: &mut Vec<CookieAction>,
    form: &Vec<(Vec<char>, Vec<char>)>,
    names: &Vec<&'static str>,
    remove_missing: bool,
)
    ensures
        ops_view(final(actions)@) == ops_view(old(actions)@) + pref_ops(
            chars_pairs_view(form@),
            names@.map_values(|s: &str| s@),
            remove_missing,
        ),
{
    let ghost base = ops_view(actions@);
    let ghost all = names@.map_values(|s: &str| s@);
    let ghost f = chars_pairs_view(form@);
    let mut i: usize = 0;
    while i < names.len()
        invariant
            i <= names.len(),
            all == names@.map_values(|s: &str| s@),
            f == chars_pairs_view(form@),
            ops_view(actions@) == base + pref_ops(f, all.take(i as int), remove_missing),
        decreases names.len() - i,
    {
        let ghost old_actions = actions@;
        let name = chars_of(names[i]);
        assert(all.take(i + 1).drop_last() == all.take(i as int));
        assert(all.take(i + 1).last() == name@);
        match lookup_last(form, &name) {
            Some(v) => {
                let a = insert_action(&name, v);
                actions.push(a);
                assert(actions@ == old_actions.push(a));
                assert(ops_view(actions@) =~= ops_view(old_actions) + seq![a@]);
            },
            None => {
                if remove_missing {
                    let a = CookieAction::Remove { name: string_of(&name) };
                    actions.push(a);
                    assert(actions@ == old_actions.push(a));
                    assert(ops_view(actions@) =~= ops_view(old_actions) + seq![a@]);
                } else {
                    assert(ops_view(actions@) =~= ops_view(old_actions) + Seq::<CookieOp>::empty());
                }
            },
        }
        i = i + 1;
    }
    assert(all.take(names.len() as int) =~= all);
}

/// Appends the changes for list `name`.
fn push_list_actions(
    actions: &mut Vec<CookieAction>,
    form: &Vec<(Vec<char>, Vec<char>)>,
    header: &Vec<char>,
    name: &Vec<char>,
    remove_missing: bool,
)
    ensures
        ops_view(final(actions)@) == ops_view(old(actions)@) + list_ops(
            chars_pairs_view(form@),
            header@,
            name@,
            remove_missing,
        ),
{
    let ghost base = ops_view(actions@);
    match lookup_last(form, name) {
        Some(v) => {
            let items = split(v, '+');
            assert(views(items@) =~= split_on(v@, '+'));
            let groups = join_chars_until_size_limit(&items);
            let count = push_numbered_sets(actions, name, &groups);
            push_stale_removals(actions, header, name, count, Ghost(groups@.len()));
        },
        None => {
            if remove_missing {
                let ghost old_actions = actions@;
                let a = CookieAction::Remove { name: string_of(name) };
                actions.push(a);
                assert(actions@ == old_actions.push(a));
                assert(ops_view(actions@) =~= ops_view(old_actions) + seq![a@]);
                let mut one: Vec<char> = Vec::new();
                one.push('1');
                assert(one@ == dec(1));
                push_stale_removals(actions, header, name, one, Ghost(1));
            }
        },
    }
}

/// The `redirect` value made into a location.
fn redirect_path(value: Option<&Vec<char>>) -> (location: Vec<char>)
    ensures
        location@ == redirect_location(
            match value {
                Some(v) => Some(v@),
                None => None,
            },
        ),
{
    match value {
        None => {
            let mut root: Vec<char> = Vec::new();
            root.push('/');
            assert(root@ == seq!['/']);
            root
        },
        Some(v) => {
            let amp_code: Vec<char> = vec!['%', '2', '6'];
            let amp: Vec<char> = vec!['&'];
            let hash_code: Vec<char> = vec!['%', '2', '3'];
            let hash: Vec<char> = vec!['#'];
            assert(amp_code@ == seq!['%', '2', '6']);
            assert(amp@ == seq!['&']);
            assert(hash_code@ == seq!['%', '2', '3']);
            assert(hash@ == seq!['#']);
            let once = replace(v, &amp_code, &amp);
            let r = replace(&once, &hash_code, &hash);
            if r.len() > 0 && r[0] == '/' {
                r
            } else {
                let mut out: Vec<char> = Vec::new();
                out.push('/');
                crate::text::push_all(&mut out, &r);
                assert(out@ =~= seq!['/'] + r@);
                out
            }
        },
    }
}

/// The redirect and cookie changes for a form of settings: each
/// preference the form names is set and, with `remove_cookies`, each one
/// it lacks is removed; the `subscriptions` and `filters` lists are spread
/// over numbered cookies, and numbered cookies left over from a longer list
/// are removed.
pub fn set_cookies_method(
    form: &Vec<(String, String)>,
    cookies_string: &str,
    remove_cookies: bool,
) -> (plan: CookiePlan)
    ensures
        plan.location@ == redirect_location(form_lookup(pairs_view(form@), "redirect"@)),
        ops_view(plan.actions@) == plan_ops(pairs_view(form@), cookies_string@, remove_cookies),
{
    let pairs = pairs_to_chars(form);
    let header = chars_of(cookies_string);
    let redirect_name = chars_of("redirect");
    let location = redirect_path(lookup_last(&pairs, &redirect_name));
    let mut actions: Vec<CookieAction> = Vec::new();
    let names = prefs();
    push_pref_actions(&mut actions, &pairs, &names, remove_cookies);
    let subscriptions = chars_of("subscriptions");
    push_list_actions(&mut actions, &pairs, &header, &subscriptions, remove_cookies);
    let filters = chars_of("filters");
    push_list_actions(&mut actions, &pairs, &header, &filters, remove_cookies);
    assert(ops_view(actions@) =~= plan_ops(pairs_view(form@), cookies_string@, remove_cookies));
    CookiePlan { location: string_of(&location), actions }
}

/// Restores settings from a query string: every preference cookie is set
/// from the query or removed, and so are the subscription and filter lists.
pub fn restore(query: &[u8], cookies_string: &str) -> (plan: CookiePlan)
    ensures
        plan.location@ == redirect_location(form_lookup(form_pairs(query@), "redirect"@)),
        ops_view(plan.actions@) == plan_ops(form_pairs(query@), cookies_string@, true),
{
    let form = parse_form(query);
    set_cookies_method(&form, cookies_string, true)
}

/// Updates settings from a query string: only what the query names is
/// set; nothing is removed but numbered list cookies left over past a new
/// list.
pub fn update(query: &[u8], cookies_string: &str) -> (plan: CookiePlan)
    ensures
        plan.location@ == redirect_location(form_lookup(form_pairs(query@), "redirect"@)),
        ops_view(plan.actions@) == plan_ops(form_pairs(query@), cookies_string@, false),
{
    let form = parse_form(query);
    set_cookies_method(&form, cookies_string, false)
}

/// Saves the settings form posted in `body`: each preference is set to
/// the posted value or removed when absent; then back to `/settings`.
pub fn set(body: &[u8]) -> (plan: CookiePlan)
    ensures
        plan.location@ == "/settings"@,
        ops_view(plan.actions@) == pref_ops(form_pairs(body@), pref_names(), true),
{
    let form = parse_form(body);
    let pairs = pairs_to_chars(&form);
    let mut actions: Vec<CookieAction> = Vec::new();
    let names = prefs();
    push_pref_actions(&mut actions, &pairs, &names, true);
    assert(ops_view(actions@) =~= pref_ops(form_pairs(body@), pref_names(), true));
    CookiePlan { location: String::from_str("/settings"), actions }
}

} // verus!

verus! {

/// Every redirect of a restore or update stays on this site: the location
/// always starts with `/`.
pub proof fn lemma_location_is_absolute(value: Option<Seq<char>>)
    ensures
        redirect_location(value).len() > 0,
        redirect_location(value)[0] == '/',
{
}

/// The insertions among some changes, in order.
pub open spec fn inserts(ops: Seq<CookieOp>) -> Seq<CookieOp>
    decreases ops.len(),
{
    if ops.len() == 0 {
        seq![]
    } else if ops.last() is Insert {
        inserts(ops.drop_last()).push(ops.last())
    } else {
        inserts(ops.drop_last())
    }
}

/// Insertions distribute over concatenation.
pub proof fn lemma_inserts_concat(a: Seq<CookieOp>, b: Seq<CookieOp>)
    ensures
        inserts(a + b) == inserts(a) + inserts(b),
    decreases b.len(),
{
    if b.len() == 0 {
        assert(a + b == a);
        assert(inserts(a) + inserts(b) == inserts(a));
    } else {
        lemma_inserts_concat(a, b.drop_last());
        assert((a + b).drop_last() == a + b.drop_last());
        assert((a + b).last() == b.last());
        if b.last() is Insert {
            assert(inserts(a) + inserts(b.drop_last()).push(b.last()) == (inserts(a) + inserts(
                b.drop_last(),
            )).push(b.last()));
        }
    }
}

/// Removals alone hold no insertion.
proof fn lemma_inserts_of_removals(ops: Seq<CookieOp>)
    requires
        forall|i: int| 0 <= i < ops.len() ==> (#[trigger] ops[i]) is Remove,
    ensures
        inserts(ops) == Seq::<CookieOp>::empty(),
    decreases ops.len(),
{
    if ops.len() > 0 {
        assert(ops.last() == ops[ops.len() - 1]);
        lemma_inserts_of_removals(ops.drop_last());
    }
}

/// Insertions alone are all kept.
proof fn lemma_inserts_of_insertions(ops: Seq<CookieOp>)
    requires
        forall|i: int| 0 <= i < ops.len() ==> (#[trigger] ops[i]) is Insert,
    ensures
        inserts(ops) == ops,
    decreases ops.len(),
{
    if ops.len() > 0 {
        assert(ops.last() == ops[ops.len() - 1]);
        lemma_inserts_of_insertions(ops.drop_last());
        assert(ops.drop_last().push(ops.last()) == ops);
    }
}

/// Preferences insert the same values whether missing ones are removed or
/// not, and without removal nothing but insertions is made.
proof fn lemma_pref_ops_inserts(form: Seq<(Seq<char>, Seq<char>)>, names: Seq<Seq<char>>)
    ensures
        inserts(pref_ops(form, names, true)) == pref_ops(form, names, false),
        forall|i: int|
            0 <= i < pref_ops(form, names, false).len() ==> (#[trigger] pref_ops(
                form,
                names,
                false,
            )[i]) is Insert,
    decreases names.len(),
{
    if names.len() > 0 {
        lemma_pref_ops_inserts(form, names.drop_last());
        let a = pref_ops(form, names.drop_last(), true);
        let t = pref_op(form, names.last(), true);
        let f = pref_op(form, names.last(), false);
        lemma_inserts_concat(a, t);
        match form_lookup(form, names.last()) {
            Some(v) => {
                lemma_inserts_of_insertions(t);
            },
            None => {
                lemma_inserts_of_removals(t);
            },
        }
        let pf = pref_ops(form, names.drop_last(), false);
        assert forall|i: int| 0 <= i < pref_ops(form, names, false).len() implies (
        #[trigger] pref_ops(form, names, false)[i]) is Insert by {
            if i < pf.len() {
                assert(pref_ops(form, names, false)[i] == pf[i]);
            }
        }
    }
}

/// The removals of older numbered cookies are all removals.
proof fn lemma_stale_removals_remove(header: Seq<char>, name: Seq<char>, start: nat)
    ensures
        forall|i: int|
            0 <= i < stale_removals(header, name, start).len() ==> (#[trigger] stale_removals(
                header,
                name,
                start,
            )[i]) is Remove,
{
}

/// A list inserts the same cookies whether missing lists are removed or not.
proof fn lemma_list_ops_inserts(
    form: Seq<(Seq<char>, Seq<char>)>,
    header: Seq<char>,
    name: Seq<char>,
)
    ensures
        inserts(list_ops(form, header, name, true)) == inserts(list_ops(form, header, name, false)),
{
    match form_lookup(form, name) {
        Some(v) => {},
        None => {
            let r = seq![CookieOp::Remove { name: name }] + stale_removals(header, name, 1);
            lemma_stale_removals_remove(header, name, 1);
            assert forall|i: int| 0 <= i < r.len() implies (#[trigger] r[i]) is Remove by {
                if i > 0 {
                    assert(r[i] == stale_removals(header, name, 1)[i - 1]);
                }
            }
            lemma_inserts_of_removals(r);
            assert(inserts(Seq::<CookieOp>::empty()) == Seq::<CookieOp>::empty());
        },
    }
}

/// A restore and an update of the same query insert the same cookies with
/// the same values, in the same order; they differ only in removals.
pub proof fn lemma_restore_and_update_insert_alike(form: Seq<(Seq<char>, Seq<char>)>, header: Seq<
    char,
>)
    ensures
        inserts(plan_ops(form, header, true)) == inserts(plan_ops(form, header, false)),
{
    let p = pref_ops(form, pref_names(), true);
    let q = pref_ops(form, pref_names(), false);
    let s_t = list_ops(form, header, "subscriptions"@, true);
    let s_f = list_ops(form, header, "subscriptions"@, false);
    let f_t = list_ops(form, header, "filters"@, true);
    let f_f = list_ops(form, header, "filters"@, false);
    lemma_pref_ops_inserts(form, pref_names());
    lemma_inserts_of_insertions(q);
    lemma_list_ops_inserts(form, header, "subscriptions"@);
    lemma_list_ops_inserts(form, header, "filters"@);
    lemma_inserts_concat(p + s_t, f_t);
    lemma_inserts_concat(p, s_t);
    lemma_inserts_concat(q + s_f, f_f);
    lemma_inserts_concat(q, s_f);
}

/// A removal an update makes is of a numbered list cookie (`name1`,
/// `name2`, ...): an update never removes a preference or a list's first
/// cookie.
pub open spec fn is_numbered_list_removal(op: CookieOp) -> bool {
    exists|k: nat|
        k >= 1 && (op->Remove_name == "subscriptions"@ + dec(k) || op->Remove_name == "filters"@
            + dec(k))
}

/// What an update removes, a list cookie of a given name.
proof fn lemma_update_list_removals(
    form: Seq<(Seq<char>, Seq<char>)>,
    header: Seq<char>,
    name: Seq<char>,
)
    ensures
        forall|i: int|
            0 <= i < list_ops(form, header, name, false).len() && (#[trigger] list_ops(
                form,
                header,
                name,
                false,
            )[i]) is Remove ==> exists|k: nat|
                k >= 1 && list_ops(form, header, name, false)[i]->Remove_name == name + dec(k),
{
    match form_lookup(form, name) {
        Some(v) => {
            let groups = size_limited_groups(split_on(v, '+'));
            let sets = numbered_sets(name, groups);
            let rem = stale_removals(header, name, groups.len());
            let ops = list_ops(form, header, name, false);
            assert(ops == sets + rem);
            assert forall|i: int| 0 <= i < ops.len() && (#[trigger] ops[i]) is Remove implies exists|
                k: nat,
            | k >= 1 && ops[i]->Remove_name == name + dec(k) by {
                if i >= sets.len() {
                    let k = (groups.len() + (i - sets.len())) as nat;
                    assert(ops[i] == rem[i - sets.len()]);
                    assert(ops[i]->Remove_name == name + dec(k));
                } else {
                    assert(ops[i] == sets[i]);
                }
            }
        },
        None => {},
    }
}

/// An update (which keeps cookies its query does not name) removes only
/// numbered list cookies left over from a longer list.
pub proof fn lemma_update_removes_only_numbered(form: Seq<(Seq<char>, Seq<char>)>, header: Seq<
    char,
>)
    ensures
        forall|i: int|
            0 <= i < plan_ops(form, header, false).len() && (#[trigger] plan_ops(
                form,
                header,
                false,
            )[i]) is Remove ==> is_numbered_list_removal(plan_ops(form, header, false)[i]),
{
    let q = pref_ops(form, pref_names(), false);
    let s = list_ops(form, header, "subscriptions"@, false);
    let f = list_ops(form, header, "filters"@, false);
    let ops = plan_ops(form, header, false);
    lemma_pref_ops_inserts(form, pref_names());
    lemma_update_list_removals(form, header, "subscriptions"@);
    lemma_update_list_removals(form, header, "filters"@);
    assert(ops == q + s + f);
    assert forall|i: int| 0 <= i < ops.len() && (#[trigger] ops[i]) is Remove implies is_numbered_list_removal(ops[i]) by {
        if i < q.len() {
            assert(ops[i] == q[i]);
        } else if i < q.len() + s.len() {
            assert(ops[i] == s[i - q.len()]);
            let k = choose|k: nat| k >= 1 && s[i - q.len()]->Remove_name == "subscriptions"@ + dec(k);
            assert(k >= 1 && ops[i]->Remove_name == "subscriptions"@ + dec(k));
        } else {
            assert(ops[i] == f[i - q.len() - s.len()]);
            let k = choose|k: nat| k >= 1 && f[i - q.len() - s.len()]->Remove_name == "filters"@ + dec(k);
            assert(k >= 1 && ops[i]->Remove_name == "filters"@ + dec(k));
        }
    }
}

} // verus!

verus! {

/// The cookie a change is about.
pub open spec fn op_name(op: CookieOp) -> Seq<char> {
    match op {
        CookieOp::Insert { name, .. } => name,
        CookieOp::Remove { name } => name,
    }
}

/// `p` is a prefix of `s`.
pub open spec fn has_prefix(s: Seq<char>, p: Seq<char>) -> bool {
    p.len() <= s.len() && s.take(p.len() as int) == p
}

/// A preference change inserts exactly when the form has the preference.
proof fn lemma_pref_ops_names(
    form: Seq<(Seq<char>, Seq<char>)>,
    names: Seq<Seq<char>>,
    remove_missing: bool,
)
    ensures
        forall|i: int|
            0 <= i < pref_ops(form, names, remove_missing).len() ==> {
                let op = #[trigger] pref_ops(form, names, remove_missing)[i];
                &&& names.contains(op_name(op))
                &&& (op is Insert <==> form_lookup(form, op_name(op)) is Some)
            },
    decreases names.len(),
{
    if names.len() > 0 {
        lemma_pref_ops_names(form, names.drop_last(), remove_missing);
        let a = pref_ops(form, names.drop_last(), remove_missing);
        let t = pref_op(form, names.last(), remove_missing);
        assert forall|i: int| 0 <= i < pref_ops(form, names, remove_missing).len() implies {
            let op = #[trigger] pref_ops(form, names, remove_missing)[i];
            &&& names.contains(op_name(op))
            &&& (op is Insert <==> form_lookup(form, op_name(op)) is Some)
        } by {
            let op = pref_ops(form, names, remove_missing)[i];
            if i < a.len() {
                assert(op == a[i]);
                let k = choose|k: int| 0 <= k < names.drop_last().len() && names.drop_last()[k] == op_name(op);
                assert(names[k] == op_name(op));
            } else {
                assert(op == t[i - a.len()]);
                assert(names[names.len() - 1] == op_name(op));
            }
        }
    }
}

/// Every change of list `name` is about a cookie whose name starts with `name`.
proof fn lemma_list_ops_prefix(
    form: Seq<(Seq<char>, Seq<char>)>,
    header: Seq<char>,
    name: Seq<char>,
    remove_missing: bool,
)
    ensures
        forall|i: int|
            0 <= i < list_ops(form, header, name, remove_missing).len() ==> has_prefix(
                op_name(#[trigger] list_ops(form, header, name, remove_missing)[i]),
                name,
            ),
{
    let ops = list_ops(form, header, name, remove_missing);
    assert forall|i: int| 0 <= i < ops.len() implies has_prefix(op_name(#[trigger] ops[i]), name) by {
        match form_lookup(form, name) {
            Some(v) => {
                let groups = size_limited_groups(split_on(v, '+'));
                let sets = numbered_sets(name, groups);
                let rem = stale_removals(header, name, groups.len());
                if i < sets.len() {
                    assert(ops[i] == sets[i]);
                    let n = op_name(ops[i]);
                    if i == 0 {
                        assert(n.take(name.len() as int) =~= name);
                    } else {
                        assert(n == name + dec(i as nat));
                        assert(n.take(name.len() as int) =~= name);
                    }
                } else {
                    assert(ops[i] == rem[i - sets.len()]);
                    let n = op_name(ops[i]);
                    assert(n.take(name.len() as int) =~= name);
                }
            },
            None => {
                let rem = stale_removals(header, name, 1);
                if i == 0 {
                    assert(op_name(ops[i]).take(name.len() as int) =~= name);
                } else {
                    assert(ops[i] == rem[i - 1]);
                    assert(op_name(ops[i]).take(name.len() as int) =~= name);
                }
            },
        }
    }
}

/// A list never inserts and removes the same cookie.
proof fn lemma_list_ops_disjoint(
    form: Seq<(Seq<char>, Seq<char>)>,
    header: Seq<char>,
    name: Seq<char>,
    remove_missing: bool,
)
    ensures
        forall|i: int, j: int|
            0 <= i < list_ops(form, header, name, remove_missing).len() && 0 <= j < list_ops(
                form,
                header,
                name,
                remove_missing,
            ).len() && (#[trigger] list_ops(form, header, name, remove_missing)[i]) is Insert && (
            #[trigger] list_ops(form, header, name, remove_missing)[j]) is Remove ==> op_name(
                list_ops(form, header, name, remove_missing)[i],
            ) != op_name(list_ops(form, header, name, remove_missing)[j]),
{
    let ops = list_ops(form, header, name, remove_missing);
    match form_lookup(form, name) {
        Some(v) => {
            let groups = size_limited_groups(split_on(v, '+'));
            let sets = numbered_sets(name, groups);
            let rem = stale_removals(header, name, groups.len());
            crate::cookies::lemma_sets_and_removals_disjoint(header, name, groups);
            assert forall|i: int, j: int|
                0 <= i < ops.len() && 0 <= j < ops.len() && (#[trigger] ops[i]) is Insert && (
                #[trigger] ops[j]) is Remove implies op_name(ops[i]) != op_name(ops[j]) by {
                if i >= sets.len() {
                    assert(ops[i] == rem[i - sets.len()]);
                }
                if j < sets.len() {
                    assert(ops[j] == sets[j]);
                }
                assert(ops[i] == sets[i]);
                assert(ops[j] == rem[j - sets.len()]);
            }
        },
        None => {
            assert forall|i: int, j: int|
                0 <= i < ops.len() && 0 <= j < ops.len() && (#[trigger] ops[i]) is Insert && (
                #[trigger] ops[j]) is Remove implies op_name(ops[i]) != op_name(ops[j]) by {
                if i > 0 {
                    assert(ops[i] == stale_removals(header, name, 1)[i - 1]);
                }
            }
        },
    }
}

/// No preference name starts with `subscriptions` or `filters`, and those
/// two differ in their first character.
proof fn lemma_names_apart()
    ensures
        forall|k: int|
            0 <= k < pref_names().len() ==> !has_prefix(#[trigger] pref_names()[k], "subscriptions"@)
                && !has_prefix(pref_names()[k], "filters"@),
        "subscriptions"@[0] != "filters"@[0],
        "subscriptions"@.len() > 0 && "filters"@.len() > 0,
{
    reveal_strlit("subscriptions");
    reveal_strlit("filters");
    reveal_strlit("theme");
    reveal_strlit("front_page");
    reveal_strlit("layout");
    reveal_strlit("wide");
    reveal_strlit("comment_sort");
    reveal_strlit("post_sort");
    reveal_strlit("blur_spoiler");
    reveal_strlit("show_nsfw");
    reveal_strlit("blur_nsfw");
    reveal_strlit("use_hls");
    reveal_strlit("hide_hls_notification");
    reveal_strlit("autoplay_videos");
    reveal_strlit("hide_sidebar_and_summary");
    reveal_strlit("fixed_navbar");
    reveal_strlit("hide_awards");
    reveal_strlit("hide_score");
    reveal_strlit("disable_visit_reddit_confirmation");
    reveal_strlit("video_quality");
    reveal_strlit("remove_default_feeds");
    reveal_strlit("geo_filter");
    assert forall|k: int| 0 <= k < pref_names().len() implies !has_prefix(
        #[trigger] pref_names()[k],
        "subscriptions"@,
    ) && !has_prefix(pref_names()[k], "filters"@) by {
        let n = pref_names()[k];
        if has_prefix(n, "subscriptions"@) {
            assert(n.take(13)[0] == n[0] && n.take(13)[1] == n[1]);
        }
        if has_prefix(n, "filters"@) {
            assert(n.take(7)[0] == n[0] && n.take(7)[1] == n[1] && n.take(7)[2] == n[2]);
        }
    }
}

/// One restore or update never both inserts and removes the same cookie.
pub proof fn lemma_plan_never_inserts_and_removes(
    form: Seq<(Seq<char>, Seq<char>)>,
    header: Seq<char>,
    remove_missing: bool,
)
    ensures
        forall|i: int, j: int|
            0 <= i < plan_ops(form, header, remove_missing).len() && 0 <= j < plan_ops(
                form,
                header,
                remove_missing,
            ).len() && (#[trigger] plan_ops(form, header, remove_missing)[i]) is Insert && (
            #[trigger] plan_ops(form, header, remove_missing)[j]) is Remove ==> op_name(
                plan_ops(form, header, remove_missing)[i],
            ) != op_name(plan_ops(form, header, remove_missing)[j]),
{
    let sub = "subscriptions"@;
    let fil = "filters"@;
    let p = pref_ops(form, pref_names(), remove_missing);
    let s = list_ops(form, header, sub, remove_missing);
    let f = list_ops(form, header, fil, remove_missing);
    let ops = plan_ops(form, header, remove_missing);
    assert(ops == p + s + f);
    lemma_pref_ops_names(form, pref_names(), remove_missing);
    lemma_list_ops_prefix(form, header, sub, remove_missing);
    lemma_list_ops_prefix(form, header, fil, remove_missing);
    lemma_list_ops_disjoint(form, header, sub, remove_missing);
    lemma_list_ops_disjoint(form, header, fil, remove_missing);
    lemma_names_apart();
    // Which segment each change comes from, and what that says of its name.
    assert forall|x: int| 0 <= x < ops.len() implies {
        &&& x < p.len() ==> ops[x] == p[x] && pref_names().contains(op_name(ops[x]))
        &&& p.len() <= x < p.len() + s.len() ==> ops[x] == s[x - p.len()] && has_prefix(
            op_name(ops[x]),
            sub,
        )
        &&& p.len() + s.len() <= x ==> ops[x] == f[x - p.len() - s.len()] && has_prefix(
            op_name(ops[x]),
            fil,
        )
    } by {
        if x < p.len() {
            assert(ops[x] == p[x]);
        } else if x < p.len() + s.len() {
            assert(ops[x] == s[x - p.len()]);
        } else {
            assert(ops[x] == f[x - p.len() - s.len()]);
        }
    }
    assert forall|i: int, j: int|
        0 <= i < ops.len() && 0 <= j < ops.len() && (#[trigger] ops[i]) is Insert && (
        #[trigger] ops[j]) is Remove implies op_name(ops[i]) != op_name(ops[j]) by {
        let ni = op_name(ops[i]);
        let nj = op_name(ops[j]);
        if ni == nj {
            if i < p.len() && j < p.len() {
                assert(ops[i] == p[i] && ops[j] == p[j]);
            } else if i < p.len() || j < p.len() {
                let n = if i < p.len() { ni } else { nj };
                let k = choose|k: int| 0 <= k < pref_names().len() && pref_names()[k] == n;
                assert(!has_prefix(pref_names()[k], sub) && !has_prefix(pref_names()[k], fil));
            } else {
                let si = i < p.len() + s.len();
                let sj = j < p.len() + s.len();
                if si && sj {
                    assert(s[i - p.len()] is Insert && s[j - p.len()] is Remove);
                } else if !si && !sj {
                    assert(f[i - p.len() - s.len()] is Insert && f[j - p.len() - s.len()] is Remove);
                } else {
                    assert(ni.take(sub.len() as int)[0] == ni[0]);
                    assert(ni.take(fil.len() as int)[0] == ni[0]);
                }
            }
        }
    }
}

} // verus!

verus! {

/// `f` lists, in increasing order, positions of `b` holding the items of `a`.
pub open spec fn embeds(a: Seq<CookieOp>, b: Seq<CookieOp>, f: Seq<int>) -> bool {
    &&& f.len() == a.len()
    &&& forall|i: int| 0 <= i < f.len() ==> 0 <= #[trigger] f[i] < b.len() && b[f[i]] == a[i]
    &&& forall|i: int, j: int| 0 <= i < j < f.len() ==> #[trigger] f[i] < #[trigger] f[j]
}

/// `a` is `b` with some changes left out, the rest in the same order.
pub open spec fn is_subsequence(a: Seq<CookieOp>, b: Seq<CookieOp>) -> bool {
    exists|f: Seq<int>| embeds(a, b, f)
}

/// Every sequence is part of itself, and nothing is part of anything.
proof fn lemma_subsequence_trivial(b: Seq<CookieOp>)
    ensures
        is_subsequence(b, b),
        is_subsequence(Seq::<CookieOp>::empty(), b),
{
    let id = Seq::new(b.len(), |i: int| i);
    assert(embeds(b, b, id));
    assert(embeds(Seq::<CookieOp>::empty(), b, Seq::<int>::empty()));
}

/// Parts of two sequences, put together, are part of the two put together.
proof fn lemma_subsequence_concat(
    a1: Seq<CookieOp>,
    b1: Seq<CookieOp>,
    a2: Seq<CookieOp>,
    b2: Seq<CookieOp>,
)
    requires
        is_subsequence(a1, b1),
        is_subsequence(a2, b2),
    ensures
        is_subsequence(a1 + a2, b1 + b2),
{
    let f1 = choose|f: Seq<int>| embeds(a1, b1, f);
    let f2 = choose|f: Seq<int>| embeds(a2, b2, f);
    let g = f1 + f2.map_values(|x: int| x + b1.len());
    assert forall|i: int| 0 <= i < g.len() implies 0 <= #[trigger] g[i] < (b1 + b2).len() && (b1
        + b2)[g[i]] == (a1 + a2)[i] by {
        if i < f1.len() {
            assert(g[i] == f1[i]);
        } else {
            assert(g[i] == f2[i - f1.len()] + b1.len());
        }
    }
    assert forall|i: int, j: int| 0 <= i < j < g.len() implies #[trigger] g[i] < #[trigger] g[j] by {
        if j < f1.len() {
            assert(g[i] == f1[i] && g[j] == f1[j]);
        } else if i < f1.len() {
            assert(g[i] == f1[i]);
            assert(g[j] == f2[j - f1.len()] + b1.len());
        } else {
            assert(g[i] == f2[i - f1.len()] + b1.len());
            assert(g[j] == f2[j - f1.len()] + b1.len());
        }
    }
    assert(embeds(a1 + a2, b1 + b2, g));
}

/// Without removal, the preference changes are part of those with removal.
proof fn lemma_pref_ops_subsequence(form: Seq<(Seq<char>, Seq<char>)>, names: Seq<Seq<char>>)
    ensures
        is_subsequence(pref_ops(form, names, false), pref_ops(form, names, true)),
    decreases names.len(),
{
    if names.len() == 0 {
        lemma_subsequence_trivial(Seq::<CookieOp>::empty());
    } else {
        lemma_pref_ops_subsequence(form, names.drop_last());
        let t = pref_op(form, names.last(), true);
        lemma_subsequence_trivial(t);
        lemma_subsequence_concat(
            pref_ops(form, names.drop_last(), false),
            pref_ops(form, names.drop_last(), true),
            pref_op(form, names.last(), false),
            t,
        );
    }
}

/// An update makes, in the same order, a part of the changes a restore of
/// the same query makes (and redirects to the same place, since the
/// location does not depend on removal): it leaves out only removals.
pub proof fn lemma_update_is_part_of_restore(form: Seq<(Seq<char>, Seq<char>)>, header: Seq<char>)
    ensures
        is_subsequence(plan_ops(form, header, false), plan_ops(form, header, true)),
{
    lemma_pref_ops_subsequence(form, pref_names());
    let sub = "subscriptions"@;
    let fil = "filters"@;
    lemma_subsequence_trivial(list_ops(form, header, sub, true));
    lemma_subsequence_trivial(list_ops(form, header, fil, true));
    lemma_subsequence_concat(
        pref_ops(form, pref_names(), false),
        pref_ops(form, pref_names(), true),
        list_ops(form, header, sub, false),
        list_ops(form, header, sub, true),
    );
    lemma_subsequence_concat(
        pref_ops(form, pref_names(), false) + list_ops(form, header, sub, false),
        pref_ops(form, pref_names(), true) + list_ops(form, header, sub, true),
        list_ops(form, header, fil, false),
        list_ops(form, header, fil, true),
    );
}

} // verus!

verus! {

/// With removal, the changes for `names` are one per name, in order.
proof fn lemma_pref_ops_one_per_name(form: Seq<(Seq<char>, Seq<char>)>, names: Seq<Seq<char>>)
    ensures
        pref_ops(form, names, true).len() == names.len(),
        forall|k: int|
            0 <= k < names.len() ==> #[trigger] pref_ops(form, names, true)[k] == pref_op(
                form,
                names[k],
                true,
            )[0],
    decreases names.len(),
{
    if names.len() > 0 {
        let rest = names.drop_last();
        lemma_pref_ops_one_per_name(form, rest);
        assert forall|k: int| 0 <= k < names.len() implies #[trigger] pref_ops(form, names, true)[k]
            == pref_op(form, names[k], true)[0] by {
            if k < rest.len() {
                assert(names[k] == rest[k]);
            }
        }
    }
}

/// Without removal, every name the form holds gets its insertion.
proof fn lemma_pref_ops_insert_present(form: Seq<(Seq<char>, Seq<char>)>, names: Seq<Seq<char>>)
    ensures
        forall|k: int|
            0 <= k < names.len() && (#[trigger] form_lookup(form, names[k])) is Some ==> pref_ops(
                form,
                names,
                false,
            ).contains(insert_op(names[k], form_lookup(form, names[k])->0)),
    decreases names.len(),
{
    if names.len() > 0 {
        let rest = names.drop_last();
        lemma_pref_ops_insert_present(form, rest);
        let a = pref_ops(form, rest, false);
        let t = pref_op(form, names.last(), false);
        assert forall|k: int|
            0 <= k < names.len() && (#[trigger] form_lookup(form, names[k])) is Some implies pref_ops(
            form,
            names,
            false,
        ).contains(insert_op(names[k], form_lookup(form, names[k])->0)) by {
            let v = form_lookup(form, names[k])->0;
            if k < rest.len() {
                assert(names[k] == rest[k]);
                assert(form_lookup(form, rest[k]) is Some);
                let i = choose|i: int| 0 <= i < a.len() && a[i] == insert_op(rest[k], v);
                assert((a + t)[i] == a[i]);
            } else {
                assert((a + t)[a.len() as int] == t[0]);
            }
        }
    }
}

/// A settings cookie with this name and value: path `/`, `HttpOnly`,
/// expiring 52 weeks ahead.
pub open spec fn settings_cookie(name: Seq<char>, value: Seq<char>) -> CookieOp {
    CookieOp::Insert {
        name: name,
        value: value,
        path: seq!['/'],
        http_only: true,
        expires_in_weeks: 52,
    }
}

/// A restore writes all 20 preferences first, in order, one change each:
/// the value of the last pair that names the preference (an empty value
/// too) as a settings cookie, or a removal when no pair names it.
pub proof fn lemma_restore_writes_every_preference(
    form: Seq<(Seq<char>, Seq<char>)>,
    header: Seq<char>,
)
    ensures
        plan_ops(form, header, true).len() >= 20,
        forall|k: int|
            0 <= k < 20 && (forall|j: int| 0 <= j < form.len() ==> form[j].0 != pref_names()[k])
                ==> #[trigger] plan_ops(form, header, true)[k] == (CookieOp::Remove {
                name: pref_names()[k],
            }),
        forall|k: int, j: int|
            0 <= k < 20 && 0 <= j < form.len() && (#[trigger] form[j]).0 == pref_names()[k] && (
            forall|m: int| j < m < form.len() ==> form[m].0 != pref_names()[k]) ==> #[trigger] plan_ops(
                form,
                header,
                true,
            )[k] == settings_cookie(pref_names()[k], form[j].1),
{
    lemma_pref_ops_one_per_name(form, pref_names());
    let p = pref_ops(form, pref_names(), true);
    let ops = plan_ops(form, header, true);
    assert forall|k: int| 0 <= k < 20 implies #[trigger] ops[k] == p[k] by {}
    assert forall|k: int|
        0 <= k < 20 && (forall|j: int| 0 <= j < form.len() ==> form[j].0 != pref_names()[k])
        implies #[trigger] ops[k] == (CookieOp::Remove { name: pref_names()[k] }) by {
        lemma_form_lookup_is_last_pair(form, pref_names()[k]);
        assert(ops[k] == p[k]);
    }
    assert forall|k: int, j: int|
        0 <= k < 20 && 0 <= j < form.len() && (#[trigger] form[j]).0 == pref_names()[k] && (forall|
            m: int,
        | j < m < form.len() ==> form[m].0 != pref_names()[k]) implies #[trigger] ops[k]
        == settings_cookie(pref_names()[k], form[j].1) by {
        lemma_form_lookup_is_last_pair(form, pref_names()[k]);
        assert(ops[k] == p[k]);
    }
}

/// An update writes every preference the query names, with the value of
/// the last pair naming it (an empty value too), as a settings cookie.
pub proof fn lemma_update_writes_named_preferences(
    form: Seq<(Seq<char>, Seq<char>)>,
    header: Seq<char>,
)
    ensures
        forall|k: int, j: int|
            0 <= k < 20 && 0 <= j < form.len() && (#[trigger] form[j]).0 == #[trigger] pref_names()[k]
                && (forall|m: int| j < m < form.len() ==> form[m].0 != pref_names()[k]) ==> plan_ops(
                form,
                header,
                false,
            ).contains(settings_cookie(pref_names()[k], form[j].1)),
{
    lemma_pref_ops_insert_present(form, pref_names());
    let q = pref_ops(form, pref_names(), false);
    let ops = plan_ops(form, header, false);
    assert forall|k: int, j: int|
        0 <= k < 20 && 0 <= j < form.len() && (#[trigger] form[j]).0 == #[trigger] pref_names()[k]
            && (forall|m: int| j < m < form.len() ==> form[m].0 != pref_names()[k]) implies ops.contains(
        settings_cookie(pref_names()[k], form[j].1),
    ) by {
        lemma_form_lookup_is_last_pair(form, pref_names()[k]);
        assert(form_lookup(form, pref_names()[k]) == Some(form[j].1));
        let i = choose|i: int| 0 <= i < q.len() && q[i] == insert_op(pref_names()[k], form[j].1);
        assert(ops[i] == q[i]);
    }
}

} // verus!

verus! {

/// No three characters of `s` in a row spell `a`, `b`, `c`.
pub open spec fn lacks_code(s: Seq<char>, a: char, b: char, c: char) -> bool {
    forall|i: int| 0 <= i && i + 3 <= s.len() ==> #[trigger] s.subrange(i, i + 3) != seq![a, b, c]
}

/// A sequence without an occurrence of a three-character code lacks it.
proof fn lemma_lacks_code(s: Seq<char>, code: Seq<char>)
    requires
        code.len() == 3,
        !crate::text::contains_seq(s, code),
    ensures
        lacks_code(s, code[0], code[1], code[2]),
{
    assert(seq![code[0], code[1], code[2]] =~= code);
    assert forall|i: int| 0 <= i && i + 3 <= s.len() implies #[trigger] s.subrange(i, i + 3) != seq![
        code[0],
        code[1],
        code[2],
    ] by {
        assert(!crate::text::occurs_at(s, code, i));
    }
}

/// A restore or update redirects to a location that starts with `/` and in
/// which every `%26` and `%23` of the `redirect` value has been decoded:
/// neither code is left, whatever the value, `/`-prefixed or not.
pub proof fn lemma_redirect_decodes_escapes(v: Seq<char>)
    ensures
        redirect_location(Some(v)).len() > 0,
        redirect_location(Some(v))[0] == '/',
        lacks_code(redirect_location(Some(v)), '%', '2', '6'),
        lacks_code(redirect_location(Some(v)), '%', '2', '3'),
{
    let amp_code = seq!['%', '2', '6'];
    let hash_code = seq!['%', '2', '3'];
    let once = replace_all(v, amp_code, seq!['&']);
    let r = replace_all(once, hash_code, seq!['#']);
    crate::text::lemma_replace_removes_pattern(v, amp_code, seq!['&']);
    crate::text::lemma_replace_keeps_absent(once, hash_code, seq!['#'], amp_code);
    crate::text::lemma_replace_removes_pattern(once, hash_code, seq!['#']);
    let loc = redirect_location(Some(v));
    if !(r.len() > 0 && r[0] == '/') {
        assert(loc == seq!['/'] + r);
        assert forall|code: Seq<char>|
            code.len() == 3 && code[0] == '%' && !crate::text::contains_seq(r, code) implies !crate::text::contains_seq(
            seq!['/'] + r,
            code,
        ) by {
            assert forall|x: int| !crate::text::occurs_at(seq!['/'] + r, code, x) by {
                if crate::text::occurs_at(seq!['/'] + r, code, x) {
                    if x == 0 {
                        assert((seq!['/'] + r).subrange(0, 3)[0] == '/');
                    } else {
                        assert((seq!['/'] + r).subrange(x, x + 3) =~= r.subrange(x - 1, x + 2));
                        assert(crate::text::occurs_at(r, code, x - 1));
                    }
                }
            }
        }
    }
    lemma_lacks_code(loc, amp_code);
    lemma_lacks_code(loc, hash_code);
}

/// A `redirect` value without `%` is kept as it is, made absolute with a
/// leading `/` when it lacks one.
pub proof fn lemma_redirect_keeps_plain_values(v: Seq<char>)
    requires
        forall|i: int| 0 <= i < v.len() ==> v[i] != '%',
    ensures
        redirect_location(Some(v)) == (if v.len() > 0 && v[0] == '/' {
            v
        } else {
            seq!['/'] + v
        }),
{
    crate::text::lemma_replace_without_pattern(v, seq!['%', '2', '6'], seq!['&']);
    crate::text::lemma_replace_without_pattern(v, seq!['%', '2', '3'], seq!['#']);
}

} // verus!
