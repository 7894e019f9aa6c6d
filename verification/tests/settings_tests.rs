use redlib::cookies::CookieAction;
use redlib::settings::{prefs, restore, set_cookies_method, update};

fn insert(name: &str, value: &str) -> CookieAction {
    CookieAction::Insert {
        name: name.to_string(),
        value: value.to_string(),
        path: "/".to_string(),
        http_only: true,
        expires_in_weeks: 52,
    }
}

fn remove(name: &str) -> CookieAction {
    CookieAction::Remove { name: name.to_string() }
}

const PREF_NAMES: [&str; 20] = [
    "theme",
    "front_page",
    "layout",
    "wide",
    "comment_sort",
    "post_sort",
    "blur_spoiler",
    "show_nsfw",
    "blur_nsfw",
    "use_hls",
    "hide_hls_notification",
    "autoplay_videos",
    "hide_sidebar_and_summary",
    "fixed_navbar",
    "hide_awards",
    "hide_score",
    "disable_visit_reddit_confirmation",
    "video_quality",
    "remove_default_feeds",
    "geo_filter",
];

#[test]
fn prefs_lists_the_twenty_cookie_preferences_in_order() {
    assert_eq!(prefs(), PREF_NAMES.to_vec());
}

#[test]
fn set_inserts_posted_preferences_and_removes_the_rest() {
    let plan = redlib::settings::set(b"theme=dark&layout=card&unknown=1");
    assert_eq!(plan.location, "/settings");
    assert_eq!(plan.actions.len(), 20);
    for (i, name) in PREF_NAMES.iter().enumerate() {
        let expected = match *name {
            "theme" => insert("theme", "dark"),
            "layout" => insert("layout", "card"),
            other => remove(other),
        };
        assert_eq!(plan.actions[i], expected);
    }
}

#[test]
fn set_takes_the_last_of_repeated_fields_and_decodes_values() {
    let plan = redlib::settings::set(b"theme=light&theme=dark+mode&wide=%6Fn");
    assert_eq!(plan.actions[0], insert("theme", "dark mode"));
    assert_eq!(plan.actions[3], insert("wide", "on"));
}

#[test]
fn restore_redirects_to_root_without_redirect_field() {
    let plan = restore(b"", "");
    assert_eq!(plan.location, "/");
    let mut expected: Vec<CookieAction> = PREF_NAMES.iter().map(|n| remove(n)).collect();
    expected.push(remove("subscriptions"));
    expected.push(remove("filters"));
    assert_eq!(plan.actions, expected);
}

#[test]
fn restore_prefixes_a_relative_redirect_and_decodes_escapes() {
    assert_eq!(restore(b"redirect=r/rust", "").location, "/r/rust");
    assert_eq!(restore(b"redirect=/r/rust", "").location, "/r/rust");
    assert_eq!(restore(b"redirect=a%2526b%2523c", "").location, "/a&b#c");
    assert_eq!(restore(b"redirect=", "").location, "/");
}

#[test]
fn restore_spreads_subscriptions_and_removes_leftover_numbered_cookies() {
    let header = "theme=dark; subscriptions=x; subscriptions1=y; subscriptions2=z; filters3=w";
    let plan = restore(b"subscriptions=rust%2Blinux&filters=news", header);
    let tail = &plan.actions[20..];
    assert_eq!(
        tail,
        &[
            insert("subscriptions", "rust+linux"),
            remove("subscriptions1"),
            remove("subscriptions2"),
            insert("filters", "news"),
        ][..]
    );
}

#[test]
fn restore_without_lists_removes_bare_and_numbered_list_cookies() {
    let header = "filters1=a; filters2=b; subscriptions2=c";
    let plan = restore(b"theme=dark", header);
    assert_eq!(plan.actions[0], insert("theme", "dark"));
    let tail = &plan.actions[20..];
    assert_eq!(
        tail,
        &[remove("subscriptions"), remove("filters"), remove("filters1"), remove("filters2")][..]
    );
}

#[test]
fn stale_numbered_cookies_are_counted_past_nine() {
    let mut header = String::new();
    for k in 1..=11 {
        header.push_str(&format!("subscriptions{k}=v; "));
    }
    let plan = restore(b"", &header);
    let tail = &plan.actions[20..];
    let mut expected = vec![remove("subscriptions")];
    for k in 1..=11 {
        expected.push(remove(&format!("subscriptions{k}")));
    }
    expected.push(remove("filters"));
    assert_eq!(tail, &expected[..]);
}

#[test]
fn update_only_touches_what_the_query_names() {
    let header = "subscriptions1=y";
    let plan = update(b"theme=dark&redirect=settings", header);
    assert_eq!(plan.location, "/settings");
    assert_eq!(plan.actions, vec![insert("theme", "dark")]);
    let plan = update(b"subscriptions=a", header);
    assert_eq!(plan.actions, vec![insert("subscriptions", "a"), remove("subscriptions1")]);
}

#[test]
fn restore_and_update_insert_the_same_cookies() {
    let query = b"theme=dark&subscriptions=a%2Bb&layout=compact";
    let header = "subscriptions1=x; filters1=y";
    let inserted = |actions: Vec<CookieAction>| -> Vec<CookieAction> {
        actions.into_iter().filter(|a| matches!(a, CookieAction::Insert { .. })).collect()
    };
    let r = restore(query, header);
    let u = update(query, header);
    assert_eq!(inserted(r.actions), inserted(u.actions));
}

#[test]
fn long_subscription_lists_go_to_numbered_cookies() {
    let item = "a".repeat(1000);
    let list = vec![item.clone(); 5].join("+");
    let form = vec![("subscriptions".to_string(), list.clone())];
    let plan = set_cookies_method(&form, "subscriptions2=old", false);
    let first = vec![item.clone(); 3].join("+");
    let second = vec![item.clone(); 2].join("+");
    assert_eq!(
        plan.actions,
        vec![
            insert("subscriptions", &first),
            insert("subscriptions1", &second),
            remove("subscriptions2"),
        ]
    );
    assert_eq!(format!("{first}+{second}"), list);
}

#[test]
fn no_cookie_is_both_inserted_and_removed() {
    let header = "subscriptions=a; subscriptions1=b; subscriptions2=c; filters1=d";
    for query in [&b"subscriptions=x&theme=dark"[..], b"filters=y", b"", b"subscriptions=&filters=z"] {
        for plan in [restore(query, header), update(query, header)] {
            let inserted: Vec<&String> = plan
                .actions
                .iter()
                .filter_map(|a| match a {
                    CookieAction::Insert { name, .. } => Some(name),
                    _ => None,
                })
                .collect();
            for a in &plan.actions {
                if let CookieAction::Remove { name } = a {
                    assert!(!inserted.contains(&name));
                }
            }
        }
    }
}

#[test]
fn update_changes_are_part_of_restore_changes_in_order() {
    let query = b"theme=dark&filters=a%2Bb&redirect=r/all";
    let header = "subscriptions1=x; filters1=y; filters2=z";
    let r = restore(query, header);
    let u = update(query, header);
    assert_eq!(r.location, u.location);
    let mut rest = r.actions.iter();
    for change in &u.actions {
        assert!(rest.any(|c| c == change));
    }
    assert!(u.actions.len() < r.actions.len());
}
