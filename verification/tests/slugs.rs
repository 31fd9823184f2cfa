use activity_stats::insights::build_clusters;
use activity_stats::slug::{cluster_key, prettify_slug};

#[test]
fn cluster_of_action_project() {
    assert_eq!(cluster_key("-Users-tea-Dropbox---apr-2026----ACTION-HEALTH"), "ACTION-HEALTH");
    assert_eq!(cluster_key("-Users-tea-ACTION-HEALTH---pohwer-x"), "ACTION-HEALTH");
}

#[test]
fn cluster_of_other_projects() {
    assert_eq!(cluster_key("-Users-tea-projects-myapp"), "Other");
    assert_eq!(cluster_key("-Users-tea-ACTION-"), "Other");
    assert_eq!(cluster_key("-Users-tea-ACTION--x"), "Other");
    assert_eq!(cluster_key(""), "Other");
}

#[test]
fn cluster_uses_first_marker() {
    assert_eq!(cluster_key("ACTION--ACTION-B"), "Other");
    assert_eq!(cluster_key("xACTION-Aa-ACTION-B"), "ACTION-Aa");
}

#[test]
fn display_name_of_action_project() {
    assert_eq!(prettify_slug("-Users-tea-Dropbox---apr-2026----ACTION-HEALTH"), "ACTION-HEALTH");
    assert_eq!(prettify_slug("-Users-ACTION-A---B--C"), "ACTION-A-B-C");
    assert_eq!(prettify_slug("ACTION-A----B"), "ACTION-A-B");
    assert_eq!(prettify_slug("ACTION-A-----B"), "ACTION-A--B");
}

#[test]
fn display_name_is_last_piece() {
    assert_eq!(prettify_slug("-Users-tea-projects-myapp"), "myapp");
    assert_eq!(prettify_slug("-Users-tea-myapp--"), "myapp");
    assert_eq!(prettify_slug("single"), "single");
}

#[test]
fn display_name_of_dashes() {
    assert_eq!(prettify_slug("---"), "");
    assert_eq!(prettify_slug(""), "");
}

#[test]
fn clusters_group_and_sort() {
    let projects = vec![
        ("x-ACTION-A".to_string(), 3u32),
        ("y-ACTION-A-z".to_string(), 2u32),
        ("plain".to_string(), 10u32),
        ("z-ACTION-B".to_string(), 1u32),
    ];
    let clusters = build_clusters(&projects);
    assert_eq!(clusters.len(), 3);
    assert_eq!(clusters[0].key, "Other");
    assert_eq!(clusters[0].project_count, 1);
    assert_eq!(clusters[0].message_count, 10);
    assert_eq!(clusters[1].key, "ACTION-A");
    assert_eq!(clusters[1].project_count, 2);
    assert_eq!(clusters[1].message_count, 5);
    assert_eq!(clusters[2].key, "ACTION-B");
    assert_eq!(clusters[2].project_count, 1);
    assert_eq!(clusters[2].message_count, 1);
}

#[test]
fn clusters_of_nothing() {
    assert!(build_clusters(&[]).is_empty());
}

#[test]
fn clusters_do_not_depend_on_order() {
    let projects = vec![
        ("x-ACTION-A".to_string(), 3u32),
        ("plain".to_string(), 10u32),
        ("y-ACTION-A-z".to_string(), 2u32),
        ("z-ACTION-B".to_string(), 1u32),
    ];
    let mut reversed = projects.clone();
    reversed.reverse();
    let key = |c: &activity_stats::insights::ClusterStat| (c.key.clone(), c.project_count, c.message_count);
    let mut a: Vec<_> = build_clusters(&projects).iter().map(key).collect();
    let mut b: Vec<_> = build_clusters(&reversed).iter().map(key).collect();
    a.sort();
    b.sort();
    assert_eq!(a, b);
}

#[test]
fn display_name_starts_with_cluster_key() {
    for slug in ["-Users-tea-Dropbox---apr-2026----ACTION-HEALTH", "-Users-tea-ACTION-HEALTH---pohwer-x", "ACTION-Aa--b"] {
        let key = cluster_key(slug);
        let name = prettify_slug(slug);
        assert!(name.starts_with(&key), "{slug}");
        assert!(name.len() == key.len() || name[key.len()..].starts_with('-'), "{slug}");
    }
    assert_eq!(prettify_slug("-Users-tea-ACTION-HEALTH---pohwer-x"), "ACTION-HEALTH-pohwer-x");
}
