use contractor::client::{config_presence, page_listing, DefaultGiteaClient, HookMethod, HookRequest};
use contractor::reconcile::{
    collect_enabled, collect_hook_results, combine_pages, discovery_targets, filter_repositories,
    hook_targets, keep_matched, merge_discovered, partition_hook_results, unique_repositories,
    HookScope, ListingTarget, ReconcileError, ReconcileSummary,
};
use contractor::repository::{GiteaRepository, Repository};
use contractor::webhook::{owned_hook, GiteaWebhook, GiteaWebhookType};

fn repo(owner: &str, name: &str) -> Repository {
    Repository::new(owner.to_string(), name.to_string())
}

fn listed(names: &[&str]) -> Vec<GiteaRepository> {
    names.iter().map(|n| GiteaRepository::new(n.to_string())).collect()
}

/// A stand-in for the hosting service: listings, configuration files, hooks.
struct Host {
    user: Vec<&'static str>,
    orgs: Vec<(&'static str, Vec<&'static str>)>,
    with_config: Vec<&'static str>,
    hooks: Vec<(&'static str, GiteaWebhook)>,
}

impl Host {
    fn list(&self, target: &ListingTarget) -> Result<Vec<Repository>, String> {
        let names = match target {
            ListingTarget::User(_) => self.user.clone(),
            ListingTarget::Org(o) => self
                .orgs
                .iter()
                .find(|(name, _)| name == o)
                .map(|(_, r)| r.clone())
                .ok_or_else(|| format!("no org {o}"))?,
        };
        let (first, pages) = page_listing(1, None, listed(&names)).map_err(|e| format!("{e:?}"))?;
        assert!(pages.is_empty());
        combine_pages::<String>(first, Vec::new())
    }

    fn probe(&self, r: &Repository) -> Result<bool, String> {
        let status = if self.with_config.contains(&r.full_name().as_str()) { 200 } else { 404 };
        config_presence(status).ok_or_else(|| "probe failed".to_string())
    }

    fn hooks_of(&self, r: &Repository) -> Vec<GiteaWebhook> {
        self.hooks
            .iter()
            .filter(|(name, _)| *name == r.full_name())
            .map(|(_, h)| h.clone())
            .collect()
    }
}

/// Runs one pass against the stand-in and returns the requests made.
fn run_pass(
    host: &Host,
    user: Option<&str>,
    orgs: Option<Vec<&str>>,
    filter: Option<&str>,
    force_refresh: bool,
    scope: HookScope,
) -> (Vec<Repository>, Vec<(Repository, HookRequest)>) {
    let client = DefaultGiteaClient::new("https://h".to_string(), "t".to_string());
    let targets = discovery_targets(
        user.map(|u| u.to_string()),
        orgs.map(|o| o.into_iter().map(|s| s.to_string()).collect()),
    );
    let lists = targets.iter().map(|t| host.list(t)).collect();
    let repos = merge_discovered(lists).unwrap();
    let filtered = filter_repositories(repos, filter).unwrap();
    let probes = filtered.iter().map(|r| (r.clone(), host.probe(r))).collect();
    let enabled = collect_enabled(probes).unwrap();
    let mut requests = Vec::new();
    for r in hook_targets(filtered.clone(), enabled, scope) {
        let existing = owned_hook(host.hooks_of(&r));
        if let Some(req) = client.hook_request(&r, existing.as_ref(), force_refresh) {
            requests.push((r, req));
        }
    }
    (filtered, requests)
}

fn count(requests: &[(Repository, HookRequest)], r: &Repository, m: HookMethod) -> usize {
    requests.iter().filter(|(x, q)| x == r && q.method == m).count()
}

#[test]
fn scenario_user_and_org_create_hooks_where_config_is_present() {
    let host = Host {
        user: vec!["a/r1", "a/r2"],
        orgs: vec![("b", vec!["b/r3"])],
        with_config: vec!["a/r1", "b/r3"],
        hooks: vec![],
    };
    let (_, requests) = run_pass(&host, Some("a"), Some(vec!["b"]), None, false, HookScope::ConfigEnabled);
    assert_eq!(count(&requests, &repo("a", "r1"), HookMethod::Post), 1);
    assert_eq!(count(&requests, &repo("b", "r3"), HookMethod::Post), 1);
    assert_eq!(count(&requests, &repo("a", "r2"), HookMethod::Post), 0);
    assert_eq!(requests.len(), 2);
    assert!(requests.iter().all(|(_, q)| q.method == HookMethod::Post));
}

#[test]
fn scenario_refresh_updates_the_existing_hook_once() {
    let host = Host {
        user: vec![],
        orgs: vec![("c", vec!["c/r4"])],
        with_config: vec!["c/r4"],
        hooks: vec![(
            "c/r4",
            GiteaWebhook::new(31, GiteaWebhookType::Gitea, "https://url?type=contractor".to_string()),
        )],
    };
    let (_, requests) = run_pass(&host, None, Some(vec!["c"]), None, true, HookScope::ConfigEnabled);
    assert_eq!(requests.len(), 1);
    assert_eq!(requests[0].1.method, HookMethod::Patch);
    assert_eq!(requests[0].1.url, "https://h/api/v1/repos/c/r4/hooks/31");
    assert_eq!(count(&requests, &repo("c", "r4"), HookMethod::Post), 0);
}

#[test]
fn scenario_filter_keeps_only_matching_owner() {
    let host = Host {
        user: vec!["a/r1", "b/r2"],
        orgs: vec![],
        with_config: vec!["a/r1", "b/r2"],
        hooks: vec![],
    };
    let (filtered, requests) = run_pass(&host, Some("me"), None, Some("^a/"), false, HookScope::AllFiltered);
    assert_eq!(filtered, vec![repo("a", "r1")]);
    assert_eq!(requests.len(), 1);
    assert_eq!(requests[0].0, repo("a", "r1"));
}

#[test]
fn second_pass_after_create_skips() {
    let host = Host {
        user: vec!["a/r1"],
        orgs: vec![],
        with_config: vec!["a/r1"],
        hooks: vec![(
            "a/r1",
            GiteaWebhook::new(1, GiteaWebhookType::Gitea, "https://url?type=contractor".to_string()),
        )],
    };
    let (_, requests) = run_pass(&host, Some("a"), None, None, false, HookScope::AllFiltered);
    assert!(requests.is_empty());
}

#[test]
fn hooks_for_all_filtered_repositories() {
    let host = Host {
        user: vec!["a/r1", "a/r2"],
        orgs: vec![],
        with_config: vec!["a/r1"],
        hooks: vec![],
    };
    let (_, requests) = run_pass(&host, Some("a"), None, None, false, HookScope::AllFiltered);
    assert_eq!(requests.len(), 2);
}

#[test]
fn dedup_keeps_first_occurrences() {
    let repos = vec![repo("a", "r1"), repo("b", "r3"), repo("a", "r1"), repo("a", "r2"), repo("b", "r3")];
    let once = unique_repositories(repos);
    assert_eq!(once, vec![repo("a", "r1"), repo("b", "r3"), repo("a", "r2")]);
    let twice = unique_repositories(once.clone());
    assert_eq!(twice, once);
}

#[test]
fn dedup_same_set_whatever_the_order() {
    let a = unique_repositories(vec![repo("a", "r1"), repo("a", "r2"), repo("b", "r3"), repo("a", "r1")]);
    let b = unique_repositories(vec![repo("b", "r3"), repo("a", "r1"), repo("b", "r3"), repo("a", "r2")]);
    let mut sa: Vec<String> = a.iter().map(|r| r.full_name()).collect();
    let mut sb: Vec<String> = b.iter().map(|r| r.full_name()).collect();
    sa.sort();
    sb.sort();
    assert_eq!(sa, sb);
    assert_eq!(a.len(), 3);
}

#[test]
fn dedup_tells_owner_and_name_apart() {
    let repos = vec![repo("a", "b/c"), repo("a/b", "c")];
    assert_eq!(unique_repositories(repos).len(), 2);
    assert!(unique_repositories(Vec::new()).is_empty());
}

#[test]
fn filter_matches_full_name() {
    let repos = vec![repo("a", "r1"), repo("b", "r2"), repo("ab", "r3")];
    assert_eq!(filter_repositories(repos.clone(), Some("^a/")).unwrap(), vec![repo("a", "r1")]);
    assert_eq!(filter_repositories(repos.clone(), Some("r[23]$")).unwrap(), vec![repo("b", "r2"), repo("ab", "r3")]);
    assert_eq!(filter_repositories(repos.clone(), Some("b/")).unwrap(), vec![repo("b", "r2"), repo("ab", "r3")]);
    assert_eq!(filter_repositories(repos.clone(), None).unwrap(), repos);
    assert!(filter_repositories(repos, Some("^zzz")).unwrap().is_empty());
}

#[test]
fn invalid_filter_is_an_error_even_with_no_repositories() {
    assert_eq!(
        filter_repositories(Vec::new(), Some("(")),
        Err(ReconcileError::InvalidFilter("(".to_string()))
    );
    assert!(filter_repositories(vec![repo("a", "r1")], Some("[a-")).is_err());
}

#[test]
fn pages_are_joined_or_fail_on_first_error() {
    let joined = combine_pages::<String>(
        vec![repo("a", "1")],
        vec![Ok(vec![repo("a", "2")]), Ok(vec![]), Ok(vec![repo("a", "3"), repo("a", "4")])],
    );
    assert_eq!(joined.unwrap(), vec![repo("a", "1"), repo("a", "2"), repo("a", "3"), repo("a", "4")]);
    let failed = combine_pages(
        vec![repo("a", "1")],
        vec![Ok(vec![repo("a", "2")]), Err("page 3".to_string()), Err("page 4".to_string())],
    );
    assert_eq!(failed, Err("page 3".to_string()));
}

#[test]
fn discovery_merges_and_fails_fast() {
    let merged = merge_discovered::<String>(vec![
        Ok(vec![repo("a", "r1"), repo("a", "r2")]),
        Ok(vec![repo("a", "r1"), repo("b", "r3")]),
    ]);
    assert_eq!(merged.unwrap(), vec![repo("a", "r1"), repo("a", "r2"), repo("b", "r3")]);
    let failed = merge_discovered(vec![Ok(vec![repo("a", "r1")]), Err(7u16)]);
    assert_eq!(failed, Err(7));
}

#[test]
fn discovery_targets_user_first() {
    let t = discovery_targets(Some("me".to_string()), Some(vec!["b".to_string(), "c".to_string()]));
    assert_eq!(
        t,
        vec![
            ListingTarget::User("me".to_string()),
            ListingTarget::Org("b".to_string()),
            ListingTarget::Org("c".to_string()),
        ]
    );
    assert!(discovery_targets(None, None).is_empty());
    assert_eq!(discovery_targets(None, Some(vec!["o".to_string()])), vec![ListingTarget::Org("o".to_string())]);
}

#[test]
fn probes_keep_enabled_or_fail() {
    let ok = collect_enabled::<String>(vec![
        (repo("a", "r1"), Ok(true)),
        (repo("a", "r2"), Ok(false)),
        (repo("b", "r3"), Ok(true)),
    ]);
    assert_eq!(ok.unwrap(), vec![repo("a", "r1"), repo("b", "r3")]);
    let failed = collect_enabled(vec![
        (repo("a", "r1"), Ok(true)),
        (repo("a", "r2"), Err("boom")),
        (repo("b", "r3"), Err("later")),
    ]);
    assert_eq!(failed, Err("boom"));
}

#[test]
fn hook_results_counted() {
    assert_eq!(collect_hook_results::<String>(vec![Ok(true), Ok(false), Ok(true)]), Ok(2));
    assert_eq!(collect_hook_results::<String>(vec![]), Ok(0));
    assert_eq!(collect_hook_results(vec![Ok(true), Err("x"), Err("y")]), Err("x"));
}

#[test]
fn summary_holds_counts() {
    let s = ReconcileSummary::new(3, 2, 1, 1, 0);
    assert_eq!((s.discovered, s.filtered, s.enabled, s.hooks_changed, s.hooks_failed), (3, 2, 1, 1, 0));
    let scope = hook_targets(vec![repo("a", "1")], vec![], HookScope::ConfigEnabled);
    assert!(scope.is_empty());
}

#[test]
fn hook_results_kept_apart() {
    let (changed, errors) = partition_hook_results(vec![Ok(true), Err("x"), Ok(false), Err("y"), Ok(true)]);
    assert_eq!(changed, 2);
    assert_eq!(errors, vec!["x", "y"]);
    let (changed, errors) = partition_hook_results::<String>(vec![]);
    assert_eq!(changed, 0);
    assert!(errors.is_empty());
}

#[test]
fn keep_matched_follows_answers() {
    let repos = vec![repo("a", "r1"), repo("b", "r2"), repo("c", "r3")];
    assert_eq!(keep_matched(repos.clone(), &vec![true, false, true]), vec![repo("a", "r1"), repo("c", "r3")]);
    assert!(keep_matched(repos, &vec![false, false, false]).is_empty());
}
