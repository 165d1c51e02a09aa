use contractor::client::{DefaultGiteaClient, HookMethod};
use contractor::repository::Repository;
use contractor::webhook::{
    decide, desired_webhook, owned_hook, GiteaWebhook, GiteaWebhookType, ReconcileDecision,
};

fn hook(id: isize, kind: GiteaWebhookType, url: &str) -> GiteaWebhook {
    GiteaWebhook::new(id, kind, url.to_string())
}

fn client() -> DefaultGiteaClient {
    DefaultGiteaClient::new("https://git.example.com".to_string(), "t0k".to_string())
}

#[test]
fn ownership_needs_native_kind_and_marker() {
    assert!(hook(1, GiteaWebhookType::Gitea, "https://url?type=contractor").is_owned());
    assert!(!hook(2, GiteaWebhookType::Gitea, "https://url?type=other").is_owned());
    assert!(!hook(3, GiteaWebhookType::Other("slack".to_string()), "https://contractor").is_owned());
    assert!(!hook(4, GiteaWebhookType::Gitea, "").is_owned());
}

#[test]
fn owned_hook_is_the_first_match() {
    let hooks = vec![
        hook(1, GiteaWebhookType::Other("slack".to_string()), "https://contractor"),
        hook(2, GiteaWebhookType::Gitea, "https://ci"),
        hook(3, GiteaWebhookType::Gitea, "https://x/contractor"),
        hook(4, GiteaWebhookType::Gitea, "https://y/contractor"),
    ];
    assert_eq!(owned_hook(hooks).map(|h| h.id), Some(3));
    assert!(owned_hook(vec![hook(5, GiteaWebhookType::Gitea, "https://ci")]).is_none());
    assert!(owned_hook(Vec::new()).is_none());
}

#[test]
fn decision_table() {
    let h = hook(7, GiteaWebhookType::Gitea, "https://url?type=contractor");
    assert_eq!(decide(None, false), ReconcileDecision::Create);
    assert_eq!(decide(None, true), ReconcileDecision::Create);
    assert_eq!(decide(Some(&h), false), ReconcileDecision::Skip);
    assert_eq!(decide(Some(&h), true), ReconcileDecision::Update(7));
}

#[test]
fn desired_webhook_template() {
    let w = desired_webhook();
    assert!(w.active);
    assert_eq!(w.authorization_header.as_deref(), Some("something"));
    assert_eq!(w.branch_filter.as_deref(), Some("*"));
    assert_eq!(w.config.content_type, "json");
    assert_eq!(w.config.url, "https://url?type=contractor");
    assert_eq!(w.events, vec!["pull_request_comment".to_string(), "issue_comment".to_string()]);
    assert_eq!(w.kind, GiteaWebhookType::Gitea);
    let as_hook = hook(1, w.kind.clone(), &w.config.url);
    assert!(as_hook.is_owned());
}

#[test]
fn existing_hook_with_refresh_is_one_update() {
    let repo = Repository::new("c".to_string(), "r4".to_string());
    let hooks = vec![hook(42, GiteaWebhookType::Gitea, "https://url?type=contractor")];
    let existing = owned_hook(hooks);
    let req = client().hook_request(&repo, existing.as_ref(), true).unwrap();
    assert_eq!(req.method, HookMethod::Patch);
    assert_eq!(req.url, "https://git.example.com/api/v1/repos/c/r4/hooks/42");
}

#[test]
fn existing_hook_without_refresh_is_no_request() {
    let repo = Repository::new("c".to_string(), "r4".to_string());
    let existing = hook(42, GiteaWebhookType::Gitea, "https://url?type=contractor");
    assert!(client().hook_request(&repo, Some(&existing), false).is_none());
}

#[test]
fn missing_hook_is_one_create() {
    let repo = Repository::new("a".to_string(), "r1".to_string());
    for force in [false, true] {
        let req = client().hook_request(&repo, None, force).unwrap();
        assert_eq!(req.method, HookMethod::Post);
        assert_eq!(req.url, "https://git.example.com/api/v1/repos/a/r1/hooks");
        assert_eq!(req.body.config.url, "https://url?type=contractor");
    }
}
