use contractor::api::{BotRequest, GiteaWebhook, GiteaWebhookComment, GiteaWebhookRepository};
use contractor::repository::{repositories_from_page, GiteaRepository, Repository, RepositoryError};

fn listed(names: &[&str]) -> Vec<GiteaRepository> {
    names.iter().map(|n| GiteaRepository::new(n.to_string())).collect()
}

#[test]
fn parse_splits_at_first_slash() {
    let r = Repository::parse("kjuulh/contractor").unwrap();
    assert_eq!(r.owner, "kjuulh");
    assert_eq!(r.name, "contractor");

    let r = Repository::parse("a/b/c").unwrap();
    assert_eq!(r.owner, "a");
    assert_eq!(r.name, "b/c");

    let r = Repository::parse("/x").unwrap();
    assert_eq!(r.owner, "");
    assert_eq!(r.name, "x");
}

#[test]
fn parse_without_slash_is_an_error() {
    assert_eq!(
        Repository::parse("no-slash-here"),
        Err(RepositoryError::MissingSeparator("no-slash-here".to_string()))
    );
    assert!(Repository::parse("").is_err());
}

#[test]
fn try_from_listed_item() {
    let r = Repository::try_from(GiteaRepository::new("org/repo".to_string())).unwrap();
    assert_eq!(r, Repository::new("org".to_string(), "repo".to_string()));
    assert!(Repository::try_from(GiteaRepository::new("orgrepo".to_string())).is_err());
}

#[test]
fn full_name_joins_owner_and_name() {
    let r = Repository::new("a".to_string(), "r1".to_string());
    assert_eq!(r.full_name(), "a/r1");
}

#[test]
fn page_skips_name_without_slash() {
    let repos = repositories_from_page(listed(&["a/r1", "no-slash-here", "a/r2"]));
    assert_eq!(
        repos,
        vec![
            Repository::new("a".to_string(), "r1".to_string()),
            Repository::new("a".to_string(), "r2".to_string()),
        ]
    );
}

#[test]
fn page_of_only_malformed_names_is_empty() {
    assert!(repositories_from_page(listed(&["x", "y"])).is_empty());
    assert!(repositories_from_page(Vec::new()).is_empty());
}

#[test]
fn bot_request_from_comment() {
    let delivery = GiteaWebhook::Issue {
        comment: GiteaWebhookComment { body: "contractor refresh".to_string() },
        repository: GiteaWebhookRepository { full_name: "kjuulh/app".to_string() },
    };
    let req = BotRequest::try_from(delivery).unwrap();
    assert_eq!(req.repo, Repository::new("kjuulh".to_string(), "app".to_string()));
    assert_eq!(req.command, "contractor refresh");

    let bad = GiteaWebhook::Issue {
        comment: GiteaWebhookComment { body: "x".to_string() },
        repository: GiteaWebhookRepository { full_name: "app".to_string() },
    };
    assert!(BotRequest::try_from(bad).is_err());
}

#[test]
fn api_error_is_internal() {
    let e = contractor::api::ApiError::InternalError("boom".to_string());
    assert_eq!(e.status(), 500);
}
