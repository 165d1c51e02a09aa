use contractor::client::{config_presence, is_success_status, page_listing, DefaultGiteaClient};
use contractor::pagination::PaginationError;
use contractor::repository::{GiteaRepository, Repository};

#[test]
fn base_url_loses_trailing_slashes() {
    let c = DefaultGiteaClient::new("https://git.example.com//".to_string(), "tok".to_string());
    assert_eq!(c.url, "https://git.example.com");
    assert_eq!(c.token, "tok");
    let c = DefaultGiteaClient::new("https://git.example.com".to_string(), "tok".to_string());
    assert_eq!(c.url, "https://git.example.com");
    let c = DefaultGiteaClient::new("///".to_string(), "tok".to_string());
    assert_eq!(c.url, "");
}

#[test]
fn request_urls() {
    let c = DefaultGiteaClient::new("https://h/".to_string(), "tok".to_string());
    let repo = Repository::new("kjuulh".to_string(), "app".to_string());
    assert_eq!(c.user_repos_url(1), "https://h/api/v1/user/repos?page=1&limit=50");
    assert_eq!(c.user_repos_url(120), "https://h/api/v1/user/repos?page=120&limit=50");
    assert_eq!(c.org_repos_url("b", 7), "https://h/api/v1/orgs/b/repos?page=7&limit=50");
    assert_eq!(c.renovate_url(&repo), "https://h/api/v1/repos/kjuulh/app/contents/renovate.json");
    assert_eq!(c.hooks_url(&repo), "https://h/api/v1/repos/kjuulh/app/hooks");
    assert_eq!(c.hook_url(&repo, 0), "https://h/api/v1/repos/kjuulh/app/hooks/0");
    assert_eq!(c.hook_url(&repo, -15), "https://h/api/v1/repos/kjuulh/app/hooks/-15");
    assert_eq!(c.hook_url(&repo, isize::MIN), format!("https://h/api/v1/repos/kjuulh/app/hooks/{}", isize::MIN));
    assert_eq!(c.authorization(), "token tok");
}

#[test]
fn statuses() {
    assert!(is_success_status(200));
    assert!(is_success_status(204));
    assert!(!is_success_status(199));
    assert!(!is_success_status(300));
    assert_eq!(config_presence(200), Some(true));
    assert_eq!(config_presence(404), Some(false));
    assert_eq!(config_presence(500), None);
    assert_eq!(config_presence(403), None);
}

#[test]
fn first_page_reads_the_link_header() {
    let items = vec![
        GiteaRepository::new("a/r1".to_string()),
        GiteaRepository::new("no-slash-here".to_string()),
    ];
    let link = "<https://h/api/v1/user/repos?page=3>; rel=\"last\"";
    let (repos, pages) = page_listing(1, Some(link), items).unwrap();
    assert_eq!(repos, vec![Repository::new("a".to_string(), "r1".to_string())]);
    assert_eq!(pages, vec![2, 3]);
}

#[test]
fn later_pages_ignore_the_link_header() {
    let link = "<https://h/api/v1/user/repos?page=3>; rel=\"last\"";
    let (repos, pages) = page_listing(2, Some(link), Vec::new()).unwrap();
    assert!(repos.is_empty());
    assert!(pages.is_empty());
    let (_, pages) = page_listing(1, None, Vec::new()).unwrap();
    assert!(pages.is_empty());
    let (_, pages) = page_listing(0, Some(link), Vec::new()).unwrap();
    assert!(pages.is_empty());
}

#[test]
fn broken_link_header_fails_the_listing() {
    let link = "<https://h/r?page=x>; rel=\"last\"";
    assert_eq!(
        page_listing(1, Some(link), Vec::new()).err(),
        Some(PaginationError::InvalidPageNumber)
    );
}
