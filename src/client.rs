//! The requests that the client of the hosting service makes, and how their
//! answers are read. The calls themselves are made by the caller.

use vstd::prelude::*;
use vstd::string::*;

use crate::pagination::{link_pages, parse_link, PaginationError};
use crate::repository::{
    listing_names, parse_listing, repo_views, repositories_from_page, GiteaRepository, Repository,
};
use crate::text::{chars_of, decimal, decimal_text, signed_decimal, signed_decimal_text};
use crate::webhook::{
    decide, decision, desired_webhook, is_desired_webhook, CreateGiteaWebhook, GiteaWebhook,
    ReconcileDecision,
};

verus! {

/// Where the hosting service is, and the token that authenticates to it.
pub struct DefaultGiteaClient {
    pub url: String,
    pub token: String,
}

/// The method of a request that changes a webhook.
#[derive(Clone, Copy, Debug, PartialEq, Eq, Structural)]
pub enum HookMethod {
    Post,
    Patch,
}

/// A request that creates or updates a webhook.
#[derive(Clone, Debug)]
pub struct HookRequest {
    pub method: HookMethod,
    pub url: String,
    pub body: CreateGiteaWebhook,
}

/// `s` without the `/` characters at its end.
pub open spec fn trim_trailing_slashes(s: Seq<char>) -> Seq<char>
    decreases s.len(),
{
    if s.len() > 0 && s.last() == '/' {
        trim_trailing_slashes(s.drop_last())
    } else {
        s
    }
}

pub open spec fn user_repos_url_of(base: Seq<char>, page: nat) -> Seq<char> {
    base + "/api/v1/user/repos?page="@ + decimal_text(page) + "&limit=50"@
}

pub open spec fn org_repos_url_of(base: Seq<char>, org: Seq<char>, page: nat) -> Seq<char> {
    base + "/api/v1/orgs/"@ + org + "/repos?page="@ + decimal_text(page) + "&limit=50"@
}

pub open spec fn repo_url_of(base: Seq<char>, repo: (Seq<char>, Seq<char>)) -> Seq<char> {
    base + "/api/v1/repos/"@ + repo.0 + "/"@ + repo.1
}

pub open spec fn renovate_url_of(base: Seq<char>, repo: (Seq<char>, Seq<char>)) -> Seq<char> {
    repo_url_of(base, repo) + "/contents/renovate.json"@
}

pub open spec fn hooks_url_of(base: Seq<char>, repo: (Seq<char>, Seq<char>)) -> Seq<char> {
    repo_url_of(base, repo) + "/hooks"@
}

pub open spec fn hook_url_of(base: Seq<char>, repo: (Seq<char>, Seq<char>), id: int) -> Seq<char> {
    hooks_url_of(base, repo) + "/"@ + signed_decimal_text(id)
}

/// A status of the 2xx class.
pub open spec fn is_success(status: u16) -> bool {
    200 <= status && status <= 299
}

/// What a status says about a configuration file: present on success, absent
/// on 404, and nothing (a failure) otherwise.
pub open spec fn presence_of(status: u16) -> Option<bool> {
    if is_success(status) {
        Some(true)
    } else if status == 404 {
        Some(false)
    } else {
        None
    }
}

/// Whether the request succeeded.
pub fn is_success_status(status: u16) -> (r: bool)
    ensures
        r == is_success(status),
{
    200 <= status && status <= 299
}

/// Reads the status of a request for a configuration file: `Some(true)` when
/// the file is there, `Some(false)` when the service answers 404, `None` when
/// the request failed.
pub fn config_presence(status: u16) -> (r: Option<bool>)
    ensures
        r == presence_of(status),
{
    if is_success_status(status) {
        Some(true)
    } else if status == 404 {
        Some(false)
    } else {
        None
    }
}

/// The repositories of one page of a listing, and the pages that remain: these
/// are read from the `Link` header of page 1 only.
pub fn page_listing(page: usize, link: Option<&str>, items: Vec<GiteaRepository>) -> (r: Result<
    (Vec<Repository>, Vec<usize>),
    PaginationError,
>)
    ensures
        match r {
            Ok((repos, pages)) => {
                &&& repo_views(repos@) == parse_listing(listing_names(items@))
                &&& match link {
                    Some(l) if page == 1 => link_pages(page as nat, l@) == Ok::<
                        Seq<usize>,
                        PaginationError,
                    >(pages@),
                    _ => pages@.len() == 0,
                }
            },
            Err(e) => page == 1 && (link matches Some(l) && link_pages(page as nat, l@) == Err::<
                Seq<usize>,
                PaginationError,
            >(e)),
        },
{
    let pages = match link {
        Some(l) if page == 1 => match parse_link(page, l) {
            Ok(pages) => pages,
            Err(e) => {
                return Err(e);
            },
        },
        _ => Vec::new(),
    };
    Ok((repositories_from_page(items), pages))
}

impl DefaultGiteaClient {
    /// A client of the service at `url`; the `/` characters at its end are
    /// dropped.
    pub fn new(url: String, token: String) -> (r: DefaultGiteaClient)
        ensures
            r.url@ == trim_trailing_slashes(url@),
            r.token@ == token@,
    {
        let v = chars_of(url.as_str());
        let mut end = v.len();
        assert(url@.take(end as int) =~= url@);
        while end > 0 && v[end - 1] == '/'
            invariant
                v@ == url@,
                end <= v.len(),
                trim_trailing_slashes(url@) == trim_trailing_slashes(url@.take(end as int)),
            decreases end,
        {
            assert(url@.take(end as int).drop_last() =~= url@.take(end - 1));
            end = end - 1;
        }
        let base = url.as_str().substring_char(0, end).to_owned();
        DefaultGiteaClient { url: base, token }
    }

    /// The value of the `Authorization` header: `token <token>`.
    pub fn authorization(&self) -> (r: String)
        ensures
            r@ == "token "@ + self.token@,
    {
        String::from_str("token ").concat(self.token.as_str())
    }

    /// The URL of one page of the repositories of the authenticated user.
    pub fn user_repos_url(&self, page: usize) -> (r: String)
        ensures
            r@ == user_repos_url_of(self.url@, page as nat),
    {
        let r = self.url.clone().concat("/api/v1/user/repos?page=").concat(
            decimal(page).as_str(),
        ).concat("&limit=50");
        r
    }

    /// The URL of one page of the repositories of an organisation.
    pub fn org_repos_url(&self, org: &str, page: usize) -> (r: String)
        ensures
            r@ == org_repos_url_of(self.url@, org@, page as nat),
    {
        self.url.clone().concat("/api/v1/orgs/").concat(org).concat("/repos?page=").concat(
            decimal(page).as_str(),
        ).concat("&limit=50")
    }

    fn repo_url(&self, repo: &Repository) -> (r: String)
        ensures
            r@ == repo_url_of(self.url@, repo@),
    {
        self.url.clone().concat("/api/v1/repos/").concat(repo.owner.as_str()).concat("/").concat(
            repo.name.as_str(),
        )
    }

    /// The URL of the configuration file of the dependency bot in a repository.
    pub fn renovate_url(&self, repo: &Repository) -> (r: String)
        ensures
            r@ == renovate_url_of(self.url@, repo@),
    {
        self.repo_url(repo).concat("/contents/renovate.json")
    }

    /// The URL of the webhooks of a repository.
    pub fn hooks_url(&self, repo: &Repository) -> (r: String)
        ensures
            r@ == hooks_url_of(self.url@, repo@),
    {
        self.repo_url(repo).concat("/hooks")
    }

    /// The URL of one webhook of a repository.
    pub fn hook_url(&self, repo: &Repository, id: isize) -> (r: String)
        ensures
            r@ == hook_url_of(self.url@, repo@, id as int),
    {
        self.hooks_url(repo).concat("/").concat(signed_decimal(id).as_str())
    }

    /// The one request that brings a repository's webhook to the desired
    /// state, from the hook of this system found there: a create when there is
    /// none, an update of that hook when a refresh is asked for, and no
    /// request otherwise.
    pub fn hook_request(
        &self,
        repo: &Repository,
        existing: Option<&GiteaWebhook>,
        force_refresh: bool,
    ) -> (r: Option<HookRequest>)
        ensures
            match decision(
                match existing {
                    Some(h) => Some(h.id),
                    None => None,
                },
                force_refresh,
            ) {
                ReconcileDecision::Skip => r is None,
                ReconcileDecision::Create => (r matches Some(q) && q.method == HookMethod::Post
                    && q.url@ == hooks_url_of(self.url@, repo@) && is_desired_webhook(q.body)),
                ReconcileDecision::Update(id) => (r matches Some(q) && q.method
                    == HookMethod::Patch && q.url@ == hook_url_of(self.url@, repo@, id as int)
                    && is_desired_webhook(q.body)),
            },
    {
        match decide(existing, force_refresh) {
            ReconcileDecision::Skip => None,
            ReconcileDecision::Create => Some(
                HookRequest {
                    method: HookMethod::Post,
                    url: self.hooks_url(repo),
                    body: desired_webhook(),
                },
            ),
            ReconcileDecision::Update(id) => Some(
                HookRequest {
                    method: HookMethod::Patch,
                    url: self.hook_url(repo, id),
                    body: desired_webhook(),
                },
            ),
        }
    }
}

} // verus!
