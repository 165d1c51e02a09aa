//! Webhooks: which one belongs to this system, and what to do about it.

use vstd::prelude::*;
use vstd::string::*;

use crate::text::{contains, contains_text};

verus! {

/// The kind of a webhook: the service's own, or another.
#[derive(Clone, Debug, PartialEq, Eq)]
pub enum GiteaWebhookType {
    Gitea,
    Other(String),
}

#[derive(Clone, Debug)]
pub struct GiteaWebhookConfig {
    pub url: String,
}

/// A webhook registered on a repository.
#[derive(Clone, Debug)]
pub struct GiteaWebhook {
    pub id: isize,
    pub kind: GiteaWebhookType,
    pub config: GiteaWebhookConfig,
}

#[derive(Clone, Debug)]
pub struct CreateGiteaWebhookConfig {
    pub content_type: String,
    pub url: String,
}

/// The body of a request that creates or updates a webhook.
#[derive(Clone, Debug)]
pub struct CreateGiteaWebhook {
    pub active: bool,
    pub authorization_header: Option<String>,
    pub branch_filter: Option<String>,
    pub config: CreateGiteaWebhookConfig,
    pub events: Vec<String>,
    pub kind: GiteaWebhookType,
}

/// What to do about the webhook of one repository.
#[derive(Clone, Copy, Debug, PartialEq, Eq, Structural)]
pub enum ReconcileDecision {
    /// A webhook of this system is there and no refresh is asked for.
    Skip,
    /// A webhook of this system is there and is refreshed: the hook with this id.
    Update(isize),
    /// No webhook of this system is there.
    Create,
}

/// The token in a webhook's URL that marks it as this system's.
pub open spec fn marker() -> Seq<char> {
    seq!['c', 'o', 'n', 't', 'r', 'a', 'c', 't', 'o', 'r']
}

/// A webhook belongs to this system when it is of the service's own kind and
/// its URL holds the marker.
pub open spec fn owned_by_system(h: GiteaWebhook) -> bool {
    h.kind is Gitea && contains(h.config.url@, marker())
}

/// `i` is the first webhook of the list that belongs to this system.
pub open spec fn is_first_owned(hooks: Seq<GiteaWebhook>, i: int) -> bool {
    &&& 0 <= i < hooks.len()
    &&& owned_by_system(hooks[i])
    &&& forall|j: int| 0 <= j < i ==> !owned_by_system(#[trigger] hooks[j])
}

/// The decision for each pair of (existing hook, refresh asked for).
pub open spec fn decision(existing: Option<isize>, force_refresh: bool) -> ReconcileDecision {
    match existing {
        None => ReconcileDecision::Create,
        Some(id) => if force_refresh {
            ReconcileDecision::Update(id)
        } else {
            ReconcileDecision::Skip
        },
    }
}

impl GiteaWebhookConfig {
    pub fn new(url: String) -> (r: GiteaWebhookConfig)
        ensures
            r.url@ == url@,
    {
        GiteaWebhookConfig { url }
    }
}

impl GiteaWebhook {
    pub fn new(id: isize, kind: GiteaWebhookType, url: String) -> (r: GiteaWebhook)
        ensures
            r.id == id,
            r.kind == kind,
            r.config.url@ == url@,
    {
        GiteaWebhook { id, kind, config: GiteaWebhookConfig { url } }
    }

    /// Whether this webhook belongs to this system.
    pub fn is_owned(&self) -> (r: bool)
        ensures
            r == owned_by_system(*self),
    {
        let token = "contractor";
        proof {
            reveal_strlit("contractor");
            assert(token@ =~= marker());
        }
        match &self.kind {
            GiteaWebhookType::Gitea => contains_text(self.config.url.as_str(), token),
            GiteaWebhookType::Other(_) => false,
        }
    }
}

/// The position of the first webhook of the list that belongs to this system.
pub fn first_owned_index(hooks: &Vec<GiteaWebhook>) -> (r: Option<usize>)
    ensures
        match r {
            Some(i) => is_first_owned(hooks@, i as int),
            None => forall|j: int| 0 <= j < hooks@.len() ==> !owned_by_system(#[trigger] hooks@[j]),
        },
{
    let mut i: usize = 0;
    while i < hooks.len()
        invariant
            i <= hooks.len(),
            forall|j: int| 0 <= j < i ==> !owned_by_system(#[trigger] hooks@[j]),
        decreases hooks.len() - i,
    {
        if hooks[i].is_owned() {
            return Some(i);
        }
        i = i + 1;
    }
    None
}

/// The first webhook of the list that belongs to this system, if any.
pub fn owned_hook(hooks: Vec<GiteaWebhook>) -> (r: Option<GiteaWebhook>)
    ensures
        match r {
            Some(h) => exists|i: int| is_first_owned(hooks@, i) && h == hooks@[i],
            None => forall|j: int| 0 <= j < hooks@.len() ==> !owned_by_system(#[trigger] hooks@[j]),
        },
{
    match first_owned_index(&hooks) {
        Some(i) => {
            let ghost all = hooks@;
            let mut rest = hooks;
            let h = rest.remove(i);
            assert(is_first_owned(all, i as int) && h == all[i as int]);
            Some(h)
        },
        None => None,
    }
}

/// Decides what to do about a repository's webhook from the hook of this
/// system found there, if any, and whether a refresh is asked for.
pub fn decide(existing: Option<&GiteaWebhook>, force_refresh: bool) -> (r: ReconcileDecision)
    ensures
        r == decision(
            match existing {
                Some(h) => Some(h.id),
                None => None,
            },
            force_refresh,
        ),
        existing is None ==> r == ReconcileDecision::Create,
        existing is Some && !force_refresh ==> r == ReconcileDecision::Skip,
        force_refresh ==> (existing matches Some(h) ==> r == ReconcileDecision::Update(h.id)),
{
    match existing {
        None => ReconcileDecision::Create,
        Some(h) => if force_refresh {
            ReconcileDecision::Update(h.id)
        } else {
            ReconcileDecision::Skip
        },
    }
}

/// The target of the webhook this system installs.
pub open spec fn desired_url() -> Seq<char> {
    "https://url?type=contractor"@
}

/// The webhook this system wants on each repository: active, with an
/// authorization header, on all branches, sending JSON to a URL that holds
/// the marker, for comments on issues and pull requests.
pub open spec fn is_desired_webhook(w: CreateGiteaWebhook) -> bool {
    &&& w.active
    &&& w.authorization_header matches Some(a) && a@ == "something"@
    &&& w.branch_filter matches Some(b) && b@ == "*"@
    &&& w.config.content_type@ == "json"@
    &&& w.config.url@ == desired_url()
    &&& w.events@.len() == 2
    &&& w.events@[0]@ == "pull_request_comment"@
    &&& w.events@[1]@ == "issue_comment"@
    &&& w.kind is Gitea
}

/// The webhook this system wants on each repository; the same for a create
/// and for an update.
pub fn desired_webhook() -> (r: CreateGiteaWebhook)
    ensures
        is_desired_webhook(r),
{
    let events = vec![
        String::from_str("pull_request_comment"),
        String::from_str("issue_comment"),
    ];
    CreateGiteaWebhook {
        active: true,
        authorization_header: Some(String::from_str("something")),
        branch_filter: Some(String::from_str("*")),
        config: CreateGiteaWebhookConfig {
            content_type: String::from_str("json"),
            url: String::from_str("https://url?type=contractor"),
        },
        events,
        kind: GiteaWebhookType::Gitea,
    }
}

/// A webhook made from the desired one is recognised as this system's on the
/// next pass, so a created hook is not created again.
pub proof fn lemma_desired_webhook_is_owned(w: CreateGiteaWebhook, id: isize)
    requires
        is_desired_webhook(w),
    ensures
        owned_by_system(
            GiteaWebhook { id, kind: w.kind, config: GiteaWebhookConfig { url: w.config.url } },
        ),
{
    reveal_strlit("https://url?type=contractor");
    assert(desired_url().subrange(17, 27) =~= marker());
    assert(crate::text::occurs_at(desired_url(), marker(), 17));
}

} // verus!
