//! The payload of the service's comment webhook, and the request it makes of
//! the command bot.

use vstd::prelude::*;

use crate::repository::{parse_full_name, Repository, RepositoryError};

verus! {

#[derive(Clone, Debug)]
pub struct GiteaWebhookComment {
    pub body: String,
}

#[derive(Clone, Debug)]
pub struct GiteaWebhookRepository {
    pub full_name: String,
}

/// A webhook delivery: a comment on an issue or a pull request.
#[derive(Clone, Debug)]
pub enum GiteaWebhook {
    Issue { comment: GiteaWebhookComment, repository: GiteaWebhookRepository },
}

/// A command for the bot: the repository it concerns and the comment's text.
#[derive(Clone, Debug)]
pub struct BotRequest {
    pub repo: Repository,
    pub command: String,
}

/// An error answered to the caller of the webhook endpoint.
#[derive(Clone, Debug, PartialEq, Eq)]
pub enum ApiError {
    InternalError(String),
}

impl ApiError {
    /// The HTTP status of the answer: 500.
    pub fn status(&self) -> (r: u16)
        ensures
            r == 500,
    {
        500
    }
}

impl BotRequest {
    /// The request that a delivery makes: the repository that its full name
    /// names, and the comment's body as the command.
    pub fn try_from(value: GiteaWebhook) -> (r: Result<BotRequest, RepositoryError>)
        ensures
            match value {
                GiteaWebhook::Issue { comment, repository } => match r {
                    Ok(req) => parse_full_name(repository.full_name@) == Some(req.repo@)
                        && req.command@ == comment.body@,
                    Err(RepositoryError::MissingSeparator(s)) => parse_full_name(
                        repository.full_name@,
                    ) is None && s@ == repository.full_name@,
                },
            },
    {
        match value {
            GiteaWebhook::Issue { comment, repository } => {
                match Repository::parse(repository.full_name.as_str()) {
                    Ok(repo) => Ok(BotRequest { repo, command: comment.body }),
                    Err(e) => Err(e),
                }
            },
        }
    }
}

} // verus!
