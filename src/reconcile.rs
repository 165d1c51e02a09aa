//! The stages of a reconciliation pass: discover, deduplicate, filter, probe,
//! reconcile webhooks. The remote calls of each stage are made by the caller,
//! which hands their results to the functions here.

use itertools::Itertools;
use vstd::prelude::*;

use crate::repository::{copy_repository, full_name_of, repo_views, Repository};

verus! {

#[verifier::external_type_specification]
#[verifier::external_body]
pub struct ExRegexError(regex::Error);

/// Why a pass stops before any remote call of the filter stage.
#[derive(Clone, Debug, PartialEq, Eq)]
pub enum ReconcileError {
    /// The filter is not a valid regular expression.
    InvalidFilter(String),
}

/// Where repositories are discovered: the authenticated user, or an
/// organisation.
#[derive(Clone, Debug, PartialEq, Eq)]
pub enum ListingTarget {
    User(String),
    Org(String),
}

/// Which repositories have their webhook reconciled.
#[derive(Clone, Copy, Debug, PartialEq, Eq, Structural)]
pub enum HookScope {
    /// Every repository that passed the filter.
    AllFiltered,
    /// Only those where the dependency bot's configuration was found.
    ConfigEnabled,
}

/// The counts of a finished pass.
#[derive(Clone, Copy, Debug, PartialEq, Eq, Structural)]
pub struct ReconcileSummary {
    pub discovered: usize,
    pub filtered: usize,
    pub enabled: usize,
    pub hooks_changed: usize,
    pub hooks_failed: usize,
}

/// A repository as an (owner, name) pair.
pub type RepoView = (Seq<char>, Seq<char>);

/// The first occurrence of each item, in order of first occurrence.
pub open spec fn first_occurrences<T>(s: Seq<T>) -> Seq<T>
    decreases s.len(),
{
    if s.len() == 0 {
        Seq::empty()
    } else {
        let prev = first_occurrences(s.drop_last());
        if prev.contains(s.last()) {
            prev
        } else {
            prev.push(s.last())
        }
    }
}

/// Whether `pattern` is a regular expression that compiles.
pub uninterp spec fn regex_compiles(pattern: Seq<char>) -> bool;

/// Whether `pattern` matches somewhere in `haystack`.
pub uninterp spec fn regex_is_match(pattern: Seq<char>, haystack: Seq<char>) -> bool;

/// Relies on `itertools::Itertools::unique`: it yields each item the first
/// time it is seen, in order, and drops the later equal ones (equality of
/// `String` pairs).
#[verifier::external_body]
fn unique_pairs(items: Vec<(String, String)>) -> (r: Vec<(String, String)>)
    ensures
        r.deep_view() == first_occurrences(items.deep_view()),
{
    items.into_iter().unique().collect()
}

/// Relies on `regex::Regex::new`, which compiles the pattern or fails, and on
/// `Regex::is_match`, which says whether the compiled pattern matches
/// somewhere in a text: one answer for each text, in order.
#[verifier::external_body]
fn match_each(pattern: &str, texts: &Vec<String>) -> (r: Result<Vec<bool>, regex::Error>)
    ensures
        r is Ok <==> regex_compiles(pattern@),
        r matches Ok(v) ==> v@.len() == texts@.len() && forall|i: int|
            0 <= i < texts@.len() ==> v@[i] == regex_is_match(pattern@, #[trigger] texts@[i]@),
{
    let re = regex::Regex::new(pattern)?;
    Ok(texts.iter().map(|t| re.is_match(t)).collect())
}

/// The repositories whose full name `pattern` matches, in order.
pub open spec fn kept_by_filter(pattern: Seq<char>, rs: Seq<RepoView>) -> Seq<RepoView>
    decreases rs.len(),
{
    if rs.len() == 0 {
        Seq::empty()
    } else {
        let prev = kept_by_filter(pattern, rs.drop_last());
        if regex_is_match(pattern, full_name_of(rs.last())) {
            prev.push(rs.last())
        } else {
            prev
        }
    }
}

/// The first error of a sequence of results.
pub open spec fn first_err<T, E>(rs: Seq<Result<T, E>>) -> Option<E>
    decreases rs.len(),
{
    if rs.len() == 0 {
        None
    } else {
        match rs[0] {
            Err(e) => Some(e),
            Ok(_) => first_err(rs.drop_first()),
        }
    }
}

/// The repositories of the successful results, joined in order.
pub open spec fn joined_oks<E>(rs: Seq<Result<Vec<Repository>, E>>) -> Seq<RepoView>
    decreases rs.len(),
{
    if rs.len() == 0 {
        Seq::empty()
    } else {
        match rs.last() {
            Ok(v) => joined_oks(rs.drop_last()) + repo_views(v@),
            Err(_) => joined_oks(rs.drop_last()),
        }
    }
}

/// The repositories whose probe found the configuration, in order.
pub open spec fn enabled_of<E>(probes: Seq<(Repository, Result<bool, E>)>) -> Seq<RepoView>
    decreases probes.len(),
{
    if probes.len() == 0 {
        Seq::empty()
    } else {
        let prev = enabled_of(probes.drop_last());
        if probes.last().1 == Ok::<bool, E>(true) {
            prev.push(probes.last().0@)
        } else {
            prev
        }
    }
}

/// How many results say that a request was made.
pub open spec fn count_changed<E>(rs: Seq<Result<bool, E>>) -> nat
    decreases rs.len(),
{
    if rs.len() == 0 {
        0
    } else {
        count_changed(rs.drop_last()) + if rs.last() == Ok::<bool, E>(true) {
            1nat
        } else {
            0nat
        }
    }
}

/// The outcomes of the probes.
pub open spec fn probe_outcomes<E>(probes: Seq<(Repository, Result<bool, E>)>) -> Seq<
    Result<bool, E>,
> {
    probes.map_values(|p: (Repository, Result<bool, E>)| p.1)
}

/// The places to discover repositories in: the user first, if given, then each
/// organisation in order.
pub open spec fn discovery_plan(user: Option<Seq<char>>, orgs: Seq<Seq<char>>) -> Seq<
    Option<Seq<char>>,
> {
    let u = match user {
        Some(u) => seq![None::<Seq<char>>],
        None => Seq::empty(),
    };
    u + orgs.map_values(|o: Seq<char>| Some(o))
}

/// Where a target lists from: `None` for the user, the organisation otherwise.
pub open spec fn target_view(t: ListingTarget) -> Option<Seq<char>> {
    match t {
        ListingTarget::User(_) => None,
        ListingTarget::Org(o) => Some(o@),
    }
}

proof fn lemma_first_err_skip<T, E>(rs: Seq<Result<T, E>>, i: int)
    requires
        0 <= i < rs.len(),
        forall|j: int| 0 <= j < i ==> rs[j] is Ok,
    ensures
        first_err(rs) == first_err(rs.skip(i)),
    decreases i,
{
    if i > 0 {
        assert(rs.drop_first().skip(i - 1) =~= rs.skip(i));
        lemma_first_err_skip(rs.drop_first(), i - 1);
    } else {
        assert(rs.skip(0) =~= rs);
    }
}

proof fn lemma_first_err_none<T, E>(rs: Seq<Result<T, E>>)
    requires
        forall|j: int| 0 <= j < rs.len() ==> rs[j] is Ok,
    ensures
        first_err(rs) is None,
    decreases rs.len(),
{
    if rs.len() > 0 {
        lemma_first_err_none(rs.drop_first());
    }
}

/// The places to discover repositories in: the user first, if given, then each
/// organisation in order.
pub fn discovery_targets(user: Option<String>, orgs: Option<Vec<String>>) -> (r: Vec<ListingTarget>)
    ensures
        r@.map_values(|t: ListingTarget| target_view(t)) == discovery_plan(
            user.deep_view(),
            match orgs.deep_view() {
                Some(o) => o,
                None => Seq::empty(),
            },
        ),
        forall|i: int|
            0 <= i < r@.len() ==> (#[trigger] r@[i] matches ListingTarget::User(u) ==> user.deep_view()
                == Some(u@)),
{
    let mut targets: Vec<ListingTarget> = Vec::new();
    let ghost user_view = user.deep_view();
    let ghost user_part = match user.deep_view() {
        Some(u) => seq![None::<Seq<char>>],
        None => Seq::<Option<Seq<char>>>::empty(),
    };
    match user {
        Some(u) => {
            targets.push(ListingTarget::User(u));
        },
        None => {},
    }
    assert(targets@.map_values(|t: ListingTarget| target_view(t)) =~= user_part);
    let ghost orgs_view = orgs.deep_view();
    let orgs_vec = match orgs {
        Some(o) => o,
        None => Vec::new(),
    };
    let ghost ov = orgs_vec@.map_values(|s: String| s@);
    let mut i: usize = 0;
    while i < orgs_vec.len()
        invariant
            i <= orgs_vec.len(),
            ov == orgs_vec@.map_values(|s: String| s@),
            targets@.map_values(|t: ListingTarget| target_view(t)) == user_part + ov.take(i as int).map_values(
                |o: Seq<char>| Some(o),
            ),
            forall|k: int|
                0 <= k < targets@.len() ==> (#[trigger] targets@[k] matches ListingTarget::User(u)
                    ==> user_view == Some(u@)),
        decreases orgs_vec.len() - i,
    {
        let org = orgs_vec[i].clone();
        assert(org@ == ov[i as int]);
        let ghost before = targets@;
        targets.push(ListingTarget::Org(org));
        assert(targets@ =~= before.push(ListingTarget::Org(org)));
        assert(ov.take(i + 1) =~= ov.take(i as int).push(ov[i as int]));
        assert(targets@.map_values(|t: ListingTarget| target_view(t)) =~= before.map_values(
            |t: ListingTarget| target_view(t),
        ).push(Some(ov[i as int])));
        assert(ov.take(i + 1).map_values(|o: Seq<char>| Some(o)) =~= ov.take(i as int).map_values(
            |o: Seq<char>| Some(o),
        ).push(Some(ov[i as int])));
        assert(targets@.map_values(|t: ListingTarget| target_view(t)) =~= user_part + ov.take(
            i + 1,
        ).map_values(|o: Seq<char>| Some(o)));
        i = i + 1;
    }
    assert(ov.take(i as int) =~= ov);
    assert(ov == match orgs_view {
        Some(o) => o,
        None => Seq::empty(),
    });
    targets
}

/// The position of the first error of the results, if any.
fn first_err_index<T, E>(rs: &Vec<Result<T, E>>) -> (r: Option<usize>)
    ensures
        match r {
            Some(i) => i < rs@.len() && rs@[i as int] is Err && forall|j: int|
                0 <= j < i ==> rs@[j] is Ok,
            None => forall|j: int| 0 <= j < rs@.len() ==> rs@[j] is Ok,
        },
{
    let mut i: usize = 0;
    while i < rs.len()
        invariant
            i <= rs.len(),
            forall|j: int| 0 <= j < i ==> rs@[j] is Ok,
        decreases rs.len() - i,
    {
        match &rs[i] {
            Err(_) => {
                return Some(i);
            },
            Ok(_) => {},
        }
        i = i + 1;
    }
    None
}

/// Takes out the error at a position whose predecessors all succeeded: it is
/// the first error.
fn take_first_err<T, E>(rs: Vec<Result<T, E>>, i: usize) -> (r: E)
    requires
        i < rs@.len(),
        rs@[i as int] is Err,
        forall|j: int| 0 <= j < i ==> rs@[j] is Ok,
    ensures
        first_err(rs@) == Some(r),
{
    proof {
        lemma_first_err_skip(rs@, i as int);
    }
    let mut rest = rs;
    rest.remove(i).err().unwrap()
}

/// Copies of the repositories, in order.
fn copy_repositories(v: &Vec<Repository>) -> (r: Vec<Repository>)
    ensures
        repo_views(r@) == repo_views(v@),
{
    let mut out: Vec<Repository> = Vec::new();
    let mut i: usize = 0;
    while i < v.len()
        invariant
            i <= v.len(),
            repo_views(out@) == repo_views(v@.take(i as int)),
        decreases v.len() - i,
    {
        let ghost before = out@;
        out.push(copy_repository(&v[i]));
        assert(repo_views(out@) =~= repo_views(before).push(v@[i as int]@));
        assert(v@.take(i + 1) =~= v@.take(i as int).push(v@[i as int]));
        assert(repo_views(v@.take(i + 1)) =~= repo_views(v@.take(i as int)).push(v@[i as int]@));
        i = i + 1;
    }
    assert(v@.take(i as int) =~= v@);
    out
}

/// The repositories of a listing: those of the first page, then those of the
/// other pages in order. The listing fails with the first error of the other
/// pages, if any.
pub fn combine_pages<E>(first: Vec<Repository>, rest: Vec<Result<Vec<Repository>, E>>) -> (r:
    Result<Vec<Repository>, E>)
    ensures
        match first_err(rest@) {
            Some(e) => r == Err::<Vec<Repository>, E>(e),
            None => r matches Ok(v) && repo_views(v@) == repo_views(first@) + joined_oks(rest@),
        },
{
    match first_err_index(&rest) {
        Some(i) => {
            return Err(take_first_err(rest, i));
        },
        None => {},
    }
    proof {
        lemma_first_err_none(rest@);
    }
    let mut out = first;
    let ghost first_views = repo_views(out@);
    let mut i: usize = 0;
    while i < rest.len()
        invariant
            i <= rest.len(),
            repo_views(out@) == first_views + joined_oks(rest@.take(i as int)),
        decreases rest.len() - i,
    {
        assert(rest@.take(i + 1).drop_last() =~= rest@.take(i as int));
        match &rest[i] {
            Ok(v) => {
                let ghost before = out@;
                let mut c = copy_repositories(v);
                out.append(&mut c);
                assert(repo_views(out@) =~= repo_views(before) + repo_views(v@));
            },
            Err(_) => {},
        }
        i = i + 1;
    }
    assert(rest@.take(i as int) =~= rest@);
    Ok(out)
}

/// The repositories without repeats: the first occurrence of each (owner,
/// name) pair is kept, in order.
pub fn unique_repositories(repos: Vec<Repository>) -> (r: Vec<Repository>)
    ensures
        repo_views(r@) == first_occurrences(repo_views(repos@)),
{
    let mut pairs: Vec<(String, String)> = Vec::new();
    let mut i: usize = 0;
    while i < repos.len()
        invariant
            i <= repos.len(),
            pairs.deep_view() == repo_views(repos@.take(i as int)),
        decreases repos.len() - i,
    {
        let ghost before = pairs.deep_view();
        pairs.push((repos[i].owner.clone(), repos[i].name.clone()));
        assert(pairs.deep_view() =~= before.push(repos@[i as int]@));
        assert(repos@.take(i + 1) =~= repos@.take(i as int).push(repos@[i as int]));
        assert(repo_views(repos@.take(i + 1)) =~= repo_views(repos@.take(i as int)).push(
            repos@[i as int]@,
        ));
        i = i + 1;
    }
    assert(repos@.take(i as int) =~= repos@);
    let unique = unique_pairs(pairs);
    let mut out: Vec<Repository> = Vec::new();
    let mut k: usize = 0;
    while k < unique.len()
        invariant
            k <= unique.len(),
            repo_views(out@) == unique.deep_view().take(k as int),
        decreases unique.len() - k,
    {
        let ghost before = out@;
        out.push(Repository { owner: unique[k].0.clone(), name: unique[k].1.clone() });
        assert(repo_views(out@) =~= repo_views(before).push(unique.deep_view()[k as int]));
        assert(unique.deep_view().take(k + 1) =~= unique.deep_view().take(k as int).push(
            unique.deep_view()[k as int],
        ));
        k = k + 1;
    }
    assert(unique.deep_view().take(k as int) =~= unique.deep_view());
    out
}

/// The repositories of all discovery targets, without repeats. Discovery
/// fails with the first error of the targets, if any.
pub fn merge_discovered<E>(lists: Vec<Result<Vec<Repository>, E>>) -> (r: Result<
    Vec<Repository>,
    E,
>)
    ensures
        match first_err(lists@) {
            Some(e) => r == Err::<Vec<Repository>, E>(e),
            None => r matches Ok(v) && repo_views(v@) == first_occurrences(joined_oks(lists@)),
        },
{
    match combine_pages(Vec::new(), lists) {
        Ok(all) => {
            assert(repo_views(Seq::<Repository>::empty()) =~= Seq::<RepoView>::empty());
            Ok(unique_repositories(all))
        },
        Err(e) => Err(e),
    }
}

/// The repositories that the filter keeps: with no filter, all of them; with
/// a pattern, those whose `"owner/name"` it matches, in order. A pattern that
/// does not compile is an error, whatever the repositories.
pub fn filter_repositories(repos: Vec<Repository>, filter: Option<&str>) -> (r: Result<
    Vec<Repository>,
    ReconcileError,
>)
    ensures
        match filter {
            None => r matches Ok(v) && repo_views(v@) == repo_views(repos@),
            Some(p) => if regex_compiles(p@) {
                r matches Ok(v) && repo_views(v@) == kept_by_filter(p@, repo_views(repos@))
            } else {
                r matches Err(ReconcileError::InvalidFilter(q)) && q@ == p@
            },
        },
{
    let pattern = match filter {
        None => {
            return Ok(repos);
        },
        Some(p) => p,
    };
    let mut names: Vec<String> = Vec::new();
    let mut i: usize = 0;
    while i < repos.len()
        invariant
            i <= repos.len(),
            names@.len() == i,
            forall|j: int| 0 <= j < i ==> (#[trigger] names@[j])@ == full_name_of(repos@[j]@),
        decreases repos.len() - i,
    {
        names.push(repos[i].full_name());
        i = i + 1;
    }
    let matched = match match_each(pattern, &names) {
        Ok(m) => m,
        Err(_) => {
            return Err(ReconcileError::InvalidFilter(pattern.to_owned()));
        },
    };
    proof {
        lemma_kept_where_matches(pattern@, repos@, names@, matched@);
    }
    Ok(keep_matched(repos, &matched))
}

proof fn lemma_kept_where_matches(
    pattern: Seq<char>,
    repos: Seq<Repository>,
    names: Seq<String>,
    matched: Seq<bool>,
)
    requires
        matched.len() == repos.len(),
        names.len() == repos.len(),
        forall|j: int| 0 <= j < repos.len() ==> (#[trigger] names[j])@ == full_name_of(repos[j]@),
        forall|j: int|
            0 <= j < names.len() ==> matched[j] == regex_is_match(pattern, (#[trigger] names[j])@),
    ensures
        kept_where(repo_views(repos), matched) == kept_by_filter(pattern, repo_views(repos)),
    decreases repos.len(),
{
    if repos.len() > 0 {
        let n = repos.len() - 1;
        lemma_kept_where_matches(pattern, repos.drop_last(), names.drop_last(), matched.take(n));
        assert(repo_views(repos).drop_last() =~= repo_views(repos.drop_last()));
        assert(names[n]@ == full_name_of(repos[n]@));
    }
}

/// The repositories at the positions where `matched` holds, in order.
pub open spec fn kept_where(rs: Seq<RepoView>, matched: Seq<bool>) -> Seq<RepoView>
    decreases rs.len(),
{
    if rs.len() == 0 {
        Seq::empty()
    } else {
        let prev = kept_where(rs.drop_last(), matched.take(rs.len() - 1));
        if matched[rs.len() - 1] {
            prev.push(rs.last())
        } else {
            prev
        }
    }
}

/// The repositories whose answer in `matched` (one per repository, in the
/// same order) is `true`, in order.
pub fn keep_matched(repos: Vec<Repository>, matched: &Vec<bool>) -> (r: Vec<Repository>)
    requires
        matched@.len() == repos@.len(),
    ensures
        repo_views(r@) == kept_where(repo_views(repos@), matched@),
{
    let mut out: Vec<Repository> = Vec::new();
    let mut k: usize = 0;
    while k < repos.len()
        invariant
            k <= repos.len(),
            matched@.len() == repos@.len(),
            repo_views(out@) == kept_where(repo_views(repos@.take(k as int)), matched@.take(k as int)),
        decreases repos.len() - k,
    {
        let ghost before = out@;
        assert(repos@.take(k + 1) =~= repos@.take(k as int).push(repos@[k as int]));
        assert(repo_views(repos@.take(k + 1)) =~= repo_views(repos@.take(k as int)).push(
            repos@[k as int]@,
        ));
        assert(repo_views(repos@.take(k + 1)).drop_last() =~= repo_views(repos@.take(k as int)));
        assert(matched@.take(k + 1).take(k as int) =~= matched@.take(k as int));
        if matched[k] {
            out.push(copy_repository(&repos[k]));
            assert(repo_views(out@) =~= repo_views(before).push(repos@[k as int]@));
        }
        k = k + 1;
    }
    assert(repos@.take(k as int) =~= repos@);
    assert(matched@.take(k as int) =~= matched@);
    out
}

/// The repositories whose probe found the configuration, in order. The stage
/// fails with the first failed probe, if any.
pub fn collect_enabled<E>(probes: Vec<(Repository, Result<bool, E>)>) -> (r: Result<
    Vec<Repository>,
    E,
>)
    ensures
        match first_err(probe_outcomes(probes@)) {
            Some(e) => r == Err::<Vec<Repository>, E>(e),
            None => r matches Ok(v) && repo_views(v@) == enabled_of(probes@),
        },
{
    let mut i: usize = 0;
    while i < probes.len()
        invariant
            i <= probes.len(),
            forall|j: int| 0 <= j < i ==> (#[trigger] probes@[j]).1 is Ok,
        decreases probes.len() - i,
    {
        match &probes[i].1 {
            Err(_) => {
                proof {
                    let outs = probe_outcomes(probes@);
                    assert forall|j: int| 0 <= j < i implies outs[j] is Ok by {
                        assert(outs[j] == probes@[j].1);
                    }
                    lemma_first_err_skip(outs, i as int);
                }
                let ghost all = probes@;
                let mut rest = probes;
                let (_, outcome) = rest.remove(i);
                assert(outcome == all[i as int].1);
                return Err(outcome.err().unwrap());
            },
            Ok(_) => {},
        }
        i = i + 1;
    }
    proof {
        let outs = probe_outcomes(probes@);
        assert forall|j: int| 0 <= j < outs.len() implies outs[j] is Ok by {
            assert(outs[j] == probes@[j].1);
        }
        lemma_first_err_none(outs);
    }
    let mut out: Vec<Repository> = Vec::new();
    let mut k: usize = 0;
    while k < probes.len()
        invariant
            k <= probes.len(),
            repo_views(out@) == enabled_of(probes@.take(k as int)),
        decreases probes.len() - k,
    {
        let ghost before = out@;
        assert(probes@.take(k + 1).drop_last() =~= probes@.take(k as int));
        match &probes[k].1 {
            Ok(true) => {
                out.push(copy_repository(&probes[k].0));
                assert(repo_views(out@) =~= repo_views(before).push(probes@[k as int].0@));
            },
            _ => {},
        }
        k = k + 1;
    }
    assert(probes@.take(k as int) =~= probes@);
    Ok(out)
}

/// The repositories whose webhook is reconciled.
pub fn hook_targets(filtered: Vec<Repository>, enabled: Vec<Repository>, scope: HookScope) -> (r: Vec<
    Repository,
>)
    ensures
        scope == HookScope::AllFiltered ==> r@ == filtered@,
        scope == HookScope::ConfigEnabled ==> r@ == enabled@,
{
    match scope {
        HookScope::AllFiltered => filtered,
        HookScope::ConfigEnabled => enabled,
    }
}

/// How many webhooks were created or updated, from one result per repository
/// (`true` when a request was made). The stage fails with the first error, if
/// any.
pub fn collect_hook_results<E>(results: Vec<Result<bool, E>>) -> (r: Result<usize, E>)
    ensures
        match first_err(results@) {
            Some(e) => r == Err::<usize, E>(e),
            None => r matches Ok(n) && n == count_changed(results@),
        },
{
    match first_err_index(&results) {
        Some(i) => {
            return Err(take_first_err(results, i));
        },
        None => {},
    }
    proof {
        lemma_first_err_none(results@);
    }
    let mut n: usize = 0;
    let mut i: usize = 0;
    while i < results.len()
        invariant
            i <= results.len(),
            n == count_changed(results@.take(i as int)),
            n <= i,
        decreases results.len() - i,
    {
        assert(results@.take(i + 1).drop_last() =~= results@.take(i as int));
        match &results[i] {
            Ok(true) => {
                n = n + 1;
            },
            _ => {},
        }
        i = i + 1;
    }
    assert(results@.take(i as int) =~= results@);
    Ok(n)
}

/// The errors of the results, in order.
pub open spec fn errors_of<E>(rs: Seq<Result<bool, E>>) -> Seq<E>
    decreases rs.len(),
{
    if rs.len() == 0 {
        Seq::empty()
    } else {
        match rs.last() {
            Err(e) => errors_of(rs.drop_last()).push(e),
            Ok(_) => errors_of(rs.drop_last()),
        }
    }
}

/// The webhook results of a pass, one per repository, kept apart: how many
/// requests were made, and every error in order. One repository's failure
/// takes nothing from the report of the others.
pub fn partition_hook_results<E>(results: Vec<Result<bool, E>>) -> (r: (usize, Vec<E>))
    ensures
        r.0 == count_changed(results@),
        r.1@ == errors_of(results@),
{
    let ghost all = results@;
    let mut rest = results;
    let total = rest.len();
    let mut errors: Vec<E> = Vec::new();
    let mut n: usize = 0;
    let mut i: usize = 0;
    while rest.len() > 0
        invariant
            all.len() == total,
            all.len() == i + rest@.len(),
            rest@ == all.skip(i as int),
            n <= i,
            n == count_changed(all.take(i as int)),
            errors@ == errors_of(all.take(i as int)),
        decreases rest.len(),
    {
        assert(all.take(i + 1).drop_last() =~= all.take(i as int));
        assert(all.take(i + 1).last() == rest@[0]);
        let ghost before = errors@;
        let x = rest.remove(0);
        match x {
            Ok(true) => {
                n = n + 1;
            },
            Ok(false) => {},
            Err(e) => {
                errors.push(e);
            },
        }
        assert(rest@ =~= all.skip(i + 1));
        i = i + 1;
    }
    assert(all.take(i as int) =~= all);
    (n, errors)
}

impl ReconcileSummary {
    pub fn new(
        discovered: usize,
        filtered: usize,
        enabled: usize,
        hooks_changed: usize,
        hooks_failed: usize,
    ) -> (r: ReconcileSummary)
        ensures
            r.discovered == discovered,
            r.filtered == filtered,
            r.enabled == enabled,
            r.hooks_changed == hooks_changed,
            r.hooks_failed == hooks_failed,
    {
        ReconcileSummary { discovered, filtered, enabled, hooks_changed, hooks_failed }
    }
}

proof fn lemma_first_occurrences_contains<T>(s: Seq<T>, x: T)
    ensures
        first_occurrences(s).contains(x) <==> s.contains(x),
    decreases s.len(),
{
    if s.len() > 0 {
        let prev = first_occurrences(s.drop_last());
        lemma_first_occurrences_contains(s.drop_last(), x);
        lemma_first_occurrences_contains(s.drop_last(), s.last());
        if s.contains(x) && x != s.last() {
            let i = choose|i: int| 0 <= i < s.len() && s[i] == x;
            assert(s.drop_last()[i] == x);
        }
        if s.drop_last().contains(x) {
            let i = choose|i: int| 0 <= i < s.len() - 1 && s.drop_last()[i] == x;
            assert(s[i] == x);
        }
        assert(s[s.len() - 1] == s.last());
        if !prev.contains(s.last()) {
            assert(prev.push(s.last())[prev.len() as int] == s.last());
            if prev.push(s.last()).contains(x) && x != s.last() {
                let i = choose|i: int| 0 <= i < prev.len() + 1 && prev.push(s.last())[i] == x;
                assert(prev[i] == x);
            }
            if prev.contains(x) {
                let i = choose|i: int| 0 <= i < prev.len() && prev[i] == x;
                assert(prev.push(s.last())[i] == x);
            }
        }
    }
}

proof fn lemma_first_occurrences_no_duplicates<T>(s: Seq<T>)
    ensures
        first_occurrences(s).no_duplicates(),
    decreases s.len(),
{
    if s.len() > 0 {
        let prev = first_occurrences(s.drop_last());
        lemma_first_occurrences_no_duplicates(s.drop_last());
        if !prev.contains(s.last()) {
            let out = prev.push(s.last());
            assert forall|i: int, j: int|
                0 <= i < out.len() && 0 <= j < out.len() && i != j implies out[i] != out[j] by {
                if i < prev.len() && j < prev.len() {
                    assert(out[i] == prev[i] && out[j] == prev[j]);
                } else if i < prev.len() {
                    assert(out[i] == prev[i]);
                } else if j < prev.len() {
                    assert(out[j] == prev[j]);
                }
            }
        }
    }
}

proof fn lemma_first_occurrences_of_distinct<T>(s: Seq<T>)
    requires
        s.no_duplicates(),
    ensures
        first_occurrences(s) == s,
    decreases s.len(),
{
    if s.len() > 0 {
        let rest = s.drop_last();
        assert(rest.no_duplicates());
        lemma_first_occurrences_of_distinct(rest);
        if rest.contains(s.last()) {
            let i = choose|i: int| 0 <= i < rest.len() && rest[i] == s.last();
            assert(s[i] == s[s.len() - 1]);
        }
        assert(rest.push(s.last()) =~= s);
    }
}

/// Deduplicating twice gives what deduplicating once gave.
pub proof fn lemma_dedup_idempotent(repos: Seq<RepoView>)
    ensures
        first_occurrences(first_occurrences(repos)) == first_occurrences(repos),
{
    lemma_first_occurrences_no_duplicates(repos);
    lemma_first_occurrences_of_distinct(first_occurrences(repos));
}

/// Two discoveries that found the same repositories, in whatever order and
/// with whatever repeats, give the same set of repositories after
/// deduplication, and neither result holds a repository twice.
pub proof fn lemma_dedup_order_independent(a: Seq<RepoView>, b: Seq<RepoView>)
    requires
        a.to_set() == b.to_set(),
    ensures
        first_occurrences(a).to_set() == first_occurrences(b).to_set(),
        first_occurrences(a).no_duplicates(),
        first_occurrences(b).no_duplicates(),
{
    lemma_first_occurrences_no_duplicates(a);
    lemma_first_occurrences_no_duplicates(b);
    assert forall|x: RepoView| first_occurrences(a).to_set().contains(x) <==> first_occurrences(
        b,
    ).to_set().contains(x) by {
        lemma_first_occurrences_contains(a, x);
        lemma_first_occurrences_contains(b, x);
        assert(a.to_set().contains(x) == b.to_set().contains(x));
        assert(a.to_set().contains(x) == a.contains(x));
        assert(b.to_set().contains(x) == b.contains(x));
        assert(first_occurrences(a).to_set().contains(x) == first_occurrences(a).contains(x));
        assert(first_occurrences(b).to_set().contains(x) == first_occurrences(b).contains(x));
    }
    assert(first_occurrences(a).to_set() =~= first_occurrences(b).to_set());
}

/// A repository is kept by the filter stage exactly when it was discovered
/// and the pattern matches its `"owner/name"`.
pub proof fn lemma_filter_keeps_exactly_matching(pattern: Seq<char>, repos: Seq<RepoView>, r: RepoView)
    ensures
        kept_by_filter(pattern, repos).contains(r) <==> (repos.contains(r) && regex_is_match(
            pattern,
            full_name_of(r),
        )),
    decreases repos.len(),
{
    if repos.len() > 0 {
        let prev = kept_by_filter(pattern, repos.drop_last());
        lemma_filter_keeps_exactly_matching(pattern, repos.drop_last(), r);
        if repos.contains(r) && r != repos.last() {
            let i = choose|i: int| 0 <= i < repos.len() && repos[i] == r;
            assert(repos.drop_last()[i] == r);
        }
        if repos.drop_last().contains(r) {
            let i = choose|i: int| 0 <= i < repos.len() - 1 && repos.drop_last()[i] == r;
            assert(repos[i] == r);
        }
        assert(repos[repos.len() - 1] == repos.last());
        if regex_is_match(pattern, full_name_of(repos.last())) {
            let out = prev.push(repos.last());
            assert(out[prev.len() as int] == repos.last());
            if out.contains(r) && r != repos.last() {
                let i = choose|i: int| 0 <= i < out.len() && out[i] == r;
                assert(prev[i] == r);
            }
            if prev.contains(r) {
                let i = choose|i: int| 0 <= i < prev.len() && prev[i] == r;
                assert(out[i] == r);
            }
        }
    }
}

} // verus!
