//! Repositories, identified by owner and name.

use vstd::prelude::*;
use vstd::string::*;

use crate::text::{chars_of, find_char, is_first_index, lacks, lemma_split_once_at, split_once};

verus! {

/// A repository on the hosting service. Two repositories are the same when
/// owner and name both agree.
#[derive(Clone, Debug, PartialEq, Eq, Hash)]
pub struct Repository {
    pub owner: String,
    pub name: String,
}

impl View for Repository {
    type V = (Seq<char>, Seq<char>);

    open spec fn view(&self) -> (Seq<char>, Seq<char>) {
        (self.owner@, self.name@)
    }
}

/// A repository as the hosting service lists it: by its full name.
#[derive(Clone, Debug)]
pub struct GiteaRepository {
    pub full_name: String,
}

/// Why a full name does not name a repository.
#[derive(Clone, Debug, PartialEq, Eq)]
pub enum RepositoryError {
    /// The full name has no `/` between owner and name.
    MissingSeparator(String),
}

/// The owner and name that a full name `"owner/name"` gives: the text before
/// and after its first `/`.
pub open spec fn parse_full_name(full_name: Seq<char>) -> Option<(Seq<char>, Seq<char>)> {
    split_once(full_name, '/')
}

/// `"owner/name"`.
pub open spec fn full_name_of(r: (Seq<char>, Seq<char>)) -> Seq<char> {
    r.0 + seq!['/'] + r.1
}

/// The repositories that a listing of full names gives, in order; the names
/// without a `/` are left out.
pub open spec fn parse_listing(items: Seq<Seq<char>>) -> Seq<(Seq<char>, Seq<char>)>
    decreases items.len(),
{
    if items.len() == 0 {
        Seq::empty()
    } else {
        let rest = parse_listing(items.drop_last());
        match parse_full_name(items.last()) {
            Some(r) => rest.push(r),
            None => rest,
        }
    }
}

/// The views of a sequence of repositories.
pub open spec fn repo_views(rs: Seq<Repository>) -> Seq<(Seq<char>, Seq<char>)> {
    rs.map_values(|r: Repository| r@)
}

/// The full names of a listing.
pub open spec fn listing_names(items: Seq<GiteaRepository>) -> Seq<Seq<char>> {
    items.map_values(|i: GiteaRepository| i.full_name@)
}

impl GiteaRepository {
    pub fn new(full_name: String) -> (r: GiteaRepository)
        ensures
            r.full_name@ == full_name@,
    {
        GiteaRepository { full_name }
    }
}

impl Repository {
    pub fn new(owner: String, name: String) -> (r: Repository)
        ensures
            r@ == (owner@, name@),
    {
        Repository { owner, name }
    }

    /// Parses `"owner/name"`: the owner is the text before the first `/`, the
    /// name all that follows it.
    pub fn parse(full_name: &str) -> (r: Result<Repository, RepositoryError>)
        ensures
            match r {
                Ok(repo) => parse_full_name(full_name@) == Some(repo@),
                Err(RepositoryError::MissingSeparator(s)) => parse_full_name(full_name@) is None
                    && s@ == full_name@,
            },
    {
        let chars = chars_of(full_name);
        match find_char(&chars, '/', 0) {
            Some(i) => {
                proof {
                    assert(chars@.subrange(0, i as int) =~= full_name@.take(i as int));
                    assert(is_first_index(full_name@, '/', i as int));
                    lemma_split_once_at(full_name@, '/', i as int);
                }
                let owner = full_name.substring_char(0, i).to_owned();
                let name = full_name.substring_char(i + 1, chars.len()).to_owned();
                assert(name@ =~= full_name@.skip(i + 1));
                Ok(Repository { owner, name })
            },
            None => {
                proof {
                    assert(chars@.skip(0) =~= full_name@);
                    assert forall|i: int| !is_first_index(full_name@, '/', i) by {
                        if 0 <= i < full_name@.len() {
                            assert(full_name@[i] != '/');
                        }
                    }
                }
                Err(RepositoryError::MissingSeparator(full_name.to_owned()))
            },
        }
    }

    /// `"owner/name"`.
    pub fn full_name(&self) -> (r: String)
        ensures
            r@ == full_name_of(self@),
    {
        let sep = "/";
        proof {
            reveal_strlit("/");
        }
        let r = self.owner.clone().concat(sep).concat(self.name.as_str());
        assert(r@ =~= full_name_of(self@));
        r
    }
}

/// A copy that keeps owner and name.
pub fn copy_repository(r: &Repository) -> (c: Repository)
    ensures
        c@ == r@,
{
    Repository { owner: r.owner.clone(), name: r.name.clone() }
}

impl Repository {
    /// The repository that a listed item names.
    pub fn try_from(value: GiteaRepository) -> (r: Result<Repository, RepositoryError>)
        ensures
            match r {
                Ok(repo) => parse_full_name(value.full_name@) == Some(repo@),
                Err(RepositoryError::MissingSeparator(s)) => parse_full_name(value.full_name@) is None
                    && s@ == value.full_name@,
            },
    {
        Repository::parse(value.full_name.as_str())
    }
}

/// The repositories of one page of a listing, in order. An item whose full
/// name has no `/` is left out; the others are kept.
pub fn repositories_from_page(items: Vec<GiteaRepository>) -> (r: Vec<Repository>)
    ensures
        repo_views(r@) == parse_listing(listing_names(items@)),
{
    let mut out: Vec<Repository> = Vec::new();
    let mut i: usize = 0;
    while i < items.len()
        invariant
            i <= items.len(),
            repo_views(out@) == parse_listing(listing_names(items@).take(i as int)),
        decreases items.len() - i,
    {
        let ghost names = listing_names(items@);
        assert(names.take(i + 1).drop_last() =~= names.take(i as int));
        match Repository::parse(items[i].full_name.as_str()) {
            Ok(repo) => {
                let ghost before = out@;
                out.push(repo);
                assert(repo_views(out@) =~= repo_views(before).push(repo@));
            },
            Err(_) => {},
        }
        i = i + 1;
    }
    assert(listing_names(items@).take(items.len() as int) =~= listing_names(items@));
    out
}

proof fn lemma_parse_listing_append(a: Seq<Seq<char>>, b: Seq<Seq<char>>)
    ensures
        parse_listing(a + b) == parse_listing(a) + parse_listing(b),
    decreases b.len(),
{
    if b.len() == 0 {
        assert(a + b =~= a);
        assert(parse_listing(a) + parse_listing(b) =~= parse_listing(a));
    } else {
        lemma_parse_listing_append(a, b.drop_last());
        assert((a + b).drop_last() =~= a + b.drop_last());
        assert((a + b).last() == b.last());
        match parse_full_name(b.last()) {
            Some(r) => {
                assert(parse_listing(a) + parse_listing(b.drop_last()).push(r) =~= (parse_listing(a)
                    + parse_listing(b.drop_last())).push(r));
            },
            None => {},
        }
    }
}

/// A listed full name without a `/` is left out, and the items around it are
/// read as if it were not there: one malformed item does not stop a listing.
pub proof fn lemma_listing_skips_malformed(
    before: Seq<Seq<char>>,
    malformed: Seq<char>,
    after: Seq<Seq<char>>,
)
    requires
        lacks(malformed, '/'),
    ensures
        parse_full_name(malformed) is None,
        parse_listing(before + seq![malformed] + after) == parse_listing(before + after),
{
    assert forall|i: int| !is_first_index(malformed, '/', i) by {
        if 0 <= i < malformed.len() {
            assert(malformed[i] != '/');
        }
    }
    lemma_parse_listing_append(before + seq![malformed], after);
    lemma_parse_listing_append(before, seq![malformed]);
    lemma_parse_listing_append(before, after);
    assert(seq![malformed].drop_last() =~= Seq::<Seq<char>>::empty());
    assert(seq![malformed].last() == malformed);
    assert(parse_full_name(malformed) is None);
    assert(parse_listing(Seq::<Seq<char>>::empty()) =~= Seq::<(Seq<char>, Seq<char>)>::empty());
    assert(parse_listing(seq![malformed]) =~= Seq::<(Seq<char>, Seq<char>)>::empty());
    assert(parse_listing(before) + parse_listing(seq![malformed]) =~= parse_listing(before));
}

} // verus!
