//! The pages of a listing that remain to be fetched, read from a `Link`
//! header of the form `<url>; rel="next",<url>; rel="last"`.

use vstd::prelude::*;
use vstd::string::*;

use crate::text::{
    chars_of, contains, decimal_text, digit_char, find_char, is_first_index, lacks,
    lemma_split_once_at, occurs_at, split_once,
};

verus! {

/// Why a pagination header could not be read.
#[derive(Clone, Copy, Debug, PartialEq, Eq, Structural)]
pub enum PaginationError {
    /// The `rel="last"` entry has no `<url>` before its relation.
    MalformedLink,
    /// The URL of the `rel="last"` entry does not parse.
    InvalidUrl,
    /// The `page` parameter of that URL is not a page number.
    InvalidPageNumber,
}

/// The query of a URL as decoded name and value pairs, in order; `None` when
/// the text is not an absolute URL.
pub uninterp spec fn url_query(url: Seq<char>) -> Option<Seq<(Seq<char>, Seq<char>)>>;

/// Relies on `reqwest::Url::parse` (the `url` crate) and `Url::query_pairs`:
/// whether the text parses as a URL, and the decoded pairs of its query.
#[verifier::external_body]
fn url_query_pairs(url: &str) -> (r: Option<Vec<(String, String)>>)
    ensures
        r.deep_view() == url_query(url@),
{
    reqwest::Url::parse(url).ok().map(
        |u| u.query_pairs().map(|(k, v)| (k.into_owned(), v.into_owned())).collect(),
    )
}

pub open spec fn is_digit(c: char) -> bool {
    '0' <= c && c <= '9'
}

pub open spec fn digit_value(c: char) -> nat {
    (c as u32 - '0' as u32) as nat
}

/// The number that a string of decimal digits spells.
pub open spec fn digits_value(s: Seq<char>) -> nat
    decreases s.len(),
{
    if s.len() == 0 {
        0
    } else {
        digits_value(s.drop_last()) * 10 + digit_value(s.last())
    }
}

/// The digits of a numeral: what follows an optional leading `+`.
pub open spec fn numeral_digits(s: Seq<char>) -> Seq<char> {
    if s.len() > 0 && s[0] == '+' {
        s.drop_first()
    } else {
        s
    }
}

pub open spec fn all_digits(d: Seq<char>) -> bool {
    forall|i: int| 0 <= i < d.len() ==> is_digit(#[trigger] d[i])
}

/// The number that a decimal numeral spells: digits, after an optional `+`.
pub open spec fn decimal_number(s: Seq<char>) -> Option<nat> {
    let d = numeral_digits(s);
    if d.len() > 0 && all_digits(d) {
        Some(digits_value(d))
    } else {
        None
    }
}

pub proof fn lemma_digits_value_prefix(s: Seq<char>, k: int)
    requires
        0 <= k <= s.len(),
    ensures
        digits_value(s.take(k)) <= digits_value(s),
    decreases s.len(),
{
    if k < s.len() {
        assert(s.drop_last().take(k) =~= s.take(k));
        lemma_digits_value_prefix(s.drop_last(), k);
    } else {
        assert(s.take(k) =~= s);
    }
}

/// Reads a page number: a decimal numeral that fits in `usize`.
pub fn parse_page_number(s: &str) -> (r: Option<usize>)
    ensures
        r matches Some(n) ==> decimal_number(s@) == Some(n as nat),
        r is None ==> match decimal_number(s@) {
            Some(n) => n > usize::MAX,
            None => true,
        },
{
    let v = chars_of(s);
    let ghost d = numeral_digits(s@);
    let start: usize = if v.len() > 0 && v[0] == '+' {
        1
    } else {
        0
    };
    assert(d =~= v@.skip(start as int));
    if start >= v.len() {
        return None;
    }
    let mut acc: usize = 0;
    let mut i: usize = start;
    while i < v.len()
        invariant
            v@ == s@,
            d == v@.skip(start as int),
            d == numeral_digits(s@),
            start <= i <= v.len(),
            acc as nat == digits_value(d.take(i - start)),
            forall|j: int| 0 <= j < i - start ==> is_digit(#[trigger] d[j]),
        decreases v.len() - i,
    {
        let c = v[i];
        assert(d[i - start] == c);
        if !('0' <= c && c <= '9') {
            assert(!is_digit(d[i - start]));
            assert(!all_digits(d));
            return None;
        }
        let dv = (c as u32 - '0' as u32) as usize;
        assert(d.take(i - start + 1).drop_last() =~= d.take(i - start));
        assert(d.take(i - start + 1).last() == c);
        assert(digit_value(c) == dv as nat);
        assert(digits_value(d.take(i - start + 1)) == acc * 10 + dv);
        if acc > (usize::MAX - dv) / 10 {
            proof {
                assert(acc * 10 + dv > usize::MAX) by (nonlinear_arith)
                    requires
                        acc > (usize::MAX - dv) / 10,
                        dv <= 9,
                ;
                lemma_digits_value_prefix(d, i - start + 1);
                assert(decimal_number(s@) matches Some(n) ==> n == digits_value(d));
            }
            return None;
        }
        proof {
            assert(acc * 10 + dv <= usize::MAX) by (nonlinear_arith)
                requires
                    acc <= (usize::MAX - dv) / 10,
                    dv <= 9,
            ;
        }
        acc = acc * 10 + dv;
        i = i + 1;
    }
    assert(d.take(i - start) =~= d);
    Some(acc)
}

/// `seq!['p', 'a', 'g', 'e']`: the query parameter that holds a page number.
pub open spec fn page_key() -> Seq<char> {
    seq!['p', 'a', 'g', 'e']
}

/// `rel="last"`.
pub open spec fn rel_last() -> Seq<char> {
    seq!['r', 'e', 'l', '=', '"', 'l', 'a', 's', 't', '"']
}

/// `"; "`, between the URL and the relation of an entry.
pub open spec fn entry_separator() -> Seq<char> {
    seq![';', ' ']
}

/// The value of the first `page` pair of a query.
pub open spec fn page_param(pairs: Seq<(Seq<char>, Seq<char>)>) -> Option<Seq<char>>
    decreases pairs.len(),
{
    if pairs.len() == 0 {
        None
    } else if pairs[0].0 == page_key() {
        Some(pairs[0].1)
    } else {
        page_param(pairs.drop_first())
    }
}

/// `i` is the last position of `s` where `"; "` starts.
pub open spec fn is_last_separator(s: Seq<char>, i: int) -> bool {
    &&& occurs_at(s, entry_separator(), i)
    &&& forall|j: int| i < j ==> !occurs_at(s, entry_separator(), j)
}

/// An entry split at its last `"; "`: the link and the relation.
pub open spec fn split_entry(s: Seq<char>) -> Option<(Seq<char>, Seq<char>)> {
    if exists|i: int| is_last_separator(s, i) {
        let i = choose|i: int| is_last_separator(s, i);
        Some((s.take(i), s.skip(i + 2)))
    } else {
        None
    }
}

/// The pages after `page` up to `last`, in increasing order.
pub open spec fn page_range(page: nat, last: nat) -> Seq<usize> {
    Seq::new(if last > page { (last - page) as nat } else { 0 }, |i: int| (page + 1 + i) as usize)
}

/// What the query of a `rel="last"` URL says: nothing, when it has no `page`
/// parameter; else the pages after `page` up to that parameter, or an error
/// when it is not a page number.
pub open spec fn query_pages(page: nat, pairs: Seq<(Seq<char>, Seq<char>)>) -> Option<
    Result<Seq<usize>, PaginationError>,
> {
    match page_param(pairs) {
        None => None,
        Some(v) => match decimal_number(v) {
            Some(n) => if n <= usize::MAX {
                Some(Ok(page_range(page, n)))
            } else {
                Some(Err(PaginationError::InvalidPageNumber))
            },
            None => Some(Err(PaginationError::InvalidPageNumber)),
        },
    }
}

/// What one entry of the header says: nothing, when it is not the `rel="last"`
/// entry or its URL has no `page` parameter; else the remaining pages, or why
/// they cannot be read.
pub open spec fn entry_pages(page: nat, entry: Seq<char>) -> Option<Result<Seq<usize>, PaginationError>> {
    match split_entry(entry) {
        None => None,
        Some((link, rel)) => if rel != rel_last() {
            None
        } else if link.len() < 2 {
            Some(Err(PaginationError::MalformedLink))
        } else {
            match url_query(link.subrange(1, link.len() - 1)) {
                None => Some(Err(PaginationError::InvalidUrl)),
                Some(pairs) => query_pages(page, pairs),
            }
        },
    }
}

/// The pages that remain after `page`, read from the comma-separated entries
/// of a `Link` header: the first entry that says something decides; when none
/// does, no page remains.
pub open spec fn link_pages(page: nat, header: Seq<char>) -> Result<Seq<usize>, PaginationError>
    decreases header.len(),
{
    match split_once(header, ',') {
        Some((head, tail)) => match entry_pages(page, head) {
            Some(r) => r,
            None => link_pages(page, tail),
        },
        None => match entry_pages(page, header) {
            Some(r) => r,
            None => Ok(Seq::empty()),
        },
    }
}

/// Whether two texts are the same.
pub fn same_text(a: &str, b: &str) -> (r: bool)
    ensures
        r == (a@ == b@),
{
    a.to_owned() == b.to_owned()
}

/// The pages after `page` up to `last`, in increasing order.
pub fn pages_after(page: usize, last: usize) -> (r: Vec<usize>)
    ensures
        r@ == page_range(page as nat, last as nat),
{
    let mut pages: Vec<usize> = Vec::new();
    let mut p = page;
    while p < last
        invariant
            page <= p,
            p <= last || p == page,
            pages@ == page_range(page as nat, p as nat),
        decreases last - p,
    {
        p = p + 1;
        pages.push(p);
        assert(pages@ =~= page_range(page as nat, p as nat));
    }
    assert(pages@ =~= page_range(page as nat, last as nat));
    pages
}

/// The value of the first `page` pair of a query.
fn find_page_param(pairs: &Vec<(String, String)>) -> (r: Option<&String>)
    ensures
        r.deep_view() == page_param(pairs.deep_view()),
{
    let key = "page";
    proof {
        reveal_strlit("page");
    }
    let mut i: usize = 0;
    assert(pairs.deep_view().skip(0) =~= pairs.deep_view());
    while i < pairs.len()
        invariant
            i <= pairs.len(),
            key@ == page_key(),
            page_param(pairs.deep_view()) == page_param(pairs.deep_view().skip(i as int)),
        decreases pairs.len() - i,
    {
        let ghost rest = pairs.deep_view().skip(i as int);
        assert(rest[0] == pairs[i as int].deep_view());
        assert(rest.drop_first() =~= pairs.deep_view().skip(i + 1));
        if same_text(pairs[i].0.as_str(), key) {
            return Some(&pairs[i].1);
        }
        i = i + 1;
    }
    None
}

/// The last position where `"; "` starts.
fn find_last_separator(v: &Vec<char>) -> (r: Option<usize>)
    ensures
        match r {
            Some(i) => is_last_separator(v@, i as int),
            None => forall|j: int| !occurs_at(v@, entry_separator(), j),
        },
{
    let mut last: Option<usize> = None;
    let mut i: usize = 0;
    let bound: usize = if v.len() > 0 {
        v.len() - 1
    } else {
        0
    };
    while i < bound
        invariant
            bound == if v.len() > 0 { v.len() - 1 } else { 0 },
            i <= bound,
            match last {
                Some(k) => k < i && occurs_at(v@, entry_separator(), k as int) && forall|j: int|
                    k < j < i ==> !occurs_at(v@, entry_separator(), j),
                None => forall|j: int| j < i ==> !occurs_at(v@, entry_separator(), j),
            },
        decreases v.len() - i,
    {
        if v[i] == ';' && v[i + 1] == ' ' {
            assert(v@.subrange(i as int, i + 2) =~= entry_separator());
            last = Some(i);
        } else {
            assert(v@.subrange(i as int, i + 2)[0] == v@[i as int]);
            assert(v@.subrange(i as int, i + 2)[1] == v@[i + 1]);
        }
        i = i + 1;
    }
    last
}

/// What one entry of a `Link` header says about the pages after `page`.
fn entry_result(page: usize, entry: &str) -> (r: Option<Result<Vec<usize>, PaginationError>>)
    ensures
        match r {
            None => entry_pages(page as nat, entry@) is None,
            Some(Ok(v)) => entry_pages(page as nat, entry@) == Some(Ok::<Seq<usize>, PaginationError>(v@)),
            Some(Err(e)) => entry_pages(page as nat, entry@) == Some(Err::<Seq<usize>, PaginationError>(e)),
        },
{
    let v = chars_of(entry);
    let k = match find_last_separator(&v) {
        None => {
            proof {
                assert(!exists|i: int| is_last_separator(entry@, i));
            }
            return None;
        },
        Some(k) => k,
    };
    assert(entry_separator().len() == 2);
    assert(occurs_at(v@, entry_separator(), k as int));
    assert(k + 2 <= v.len());
    proof {
        let c = choose|i: int| is_last_separator(entry@, i);
        assert(c == k) by {
            if c < k {
                assert(!occurs_at(entry@, entry_separator(), k as int));
            } else if k < c {
                assert(!occurs_at(entry@, entry_separator(), c));
            }
        }
    }
    let rel = entry.substring_char(k + 2, v.len());
    assert(rel@ =~= entry@.skip(k + 2));
    let rel_text = "rel=\"last\"";
    proof {
        reveal_strlit("rel=\"last\"");
        assert(rel_text@ =~= rel_last());
    }
    if !same_text(rel, rel_text) {
        return None;
    }
    if k < 2 {
        return Some(Err(PaginationError::MalformedLink));
    }
    let url = entry.substring_char(1, k - 1);
    assert(url@ =~= entry@.take(k as int).subrange(1, k - 1));
    let pairs = match url_query_pairs(url) {
        None => {
            return Some(Err(PaginationError::InvalidUrl));
        },
        Some(pairs) => pairs,
    };
    pages_from_query(page, &pairs)
}

/// What the decoded query of a `rel="last"` URL says about the pages after
/// `page`: nothing without a `page` parameter; else the pages up to the first
/// `page` value, or `InvalidPageNumber` when that value is not a number that
/// fits in `usize`.
pub fn pages_from_query(page: usize, pairs: &Vec<(String, String)>) -> (r: Option<
    Result<Vec<usize>, PaginationError>,
>)
    ensures
        match r {
            None => query_pages(page as nat, pairs.deep_view()) is None,
            Some(Ok(v)) => query_pages(page as nat, pairs.deep_view()) == Some(
                Ok::<Seq<usize>, PaginationError>(v@),
            ),
            Some(Err(e)) => query_pages(page as nat, pairs.deep_view()) == Some(
                Err::<Seq<usize>, PaginationError>(e),
            ),
        },
{
    let value = match find_page_param(pairs) {
        None => {
            return None;
        },
        Some(value) => value,
    };
    match parse_page_number(value.as_str()) {
        None => Some(Err(PaginationError::InvalidPageNumber)),
        Some(last) => Some(Ok(pages_after(page, last))),
    }
}

/// The pages that remain after `page`, read from a `Link` header: the entries
/// are separated by commas; the first `rel="last"` entry whose URL has a `page`
/// parameter gives the last page `L`, and the result is `page + 1 ..= L`. With
/// no such entry the result is empty. A `rel="last"` entry with a malformed
/// link, URL or page number is an error.
pub fn parse_link(page: usize, link_str: &str) -> (r: Result<Vec<usize>, PaginationError>)
    ensures
        match r {
            Ok(v) => link_pages(page as nat, link_str@) == Ok::<Seq<usize>, PaginationError>(v@),
            Err(e) => link_pages(page as nat, link_str@) == Err::<Seq<usize>, PaginationError>(e),
        },
{
    let v = chars_of(link_str);
    let mut start: usize = 0;
    assert(link_str@.skip(0) =~= link_str@);
    loop
        invariant
            v@ == link_str@,
            start <= v.len(),
            link_pages(page as nat, link_str@) == link_pages(page as nat, link_str@.skip(start as int)),
        decreases v.len() - start,
    {
        let ghost s = link_str@.skip(start as int);
        match find_char(&v, ',', start) {
            Some(i) => {
                let entry = link_str.substring_char(start, i);
                proof {
                    assert(v@.subrange(start as int, i as int) =~= s.take(i - start));
                    assert(is_first_index(s, ',', i - start));
                    lemma_split_once_at(s, ',', i - start);
                    assert(entry@ =~= s.take(i - start));
                    assert(s.skip(i - start + 1) =~= link_str@.skip(i + 1));
                }
                match entry_result(page, entry) {
                    Some(r) => {
                        return r;
                    },
                    None => {},
                }
                start = i + 1;
            },
            None => {
                let entry = link_str.substring_char(start, v.len());
                proof {
                    assert(v@.skip(start as int) =~= s);
                    assert(entry@ =~= s);
                    assert forall|j: int| !is_first_index(s, ',', j) by {
                        if 0 <= j < s.len() {
                            assert(s[j] != ',');
                        }
                    }
                }
                return match entry_result(page, entry) {
                    Some(r) => r,
                    None => Ok(Vec::new()),
                };
            },
        }
    }
}

proof fn lemma_decimal_text_value(n: nat)
    ensures
        decimal_text(n).len() > 0,
        all_digits(decimal_text(n)),
        digits_value(decimal_text(n)) == n,
    decreases n,
{
    let d = decimal_text(n);
    if n < 10 {
        assert(d.drop_last() =~= Seq::<char>::empty());
        assert(d.last() == digit_char(n));
        assert(digit_value(digit_char(n)) == n);
        assert(digits_value(d) == digits_value(d.drop_last()) * 10 + digit_value(d.last()));
    } else {
        lemma_decimal_text_value(n / 10);
        assert(d.drop_last() =~= decimal_text(n / 10));
        assert(d.last() == digit_char(n % 10));
        assert(digit_value(digit_char(n % 10)) == n % 10);
        assert(digits_value(d) == digits_value(d.drop_last()) * 10 + digit_value(d.last()));
        assert((n / 10) * 10 + n % 10 == n) by (nonlinear_arith);
        assert forall|i: int| 0 <= i < d.len() implies is_digit(#[trigger] d[i]) by {
            if i < d.len() - 1 {
                assert(d[i] == decimal_text(n / 10)[i]);
            }
        }
    }
}

/// The decimal numeral of a number reads back as that number.
proof fn lemma_decimal_number_of_text(n: nat)
    ensures
        decimal_number(decimal_text(n)) == Some(n),
{
    lemma_decimal_text_value(n);
    let d = decimal_text(n);
    assert(is_digit(d[0]));
    assert(numeral_digits(d) == d);
}

/// A header of one entry, `<url>; rel="last"`.
pub open spec fn last_entry_header(url: Seq<char>) -> Seq<char> {
    seq!['<'] + url + seq!['>'] + entry_separator() + rel_last()
}

proof fn lemma_last_entry_header_shape(url: Seq<char>)
    ensures
        last_entry_header(url).len() == url.len() + 14,
        last_entry_header(url).take(url.len() as int + 2) == seq!['<'] + url + seq!['>'],
        last_entry_header(url).subrange(url.len() as int + 2, url.len() as int + 4) == entry_separator(),
        last_entry_header(url).skip(url.len() as int + 4) == rel_last(),
{
    let h = last_entry_header(url);
    assert(h.take(url.len() as int + 2) =~= seq!['<'] + url + seq!['>']);
    assert(h.subrange(url.len() as int + 2, url.len() as int + 4) =~= entry_separator());
    assert(h.skip(url.len() as int + 4) =~= rel_last());
}

proof fn lemma_last_entry_header_no_comma(url: Seq<char>)
    requires
        lacks(url, ','),
    ensures
        split_once(last_entry_header(url), ',') is None,
        lacks(last_entry_header(url), ','),
{
    let h = last_entry_header(url);
    lemma_last_entry_header_shape(url);
    let u = url.len() as int;
    assert forall|i: int| 0 <= i < h.len() implies h[i] != ',' by {
        if 0 <= i < h.len() {
            if i < u + 2 {
                let front = seq!['<'] + url + seq!['>'];
                assert(h[i] == h.take(u + 2)[i]);
                if 1 <= i <= u {
                    assert(front[i] == url[i - 1]);
                }
            } else if i < u + 4 {
                assert(h[i] == h.subrange(u + 2, u + 4)[i - u - 2]);
            } else {
                assert(h[i] == h.skip(u + 4)[i - u - 4]);
            }
        }
    }
    assert forall|i: int| !is_first_index(h, ',', i) by {
        if 0 <= i < h.len() {
            assert(h[i] != ',');
        }
    }
}

proof fn lemma_last_entry_header_split(url: Seq<char>)
    ensures
        split_entry(last_entry_header(url)) == Some((seq!['<'] + url + seq!['>'], rel_last())),
{
    let h = last_entry_header(url);
    lemma_last_entry_header_shape(url);
    let k: int = url.len() as int + 2;
    assert forall|j: int| k < j implies !occurs_at(h, entry_separator(), j) by {
        if k < j && j + 2 <= h.len() {
            assert(h.subrange(j, j + 2)[0] == h[j]);
            if j >= k + 2 {
                assert(h[j] == h.skip(k + 2)[j - k - 2]);
            } else {
                assert(h[j] == h.subrange(k, k + 2)[1]);
            }
        }
    }
    assert(is_last_separator(h, k));
    let c = choose|i: int| is_last_separator(h, i);
    assert(c == k) by {
        if c < k {
            assert(!occurs_at(h, entry_separator(), k));
        } else if k < c {
            assert(!occurs_at(h, entry_separator(), c));
        }
    }
}

proof fn lemma_last_entry_pages(url: Seq<char>, last: usize)
    requires
        lacks(url, ','),
        url_query(url) matches Some(pairs) && page_param(pairs) == Some(decimal_text(last as nat)),
    ensures
        entry_pages(1, last_entry_header(url)) == Some(
            Ok::<Seq<usize>, PaginationError>(page_range(1, last as nat)),
        ),
{
    lemma_last_entry_header_split(url);
    let link = seq!['<'] + url + seq!['>'];
    assert(link.subrange(1, link.len() - 1) =~= url);
    lemma_decimal_number_of_text(last as nat);
}

/// Read from the first page, a header whose `rel="last"` entry points at page
/// `last` gives exactly the pages `2, 3, ..., last`.
pub proof fn lemma_last_entry_gives_remaining_pages(url: Seq<char>, last: usize)
    requires
        lacks(url, ','),
        url_query(url) matches Some(pairs) && page_param(pairs) == Some(decimal_text(last as nat)),
    ensures
        link_pages(1, last_entry_header(url)) == Ok::<Seq<usize>, PaginationError>(
            page_range(1, last as nat),
        ),
        page_range(1, last as nat).len() == if last >= 1 {
            last - 1
        } else {
            0
        },
        forall|i: int|
            0 <= i < page_range(1, last as nat).len() ==> #[trigger] page_range(1, last as nat)[i]
                == i + 2,
{
    lemma_last_entry_header_no_comma(url);
    lemma_last_entry_pages(url, last);
}

proof fn lemma_first_index_exists(s: Seq<char>, c: char, j: int)
    requires
        0 <= j < s.len(),
        s[j] == c,
    ensures
        exists|i: int| is_first_index(s, c, i),
    decreases j,
{
    if lacks(s.take(j), c) {
        assert(is_first_index(s, c, j));
    } else {
        let k = choose|k: int| 0 <= k < s.take(j).len() && s.take(j)[k] == c;
        lemma_first_index_exists(s, c, k);
    }
}

/// Entries that say nothing, followed by a comma, leave the rest of the
/// header to decide.
proof fn lemma_skip_quiet_entries(page: nat, p: Seq<char>, rest: Seq<char>)
    requires
        !contains(p, rel_last()),
    ensures
        link_pages(page, p + seq![','] + rest) == link_pages(page, rest),
    decreases p.len(),
{
    let h = p + seq![','] + rest;
    if exists|i: int| is_first_index(p, ',', i) {
        let i = choose|i: int| is_first_index(p, ',', i);
        assert(h.take(i) =~= p.take(i));
        assert(h[i] == p[i]);
        assert(is_first_index(h, ',', i));
        lemma_split_once_at(h, ',', i);
        if contains(p.take(i), rel_last()) {
            lemma_contains_prefix(p, i, rel_last());
        }
        lemma_entry_without_last(page, p.take(i));
        if contains(p.skip(i + 1), rel_last()) {
            lemma_contains_suffix(p, i + 1, rel_last());
        }
        assert(h.skip(i + 1) =~= p.skip(i + 1) + seq![','] + rest);
        lemma_skip_quiet_entries(page, p.skip(i + 1), rest);
    } else {
        assert forall|j: int| 0 <= j < p.len() implies p[j] != ',' by {
            if p[j] == ',' {
                lemma_first_index_exists(p, ',', j);
            }
        }
        let n = p.len() as int;
        assert(h.take(n) =~= p);
        assert(h[n] == ',');
        assert(is_first_index(h, ',', n));
        lemma_split_once_at(h, ',', n);
        assert(h.skip(n + 1) =~= rest);
        lemma_entry_without_last(page, p);
    }
}

/// Read from the first page, a header in which the first `rel="last"` entry
/// points at page `last` gives exactly the pages `2, 3, ..., last`, whatever
/// entries stand before it (none of them `rel="last"`) and after it.
pub proof fn lemma_link_header_gives_remaining_pages(
    before: Seq<char>,
    url: Seq<char>,
    after: Seq<char>,
    last: usize,
)
    requires
        before.len() == 0 || before.last() == ',',
        after.len() == 0 || after[0] == ',',
        !contains(before, rel_last()),
        lacks(url, ','),
        url_query(url) matches Some(pairs) && page_param(pairs) == Some(decimal_text(last as nat)),
    ensures
        link_pages(1, before + last_entry_header(url) + after) == Ok::<Seq<usize>, PaginationError>(
            page_range(1, last as nat),
        ),
{
    let e = last_entry_header(url);
    lemma_last_entry_header_no_comma(url);
    lemma_last_entry_pages(url, last);
    if after.len() == 0 {
        assert(e + after =~= e);
    } else {
        let h = e + after;
        let n = e.len() as int;
        assert(h.take(n) =~= e);
        assert(h[n] == ',');
        assert(is_first_index(h, ',', n));
        lemma_split_once_at(h, ',', n);
    }
    if before.len() == 0 {
        assert(before + e + after =~= e + after);
    } else {
        let p = before.drop_last();
        if contains(p, rel_last()) {
            assert(before.take(p.len() as int) =~= p);
            lemma_contains_prefix(before, p.len() as int, rel_last());
        }
        assert(before + e + after =~= p + seq![','] + (e + after));
        lemma_skip_quiet_entries(1, p, e + after);
    }
}

proof fn lemma_contains_prefix(h: Seq<char>, k: int, t: Seq<char>)
    requires
        0 <= k <= h.len(),
        contains(h.take(k), t),
    ensures
        contains(h, t),
{
    let j = choose|j: int| occurs_at(h.take(k), t, j);
    assert(h.subrange(j, j + t.len()) =~= h.take(k).subrange(j, j + t.len()));
    assert(occurs_at(h, t, j));
}

proof fn lemma_contains_suffix(h: Seq<char>, k: int, t: Seq<char>)
    requires
        0 <= k <= h.len(),
        contains(h.skip(k), t),
    ensures
        contains(h, t),
{
    let j = choose|j: int| occurs_at(h.skip(k), t, j);
    assert(h.subrange(j + k, j + k + t.len()) =~= h.skip(k).subrange(j, j + t.len()));
    assert(occurs_at(h, t, j + k));
}

proof fn lemma_entry_without_last(page: nat, e: Seq<char>)
    requires
        !contains(e, rel_last()),
    ensures
        entry_pages(page, e) is None,
{
    if split_entry(e) is Some {
        let i = choose|i: int| is_last_separator(e, i);
        let rel = e.skip(i + 2);
        if rel == rel_last() {
            assert(e.subrange(i + 2, i + 2 + rel_last().len()) =~= rel);
            assert(occurs_at(e, rel_last(), i + 2));
        }
    }
}

/// A header with no `rel="last"` entry leaves no page to fetch.
pub proof fn lemma_no_last_entry_no_pages(page: nat, header: Seq<char>)
    requires
        !contains(header, rel_last()),
    ensures
        link_pages(page, header) == Ok::<Seq<usize>, PaginationError>(Seq::empty()),
    decreases header.len(),
{
    match split_once(header, ',') {
        Some((head, tail)) => {
            let i = choose|i: int| is_first_index(header, ',', i);
            if contains(head, rel_last()) {
                lemma_contains_prefix(header, i, rel_last());
            }
            lemma_entry_without_last(page, head);
            if contains(tail, rel_last()) {
                lemma_contains_suffix(header, i + 1, rel_last());
            }
            lemma_no_last_entry_no_pages(page, tail);
        },
        None => {
            lemma_entry_without_last(page, header);
        },
    }
}

} // verus!
