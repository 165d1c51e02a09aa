use contractor::pagination::{pages_after, pages_from_query, parse_link, parse_page_number, PaginationError};

const GITEA_LINK: &str = "<https://git.front.kjuulh.io/api/v1/user/repos?page=2>; rel=\"next\",<https://git.front.kjuulh.io/api/v1/user/repos?page=9>; rel=\"last\"";

#[test]
fn last_entry_gives_remaining_pages() {
    assert_eq!(parse_link(1, GITEA_LINK), Ok(vec![2, 3, 4, 5, 6, 7, 8, 9]));
}

#[test]
fn last_page_two_gives_one_page() {
    let h = "<https://h/api/v1/user/repos?page=2>; rel=\"last\"";
    assert_eq!(parse_link(1, h), Ok(vec![2]));
}

#[test]
fn no_last_entry_gives_no_pages() {
    let h = "<https://h/api/v1/user/repos?page=2>; rel=\"next\"";
    assert_eq!(parse_link(1, h), Ok(vec![]));
    assert_eq!(parse_link(1, ""), Ok(vec![]));
    assert_eq!(parse_link(1, "garbage"), Ok(vec![]));
}

#[test]
fn last_page_at_or_before_current_gives_no_pages() {
    let h = "<https://h/r?page=1>; rel=\"last\"";
    assert_eq!(parse_link(1, h), Ok(vec![]));
    let h = "<https://h/r?page=4>; rel=\"last\"";
    assert_eq!(parse_link(5, h), Ok(vec![]));
}

#[test]
fn page_parameter_is_decoded_and_found_among_others() {
    let h = "<https://h/r?limit=50&page=%33>; rel=\"last\"";
    assert_eq!(parse_link(1, h), Ok(vec![2, 3]));
}

#[test]
fn last_entry_without_page_parameter_is_passed_over() {
    let h = "<https://h/r?limit=50>; rel=\"last\",<https://h/r?page=3>; rel=\"last\"";
    assert_eq!(parse_link(1, h), Ok(vec![2, 3]));
}

#[test]
fn malformed_link_is_an_error() {
    assert_eq!(parse_link(1, "<; rel=\"last\""), Err(PaginationError::MalformedLink));
}

#[test]
fn invalid_url_is_an_error() {
    assert_eq!(parse_link(1, "<not a url>; rel=\"last\""), Err(PaginationError::InvalidUrl));
    assert_eq!(
        parse_link(1, " <https://h/r?page=3>; rel=\"last\""),
        Err(PaginationError::InvalidUrl)
    );
}

#[test]
fn non_numeric_page_is_an_error() {
    assert_eq!(
        parse_link(1, "<https://h/r?page=nine>; rel=\"last\""),
        Err(PaginationError::InvalidPageNumber)
    );
    assert_eq!(
        parse_link(1, "<https://h/r?page=99999999999999999999999>; rel=\"last\""),
        Err(PaginationError::InvalidPageNumber)
    );
}

#[test]
fn page_numbers() {
    assert_eq!(parse_page_number("9"), Some(9));
    assert_eq!(parse_page_number("+12"), Some(12));
    assert_eq!(parse_page_number("007"), Some(7));
    assert_eq!(parse_page_number(""), None);
    assert_eq!(parse_page_number("+"), None);
    assert_eq!(parse_page_number("-1"), None);
    assert_eq!(parse_page_number("1a"), None);
    assert_eq!(parse_page_number(&usize::MAX.to_string()), Some(usize::MAX));
    assert_eq!(parse_page_number("18446744073709551616"), None);
}

#[test]
fn pages_after_range() {
    assert_eq!(pages_after(1, 4), vec![2, 3, 4]);
    assert_eq!(pages_after(3, 3), Vec::<usize>::new());
    assert_eq!(pages_after(usize::MAX - 1, usize::MAX), vec![usize::MAX]);
}

#[test]
fn last_entry_between_other_entries() {
    let h = "<https://h/r?page=1>; rel=\"first\",<https://h/r?page=4>; rel=\"last\",<https://h/r?page=2>; rel=\"next\"";
    assert_eq!(parse_link(1, h), Ok(vec![2, 3, 4]));
}

fn pairs(items: &[(&str, &str)]) -> Vec<(String, String)> {
    items.iter().map(|(k, v)| (k.to_string(), v.to_string())).collect()
}

#[test]
fn pages_from_decoded_query() {
    assert_eq!(pages_from_query(1, &pairs(&[("limit", "50"), ("page", "5")])), Some(Ok(vec![2, 3, 4, 5])));
    assert_eq!(pages_from_query(1, &pairs(&[("page", "3"), ("page", "9")])), Some(Ok(vec![2, 3])));
    assert_eq!(pages_from_query(1, &pairs(&[("limit", "50")])), None);
    assert_eq!(pages_from_query(1, &pairs(&[])), None);
    assert_eq!(pages_from_query(1, &pairs(&[("page", "x")])), Some(Err(PaginationError::InvalidPageNumber)));
}
