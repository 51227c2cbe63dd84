use influent::hurl::{fits_url, merge_query, Method, Request, UrlError};

fn request<'a>(url: &str, query: Option<Vec<(&'a str, String)>>) -> Request<'a> {
    Request { url: url.to_string(), method: Method::GET, auth: None, query, body: None }
}

fn target(url: &str, query: Option<Vec<(&str, String)>>) -> String {
    request(url, query).dispatch_url().expect("an address")
}

#[test]
fn address_without_query_is_written_as_parsed() {
    assert_eq!("http://localhost:8086/", target("http://localhost:8086", None));
    assert_eq!("http://localhost:8086/write", target("http://localhost:8086/write", None));
    assert_eq!("http://h/p?a=b:c#f", target("HTTP://H/p?a=b:c#f", None));
}

#[test]
fn query_is_appended_to_the_address() {
    assert_eq!(
        "http://localhost:8086/write?db=test&precision=n",
        target(
            "http://localhost:8086/write",
            Some(vec![("db", "test".to_string()), ("precision", "n".to_string())])
        )
    );
}

#[test]
fn existing_pairs_come_first() {
    assert_eq!(
        "http://h/query?a=1&b=2&db=x&q=select+*",
        target(
            "http://h/query?a=1&b=2",
            Some(vec![("db", "x".to_string()), ("q", "select *".to_string())])
        )
    );
}

#[test]
fn existing_pairs_are_written_anew_and_the_fragment_stays() {
    assert_eq!(
        "http://h/?a=b%3Ac&k=v%26w#frag",
        target("http://h/?a=b:c#frag", Some(vec![("k", "v&w".to_string())]))
    );
}

#[test]
fn empty_query_leaves_a_question_mark() {
    assert_eq!("http://h/p?", target("http://h/p", Some(vec![])));
    assert_eq!("http://h/p?a=1", target("http://h/p?a=1", Some(vec![])));
}

#[test]
fn unparsable_address_is_reported() {
    match request("not a url", Some(vec![])).dispatch_url() {
        Err(UrlError::Unparsable(message)) => {
            assert_eq!("could not parse url: RelativeUrlWithoutBase", message)
        }
        other => panic!("{:?}", other),
    }
    match request("http://", None).dispatch_url() {
        Err(UrlError::Unparsable(message)) => assert_eq!("could not parse url: EmptyHost", message),
        other => panic!("{:?}", other),
    }
}

#[test]
fn merge_query_keeps_both_lists_in_order() {
    let existing = vec![("a".to_string(), "1".to_string()), ("b".to_string(), "2".to_string())];
    let given = vec![("db", "x".to_string()), ("a", "3".to_string())];
    let expected: Vec<(String, String)> = [("a", "1"), ("b", "2"), ("db", "x"), ("a", "3")]
        .iter()
        .map(|(k, v)| (k.to_string(), v.to_string()))
        .collect();
    assert_eq!(expected, merge_query(existing, &given));
    assert_eq!(Vec::<(String, String)>::new(), merge_query(vec![], &vec![]));
}

#[test]
fn fits_url_weighs_address_and_pairs() {
    assert!(fits_url("http://h/", &vec![]));
    assert!(fits_url("http://h/", &vec![("k".to_string(), "v".repeat(1000))]));
    let long = "a".repeat(0x1000_0000);
    assert!(!fits_url(&long, &vec![]));
    let just = "a".repeat(0x0FFF_FFFF);
    assert!(fits_url(&just, &vec![("".to_string(), "1234".to_string())]));
    assert!(!fits_url(&just, &vec![("".to_string(), "12345".to_string())]));
}
