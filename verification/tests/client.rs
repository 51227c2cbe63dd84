use influent::client::{
    classify_query, classify_write, ClientError, Credentials, InfluxClient, Options, Precision,
    WriteStatus, WriteStep, MAX_BATCH,
};
use influent::hurl::{Hurl, Method, Request, Response};
use influent::point::{Point, Value};
use std::cell::RefCell;

struct Sent {
    url: String,
    post: bool,
    auth: Option<(String, String)>,
    query: Option<Vec<(String, String)>>,
    body: Option<String>,
}

struct MockHurl<F>
where
    F: Fn(usize) -> Result<Response, String>,
{
    sent: RefCell<Vec<Sent>>,
    result: F,
}

impl<F> MockHurl<F>
where
    F: Fn(usize) -> Result<Response, String>,
{
    fn new(result: F) -> Self {
        Self { sent: RefCell::new(Vec::new()), result }
    }
}

impl<F> Hurl for MockHurl<F>
where
    F: Fn(usize) -> Result<Response, String>,
{
    fn request(&self, req: Request<'_>) -> Result<Response, String> {
        let count = self.sent.borrow().len();
        self.sent.borrow_mut().push(Sent {
            url: req.url.clone(),
            post: matches!(req.method, Method::POST),
            auth: req.auth.as_ref().map(|a| (a.username.to_string(), a.password.to_string())),
            query: req
                .query
                .as_ref()
                .map(|q| q.iter().map(|(k, v)| (k.to_string(), v.clone())).collect()),
            body: req.body.clone(),
        });
        (self.result)(count)
    }
}

fn credentials<'a>() -> Credentials<'a> {
    Credentials { username: "gobwas", password: "1234", database: "test" }
}

fn client_with_response<'a>(
    response: Result<Response, String>,
    host: &'a str,
) -> InfluxClient<'a, MockHurl<impl Fn(usize) -> Result<Response, String>>> {
    InfluxClient::new(credentials(), host, MockHurl::new(move |_| response.clone()))
}

fn status(status: u16, body: &str) -> Result<Response, String> {
    Ok(Response { status, body: body.to_string() })
}

fn pairs(list: &[(&str, &str)]) -> Option<Vec<(String, String)>> {
    Some(list.iter().map(|(k, v)| (k.to_string(), v.to_string())).collect())
}

fn lines(body: &Option<String>) -> usize {
    body.as_ref().unwrap().split('\n').count()
}

#[test]
fn test_write_one() {
    client_with_response(status(204, "Ok"), "http://localhost:8086")
        .write_one(Point::new("key"), Some(Precision::Nanoseconds))
        .unwrap()
}

#[test]
fn test_write_many() {
    client_with_response(status(204, "Ok"), "http://localhost:8086")
        .write_many(&[Point::new("key")], Some(Precision::Nanoseconds))
        .unwrap();
}

#[test]
fn write_request_is_what_the_server_expects() {
    let client = client_with_response(status(204, ""), "http://localhost:8086");
    let points = [
        Point::new("cpu").tag("host", "a b").field("load", Value::Integer(3)).timestamp(7),
        Point::new("mem").field("free", Value::Boolean(true)),
    ];
    client.write_many(&points, Some(Precision::Milliseconds)).unwrap();
    let sent = client.hurl().sent.borrow();
    assert_eq!(1, sent.len());
    assert_eq!("http://localhost:8086/write", sent[0].url);
    assert!(sent[0].post);
    assert_eq!(Some(("gobwas".to_string(), "1234".to_string())), sent[0].auth);
    assert_eq!(pairs(&[("db", "test"), ("precision", "ms")]), sent[0].query);
    assert_eq!(Some("cpu,host=a\\ b load=3i 7\nmem free=t".to_string()), sent[0].body);
}

#[test]
fn write_request_without_precision_names_the_database_only() {
    let client = client_with_response(status(204, ""), "http://h");
    client.write_one(Point::new("m").field("v", Value::Integer(1)), None).unwrap();
    let sent = client.hurl().sent.borrow();
    assert_eq!(pairs(&[("db", "test")]), sent[0].query);
    assert_eq!(Some("m v=1i".to_string()), sent[0].body);
}

#[test]
fn write_attaches_credentials_even_when_empty() {
    let client = InfluxClient::new(
        Credentials { username: "", password: "", database: "d" },
        "http://h",
        MockHurl::new(|_| status(204, "")),
    );
    client.write_one(Point::new("m"), None).unwrap();
    assert_eq!(Some((String::new(), String::new())), client.hurl().sent.borrow()[0].auth);
}

#[test]
fn write_many_without_points_sends_nothing() {
    let client = client_with_response(Err("down".to_string()), "http://h");
    client.write_many(&[], None).unwrap();
    assert_eq!(0, client.hurl().sent.borrow().len());
}

#[test]
fn write_many_splits_into_batches_in_order() {
    let client = client_with_response(status(204, ""), "http://h");
    assert_eq!(5000, client.max_batch);
    let names: Vec<String> = (0..12_001).map(|i| format!("m{}", i)).collect();
    let points: Vec<Point> = names.iter().map(|n| Point::new(n)).collect();
    client.write_many(&points, None).unwrap();
    let sent = client.hurl().sent.borrow();
    assert_eq!(3, sent.len());
    assert_eq!(vec![5000, 5000, 2001], sent.iter().map(|s| lines(&s.body)).collect::<Vec<_>>());
    let all: Vec<String> = sent
        .iter()
        .flat_map(|s| s.body.as_ref().unwrap().split('\n').map(|l| l.to_string()).collect::<Vec<_>>())
        .collect();
    let expected: Vec<String> = names.iter().map(|n| format!("{} ", n)).collect();
    assert_eq!(expected, all);
}

#[test]
fn write_many_with_a_full_last_batch() {
    let mut client = client_with_response(status(204, ""), "http://h");
    client.max_batch = 2;
    let points: Vec<Point> = (0..4).map(|_| Point::new("m")).collect();
    client.write_many(&points, None).unwrap();
    assert_eq!(
        vec![2, 2],
        client.hurl().sent.borrow().iter().map(|s| lines(&s.body)).collect::<Vec<_>>()
    );
    client.max_batch = 1;
    let fresh = InfluxClient::new(credentials(), "http://h", MockHurl::new(|_| status(204, "")));
    let mut fresh = fresh;
    fresh.max_batch = u16::MAX;
    fresh.write_many(&points, None).unwrap();
    assert_eq!(1, fresh.hurl().sent.borrow().len());
}

#[test]
fn write_many_stops_at_the_first_batch_that_fails() {
    let mut client = InfluxClient::new(
        credentials(),
        "http://h",
        MockHurl::new(|n| if n == 1 { status(400, "bad line") } else { status(204, "") }),
    );
    client.max_batch = 5;
    let points: Vec<Point> = (0..15).map(|_| Point::new("m")).collect();
    match client.write_many(&points, None) {
        Err(ClientError::Syntax(body)) => assert_eq!("bad line", body),
        other => panic!("{:?}", other),
    }
    assert_eq!(2, client.hurl().sent.borrow().len());
}

#[test]
fn set_hurl_replaces_the_transport() {
    let first: Box<dyn Hurl> = Box::new(MockHurl::new(|_| status(500, "")));
    let mut client = InfluxClient::new(credentials(), "http://h", first);
    client.max_batch = 7;
    assert!(matches!(client.write_one(Point::new("m"), None), Err(ClientError::Unexpected(_))));
    client.set_hurl(Box::new(MockHurl::new(|_| status(204, ""))));
    client.write_one(Point::new("m"), None).unwrap();
    assert_eq!(7, client.max_batch);
}

#[test]
fn write_status_204_is_success_and_200_is_not() {
    assert!(matches!(classify_write(status(204, "ignored")), Ok(())));
    match classify_write(status(200, "partial write")) {
        Err(ClientError::CouldNotComplete(body)) => assert_eq!("partial write", body),
        other => panic!("{:?}", other),
    }
}

#[test]
fn write_errors_by_status() {
    match classify_write(status(400, "bad")) {
        Err(ClientError::Syntax(body)) => assert_eq!("bad", body),
        other => panic!("{:?}", other),
    }
    match classify_write(status(500, "oops")) {
        Err(ClientError::Unexpected(message)) => {
            assert_eq!("Unexpected response. Status: 500; Body: \"oops\"", message)
        }
        other => panic!("{:?}", other),
    }
    match classify_write(status(0, "")) {
        Err(ClientError::Unexpected(message)) => {
            assert_eq!("Unexpected response. Status: 0; Body: \"\"", message)
        }
        other => panic!("{:?}", other),
    }
    match classify_write(status(u16::MAX, "x")) {
        Err(ClientError::Unexpected(message)) => {
            assert_eq!("Unexpected response. Status: 65535; Body: \"x\"", message)
        }
        other => panic!("{:?}", other),
    }
    match classify_write(Err("connection refused".to_string())) {
        Err(ClientError::Communication(message)) => assert_eq!("connection refused", message),
        other => panic!("{:?}", other),
    }
}

#[test]
fn query_outcomes_by_status() {
    match classify_query(status(200, "{\"results\":[]}\n")) {
        Ok(body) => assert_eq!("{\"results\":[]}\n", body),
        other => panic!("{:?}", other),
    }
    match classify_query(status(400, "bad query")) {
        Err(ClientError::Syntax(body)) => assert_eq!("bad query", body),
        other => panic!("{:?}", other),
    }
    match classify_query(status(204, "")) {
        Err(ClientError::Unexpected(message)) => {
            assert_eq!("Unexpected response. Status: 204; Body: \"\"", message)
        }
        other => panic!("{:?}", other),
    }
    match classify_query(Err("timeout".to_string())) {
        Err(ClientError::Communication(message)) => assert_eq!("timeout", message),
        other => panic!("{:?}", other),
    }
}

#[test]
fn query_request_is_what_the_server_expects() {
    let client = client_with_response(status(200, "answer"), "http://localhost:8086");
    let answer = client.query("select * from \"sut\"".to_owned(), Some(Precision::Seconds)).unwrap();
    assert_eq!("answer", answer);
    let sent = client.hurl().sent.borrow();
    assert_eq!(1, sent.len());
    assert_eq!("http://localhost:8086/query", sent[0].url);
    assert!(!sent[0].post);
    assert_eq!(pairs(&[("db", "test"), ("q", "select * from \"sut\""), ("epoch", "s")]), sent[0].query);
    assert_eq!(None, sent[0].body);
    assert_eq!(Some(("gobwas".to_string(), "1234".to_string())), sent[0].auth);
}

#[test]
fn query_without_epoch() {
    let client = client_with_response(status(200, ""), "http://h");
    client.query("q".to_owned(), None).unwrap();
    assert_eq!(pairs(&[("db", "test"), ("q", "q")]), client.hurl().sent.borrow()[0].query);
}

#[test]
fn query_omits_auth_only_when_both_are_empty() {
    for (username, password, attached) in
        [("", "", false), ("u", "", true), ("", "p", true), ("u", "p", true)]
    {
        let client = InfluxClient::new(
            Credentials { username, password, database: "d" },
            "http://h",
            MockHurl::new(|_| status(200, "")),
        );
        client.query("q".to_owned(), None).unwrap();
        let sent = client.hurl().sent.borrow();
        if attached {
            assert_eq!(Some((username.to_string(), password.to_string())), sent[0].auth);
        } else {
            assert_eq!(None, sent[0].auth);
        }
    }
}

#[test]
fn query_errors_come_through() {
    let client = client_with_response(Err("no route".to_string()), "http://h");
    match client.query("q".to_owned(), None) {
        Err(ClientError::Communication(message)) => assert_eq!("no route", message),
        other => panic!("{:?}", other),
    }
}

#[test]
fn next_write_walks_the_batches() {
    let mut client = client_with_response(status(204, ""), "http://h");
    client.max_batch = 2;
    let points: Vec<Point> = ["a", "b", "c"].iter().map(|n| Point::new(n)).collect();
    let (first, end) = client.next_write(&points, 0, None).unwrap();
    assert_eq!(2, end);
    assert_eq!(Some("a \nb ".to_string()), first.body);
    let (second, end) = client.next_write(&points, end, None).unwrap();
    assert_eq!(3, end);
    assert_eq!(Some("c ".to_string()), second.body);
    assert!(client.next_write(&points, end, None).is_none());
    assert!(client.next_write(&points, 10, None).is_none());
}

#[test]
fn precision_codes() {
    assert_eq!("n", Precision::Nanoseconds.to_string());
    assert_eq!("u", Precision::Microseconds.to_string());
    assert_eq!("ms", Precision::Milliseconds.to_string());
    assert_eq!("s", Precision::Seconds.to_string());
    assert_eq!("m", Precision::Minutes.to_string());
    assert_eq!("h", Precision::Hours.to_string());
}

#[test]
fn defaults_and_plain_types() {
    assert_eq!(5000, MAX_BATCH);
    let options =
        Options { max_batch: Some(10), precision: None, epoch: Some(Precision::Hours), chunk_size: None };
    assert_eq!(Some(10), options.max_batch);
    assert!(matches!(WriteStatus::Success, WriteStatus::Success));
    assert!(matches!(WriteStatus::CouldNotComplete, WriteStatus::CouldNotComplete));
    assert_eq!("body", Response { status: 200, body: "body".to_string() }.to_string());
}

#[test]
fn write_step_sends_batch_after_batch() {
    let mut client = client_with_response(status(204, ""), "http://h");
    client.max_batch = 2;
    let points: Vec<Point> = ["a", "b", "c"].iter().map(|n| Point::new(n)).collect();
    let sent = match client.write_step(&points, Some(Precision::Hours), 0, None) {
        WriteStep::Send(request, sent) => {
            assert_eq!("http://h/write", request.url);
            assert_eq!(Some("a \nb ".to_string()), request.body);
            sent
        }
        other => panic!("{:?}", other),
    };
    assert_eq!(2, sent);
    let sent = match client.write_step(&points, Some(Precision::Hours), sent, Some(status(204, ""))) {
        WriteStep::Send(request, sent) => {
            assert_eq!(Some("c ".to_string()), request.body);
            sent
        }
        other => panic!("{:?}", other),
    };
    assert_eq!(3, sent);
    assert!(matches!(
        client.write_step(&points, Some(Precision::Hours), sent, Some(status(204, ""))),
        WriteStep::Done(Ok(()))
    ));
}

#[test]
fn write_step_ends_the_write_on_a_failure() {
    let mut client = client_with_response(status(204, ""), "http://h");
    client.max_batch = 1;
    let points: Vec<Point> = ["a", "b", "c"].iter().map(|n| Point::new(n)).collect();
    match client.write_step(&points, None, 1, Some(status(400, "bad"))) {
        WriteStep::Done(Err(ClientError::Syntax(body))) => assert_eq!("bad", body),
        other => panic!("{:?}", other),
    }
    match client.write_step(&points, None, 3, Some(status(200, "partial"))) {
        WriteStep::Done(Err(ClientError::CouldNotComplete(body))) => assert_eq!("partial", body),
        other => panic!("{:?}", other),
    }
    match client.write_step(&points, None, 1, Some(Err("down".to_string()))) {
        WriteStep::Done(Err(ClientError::Communication(message))) => assert_eq!("down", message),
        other => panic!("{:?}", other),
    }
    assert!(matches!(client.write_step(&[], None, 0, None), WriteStep::Done(Ok(()))));
}

#[test]
fn io_error_is_a_failure_of_communication() {
    let e = std::io::Error::new(std::io::ErrorKind::Other, "broken pipe");
    match ClientError::from(e) {
        ClientError::Communication(message) => assert_eq!("broken pipe", message),
        other => panic!("{:?}", other),
    }
}

#[test]
fn number_of_requests_is_the_number_of_points_over_the_limit_rounded_up() {
    for (points, limit) in [(0usize, 1u16), (1, 1), (5, 1), (5, 2), (6, 2), (7, 3), (9, 10), (10, 10), (11, 10)] {
        let mut client = client_with_response(status(204, ""), "http://h");
        client.max_batch = limit;
        let list: Vec<Point> = (0..points).map(|_| Point::new("m")).collect();
        client.write_many(&list, None).unwrap();
        let sent = client.hurl().sent.borrow();
        let limit = limit as usize;
        assert_eq!((points + limit - 1) / limit, sent.len());
        for (i, request) in sent.iter().enumerate() {
            let size = lines(&request.body);
            assert!(0 < size && size <= limit);
            if i + 1 < sent.len() {
                assert_eq!(limit, size);
            }
        }
        assert_eq!(points, sent.iter().map(|r| lines(&r.body)).sum::<usize>());
    }
}
