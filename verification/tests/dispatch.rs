//! Dispatch layer behaviour: request validation at the source, response
//! validation at the adapter, pipelined ordering, and clean shutdown.

use lineproto::{
    ByteBuffer, Client, Frame, Handler, LineError, LineService, Parser, Serializer,
};

/// A handler that reverses each request's characters.
struct Reverse;

impl Handler for Reverse {
    fn call(&self, req: String) -> Result<String, LineError> {
        Ok(req.chars().rev().collect())
    }

    fn poll_ready(&self) -> bool {
        true
    }
}

/// A handler that echoes the request back unchanged.
struct Echo;

impl Handler for Echo {
    fn call(&self, req: String) -> Result<String, LineError> {
        Ok(req)
    }

    fn poll_ready(&self) -> bool {
        true
    }
}

/// A handler whose responses embed the delimiter.
struct Corrupt;

impl Handler for Corrupt {
    fn call(&self, req: String) -> Result<String, LineError> {
        Ok(format!("{}\n{}", req, req))
    }

    fn poll_ready(&self) -> bool {
        true
    }
}

/// Drive one exchange pass: move the client's outbound bytes to a server
/// built from the handler, dispatch every complete request in arrival
/// order, and feed the serialized responses back to the client.
fn exchange<T: Handler>(client: &mut Client, service: &LineService<T>) {
    let wire = client.take_outbound();
    let mut server_in = ByteBuffer::new();
    server_in.write_slice(&wire);
    let mut server_out = ByteBuffer::new();
    let mut parser = Parser;
    let mut serializer = Serializer;
    loop {
        match parser.parse(&mut server_in) {
            Some(Frame::Message(req)) => match service.call(req) {
                Ok(resp) => serializer.serialize(Frame::Message(resp), &mut server_out),
                Err(_) => serializer.serialize(
                    Frame::Error("service failure".to_string()),
                    &mut server_out,
                ),
            },
            Some(other) => panic!("unexpected frame on the server: {:?}", other),
            None => break,
        }
    }
    let n = server_out.len();
    server_out.compact();
    let reply = server_out.shift(n);
    client.feed(&reply);
}

#[test]
fn delimiter_rejection_sends_nothing() {
    let mut client = Client::new();
    let result = client.call("a\nb".to_string());
    assert!(matches!(result, Err(LineError::InvalidInput)));
    // nothing was queued for the wire
    assert!(client.take_outbound().is_empty());
}

#[test]
fn valid_call_is_queued_in_frame_form() {
    let mut client = Client::new();
    assert!(client.call("ping".to_string()).is_ok());
    assert_eq!(client.take_outbound(), b"ping\n".to_vec());
}

#[test]
fn client_is_always_ready() {
    let client = Client::new();
    assert!(client.poll_ready());
}

#[test]
fn ordering_under_pipelining() {
    let mut client = Client::new();
    let service = LineService::new(Reverse);
    for req in ["1", "2", "3"] {
        assert!(client.call(req.to_string()).is_ok());
    }
    exchange(&mut client, &service);
    let mut responses = Vec::new();
    while let Some(r) = client.poll_response() {
        responses.push(r.expect("response should decode"));
    }
    assert_eq!(responses, vec!["1".to_string(), "2".to_string(), "3".to_string()]);
}

#[test]
fn ordering_under_pipelining_multichar() {
    let mut client = Client::new();
    let service = LineService::new(Reverse);
    for req in ["abc", "defg", "h"] {
        assert!(client.call(req.to_string()).is_ok());
    }
    exchange(&mut client, &service);
    let mut responses = Vec::new();
    while let Some(r) = client.poll_response() {
        responses.push(r.expect("response should decode"));
    }
    assert_eq!(
        responses,
        vec!["cba".to_string(), "gfed".to_string(), "h".to_string()]
    );
}

#[test]
fn response_with_delimiter_is_rejected_by_adapter() {
    let service = LineService::new(Corrupt);
    let result = service.call("x".to_string());
    assert!(matches!(result, Err(LineError::InvalidResponse)));
}

#[test]
fn handler_error_passes_through() {
    struct Failing;
    impl Handler for Failing {
        fn call(&self, _req: String) -> Result<String, LineError> {
            Err(LineError::Decode)
        }
        fn poll_ready(&self) -> bool {
            true
        }
    }
    let service = LineService::new(Failing);
    assert!(matches!(service.call("x".to_string()), Err(LineError::Decode)));
}

#[test]
fn service_is_always_ready() {
    let service = LineService::new(Echo);
    assert!(service.poll_ready());
}

#[test]
fn echo_round_trip_through_dispatch() {
    let mut client = Client::new();
    let service = LineService::new(Echo);
    assert!(client.call("hello there".to_string()).is_ok());
    exchange(&mut client, &service);
    let resp = client.poll_response().expect("one response").expect("ok");
    assert_eq!(resp, "hello there");
    assert!(client.poll_response().is_none());
}

#[test]
fn undecodable_response_fails_the_call() {
    let mut client = Client::new();
    assert!(client.call("q".to_string()).is_ok());
    let _ = client.take_outbound();
    // a peer response whose payload is not valid UTF-8
    client.feed(&[0xFF, 0xFE, b'\n']);
    let resolved = client.poll_response().expect("one response");
    assert!(matches!(resolved, Err(LineError::Decode)));
}

#[test]
fn clean_shutdown_yields_done_once() {
    let mut client = Client::new();
    let (sentinel, failed, error) = client.close();
    assert!(matches!(sentinel, Frame::Done));
    assert_eq!(failed, 0);
    assert!(matches!(error, LineError::ConnectionClosed));
}

#[test]
fn shutdown_fails_outstanding_calls() {
    let mut client = Client::new();
    assert!(client.call("never answered".to_string()).is_ok());
    let _ = client.take_outbound();
    let (sentinel, failed, error) = client.close();
    assert!(matches!(sentinel, Frame::Done));
    // the one call still awaiting its response must fail, not hang
    assert_eq!(failed, 1);
    assert!(matches!(error, LineError::ConnectionClosed));
}

#[test]
fn shutdown_with_buffered_residue_is_flagged_as_truncation() {
    let mut client = Client::new();
    assert!(client.call("q".to_string()).is_ok());
    let _ = client.take_outbound();
    // a response arrives cut off mid-frame, then the peer disconnects
    client.feed(b"par");
    assert!(client.poll_response().is_none());
    let (sentinel, failed, error) = client.close();
    assert!(matches!(sentinel, Frame::Error(ref e) if e == "truncated frame"));
    assert_eq!(failed, 1);
    assert!(matches!(error, LineError::TruncatedFrame));
}

#[test]
fn partial_response_resolves_no_call() {
    let mut client = Client::new();
    assert!(client.call("q".to_string()).is_ok());
    let _ = client.take_outbound();
    client.feed(b"par");
    assert!(client.poll_response().is_none());
    client.feed(b"tial\n");
    let resp = client.poll_response().expect("one response").expect("ok");
    assert_eq!(resp, "partial");
}
