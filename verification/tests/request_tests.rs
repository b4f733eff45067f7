//! The typestate request builder, driven end to end by a small
//! handler, and the publisher's message record.

use qwasr::capabilities::Message;
use qwasr::request::{Context, Handler, PreHandler, Reply, RequestHandler};

/// A provider stub: what the handler would reach capabilities
/// through.
struct Caps {
    tag: &'static str,
}

/// A request that echoes what the dispatcher delivered and what the
/// builder set.
struct Echo {
    text: String,
}

impl Handler<Caps> for Echo {
    type Input = Vec<u8>;
    type Output = String;
    type Error = String;

    fn decode(input: Vec<u8>) -> Result<Echo, String> {
        match String::from_utf8(input) {
            Ok(text) => Ok(Echo { text }),
            Err(_) => Err("not utf-8".to_string()),
        }
    }

    fn handle(self, ctx: Context<'_, Caps>) -> Result<Reply<String>, String> {
        let mut out = format!("{}|{}|{}", ctx.owner, ctx.provider.tag, self.text);
        for (k, v) in ctx.headers.iter() {
            out.push_str(&format!("|{}={}", k, v));
        }
        Ok(Reply { body: out })
    }
}

#[test]
fn full_chain_from_decoded_input() {
    // handler(input) -> provider -> owner -> headers -> handle: the
    // handler sees exactly what was set.
    let pre: PreHandler<Echo> = Echo::handler(b"ping".to_vec()).unwrap();
    let reply = pre
        .provider(Caps { tag: "caps" })
        .owner("tenant-a".to_string())
        .headers(vec![("x-trace".to_string(), "7".to_string())])
        .handle()
        .unwrap();
    assert_eq!(reply.body, "tenant-a|caps|ping|x-trace=7");
}

#[test]
fn decode_failure_is_reported_before_any_handler_runs() {
    let bad = vec![0xff, 0xfe];
    match Echo::handler(bad) {
        Ok(_) => panic!("expected a decode failure"),
        Err(e) => assert_eq!(e, "not utf-8".to_string()),
    }
}

#[test]
fn builder_from_scratch_sets_every_stage() {
    let reply = RequestHandler::new()
        .request::<Echo>(Echo { text: "direct".to_string() })
        .provider(Caps { tag: "p" })
        .owner("own".to_string())
        .handle()
        .unwrap();
    assert_eq!(reply.body, "own|p|direct");
}

#[test]
fn headers_default_to_empty() {
    let reply = PreHandler::new(Echo { text: "t".to_string() })
        .provider(Caps { tag: "p" })
        .owner("o".to_string())
        .handle()
        .unwrap();
    assert_eq!(reply.body, "o|p|t");
}

#[test]
fn message_new_copies_payload_and_has_no_headers() {
    let m = Message::new(b"bytes");
    assert_eq!(m.payload, b"bytes".to_vec());
    assert!(m.headers.is_empty());
}
