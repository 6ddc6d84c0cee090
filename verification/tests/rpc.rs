//! The agent's side: lines in, words out; and the key file.

use nutcracker::framing::{frame, unframe};
use nutcracker::json::Json;
use nutcracker::keyfile::{is_blank, read_key, trim};
use nutcracker::recall::Memory;
use nutcracker::rpc::{
    content_id, forget_reply, read_call, read_line, read_reply, search_reply, tool_call,
    unknown_method, unknown_tool, write_reply, Arguments, Call, Line,
};
use nutcracker::tools::ToolError;
use nutcracker::transport::TransportError;

fn request(line: &str) -> (String, Call) {
    match read_line(line, "default") {
        Line::Request { id, call } => (id, call),
        other => panic!("not a request: {other:?}"),
    }
}

fn no_arguments() -> Arguments {
    Arguments {
        namespace: None,
        item_id: None,
        text: None,
        query: None,
        expires_at: None,
        limit: None,
    }
}

#[test]
fn blank_lines_and_junk_are_told_apart() {
    assert!(matches!(read_line("", "d"), Line::Blank));
    assert!(matches!(read_line(" \t\r\n\u{a0}\u{3000}", "d"), Line::Blank));
    match read_line("{", "d") {
        Line::Malformed(why) => assert!(why.contains("EOF"), "{why}"),
        other => panic!("not malformed: {other:?}"),
    }
    assert!(!is_blank(" x "));
    assert_eq!(trim(" \u{2028}a b\u{85} "), "a b");
    assert_eq!(trim(""), "");
}

#[test]
fn requests_are_known_by_their_method() {
    assert!(matches!(
        request("{\"id\":1,\"method\":\"initialize\"}"),
        (id, Call::Initialize) if id == "1"
    ));
    assert!(matches!(
        request("{\"method\":\"notifications/initialized\"}"),
        (id, Call::Initialized) if id == "null"
    ));
    assert!(matches!(
        request("{\"id\":\"x\",\"method\":\"tools/list\"}"),
        (id, Call::ListTools) if id == "\"x\""
    ));
    match request("{\"id\":{\"a\":[1]},\"method\":\"tools/none\"}") {
        (id, Call::UnknownMethod(m)) => assert_eq!((id.as_str(), m.as_str()), ("{\"a\":[1]}", "tools/none")),
        other => panic!("{other:?}"),
    }
    assert!(matches!(request("[]"), (_, Call::UnknownMethod(m)) if m.is_empty()));
    assert!(matches!(request("{\"method\":7}"), (_, Call::UnknownMethod(m)) if m.is_empty()));
}

#[test]
fn a_write_is_read_with_its_arguments() {
    let line = "{\"id\":2,\"method\":\"tools/call\",\"params\":{\"name\":\"memory.write\",\
                \"arguments\":{\"text\":\"t\",\"namespace\":\"n\",\"item_id\":\"i\",\"expires_at\":9}}}";
    match request(line).1 {
        Call::Write { namespace, item_id, text, expires_at } => {
            assert_eq!(namespace, "n");
            assert_eq!(item_id, "i");
            assert_eq!(text, "t");
            assert_eq!(expires_at, Some(9));
        }
        other => panic!("{other:?}"),
    }
    let bare = "{\"method\":\"tools/call\",\"params\":{\"name\":\"memory.write\",\
                \"arguments\":{\"text\":\"hello\",\"expires_at\":-1}}}";
    match request(bare).1 {
        Call::Write { namespace, item_id, text, expires_at } => {
            assert_eq!(namespace, "default");
            assert_eq!(item_id, "m005a0d15131ec7a1");
            assert_eq!(text, "hello");
            assert_eq!(expires_at, None);
        }
        other => panic!("{other:?}"),
    }
}

#[test]
fn the_other_tools_fall_back_to_what_they_announce() {
    let call = |name: &str, arguments: &str| {
        request(&format!(
            "{{\"method\":\"tools/call\",\"params\":{{\"name\":\"{name}\",\"arguments\":{arguments}}}}}"
        ))
        .1
    };
    match call("memory.search", "{\"query\":\"q\"}") {
        Call::Search { namespace, query, limit } => {
            assert_eq!((namespace.as_str(), query.as_str(), limit), ("default", "q", 10));
        }
        other => panic!("{other:?}"),
    }
    match call("memory.search", "{\"limit\":3}") {
        Call::Search { query, limit, .. } => assert_eq!((query.as_str(), limit), ("", 3)),
        other => panic!("{other:?}"),
    }
    match call("memory.read", "{\"item_id\":\"a\",\"namespace\":\"n\"}") {
        Call::Read { namespace, item_id } => {
            assert_eq!((namespace.as_str(), item_id.as_str()), ("n", "a"))
        }
        other => panic!("{other:?}"),
    }
    match call("memory.forget", "null") {
        Call::Forget { namespace, item_id } => {
            assert_eq!((namespace.as_str(), item_id.as_str()), ("default", ""))
        }
        other => panic!("{other:?}"),
    }
    match call("memory.dream", "{}") {
        Call::UnknownTool(name) => assert_eq!(name, "memory.dream"),
        other => panic!("{other:?}"),
    }
    assert!(matches!(
        request("{\"method\":\"tools/call\"}").1,
        Call::UnknownTool(name) if name.is_empty()
    ));
}

#[test]
fn a_tool_call_is_decided_by_its_name_and_arguments() {
    let mut args = no_arguments();
    args.item_id = Some("x".into());
    args.text = Some("t".into());
    match tool_call("memory.write", args, "ns") {
        Call::Write { namespace, item_id, text, .. } => {
            assert_eq!(
                (namespace.as_str(), item_id.as_str(), text.as_str()),
                ("ns", "x", "t")
            )
        }
        other => panic!("{other:?}"),
    }
    match tool_call("memory.write", no_arguments(), "ns") {
        Call::Write { item_id, text, .. } => {
            assert_eq!((item_id.as_str(), text.as_str()), ("m14650fb0739d0383", ""))
        }
        other => panic!("{other:?}"),
    }
    let v = Json::Object(vec![("method".into(), "\"tools/list\"".into())]);
    assert!(matches!(read_call(&v, "ns"), Call::ListTools));
    assert!(matches!(read_call(&Json::Null, "ns"), Call::UnknownMethod(_)));
}

#[test]
fn the_same_thought_gets_the_same_id() {
    assert_eq!(content_id("we chose postgres"), "m5029d92878eaf362");
    assert_eq!(content_id("we chose postgres"), content_id("we chose postgres"));
    assert_ne!(content_id("a"), content_id("b"));
    assert_eq!(content_id(""), "m14650fb0739d0383");
}

#[test]
fn answers_say_what_happened() {
    let missing = || Err(ToolError::Transport(TransportError::NotFound));
    assert_eq!(write_reply("i", &Ok(())), Ok("remembered as i".into()));
    assert_eq!(
        write_reply("i", &Err(ToolError::Crypto("encryption failed".into()))),
        Err("crypto: encryption failed".into())
    );
    let m = Memory {
        item_id: "i".into(),
        text: "t".into(),
        shared_bands: 0,
        score: 0,
    };
    assert_eq!(read_reply(&Ok(m)), Ok("t".into()));
    assert_eq!(read_reply(&Err(ToolError::Transport(TransportError::NotFound))), Err("item not found".into()));
    assert_eq!(forget_reply(&Ok(true)), Ok("forgotten".into()));
    assert_eq!(
        forget_reply(&Ok(false)),
        Ok("nothing to forget under that id".into())
    );
    assert_eq!(forget_reply(&missing()), Err("item not found".into()));
    assert_eq!(unknown_tool("x"), "unknown tool: x");
    assert_eq!(unknown_method("y"), "unknown method: y");
}

#[test]
fn hits_are_told_one_to_a_line() {
    let memory = |id: &str, text: &str| Memory {
        item_id: id.into(),
        text: text.into(),
        shared_bands: 1,
        score: 0,
    };
    assert_eq!(search_reply(&vec![], &vec![]), "no matching memories");
    assert_eq!(
        search_reply(&vec![memory("a", "x")], &vec!["1.00".into()]),
        "[a 1.00] x"
    );
    assert_eq!(
        search_reply(
            &vec![memory("a", "x"), memory("b", "y"), memory("c", "z")],
            &vec!["0.90".into(), "0.50".into(), "-0.10".into()]
        ),
        "[a 0.90] x\n[b 0.50] y\n[c -0.10] z"
    );
}

#[test]
fn a_framed_memory_gives_back_its_name_and_text() {
    for (id, text) in [("", ""), ("a", "b"), ("имя", "текст\0x"), ("x\0y", "")] {
        let (name, said) = unframe(&frame(id, text));
        assert_eq!((name.as_str(), said.as_str()), (id, text));
    }
    assert_eq!(frame("ab", "c"), vec![0, 0, 0, 2, b'a', b'b', b'c']);
}

/// An older item stays readable instead of vanishing.
#[test]
fn a_payload_that_does_not_parse_is_a_bare_text() {
    assert_eq!(unframe(b"abc"), (String::new(), "abc".into()));
    assert_eq!(unframe(b"text"), (String::new(), "text".into()));
    assert_eq!(unframe(b""), (String::new(), String::new()));
    assert_eq!(unframe(&[0, 0, 0, 9, b'x']), (String::new(), "\0\0\0\tx".into()));
    assert_eq!(unframe(&[0, 0, 0, 1, 0xff, b'y']), ("\u{fffd}".into(), "y".into()));
}

#[test]
fn a_key_file_holds_raw_bytes_or_hexadecimal() {
    let raw: Vec<u8> = (0..32).collect();
    let digits: String = raw.iter().map(|b| format!("{b:02X}")).collect();
    let expected = read_key(&raw).ok().unwrap().namespace_key("n", 0);
    for file in [digits.clone(), format!("  {digits}\r\n"), digits.to_lowercase()] {
        let key = read_key(file.as_bytes()).ok().unwrap();
        assert_eq!(key.namespace_key("n", 0).as_bytes(), expected.as_bytes());
    }
    for bad in [&raw[..31], &[b'0'; 63][..], &[b'g'; 64][..], &[][..], &[b'0'; 65][..]] {
        assert_eq!(
            read_key(bad).err().unwrap(),
            "key file must hold 32 raw bytes or 64 hex characters"
        );
    }
    // Thirty-two bytes are a key whatever they are.
    assert!(read_key(&[0xff; 32]).is_ok());
    assert!(read_key(&[b' '; 32]).is_ok());
    // A sign is no digit here.
    assert!(read_key(&[b'+'; 64]).is_err());
}
