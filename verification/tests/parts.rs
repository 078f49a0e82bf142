use teams_cli::chunks::split_bytes;
use teams_cli::files::{file_name, temp_name, WriteStep, DIR_MODE, FILE_MODE};
use teams_cli::header::ChunkHeader;
use teams_cli::keys::{chunk_key, entry_key, index_key, SERVICE_NAME};
use teams_cli::models::chat::{
    Chat, ChatCreateRequest, ChatMessageInfo, ChatUpdateRequest, ChatUserAction, ChatUserRef,
};
use teams_cli::models::member::AddMemberRequest;
use teams_cli::models::message::{ChatMessageFrom, Identity, ItemBody};
use teams_cli::replies::{absent_as_none, deleted, failure, Lookup};
use teams_cli::text::{decimal_text, is_before, joined, same_text, to_ascii_lowercase, trim};

#[test]
fn keys_of_entries() {
    assert_eq!(SERVICE_NAME, "teams-cli");
    assert_eq!(entry_key("default"), "default:token");
    assert_eq!(chunk_key("default", 0), "default:token:0");
    assert_eq!(chunk_key("wörk", 120), "wörk:token:120");
    assert_eq!(
        chunk_key("p", usize::MAX),
        format!("p:token:{}", usize::MAX)
    );
    assert_eq!(index_key(), "profile-index");
    assert_ne!(entry_key("a:token:0"), chunk_key("a", 0));
}

#[test]
fn texts() {
    assert_eq!(decimal_text(0), "0");
    assert_eq!(decimal_text(10), "10");
    assert_eq!(decimal_text(u128::MAX), u128::MAX.to_string());
    assert_eq!(to_ascii_lowercase("AbZ[@ÄÉ"), "abz[@ÄÉ");
    assert_eq!(joined("a", "b"), "ab");
    assert!(same_text("ab", "ab"));
    assert!(!same_text("ab", "Ab"));
}

#[test]
fn blanks_are_those_of_the_standard_library() {
    for u in 0..=0x3100 {
        if let Some(c) = char::from_u32(u) {
            let text = format!("{c}x{c}y{c}");
            assert_eq!(trim(&text), text.trim(), "{u:x}");
        }
    }
    assert_eq!(trim(" \t\r\n "), "");
    assert_eq!(trim(""), "");
}

#[test]
fn pieces() {
    let none: Vec<&[u8]> = Vec::new();
    assert_eq!(split_bytes(b"", 3), none);
    assert_eq!(split_bytes(b"abcdefg", 3), vec![&b"abc"[..], &b"def"[..], &b"g"[..]]);
    assert_eq!(split_bytes(b"abcdef", 3), vec![&b"abc"[..], &b"def"[..]]);
    assert_eq!(split_bytes(b"ab", usize::MAX), vec![&b"ab"[..]]);
}

#[test]
fn headers() {
    let text = ChunkHeader { chunks: 17 }.to_json().unwrap();
    assert_eq!(text, "{\"chunks\":17}");
    assert_eq!(ChunkHeader::parse(&text).unwrap().chunks, 17);
    let header = ChunkHeader { chunks: usize::MAX };
    assert_eq!(
        ChunkHeader::parse(&header.to_json().unwrap()).unwrap().chunks,
        usize::MAX
    );
    for (text, chunks) in [
        (" { \"chunks\" : 3 } ", 3),
        ("{\"\\u0063hunks\":4}", 4),
        ("[5]", 5),
        (" [ 0 ]\n", 0),
    ] {
        assert_eq!(ChunkHeader::parse(text).unwrap().chunks, chunks, "{text}");
    }
    for text in [
        "",
        "3",
        "\"chunks\"",
        "{}",
        "[]",
        "[1,2]",
        "{\"chunks\":1,\"chunks\":1}",
        "{\"chunks\":1,\"chunks\":2}",
        "{\"chunks\":1,\"more\":2}",
        "{\"more\":2}",
        "{\"chunks\":-1}",
        "{\"chunks\":1.0}",
        "{\"chunks\":\"1\"}",
        "{\"chunks\":null}",
        "{\"chunks\":18446744073709551616}",
        "{\"chunks\":1} x",
        "{\"access_token\":\"t\"}",
    ] {
        assert!(ChunkHeader::parse(text).is_none(), "{text}");
    }
}

#[test]
fn a_header_is_told_by_what_a_text_reads_as() {
    let one = |name: &str, value: u64| Some(vec![(name.to_string(), value)]);
    let chunks = |text: &str, fields, lone| {
        ChunkHeader::from_readings(text, fields, lone).map(|header| header.chunks)
    };
    assert_eq!(chunks("{\"chunks\":7}", one("chunks", 7), None), Some(7));
    assert_eq!(chunks("{\"chunk\":7}", one("chunk", 7), None), None);
    assert_eq!(chunks("{\"chunks\":7,\"chunks\":7}", one("chunks", 7), None), None);
    assert_eq!(chunks("{\"chunks\":\"7\"}", None, None), None);
    assert_eq!(chunks("{}", Some(vec![]), None), None);
    assert_eq!(chunks("[9]", None, Some(9)), Some(9));
    assert_eq!(chunks("[]", None, None), None);
}

#[test]
fn an_object_of_several_fields_is_no_header() {
    for text in [
        "{\"access_token\":\"t\",\"profile\":\"work\"}",
        "{\"chunks\":1,\"profile\":2}",
        "{\"a:b\":1}",
        "{\":\":1}",
    ] {
        assert!(ChunkHeader::parse(text).is_none(), "{text}");
    }
}

#[test]
fn temporary_names_differ_with_the_process_and_the_time() {
    let name = temp_name("a:token", None, 1, 23);
    assert_eq!(name, ".a.token.1.23.tmp");
    assert_ne!(name, temp_name("a:token", None, 12, 3));
    assert_ne!(name, temp_name("a:token", None, 1, 24));
    assert_ne!(name, temp_name("a:token.1", None, 1, 2));
}

#[test]
fn a_temporary_name_is_made_from_the_last_component_of_the_path() {
    for key in ["", ".", ":", "/", "\\"] {
        assert_eq!(temp_name(key, Some("tokens"), 1, 2), ".tokens.1.2.tmp");
        assert_eq!(temp_name(key, None, 1, 2), ".token.1.2.tmp");
    }
    for key in ["..", "::", "./"] {
        assert_eq!(temp_name(key, Some("tokens"), 1, 2), ".token.1.2.tmp");
    }
    assert_eq!(temp_name("...", Some("tokens"), 1, 2), ".....1.2.tmp");
    // The component that the standard library finds.
    for dir in ["/a/tokens", "tokens", "/", "..", ""] {
        for key in ["", ".", "..", "work:token", ":", "::", "...", " "] {
            let dir = std::path::Path::new(dir);
            let path = dir.join(file_name(key));
            let name = path.file_name().and_then(|n| n.to_str()).unwrap_or("token");
            let last = dir.file_name().and_then(|n| n.to_str());
            assert_eq!(temp_name(key, last, 7, 8), format!(".{name}.7.8.tmp"), "{key}");
        }
    }
}

#[test]
fn texts_are_ordered_as_strings_are() {
    let words = ["", "a", "b", "ab", "aa", "Z", "\u{e9}", "\u{ffff}", "\u{10000}", "work:token"];
    for a in words {
        for b in words {
            assert_eq!(is_before(a, b), a < b, "{a} {b}");
        }
    }
}

#[test]
fn every_entry_has_a_file_in_the_directory() {
    for profile in ["", ".", "..", "/"] {
        for key in [entry_key(profile), chunk_key(profile, 0), index_key()] {
            let name = file_name(&key);
            assert!(name.len() > 2 && !name.contains('/'), "{name}");
        }
        assert_ne!(file_name(&entry_key(profile)), file_name(&index_key()));
        assert_ne!(file_name(&entry_key(profile)), file_name(&chunk_key(profile, 0)));
        assert_ne!(file_name(&chunk_key(profile, 1)), file_name(&chunk_key(profile, 11)));
    }
}

#[test]
fn file_names() {
    assert_eq!(file_name("default:token"), "default.token");
    assert_eq!(file_name("a/b\\c:token:3"), "a.b.c.token.3");
    assert_eq!(file_name("ünï:token"), "ünï.token");
    assert_eq!(
        temp_name("default:token", Some("tokens"), 42, 1_788_942_159_890_000_001),
        ".default.token.42.1788942159890000001.tmp"
    );
    assert_eq!(DIR_MODE, 0o700);
    assert_eq!(FILE_MODE, 0o600);
}

#[test]
fn a_file_is_written_whole_and_then_renamed() {
    let step = WriteStep::first();
    assert!(matches!(step, WriteStep::CreateDir));
    let step = step.next(Ok(()), "/d");
    assert!(matches!(step, WriteStep::RestrictDir));
    let step = step.next(Ok(()), "/d");
    assert!(matches!(step, WriteStep::WriteTemp));
    let step = step.next(Ok(()), "/d");
    assert!(matches!(step, WriteStep::Replace));
    let step = step.next(Ok(()), "/d");
    assert!(matches!(step, WriteStep::Stored));
    assert!(matches!(step.next(Ok(()), "/d"), WriteStep::Stored));
}

#[test]
fn a_write_that_fails_says_where() {
    let why = || Err("no".to_string());
    let text = |step: WriteStep| match step {
        WriteStep::Failed(e) => e.message(),
        _ => panic!("not failed"),
    };
    assert_eq!(
        text(WriteStep::CreateDir.next(why(), "/d")),
        "Failed to create token directory /d: no"
    );
    assert_eq!(
        text(WriteStep::RestrictDir.next(why(), "/d")),
        "Failed to set permissions on /d: no"
    );
    assert_eq!(
        text(WriteStep::WriteTemp.next(why(), "/d")),
        "Failed to store token: no"
    );
    let step = WriteStep::Replace.next(why(), "/d");
    assert!(matches!(step, WriteStep::RemoveTemp(_)));
    let step = step.next(Err("still there".to_string()), "/d");
    assert_eq!(text(step.next(Ok(()), "/d")), "Failed to store token: no");
}

#[test]
fn absent_is_no_error() {
    assert_eq!(absent_as_none(Lookup::Found(3), "x").unwrap(), Some(3));
    let none: Lookup<u8> = Lookup::Absent;
    assert_eq!(absent_as_none(none, "x").unwrap(), None);
    let failed: Lookup<u8> = Lookup::Failed("locked".to_string());
    assert_eq!(
        absent_as_none(failed, "retrieve token").unwrap_err().message(),
        "Failed to retrieve token: locked"
    );
    assert!(deleted(Lookup::Found(())).unwrap());
    assert!(!deleted(Lookup::Absent).unwrap());
    assert_eq!(
        deleted(Lookup::Failed("locked".to_string())).unwrap_err().message(),
        "Failed to delete token: locked"
    );
    assert_eq!(
        failure("create keyring entry", "bad").message(),
        "Failed to create keyring entry: bad"
    );
}

#[test]
fn chat_resources_hold_what_they_are_given() {
    let chat = Chat {
        id: Some("chat1".to_string()),
        topic: Some("Project X".to_string()),
        chat_type: Some("group".to_string()),
        last_updated_date_time: Some("2024-01-01T00:00:00Z".to_string()),
        last_message_preview: Some(ChatMessageInfo {
            id: Some("1788942159890".to_string()),
            created_date_time: None,
            message_type: Some("message".to_string()),
            is_deleted: Some(false),
            body: Some(ItemBody {
                content_type: Some("text".to_string()),
                content: Some("Hey both!".to_string()),
            }),
            from: Some(ChatMessageFrom {
                user: Some(Identity {
                    id: Some("u-1".to_string()),
                    display_name: Some("Catalin Lupuleti".to_string()),
                    user_identity_type: Some("aadUser".to_string()),
                }),
            }),
        }),
    };
    let copy = chat.clone();
    assert_eq!(copy.topic.as_deref(), Some("Project X"));
    let name = copy
        .last_message_preview
        .and_then(|p| p.from)
        .and_then(|f| f.user)
        .and_then(|u| u.display_name);
    assert_eq!(name.as_deref(), Some("Catalin Lupuleti"));
    let request = ChatCreateRequest {
        chat_type: "oneOnOne".to_string(),
        topic: None,
        members: vec![AddMemberRequest {
            odata_type: "#microsoft.graph.aadUserConversationMember".to_string(),
            roles: vec!["owner".to_string()],
            user_bind: "https://graph.microsoft.com/v1.0/users('u-1')".to_string(),
        }],
    };
    assert_eq!(request.clone().members.len(), 1);
    assert!(ChatUpdateRequest { topic: None }.topic.is_none());
    let action = ChatUserAction {
        user: ChatUserRef {
            id: "u-1".to_string(),
        },
    };
    assert_eq!(action.user.id, "u-1");
}
