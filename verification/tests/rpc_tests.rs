use maple::path::{preview_of, set_current_dir, working_dir};
use maple::rpc::{
    filter_collected, frame, grep_command, grep_request, initial_size, read_frame, route,
    split_lines, unknown_method, Frame, Message, Params, Route,
};
use maple::source::Command;

fn params() -> Params {
    Params { query: None, cwd: None, dir: None, curline: None, winwidth: None }
}

fn message(method: &str, id: u64) -> Message {
    Message { method: method.to_string(), session_id: 1, id, params: params() }
}

#[test]
fn route_by_method_name() {
    assert_eq!(route("filer"), Route::Filer);
    assert_eq!(route("filer/on_init"), Route::FilerOnInit);
    assert_eq!(route("initialize_global_env"), Route::InitializeGlobalEnv);
    assert_eq!(route("on_init"), Route::OnInit);
    assert_eq!(route("on_typed"), Route::OnTyped);
    assert_eq!(route("on_move"), Route::OnMove);
    assert_eq!(route("filer/on_move"), Route::OnMove);
    assert_eq!(route("exit"), Route::Exit);
    assert_eq!(route("grep"), Route::Grep);
    assert_eq!(route("files"), Route::Files);
}

#[test]
fn route_of_unknown_names() {
    assert_eq!(route(""), Route::Unknown);
    assert_eq!(route("on_typed "), Route::Unknown);
    assert_eq!(route("On_typed"), Route::Unknown);
    assert_eq!(route("on_type"), Route::Unknown);
    assert_eq!(route("filer/"), Route::Unknown);
}

#[test]
fn unknown_method_echoes_the_id() {
    let r = unknown_method(&message("bogus", 77));
    assert_eq!(r.id, 77);
    assert_eq!(r.error, "unknown method: bogus");
}

#[test]
fn frame_has_the_length_in_its_header() {
    assert_eq!(frame(b"{}"), b"Content-length: 2\n\n\n{}".to_vec());
    assert_eq!(frame(b""), b"Content-length: 0\n\n\n".to_vec());
    let payload = vec![b'x'; 1234];
    let framed = frame(&payload);
    assert!(framed.starts_with(b"Content-length: 1234\n\n\n"));
    assert_eq!(framed.len(), 23 + 1234);
    assert_eq!(&framed[23..], &payload[..]);
}

#[test]
fn frame_counts_bytes_not_characters() {
    assert_eq!(frame("é".as_bytes()), "Content-length: 2\n\n\né".as_bytes().to_vec());
}

#[test]
fn read_frame_undoes_frame() {
    for payload in [&b""[..], b"{}", b"{\"id\":1}", b"0123456789", &[b'x'; 300][..]] {
        let mut buf = frame(payload);
        let start = buf.len() - payload.len();
        assert_eq!(read_frame(&buf), Frame::Whole { start, end: buf.len() });
        let end = buf.len();
        buf.extend_from_slice(b"Content-length: 7");
        assert_eq!(read_frame(&buf), Frame::Whole { start, end });
        assert_eq!(&buf[start..end], payload);
    }
}

#[test]
fn read_frame_waits_for_more() {
    assert_eq!(read_frame(b""), Frame::Partial);
    assert_eq!(read_frame(b"Content"), Frame::Partial);
    assert_eq!(read_frame(b"Content-length: "), Frame::Partial);
    assert_eq!(read_frame(b"Content-length: 12"), Frame::Partial);
    assert_eq!(read_frame(b"Content-length: 12\n"), Frame::Partial);
    assert_eq!(read_frame(b"Content-length: 12\n\n"), Frame::Partial);
    assert_eq!(read_frame(b"Content-length: 12\n\n\n"), Frame::Partial);
    assert_eq!(read_frame(b"Content-length: 12\n\n\n12345678901"), Frame::Partial);
    assert_eq!(
        read_frame(b"Content-length: 12\n\n\n123456789012"),
        Frame::Whole { start: 21, end: 33 }
    );
}

#[test]
fn read_frame_rejects_what_is_no_frame() {
    assert_eq!(read_frame(b"{\"id\":1}"), Frame::Broken);
    assert_eq!(read_frame(b"content-length: 1\n\n\nx"), Frame::Broken);
    assert_eq!(read_frame(b"Content-length: x"), Frame::Broken);
    assert_eq!(read_frame(b"Content-length: \n\n\n"), Frame::Broken);
    assert_eq!(read_frame(b"Content-length: 1\n\nx"), Frame::Broken);
    assert_eq!(read_frame(b"Content-length: 1\r\n\r\nx"), Frame::Broken);
    assert_eq!(read_frame(b"Content-length: 99999999999999999999999999\n\n\n"), Frame::Broken);
    assert_eq!(read_frame(b"Conten_"), Frame::Broken);
}

#[test]
fn read_frame_takes_leading_zeros() {
    assert_eq!(read_frame(b"Content-length: 002\n\n\nab"), Frame::Whole { start: 22, end: 24 });
}

#[test]
fn initial_size_counts_line_feeds() {
    assert_eq!(initial_size(b""), 0);
    assert_eq!(initial_size(b"abc"), 0);
    assert_eq!(initial_size(b"a\nb\nc\n"), 3);
    assert_eq!(initial_size(b"\n\n"), 2);
    let big: Vec<u8> = (0..10_000).map(|i| if i % 10 == 0 { b'\n' } else { b'x' }).collect();
    assert_eq!(initial_size(&big), 1000);
}

#[test]
fn split_lines_cuts_at_line_feeds() {
    assert_eq!(split_lines("a\nb\nc"), vec!["a", "b", "c"]);
    assert_eq!(split_lines("a\nb\n"), vec!["a", "b", ""]);
    assert_eq!(split_lines(""), vec![""]);
    assert_eq!(split_lines("\n"), vec!["", ""]);
    assert_eq!(split_lines("été\nà"), vec!["été", "à"]);
    let text = "one\n\ntwo\r\nthree";
    let expected: Vec<String> = text.split('\n').map(|s| s.to_string()).collect();
    assert_eq!(split_lines(text), expected);
}

#[test]
fn filter_collected_answers_from_the_output_of_a_command() {
    let data = b"src/main.rs\nsrc/lib.rs\nREADME.md\n";
    let reply = filter_collected(data, "src", 9, 10, None);
    assert_eq!(reply.id, 9);
    assert_eq!(reply.initial_size, 3);
    assert_eq!(reply.page.total, 2);
    assert_eq!(reply.page.lines, vec!["src/main.rs", "src/lib.rs"]);
    assert_eq!(reply.page.indices, vec![vec![0, 1, 2], vec![0, 1, 2]]);
}

#[test]
fn filter_collected_replaces_what_is_not_utf8() {
    let data = b"ab\xffc\nabc\n";
    let reply = filter_collected(data, "c", 1, 10, None);
    assert_eq!(reply.initial_size, 2);
    assert_eq!(reply.page.lines, vec!["abc", "ab\u{fffd}c"]);
    assert_eq!(reply.page.indices, vec![vec![2], vec![5]]);
}

#[test]
fn grep_command_searches_for_the_query() {
    let cmd = grep_command("needle", Some("/work".to_string()));
    assert_eq!(cmd.program, "rg");
    assert_eq!(
        cmd.args,
        vec!["--column", "--line-number", "--no-heading", "--color=never", "--smart-case", "needle"]
    );
    assert_eq!(cmd.dir, Some("/work".to_string()));
}

#[test]
fn grep_request_needs_a_query() {
    assert!(grep_request(message("grep", 1)).is_none());
    let mut msg = message("grep", 1);
    msg.params.query = Some("needle".to_string());
    msg.params.dir = Some("/work".to_string());
    let cmd = grep_request(msg).unwrap();
    assert_eq!(cmd.args[5], "needle");
    assert_eq!(cmd.dir, Some("/work".to_string()));
}

#[test]
fn scenario_directory_fallback() {
    // The configured path names a file: the command runs where the file lies.
    let mut cmd = Command { program: "rg".to_string(), args: vec![], dir: None };
    set_current_dir(&mut cmd, Some("/tmp/project/src/main.rs".to_string()), false);
    assert_eq!(cmd.dir, Some("/tmp/project/src".to_string()));
    assert_eq!(cmd.program, "rg");
}

#[test]
fn set_current_dir_keeps_a_directory() {
    let mut cmd = Command { program: "rg".to_string(), args: vec!["x".to_string()], dir: None };
    set_current_dir(&mut cmd, Some("/tmp/project".to_string()), true);
    assert_eq!(cmd.dir, Some("/tmp/project".to_string()));
    assert_eq!(cmd.args, vec!["x"]);
    set_current_dir(&mut cmd, None, false);
    assert_eq!(cmd.dir, Some("/tmp/project".to_string()));
    let mut bare = Command { program: "rg".to_string(), args: vec![], dir: None };
    set_current_dir(&mut bare, None, true);
    assert_eq!(bare.dir, None);
}

#[test]
fn set_current_dir_of_a_path_without_parent() {
    let mut cmd = Command { program: "rg".to_string(), args: vec![], dir: None };
    set_current_dir(&mut cmd, Some("/".to_string()), false);
    assert_eq!(cmd.dir, Some("/".to_string()));
    set_current_dir(&mut cmd, Some("file.txt".to_string()), false);
    assert_eq!(cmd.dir, Some(String::new()));
}

#[test]
fn working_dir_picks_the_path_or_its_parent() {
    assert_eq!(working_dir("/a/b".to_string(), true, "/a".to_string()), "/a/b");
    assert_eq!(working_dir("/a/b".to_string(), false, "/a".to_string()), "/a");
}

#[test]
fn preview_joins_relative_paths_to_the_working_directory() {
    let p = preview_of(3, "/work", "src/main.rs");
    assert_eq!(p.id, 3);
    assert_eq!(p.path, "/work/src/main.rs");
    assert_eq!(preview_of(4, "/work", "/abs/file").path, "/abs/file");
    assert_eq!(preview_of(5, "/work/", "file").path, "/work/file");
}

#[test]
fn answer_collected_filters_once_the_output_is_there() {
    let mut msg = message("whatever", 5);
    msg.params.query = Some("src".to_string());
    let data = b"src/main.rs\nREADME.md\n";
    match maple::rpc::answer_collected(Some(&data[..]), &msg, 10) {
        maple::rpc::CollectedAnswer::Page(reply) => {
            assert_eq!(reply.id, 5);
            assert_eq!(reply.initial_size, 2);
            assert_eq!(reply.page.lines, vec!["src/main.rs"]);
            assert_eq!(reply.page.total, 1);
        }
        maple::rpc::CollectedAnswer::Refused(_) => panic!("the query is answered"),
    }
}

fn refusal_of(data: Option<&[u8]>, msg: &Message) -> (u64, String) {
    match maple::rpc::answer_collected(data, msg, 10) {
        maple::rpc::CollectedAnswer::Refused(e) => (e.id, e.error),
        maple::rpc::CollectedAnswer::Page(_) => panic!("the request is refused"),
    }
}

#[test]
fn answer_collected_says_why_it_refuses() {
    let data = b"a\n";
    let mut asked = message("files", 6);
    asked.params.query = Some("a".to_string());
    assert_eq!(refusal_of(None, &asked), (6, "the files are not listed yet".to_string()));
    assert_eq!(refusal_of(Some(&data[..]), &message("files", 7)), (7, "request has no query".to_string()));
    assert_eq!(refusal_of(None, &message("grep", 8)), (8, "request has no query".to_string()));
    assert_eq!(refusal_of(None, &message("bogus", 9)), (9, "unknown method: bogus".to_string()));
    assert_eq!(
        refusal_of(Some(&data[..]), &message("bogus", 10)),
        (10, "unknown method: bogus".to_string())
    );
    let mut unknown_with_query = message("bogus", 11);
    unknown_with_query.params.query = Some("a".to_string());
    assert_eq!(refusal_of(None, &unknown_with_query), (11, "unknown method: bogus".to_string()));
}

#[test]
fn parent_of_a_file_is_its_directory() {
    for (path, parent) in [
        ("/tmp/project/src/main.rs", "/tmp/project/src"),
        ("/tmp/project/src/", "/tmp/project"),
        ("a/b", "a"),
        ("a", ""),
        ("/a", "/"),
        ("/", "/"),
        ("", ""),
    ] {
        let mut cmd = Command { program: "rg".to_string(), args: vec![], dir: None };
        set_current_dir(&mut cmd, Some(path.to_string()), false);
        assert_eq!(cmd.dir, Some(parent.to_string()));
        let mut kept = Command { program: "rg".to_string(), args: vec![], dir: None };
        set_current_dir(&mut kept, Some(path.to_string()), true);
        assert_eq!(kept.dir, Some(path.to_string()));
    }
}
