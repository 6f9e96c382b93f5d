use mdsh::context::Context;
use mdsh::error::MdshError;
use mdsh::events::MdEvent;
use mdsh::fence::fence_decision;
use mdsh::filter::filter_events;
use mdsh::osrel::parse_os_release;

fn debian_map() -> mdsh::osrel::OsMap {
    parse_os_release("ID=debian\nVERSION_ID=\"11\"\n").unwrap()
}

fn ctx(tags: &[&str]) -> Context {
    let mut cx = Context::new();
    for t in tags {
        cx.add(t);
    }
    cx
}

#[test]
fn plain_sh_is_selected() {
    assert_eq!(fence_decision(b"sh", &ctx(&[]), &debian_map()), Ok(true));
}

#[test]
fn other_language_tags_are_not_selected() {
    let cx = ctx(&["git"]);
    let os = debian_map();
    assert_eq!(fence_decision(b"txt", &cx, &os), Ok(false));
    assert_eq!(fence_decision(b"rust", &cx, &os), Ok(false));
    assert_eq!(fence_decision(b"shell", &cx, &os), Ok(false));
    assert_eq!(fence_decision(b"", &cx, &os), Ok(false));
    assert_eq!(fence_decision(b"bash:ID=debian", &cx, &os), Ok(false));
}

#[test]
fn sh_with_empty_lists_is_selected() {
    assert_eq!(fence_decision(b"sh:;", &ctx(&[]), &debian_map()), Ok(true));
}

#[test]
fn context_list_is_a_disjunction() {
    let os = debian_map();
    assert_eq!(fence_decision(b"sh:git,sev;", &ctx(&["sev"]), &os), Ok(true));
    assert_eq!(fence_decision(b"sh:git,sev;", &ctx(&["git"]), &os), Ok(true));
    assert_eq!(fence_decision(b"sh:git,sev;", &ctx(&[]), &os), Ok(false));
    assert_eq!(fence_decision(b"sh:git,sev;", &ctx(&["other"]), &os), Ok(false));
}

#[test]
fn os_list_is_a_disjunction() {
    let cx = ctx(&[]);
    assert_eq!(fence_decision(b"sh:ID=debian ID=fedora", &cx, &debian_map()), Ok(true));
    assert_eq!(fence_decision(b"sh:ID=fedora", &cx, &debian_map()), Ok(false));
    assert_eq!(
        fence_decision(b"sh:ID=arch ID=void", &cx, &debian_map()),
        Ok(false)
    );
}

#[test]
fn lists_are_conjoined() {
    let os = debian_map();
    assert_eq!(fence_decision(b"sh:git; ID=debian", &ctx(&["git"]), &os), Ok(true));
    assert_eq!(fence_decision(b"sh:git; ID=debian", &ctx(&[]), &os), Ok(false));
    assert_eq!(fence_decision(b"sh:git; ID=fedora", &ctx(&["git"]), &os), Ok(false));
}

#[test]
fn trailing_semicolon_means_no_os_constraint() {
    assert_eq!(fence_decision(b"sh:notgit;", &ctx(&["notgit"]), &debian_map()), Ok(true));
}

#[test]
fn leading_semicolon_means_no_context_constraint() {
    assert_eq!(fence_decision(b"sh:;ID=debian", &ctx(&[]), &debian_map()), Ok(true));
}

#[test]
fn whitespace_in_context_list_is_not_trimmed() {
    let os = debian_map();
    assert_eq!(fence_decision(b"sh:git, sev;", &ctx(&["sev"]), &os), Ok(false));
    assert_eq!(fence_decision(b"sh:git, sev;", &ctx(&[" sev"]), &os), Ok(true));
}

#[test]
fn matching_is_byte_for_byte_against_stored_values() {
    let os = parse_os_release("ID=\"debian\"\n").unwrap();
    assert_eq!(fence_decision(b"sh:ID=debian", &ctx(&[]), &os), Ok(false));
    assert_eq!(fence_decision(b"sh:ID=\"debian\"", &ctx(&[]), &os), Ok(true));
}

#[test]
fn os_token_without_equals_is_malformed() {
    let r = fence_decision(b"sh:; bogus", &ctx(&[]), &debian_map());
    match r {
        Err(MdshError::MalformedFence(f)) => assert_eq!(f, b"sh:; bogus".to_vec()),
        other => panic!("expected a malformed-fence error, got {:?}", other),
    }
}

#[test]
fn malformed_token_is_reported_even_when_context_fails() {
    let r = fence_decision(b"sh:git; bogus", &ctx(&[]), &debian_map());
    assert!(matches!(r, Err(MdshError::MalformedFence(_))));
}

#[test]
fn adding_an_os_alternative_can_only_enable() {
    let cx = ctx(&[]);
    let os = debian_map();
    assert_eq!(fence_decision(b"sh:ID=fedora", &cx, &os), Ok(false));
    assert_eq!(fence_decision(b"sh:ID=fedora ID=debian", &cx, &os), Ok(true));
    assert_eq!(fence_decision(b"sh:ID=debian", &cx, &os), Ok(true));
    assert_eq!(fence_decision(b"sh:ID=debian ID=fedora", &cx, &os), Ok(true));
}

#[test]
fn filter_events_emits_only_inside_selected_fences() {
    let events = vec![
        MdEvent::Other,
        MdEvent::Text("outside".to_string()),
        MdEvent::FenceStart(b"sh".to_vec()),
        MdEvent::Text("inside\n".to_string()),
        MdEvent::FenceEnd,
        MdEvent::FenceStart(b"txt".to_vec()),
        MdEvent::Text("hidden\n".to_string()),
        MdEvent::FenceEnd,
    ];
    let os = parse_os_release("").unwrap();
    let cx = Context::new();
    assert_eq!(
        filter_events(&events, &cx, &os).unwrap(),
        vec!["inside\n".to_string()]
    );
}

#[test]
fn os_release_values_are_stored_verbatim() {
    let os = parse_os_release("A=b=c\nB=\nC=x\n").unwrap();
    assert_eq!(os.get(b"A").map(|v| v.as_slice()), Some(b"b=c".as_slice()));
    assert_eq!(os.get(b"B").map(|v| v.as_slice()), Some(b"".as_slice()));
    assert_eq!(os.get(b"C").map(|v| v.as_slice()), Some(b"x".as_slice()));
    assert_eq!(os.get(b"D"), None);
}

#[test]
fn later_os_release_lines_overwrite_earlier_ones() {
    let os = parse_os_release("ID=debian\nID=fedora\n").unwrap();
    assert_eq!(os.get(b"ID").map(|v| v.as_slice()), Some(b"fedora".as_slice()));
}

#[test]
fn os_release_line_without_equals_is_rejected() {
    let r = parse_os_release("ID=debian\n\nID=fedora\n");
    match r {
        Err(MdshError::InvalidOsReleaseLine(l)) => assert_eq!(l, b"".to_vec()),
        other => panic!("expected an os-release error, got {:?}", other),
    }
}

#[test]
fn carriage_returns_before_line_feeds_are_stripped() {
    let os = parse_os_release("ID=debian\r\n").unwrap();
    assert_eq!(os.get(b"ID").map(|v| v.as_slice()), Some(b"debian".as_slice()));
}

#[test]
fn empty_os_release_gives_an_empty_map() {
    let os = parse_os_release("").unwrap();
    assert_eq!(os.get(b"ID"), None);
}
