use mdsh::context::Context;
use mdsh::error::MdshError;
use mdsh::filter::filter_markdown;

const OS_RELEASE: &str = r#"PRETTY_NAME="Debian GNU/Linux 11 (bullseye)"
NAME="Debian GNU/Linux"
VERSION_ID="11"
VERSION="11 (bullseye)"
VERSION_CODENAME=bullseye
ID=debian
HOME_URL="https://www.debian.org/"
SUPPORT_URL="https://www.debian.org/support"
BUG_REPORT_URL="https://bugs.debian.org/"
"#;

const MARKDOWN: &str = r#"# Welcome!

Welcome to Enarx.

# Getting Started

## Install Dependencies
### Fedora

```sh:ID=fedora
echo fedora
```

### Debian or Debian-like (e.g. Ubuntu)

```sh:ID=debian ID_LIKE=debian
echo debian
```

## Git or SEV

```sh:git,sev;
echo git or sev
```

## Not Git

```sh:notgit; ID=debian
echo notgit
```

## Git on Debian or Fedora

```sh:git; ID=debian ID=fedora
echo git on debian or fedora
```

## Build Enarx

```sh
echo enarx
```
"#;

fn run(tags: &[&str], os_release: &str, md: &str) -> String {
    let mut cx = Context::new();
    for t in tags {
        cx.add(t);
    }
    filter_markdown(&cx, os_release, md).unwrap().concat()
}

#[test]
fn test() {
    let os = OS_RELEASE;

    assert_eq!(
        {
            let mut cx = Context::new();
            cx.add("git");
            filter_markdown(&cx, os, MARKDOWN).unwrap().concat()
        },
        r#"echo debian
echo git or sev
echo git on debian or fedora
echo enarx
"#
    );
}

#[test]
fn context_git_selects_four_blocks() {
    assert_eq!(
        run(&["git"], OS_RELEASE, MARKDOWN),
        "echo debian\necho git or sev\necho git on debian or fedora\necho enarx\n"
    );
}

#[test]
fn empty_context_selects_two_blocks() {
    assert_eq!(run(&[], OS_RELEASE, MARKDOWN), "echo debian\necho enarx\n");
}

#[test]
fn context_sev_selects_three_blocks() {
    let out = run(&["sev"], OS_RELEASE, MARKDOWN);
    assert!(out.contains("echo debian\n"));
    assert!(out.contains("echo git or sev\n"));
    assert!(out.contains("echo enarx\n"));
    assert!(!out.contains("echo git on debian or fedora"));
    assert_eq!(out, "echo debian\necho git or sev\necho enarx\n");
}

#[test]
fn context_notgit_selects_three_blocks() {
    let out = run(&["notgit"], OS_RELEASE, MARKDOWN);
    assert!(out.contains("echo debian\n"));
    assert!(out.contains("echo notgit\n"));
    assert!(out.contains("echo enarx\n"));
    assert_eq!(out, "echo debian\necho notgit\necho enarx\n");
}

#[test]
fn fedora_os_release_selects_fedora_block() {
    assert_eq!(
        run(&[], "ID=fedora\n", MARKDOWN),
        "echo fedora\necho enarx\n"
    );
}

#[test]
fn txt_fence_is_never_selected() {
    let md = "```txt\necho hidden\n```\n";
    assert_eq!(run(&[], OS_RELEASE, md), "");
    assert_eq!(run(&["git", "sev", "notgit"], OS_RELEASE, md), "");
    assert_eq!(run(&["txt"], "ID=txt\n", md), "");
}

#[test]
fn indented_code_is_ignored() {
    let md = "Some prose.\n\n    echo indented\n\nMore prose.\n";
    assert_eq!(run(&[], OS_RELEASE, md), "");
}

#[test]
fn output_preserves_order_and_newlines() {
    let md = "```sh\nfirst\nsecond\n```\n\ntext between\n\n```sh\nthird\n```\n";
    assert_eq!(run(&[], OS_RELEASE, md), "first\nsecond\nthird\n");
}

#[test]
fn malformed_fence_token_is_an_error() {
    let md = "```sh:; bogus\necho nope\n```\n";
    let cx = Context::new();
    let r = filter_markdown(&cx, OS_RELEASE, md);
    match r {
        Err(MdshError::MalformedFence(f)) => assert_eq!(f, b"sh:; bogus".to_vec()),
        other => panic!("expected a malformed-fence error, got {:?}", other),
    }
}

#[test]
fn invalid_os_release_line_is_an_error() {
    let cx = Context::new();
    let r = filter_markdown(&cx, "ID=debian\nnonsense\n", MARKDOWN);
    match r {
        Err(MdshError::InvalidOsReleaseLine(l)) => assert_eq!(l, b"nonsense".to_vec()),
        other => panic!("expected an os-release error, got {:?}", other),
    }
}

#[test]
fn context_from_arg_splits_on_commas() {
    let cx = Context::from_arg("git,sev");
    let md = "```sh:sev;\necho sev\n```\n";
    assert_eq!(
        filter_markdown(&cx, OS_RELEASE, md).unwrap().concat(),
        "echo sev\n"
    );
}

#[test]
fn growing_context_only_adds_blocks() {
    let base = run(&["git"], OS_RELEASE, MARKDOWN);
    let grown = run(&["git", "sev", "notgit"], OS_RELEASE, MARKDOWN);
    for line in base.lines() {
        assert!(grown.contains(line));
    }
}
