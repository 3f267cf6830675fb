use embd::git::{parse_repo_link, parse_ssh_style_path, repo_name_from_path, trim, RepoLinkError};

fn ok(link: &str) -> (String, String) {
    match parse_repo_link(link) {
        Ok(v) => v,
        Err(e) => panic!("unexpected error: {}", e.message()),
    }
}

#[test]
fn parse_https_url() {
    let (link, name) = ok("https://github.com/org/repo.git");
    assert_eq!(link, "https://github.com/org/repo.git");
    assert_eq!(name, "repo");
}

#[test]
fn parse_https_url_no_dot_git() {
    let (_, name) = ok("https://github.com/org/repo");
    assert_eq!(name, "repo");
}

#[test]
fn parse_https_url_trailing_slash() {
    let (_, name) = ok("https://github.com/org/repo/");
    assert_eq!(name, "repo");
}

#[test]
fn parse_ssh_scp_style() {
    let (link, name) = ok("git@github.com:org/repo.git");
    assert_eq!(link, "git@github.com:org/repo.git");
    assert_eq!(name, "repo");
}

#[test]
fn parse_ssh_url_style() {
    let (_, name) = ok("ssh://git@github.com/org/repo.git");
    assert_eq!(name, "repo");
}

#[test]
fn parse_empty_fails() {
    assert!(parse_repo_link("").is_err());
    assert!(parse_repo_link("   ").is_err());
}

#[test]
fn parse_no_path_fails() {
    assert!(parse_repo_link("https://github.com").is_err());
    assert!(parse_repo_link("https://github.com/").is_err());
}

#[test]
fn parse_garbage_fails() {
    assert!(parse_repo_link("not a url").is_err());
}

#[test]
fn link_is_trimmed() {
    let (link, name) = ok("  https://example.com/a/tools.git \n");
    assert_eq!(link, "https://example.com/a/tools.git");
    assert_eq!(name, "tools");
}

#[test]
fn each_error_variant_has_its_inputs() {
    assert!(matches!(parse_repo_link(" \t "), Err(RepoLinkError::Empty)));
    match parse_repo_link(" not a url ") {
        Err(RepoLinkError::InvalidLink { link, .. }) => assert_eq!(link, "not a url"),
        _ => panic!("expected an invalid link"),
    }
    match parse_repo_link("https://github.com/") {
        Err(RepoLinkError::NoName { link }) => assert_eq!(link, "https://github.com/"),
        _ => panic!("expected no name"),
    }
    match parse_repo_link("git@host:.git") {
        Err(RepoLinkError::NoName { link }) => assert_eq!(link, "git@host:.git"),
        _ => panic!("expected no name"),
    }
}

#[test]
fn error_messages() {
    assert_eq!(RepoLinkError::Empty.message(), "repository link is empty");
    assert_eq!(
        RepoLinkError::NoName { link: "x".to_string() }.message(),
        "could not extract repo name from x"
    );
    assert_eq!(
        RepoLinkError::InvalidLink { link: "x".to_string(), detail: "bad".to_string() }.message(),
        "invalid repository link: x: bad"
    );
}

#[test]
fn url_path_is_what_names_an_https_repo() {
    // The name comes from the URL's path, not its host or query.
    let (_, name) = ok("https://host.example/group/sub/project.git?ref=main");
    assert_eq!(name, "project");
}

#[test]
fn scp_style_paths() {
    assert_eq!(parse_ssh_style_path("git@github.com:org/repo.git"), Some("org/repo.git".to_string()));
    assert_eq!(parse_ssh_style_path("https://github.com/org/repo"), None);
    assert_eq!(parse_ssh_style_path(":org/repo"), None);
    assert_eq!(parse_ssh_style_path("host:"), None);
    assert_eq!(parse_ssh_style_path("nocolon"), None);
    // A Windows drive letter is not an SSH host.
    assert_eq!(parse_ssh_style_path("C:\\foo"), None);
    assert_eq!(parse_ssh_style_path("ab:c"), Some("c".to_string()));
}

#[test]
fn repo_names_from_paths() {
    assert_eq!(repo_name_from_path("/org/repo.git"), Some("repo".to_string()));
    assert_eq!(repo_name_from_path("/org/repo///"), Some("repo".to_string()));
    assert_eq!(repo_name_from_path("/"), None);
    assert_eq!(repo_name_from_path(""), None);
    assert_eq!(repo_name_from_path("/org/.git"), None);
    assert_eq!(repo_name_from_path("a.git.git"), Some("a.git".to_string()));
}

#[test]
fn repo_name_is_plain() {
    for p in ["/a/b/c.git", "x//y//", "single", "/deep/nested/name/"] {
        let name = repo_name_from_path(p).unwrap();
        assert!(!name.is_empty());
        assert!(!name.contains('/'));
    }
}

#[test]
fn trim_removes_unicode_white_space() {
    assert_eq!(trim("\u{3000} x y \u{a0}\n"), "x y");
    assert_eq!(trim(""), "");
    assert_eq!(trim(trim("  a  ").as_str()), trim("  a  "));
}
