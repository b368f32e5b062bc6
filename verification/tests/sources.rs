use rte::github::GitHubSource;
use rte::gitlab::GitlabSource;
use rte::net::check_response;
use rte::parse_key_value;
use rte::RteError;

#[test]
fn test_github_parse_with_ref() {
    let src = GitHubSource::parse("github://github.com/owner/repo@v1.0.0").unwrap();
    assert_eq!(src.host, "github.com");
    assert_eq!(src.owner, "owner");
    assert_eq!(src.repo, "repo");
    assert_eq!(src.git_ref.as_deref(), Some("v1.0.0"));
    assert_eq!(
        src.archive_url(),
        "https://api.github.com/repos/owner/repo/tarball/v1.0.0"
    );
}

#[test]
fn test_github_parse_without_ref() {
    let src = GitHubSource::parse("github://github.example.com/owner/repo").unwrap();
    assert_eq!(src.host, "github.example.com");
    assert!(src.git_ref.is_none());
    assert_eq!(
        src.archive_url(),
        "https://api.github.example.com/repos/owner/repo/tarball"
    );
}

#[test]
fn test_github_parse_rejects_bad_shapes() {
    assert!(GitHubSource::parse("https://github.com/owner/repo").is_err());
    assert!(GitHubSource::parse("github://github.com").is_err());
    assert!(GitHubSource::parse("github://github.com/only-owner").is_err());
    assert!(GitHubSource::parse("github://github.com/a/b/c").is_err());
}

#[test]
fn test_gitlab_parse_subgroups() {
    let src = GitlabSource::parse("gitlab://gitlab.com/group/subgroup/project@main").unwrap();
    assert_eq!(src.host, "gitlab.com");
    assert_eq!(src.project_path, "group/subgroup/project");
    assert_eq!(src.git_ref.as_deref(), Some("main"));
    assert_eq!(
        src.archive_url(),
        "https://gitlab.com/api/v4/projects/group%2Fsubgroup%2Fproject/repository/archive.tar.gz?sha=main"
    );
}

#[test]
fn test_gitlab_parse_without_ref() {
    let src = GitlabSource::parse("gitlab://gitlab.example.com/group/project").unwrap();
    assert_eq!(src.host, "gitlab.example.com");
    assert_eq!(src.project_path, "group/project");
    assert!(src.git_ref.is_none());
    assert_eq!(
        src.archive_url(),
        "https://gitlab.example.com/api/v4/projects/group%2Fproject/repository/archive.tar.gz"
    );
}

#[test]
fn test_gitlab_ref_splits_at_last_at() {
    let src = GitlabSource::parse("gitlab://gitlab.com/group/we@ird@main").unwrap();
    assert_eq!(src.project_path, "group/we@ird");
    assert_eq!(src.git_ref.as_deref(), Some("main"));
}

#[test]
fn test_gitlab_parse_rejects_empty_path() {
    let err = GitlabSource::parse("gitlab://gitlab.com").unwrap_err();
    assert!(matches!(err, RteError::Parse(_)));
    assert!(err.message().contains("empty"));
}

#[test]
fn test_check_response_success() {
    let body = b"archive bytes".to_vec();
    let out = check_response("https://example.test/x", 200, body.clone()).unwrap();
    assert_eq!(out, body);
}

#[test]
fn test_check_response_error_includes_body() {
    let body = b"project not found".to_vec();
    let err = check_response("https://example.test/x", 404, body).unwrap_err();
    assert!(matches!(err, RteError::Http { status: 404, .. }));
    let msg = err.message();
    assert!(msg.contains("404"));
    assert!(msg.contains("project not found"));
    assert!(msg.contains("https://example.test/x"));
}

#[test]
fn test_parse_key_value_splits_at_first_equals() {
    assert_eq!(
        parse_key_value("key=value").unwrap(),
        ("key".to_string(), "value".to_string())
    );
    assert_eq!(
        parse_key_value("a=b=c").unwrap(),
        ("a".to_string(), "b=c".to_string())
    );
    assert!(parse_key_value("no-equals").is_err());
}
