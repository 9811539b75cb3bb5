use git_toprepo::gitmodules::plan_inner_submodule_import;
use git_toprepo::gitmodules::InnerSection;
use git_toprepo::gitmodules::InnerSectionAction;
use git_toprepo::gitmodules::OuterSubmodule;
use git_toprepo::gitmodules::SectionUrl;
use git_toprepo::gitmodules::SubmoduleUrl;
use git_toprepo::gitmodules::SubmoduleUrlExt;
use git_toprepo::gitmodules::UrlScheme;

fn outer(name: &str, path: &str) -> OuterSubmodule {
    OuterSubmodule { name: name.as_bytes().to_vec(), path: path.as_bytes().to_vec() }
}

fn section(name: &str, subsection: Option<&str>, path: Option<&str>) -> InnerSection {
    InnerSection {
        name: name.as_bytes().to_vec(),
        subsection: subsection.map(|s| s.as_bytes().to_vec()),
        path: path.map(|s| s.as_bytes().to_vec()),
        url: None,
    }
}

fn base() -> SubmoduleUrl {
    url(UrlScheme::Ssh, Some("server.com"), "/example/outer.git")
}

fn description(plan: &git_toprepo::gitmodules::SubmoduleImportPlan) -> String {
    String::from_utf8(plan.description.clone()).unwrap()
}

fn url(scheme: UrlScheme, host: Option<&str>, path: &str) -> SubmoduleUrl {
    SubmoduleUrl {
        scheme,
        user: None,
        password: None,
        host: host.map(|h| h.to_owned()),
        port: None,
        path: path.as_bytes().to_vec(),
        serialize_alternative_form: false,
    }
}

#[test]
fn test_urls() {
    // The URLs of imported sections are joined onto the outer URL.
    let outer_url = url(UrlScheme::Ssh, Some("server.com"), "/example/outer.git");
    let relative = outer_url.join(&url(UrlScheme::File, None, "../../inner.git"));
    assert!(matches!(relative.scheme, UrlScheme::Ssh));
    assert_eq!(relative.host.as_deref(), Some("server.com"));
    assert_eq!(relative.path, b"/inner.git".to_vec());
    let absolute = outer_url.join(&url(UrlScheme::Https, Some("server"), "/abs/path/inner.git"));
    assert!(matches!(absolute.scheme, UrlScheme::Https));
    assert_eq!(absolute.host.as_deref(), Some("server"));
    assert_eq!(absolute.path, b"/abs/path/inner.git".to_vec());

    let mut relative_section = section("submodule", Some("inner-name-relative"), Some("inner/path/relative"));
    relative_section.url = Some(SectionUrl::Parsed(url(UrlScheme::File, None, "../../inner.git")));
    let mut absolute_section = section("submodule", Some("inner-name-absolute"), Some("inner/path/absolute"));
    absolute_section.url = Some(SectionUrl::Parsed(url(UrlScheme::Https, Some("server"), "/abs/path/inner.git")));
    let plan = plan_inner_submodule_import(
        &[outer("submod-outer", "submod/outer")],
        b"\n",
        &outer_url,
        b"submod/dir",
        &[relative_section, absolute_section],
    );
    assert_eq!(
        plan.actions,
        vec![
            InnerSectionAction::Import {
                full_name: b"submod/dir/inner-name-relative".to_vec(),
                path: Some(b"submod/dir/inner/path/relative".to_vec()),
                url: Some(SectionUrl::Parsed(url(UrlScheme::Ssh, Some("server.com"), "/inner.git"))),
            },
            InnerSectionAction::Import {
                full_name: b"submod/dir/inner-name-absolute".to_vec(),
                path: Some(b"submod/dir/inner/path/absolute".to_vec()),
                url: Some(SectionUrl::Parsed(url(UrlScheme::Https, Some("server"), "/abs/path/inner.git"))),
            },
        ]
    );
    // Text that is no URL is kept as it stands.
    let mut raw = section("submodule", Some("raw"), Some("raw"));
    raw.url = Some(SectionUrl::Unparsed(b"::not a url".to_vec()));
    let plan = plan_inner_submodule_import(&[], b"\n", &outer_url, b"d", &[raw]);
    assert_eq!(
        plan.actions,
        vec![InnerSectionAction::Import {
            full_name: b"d/raw".to_vec(),
            path: Some(b"d/raw".to_vec()),
            url: Some(SectionUrl::Unparsed(b"::not a url".to_vec())),
        }]
    );
}

#[test]
fn test_append_existing_section() {
    // The inner configuration was appended once already.
    let existing = [outer("submod-outer", "submod/outer"), outer("submod/dir/inner", "submod/dir/inner")];
    let plan = plan_inner_submodule_import(
        &existing,
        b"\n",
        &base(),
        b"submod/dir",
        &[section("submodule", Some("inner"), Some("inner"))],
    );
    assert!(description(&plan).contains("\n# Section already exists: submod/dir/inner\n"));
    assert_eq!(plan.actions, vec![InnerSectionAction::Remove]);
}

#[test]
fn test_append_missing_submodule_path() {
    let plan = plan_inner_submodule_import(
        &[outer("submod-outer", "submod/outer")],
        b"\n",
        &base(),
        b"submod/dir",
        &[section("submodule", Some("inner"), None)],
    );
    assert!(description(&plan).contains("\n# Submodule path missing in inner .gitmodules file.\n"));
    assert_eq!(plan.actions, vec![InnerSectionAction::Remove]);
}

#[test]
fn test_append_existing_path() {
    let plan = plan_inner_submodule_import(
        &[outer("submod-outer", "submod/outer")],
        b"\n",
        &base(),
        b"submod",
        &[section("submodule", Some("inner"), Some("outer"))],
    );
    assert!(description(&plan).contains("\n# Submodule path already described: submod/outer\n"));
}

#[test]
fn test_append_unused_section() {
    let plan = plan_inner_submodule_import(
        &[outer("submod-outer", "submod/outer")],
        b"\n",
        &base(),
        b"submod",
        &[section("foo", Some("bar"), Some("inner"))],
    );
    assert!(description(&plan).contains("\n# Skipping unused section: foo.bar\n"));
}

#[test]
fn import_plan_description_layout() {
    let plan = plan_inner_submodule_import(
        &[outer("submod-outer", "submod/outer")],
        b"\n",
        &base(),
        b"submod/dir",
        &[
            section("core", None, None),
            section("submodule", Some("inner-name"), Some("inner/path")),
        ],
    );
    assert_eq!(
        description(&plan),
        "\n\n# *** Import of submod/dir/.gitmodules ***\n# Skipping unused section: core\n\n"
    );
    assert_eq!(plan.actions.len(), 2);
    assert_eq!(plan.actions[0], InnerSectionAction::Remove);
}

#[test]
fn shadowed_outer_name_and_last_inner_path() {
    // Of two outer sections with one path, only the last names it.
    let existing = [outer("submod/a", "p"), outer("other", "p")];
    let plan = plan_inner_submodule_import(
        &existing,
        b"\r\n",
        &base(),
        b"submod",
        &[
            section("submodule", Some("a"), None),
            section("submodule", Some("a"), Some("q")),
        ],
    );
    // The first section has no path of its own, but the last section with
    // the name gives the submodule's path.
    assert_eq!(
        plan.actions,
        vec![
            InnerSectionAction::Import { full_name: b"submod/a".to_vec(), path: None, url: None },
            InnerSectionAction::Import {
                full_name: b"submod/a".to_vec(),
                path: Some(b"submod/q".to_vec()),
                url: None,
            },
        ]
    );
    assert_eq!(description(&plan), "\r\n\r\n# *** Import of submod/.gitmodules ***\r\n\r\n");
}
