use spfs::install_spec::{Ident, InstallSpec, Request};
use spfs::server::{
    error_to_status, status_to_error, LsTagsRequest, PingRequest, Service, STATUS_UNKNOWN_TAG,
};
use spfs::spec_ops::{ComponentOps, ComponentSpec, FileMatcher};
use spfs::storage::{Repository, RepositoryHandle};

#[test]
fn ping_answers() {
    let repo = RepositoryHandle::FS(Repository::new());
    let service = Service::new_srv(repo);
    let _ = service.ping(PingRequest {});
}

#[test]
fn ls_tags_lists_names_under_path() {
    let mut repo = Repository::new();
    let d = spfs::encoding::null_digest();
    repo.tags.push_tag("spi/base", &d, 1);
    repo.tags.push_tag("spi/stable", &d, 2);
    repo.tags.push_tag("other/x", &d, 3);
    let service = Service::new_srv(RepositoryHandle::FS(repo));
    let response = service.ls_tags(LsTagsRequest {
        path: "spi".to_string(),
    });
    let mut entries = response.entries.clone();
    entries.sort();
    assert_eq!(entries, vec!["spi/base".to_string(), "spi/stable".to_string()]);
    let all = service.ls_tags(LsTagsRequest {
        path: "".to_string(),
    });
    assert_eq!(all.entries.len(), 3);
}

#[test]
fn error_kinds_survive_the_wire() {
    let e = spfs::Error::UnknownTag("n".to_string());
    let status = error_to_status(&e);
    assert_eq!(status, STATUS_UNKNOWN_TAG);
    let back = status_to_error(status, spfs::server::error_detail(&e)).unwrap();
    assert_eq!(error_to_status(&back), status);
    assert!(matches!(back, spfs::Error::UnknownTag(n) if n == "n"));
    assert!(status_to_error(0, "ok".to_string()).is_err());
}

#[test]
fn absent_object_digest_survives_the_wire() {
    let d = spfs::encoding::Digest {
        q0: 7,
        q1: 8,
        q2: 9,
        q3: 10,
    };
    let e = spfs::Error::UnknownObject(d);
    let status = error_to_status(&e);
    let detail = spfs::server::error_detail(&e);
    let back = status_to_error(status, detail).unwrap();
    assert!(matches!(back, spfs::Error::UnknownObject(d2) if d2 == d));
}

#[test]
fn find_tags_searches_by_substring() {
    let mut repo = Repository::new();
    let d = spfs::encoding::null_digest();
    repo.tags.push_tag("spi/stable", &d, 1);
    repo.tags.push_tag("spi/latest", &d, 2);
    repo.tags.push_tag("other", &d, 3);
    let mut found = repo.tags.find_tags("ta");
    found.sort();
    assert_eq!(found, vec!["spi/stable".to_string()]);
    assert_eq!(repo.tags.find_tags("zzz").len(), 0);
    assert_eq!(repo.tags.find_tags("").len(), 3);
}

#[test]
fn upsert_requirement_replaces_or_appends() {
    let mut spec = InstallSpec::new();
    spec.upsert_requirement(Request {
        name: "python".to_string(),
        version: "3.7".to_string(),
        pin: false,
    });
    spec.upsert_requirement(Request {
        name: "gcc".to_string(),
        version: "9".to_string(),
        pin: false,
    });
    assert_eq!(spec.requirements.len(), 2);
    spec.upsert_requirement(Request {
        name: "python".to_string(),
        version: "3.10".to_string(),
        pin: false,
    });
    assert_eq!(spec.requirements.len(), 2);
    assert_eq!(spec.requirements[0].version, "3.10");
}

#[test]
fn is_default_only_when_empty() {
    let mut spec = InstallSpec::new();
    assert!(spec.is_default());
    spec.upsert_requirement(Request {
        name: "python".to_string(),
        version: "3.7".to_string(),
        pin: false,
    });
    assert!(!spec.is_default());
}

#[test]
fn render_all_pins_uses_resolved_versions() {
    let mut spec = InstallSpec::new();
    spec.upsert_requirement(Request {
        name: "python".to_string(),
        version: "".to_string(),
        pin: true,
    });
    spec.upsert_requirement(Request {
        name: "gcc".to_string(),
        version: "9".to_string(),
        pin: false,
    });
    let resolved = vec![Ident {
        name: "python".to_string(),
        version: "3.7.3".to_string(),
    }];
    spec.render_all_pins(&resolved).unwrap();
    assert_eq!(spec.requirements[0].version, "3.7.3");
    assert_eq!(spec.requirements[1].version, "9");

    let mut spec2 = InstallSpec::new();
    spec2.upsert_requirement(Request {
        name: "rust".to_string(),
        version: "".to_string(),
        pin: true,
    });
    assert!(spec2.render_all_pins(&resolved).is_err());
}

#[test]
fn component_files_match_by_glob() {
    let component = ComponentSpec {
        name: "run".to_string(),
        files: FileMatcher::new(vec!["bin/*".to_string()]),
    };
    assert!(component.files().matches("bin/tool"));
    assert!(!component.files().matches("lib/libx.so"));
}
