use bldr::installer::Installer;
use bldr::package::{contains_ident, PackageIdent, PackageMetadata};

fn ident(name: &str) -> PackageIdent {
    PackageIdent::new("core".to_string(), name.to_string(), Some("1.0.0".to_string()), Some("20150911204047".to_string()))
}

fn idents(names: &[&str]) -> Vec<PackageIdent> {
    names.iter().map(|n| ident(n)).collect()
}

/// A package source: each archive's identifier and its own dependency list.
/// An identifier that is not listed fails to fetch.
struct Source {
    archives: Vec<(PackageIdent, PackageIdent, Vec<PackageIdent>)>,
}

impl Source {
    fn new() -> Source {
        Source { archives: Vec::new() }
    }

    fn add(mut self, name: &str, deps: &[&str]) -> Source {
        self.archives.push((ident(name), ident(name), idents(deps)));
        self
    }

    fn add_resolved(mut self, requested: PackageIdent, resolved: PackageIdent, deps: &[&str]) -> Source {
        self.archives.push((requested, resolved, idents(deps)));
        self
    }

    fn fetch(&self, x: &PackageIdent) -> Option<(PackageIdent, Vec<PackageIdent>)> {
        self.archives.iter().find(|a| &a.0 == x).map(|a| (a.1.clone(), a.2.clone()))
    }
}

/// Runs an installation; returns the identifiers fetched and unpacked, in
/// order, and the identifier whose fetch failed, if any.
fn drive(src: &Source, target: PackageIdent, deps: Vec<PackageIdent>) -> (Vec<PackageIdent>, Option<PackageIdent>) {
    let mut inst = Installer::new(target, deps);
    let mut fetched = Vec::new();
    while let Some(x) = inst.next_target() {
        match src.fetch(&x) {
            None => return (fetched, Some(x)),
            Some((id, ds)) => {
                fetched.push(id.clone());
                inst.record(id, ds);
            }
        }
    }
    assert_eq!(inst.installed(), &fetched);
    (fetched, None)
}

fn count(v: &[PackageIdent], name: &str) -> usize {
    v.iter().filter(|p| **p == ident(name)).count()
}

#[test]
fn redis_with_glibc_and_openssl() {
    let src = Source::new().add("redis", &["openssl"]).add("glibc", &[]).add("openssl", &[]);
    let (fetched, failed) = drive(&src, ident("redis"), idents(&["glibc", "openssl"]));
    assert!(failed.is_none());
    assert_eq!(fetched, idents(&["glibc", "openssl", "redis"]));
    assert_eq!(count(&fetched, "openssl"), 1);
}

#[test]
fn diamond_installs_shared_dependency_once() {
    let src = Source::new().add("a", &["b", "c"]).add("b", &["d"]).add("c", &["d"]).add("d", &[]);
    let (fetched, failed) = drive(&src, ident("a"), vec![]);
    assert!(failed.is_none());
    assert_eq!(fetched, idents(&["a", "b", "d", "c"]));
    assert_eq!(count(&fetched, "d"), 1);
}

#[test]
fn cycle_terminates_and_installs_each_once() {
    let src = Source::new().add("a", &["b"]).add("b", &["a"]);
    let (fetched, failed) = drive(&src, ident("a"), vec![]);
    assert!(failed.is_none());
    assert_eq!(fetched, idents(&["a", "b"]));
}

#[test]
fn archive_dependencies_override_metadata() {
    // The metadata of "app" advertises nothing; its archive needs "lib".
    let src = Source::new().add("app", &["lib"]).add("lib", &[]).add("stale", &[]);
    let (fetched, failed) = drive(&src, ident("app"), vec![]);
    assert!(failed.is_none());
    assert_eq!(fetched, idents(&["app", "lib"]));
    assert_eq!(count(&fetched, "stale"), 0);
}

#[test]
fn fetch_failure_stops_and_keeps_earlier_installs() {
    let src = Source::new().add("a", &["b", "missing", "c"]).add("b", &[]).add("c", &[]);
    let (fetched, failed) = drive(&src, ident("a"), vec![]);
    assert_eq!(failed, Some(ident("missing")));
    assert_eq!(fetched, idents(&["a", "b"]));
}

#[test]
fn rerun_after_success_fetches_everything_again() {
    let src = Source::new().add("a", &["b"]).add("b", &[]);
    let first = drive(&src, ident("a"), idents(&["b"]));
    let second = drive(&src, ident("a"), idents(&["b"]));
    assert_eq!(first, (idents(&["b", "a"]), None));
    assert_eq!(second, first);
}

#[test]
fn no_dependencies_installs_target_only() {
    let src = Source::new().add("zlib", &[]);
    assert_eq!(drive(&src, ident("zlib"), vec![]), (idents(&["zlib"]), None));
}

#[test]
fn missing_target_fails_first() {
    let src = Source::new();
    assert_eq!(drive(&src, ident("zlib"), vec![]), (vec![], Some(ident("zlib"))));
}

#[test]
fn metadata_dependency_repeated_is_installed_once() {
    let src = Source::new().add("a", &[]).add("b", &[]);
    let (fetched, _) = drive(&src, ident("a"), idents(&["b", "b"]));
    assert_eq!(fetched, idents(&["b", "a"]));
}

#[test]
fn resolved_identifier_is_recorded() {
    // A partial identifier resolves to a concrete one in the archive.
    let partial = PackageIdent::new("core".to_string(), "redis".to_string(), None, None);
    let src = Source::new().add_resolved(partial.clone(), ident("redis"), &[]);
    let mut inst = Installer::new(partial.clone(), vec![]);
    let x = inst.next_target().unwrap();
    assert_eq!(x, partial);
    let (id, ds) = src.fetch(&x).unwrap();
    inst.record(id, ds);
    assert_eq!(inst.installed(), &vec![ident("redis")]);
    assert!(inst.next_target().is_none());
}

#[test]
fn next_target_skips_installed_and_reports_completion() {
    let mut inst = Installer::new(ident("a"), idents(&["b"]));
    assert_eq!(inst.next_target(), Some(ident("b")));
    inst.record(ident("b"), idents(&["a", "c"]));
    assert_eq!(inst.next_target(), Some(ident("a")));
    inst.record(ident("a"), idents(&["b"]));
    assert_eq!(inst.next_target(), Some(ident("c")));
    inst.record(ident("c"), vec![]);
    assert_eq!(inst.next_target(), None);
    assert_eq!(inst.next_target(), None);
    assert_eq!(inst.installed(), &idents(&["b", "a", "c"]));
}

#[test]
fn identifiers_compare_every_component() {
    let a = ident("redis");
    let mut b = ident("redis");
    assert!(a.same_as(&b));
    b.release = Some("20160101000000".to_string());
    assert!(!a.same_as(&b));
    b.release = None;
    assert!(a != b);
    let c = PackageIdent::new("adam".to_string(), "redis".to_string(), a.version.clone(), a.release.clone());
    assert!(a != c);
    assert!(contains_ident(&vec![c.clone(), a.clone()], &a));
    assert!(!contains_ident(&vec![c], &a));
    assert!(!contains_ident(&vec![], &a));
}

#[test]
fn metadata_holds_advertised_dependencies() {
    let m = PackageMetadata { ident: ident("redis"), deps: idents(&["glibc", "openssl"]) };
    let (fetched, _) = drive(&Source::new().add("redis", &[]).add("glibc", &[]).add("openssl", &[]), m.ident.clone(), m.deps.clone());
    assert_eq!(fetched, idents(&["glibc", "openssl", "redis"]));
}
