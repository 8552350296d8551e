use pacmeta::desc::Depend;
use pacmeta::desc::InstallReason;
use pacmeta::desc::Pkg;
use pacmeta::desc::PkgDesc;
use pacmeta::desc::PkgId;
use pacmeta::packages::Db;
use pacmeta::packages::DbIdx;
use pacmeta::packages::Dbs;
use pacmeta::packages::PkgCache;
use pacmeta::packages::PkgIdx;
use pacmeta::packages::PkgRef;
use pacmeta::query_syntax::PkgListQuery;
use pacmeta::query_syntax::QueryFlags;
use pacmeta::util::db_name_is_arch;
use pacmeta::util::deduped_files;
use pacmeta::util::path_contains_other_path;

#[test]
fn test_pkg_ref_cons() {
    let pkg_ref = PkgRef::from_components(DbIdx::from_usize(42), PkgIdx::from_usize(617));
    assert_eq!(
        pkg_ref.into_components(),
        (DbIdx::from_usize(42), PkgIdx::from_usize(617))
    );
}

#[test]
fn test_compile() {
    assert_eq!(
        PkgListQuery::compile("@installed cool"),
        PkgListQuery {
            flags: QueryFlags {
                installed: true,
                newer: false,
                older: false,
                explicitly_installed: false,
            },
            string: "cool".into(),
        }
    );
    assert_eq!(
        PkgListQuery::compile("hello world"),
        PkgListQuery {
            flags: QueryFlags {
                installed: false,
                newer: false,
                older: false,
                explicitly_installed: false,
            },
            string: "hello world".into(),
        }
    );
    assert_eq!(
        PkgListQuery::compile("@"),
        PkgListQuery {
            flags: QueryFlags {
                installed: false,
                newer: false,
                older: false,
                explicitly_installed: false,
            },
            string: "@".into(),
        }
    );
}

#[test]
fn test_compile_multiple_flags() {
    let q = PkgListQuery::compile("@installed @newer linux");
    assert!(q.flags.installed);
    assert!(q.flags.newer);
    assert!(!q.flags.older);
    assert!(!q.flags.explicitly_installed);
    assert_eq!(q.string, "linux");
}

#[test]
fn test_compile_explicit_aliases() {
    assert!(PkgListQuery::compile("@explicit x").flags.explicitly_installed);
    assert!(PkgListQuery::compile("@asexplicit x").flags.explicitly_installed);
}

#[test]
fn test_compile_unknown_token_is_text() {
    let q = PkgListQuery::compile("@bogus rest");
    assert_eq!(q.flags, QueryFlags::default());
    assert_eq!(q.string, "@bogus rest");
}

#[test]
fn test_query_flags_any() {
    let mut f = QueryFlags::default();
    assert!(!f.any());
    f.explicitly_installed = true;
    assert!(!f.any());
    f.older = true;
    assert!(f.any());
}

#[test]
fn test_pkg_ref_local_and_remote() {
    let local = PkgRef::local(PkgIdx::from_usize(3));
    assert!(local.is_local());
    assert!(!local.is_remote());
    let remote = PkgRef::from_components(DbIdx::from_usize(2), PkgIdx::from_usize(3));
    assert!(remote.is_remote());
    assert!(!remote.is_local());
}

fn plain_desc(name: &str, version: &str) -> PkgDesc {
    PkgDesc {
        name: name.into(),
        version: version.into(),
        desc: None,
        url: None,
        size: 0,
        arch: "x86_64".into(),
        install_reason: InstallReason::Explicit,
        depends: Vec::new(),
        opt_depends: Vec::new(),
        provides: Vec::new(),
    }
}

fn plain_pkg(name: &str, version: &str) -> Pkg {
    Pkg {
        desc: plain_desc(name, version),
        files: Vec::new(),
    }
}

fn two_dbs() -> Dbs {
    let local = Db {
        name: "local".into(),
        pkgs: vec![plain_pkg("bash", "5.2-1"), plain_pkg("coreutils", "9.4-2")],
    };
    let core = Db {
        name: "core".into(),
        pkgs: vec![plain_pkg("bash", "5.3-1")],
    };
    Dbs::try_new(vec![local, core]).unwrap()
}

#[test]
fn test_resolve_in_bounds() {
    let dbs = two_dbs();
    let r = PkgRef::from_components(DbIdx::from_usize(1), PkgIdx::from_usize(0));
    let (db, pkg) = dbs.resolve(r);
    assert_eq!(db.unwrap().name, "core");
    assert_eq!(pkg.unwrap().desc.name, "bash");
}

#[test]
fn test_resolve_out_of_bounds() {
    let dbs = two_dbs();
    let bad_db = PkgRef::from_components(DbIdx::from_usize(7), PkgIdx::from_usize(0));
    let (db, pkg) = dbs.resolve(bad_db);
    assert!(db.is_none());
    assert!(pkg.is_none());
    let bad_pkg = PkgRef::from_components(DbIdx::from_usize(1), PkgIdx::from_usize(99));
    let (db, pkg) = dbs.resolve(bad_pkg);
    assert!(db.is_some());
    assert!(pkg.is_none());
    assert!(dbs.resolve_local(PkgIdx::from_usize(50)).is_none());
}

#[test]
fn test_try_new_rejects_empty() {
    assert!(Dbs::try_new(Vec::new()).is_none());
}

#[test]
fn test_ref_display() {
    let dbs = two_dbs();
    let r = PkgRef::from_components(DbIdx::from_usize(1), PkgIdx::from_usize(0));
    assert_eq!(r.display(&dbs), "core/bash");
    let stale = PkgRef::from_components(DbIdx::from_usize(9), PkgIdx::from_usize(0));
    assert_eq!(stale.display(&dbs), "Unresolved db\n");
    let stale_pkg = PkgRef::from_components(DbIdx::from_usize(1), PkgIdx::from_usize(5));
    assert_eq!(stale_pkg.display(&dbs), "unresolved package idx\n");
}

#[test]
fn test_dbs_accessors() {
    let dbs = two_dbs();
    assert_eq!(dbs.local_pkgs().len(), 2);
    let all = dbs.all();
    assert_eq!(all.len(), 2);
    assert_eq!(all[0].0, DbIdx::from_usize(0));
    assert_eq!(all[1].1.name, "core");
    let remotes = dbs.remotes();
    assert_eq!(remotes.len(), 1);
    assert_eq!(remotes[0].0, DbIdx::from_usize(1));
    let (local, syncs) = dbs.local_and_syncs();
    assert_eq!(local.name, "local");
    assert_eq!(syncs.len(), 1);
    let cache = PkgCache::default();
    assert!(cache.filt_local_pkgs.is_empty());
    assert!(cache.filt_remote_pkgs.is_empty());
}

#[test]
fn test_deduped_files() {
    let list: Vec<String> = vec!["usr".into(), "usr/bin".into(), "usr/bin/cat".into()];
    let out = deduped_files(&list);
    assert_eq!(out, vec!["usr/bin/cat".to_owned()]);
}

#[test]
fn test_deduped_files_no_nesting() {
    let list: Vec<String> = vec!["etc/passwd".into(), "usr/lib".into(), "var/log".into()];
    let out = deduped_files(&list);
    assert_eq!(out, list);
}

#[test]
fn test_deduped_files_keeps_last_and_siblings() {
    let list: Vec<String> = vec![
        "usr".into(),
        "usr/bin".into(),
        "usr/bin/cat".into(),
        "usr/bin/ls".into(),
        "usr/share".into(),
    ];
    let out = deduped_files(&list);
    assert_eq!(
        out,
        vec![
            "usr/bin/cat".to_owned(),
            "usr/bin/ls".to_owned(),
            "usr/share".to_owned()
        ]
    );
    assert_eq!(out.last().map(String::as_str), list.last().map(String::as_str));
}

#[test]
fn test_deduped_files_empty() {
    let list: Vec<String> = Vec::new();
    assert!(deduped_files(&list).is_empty());
}

#[test]
fn test_filter_files() {
    let list: Vec<String> = vec![
        "usr".into(),
        "usr/bin".into(),
        "usr/bin/CAT".into(),
        "usr/bin/ls".into(),
        "usr/share".into(),
    ];
    let out = pacmeta::filter::filter_files(&list, "cat");
    assert_eq!(out, vec!["usr/bin/CAT".to_owned()]);
    let all = pacmeta::filter::filter_files(&list, "");
    assert_eq!(all.len(), 3);
}

#[test]
fn test_path_contains_other_path() {
    assert!(path_contains_other_path("usr/bin/cat", "usr/bin"));
    assert!(!path_contains_other_path("usr/bin/cat", "usr"));
    assert!(path_contains_other_path("usr", ""));
    assert!(!path_contains_other_path("", "usr"));
}

#[test]
fn test_db_name_is_arch() {
    assert!(db_name_is_arch("core"));
    assert!(db_name_is_arch("multilib-testing"));
    assert!(!db_name_is_arch("local"));
    assert!(!db_name_is_arch("aur"));
}

#[test]
fn test_pkg_id() {
    let id = PkgId::local("bash");
    assert!(!id.is_remote());
    assert_eq!(id.display(), "local/bash");
    let rid = PkgId::qualified("extra", "firefox");
    assert!(rid.is_remote());
    assert_eq!(rid.display(), "extra/firefox");
    assert!(rid.matches_pkg(&plain_desc("firefox", "1.0"), "extra"));
    assert!(!rid.matches_pkg(&plain_desc("firefox", "1.0"), "core"));
    assert!(!rid.matches_pkg(&plain_desc("chromium", "1.0"), "extra"));
    assert_eq!(PkgId::local("bash"), PkgId::qualified("local", "bash"));
    let _ = Depend {
        name: "x".into(),
        ver: None,
    };
}
