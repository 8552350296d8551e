use pacmeta::deps::RemoteLocalCmp;
use pacmeta::deps::calc_required_by;
use pacmeta::deps::dep_matches_pkg;
use pacmeta::deps::find_local_by_name;
use pacmeta::deps::pkg_matches_dep;
use pacmeta::deps::pkg_optionally_depends_on;
use pacmeta::deps::pkg_ver_cmp;
use pacmeta::deps::pkgs_that_optionally_depend_on;
use pacmeta::deps::remote_local_cmp;
use pacmeta::deps::resolve_dep;
use pacmeta::desc::DepVerOp;
use pacmeta::desc::Depend;
use pacmeta::desc::DependVersion;
use pacmeta::desc::InstallReason;
use pacmeta::desc::OptDepend;
use pacmeta::desc::Pkg;
use pacmeta::desc::PkgDesc;
use pacmeta::filter::contains_bytes;
use pacmeta::filter::filter_local_pkgs;
use pacmeta::filter::filter_remote_pkgs;
use pacmeta::packages::Db;
use pacmeta::packages::DbIdx;
use pacmeta::packages::Dbs;
use pacmeta::packages::PkgIdx;
use pacmeta::query_syntax::PkgListQuery;
use pacmeta::upgrades::determine_upgrades;

fn desc(name: &str, version: &str) -> PkgDesc {
    PkgDesc {
        name: name.into(),
        version: version.into(),
        desc: None,
        url: None,
        size: 0,
        arch: "x86_64".into(),
        install_reason: InstallReason::Dep,
        depends: Vec::new(),
        opt_depends: Vec::new(),
        provides: Vec::new(),
    }
}

fn pkg(name: &str, version: &str) -> Pkg {
    Pkg {
        desc: desc(name, version),
        files: Vec::new(),
    }
}

fn dep(name: &str) -> Depend {
    Depend {
        name: name.into(),
        ver: None,
    }
}

fn dep_ver(name: &str, op: DepVerOp, ver: &str) -> Depend {
    Depend {
        name: name.into(),
        ver: Some(DependVersion {
            op,
            ver: ver.into(),
        }),
    }
}

#[test]
fn test_name_match_ignores_version() {
    let d = dep_ver("bash", DepVerOp::GreaterEq, "9.9");
    let p = desc("bash", "1.0");
    assert!(dep_matches_pkg(&d, &p));
    assert!(dep_matches_pkg(&dep("bash"), &p));
    assert!(!dep_matches_pkg(&dep("zsh"), &p));
}

#[test]
fn test_provides_match_operators() {
    let mut p = desc("bash-provider", "1.0");
    p.provides = vec![dep_ver("sh", DepVerOp::Equal, "4.2")];
    assert!(dep_matches_pkg(&dep("sh"), &p));
    assert!(dep_matches_pkg(&dep_ver("sh", DepVerOp::GreaterEq, "4.0"), &p));
    assert!(dep_matches_pkg(&dep_ver("sh", DepVerOp::GreaterEq, "4.2"), &p));
    assert!(!dep_matches_pkg(&dep_ver("sh", DepVerOp::GreaterEq, "4.3"), &p));
    assert!(dep_matches_pkg(&dep_ver("sh", DepVerOp::Equal, "4.2"), &p));
    assert!(!dep_matches_pkg(&dep_ver("sh", DepVerOp::Equal, "4.1"), &p));
    assert!(dep_matches_pkg(&dep_ver("sh", DepVerOp::Greater, "4.1"), &p));
    assert!(!dep_matches_pkg(&dep_ver("sh", DepVerOp::Greater, "4.2"), &p));
    assert!(dep_matches_pkg(&dep_ver("sh", DepVerOp::Less, "4.3"), &p));
    assert!(!dep_matches_pkg(&dep_ver("sh", DepVerOp::Less, "4.2"), &p));
    assert!(dep_matches_pkg(&dep_ver("sh", DepVerOp::LessEq, "4.2"), &p));
    assert!(!dep_matches_pkg(&dep_ver("sh", DepVerOp::LessEq, "4.1"), &p));
}

#[test]
fn test_provides_without_version_fails_constraint() {
    let mut p = desc("prov", "1.0");
    p.provides = vec![dep("sh")];
    assert!(dep_matches_pkg(&dep("sh"), &p));
    assert!(!dep_matches_pkg(&dep_ver("sh", DepVerOp::GreaterEq, "1.0"), &p));
}

fn sample_dbs() -> Dbs {
    let mut gcc = pkg("gcc", "13.2-1");
    gcc.desc.depends = vec![dep("glibc")];
    let mut vim = pkg("vim", "9.0-1");
    vim.desc.depends = vec![dep_ver("glibc", DepVerOp::GreaterEq, "2.0")];
    vim.desc.opt_depends = vec![OptDepend {
        dep: dep("python"),
        reason: Some("plugin support".into()),
    }];
    let glibc = pkg("glibc", "2.38-3");
    let local = Db {
        name: "local".into(),
        pkgs: vec![gcc, glibc, vim],
    };

    let mut remote_rust = pkg("rust", "1.75-1");
    remote_rust.desc.depends = vec![dep("glibc")];
    let mut remote_py = pkg("python", "3.12-1");
    remote_py.desc.opt_depends = vec![OptDepend {
        dep: dep("glibc"),
        reason: None,
    }];
    let core = Db {
        name: "core".into(),
        pkgs: vec![pkg("glibc", "2.39-1"), remote_py, remote_rust],
    };
    Dbs::try_new(vec![local, core]).unwrap()
}

#[test]
fn test_resolve_dep_first_match() {
    let dbs = sample_dbs();
    let (rf, p) = resolve_dep(&dep("glibc"), &dbs).unwrap();
    // the local database is scanned first
    let (db_idx, pkg_idx) = rf.into_components();
    assert_eq!(db_idx, DbIdx::from_usize(0));
    assert_eq!(pkg_idx, PkgIdx::from_usize(1));
    assert_eq!(p.desc.version, "2.38-3");
    assert!(resolve_dep(&dep("no-such-package"), &dbs).is_none());
}

#[test]
fn test_required_by_local_only_scope() {
    let dbs = sample_dbs();
    let glibc = &dbs.local_pkgs()[1].clone();
    let local_reqs = calc_required_by(glibc, &dbs, true);
    let names: Vec<&str> = local_reqs.iter().map(|(_, p)| p.desc.name.as_str()).collect();
    assert_eq!(names, vec!["gcc", "vim"]);
    let all_reqs = calc_required_by(glibc, &dbs, false);
    let names: Vec<&str> = all_reqs.iter().map(|(_, p)| p.desc.name.as_str()).collect();
    assert_eq!(names, vec!["gcc", "vim", "rust"]);
}

#[test]
fn test_required_by_inverse_of_depends() {
    let dbs = sample_dbs();
    let glibc = dbs.local_pkgs()[1].clone();
    let reqs = calc_required_by(&glibc, &dbs, false);
    for (_, p) in &reqs {
        assert!(pkg_matches_dep(&glibc.desc, &p.desc));
    }
    // and every package whose dependencies match appears
    for (_, db) in dbs.all() {
        for p in &db.pkgs {
            if pkg_matches_dep(&glibc.desc, &p.desc) {
                assert!(reqs.iter().any(|(_, q)| q.desc.name == p.desc.name));
            }
        }
    }
}

#[test]
fn test_optional_for() {
    let dbs = sample_dbs();
    let glibc = dbs.local_pkgs()[1].clone();
    let opt = pkgs_that_optionally_depend_on(&glibc, &dbs);
    let names: Vec<&str> = opt.iter().map(|(_, p)| p.desc.name.as_str()).collect();
    assert_eq!(names, vec!["python"]);
    let python = pkg("python", "3.12-1");
    let vim = dbs.local_pkgs()[2].clone();
    assert!(pkg_optionally_depends_on(&vim, &python));
    assert!(!pkg_optionally_depends_on(&vim, &glibc));
}

#[test]
fn test_remote_local_cmp_and_upgrades() {
    let dbs = sample_dbs();
    let locals = dbs.local_pkgs();
    let remote_glibc = desc("glibc", "2.39-1");
    let (idx, cmp) = remote_local_cmp(&remote_glibc, locals.as_slice()).unwrap();
    assert_eq!(idx, PkgIdx::from_usize(1));
    assert_eq!(cmp, RemoteLocalCmp::Newer);
    assert!(cmp.is_newer());
    assert_eq!(
        pkg_ver_cmp(&desc("glibc", "2.38-3"), &locals[1]),
        RemoteLocalCmp::Same
    );
    assert_eq!(
        pkg_ver_cmp(&desc("glibc", "2.37-1"), &locals[1]),
        RemoteLocalCmp::Older
    );
    assert!(remote_local_cmp(&desc("nothere", "1"), locals.as_slice()).is_none());

    let upgrades = determine_upgrades(&dbs);
    assert_eq!(upgrades.len(), 1);
    assert_eq!(upgrades[0].local, PkgIdx::from_usize(1));
    let (db_idx, pkg_idx) = upgrades[0].remote.into_components();
    assert_eq!(db_idx, DbIdx::from_usize(1));
    assert_eq!(pkg_idx, PkgIdx::from_usize(0));
}

#[test]
fn test_find_local_by_name() {
    let dbs = sample_dbs();
    let locals = dbs.local_pkgs();
    assert_eq!(
        find_local_by_name(locals.as_slice(), "vim"),
        Some(PkgIdx::from_usize(2))
    );
    assert_eq!(find_local_by_name(locals.as_slice(), "emacs"), None);
}

#[test]
fn test_filter_local() {
    let dbs = sample_dbs();
    let q = PkgListQuery::compile("gcc");
    let hits = filter_local_pkgs(&dbs, &q);
    assert_eq!(hits, vec![PkgIdx::from_usize(0)]);
    let all = filter_local_pkgs(&dbs, &PkgListQuery::compile(""));
    assert_eq!(all.len(), 3);
    // @explicit drops packages installed as dependencies
    let none = filter_local_pkgs(&dbs, &PkgListQuery::compile("@explicit "));
    assert!(none.is_empty());
}

#[test]
fn test_filter_remote() {
    let dbs = sample_dbs();
    let all = filter_remote_pkgs(&dbs, &PkgListQuery::compile(""));
    assert_eq!(all.len(), 3);
    // only glibc has a local counterpart that is older than the remote
    let newer = filter_remote_pkgs(&dbs, &PkgListQuery::compile("@newer "));
    assert_eq!(newer.len(), 1);
    let (db_idx, pkg_idx) = newer[0].into_components();
    assert_eq!(db_idx, DbIdx::from_usize(1));
    assert_eq!(pkg_idx, PkgIdx::from_usize(0));
    // @installed keeps remotes with any local counterpart
    let installed = filter_remote_pkgs(&dbs, &PkgListQuery::compile("@installed "));
    assert_eq!(installed.len(), 1);
    let named = filter_remote_pkgs(&dbs, &PkgListQuery::compile("rust"));
    assert_eq!(named.len(), 1);
}

#[test]
fn test_contains_bytes() {
    assert!(contains_bytes(b"hello world", b"o w"));
    assert!(contains_bytes(b"hello", b""));
    assert!(!contains_bytes(b"hello", b"world"));
    assert!(!contains_bytes(b"hi", b"hello"));
}
