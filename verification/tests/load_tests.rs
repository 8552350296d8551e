use pacmeta::desc::InstallReason;
use pacmeta::desc::Pkg;
use pacmeta::desc::PkgDesc;
use pacmeta::load::initial_cache;
use pacmeta::load::name_le;
use pacmeta::load::sort_pkgs_by_name;
use pacmeta::packages::Db;
use pacmeta::packages::DbIdx;
use pacmeta::packages::Dbs;
use pacmeta::packages::PkgIdx;

fn pkg(name: &str, version: &str) -> Pkg {
    Pkg {
        desc: PkgDesc {
            name: name.into(),
            version: version.into(),
            desc: None,
            url: None,
            size: 0,
            arch: "any".into(),
            install_reason: InstallReason::Dep,
            depends: Vec::new(),
            opt_depends: Vec::new(),
            provides: Vec::new(),
        },
        files: Vec::new(),
    }
}

#[test]
fn test_name_le() {
    assert!(name_le("bash", "coreutils"));
    assert!(!name_le("coreutils", "bash"));
    assert!(name_le("bash", "bash"));
    assert!(name_le("ba", "bash"));
    assert!(!name_le("bash", "ba"));
    assert!(name_le("", "a"));
}

#[test]
fn test_sort_pkgs_by_name() {
    let mut pkgs = vec![
        pkg("vim", "1"),
        pkg("bash", "2"),
        pkg("zsh", "3"),
        pkg("glibc", "4"),
        pkg("bash", "5"),
    ];
    sort_pkgs_by_name(&mut pkgs);
    let names: Vec<&str> = pkgs.iter().map(|p| p.desc.name.as_str()).collect();
    assert_eq!(names, vec!["bash", "bash", "glibc", "vim", "zsh"]);
    // the sort is stable: the two bash entries keep their relative order
    assert_eq!(pkgs[0].desc.version, "2");
    assert_eq!(pkgs[1].desc.version, "5");
}

#[test]
fn test_sort_empty_and_single() {
    let mut empty: Vec<Pkg> = Vec::new();
    sort_pkgs_by_name(&mut empty);
    assert!(empty.is_empty());
    let mut one = vec![pkg("bash", "1")];
    sort_pkgs_by_name(&mut one);
    assert_eq!(one.len(), 1);
}

#[test]
fn test_initial_cache() {
    let local = Db {
        name: "local".into(),
        pkgs: vec![pkg("a", "1"), pkg("b", "1")],
    };
    let core = Db {
        name: "core".into(),
        pkgs: vec![pkg("c", "1")],
    };
    let extra = Db {
        name: "extra".into(),
        pkgs: vec![pkg("d", "1"), pkg("e", "1")],
    };
    let dbs = Dbs::try_new(vec![local, core, extra]).unwrap();
    let cache = initial_cache(&dbs);
    assert_eq!(
        cache.filt_local_pkgs,
        vec![PkgIdx::from_usize(0), PkgIdx::from_usize(1)]
    );
    let comps: Vec<(DbIdx, PkgIdx)> = cache
        .filt_remote_pkgs
        .iter()
        .map(|r| r.into_components())
        .collect();
    assert_eq!(
        comps,
        vec![
            (DbIdx::from_usize(1), PkgIdx::from_usize(0)),
            (DbIdx::from_usize(2), PkgIdx::from_usize(0)),
            (DbIdx::from_usize(2), PkgIdx::from_usize(1)),
        ]
    );
}
