use clean_core::devscan::{
    catalog, is_recommended, is_vcs_or_meta, match_kind, scan_projects, size_of, DevChild,
    DevProject, Discovery, SizedHit, DEV_STALE_DAYS,
};
use clean_core::paths::PathStyle;
use clean_core::types::FileRecord;

const ROOT: &str = "/dev/root";
const NOW: i64 = 1_800_000_000;

/// Files in memory: path and size. Directories are those that hold something.
struct Files(Vec<(String, u64)>);

impl Files {
    fn new() -> Files {
        Files(Vec::new())
    }

    fn touch(&mut self, path: &str, size: u64) {
        self.0.push((format!("{ROOT}/{path}"), size));
    }

    fn names(&self, dir: &str) -> Vec<(String, bool)> {
        let inside = format!("{dir}/");
        let mut out: Vec<(String, bool)> = Vec::new();
        for (p, _) in &self.0 {
            if let Some(rest) = p.strip_prefix(&inside) {
                let (name, is_dir) = match rest.split_once('/') {
                    Some((n, _)) => (n.to_string(), true),
                    None => (rest.to_string(), false),
                };
                if !out.contains(&(name.clone(), is_dir)) {
                    out.push((name, is_dir));
                }
            }
        }
        out
    }

    fn just_names(&self, dir: &str) -> Vec<String> {
        self.names(dir).into_iter().map(|(n, _)| n).collect()
    }

    fn tree(&self, dir: &str) -> Vec<FileRecord> {
        let inside = format!("{dir}/");
        self.0
            .iter()
            .filter(|(p, _)| p.starts_with(&inside))
            .map(|(p, size)| FileRecord {
                id: 0,
                path: p.clone(),
                name: p.rsplit('/').next().unwrap().to_string(),
                ext: None,
                size: *size,
                created: NOW,
                modified: NOW - 60,
                accessed: NOW,
                is_dir: false,
                attributes: 0,
            })
            .collect()
    }

    fn projects(&self) -> Vec<DevProject> {
        let mut d = Discovery::new(ROOT);
        while let Some(dir) = d.next() {
            let children: Vec<DevChild> = self
                .names(&dir)
                .into_iter()
                .map(|(name, is_dir)| {
                    let path = format!("{dir}/{name}");
                    let names = if is_dir { Some(self.just_names(&path)) } else { None };
                    DevChild { name, path, is_dir, is_symlink: false, names }
                })
                .collect();
            d.feed(PathStyle::Posix, &Some(self.just_names(&dir)), &children);
        }
        let sized: Vec<SizedHit> = d
            .hits
            .into_iter()
            .map(|hit| {
                let (bytes, files, newest) = size_of(&Some(self.tree(&hit.path)));
                SizedHit { hit, bytes, files, newest }
            })
            .collect();
        scan_projects(PathStyle::Posix, &sized)
    }
}

#[test]
fn finds_node_modules_only_with_manifest() {
    let mut f = Files::new();
    f.touch("app/package.json", 50);
    f.touch("app/node_modules/left-pad/index.js", 1000);
    f.touch("app/src/main.js", 200);
    f.touch("decoy/node_modules/x.js", 9999);
    let projects = f.projects();
    assert_eq!(projects.len(), 1, "only the manifest-backed project counts");
    let p = &projects[0];
    assert!(p.root.ends_with("app"));
    assert_eq!(p.artifacts.len(), 1);
    assert_eq!(p.artifacts[0].kind_id, "node_modules");
    assert_eq!(p.artifacts[0].bytes, 1000);
    assert_eq!(p.artifacts[0].files, 1);
}

#[test]
fn discovery_prunes_inside_artifacts() {
    let mut f = Files::new();
    f.touch("package.json", 10);
    f.touch("node_modules/a/package.json", 10);
    f.touch("node_modules/a/node_modules/b.js", 500);
    let projects = f.projects();
    assert_eq!(projects.len(), 1);
    assert_eq!(projects[0].artifacts.len(), 1);
    assert!(projects[0].artifacts[0].bytes >= 500);
}

#[test]
fn rust_and_maven_target_distinguished_by_marker() {
    let mut f = Files::new();
    f.touch("rustproj/Cargo.toml", 10);
    f.touch("rustproj/target/debug/bin.exe", 2000);
    f.touch("mavenproj/pom.xml", 10);
    f.touch("mavenproj/target/classes/A.class", 3000);
    let projects = f.projects();
    let kinds: Vec<&str> =
        projects.iter().flat_map(|p| p.artifacts.iter().map(|a| a.kind_id.as_str())).collect();
    assert!(kinds.contains(&"rust_target"));
    assert!(kinds.contains(&"maven_target"));
}

#[test]
fn python_venv_detected_by_pyvenv_cfg() {
    let mut f = Files::new();
    f.touch("proj/.venv/pyvenv.cfg", 20);
    f.touch("proj/.venv/Lib/site.py", 4000);
    f.touch("proj/main.py", 100);
    let projects = f.projects();
    assert_eq!(projects.len(), 1);
    assert_eq!(projects[0].artifacts[0].kind_id, "python_venv");
    assert!(projects[0].artifacts[0].bytes >= 4000);
}

#[test]
fn git_dir_is_never_matched_or_spidered() {
    let mut f = Files::new();
    f.touch("proj/package.json", 10);
    f.touch("proj/.git/node_modules/x.js", 5000);
    assert!(f.projects().is_empty(), ".git subtree must be skipped entirely");
    assert!(is_vcs_or_meta(".git"));
    assert!(!is_vcs_or_meta("src"));
}

#[test]
fn recommended_only_when_stale_with_evidence() {
    let now = 1_800_000_000i64;
    let day = 86_400i64;
    assert!(!is_recommended(now, now - 2 * day));
    assert!(!is_recommended(now, now - (DEV_STALE_DAYS - 1) * day));
    assert!(is_recommended(now, now - (DEV_STALE_DAYS + 1) * day));
    assert!(!is_recommended(now, 0));
}

#[test]
fn artifact_carries_newest_mtime() {
    let mut f = Files::new();
    f.touch("app/package.json", 10);
    f.touch("app/node_modules/x.js", 100);
    let projects = f.projects();
    assert_eq!(projects.len(), 1);
    let a = &projects[0].artifacts[0];
    assert!(a.last_used_unix > 0);
    assert!(NOW - a.last_used_unix < 3600);
    assert!(!is_recommended(NOW, a.last_used_unix));
}

#[test]
fn multiple_artifacts_group_under_one_project() {
    let mut f = Files::new();
    f.touch("fullstack/package.json", 10);
    f.touch("fullstack/node_modules/dep.js", 1000);
    f.touch("fullstack/Cargo.toml", 10);
    f.touch("fullstack/target/out.bin", 2000);
    let projects = f.projects();
    assert_eq!(projects.len(), 1);
    assert_eq!(projects[0].artifacts.len(), 2);
    assert_eq!(projects[0].total_bytes, 3000);
    assert_eq!(projects[0].artifacts[0].kind_id, "rust_target");
}

#[test]
fn kinds_match_their_markers() {
    let beside = Some(vec!["Cargo.toml".to_string()]);
    let k = match_kind("target", &Some(Vec::new()), &beside).unwrap();
    assert_eq!(catalog()[k].id, "rust_target");
    assert_eq!(match_kind("target", &Some(Vec::new()), &Some(Vec::new())), None);
    assert_eq!(match_kind("target", &None, &None), None);
    assert_eq!(size_of(&None), (0, 0, 0));
}

#[test]
fn a_whole_discovery_lists_each_artifact_once_and_none_inside_another() {
    let mut f = Files::new();
    f.touch("web/package.json", 1);
    f.touch("web/node_modules/a/package.json", 1);
    f.touch("web/node_modules/a/node_modules/b/x.js", 1);
    f.touch("web/.git/hooks/package.json", 1);
    f.touch("web/.git/hooks/node_modules/c.js", 1);
    f.touch("plain/node_modules/d.js", 1);
    f.touch("deep/er/package.json", 1);
    f.touch("deep/er/node_modules/e.js", 1);
    let mut paths: Vec<String> =
        f.projects().iter().flat_map(|p| p.artifacts.iter().map(|a| a.path.clone())).collect();
    paths.sort();
    assert_eq!(
        paths,
        vec![
            format!("{ROOT}/deep/er/node_modules"),
            format!("{ROOT}/web/node_modules"),
        ]
    );
}
