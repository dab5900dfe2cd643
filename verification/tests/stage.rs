use graph_core::stage::{check_stage, resolve_parts, PartKind, StageRefusal};

fn parts(p: &str) -> Vec<Vec<u8>> {
    let mut v: Vec<Vec<u8>> = Vec::new();
    if p.starts_with('/') {
        v.push(b"/".to_vec());
    }
    for s in p.split('/') {
        if !s.is_empty() {
            v.push(s.as_bytes().to_vec());
        }
    }
    v
}

#[test]
fn stage_refuses_empty_and_fs_root() {
    assert_eq!(check_stage(&parts(""), &parts("/repo")), Err(StageRefusal::EmptyOrRoot));
    assert_eq!(check_stage(&parts("/"), &parts("/repo")), Err(StageRefusal::EmptyOrRoot));
}

#[test]
fn stage_refuses_repo_root_and_its_ancestors() {
    assert_eq!(check_stage(&parts("/home/u/repo"), &parts("/home/u/repo")), Err(StageRefusal::SameAsRoot));
    assert_eq!(check_stage(&parts("/home/u"), &parts("/home/u/repo")), Err(StageRefusal::AncestorOfRoot));
    assert_eq!(check_stage(&parts("/home"), &parts("/home/u/repo")), Err(StageRefusal::AncestorOfRoot));
}

#[test]
fn stage_accepts_a_directory_inside_or_beside_the_repo() {
    assert_eq!(check_stage(&parts("/home/u/repo/.cache/content"), &parts("/home/u/repo")), Ok(()));
    assert_eq!(check_stage(&parts("/home/u/repo2"), &parts("/home/u/repo")), Ok(()));
    assert_eq!(check_stage(&parts("/tmp/stage"), &parts("/home/u/repo")), Ok(()));
}

#[test]
fn resolve_parts_drops_dots_and_takes_back_names() {
    // "/a/./b/../c"
    assert_eq!(resolve_parts(&vec![PartKind::Root, PartKind::Normal, PartKind::Current, PartKind::Normal, PartKind::Parent, PartKind::Normal]), vec![0, 1, 5]);
    // "/../a": `..` never takes back the root
    assert_eq!(resolve_parts(&vec![PartKind::Root, PartKind::Parent, PartKind::Normal]), vec![0, 2]);
    // "a/../../b": relative, nothing left to take back
    assert_eq!(resolve_parts(&vec![PartKind::Normal, PartKind::Parent, PartKind::Parent, PartKind::Normal]), vec![3]);
    assert_eq!(resolve_parts(&vec![]), Vec::<usize>::new());
}
