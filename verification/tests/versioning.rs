use cutready::error::VersioningError;
use cutready::graph::get_timeline_graph;
use cutready::navigate::{navigate_to_snapshot, restore_version};
use cutready::project::{init_project_repo, Head, Project};
use cutready::snapshot::{
    checkout_version, commit_snapshot, commit_snapshot_at, has_stash, has_unsaved_changes,
    is_rewound, pop_stash, stash_working_tree,
};
use cutready::timelines::{create_timeline, delete_timeline, list_timelines, switch_timeline};
use cutready::versions::list_versions;
use cutready::worktree::{Entry, Node};

fn put(entries: &mut Vec<Entry>, parts: &[&str], data: &[u8]) {
    let name = parts[0].as_bytes().to_vec();
    let at = entries.iter().position(|e| e.name == name);
    if parts.len() == 1 {
        match at {
            Some(i) => entries[i].node = Node::File(data.to_vec()),
            None => entries.push(Entry { name, node: Node::File(data.to_vec()) }),
        }
        return;
    }
    let i = match at {
        Some(i) => i,
        None => {
            entries.push(Entry { name, node: Node::Dir(Vec::new()) });
            entries.len() - 1
        }
    };
    match &mut entries[i].node {
        Node::Dir(inner) => put(inner, &parts[1..], data),
        Node::File(_) => panic!("a file stands where a directory is needed"),
    }
}

fn get<'a>(entries: &'a [Entry], parts: &[&str]) -> Option<&'a Node> {
    let entry = entries.iter().find(|e| e.name == parts[0].as_bytes())?;
    if parts.len() == 1 {
        return Some(&entry.node);
    }
    match &entry.node {
        Node::Dir(inner) => get(inner, &parts[1..]),
        Node::File(_) => None,
    }
}

fn write_file(project: &mut Project, path: &str, data: &str) {
    let mut work = project.take_working_dir();
    put(&mut work, &path.split('/').collect::<Vec<_>>(), data.as_bytes());
    project.set_working_dir(work).unwrap();
}

fn read_file(project: &Project, path: &str) -> Option<String> {
    match get(project.working_dir(), &path.split('/').collect::<Vec<_>>()) {
        Some(Node::File(data)) => Some(String::from_utf8(data.clone()).unwrap()),
        _ => None,
    }
}

fn file_exists(project: &Project, path: &str) -> bool {
    get(project.working_dir(), &path.split('/').collect::<Vec<_>>()).is_some()
}

fn setup_project() -> Project {
    let mut project = init_project_repo();
    write_file(&mut project, "project.json", r#"{"name": "test", "version": 1}"#);
    project
}

#[test]
fn init_creates_git_repo() {
    let project = init_project_repo();
    assert!(matches!(project.head(), Head::Attached(slug) if slug == "main"));
    assert!(project.main_tip().is_none());
    assert_eq!(project.store().commit_count(), 0);
}

#[test]
fn commit_and_list_versions() {
    let mut project = setup_project();

    let id1 = commit_snapshot(&mut project, "Initial commit", None).unwrap();
    assert!(!id1.is_empty());

    write_file(&mut project, "project.json", r#"{"name": "test", "version": 2}"#);
    let id2 = commit_snapshot(&mut project, "Update version", None).unwrap();
    assert_ne!(id1, id2);

    let versions = list_versions(&project);
    assert_eq!(versions.len(), 2);
    assert_eq!(versions[0].message, "Update version");
    assert_eq!(versions[1].message, "Initial commit");
}

#[test]
fn list_versions_empty_repo() {
    let project = setup_project();
    let versions = list_versions(&project);
    assert!(versions.is_empty());
}

#[test]
fn get_file_at_version() {
    let mut project = setup_project();

    let id1 = commit_snapshot(&mut project, "v1", None).unwrap();

    write_file(&mut project, "project.json", r#"{"name": "test", "version": 2}"#);
    let _id2 = commit_snapshot(&mut project, "v2", None).unwrap();

    let data = cutready::versions::get_file_at_version(&project, &id1, "project.json").unwrap();
    let content = String::from_utf8(data).unwrap();
    assert!(content.contains("\"version\": 1"));
}

#[test]
fn restore_version_works() {
    let mut project = setup_project();

    let id1 = commit_snapshot(&mut project, "v1", None).unwrap();

    write_file(&mut project, "project.json", r#"{"name": "test", "version": 2}"#);
    commit_snapshot(&mut project, "v2", None).unwrap();

    restore_version(&mut project, &id1).unwrap();

    let content = read_file(&project, "project.json").unwrap();
    assert!(content.contains("\"version\": 1"));

    let versions = list_versions(&project);
    assert_eq!(versions.len(), 3);
    assert!(versions[0].message.contains("Restored"));
}

#[test]
fn commit_with_subdirectories() {
    let mut project = setup_project();

    write_file(&mut project, "documents/doc1.json", r#"{"title": "Doc 1"}"#);

    let id = commit_snapshot(&mut project, "With subdirs", None).unwrap();
    assert!(!id.is_empty());

    let data =
        cutready::versions::get_file_at_version(&project, &id, "documents/doc1.json").unwrap();
    let content = String::from_utf8(data).unwrap();
    assert!(content.contains("Doc 1"));
}

#[test]
fn restore_version_restores_full_tree() {
    let mut project = setup_project();

    write_file(&mut project, "sketches/intro.sk", r#"{"title":"Intro v1"}"#);
    let id1 = commit_snapshot(&mut project, "v1 with sketch", None).unwrap();

    write_file(&mut project, "sketches/intro.sk", r#"{"title":"Intro v2"}"#);
    write_file(&mut project, "sketches/outro.sk", r#"{"title":"Outro"}"#);
    commit_snapshot(&mut project, "v2 modified", None).unwrap();

    assert!(file_exists(&project, "sketches/outro.sk"));

    restore_version(&mut project, &id1).unwrap();

    let intro = read_file(&project, "sketches/intro.sk").unwrap();
    assert!(intro.contains("Intro v1"));

    assert!(!file_exists(&project, "sketches/outro.sk"));
}

#[test]
fn stash_and_pop_working_tree() {
    let mut project = setup_project();

    commit_snapshot(&mut project, "baseline", None).unwrap();

    write_file(&mut project, "project.json", r#"{"name":"dirty","version":99}"#);
    write_file(&mut project, "notes.txt", "some notes");
    assert!(has_unsaved_changes(&mut project).unwrap());

    stash_working_tree(&mut project).unwrap();
    assert!(project.stash_slot().is_some());

    let versions = list_versions(&project);
    checkout_version(&mut project, &versions[0].id).unwrap();
    let content = read_file(&project, "project.json").unwrap();
    assert!(content.contains("\"version\": 1"));
    assert!(!file_exists(&project, "notes.txt"));

    let had_stash = pop_stash(&mut project);
    assert!(had_stash);
    let content = read_file(&project, "project.json").unwrap();
    assert!(content.contains("\"version\":99"));
    assert!(file_exists(&project, "notes.txt"));
    assert!(project.stash_slot().is_none());

    assert!(!pop_stash(&mut project));
}

#[test]
fn create_and_list_timelines() {
    let mut project = setup_project();

    let id1 = commit_snapshot(&mut project, "v1", None).unwrap();
    commit_snapshot(&mut project, "v2", None).unwrap();

    let timelines = list_timelines(&project);
    assert_eq!(timelines.len(), 1);
    assert_eq!(timelines[0].label, "Main");
    assert!(timelines[0].is_active);
    assert_eq!(timelines[0].snapshot_count, 2);

    create_timeline(&mut project, &id1, "Exploration").unwrap();

    let timelines = list_timelines(&project);
    assert_eq!(timelines.len(), 2);

    let active: Vec<_> = timelines.iter().filter(|t| t.is_active).collect();
    assert_eq!(active.len(), 1);
    assert_eq!(active[0].label, "Exploration");
}

#[test]
fn switch_and_delete_timeline() {
    let mut project = setup_project();

    let id1 = commit_snapshot(&mut project, "v1", None).unwrap();
    write_file(&mut project, "project.json", r#"{"name":"test","version":2}"#);
    commit_snapshot(&mut project, "v2", None).unwrap();

    create_timeline(&mut project, &id1, "Exploration").unwrap();

    let content = read_file(&project, "project.json").unwrap();
    assert!(content.contains("\"version\": 1"));

    switch_timeline(&mut project, "main").unwrap();
    let content = read_file(&project, "project.json").unwrap();
    assert!(content.contains("\"version\":2") || content.contains("\"version\": 2"));

    delete_timeline(&mut project, "exploration").unwrap();
    let timelines = list_timelines(&project);
    assert_eq!(timelines.len(), 1);
    assert_eq!(timelines[0].label, "Main");
}

#[test]
fn timeline_graph_shows_all_branches() {
    let mut project = setup_project();

    let id1 = commit_snapshot(&mut project, "v1", None).unwrap();
    write_file(&mut project, "project.json", r#"{"name":"test","version":2}"#);
    commit_snapshot(&mut project, "v2", None).unwrap();

    create_timeline(&mut project, &id1, "Exploration").unwrap();
    write_file(&mut project, "project.json", r#"{"name":"test","version":3}"#);
    commit_snapshot(&mut project, "v3 on exploration", None).unwrap();

    let graph = get_timeline_graph(&project);
    assert!(graph.len() >= 3);

    let messages: Vec<&str> = graph.iter().map(|n| n.message.as_str()).collect();
    assert!(messages.contains(&"v1"));
    assert!(messages.contains(&"v2"));
    assert!(messages.contains(&"v3 on exploration"));
}

#[test]
fn navigate_backward_defers_fork_until_commit() {
    let mut project = setup_project();

    let id1 = commit_snapshot(&mut project, "v1", None).unwrap();
    write_file(&mut project, "project.json", r#"{"version":2}"#);
    let id2 = commit_snapshot(&mut project, "v2", None).unwrap();
    write_file(&mut project, "project.json", r#"{"version":3}"#);
    let _id3 = commit_snapshot(&mut project, "v3", None).unwrap();

    navigate_to_snapshot(&mut project, &id1).unwrap();

    let versions = list_versions(&project);
    assert_eq!(versions.len(), 1);
    assert_eq!(versions[0].id, id1);

    let timelines = list_timelines(&project);
    assert_eq!(timelines.len(), 1, "No fork yet — just navigation");

    let graph = get_timeline_graph(&project);
    assert!(graph.len() >= 3, "Graph should show all commits via prev-tip");

    navigate_to_snapshot(&mut project, &id2).unwrap();
    assert!(!has_unsaved_changes(&mut project).unwrap(), "Clean after forward nav");

    navigate_to_snapshot(&mut project, &id1).unwrap();

    write_file(&mut project, "project.json", r#"{"version":"new"}"#);
    let _new_id = commit_snapshot(&mut project, "new direction", None).unwrap();

    let timelines = list_timelines(&project);
    assert!(timelines.len() >= 2, "Fork created on commit, got {}", timelines.len());
    let fork = timelines.iter().find(|t| t.name != "main");
    assert!(fork.is_some(), "Expected a fork timeline after commit from rewound state");
}

#[test]
fn commit_with_custom_fork_label() {
    let mut project = setup_project();

    let id1 = commit_snapshot(&mut project, "v1", None).unwrap();
    write_file(&mut project, "project.json", r#"{"v":2}"#);
    let _id2 = commit_snapshot(&mut project, "v2", None).unwrap();

    navigate_to_snapshot(&mut project, &id1).unwrap();
    assert!(is_rewound(&project), "Should be rewound after backward nav");

    write_file(&mut project, "project.json", r#"{"v":"alt"}"#);
    let _id3 =
        commit_snapshot(&mut project, "alternative approach", Some("Original plan")).unwrap();

    let timelines = list_timelines(&project);
    let fork = timelines.iter().find(|t| t.name != "main");
    assert!(fork.is_some(), "Fork should exist");
    assert_eq!(fork.unwrap().label, "Original plan", "Should use custom label");
    assert!(!is_rewound(&project), "prev-tip cleared after commit");
}

#[test]
fn navigate_to_current_head_is_noop() {
    let mut project = setup_project();

    let id1 = commit_snapshot(&mut project, "v1", None).unwrap();

    navigate_to_snapshot(&mut project, &id1).unwrap();

    let timelines = list_timelines(&project);
    assert_eq!(timelines.len(), 1, "Should still have only main timeline");
}

#[test]
fn has_stash_check() {
    let mut project = setup_project();
    commit_snapshot(&mut project, "v1", None).unwrap();

    assert!(!has_stash(&project));

    stash_working_tree(&mut project).unwrap();
    assert!(has_stash(&project));

    pop_stash(&mut project);
    assert!(!has_stash(&project));
}

#[test]
fn full_workflow_navigate_edit_crossbranch() {
    let mut project = setup_project();

    let sketch = r#"{"title":"Start","rows":[{"text":"row1"}]}"#;
    write_file(&mut project, "start.sk", sketch);
    let id1 = commit_snapshot(&mut project, "row one", None).unwrap();

    let sketch2 = r#"{"title":"Start","rows":[{"text":"row1"},{"text":"row2"}]}"#;
    write_file(&mut project, "start.sk", sketch2);
    let id2 = commit_snapshot(&mut project, "row two", None).unwrap();

    let sketch3 = r#"{"title":"Start","rows":[{"text":"row1"},{"text":"row2"},{"text":"row3"}]}"#;
    write_file(&mut project, "start.sk", sketch3);
    let id3 = commit_snapshot(&mut project, "row three", None).unwrap();

    assert_eq!(list_versions(&project).len(), 3);
    assert!(!has_unsaved_changes(&mut project).unwrap(), "Should be clean after commit");

    navigate_to_snapshot(&mut project, &id1).unwrap();

    let disk = read_file(&project, "start.sk").unwrap();
    assert!(disk.contains("row1"), "File should contain row1");
    assert!(!disk.contains("row2"), "File should NOT contain row2 after navigating to id1");
    assert!(!disk.contains("row3"), "File should NOT contain row3 after navigating to id1");

    assert!(
        !has_unsaved_changes(&mut project).unwrap(),
        "Should be clean right after navigating — file matches HEAD"
    );

    let versions = list_versions(&project);
    assert_eq!(versions.len(), 1, "Main should have 1 commit after rewind");
    assert_eq!(versions[0].id, id1);

    let timelines = list_timelines(&project);
    assert_eq!(timelines.len(), 1, "No fork until we commit new work");

    let graph = get_timeline_graph(&project);
    assert!(graph.len() >= 3, "Graph should have at least 3 nodes via prev-tip");
    let head_nodes: Vec<_> = graph.iter().filter(|n| n.is_head).collect();
    assert_eq!(head_nodes.len(), 1, "Exactly one HEAD node");
    assert_eq!(head_nodes[0].id, id1, "HEAD should be id1");

    navigate_to_snapshot(&mut project, &id2).unwrap();
    let disk = read_file(&project, "start.sk").unwrap();
    assert!(disk.contains("row2"), "Should have row2 after forward nav");
    assert!(!has_unsaved_changes(&mut project).unwrap(), "Clean after forward nav");

    navigate_to_snapshot(&mut project, &id1).unwrap();

    let sketch_new = r#"{"title":"Start","rows":[{"text":"row1"},{"text":"new direction"}]}"#;
    write_file(&mut project, "start.sk", sketch_new);
    assert!(has_unsaved_changes(&mut project).unwrap(), "Should be dirty after editing");

    let _id4 = commit_snapshot(&mut project, "new direction", None).unwrap();
    assert!(!has_unsaved_changes(&mut project).unwrap(), "Should be clean after saving");

    let timelines = list_timelines(&project);
    assert!(timelines.len() >= 2, "Should have main + fork after commit");
    let fork = timelines.iter().find(|t| t.name != "main");
    assert!(fork.is_some(), "Fork should exist for new direction");

    navigate_to_snapshot(&mut project, &id3).unwrap();

    let disk = read_file(&project, "start.sk").unwrap();
    assert!(disk.contains("row3"), "After cross-timeline nav, file should have row3");

    assert!(
        !has_unsaved_changes(&mut project).unwrap(),
        "Should be clean after cross-timeline navigation"
    );

    let graph = get_timeline_graph(&project);
    let head_nodes: Vec<_> = graph.iter().filter(|n| n.is_head).collect();
    assert_eq!(head_nodes.len(), 1, "Still exactly one HEAD");

    navigate_to_snapshot(&mut project, &id2).unwrap();
    let disk = read_file(&project, "start.sk").unwrap();
    assert!(disk.contains("row2"), "Should have row2");
    assert!(!disk.contains("row3"), "Should NOT have row3");
    assert!(!has_unsaved_changes(&mut project).unwrap(), "Clean after nav to id2");
}

#[test]
fn navigate_to_empty_initial_commit() {
    let mut project = setup_project();

    let init_id = commit_snapshot(&mut project, "Init", None).unwrap();

    write_file(&mut project, "sketch.sk", r#"{"title":"Test"}"#);
    let _id2 = commit_snapshot(&mut project, "Added sketch", None).unwrap();

    navigate_to_snapshot(&mut project, &init_id).unwrap();

    let files: Vec<String> = project
        .working_dir()
        .iter()
        .map(|e| String::from_utf8_lossy(&e.name).into_owned())
        .filter(|n| !n.starts_with('.'))
        .collect();
    assert!(
        !files.contains(&"sketch.sk".to_string()),
        "sketch.sk should not exist after navigating to initial commit"
    );
    assert!(
        files.contains(&"project.json".to_string()),
        "project.json should still exist from initial commit"
    );

    assert!(
        !has_unsaved_changes(&mut project).unwrap(),
        "Should be clean after navigating to initial commit"
    );
}

#[test]
fn stale_write_after_navigation_detected_as_dirty() {
    let mut project = setup_project();

    let sketch_v1 = r#"{"title":"V1","rows":[]}"#;
    write_file(&mut project, "demo.sk", sketch_v1);
    let id1 = commit_snapshot(&mut project, "version 1", None).unwrap();

    let sketch_v2 = r#"{"title":"V2","rows":[{"text":"added"}]}"#;
    write_file(&mut project, "demo.sk", sketch_v2);
    let _id2 = commit_snapshot(&mut project, "version 2", None).unwrap();

    navigate_to_snapshot(&mut project, &id1).unwrap();
    assert!(!has_unsaved_changes(&mut project).unwrap(), "Clean after nav");

    write_file(&mut project, "demo.sk", sketch_v2);
    assert!(
        has_unsaved_changes(&mut project).unwrap(),
        "Should be dirty after stale write — this is the bug the frontend fix prevents"
    );

    navigate_to_snapshot(&mut project, &id1).unwrap();
    let disk = read_file(&project, "demo.sk").unwrap();
    assert!(disk.contains("V1"), "File should be V1 after re-checkout");
    assert!(!has_unsaved_changes(&mut project).unwrap(), "Clean after re-checkout");
}

#[test]
fn shared_ancestors_attributed_to_main() {
    let mut project = setup_project();

    write_file(&mut project, "a.txt", "one");
    let id1 = commit_snapshot(&mut project, "one", None).unwrap();

    write_file(&mut project, "a.txt", "two");
    let _id2 = commit_snapshot(&mut project, "two", None).unwrap();

    navigate_to_snapshot(&mut project, &id1).unwrap();

    write_file(&mut project, "b.txt", "branch work");
    let _branch_id = commit_snapshot(&mut project, "branch first", Some("experiment")).unwrap();

    let graph = get_timeline_graph(&project);

    let one_node = graph.iter().find(|n| n.message == "one").unwrap();
    assert_eq!(
        one_node.timeline, "main",
        "Shared ancestor 'one' should be attributed to main, got '{}'",
        one_node.timeline
    );

    let two_node = graph.iter().find(|n| n.message == "two").unwrap();
    assert_eq!(
        two_node.timeline, "main",
        "Original main commit 'two' should stay on main, got '{}'",
        two_node.timeline
    );

    let branch_node = graph.iter().find(|n| n.message == "branch first").unwrap();
    assert_ne!(branch_node.timeline, "main", "Branch commit should NOT be on main");
}

#[test]
fn rewind_edit_and_fork_keeps_main() {
    let mut project = init_project_repo();
    write_file(&mut project, "a.txt", "1");
    let id1 = commit_snapshot_at(&mut project, "first", None, 1_700_000_000).unwrap();
    write_file(&mut project, "a.txt", "2");
    let id2 = commit_snapshot_at(&mut project, "second", None, 1_700_000_060).unwrap();

    navigate_to_snapshot(&mut project, &id1).unwrap();
    assert_eq!(read_file(&project, "a.txt").unwrap(), "1");
    assert!(!has_unsaved_changes(&mut project).unwrap());
    assert_eq!(list_timelines(&project).len(), 1);

    write_file(&mut project, "a.txt", "x");
    commit_snapshot_at(&mut project, "third", Some("Alt"), 1_700_000_120).unwrap();

    let timelines = list_timelines(&project);
    assert_eq!(timelines.len(), 2);
    assert_eq!(timelines[1].label, "Alt");
    assert_eq!(timelines[1].name, "fork-221520");
    assert!(timelines[1].is_active);
    assert_eq!(project.main_tip().unwrap().to_hex(), id2);
    let main_tip = project.main_tip().unwrap().to_hex();
    let data = cutready::versions::get_file_at_version(&project, &main_tip, "a.txt").unwrap();
    assert_eq!(data, b"2");
}

#[test]
fn commit_ids_are_those_of_git() {
    let mut project = init_project_repo();
    write_file(&mut project, "a.txt", "1");
    let id = commit_snapshot_at(&mut project, "first", None, 1_700_000_000).unwrap();
    let store = project.store();
    assert_eq!(store.blob_count(), 1);
    assert_eq!(store.blob_at(0).id.to_hex(), "56a6051ca2b02b04ef92d5150c9ef600403cb1de");
    assert_eq!(store.tree_at(0).id.to_hex(), "855dfa3b6ea84d4cc77bd84e699dece076ecaed3");
    assert_eq!(id, "b2af35885e90e2490f0572155bede3d692485140");
    assert_eq!(store.commit_at(0).id.to_hex(), id);
    let again = {
        let mut other = init_project_repo();
        write_file(&mut other, "a.txt", "1");
        commit_snapshot_at(&mut other, "first", None, 1_700_000_000).unwrap()
    };
    assert_eq!(id, again);
}

#[test]
fn unknown_ids_are_not_found() {
    let mut project = setup_project();
    commit_snapshot(&mut project, "v1", None).unwrap();
    let absent = "0123456789abcdef0123456789abcdef01234567";
    assert_eq!(navigate_to_snapshot(&mut project, "nonsense"), Err(VersioningError::NotFound));
    assert_eq!(navigate_to_snapshot(&mut project, absent), Err(VersioningError::NotFound));
    assert_eq!(checkout_version(&mut project, absent), Err(VersioningError::NotFound));
    assert_eq!(switch_timeline(&mut project, "nowhere"), Err(VersioningError::NotFound));
    assert_eq!(delete_timeline(&mut project, "nowhere"), Err(VersioningError::NotFound));
    assert_eq!(delete_timeline(&mut project, "main"), Err(VersioningError::InvalidOperation));
}
