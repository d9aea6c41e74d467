use cutready::error::VersioningError;
use cutready::graph::get_timeline_graph;
use cutready::navigate::{navigate_to_snapshot, restore_version};
use cutready::object_id::ObjectId;
use cutready::objects::TreeEntry;
use cutready::persist::{format_labels, head_text, parse_head_text, parse_labels, parse_marker_text};
use cutready::project::{init_project_repo, Head, Label, Project, Timeline};
use cutready::registry::{remove_timeline_label, save_timeline_label};
use cutready::snapshot::{
    checkout_version, commit_snapshot_at, has_stash, has_unsaved_changes, is_rewound, pop_stash,
    stash_working_tree,
};
use cutready::store::ObjectStore;
use cutready::text::{clock_of, slugify_timeline_name};
use cutready::timelines::{create_timeline, delete_timeline, list_timelines, switch_timeline};
use cutready::versions::{get_file_at_version, list_versions};
use cutready::worktree::{Entry, Node};

fn file(name: &str, data: &str) -> Entry {
    Entry { name: name.as_bytes().to_vec(), node: Node::File(data.as_bytes().to_vec()) }
}

fn dir(name: &str, entries: Vec<Entry>) -> Entry {
    Entry { name: name.as_bytes().to_vec(), node: Node::Dir(entries) }
}

fn project_with(entries: Vec<Entry>) -> Project {
    let mut project = init_project_repo();
    project.set_working_dir(entries).unwrap();
    project
}

fn names(entries: &[Entry]) -> Vec<String> {
    entries.iter().map(|e| String::from_utf8(e.name.clone()).unwrap()).collect()
}

fn content(entries: &[Entry], name: &str) -> Vec<u8> {
    match entries.iter().find(|e| e.name == name.as_bytes()).map(|e| &e.node) {
        Some(Node::File(data)) => data.clone(),
        _ => panic!("no file {name}"),
    }
}

const T0: i64 = 1_700_000_000;

#[test]
fn object_ids_read_and_write_hexadecimal() {
    let one = ObjectId::parse("0000000000000000000000000000000000000001").unwrap();
    assert_eq!(one, ObjectId { hi: 0, lo: 1 });
    let mixed = ObjectId::parse("89ABCDEF0123456789abcdef0123456789abcdef").unwrap();
    assert_eq!(mixed.hi, 0x89abcdef);
    assert_eq!(mixed.lo, 0x0123456789abcdef0123456789abcdef);
    assert_eq!(mixed.to_hex(), "89abcdef0123456789abcdef0123456789abcdef");
    assert_eq!(ObjectId::parse(&one.to_hex()), Some(one));
    assert_eq!(ObjectId::parse(""), None);
    assert_eq!(ObjectId::parse("123"), None);
    assert_eq!(ObjectId::parse("g000000000000000000000000000000000000001"), None);
    assert_eq!(ObjectId::parse("00000000000000000000000000000000000000011"), None);
}

#[test]
fn trees_are_listed_in_the_order_of_git() {
    let mut project = project_with(vec![
        dir("docs", vec![file("b.txt", "two")]),
        file("docs.txt", "one"),
        file("a.txt", "one"),
        file(".hidden", "never stored"),
    ]);
    let id = commit_snapshot_at(&mut project, "first", None, T0).unwrap();
    let store = project.store();
    let commit = store.commit_at(store.find_commit(ObjectId::parse(&id).unwrap()).unwrap());
    assert_eq!(commit.tree.to_hex(), "af925fc11aed859f1e5725d085b43ec59fbf3ac9");
    let root = store.tree_at(store.find_tree(commit.tree).unwrap());
    let listed: Vec<&[u8]> = root.entries.iter().map(|e| e.name.as_slice()).collect();
    assert_eq!(listed, vec![&b"a.txt"[..], &b"docs.txt"[..], &b"docs"[..]]);
    assert_eq!(root.entries[2].id.to_hex(), "fc3aad4f66ff17d44bf5a783715264f5e8484ce3");
    assert_eq!(store.blob_count(), 2);
}

#[test]
fn an_empty_directory_is_the_empty_tree() {
    let mut project = init_project_repo();
    commit_snapshot_at(&mut project, "nothing", None, T0).unwrap();
    assert_eq!(project.store().tree_at(0).id.to_hex(), "4b825dc642cb6eb9a060e54bf8d69288fbee4904");
}

#[test]
fn a_second_commit_names_its_parent() {
    let mut project = project_with(vec![file("a.txt", "1")]);
    let first = commit_snapshot_at(&mut project, "first", None, T0).unwrap();
    assert_eq!(first, "b2af35885e90e2490f0572155bede3d692485140");
    project
        .set_working_dir(vec![
            dir("docs", vec![file("b.txt", "two")]),
            file("docs.txt", "one"),
            file("a.txt", "one"),
        ])
        .unwrap();
    let second = commit_snapshot_at(&mut project, "second", None, T0 + 60).unwrap();
    assert_eq!(second, "42e70ec90d2551fbd8f1d3a4e3bccac95103e84b");
    let graph = get_timeline_graph(&project);
    assert_eq!(graph[0].parents, vec![first.clone()]);
    assert!(graph[1].parents.is_empty());
}

#[test]
fn the_store_keeps_every_object_once() {
    let mut store = ObjectStore::new();
    let a = store.put_blob(b"same".to_vec()).unwrap();
    let b = store.put_blob(b"same".to_vec()).unwrap();
    assert_eq!(a, b);
    assert_eq!(store.blob_count(), 1);
    let entries = || vec![TreeEntry { name: b"f".to_vec(), is_dir: false, id: a }];
    let t1 = store.put_tree(entries()).unwrap();
    let t2 = store.put_tree(entries()).unwrap();
    assert_eq!(t1, t2);
    assert_eq!(store.tree_count(), 1);
    let c1 = store.put_commit(t1, None, "m".to_string(), T0).unwrap();
    let c2 = store.put_commit(t1, None, "m".to_string(), T0).unwrap();
    assert_eq!(c1, c2);
    assert_eq!(store.commit_count(), 1);
}

#[test]
fn the_store_refuses_what_is_not_well_formed() {
    let mut store = ObjectStore::new();
    let blob = store.put_blob(b"x".to_vec()).unwrap();
    let absent = ObjectId { hi: 1, lo: 2 };
    let entry = |name: &str, is_dir: bool, id: ObjectId| TreeEntry {
        name: name.as_bytes().to_vec(),
        is_dir,
        id,
    };
    let refused = Err(VersioningError::ObjectStore);
    assert_eq!(store.put_tree(vec![entry("b", false, blob), entry("a", false, blob)]), refused);
    assert_eq!(store.put_tree(vec![entry("a", false, blob), entry("a", false, blob)]), refused);
    assert_eq!(store.put_tree(vec![entry(".a", false, blob)]), refused);
    assert_eq!(store.put_tree(vec![entry("a/b", false, blob)]), refused);
    assert_eq!(store.put_tree(vec![entry("", false, blob)]), refused);
    assert_eq!(store.put_tree(vec![entry("a", false, absent)]), refused);
    assert_eq!(store.put_tree(vec![entry("a", true, absent)]), refused);
    assert_eq!(store.tree_count(), 0);
    let tree = store.put_tree(vec![entry("a", false, blob), entry("b", false, blob)]).unwrap();
    assert_eq!(store.put_commit(absent, None, "m".to_string(), T0), refused);
    assert_eq!(store.put_commit(tree, Some(absent), "m".to_string(), T0), refused);
    assert_eq!(store.commit_count(), 0);
}

#[test]
fn directories_sort_as_if_their_names_ended_in_a_slash() {
    let mut store = ObjectStore::new();
    let blob = store.put_blob(b"x".to_vec()).unwrap();
    let empty = store.put_tree(Vec::new()).unwrap();
    let entry = |name: &str, is_dir: bool, id: ObjectId| TreeEntry {
        name: name.as_bytes().to_vec(),
        is_dir,
        id,
    };
    assert!(store.put_tree(vec![entry("a-b", false, blob), entry("a", true, empty)]).is_ok());
    assert_eq!(
        store.put_tree(vec![entry("a", true, empty), entry("a-b", false, blob)]),
        Err(VersioningError::ObjectStore)
    );
    assert!(store.put_tree(vec![entry("a", true, empty), entry("a0", false, blob)]).is_ok());
}

#[test]
fn a_working_directory_with_bad_names_is_refused() {
    let mut project = init_project_repo();
    let refused = Err(VersioningError::InvalidOperation);
    assert_eq!(project.set_working_dir(vec![file("a", "1"), file("a", "2")]), refused);
    assert_eq!(project.set_working_dir(vec![file("", "1")]), refused);
    assert_eq!(project.set_working_dir(vec![file("a/b", "1")]), refused);
    assert_eq!(project.set_working_dir(vec![dir("d", vec![file("x\0", "1")])]), refused);
    assert!(project.working_dir().is_empty());
    assert!(project.set_working_dir(vec![file(".a", "1"), dir("d", vec![])]).is_ok());
}

#[test]
fn n_commits_give_n_versions_newest_first() {
    let mut project = init_project_repo();
    let mut ids = Vec::new();
    for n in 0..5 {
        project.set_working_dir(vec![file("n.txt", &n.to_string())]).unwrap();
        ids.push(commit_snapshot_at(&mut project, &format!("save {n}"), None, T0 + n).unwrap());
        assert_eq!(has_unsaved_changes(&mut project), Ok(false));
        let versions = list_versions(&project);
        assert_eq!(versions.len() as i64, n + 1);
        assert_eq!(versions[0].id, ids[n as usize]);
    }
    let listed: Vec<String> = list_versions(&project).into_iter().map(|v| v.id).collect();
    ids.reverse();
    assert_eq!(listed, ids);
}

#[test]
fn versions_carry_trimmed_messages_and_times() {
    let mut project = project_with(vec![file("a", "1")]);
    commit_snapshot_at(&mut project, "  padded message \n", None, T0 + 7).unwrap();
    let versions = list_versions(&project);
    assert_eq!(versions[0].message, "padded message");
    assert_eq!(versions[0].timestamp, T0 + 7);
    assert_eq!(versions[0].summary, "");
    assert_eq!(project.store().commit_at(0).message, "  padded message \n");
}

#[test]
fn the_time_of_day_is_told_for_every_time() {
    assert_eq!(clock_of(0), "000000");
    assert_eq!(clock_of(86399), "235959");
    assert_eq!(clock_of(-1), "235959");
    assert_eq!(clock_of(1_700_000_120), "221520");
    assert_eq!(clock_of(100_000_000_001), "094641");
    assert_eq!(clock_of(-100_000_000_001), "141319");
    assert_eq!(clock_of(i64::MAX), "153007");
    assert_eq!(clock_of(i64::MIN), "082952");
}

#[test]
fn a_commit_can_carry_any_time() {
    let mut project = project_with(vec![file("a", "1")]);
    let first = commit_snapshot_at(&mut project, "m", None, i64::MIN).unwrap();
    project.set_working_dir(vec![file("a", "2")]).unwrap();
    commit_snapshot_at(&mut project, "m", None, i64::MAX).unwrap();
    navigate_to_snapshot(&mut project, &first).unwrap();
    project.set_working_dir(vec![file("a", "3")]).unwrap();
    commit_snapshot_at(&mut project, "m", None, i64::MAX).unwrap();
    assert!(matches!(project.head(), Head::Attached(slug) if slug == "fork-153007"));
    let times: Vec<i64> = get_timeline_graph(&project).iter().map(|n| n.timestamp).collect();
    assert_eq!(times, vec![i64::MAX, i64::MAX, i64::MIN]);
}

#[test]
fn before_the_first_commit_everything_is_unsaved() {
    let mut project = init_project_repo();
    assert_eq!(has_unsaved_changes(&mut project), Ok(true));
    assert!(list_versions(&project).is_empty());
    assert!(list_timelines(&project).is_empty());
    assert!(get_timeline_graph(&project).is_empty());
    assert!(!is_rewound(&project));
    assert!(!has_stash(&project));
    assert_eq!(navigate_to_snapshot(&mut project, "x"), Err(VersioningError::NotFound));
}

#[test]
fn checkout_keeps_hidden_entries_of_the_top_level() {
    let mut project = project_with(vec![
        file(".settings", "mine"),
        file("a.txt", "1"),
        dir("d", vec![file(".inner", "x"), file("b.txt", "2")]),
    ]);
    let first = commit_snapshot_at(&mut project, "first", None, T0).unwrap();
    project.set_working_dir(vec![file(".settings", "changed"), file("z.txt", "9")]).unwrap();
    commit_snapshot_at(&mut project, "second", None, T0 + 1).unwrap();

    assert_eq!(checkout_version(&mut project, &first), Ok(()));
    let work = project.working_dir();
    assert_eq!(names(work), vec![".settings", "a.txt", "d"]);
    assert_eq!(content(work, ".settings"), b"changed");
    assert_eq!(content(work, "a.txt"), b"1");
    match &work[2].node {
        Node::Dir(inner) => assert_eq!(names(inner), vec!["b.txt"]),
        Node::File(_) => panic!("d is a directory"),
    }
    assert_eq!(list_versions(&project).len(), 2);
    assert_eq!(has_unsaved_changes(&mut project), Ok(true));
}

#[test]
fn checking_out_any_commit_leaves_its_tree_in_the_working_directory() {
    let mut project = project_with(vec![file("b", "1"), file("a", "2"), dir("c", vec![])]);
    let first = commit_snapshot_at(&mut project, "first", None, T0).unwrap();
    project.set_working_dir(vec![file("x", "3")]).unwrap();
    let second = commit_snapshot_at(&mut project, "second", None, T0 + 1).unwrap();
    for id in [&first, &second] {
        checkout_version(&mut project, id).unwrap();
        let before = project.store().tree_count();
        stash_working_tree(&mut project).unwrap();
        let commit = project.store().find_commit(ObjectId::parse(id).unwrap()).unwrap();
        assert_eq!(project.stash_slot(), Some(project.store().commit_at(commit).tree));
        assert_eq!(project.store().tree_count(), before);
    }
}

#[test]
fn the_stash_brings_back_what_was_set_aside() {
    let mut project = project_with(vec![file("a", "1")]);
    let base = commit_snapshot_at(&mut project, "base", None, T0).unwrap();
    project
        .set_working_dir(vec![
            file("zeta", "z"),
            file(".top", "kept"),
            dir("sub", vec![file("two", "2"), file("one", "1"), file(".gone", "x")]),
            file("a", "changed"),
        ])
        .unwrap();
    stash_working_tree(&mut project).unwrap();
    assert!(has_stash(&project));
    checkout_version(&mut project, &base).unwrap();
    assert_eq!(content(project.working_dir(), "a"), b"1");

    assert!(pop_stash(&mut project));
    assert!(!has_stash(&project));
    let work = project.working_dir();
    assert_eq!(names(work), vec![".top", "a", "sub", "zeta"]);
    assert_eq!(content(work, "a"), b"changed");
    assert_eq!(content(work, "zeta"), b"z");
    match &work[2].node {
        Node::Dir(inner) => {
            assert_eq!(names(inner), vec!["one", "two"]);
            assert_eq!(content(inner, "one"), b"1");
        }
        Node::File(_) => panic!("sub is a directory"),
    }

    let before = names(project.working_dir());
    assert!(!pop_stash(&mut project));
    assert_eq!(names(project.working_dir()), before);
}

#[test]
fn rewinding_keeps_every_commit_in_sight() {
    let mut project = init_project_repo();
    let mut ids = Vec::new();
    for n in 0..4 {
        project.set_working_dir(vec![file("n", &n.to_string())]).unwrap();
        ids.push(commit_snapshot_at(&mut project, "m", None, T0 + n).unwrap());
    }
    let before: Vec<String> = get_timeline_graph(&project).into_iter().map(|n| n.id).collect();
    navigate_to_snapshot(&mut project, &ids[1]).unwrap();
    assert!(is_rewound(&project));
    assert_eq!(project.prev_tip().unwrap().to_hex(), ids[3]);
    assert!(matches!(project.head(), Head::Detached(id) if id.to_hex() == ids[1]));
    let versions: Vec<String> = list_versions(&project).into_iter().map(|v| v.id).collect();
    assert_eq!(versions, vec![ids[1].clone(), ids[0].clone()]);
    let graph = get_timeline_graph(&project);
    let after: Vec<String> = graph.iter().map(|n| n.id.clone()).collect();
    assert_eq!(after, before);
    assert!(graph.iter().all(|n| n.timeline == "main" && n.lane == 0));
    assert_eq!(graph.iter().filter(|n| n.is_head).count(), 1);
    assert!(graph[2].is_head);

    navigate_to_snapshot(&mut project, &ids[0]).unwrap();
    assert_eq!(project.prev_tip().unwrap().to_hex(), ids[3]);
    navigate_to_snapshot(&mut project, &ids[2]).unwrap();
    assert_eq!(project.prev_tip().unwrap().to_hex(), ids[3]);
    navigate_to_snapshot(&mut project, &ids[3]).unwrap();
    assert!(!is_rewound(&project));
    assert!(matches!(project.head(), Head::Attached(slug) if slug == "main"));
}

#[test]
fn a_commit_while_rewound_forks_once() {
    let mut project = project_with(vec![file("a", "1")]);
    let first = commit_snapshot_at(&mut project, "first", None, T0).unwrap();
    project.set_working_dir(vec![file("a", "2")]).unwrap();
    let second = commit_snapshot_at(&mut project, "second", None, T0 + 1).unwrap();
    navigate_to_snapshot(&mut project, &first).unwrap();
    project.set_working_dir(vec![file("a", "3")]).unwrap();
    let third = commit_snapshot_at(&mut project, "third", Some("   "), 3600 * 7 + 60 * 8 + 9).unwrap();

    let timelines = list_timelines(&project);
    assert_eq!(timelines.len(), 2);
    assert_eq!(timelines[1].name, "fork-070809");
    assert_eq!(timelines[1].label, "New direction");
    assert_eq!(timelines[1].snapshot_count, 2);
    assert_eq!(timelines[1].color_index, 1);
    assert!(timelines[1].is_active && !timelines[0].is_active);
    assert_eq!(timelines[0].snapshot_count, 2);
    assert_eq!(project.main_tip().unwrap().to_hex(), second);
    assert!(!is_rewound(&project));

    let graph = get_timeline_graph(&project);
    let node = graph.iter().find(|n| n.id == third).unwrap();
    assert_eq!(node.parents, vec![first.clone()]);
    assert_eq!(node.timeline, "fork-070809");
    assert!(node.is_head);

    project.set_working_dir(vec![file("a", "4")]).unwrap();
    commit_snapshot_at(&mut project, "fourth", None, T0 + 3).unwrap();
    assert_eq!(list_timelines(&project).len(), 2);
    assert_eq!(project.main_tip().unwrap().to_hex(), second);
}

#[test]
fn a_fork_at_a_taken_slug_gets_the_next_one() {
    let mut project = project_with(vec![file("a", "1")]);
    let first = commit_snapshot_at(&mut project, "first", None, T0).unwrap();
    commit_snapshot_at(&mut project, "second", None, T0 + 1).unwrap();
    for expected in ["fork-000000", "fork-000000-2", "fork-000000-3"] {
        switch_timeline(&mut project, "main").unwrap();
        navigate_to_snapshot(&mut project, &first).unwrap();
        project.set_working_dir(vec![file("a", expected)]).unwrap();
        commit_snapshot_at(&mut project, expected, None, 86400 * 3).unwrap();
        assert!(matches!(project.head(), Head::Attached(slug) if slug == expected));
    }
    let slugs: Vec<String> = list_timelines(&project).into_iter().map(|t| t.name).collect();
    assert_eq!(slugs, vec!["main", "fork-000000", "fork-000000-2", "fork-000000-3"]);
}

#[test]
fn slugs_are_lower_case_with_dashes() {
    assert_eq!(slugify_timeline_name("  Hello World!  "), "hello-world");
    assert_eq!(slugify_timeline_name("Exploration"), "exploration");
    assert_eq!(slugify_timeline_name("--a--b--"), "a--b");
    assert_eq!(slugify_timeline_name("Ünïcode 42"), "ünïcode-42");
    assert_eq!(slugify_timeline_name("!!!"), "");
    assert_eq!(slugify_timeline_name(""), "");
}

#[test]
fn timelines_are_created_under_free_slugs() {
    let mut project = project_with(vec![file("a", "1")]);
    let first = commit_snapshot_at(&mut project, "first", None, T0).unwrap();
    assert_eq!(create_timeline(&mut project, &first, "Main"), Ok("main-2".to_string()));
    assert_eq!(create_timeline(&mut project, &first, "Idea"), Ok("idea".to_string()));
    assert_eq!(create_timeline(&mut project, &first, " idea "), Ok("idea-2".to_string()));
    assert_eq!(create_timeline(&mut project, &first, "Idea"), Ok("idea-3".to_string()));
    assert_eq!(create_timeline(&mut project, &first, "???"), Err(VersioningError::InvalidOperation));
    assert_eq!(create_timeline(&mut project, "zz", "x"), Err(VersioningError::NotFound));
    let timelines = list_timelines(&project);
    let listed: Vec<(&str, &str, bool)> =
        timelines.iter().map(|t| (t.name.as_str(), t.label.as_str(), t.is_active)).collect();
    assert_eq!(
        listed,
        vec![
            ("main", "Main", false),
            ("idea", "Idea", false),
            ("idea-2", " idea ", false),
            ("idea-3", "Idea", true),
            ("main-2", "Main", false),
        ]
    );
}

#[test]
fn the_active_timeline_cannot_be_deleted() {
    let mut project = project_with(vec![file("a", "1")]);
    let first = commit_snapshot_at(&mut project, "first", None, T0).unwrap();
    create_timeline(&mut project, &first, "Side").unwrap();
    assert_eq!(delete_timeline(&mut project, "side"), Err(VersioningError::InvalidOperation));
    assert_eq!(delete_timeline(&mut project, "main"), Err(VersioningError::InvalidOperation));
    assert_eq!(delete_timeline(&mut project, "other"), Err(VersioningError::NotFound));
    switch_timeline(&mut project, "main").unwrap();
    assert_eq!(delete_timeline(&mut project, "side"), Ok(()));
    assert!(project.labels().is_empty());
    assert_eq!(list_timelines(&project).len(), 1);
}

#[test]
fn a_detached_position_counts_to_the_first_timeline_that_holds_it() {
    let mut project = project_with(vec![file("a", "1")]);
    let first = commit_snapshot_at(&mut project, "first", None, T0).unwrap();
    project.set_working_dir(vec![file("a", "2")]).unwrap();
    let second = commit_snapshot_at(&mut project, "second", None, T0 + 1).unwrap();
    create_timeline(&mut project, &second, "Side").unwrap();
    project.set_working_dir(vec![file("a", "3")]).unwrap();
    commit_snapshot_at(&mut project, "third", None, T0 + 2).unwrap();
    project.set_working_dir(vec![file("a", "4")]).unwrap();
    commit_snapshot_at(&mut project, "fourth", None, T0 + 3).unwrap();

    navigate_to_snapshot(&mut project, &first).unwrap();
    let timelines = list_timelines(&project);
    assert!(timelines[0].is_active && !timelines[1].is_active);

    navigate_to_snapshot(&mut project, &second).unwrap();
    assert!(matches!(project.head(), Head::Attached(slug) if slug == "main"));
}

#[test]
fn the_graph_is_newest_first_and_counts_the_head_to_its_timeline() {
    let mut project = project_with(vec![file("a", "1")]);
    let first = commit_snapshot_at(&mut project, "first", None, T0 + 10).unwrap();
    create_timeline(&mut project, &first, "Side").unwrap();
    project.set_working_dir(vec![file("a", "2")]).unwrap();
    let second = commit_snapshot_at(&mut project, "second", None, T0 + 30).unwrap();
    switch_timeline(&mut project, "main").unwrap();
    project.set_working_dir(vec![file("a", "3")]).unwrap();
    let third = commit_snapshot_at(&mut project, "third", None, T0 + 20).unwrap();

    let graph = get_timeline_graph(&project);
    let shown: Vec<(&str, &str, usize, bool)> =
        graph.iter().map(|n| (n.id.as_str(), n.timeline.as_str(), n.lane, n.is_head)).collect();
    assert_eq!(
        shown,
        vec![
            (second.as_str(), "side", 1, false),
            (third.as_str(), "main", 0, true),
            (first.as_str(), "main", 0, false),
        ]
    );

    switch_timeline(&mut project, "side").unwrap();
    navigate_to_snapshot(&mut project, &first).unwrap();
    assert!(matches!(project.head(), Head::Detached(_)));
    let graph = get_timeline_graph(&project);
    let node = graph.iter().find(|n| n.id == first).unwrap();
    assert!(node.is_head);
    assert_eq!((node.timeline.as_str(), node.lane), ("main", 0));
}

#[test]
fn files_are_read_by_their_paths() {
    let mut project = project_with(vec![
        file("a.txt", "top"),
        dir("d", vec![dir("e", vec![file("f.txt", "deep")]), file("g", "")]),
    ]);
    let id = commit_snapshot_at(&mut project, "m", None, T0).unwrap();
    let missing = Err(VersioningError::NotFound);
    assert_eq!(get_file_at_version(&project, &id, "a.txt"), Ok(b"top".to_vec()));
    assert_eq!(get_file_at_version(&project, &id, "d/e/f.txt"), Ok(b"deep".to_vec()));
    assert_eq!(get_file_at_version(&project, &id, "d/g"), Ok(Vec::new()));
    assert_eq!(get_file_at_version(&project, &id, "d"), missing);
    assert_eq!(get_file_at_version(&project, &id, "d/e"), missing);
    assert_eq!(get_file_at_version(&project, &id, "d/"), missing);
    assert_eq!(get_file_at_version(&project, &id, "d//g"), missing);
    assert_eq!(get_file_at_version(&project, &id, "a.txt/x"), missing);
    assert_eq!(get_file_at_version(&project, &id, "nope"), missing);
    assert_eq!(get_file_at_version(&project, &id, ""), missing);
    assert_eq!(get_file_at_version(&project, "nope", "a.txt"), missing);
}

#[test]
fn restoring_commits_the_old_content_again() {
    let mut project = project_with(vec![file("a", "1")]);
    let first = commit_snapshot_at(&mut project, "first", None, T0).unwrap();
    project.set_working_dir(vec![file("a", "2")]).unwrap();
    commit_snapshot_at(&mut project, "second", None, T0 + 1).unwrap();
    let restored = restore_version(&mut project, &first).unwrap();
    let versions = list_versions(&project);
    assert_eq!(versions.len(), 3);
    assert_eq!(versions[0].id, restored);
    assert_eq!(versions[0].message, format!("Restored from {}", &first[..8]));
    assert_eq!(content(project.working_dir(), "a"), b"1");
    assert_eq!(restore_version(&mut project, "0"), Err(VersioningError::NotFound));
}

#[test]
fn labels_are_set_and_taken_out() {
    let mut project = init_project_repo();
    save_timeline_label(&mut project, "a", "First");
    save_timeline_label(&mut project, "b", "Second");
    save_timeline_label(&mut project, "a", "Again");
    let table: Vec<(&str, &str)> =
        project.labels().iter().map(|l| (l.slug.as_str(), l.text.as_str())).collect();
    assert_eq!(table, vec![("a", "Again"), ("b", "Second")]);
    remove_timeline_label(&mut project, "a");
    remove_timeline_label(&mut project, "zz");
    assert_eq!(project.labels().len(), 1);
    assert_eq!(project.labels()[0].slug, "b");
}

#[test]
fn the_label_table_is_written_and_read() {
    let label = |slug: &str, text: &str| Label { slug: slug.to_string(), text: text.to_string() };
    assert_eq!(format_labels(&Vec::new()), "");
    let text = format_labels(&vec![label("fork-1", "New direction"), label("x", "a=b")]);
    assert_eq!(text, "fork-1=New direction\nx=a=b");
    let read = parse_labels("fork-1=New direction\r\nnot a label\nx=a=b\nfork-1=Later\n\n=empty");
    let table: Vec<(&str, &str)> = read.iter().map(|l| (l.slug.as_str(), l.text.as_str())).collect();
    assert_eq!(table, vec![("fork-1", "Later"), ("x", "a=b"), ("", "empty")]);
    assert!(parse_labels("").is_empty());
}

#[test]
fn the_head_is_written_and_read() {
    let id = ObjectId::parse("0123456789abcdef0123456789abcdef01234567").unwrap();
    assert_eq!(head_text(&Head::Attached("main".to_string())), "ref: refs/heads/main\n");
    assert_eq!(head_text(&Head::Attached("idea".to_string())), "ref: refs/heads/timeline/idea\n");
    assert_eq!(head_text(&Head::Detached(id)), "0123456789abcdef0123456789abcdef01234567\n");
    assert!(matches!(parse_head_text("ref: refs/heads/main\n"), Some(Head::Attached(s)) if s == "main"));
    assert!(matches!(
        parse_head_text("ref: refs/heads/timeline/idea\n"),
        Some(Head::Attached(s)) if s == "idea"
    ));
    assert!(matches!(
        parse_head_text(" 0123456789abcdef0123456789abcdef01234567\n"),
        Some(Head::Detached(found)) if found == id
    ));
    assert!(parse_head_text("ref: refs/tags/v1\n").is_none());
    assert!(parse_head_text("").is_none());
    assert_eq!(parse_marker_text("0123456789abcdef0123456789abcdef01234567\n"), Some(id));
    assert_eq!(parse_marker_text("junk"), None);
}

#[test]
fn a_project_is_put_together_from_its_parts() {
    let mut project = project_with(vec![file("a", "1")]);
    let first = commit_snapshot_at(&mut project, "first", None, T0).unwrap();
    create_timeline(&mut project, &first, "B side").unwrap();
    create_timeline(&mut project, &first, "A side").unwrap();
    let tip = project.main_tip().unwrap();

    let rebuild = |timelines: Vec<Timeline>, head: Head, prev_tip: Option<ObjectId>| {
        let mut store = ObjectStore::new();
        let blob = store.put_blob(b"1".to_vec()).unwrap();
        let tree =
            store.put_tree(vec![TreeEntry { name: b"a".to_vec(), is_dir: false, id: blob }]).unwrap();
        assert_eq!(store.put_commit(tree, None, "first".to_string(), T0), Ok(tip));
        Project::restore(store, vec![file("a", "1")], Some(tip), timelines, Vec::new(), head, prev_tip, None)
    };
    let timeline = |slug: &str| Timeline { slug: slug.to_string(), tip };
    let main = || Head::Attached("main".to_string());

    let mut restored =
        rebuild(vec![timeline("a-side"), timeline("b-side")], Head::Attached("b-side".to_string()), None)
            .unwrap();
    assert_eq!(list_timelines(&restored).len(), 3);
    assert!(list_timelines(&restored)[2].is_active);
    assert_eq!(has_unsaved_changes(&mut restored), Ok(false));

    let refused = |r: Result<Project, VersioningError>| matches!(r, Err(VersioningError::ObjectStore));
    assert!(refused(rebuild(vec![timeline("b-side"), timeline("a-side")], main(), None)));
    assert!(refused(rebuild(vec![timeline("a"), timeline("a")], main(), None)));
    assert!(refused(rebuild(vec![timeline("main")], main(), None)));
    assert!(refused(rebuild(vec![], Head::Attached("gone".to_string()), None)));
    assert!(refused(rebuild(vec![], Head::Detached(ObjectId { hi: 0, lo: 0 }), None)));
    assert!(refused(rebuild(vec![], main(), Some(ObjectId { hi: 0, lo: 0 }))));
    assert!(rebuild(vec![], Head::Detached(tip), Some(tip)).is_ok());
}

#[test]
fn errors_speak() {
    assert_eq!(VersioningError::NotFound.message(), "No such snapshot, timeline or file");
    assert_ne!(VersioningError::ObjectStore.message(), VersioningError::InvalidOperation.message());
}

#[test]
fn a_commit_before_1970_with_accents_has_the_id_of_git() {
    let mut project = init_project_repo();
    let id = commit_snapshot_at(&mut project, "héllo ✓\n", None, -5).unwrap();
    assert_eq!(id, "2070c4512b9352fb5c2f333026ba7a261b3707e1");
}

#[test]
fn versions_tell_ids_messages_and_times_by_position() {
    let mut project = init_project_repo();
    let messages = [" first ", "second\n", "third"];
    let mut ids = Vec::new();
    for (n, message) in messages.iter().enumerate() {
        project.set_working_dir(vec![file("n", &n.to_string())]).unwrap();
        ids.push(commit_snapshot_at(&mut project, message, None, T0 + 10 * n as i64).unwrap());
    }
    let versions = list_versions(&project);
    assert_eq!(versions.len(), 3);
    for i in 0..3 {
        assert_eq!(versions[i].id, ids[2 - i]);
        assert_eq!(versions[i].message, messages[2 - i].trim());
        assert_eq!(versions[i].timestamp, T0 + 10 * (2 - i) as i64);
    }
    assert!(versions.windows(2).all(|w| w[0].timestamp >= w[1].timestamp));
}

#[test]
fn a_fork_leaves_the_other_entries_as_they_were() {
    let mut project = project_with(vec![file("a", "1")]);
    let first = commit_snapshot_at(&mut project, "first", None, T0).unwrap();
    create_timeline(&mut project, &first, "Zebra").unwrap();
    switch_timeline(&mut project, "main").unwrap();
    project.set_working_dir(vec![file("a", "2")]).unwrap();
    commit_snapshot_at(&mut project, "second", None, T0 + 1).unwrap();
    project.set_working_dir(vec![file("a", "3")]).unwrap();
    commit_snapshot_at(&mut project, "third", None, T0 + 2).unwrap();
    let before = list_timelines(&project);

    let second = list_versions(&project)[1].id.clone();
    navigate_to_snapshot(&mut project, &second).unwrap();
    assert_eq!(list_timelines(&project).len(), before.len());
    project.set_working_dir(vec![file("a", "4")]).unwrap();
    commit_snapshot_at(&mut project, "fourth", Some(" Alt "), 0).unwrap();

    let after = list_timelines(&project);
    assert_eq!(after.len(), before.len() + 1);
    let new: Vec<_> =
        after.iter().filter(|t| before.iter().all(|b| b.name != t.name)).collect();
    assert_eq!(new.len(), 1);
    assert_eq!(new[0].name, "fork-000000");
    assert_eq!(new[0].label, "Alt");
    assert_eq!(new[0].snapshot_count, 3);
    assert!(new[0].is_active);
    assert_eq!(after.iter().filter(|t| t.is_active).count(), 1);
    for b in &before {
        let kept = after.iter().find(|t| t.name == b.name).unwrap();
        assert_eq!(kept.label, b.label);
        assert_eq!(kept.snapshot_count, b.snapshot_count);
    }
    let names: Vec<&str> = after.iter().map(|t| t.name.as_str()).collect();
    assert_eq!(names, vec!["main", "fork-000000", "zebra"]);
}

#[test]
fn a_commit_off_every_timeline_is_held_by_the_position_alone() {
    let mut project = project_with(vec![file("a", "1")]);
    let c1 = commit_snapshot_at(&mut project, "c1", None, T0).unwrap();
    project.set_working_dir(vec![file("a", "2")]).unwrap();
    let c2 = commit_snapshot_at(&mut project, "c2", None, T0 + 1).unwrap();
    project.set_working_dir(vec![file("a", "3")]).unwrap();
    let c3 = commit_snapshot_at(&mut project, "c3", None, T0 + 2).unwrap();
    create_timeline(&mut project, &c1, "Side").unwrap();
    project.set_working_dir(vec![file("a", "s")]).unwrap();
    let s1 = commit_snapshot_at(&mut project, "s1", None, T0 + 3).unwrap();

    navigate_to_snapshot(&mut project, &c2).unwrap();
    assert!(!is_rewound(&project));
    assert!(matches!(project.head(), Head::Detached(_)));

    project.set_working_dir(vec![file("a", "d")]).unwrap();
    let d = commit_snapshot_at(&mut project, "d", None, T0 + 4).unwrap();
    assert!(matches!(project.head(), Head::Detached(id) if id.to_hex() == d));
    assert_eq!(project.main_tip().unwrap().to_hex(), c3);
    assert_eq!(project.timelines()[0].tip.to_hex(), s1);
    let held: Vec<String> = list_versions(&project).into_iter().map(|v| v.id).collect();
    assert_eq!(held, vec![d.clone(), c2.clone(), c1.clone()]);
    let in_graph = |project: &Project, id: &str| get_timeline_graph(project).iter().any(|n| n.id == id);
    assert!(!in_graph(&project, &d));

    navigate_to_snapshot(&mut project, &c1).unwrap();
    assert_eq!(project.prev_tip().unwrap().to_hex(), d);
    assert!(in_graph(&project, &d));

    project.set_working_dir(vec![file("a", "e")]).unwrap();
    let e = commit_snapshot_at(&mut project, "e", None, T0 + 5).unwrap();
    assert!(!is_rewound(&project));
    assert!(in_graph(&project, &e));
    assert!(!in_graph(&project, &d));
    for id in [&c1, &c2, &c3, &s1] {
        assert!(in_graph(&project, id));
    }
}
