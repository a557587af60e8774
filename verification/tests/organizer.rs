use file_organizer::config::ConfigNode;
use file_organizer::entry_collector::{direct_content, direct_subdirs, Entry, EntryCollector, EntryType};
use file_organizer::item::ItemCollector;
use file_organizer::path::{extension_of, parse_path, push_path, EntryPath};
use file_organizer::walker::{check_hidden_file, FileKind, ItemInfo, Totals, WalkDir, WalkStep};

fn comps(p: &EntryPath) -> Vec<&str> {
    p.components.iter().map(|c| c.as_str()).collect()
}

fn text(s: &str) -> ConfigNode {
    ConfigNode::Text(s.to_string())
}

fn texts(list: &[&str]) -> ConfigNode {
    ConfigNode::Array(list.iter().map(|s| text(s)).collect())
}

fn object(pairs: Vec<(&str, ConfigNode)>) -> ConfigNode {
    ConfigNode::Object(pairs.into_iter().map(|(k, v)| (k.to_string(), v)).collect())
}

/// The configuration of the README, with its keys in the order a JSON map
/// hands them out (sorted).
fn readme_config() -> ConfigNode {
    object(vec![
        ("Bilder", texts(&["svg", "jpg", "jpeg", "png", "gif", "webp"])),
        (
            "Dokumente",
            ConfigNode::Array(vec![
                object(vec![("Anschreiben", text("(?i)^anschreiben"))]),
                texts(&["pdf", "docx", "odt", "txt"]),
            ]),
        ),
        ("Musik", texts(&["mp3", "wav", "flac"])),
        (
            "Videos",
            ConfigNode::Array(vec![texts(&["mp4", "mkv"]), object(vec![("bar", texts(&["blub", "foo"]))])]),
        ),
    ])
}

fn entry_at(raw: &str) -> Entry {
    Entry { current_path: parse_path(raw), new_path: None }
}

fn routed(current: &str, new: &str) -> Entry {
    Entry { current_path: parse_path(current), new_path: Some(parse_path(new)) }
}

fn collector(config: ConfigNode) -> EntryCollector {
    EntryCollector::new(config, parse_path("/downloads"))
}

fn destination_of(config: ConfigNode, file: &str) -> Option<Vec<String>> {
    let c = collector(config);
    let entry = entry_at(file);
    assert!(c.lookup_can_finish(&entry));
    c.get_configured_path(&c.json_config, &entry, &String::new(), "/home/user").map(|p| p.components)
}

fn strings(list: &[&str]) -> Vec<String> {
    list.iter().map(|s| s.to_string()).collect()
}

fn resolved(e: &EntryType) -> Vec<String> {
    e.resolved_path().unwrap().components.clone()
}

#[test]
fn parse_rooted_path() {
    assert_eq!(comps(&parse_path("/home/u/a.txt")), vec!["/", "home", "u", "a.txt"]);
}

#[test]
fn parse_drops_empty_and_dot_pieces() {
    assert_eq!(comps(&parse_path("a//b/./c/")), vec!["a", "b", "c"]);
    assert_eq!(comps(&parse_path("/./x")), vec!["/", "x"]);
}

#[test]
fn parse_keeps_leading_dot_and_parent_pieces() {
    assert_eq!(comps(&parse_path("./a")), vec![".", "a"]);
    assert_eq!(comps(&parse_path(".")), vec!["."]);
    assert_eq!(comps(&parse_path("../x")), vec!["..", "x"]);
    assert_eq!(comps(&parse_path(".hidden")), vec![".hidden"]);
}

#[test]
fn parse_empty_and_root() {
    assert!(parse_path("").components.is_empty());
    assert_eq!(comps(&parse_path("/")), vec!["/"]);
    assert_eq!(comps(&parse_path("///")), vec!["/"]);
}

#[test]
fn parent_of_paths() {
    assert_eq!(comps(&parse_path("/a").parent().unwrap()), vec!["/"]);
    assert!(parse_path("/").parent().is_none());
    assert!(parse_path("a").parent().unwrap().is_empty());
    assert!(parse_path("").parent().is_none());
    assert_eq!(comps(&parse_path("a/b/c").parent().unwrap()), vec!["a", "b"]);
}

#[test]
fn prefix_and_count() {
    let p = parse_path("/x/y/z");
    assert_eq!(p.component_count(), 4);
    assert_eq!(comps(&p.prefix(2)), vec!["/", "x"]);
    assert!(p.starts_with(&parse_path("/x")));
    assert!(!p.starts_with(&parse_path("/y")));
    assert!(p.starts_with(&parse_path("")));
    assert!(!parse_path("x/y").starts_with(&parse_path("/x")));
    assert!(p.same_path(&parse_path("/x//y/z/")));
    assert!(!p.same_path(&parse_path("/x/y")));
}

#[test]
fn file_names() {
    assert_eq!(parse_path("/a/b.txt").file_name(), Some("b.txt".to_string()));
    assert_eq!(parse_path("/a/..").file_name(), None);
    assert_eq!(parse_path("/").file_name(), None);
    assert_eq!(parse_path(".").file_name(), None);
    assert_eq!(parse_path("a/b/.").file_name(), Some("b".to_string()));
}

#[test]
fn extensions() {
    assert_eq!(extension_of("a.tar.gz"), Some("gz".to_string()));
    assert_eq!(extension_of(".bashrc"), None);
    assert_eq!(extension_of("a."), Some(String::new()));
    assert_eq!(extension_of("noext"), None);
    assert_eq!(extension_of("..a"), Some("a".to_string()));
}

#[test]
fn pushing_paths() {
    assert_eq!(push_path("/home/u", "x/y"), "/home/u/x/y");
    assert_eq!(push_path("/home/u/", "x"), "/home/u/x");
    assert_eq!(push_path("/home/u", "/x"), "/x");
    assert_eq!(push_path("", "x"), "x");
}

#[test]
fn readme_cover_letter_goes_to_its_subfolder() {
    assert_eq!(
        destination_of(readme_config(), "/downloads/anschreiben_bewerbung.pdf"),
        Some(strings(&["/", "home", "user", "Dokumente", "Anschreiben", "anschreiben_bewerbung.pdf"]))
    );
}

#[test]
fn readme_picture_goes_to_bilder() {
    assert_eq!(
        destination_of(readme_config(), "/downloads/holiday.jpg"),
        Some(strings(&["/", "home", "user", "Bilder", "holiday.jpg"]))
    );
}

#[test]
fn unmatched_file_has_no_destination() {
    assert_eq!(destination_of(readme_config(), "/downloads/song.xyz"), None);
}

#[test]
fn other_pdf_goes_to_dokumente() {
    assert_eq!(
        destination_of(readme_config(), "/downloads/invoice.pdf"),
        Some(strings(&["/", "home", "user", "Dokumente", "invoice.pdf"]))
    );
}

#[test]
fn nested_folder_rule() {
    assert_eq!(
        destination_of(readme_config(), "/downloads/clip.foo"),
        Some(strings(&["/", "home", "user", "Videos", "bar", "clip.foo"]))
    );
}

#[test]
fn extensions_compare_in_upper_case() {
    let config = object(vec![("Docs", texts(&["pdf"]))]);
    assert_eq!(
        destination_of(config, "/d/REPORT.PDF"),
        Some(strings(&["/", "home", "user", "Docs", "REPORT.PDF"]))
    );
}

#[test]
fn list_items_match_extensions_only() {
    assert_eq!(destination_of(object(vec![("Bilder", texts(&["jpg"]))]), "/dl/myjpgnotes.txt"), None);
    assert_eq!(destination_of(object(vec![("Docs", texts(&["pdf"]))]), "/dl/pdf_notes.txt"), None);
}

#[test]
fn object_values_match_as_patterns_only() {
    assert_eq!(
        destination_of(object(vec![("Bilder", text("jpg"))]), "/dl/myjpgnotes.txt"),
        Some(strings(&["/", "home", "user", "Bilder", "myjpgnotes.txt"]))
    );
    assert_eq!(destination_of(object(vec![("Docs", text("pdf"))]), "/dl/REPORT.PDF"), None);
}

#[test]
fn list_item_is_never_compiled_as_pattern() {
    let c = collector(object(vec![("Code", texts(&["c++("]))]));
    assert!(c.lookup_can_finish(&entry_at("/d/main.c")));
    assert_eq!(c.try_configure_entries(vec![entry_at("/d/main.c")], "/home/u").unwrap().len(), 0);
}

#[test]
fn rule_as_regular_expression() {
    let config = object(vec![("Photos", text(r"^photo_\d+"))]);
    assert_eq!(
        destination_of(object(vec![("Photos", text(r"^photo_\d+"))]), "/d/photo_12.raw"),
        Some(strings(&["/", "home", "user", "Photos", "photo_12.raw"]))
    );
    assert_eq!(destination_of(config, "/d/my_photo_12.raw"), None);
}

#[test]
fn top_level_text_rule_routes_to_root() {
    assert_eq!(destination_of(text("txt"), "/d/a.txt"), Some(strings(&["/", "a.txt"])));
}

#[test]
fn other_values_route_nothing() {
    assert_eq!(destination_of(ConfigNode::Other, "/d/a.txt"), None);
    assert_eq!(destination_of(object(vec![("X", ConfigNode::Other)]), "/d/a.txt"), None);
}

#[test]
fn first_matching_rule_wins() {
    let config = object(vec![("A", text("txt")), ("B", text("txt"))]);
    assert_eq!(destination_of(config, "/d/a.txt"), Some(strings(&["/", "home", "user", "A", "a.txt"])));
}

#[test]
fn absolute_path_for_home() {
    let c = collector(ConfigNode::Other);
    assert_eq!(c.get_absolute_path("/home/u", "A/b.txt".to_string()), Some("/home/u/A/b.txt".to_string()));
    assert_eq!(c.get_absolute_path("/home/u", "/b.txt".to_string()), Some("/b.txt".to_string()));
}

#[test]
fn invalid_pattern_stops_configuring() {
    let c = collector(object(vec![("Code", text("(pdf"))]));
    assert!(!c.lookup_can_finish(&entry_at("/d/main.c")));
    assert!(c.try_configure_entries(vec![entry_at("/d/main.c")], "/home/u").is_none());
}

#[test]
fn entry_without_name_stops_configuring() {
    let c = collector(object(vec![("Docs", texts(&["pdf"]))]));
    assert!(!c.lookup_can_finish(&entry_at("/")));
    assert!(c.try_configure_entries(vec![entry_at("/d/a.pdf"), entry_at("/")], "/home/u").is_none());
}

#[test]
fn entry_without_name_is_fine_where_no_rule_is_tried() {
    let c = collector(object(vec![]));
    assert!(c.lookup_can_finish(&entry_at("/")));
    assert_eq!(c.try_configure_entries(vec![entry_at("/")], "/home/u").unwrap().len(), 0);
}

#[test]
fn dir_entries_are_made_absolute() {
    let c = collector(ConfigNode::Other);
    let listing = vec!["a.txt".to_string(), "/abs/b".to_string()];
    let entries = c.get_dir_entries("/work", &listing);
    assert_eq!(entries.len(), 2);
    assert_eq!(comps(&entries[0].current_path), vec!["/", "work", "a.txt"]);
    assert_eq!(comps(&entries[1].current_path), vec!["/", "abs", "b"]);
    assert!(entries[0].new_path.is_none());
}

#[test]
fn set_paths_routes_each_file() {
    let c = collector(readme_config());
    let files = vec![entry_at("/d/a.mp3"), entry_at("/d/a.xyz")];
    let out = c.set_configured_new_path(files, "/h");
    assert_eq!(out[0].new_path.as_ref().unwrap().components, strings(&["/", "h", "Musik", "a.mp3"]));
    assert!(out[1].new_path.is_none());
    assert_eq!(comps(&out[1].current_path), vec!["/", "d", "a.xyz"]);
}

#[test]
fn parents_come_first_and_once() {
    let c = collector(ConfigNode::Other);
    let entries = vec![
        routed("/d/x.pdf", "/h/A/x.pdf"),
        entry_at("/d/unrouted"),
        routed("/d/y.pdf", "/h/A/y.pdf"),
        routed("/d/z.jpg", "/h/B/z.jpg"),
    ];
    let out = c.add_parent_dirs(&entries);
    let got: Vec<(bool, Vec<String>)> = out.iter().map(|e| (e.is_dir_variant(), resolved(e))).collect();
    assert_eq!(
        got,
        vec![
            (true, strings(&["/"])),
            (true, strings(&["/", "h"])),
            (true, strings(&["/", "h", "A"])),
            (false, strings(&["/", "h", "A", "x.pdf"])),
            (false, strings(&["/", "h", "A", "y.pdf"])),
            (true, strings(&["/", "h", "B"])),
            (false, strings(&["/", "h", "B", "z.jpg"])),
        ]
    );
    match &out[3] {
        EntryType::File(e) => assert_eq!(comps(&e.current_path), vec!["/", "d", "x.pdf"]),
        EntryType::Dir(_) => panic!("expected a file"),
    }
}

#[test]
fn relative_destination_lists_no_empty_parent() {
    let c = collector(ConfigNode::Other);
    let out = c.add_parent_dirs(&vec![routed("x", "A/x")]);
    let got: Vec<Vec<String>> = out.iter().map(resolved).collect();
    assert_eq!(got, vec![strings(&["A"]), strings(&["A", "x"])]);
}

#[test]
fn duplicate_destination_listed_once() {
    let c = collector(ConfigNode::Other);
    let out = c.add_parent_dirs(&vec![routed("/d1/x", "/h/x"), routed("/d2/x", "/h/x")]);
    assert_eq!(out.len(), 3);
    match &out[2] {
        EntryType::File(e) => assert_eq!(comps(&e.current_path), vec!["/", "d1", "x"]),
        EntryType::Dir(_) => panic!("expected a file"),
    }
}

#[test]
fn configure_entries_builds_preview() {
    let c = collector(readme_config());
    let out = c.configure_entries(vec![entry_at("/d/song.mp3"), entry_at("/d/a.xyz")], "/h");
    let got: Vec<Vec<String>> = out.iter().map(resolved).collect();
    assert_eq!(got, vec![strings(&["/"]), strings(&["/", "h"]), strings(&["/", "h", "Musik"]), strings(&["/", "h", "Musik", "song.mp3"])]);
    let tried = c.try_configure_entries(vec![entry_at("/d/song.mp3"), entry_at("/d/a.xyz")], "/h").unwrap();
    assert_eq!(tried.iter().map(resolved).collect::<Vec<_>>(), got);
}

#[test]
fn direct_content_and_subdirs() {
    let c = collector(ConfigNode::Other);
    let out = c.add_parent_dirs(&vec![routed("/d/x", "/h/A/x"), routed("/d/y", "/h/y")]);
    let content = direct_content(&out, &parse_path("/h"));
    let got: Vec<Vec<String>> = content.iter().map(|e| resolved(e)).collect();
    assert_eq!(got, vec![strings(&["/", "h", "A"]), strings(&["/", "h", "y"])]);
    let dirs = direct_subdirs(&content);
    assert_eq!(dirs.len(), 1);
    assert_eq!(comps(dirs[0]), vec!["/", "h", "A"]);
    c.correct_order(&out);
}

#[test]
fn root_counts_as_content_of_empty_path() {
    let c = collector(ConfigNode::Other);
    let out = c.add_parent_dirs(&vec![routed("/d/x", "/x")]);
    assert_eq!(direct_content(&out, &parse_path("")).len(), 1);
}

#[test]
fn resolved_path_of_unrouted_file() {
    let e = EntryType::File(entry_at("/d/a"));
    assert!(e.resolved_path().is_none());
    assert!(!e.is_dir_variant());
    let d = EntryType::Dir(entry_at("/d"));
    assert_eq!(comps(d.resolved_path().unwrap()), vec!["/", "d"]);
    assert!(d.is_dir_variant());
}

#[test]
fn walker_tree_groups_children() {
    let c = collector(ConfigNode::Other);
    let entries = vec![routed("/d/x", "/h/A/x"), routed("/d/y", "/h/A/y"), entry_at("/d/z"), routed("/d/w", "/h/w")];
    let tree = c.create_walker_struct(&entries, &Some(parse_path("/h")));
    let find = |key: &[&str]| {
        tree.nodes
            .iter()
            .find(|(k, _)| k.components == strings(key))
            .map(|(_, v)| v.iter().map(|p| p.components.clone()).collect::<Vec<_>>())
    };
    assert_eq!(tree.nodes.len(), 3);
    assert_eq!(find(&["/"]), Some(vec![strings(&["/", "h"])]));
    assert_eq!(find(&["/", "h"]), Some(vec![strings(&["/", "h", "w"])]));
    assert_eq!(find(&["/", "h", "A"]), Some(vec![strings(&["/", "h", "A", "x"]), strings(&["/", "h", "A", "y"])]));
}

#[test]
fn walker_tree_without_home() {
    let c = collector(ConfigNode::Other);
    let tree = c.create_walker_struct(&vec![routed("a", "A/x")], &None);
    assert_eq!(tree.nodes.len(), 1);
    assert_eq!(tree.nodes[0].0.components, strings(&["A"]));
}

fn step_text(s: &WalkStep) -> String {
    match s {
        WalkStep::Branch { index, len } => format!("branch {}/{}", index, len),
        WalkStep::DirLine { name, path } => format!("dir {} {}", name, path),
        WalkStep::FileLine { name, path } => format!("file {} {}", name, path),
        WalkStep::Pop => "pop".to_string(),
    }
}

fn walker(depth: usize, items: Vec<ItemInfo>) -> WalkDir {
    WalkDir::new(
        depth,
        parse_path("."),
        Vec::new(),
        Totals { directories: 0, files: 0, size: 0 },
        vec!["/t/d1".to_string(), "/t/f1".to_string()],
        items,
    )
}

fn dir_and_file() -> Vec<ItemInfo> {
    vec![
        ItemInfo { file_type: Some(FileKind::Dir), size: Some(10) },
        ItemInfo { file_type: Some(FileKind::File), size: Some(5) },
    ]
}

#[test]
fn walk_descends_to_depth_limit() {
    let mut w = walker(1, dir_and_file());
    w.walk();
    let got: Vec<String> = w.output.iter().map(step_text).collect();
    assert_eq!(
        got,
        vec![
            "branch 0/2", "dir d1 /t/d1", "branch 0/2", "dir d1 /t/d1", "pop", "branch 1/2", "file f1 /t/f1", "pop", "pop",
            "branch 1/2", "file f1 /t/f1", "pop",
        ]
    );
    assert_eq!(w.total.directories, 2);
    assert_eq!(w.total.files, 2);
    assert_eq!(w.total.size, 30);
    assert_eq!(w.depth, 1);
    let branches = w.output.iter().filter(|s| matches!(s, WalkStep::Branch { .. })).count();
    let pops = w.output.iter().filter(|s| matches!(s, WalkStep::Pop)).count();
    assert_eq!(branches, pops);
}

#[test]
fn walk_below_limit_does_nothing() {
    let mut w = walker(3, dir_and_file());
    w.walk();
    assert!(w.output.is_empty());
    assert_eq!(w.total.size, 0);
}

#[test]
fn try_walk_refuses_mismatched_answers() {
    let mut w = walker(1, vec![]);
    assert!(!w.try_walk());
    assert!(w.output.is_empty());
}

#[test]
fn try_walk_refuses_overflowing_size() {
    let mut w = walker(1, dir_and_file());
    w.total.size = u64::MAX - 3;
    assert!(!w.try_walk());
    assert_eq!(w.total.size, u64::MAX - 3);
}

#[test]
fn try_walk_refuses_nameless_path() {
    let mut w = WalkDir::new(
        1,
        parse_path("."),
        Vec::new(),
        Totals { directories: 0, files: 0, size: 0 },
        vec!["/".to_string()],
        vec![ItemInfo { file_type: None, size: None }],
    );
    assert!(!w.try_walk());
}

#[test]
fn try_walk_walks_when_possible() {
    let mut w = walker(2, dir_and_file());
    assert!(w.try_walk());
    assert_eq!(w.total.directories, 1);
    assert_eq!(w.total.files, 1);
    assert_eq!(w.total.size, 15);
}

#[test]
fn item_collector_takes_name() {
    let item = ItemCollector::new(&"/a/b/c.txt".to_string(), &2, Some(FileKind::File), Some(7));
    assert_eq!(item.name, "c.txt");
    assert_eq!(item.path, "/a/b/c.txt");
    assert_eq!(item.depth, 2);
    assert_eq!(item.size, Some(7));
}

#[test]
fn item_without_metadata_counts_as_file() {
    let mut w = walker(2, vec![ItemInfo { file_type: None, size: None }, ItemInfo { file_type: Some(FileKind::Other), size: None }]);
    w.walk();
    assert_eq!(w.total.files, 2);
    assert_eq!(w.total.directories, 0);
}

#[test]
fn hidden_files() {
    assert!(check_hidden_file(".git"));
    assert!(!check_hidden_file("a.txt"));
    assert!(!check_hidden_file(""));
}

#[test]
fn get_item_shows_file_at_any_depth() {
    let mut w = WalkDir::new(7, parse_path("."), Vec::new(), Totals { directories: 0, files: 3, size: 1 }, vec![], vec![]);
    let item = ItemCollector::new(&"/x/notes.txt".to_string(), &7, Some(FileKind::File), Some(4));
    item.get_item(&mut w);
    let got: Vec<String> = w.output.iter().map(step_text).collect();
    assert_eq!(got, vec!["file notes.txt /x/notes.txt"]);
    assert_eq!(w.total.files, 4);
    assert_eq!(w.total.directories, 0);
    assert_eq!(w.total.size, 5);
    assert_eq!(w.depth, 7);
}

#[test]
fn get_item_shows_folder_beyond_limit_without_walking() {
    let mut w = WalkDir::new(2, parse_path("."), Vec::new(), Totals { directories: 0, files: 0, size: 0 }, vec!["/".to_string()], vec![]);
    let item = ItemCollector::new(&"/x/sub".to_string(), &2, Some(FileKind::Dir), None);
    item.get_item(&mut w);
    let got: Vec<String> = w.output.iter().map(step_text).collect();
    assert_eq!(got, vec!["dir sub /x/sub"]);
    assert_eq!(w.total.directories, 1);
    assert_eq!(w.total.files, 0);
    assert_eq!(w.depth, 2);
}

#[test]
fn get_item_walks_into_folder_within_limit() {
    let mut w = walker(1, dir_and_file());
    let item = ItemCollector::new(&"/x/sub".to_string(), &1, Some(FileKind::Dir), Some(1));
    item.get_item(&mut w);
    let got: Vec<String> = w.output.iter().map(step_text).collect();
    assert_eq!(
        got,
        vec!["dir sub /x/sub", "branch 0/2", "dir d1 /t/d1", "pop", "branch 1/2", "file f1 /t/f1", "pop"]
    );
    assert_eq!(w.total.directories, 2);
    assert_eq!(w.total.files, 1);
    assert_eq!(w.total.size, 16);
    assert_eq!(w.depth, 1);
}

#[test]
fn try_walk_beyond_limit_needs_nothing() {
    let mut w = walker(3, vec![]);
    assert!(w.try_walk());
    assert!(w.output.is_empty());
}

#[test]
fn walk_does_not_depend_on_path() {
    let mut w1 = walker(1, dir_and_file());
    let mut w2 = walker(1, dir_and_file());
    w2.path = parse_path("/somewhere/else");
    w1.walk();
    w2.walk();
    let s1: Vec<String> = w1.output.iter().map(step_text).collect();
    let s2: Vec<String> = w2.output.iter().map(step_text).collect();
    assert_eq!(s1, s2);
    assert_eq!((w1.total.directories, w1.total.files, w1.total.size), (w2.total.directories, w2.total.files, w2.total.size));
}
