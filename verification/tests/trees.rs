use homage::engine::Step;
use homage::memory::{Item, MemoryTree};
use homage::symlink::{Slot, Symlink};

fn b(text: &str) -> Vec<u8> {
    text.as_bytes().to_vec()
}

fn file(content: &str) -> Item {
    Item::File(b(content))
}

fn link(stored: &str) -> Item {
    Item::Link(b(stored))
}

fn tree(items: Vec<(&str, Item)>) -> MemoryTree {
    let mut fs = MemoryTree::new();
    for (path, item) in items {
        fs.put(b(path), item);
    }
    fs
}

fn install(source: &str, target: &str, backup: bool) -> Step {
    Step::Install { source: b(source), target: b(target), backup }
}

#[test]
fn a_new_tree_is_empty() {
    let fs = MemoryTree::new();
    assert_eq!(fs.get(&b("/")), None);
    assert_eq!(fs.slot(&b("/home")), Slot::Absent);
    assert!(fs.files_under(&b("/")).is_empty());
    assert!(fs.same_as(&MemoryTree::new()));
}

#[test]
fn put_replaces_and_remove_takes_away() {
    let mut fs = MemoryTree::new();
    fs.put(b("/a"), file("one"));
    fs.put(b("/b"), Item::Directory);
    fs.put(b("/a"), file("two"));
    assert_eq!(fs.get(&b("/a")), Some(file("two")));
    assert_eq!(fs.get(&b("/b")), Some(Item::Directory));
    assert_eq!(fs.remove(&b("/a")), Some(file("two")));
    assert_eq!(fs.remove(&b("/a")), None);
    assert_eq!(fs.get(&b("/a")), None);
    assert_eq!(fs.get(&b("/b")), Some(Item::Directory));
}

#[test]
fn slot_tells_what_is_there() {
    let fs = tree(vec![
        ("/f", file("x")),
        ("/d", Item::Directory),
        ("/live", link("/f")),
        ("/dead", link("/gone")),
    ]);
    assert_eq!(fs.slot(&b("/f")), Slot::File);
    assert_eq!(fs.slot(&b("/d")), Slot::Directory);
    assert_eq!(fs.slot(&b("/live")), Slot::Link { stored: b("/f"), resolves: true });
    assert_eq!(fs.slot(&b("/dead")), Slot::Link { stored: b("/gone"), resolves: false });
    assert_eq!(fs.slot(&b("/nothing")), Slot::Absent);
}

#[test]
fn entry_looks_at_the_target_and_its_backup() {
    let fs = tree(vec![("/t/a", file("x")), ("/t/a.bak", file("old")), ("/t/b", link("/s/b"))]);
    let a = fs.entry(Symlink::new(b("/s/a"), b("/t/a")));
    assert_eq!(a.slot, Slot::File);
    assert_eq!(a.backup, Slot::File);
    let bb = fs.entry(Symlink::new(b("/s/b"), b("/t/b")));
    assert_eq!(bb.slot, Slot::Link { stored: b("/s/b"), resolves: false });
    assert_eq!(bb.backup, Slot::Absent);
    assert_eq!(bb.link, Symlink::new(b("/s/b"), b("/t/b")));
    let found = fs.found(b("/t/b"));
    assert_eq!(found.path, b("/t/b"));
    assert_eq!(found.slot, bb.slot);
}

#[test]
fn walks_list_what_is_under_the_root() {
    let fs = tree(vec![
        ("/src", Item::Directory),
        ("/src/a", file("a")),
        ("/src/d", Item::Directory),
        ("/src/d/b", file("b")),
        ("/src/l", link("/src/a")),
        ("/srcx/c", file("c")),
        ("/t/l", link("/src/a")),
    ]);
    let mut files = fs.files_under(&b("/src"));
    files.sort();
    assert_eq!(files, vec![b("/src/a"), b("/src/d/b")]);
    let mut links = fs.links_under(&b("/t"));
    links.sort();
    assert_eq!(links, vec![b("/t/l")]);
    assert_eq!(fs.links_under(&b("/src")), vec![b("/src/l")]);
    assert!(fs.files_under(&b("/t")).is_empty());
}

#[test]
fn duplicate_is_the_same_and_apart() {
    let fs = tree(vec![("/a", file("x")), ("/d", Item::Directory), ("/l", link("/a"))]);
    let mut copy = fs.duplicate();
    assert!(copy.same_as(&fs));
    assert!(fs.same_as(&copy));
    copy.put(b("/a"), file("y"));
    assert!(!copy.same_as(&fs));
    assert_eq!(fs.get(&b("/a")), Some(file("x")));
}

#[test]
fn same_as_sees_every_difference() {
    let fs = tree(vec![("/a", file("x")), ("/l", link("/a"))]);
    assert!(fs.same_as(&tree(vec![("/l", link("/a")), ("/a", file("x"))])));
    assert!(!fs.same_as(&tree(vec![("/a", file("x"))])));
    assert!(!fs.same_as(&tree(vec![("/a", file("x")), ("/l", link("/a")), ("/z", Item::Directory)])));
    assert!(!fs.same_as(&tree(vec![("/a", file("x")), ("/l", link("/b"))])));
    assert!(!fs.same_as(&tree(vec![("/a", link("x")), ("/l", link("/a"))])));
    assert!(!fs.same_as(&tree(vec![("/a", file("x")), ("/m", link("/a"))])));
}

#[test]
fn items_compare_and_copy() {
    for item in [file("x"), Item::Directory, link("/a")] {
        assert_eq!(item.duplicate(), item);
        assert!(item.same_as(&item.duplicate()));
    }
    assert!(!file("x").same_as(&file("y")));
    assert!(!file("x").same_as(&link("x")));
    assert!(!Item::Directory.same_as(&file("")));
}

#[test]
fn an_install_step_makes_the_directories_and_the_link() {
    let mut fs = tree(vec![("/home/u", Item::Directory)]);
    fs.perform(&install("/src/config/nvim/init.vim", "/home/u/config/nvim/init.vim", false));
    assert_eq!(fs.get(&b("/home")), Some(Item::Directory));
    assert_eq!(fs.get(&b("/home/u")), Some(Item::Directory));
    assert_eq!(fs.get(&b("/home/u/config")), Some(Item::Directory));
    assert_eq!(fs.get(&b("/home/u/config/nvim")), Some(Item::Directory));
    assert_eq!(fs.get(&b("/home/u/config/nvim/init.vim")), Some(link("/src/config/nvim/init.vim")));
}

#[test]
fn an_install_step_replaces_a_link() {
    let mut fs = tree(vec![("/t", Item::Directory), ("/t/a", link("/old/a"))]);
    fs.perform(&install("/s/a", "/t/a", false));
    assert_eq!(fs.get(&b("/t/a")), Some(link("/s/a")));
}

#[test]
fn an_install_step_with_backup_moves_the_file_first() {
    let mut fs = tree(vec![("/t", Item::Directory), ("/t/a", file("mine"))]);
    fs.perform(&install("/s/a", "/t/a", true));
    assert_eq!(fs.get(&b("/t/a")), Some(link("/s/a")));
    assert_eq!(fs.get(&b("/t/a.bak")), Some(file("mine")));
}

#[test]
fn an_install_step_stops_where_a_part_fails() {
    let blocked = tree(vec![("/t", file("not a directory"))]);
    let mut fs = blocked.duplicate();
    fs.perform(&install("/s/a", "/t/a", false));
    assert!(fs.same_as(&blocked));

    let mut fs = tree(vec![("/t", Item::Directory)]);
    fs.perform(&install("/s/a", "/t/d/a", true));
    assert_eq!(fs.get(&b("/t/d")), Some(Item::Directory));
    assert_eq!(fs.get(&b("/t/d/a")), None);
    assert_eq!(fs.get(&b("/t/d/a.bak")), None);

    let mut fs = tree(vec![("/t", Item::Directory), ("/t/a", Item::Directory)]);
    fs.perform(&install("/s/a", "/t/a", false));
    assert_eq!(fs.get(&b("/t/a")), Some(Item::Directory));

    let mut fs =
        tree(vec![("/t", Item::Directory), ("/t/a", file("x")), ("/t/a.bak", Item::Directory)]);
    fs.perform(&install("/s/a", "/t/a", true));
    assert_eq!(fs.get(&b("/t/a")), Some(file("x")));
    assert_eq!(fs.get(&b("/t/a.bak")), Some(Item::Directory));
}

#[test]
fn an_uninstall_step_removes_and_restores() {
    let mut fs = tree(vec![("/t/a", link("/s/a")), ("/t/a.bak", file("mine"))]);
    fs.perform(&Step::Uninstall { target: b("/t/a"), restore: true });
    assert_eq!(fs.get(&b("/t/a")), Some(file("mine")));
    assert_eq!(fs.get(&b("/t/a.bak")), None);

    let mut fs = tree(vec![("/t/a", link("/s/a")), ("/t/a.bak", file("mine"))]);
    fs.perform(&Step::Uninstall { target: b("/t/a"), restore: false });
    assert_eq!(fs.get(&b("/t/a")), None);
    assert_eq!(fs.get(&b("/t/a.bak")), Some(file("mine")));

    let mut fs = tree(vec![("/t/a", link("/s/a"))]);
    fs.perform(&Step::Uninstall { target: b("/t/a"), restore: true });
    assert_eq!(fs.get(&b("/t/a")), None);
}

#[test]
fn an_uninstall_step_fails_where_nothing_is() {
    let before = tree(vec![("/t/a.bak", file("mine")), ("/t/d", Item::Directory)]);
    let mut fs = before.duplicate();
    fs.perform(&Step::Uninstall { target: b("/t/a"), restore: true });
    assert!(fs.same_as(&before));
    fs.perform(&Step::Uninstall { target: b("/t/d"), restore: false });
    assert!(fs.same_as(&before));
}

#[test]
fn a_remove_step_takes_a_link_away() {
    let mut fs = tree(vec![("/t/a", link("/s/gone")), ("/t/d", Item::Directory)]);
    fs.perform(&Step::Remove { path: b("/t/a") });
    assert_eq!(fs.get(&b("/t/a")), None);
    fs.perform(&Step::Remove { path: b("/t/d") });
    assert_eq!(fs.get(&b("/t/d")), Some(Item::Directory));
    fs.perform(&Step::Remove { path: b("/t/nothing") });
    assert!(fs.same_as(&tree(vec![("/t/d", Item::Directory)])));
}

#[test]
fn perform_all_goes_on_after_a_failure() {
    let mut fs = tree(vec![("/t", Item::Directory), ("/t/x", file("in the way"))]);
    fs.perform_all(&vec![
        install("/s/a", "/t/a", false),
        install("/s/x/b", "/t/x/b", false),
        install("/s/c", "/t/c", false),
    ]);
    assert_eq!(fs.get(&b("/t/a")), Some(link("/s/a")));
    assert_eq!(fs.get(&b("/t/x")), Some(file("in the way")));
    assert_eq!(fs.get(&b("/t/x/b")), None);
    assert_eq!(fs.get(&b("/t/c")), Some(link("/s/c")));
    let before = fs.duplicate();
    fs.perform_all(&Vec::new());
    assert!(fs.same_as(&before));
}

#[test]
fn an_install_step_never_moves_a_file_onto_another() {
    let before = tree(vec![
        ("/t", Item::Directory),
        ("/t/a", file("mine")),
        ("/t/a.bak", file("older")),
    ]);
    let mut fs = before.duplicate();
    fs.perform(&install("/s/a", "/t/a", true));
    assert!(fs.same_as(&before));
    assert_eq!(fs.get(&b("/t/a")), Some(file("mine")));
    assert_eq!(fs.get(&b("/t/a.bak")), Some(file("older")));

    let linked = tree(vec![("/t", Item::Directory), ("/t/a", file("mine")), ("/t/a.bak", link("/x"))]);
    let mut fs = linked.duplicate();
    fs.perform(&install("/s/a", "/t/a", true));
    assert!(fs.same_as(&linked));
}

#[test]
fn an_install_step_never_puts_a_link_in_place_of_a_file() {
    let before = tree(vec![("/t", Item::Directory), ("/t/a", file("mine"))]);
    let mut fs = before.duplicate();
    fs.perform(&install("/s/a", "/t/a", false));
    assert!(fs.same_as(&before));
}

#[test]
fn an_install_step_with_backup_moves_nothing_but_a_file() {
    let before = tree(vec![("/t", Item::Directory), ("/t/a", link("/old/a"))]);
    let mut fs = before.duplicate();
    fs.perform(&install("/s/a", "/t/a", true));
    assert!(fs.same_as(&before));
}

#[test]
fn an_uninstall_step_removes_nothing_but_a_link() {
    let before = tree(vec![("/t/a", file("mine")), ("/t/a.bak", file("older"))]);
    let mut fs = before.duplicate();
    fs.perform(&Step::Uninstall { target: b("/t/a"), restore: true });
    assert!(fs.same_as(&before));
    fs.perform(&Step::Remove { path: b("/t/a") });
    assert!(fs.same_as(&before));
}

#[test]
fn an_uninstall_step_restores_nothing_but_a_file() {
    let mut fs = tree(vec![("/t/a", link("/s/a")), ("/t/a.bak", link("/s/a.bak"))]);
    fs.perform(&Step::Uninstall { target: b("/t/a"), restore: true });
    assert_eq!(fs.get(&b("/t/a")), None);
    assert_eq!(fs.get(&b("/t/a.bak")), Some(link("/s/a.bak")));
}

#[test]
fn a_second_uninstall_step_leaves_the_restored_file() {
    let mut fs = tree(vec![("/t/a", link("/s/a")), ("/t/a.bak", file("mine"))]);
    let step = Step::Uninstall { target: b("/t/a"), restore: true };
    fs.perform_all(&vec![step.duplicate(), step]);
    assert_eq!(fs.get(&b("/t/a")), Some(file("mine")));
    assert_eq!(fs.get(&b("/t/a.bak")), None);
}

#[test]
fn a_step_says_whether_it_succeeded() {
    let mut fs = tree(vec![("/t", Item::Directory), ("/t/a", file("mine"))]);
    assert!(!fs.perform(&install("/s/a", "/t/a", false)));
    assert!(fs.perform(&install("/s/a", "/t/a", true)));
    assert!(!fs.perform(&install("/s/a", "/t/a", true)));
    assert!(fs.perform(&install("/s/a", "/t/a", false)));
    assert!(fs.perform(&install("/s/b", "/t/d/b", false)));
    assert!(!fs.perform(&install("/s/c", "/t/a/c", false)));
    assert!(!fs.perform(&Step::Remove { path: b("/t/a.bak") }));
    assert!(!fs.perform(&Step::Remove { path: b("/t/nothing") }));
    assert!(fs.perform(&Step::Remove { path: b("/t/d/b") }));
    assert!(fs.perform(&Step::Uninstall { target: b("/t/a"), restore: true }));
    assert!(!fs.perform(&Step::Uninstall { target: b("/t/a"), restore: true }));
    assert_eq!(fs.get(&b("/t/a")), Some(file("mine")));
    fs.put(b("/t/l"), link("/s/l"));
    assert!(!fs.perform(&Step::Uninstall { target: b("/t/l"), restore: true }));
    assert_eq!(fs.get(&b("/t/l")), None);
    fs.put(b("/t/l"), link("/s/l"));
    assert!(fs.perform(&Step::Uninstall { target: b("/t/l"), restore: false }));
}

#[test]
fn a_batch_says_whether_every_step_succeeded() {
    let mut fs = tree(vec![("/t", Item::Directory), ("/t/x", file("in the way"))]);
    assert!(fs.perform_all(&Vec::new()));
    assert!(fs.perform_all(&vec![install("/s/a", "/t/a", false), install("/s/c", "/t/c", false)]));
    assert!(!fs.perform_all(&vec![
        install("/s/d", "/t/d", false),
        install("/s/x/b", "/t/x/b", false),
        install("/s/e", "/t/e", false),
    ]));
    assert_eq!(fs.get(&b("/t/d")), Some(link("/s/d")));
    assert_eq!(fs.get(&b("/t/e")), Some(link("/s/e")));
}
