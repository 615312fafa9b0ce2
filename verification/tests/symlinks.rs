use homage::memory::{Item, MemoryTree};
use homage::symlink::{mirror_all, LinkState, Slot, Symlink};

fn b(text: &str) -> Vec<u8> {
    text.as_bytes().to_vec()
}

fn link_to(stored: &str, resolves: bool) -> Slot {
    Slot::Link { stored: b(stored), resolves }
}

fn create_file(fs: &mut MemoryTree, dir: &str, name: &str, content: &[u8]) -> Vec<u8> {
    let path = homage::path::join(&b(dir), &b(name));
    fs.put(path.clone(), Item::File(content.to_vec()));
    path
}

fn base() -> MemoryTree {
    let mut fs = MemoryTree::new();
    fs.put(b("/tmp"), Item::Directory);
    fs.put(b("/tmp/base"), Item::Directory);
    fs
}

#[test]
fn is_installed_false_for_regular_file() {
    let mut fs = base();

    let source = create_file(&mut fs, "/tmp/base", "source.txt", b"src");
    let target = create_file(&mut fs, "/tmp/base", "target.txt", b"tgt");

    let link = Symlink::new(source, target);

    assert!(!link.is_installed(&fs.slot(&link.target)));
}

#[test]
fn install_and_uninstall_symlink() {
    let mut fs = base();
    let source = create_file(&mut fs, "/tmp/base", "source.txt", b"src");

    let target_dir = homage::path::join(&b("/tmp/base"), &b("target"));
    let target = homage::path::join(&target_dir, &b("source.txt"));

    let link = Symlink::new(source.clone(), target.clone());
    assert!(!link.is_installed(&fs.slot(&target)));

    fs.perform(&link.install());

    assert!(matches!(fs.slot(&target), Slot::Link { .. }));
    assert!(link.is_installed(&fs.slot(&target)));

    fs.perform(&link.uninstall());

    assert!(!link.target_exists(&fs.slot(&target)));
    assert_eq!(fs.slot(&target), Slot::Absent);
}

#[test]
fn exists_true_for_existing_file() {
    let mut fs = base();

    let source = create_file(&mut fs, "/tmp/base", "source.txt", b"src");
    let target = create_file(&mut fs, "/tmp/base", "target.txt", b"tgt");

    let link = Symlink::new(source, target.clone());

    assert!(link.target_exists(&fs.slot(&target)));
}

#[test]
fn is_installed_true_after_install() {
    let mut fs = base();

    let source = create_file(&mut fs, "/tmp/base", "source.txt", b"src");
    let target = homage::path::join(&b("/tmp/base"), &b("link.txt"));

    let link = Symlink::new(source.clone(), target.clone());
    fs.perform(&link.install());

    assert!(link.is_installed(&fs.slot(&target)));
}

#[test]
fn new_keeps_both_paths() {
    let link = Symlink::new(b("/s/a"), b("/t/a"));
    assert_eq!(link.source, b("/s/a"));
    assert_eq!(link.target, b("/t/a"));
    assert_eq!(link.duplicate(), link);
}

#[test]
fn state_of_each_kind_of_slot() {
    let link = Symlink::new(b("/s/a"), b("/t/a"));
    assert_eq!(link.state(&Slot::Absent), LinkState::Unmanaged);
    assert_eq!(link.state(&Slot::Unreadable), LinkState::Unmanaged);
    assert_eq!(link.state(&Slot::File), LinkState::Conflict);
    assert_eq!(link.state(&Slot::Directory), LinkState::Conflict);
    assert_eq!(link.state(&Slot::Other), LinkState::Conflict);
    assert_eq!(link.state(&link_to("/s/a", true)), LinkState::Installed);
    assert_eq!(link.state(&link_to("/s/a", false)), LinkState::Installed);
    assert_eq!(link.state(&link_to("/s/b", true)), LinkState::Foreign);
    assert_eq!(link.state(&link_to("/other/a", false)), LinkState::Foreign);
}

#[test]
fn installed_compares_the_stored_path_byte_for_byte() {
    let link = Symlink::new(b("/s/a"), b("/t/a"));
    assert_eq!(link.state(&link_to("/s//a", true)), LinkState::Foreign);
    assert_eq!(link.state(&link_to("/s/./a", true)), LinkState::Foreign);
    assert_eq!(link.state(&link_to("/s/a/", true)), LinkState::Foreign);
}

#[test]
fn target_exists_follows_a_link() {
    let link = Symlink::new(b("/s/a"), b("/t/a"));
    assert!(link.target_exists(&Slot::Directory));
    assert!(link.target_exists(&Slot::Other));
    assert!(link.target_exists(&link_to("/s/a", true)));
    assert!(!link.target_exists(&link_to("/s/a", false)));
    assert!(!link.target_exists(&Slot::Absent));
    assert!(!link.target_exists(&Slot::Unreadable));
}

#[test]
fn mirror_places_the_file_under_the_target() {
    let link = Symlink::mirror(&b("/src/nested/a.txt"), &b("/src"), &b("/home/u")).unwrap();
    assert_eq!(link.source, b("/src/nested/a.txt"));
    assert_eq!(link.target, b("/home/u/nested/a.txt"));
    assert_eq!(Symlink::mirror(&b("/elsewhere/a.txt"), &b("/src"), &b("/home/u")), None);
}

#[test]
fn mirror_all_leaves_out_what_is_outside() {
    let files = vec![b("/src/a"), b("/tmp/x"), b("/src/d/b")];
    let links = mirror_all(&files, &b("/src"), &b("/t"));
    assert_eq!(
        links,
        vec![Symlink::new(b("/src/a"), b("/t/a")), Symlink::new(b("/src/d/b"), b("/t/d/b"))]
    );
}
