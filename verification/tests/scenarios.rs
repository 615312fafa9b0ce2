use homage::action::Action;
use homage::engine::{has_blocked, pending_steps, Decision, Entry, Found, Step};
use homage::resolve::DirProbe;
use homage::memory::{Item, MemoryTree};
use homage::symlink::{LinkState, Slot, Symlink};

fn b(text: &str) -> Vec<u8> {
    text.as_bytes().to_vec()
}

fn file(content: &str) -> Item {
    Item::File(b(content))
}

fn link(stored: &str) -> Item {
    Item::Link(b(stored))
}

fn tree(items: Vec<(&str, Item)>) -> MemoryTree {
    let mut fs = MemoryTree::new();
    for (path, item) in items {
        fs.put(b(path), item);
    }
    fs
}

fn dir(path: &str) -> DirProbe {
    DirProbe { path: b(path), present: true, canonical: Some(b(path)), is_directory: true }
}

fn action(dry_run: bool, backup: bool, skip_confirmation: bool) -> Action {
    Action::new(&dir("/src"), Some(&dir("/home/u")), None, dry_run, backup, skip_confirmation)
        .unwrap()
}

fn links(fs: &MemoryTree, action: &Action) -> Vec<Symlink> {
    let mut files = fs.files_under(action.source());
    files.sort();
    action.entries_to_process(&files)
}

fn entries(fs: &MemoryTree, action: &Action) -> Vec<Entry> {
    fs.observe(&links(fs, action))
}

fn install(fs: &mut MemoryTree, action: &Action, approved: bool) -> Vec<Decision> {
    let links = links(fs, action);
    fs.install(action, &links, approved)
}

fn uninstall(fs: &mut MemoryTree, action: &Action, approved: bool) -> Vec<Decision> {
    let links = links(fs, action);
    fs.uninstall(action, &links, approved)
}

fn clean(fs: &mut MemoryTree, action: &Action, approved: bool) -> Vec<Decision> {
    let mut paths = fs.links_under(action.target());
    paths.sort();
    fs.clean(action, &paths, approved)
}

fn dotfiles() -> MemoryTree {
    tree(vec![
        ("/src", Item::Directory),
        ("/src/bashrc", file("export A=1")),
        ("/src/config", Item::Directory),
        ("/src/config/nvim", Item::Directory),
        ("/src/config/nvim/init.vim", file("set nu")),
        ("/home", Item::Directory),
        ("/home/u", Item::Directory),
    ])
}

#[test]
fn install_links_a_tree_and_uninstall_takes_the_links_away() {
    let mut fs = dotfiles();
    let go = action(false, false, true);

    let first = install(&mut fs, &go, false);
    assert_eq!(pending_steps(&first).len(), 2);
    assert_eq!(fs.get(&b("/home/u/bashrc")), Some(link("/src/bashrc")));
    assert_eq!(fs.get(&b("/home/u/config/nvim/init.vim")), Some(link("/src/config/nvim/init.vim")));
    assert_eq!(fs.get(&b("/home/u/config")), Some(Item::Directory));
    assert_eq!(fs.get(&b("/home/u/config/nvim")), Some(Item::Directory));

    let second = install(&mut fs, &go, false);
    assert_eq!(pending_steps(&second).len(), 0);
    assert_eq!(second, vec![Decision::Skip, Decision::Skip]);

    let removed = uninstall(&mut fs, &go, false);
    assert_eq!(pending_steps(&removed).len(), 2);
    assert_eq!(fs.get(&b("/home/u/bashrc")), None);
    assert_eq!(fs.get(&b("/home/u/config/nvim/init.vim")), None);
    assert_eq!(fs.get(&b("/home/u/config/nvim")), Some(Item::Directory));
    assert!(fs.files_under(&b("/home/u")).is_empty());
    assert!(fs.links_under(&b("/home/u")).is_empty());
}

#[test]
fn a_file_in_the_way_blocks_or_is_backed_up() {
    let mut start = dotfiles();
    start.put(b("/home/u/bashrc"), file("my own settings"));

    let mut fs = start.duplicate();
    let decisions = install(&mut fs, &action(false, false, true), false);
    assert!(has_blocked(&decisions));
    assert_eq!(decisions[0], Decision::Blocked);
    assert_eq!(fs.get(&b("/home/u/bashrc")), Some(file("my own settings")));
    assert_eq!(fs.get(&b("/home/u/bashrc.bak")), None);
    assert_eq!(fs.get(&b("/home/u/config/nvim/init.vim")), Some(link("/src/config/nvim/init.vim")));

    let mut fs = start.duplicate();
    let with_backup = action(false, true, true);
    let decisions = install(&mut fs, &with_backup, false);
    assert!(!has_blocked(&decisions));
    assert_eq!(fs.get(&b("/home/u/bashrc.bak")), Some(file("my own settings")));
    assert_eq!(fs.get(&b("/home/u/bashrc")), Some(link("/src/bashrc")));

    uninstall(&mut fs, &with_backup, false);
    assert_eq!(fs.get(&b("/home/u/bashrc")), Some(file("my own settings")));
    assert_eq!(fs.get(&b("/home/u/bashrc.bak")), None);
    assert_eq!(fs.get(&b("/home/u/config/nvim/init.vim")), None);
}

#[test]
fn a_second_install_changes_nothing() {
    for backup in [false, true] {
        let mut fs = dotfiles();
        fs.put(b("/home/u/bashrc"), file("my own settings"));
        fs.put(b("/home/u/config"), Item::Directory);
        let go = action(false, backup, true);
        let first = install(&mut fs, &go, false);
        let once = fs.duplicate();
        let second = install(&mut fs, &go, false);
        assert!(fs.same_as(&once));
        assert_eq!(pending_steps(&second).len(), 0);
        assert_eq!(has_blocked(&second), has_blocked(&first));
        for entry in entries(&fs, &go) {
            let state = entry.link.state(&entry.slot);
            assert!(state == LinkState::Installed || state == LinkState::Conflict);
        }
    }
}

#[test]
fn uninstall_after_install_gives_the_tree_back() {
    let mut start = dotfiles();
    start.put(b("/home/u/config"), Item::Directory);
    start.put(b("/home/u/config/nvim"), Item::Directory);
    start.put(b("/home/u/bashrc"), file("my own settings"));
    start.put(b("/home/u/notes"), file("keep"));
    for backup in [false, true] {
        let mut fs = start.duplicate();
        let go = action(false, backup, true);
        install(&mut fs, &go, false);
        assert!(!fs.same_as(&start));
        uninstall(&mut fs, &go, false);
        assert!(fs.same_as(&start));
    }
}

#[test]
fn uninstall_after_install_leaves_new_directories() {
    let start = dotfiles();
    let mut fs = start.duplicate();
    let go = action(false, true, true);
    install(&mut fs, &go, false);
    uninstall(&mut fs, &go, false);
    assert!(!fs.same_as(&start));
    let mut expected = start.duplicate();
    expected.put(b("/home/u/config"), Item::Directory);
    expected.put(b("/home/u/config/nvim"), Item::Directory);
    assert!(fs.same_as(&expected));
}

#[test]
fn the_order_of_a_batch_does_not_matter() {
    let mut start = dotfiles();
    start.put(b("/src/zshrc"), file("z"));
    start.put(b("/home/u/zshrc"), file("mine"));
    let go = action(false, true, true);
    let batch = entries(&start, &go);
    assert_eq!(batch.len(), 3);
    let orders: [[usize; 3]; 6] = [[0, 1, 2], [0, 2, 1], [1, 0, 2], [1, 2, 0], [2, 0, 1], [2, 1, 0]];
    let mut results: Vec<MemoryTree> = Vec::new();
    for order in orders {
        let shuffled: Vec<Entry> = order.iter().map(|&i| batch[i].clone()).collect();
        let mut fs = start.duplicate();
        fs.perform_all(&go.release(&go.install(&shuffled), false));
        let installed = fs.duplicate();
        let again: Vec<Entry> = order.iter().map(|&i| fs.entry(batch[i].link.clone())).collect();
        fs.perform_all(&go.release(&go.uninstall(&again), false));
        results.push(installed);
        results.push(fs);
    }
    for pair in results.chunks(2) {
        assert!(pair[0].same_as(&results[0]));
        assert!(pair[1].same_as(&results[1]));
    }
}

#[test]
fn clean_leaves_links_that_point_elsewhere() {
    let mut fs = dotfiles();
    fs.put(b("/opt/tool"), file("x"));
    fs.put(b("/home/u/live"), link("/opt/tool"));
    fs.put(b("/home/u/dead"), link("/opt/gone"));
    fs.put(b("/home/u/near"), link("/srcx/gone"));
    let before = fs.duplicate();
    let decisions = clean(&mut fs, &action(false, false, true), false);
    assert_eq!(pending_steps(&decisions).len(), 0);
    assert!(fs.same_as(&before));
}

#[test]
fn clean_removes_only_dangling_links_of_its_own() {
    let mut fs = dotfiles();
    fs.put(b("/home/u/bashrc"), link("/src/bashrc"));
    fs.put(b("/home/u/old"), link("/src/old"));
    fs.put(b("/home/u/old.bak"), file("backup"));
    fs.put(b("/home/u/d"), Item::Directory);
    fs.put(b("/home/u/d/older"), link("/src/d/older"));
    fs.put(b("/home/u/notes"), file("keep"));
    fs.put(b("/elsewhere/old"), link("/src/old"));
    let mut expected = fs.duplicate();
    expected.remove(&b("/home/u/old"));
    expected.remove(&b("/home/u/d/older"));
    let decisions = clean(&mut fs, &action(false, false, true), false);
    assert_eq!(pending_steps(&decisions).len(), 2);
    assert!(fs.same_as(&expected));
    assert_eq!(fs.get(&b("/home/u/bashrc")), Some(link("/src/bashrc")));
    assert_eq!(fs.get(&b("/home/u/old.bak")), Some(file("backup")));
    assert_eq!(fs.get(&b("/elsewhere/old")), Some(link("/src/old")));
}

#[test]
fn a_declined_batch_changes_nothing() {
    let mut start = dotfiles();
    start.put(b("/home/u/bashrc"), file("my own settings"));
    start.put(b("/home/u/old"), link("/src/old"));
    start.put(b("/home/u/config/nvim/init.vim"), link("/src/config/nvim/init.vim"));
    let ask = action(false, true, false);
    let mut fs = start.duplicate();
    assert!(pending_steps(&install(&mut fs, &ask, false)).len() > 0);
    assert!(fs.same_as(&start));
    assert!(pending_steps(&uninstall(&mut fs, &ask, false)).len() > 0);
    assert!(fs.same_as(&start));
    assert!(pending_steps(&clean(&mut fs, &ask, false)).len() > 0);
    assert!(fs.same_as(&start));
    install(&mut fs, &ask, true);
    assert!(!fs.same_as(&start));
}

#[test]
fn a_dry_run_changes_nothing() {
    let mut start = dotfiles();
    start.put(b("/home/u/bashrc"), file("my own settings"));
    start.put(b("/home/u/old"), link("/src/old"));
    start.put(b("/home/u/config/nvim/init.vim"), link("/src/config/nvim/init.vim"));
    for backup in [false, true] {
        for skip in [false, true] {
            for approved in [false, true] {
                let dry = action(true, backup, skip);
                let mut fs = start.duplicate();
                let planned = install(&mut fs, &dry, approved);
                assert_eq!(planned, action(false, backup, true).install(&entries(&start, &dry)));
                assert!(fs.same_as(&start));
                uninstall(&mut fs, &dry, approved);
                assert!(fs.same_as(&start));
                clean(&mut fs, &dry, approved);
                assert!(fs.same_as(&start));
            }
        }
    }
}

#[test]
fn install_without_backup_never_touches_a_file() {
    let mut start = dotfiles();
    start.put(b("/home/u/bashrc"), file("my own settings"));
    start.put(b("/home/u/config"), file("a file where a directory should be"));
    let mut fs = start.duplicate();
    let decisions = install(&mut fs, &action(false, false, true), false);
    assert_eq!(decisions[0], Decision::Blocked);
    assert!(fs.same_as(&start));
}

#[test]
fn a_link_to_something_else_is_replaced() {
    let mut fs = dotfiles();
    fs.put(b("/home/u/bashrc"), link("/other/bashrc"));
    let go = action(false, false, true);
    install(&mut fs, &go, false);
    assert_eq!(fs.get(&b("/home/u/bashrc")), Some(link("/src/bashrc")));
    fs.put(b("/home/u/bashrc"), link("/other/bashrc"));
    uninstall(&mut fs, &go, false);
    assert_eq!(fs.get(&b("/home/u/bashrc")), Some(link("/other/bashrc")));
}

#[test]
fn observe_and_look_at_agree_with_single_looks() {
    let mut fs = dotfiles();
    fs.put(b("/home/u/bashrc"), link("/src/bashrc"));
    fs.put(b("/home/u/bashrc.bak"), file("old"));
    let go = action(false, false, true);
    let links = links(&fs, &go);
    let seen = fs.observe(&links);
    assert_eq!(seen.len(), links.len());
    for (entry, link) in seen.iter().zip(links.iter()) {
        assert_eq!(*entry, fs.entry(link.clone()));
    }
    assert_eq!(seen[0].backup, Slot::File);
    let paths = vec![b("/home/u/bashrc"), b("/home/u/nothing"), b("/src/bashrc")];
    assert_eq!(
        fs.look_at(&paths),
        vec![
            Found { path: b("/home/u/bashrc"), slot: Slot::Link { stored: b("/src/bashrc"), resolves: true } },
            Found { path: b("/home/u/nothing"), slot: Slot::Absent },
            Found { path: b("/src/bashrc"), slot: Slot::File },
        ]
    );
}

#[test]
fn a_link_gives_its_own_steps() {
    let link_a = Symlink::new(b("/src/a"), b("/home/u/d/a"));
    assert_eq!(
        link_a.install(),
        Step::Install { source: b("/src/a"), target: b("/home/u/d/a"), backup: false }
    );
    assert_eq!(link_a.uninstall(), Step::Uninstall { target: b("/home/u/d/a"), restore: false });
    let mut fs = dotfiles();
    fs.perform(&link_a.install());
    assert!(link_a.is_installed(&fs.slot(&b("/home/u/d/a"))));
    fs.perform(&link_a.uninstall());
    assert_eq!(fs.slot(&b("/home/u/d/a")), Slot::Absent);
}

#[test]
fn an_older_backup_is_never_overwritten() {
    let mut start = dotfiles();
    start.put(b("/home/u/bashrc"), file("my own settings"));
    start.put(b("/home/u/bashrc.bak"), file("settings of last year"));
    let mut fs = start.duplicate();
    let decisions = install(&mut fs, &action(false, true, true), false);
    assert_eq!(decisions[0], Decision::Blocked);
    assert!(has_blocked(&decisions));
    assert_eq!(fs.get(&b("/home/u/bashrc")), Some(file("my own settings")));
    assert_eq!(fs.get(&b("/home/u/bashrc.bak")), Some(file("settings of last year")));
    assert_eq!(fs.get(&b("/home/u/config/nvim/init.vim")), Some(link("/src/config/nvim/init.vim")));
}

#[test]
fn a_managed_file_named_like_a_backup_costs_no_file() {
    let mut start = dotfiles();
    start.put(b("/src/bashrc.bak"), file("an old bashrc, kept in the source tree"));
    start.put(b("/home/u/bashrc"), file("my own settings"));
    let go = action(false, true, true);
    let batch = links(&start, &go);
    assert_eq!(batch.len(), 3);
    let orders: [[usize; 3]; 6] = [[0, 1, 2], [0, 2, 1], [1, 0, 2], [1, 2, 0], [2, 0, 1], [2, 1, 0]];
    for order in orders {
        let shuffled: Vec<Symlink> = order.iter().map(|&i| batch[i].clone()).collect();
        let mut fs = start.duplicate();
        fs.install(&go, &shuffled, false);
        let at_its_path = fs.get(&b("/home/u/bashrc")) == Some(file("my own settings"));
        let at_its_backup = fs.get(&b("/home/u/bashrc.bak")) == Some(file("my own settings"));
        assert!(at_its_path || at_its_backup, "{:?}", order);
        assert_eq!(fs.get(&b("/src/bashrc")), Some(file("export A=1")));
        assert_eq!(
            fs.get(&b("/src/bashrc.bak")),
            Some(file("an old bashrc, kept in the source tree"))
        );
    }
}

#[test]
fn install_keeps_every_file_whatever_the_batch() {
    let mut start = dotfiles();
    start.put(b("/home/u/bashrc"), file("my own settings"));
    start.put(b("/home/u/notes"), file("keep"));
    start.put(b("/home/u/notes.bak"), file("keep too"));
    let go = action(false, true, true);
    let batch = vec![
        Symlink::new(b("/src/bashrc"), b("/home/u/bashrc")),
        Symlink::new(b("/src/bashrc"), b("/home/u/bashrc")),
        Symlink::new(b("/src/other"), b("/home/u/bashrc")),
        Symlink::new(b("/src/x"), b("/home/u/bashrc.bak")),
        Symlink::new(b("/src/y"), b("/home/u/notes")),
        Symlink::new(b("/src/z"), b("/home/u/notes.bak")),
        Symlink::new(b("/src/w"), b("/home/u/notes/below")),
    ];
    let mut fs = start.duplicate();
    fs.install(&go, &batch, false);
    assert_eq!(fs.get(&b("/home/u/bashrc.bak")), Some(file("my own settings")));
    assert!(matches!(fs.get(&b("/home/u/bashrc")), Some(Item::Link(_))));
    assert_eq!(fs.get(&b("/home/u/notes")), Some(file("keep")));
    assert_eq!(fs.get(&b("/home/u/notes.bak")), Some(link("/src/z")));
    assert_eq!(fs.get(&b("/home/u/notes.bak.bak")), Some(file("keep too")));
    for path in start.files_under(&b("/")) {
        let kept = start.get(&path);
        assert!(fs.get(&path) == kept || fs.get(&homage::path::backup_path(&path)) == kept);
    }
    for path in fs.files_under(&b("/src")) {
        assert_eq!(fs.get(&path), start.get(&path));
    }
}

fn run_install(fs: &mut MemoryTree, action: &Action, batch: &Vec<Symlink>) -> (bool, usize) {
    let decisions = action.install(&fs.observe(batch));
    let steps = action.release(&decisions, false);
    (fs.perform_all(&steps), steps.len())
}

fn run_uninstall(fs: &mut MemoryTree, action: &Action, batch: &Vec<Symlink>) -> (bool, usize) {
    let decisions = action.uninstall(&fs.observe(batch));
    let steps = action.release(&decisions, false);
    (fs.perform_all(&steps), steps.len())
}

#[test]
fn an_install_without_failure_leaves_nothing_to_install() {
    let mut start = dotfiles();
    start.put(b("/src/bashrc.bak"), file("kept in the source tree"));
    start.put(b("/src/zshrc"), file("z"));
    start.put(b("/home/u/zshrc"), file("mine"));
    start.put(b("/home/u/bashrc"), link("/elsewhere/bashrc"));
    for backup in [false, true] {
        let go = action(false, backup, true);
        let batch = links(&start, &go);
        let mut fs = start.duplicate();
        let (clean, steps) = run_install(&mut fs, &go, &batch);
        assert!(clean);
        assert!(steps > 0);
        let once = fs.duplicate();
        let (clean_again, steps_again) = run_install(&mut fs, &go, &batch);
        assert!(clean_again);
        assert_eq!(steps_again, 0);
        assert!(fs.same_as(&once));
    }
}

#[test]
fn an_install_with_a_failure_may_leave_work() {
    let mut start = dotfiles();
    start.put(b("/src/bashrc.bak"), file("kept in the source tree"));
    start.put(b("/home/u/bashrc"), file("my own settings"));
    let go = action(false, true, true);
    let batch = links(&start, &go);
    let mut fs = start.duplicate();
    let (clean, _) = run_install(&mut fs, &go, &batch);
    assert!(!clean);
    assert_eq!(fs.get(&b("/home/u/bashrc.bak")), Some(file("my own settings")));
    let (_, steps_again) = run_install(&mut fs, &go, &batch);
    assert!(steps_again > 0);
    assert_eq!(fs.get(&b("/home/u/bashrc.bak.bak")), Some(file("my own settings")));
    assert_eq!(fs.get(&b("/home/u/bashrc.bak")), Some(link("/src/bashrc.bak")));
}

#[test]
fn uninstall_after_install_without_failure_gives_the_tree_back() {
    let mut start = dotfiles();
    start.put(b("/src/bashrc.bak"), file("kept in the source tree"));
    start.put(b("/src/zshrc"), file("z"));
    start.put(b("/home/u/zshrc"), file("mine"));
    start.put(b("/home/u/config"), Item::Directory);
    start.put(b("/home/u/config/nvim"), Item::Directory);
    for backup in [false, true] {
        let go = action(false, backup, true);
        let batch = links(&start, &go);
        let mut fs = start.duplicate();
        let (installed, _) = run_install(&mut fs, &go, &batch);
        assert!(installed);
        let (removed, _) = run_uninstall(&mut fs, &go, &batch);
        assert!(removed);
        assert!(fs.same_as(&start));
    }
}

#[test]
fn a_backed_up_file_comes_back_with_its_content() {
    let mut start = dotfiles();
    start.put(b("/home/u/bashrc"), file("my own settings"));
    let go = action(false, true, true);
    let batch = links(&start, &go);
    let mut fs = start.duplicate();
    let (installed, _) = run_install(&mut fs, &go, &batch);
    assert!(installed);
    assert_eq!(fs.get(&b("/home/u/bashrc")), Some(link("/src/bashrc")));
    assert_eq!(fs.get(&b("/home/u/bashrc.bak")), Some(file("my own settings")));
    let (removed, _) = run_uninstall(&mut fs, &go, &batch);
    assert!(removed);
    assert_eq!(fs.get(&b("/home/u/bashrc")), Some(file("my own settings")));
    assert_eq!(fs.get(&b("/home/u/bashrc.bak")), None);
    let mut expected = start.duplicate();
    expected.put(b("/home/u/config"), Item::Directory);
    expected.put(b("/home/u/config/nvim"), Item::Directory);
    assert!(fs.same_as(&expected));
}
