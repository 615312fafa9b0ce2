use homage::args::{ActionType, Args, LogLevel, MAX_VERBOSITY};
use homage::context::Context;
use homage::dotfile::{install_dotfile_entry, uninstall_dotfile_entry, Dotfile, TILDE};
use homage::engine::{Entry, Step};
use homage::resolve::{DirProbe, PathError};
use homage::symlink::{Slot, Symlink};

fn b(text: &str) -> Vec<u8> {
    text.as_bytes().to_vec()
}

fn dir(path: &str) -> DirProbe {
    DirProbe { path: b(path), present: true, canonical: Some(b(path)), is_directory: true }
}

fn context(dry_run: bool, backup: bool) -> Context {
    Context::new(&dir("/dots"), Some(&dir("/home/u")), None, dry_run, backup, false).unwrap()
}

fn entries() -> Vec<Entry> {
    vec![
        Entry { link: Symlink::new(b("/dots/a"), b("/home/u/a")), slot: Slot::Absent, backup: Slot::Absent },
        Entry { link: Symlink::new(b("/dots/b"), b("/home/u/b")), slot: Slot::File, backup: Slot::Absent },
        Entry {
            link: Symlink::new(b("/dots/c"), b("/home/u/c")),
            slot: Slot::Link { stored: b("/dots/c"), resolves: true },
            backup: Slot::File,
        },
    ]
}

#[test]
fn context_new_keeps_the_settings() {
    let context = Context::new(&dir("/dots"), None, Some(&dir("/home/u")), true, true, true).unwrap();
    assert_eq!(context.source(), &b("/dots"));
    assert_eq!(context.target(), &b("/home/u"));
    assert!(context.dry_run());
    assert!(context.backup());
    assert!(context.verbose());
}

#[test]
fn context_new_reports_what_is_wrong() {
    let gone = DirProbe { path: b("/gone"), present: false, canonical: None, is_directory: false };
    assert_eq!(Context::new(&gone, None, None, false, false, false).unwrap_err(), PathError::NotFound);
    assert_eq!(
        Context::new(&dir("/dots"), None, None, false, false, false).unwrap_err(),
        PathError::HomeUnset
    );
    let relative = DirProbe { path: b("dots"), present: true, canonical: None, is_directory: true };
    assert_eq!(
        Context::new(&dir("/dots"), Some(&relative), None, false, false, false).unwrap_err(),
        PathError::ResolutionFailed
    );
}

#[test]
fn context_links_mirror_the_source() {
    let links = context(false, false).links(&vec![b("/dots/vim/rc"), b("/dots/zshrc")]);
    assert_eq!(
        links,
        vec![
            Symlink::new(b("/dots/vim/rc"), b("/home/u/vim/rc")),
            Symlink::new(b("/dots/zshrc"), b("/home/u/zshrc"))
        ]
    );
}

#[test]
fn context_install_gives_the_steps() {
    assert_eq!(
        context(false, false).install(&entries()),
        vec![Step::Install { source: b("/dots/a"), target: b("/home/u/a"), backup: false }]
    );
    assert_eq!(
        context(false, true).install(&entries()),
        vec![
            Step::Install { source: b("/dots/a"), target: b("/home/u/a"), backup: false },
            Step::Install { source: b("/dots/b"), target: b("/home/u/b"), backup: true }
        ]
    );
}

#[test]
fn context_uninstall_gives_the_steps() {
    assert_eq!(
        context(false, false).uninstall(&entries()),
        vec![Step::Uninstall { target: b("/home/u/c"), restore: true }]
    );
}

#[test]
fn context_changes_nothing_on_a_dry_run() {
    assert_eq!(context(true, true).install(&entries()), Vec::new());
    assert_eq!(context(true, true).uninstall(&entries()), Vec::new());
    for entry in entries() {
        assert_eq!(context(true, true).install_dotfile_entry(&entry), None);
        assert_eq!(context(true, true).uninstall_dotfile_entry(&entry), None);
    }
}

#[test]
fn context_decides_one_entry() {
    let all = entries();
    let live = context(false, true);
    assert_eq!(
        live.install_dotfile_entry(&all[1]),
        Some(Step::Install { source: b("/dots/b"), target: b("/home/u/b"), backup: true })
    );
    assert_eq!(context(false, false).install_dotfile_entry(&all[1]), None);
    assert_eq!(live.install_dotfile_entry(&all[2]), None);
    assert_eq!(
        live.uninstall_dotfile_entry(&all[2]),
        Some(Step::Uninstall { target: b("/home/u/c"), restore: true })
    );
    assert_eq!(live.uninstall_dotfile_entry(&all[0]), None);
    assert_eq!(install_dotfile_entry(&all[0], &live), live.install_dotfile_entry(&all[0]));
    assert_eq!(uninstall_dotfile_entry(&all[2], &live), live.uninstall_dotfile_entry(&all[2]));
}

#[test]
fn resolve_dest_expands_the_tilde() {
    let home = b("/home/u");
    assert_eq!(TILDE, b'~');
    assert_eq!(Dotfile::resolve_dest(&b("~/.vimrc"), &home), b("/home/u/.vimrc"));
    assert_eq!(Dotfile::resolve_dest(&b("~"), &home), b("/home/u/"));
    assert_eq!(Dotfile::resolve_dest(&b("~~//x"), &home), b("/home/u/x"));
    assert_eq!(Dotfile::resolve_dest(&b("~.config/x"), &home), b("/home/u/.config/x"));
}

#[test]
fn resolve_dest_places_a_relative_path_at_home() {
    let home = b("/home/u");
    assert_eq!(Dotfile::resolve_dest(&b(".bashrc"), &home), b("/home/u/.bashrc"));
    assert_eq!(Dotfile::resolve_dest(&b("a/~b"), &home), b("/home/u/a/~b"));
    assert_eq!(Dotfile::resolve_dest(&b("/etc/x"), &home), b("/etc/x"));
    assert_eq!(Dotfile::resolve_dest(&b("~/x"), &b("rel")), b("rel/rel/x"));
}

#[test]
fn dotfile_new_needs_the_source() {
    let context = context(false, false);
    let made = Dotfile::new(&b("vim/rc"), &b("~/.vimrc"), &context, &b("/home/u"), true).unwrap();
    assert_eq!(made.source, b("/dots/vim/rc"));
    assert_eq!(made.dest, b("/home/u/.vimrc"));
    assert_eq!(
        Dotfile::new(&b("vim/rc"), &b("~/.vimrc"), &context, &b("/home/u"), false),
        Err(PathError::NotFound)
    );
}

#[test]
fn dotfile_links_for_a_file_and_for_a_directory() {
    let file = Dotfile { source: b("/dots/zshrc"), dest: b("/home/u/.zshrc") };
    assert_eq!(
        file.links(true, false, &Vec::new()),
        vec![Symlink::new(b("/dots/zshrc"), b("/home/u/.zshrc"))]
    );
    let tree = Dotfile { source: b("/dots/nvim"), dest: b("/home/u/.config/nvim") };
    assert_eq!(
        tree.links(true, true, &vec![b("/dots/nvim/init.vim"), b("/dots/nvim/lua/x.lua")]),
        vec![
            Symlink::new(b("/dots/nvim/init.vim"), b("/home/u/.config/nvim/init.vim")),
            Symlink::new(b("/dots/nvim/lua/x.lua"), b("/home/u/.config/nvim/lua/x.lua"))
        ]
    );
}

#[test]
fn a_dotfile_without_its_source_has_no_links() {
    let file = Dotfile { source: b("/dots/zshrc"), dest: b("/home/u/.zshrc") };
    assert_eq!(file.links(false, false, &Vec::new()), Vec::new());
    assert_eq!(file.links(false, true, &vec![b("/dots/zshrc/x")]), Vec::new());
}

#[test]
fn dotfile_installs_through_the_context() {
    let dotfile = Dotfile { source: b("/dots"), dest: b("/home/u") };
    let live = context(false, true);
    assert_eq!(dotfile.install(&live, true, true, &entries()), live.install(&entries()));
    assert_eq!(dotfile.uninstall(&live, true, true, &entries()), live.uninstall(&entries()));
    assert_eq!(dotfile.install(&context(true, true), true, true, &entries()), Vec::new());
}

#[test]
fn a_dotfile_installs_only_its_own_links() {
    let live = context(false, true);
    let nvim = Dotfile { source: b("/dots/nvim"), dest: b("/home/u/.config/nvim") };
    let mixed = vec![
        Entry {
            link: Symlink::new(b("/dots/nvim/init.vim"), b("/home/u/.config/nvim/init.vim")),
            slot: Slot::Absent,
            backup: Slot::Absent,
        },
        Entry {
            link: Symlink::new(b("/dots/zshrc"), b("/home/u/.zshrc")),
            slot: Slot::Absent,
            backup: Slot::Absent,
        },
        Entry {
            link: Symlink::new(b("/dots/nvim/lua/x.lua"), b("/home/u/elsewhere/x.lua")),
            slot: Slot::Absent,
            backup: Slot::Absent,
        },
        Entry {
            link: Symlink::new(b("/dots/nvim/old.vim"), b("/home/u/.config/nvim/old.vim")),
            slot: Slot::Link { stored: b("/dots/nvim/old.vim"), resolves: true },
            backup: Slot::File,
        },
    ];
    assert_eq!(nvim.own(true, true, &mixed), vec![mixed[0].clone(), mixed[3].clone()]);
    assert_eq!(
        nvim.install(&live, true, true, &mixed),
        vec![Step::Install {
            source: b("/dots/nvim/init.vim"),
            target: b("/home/u/.config/nvim/init.vim"),
            backup: false
        }]
    );
    assert_eq!(
        nvim.uninstall(&live, true, true, &mixed),
        vec![Step::Uninstall { target: b("/home/u/.config/nvim/old.vim"), restore: true }]
    );
    assert_eq!(nvim.install(&live, false, true, &mixed), Vec::new());
    assert_eq!(nvim.uninstall(&live, false, true, &mixed), Vec::new());
    assert_eq!(nvim.install(&live, true, false, &mixed), Vec::new());

    let zshrc = Dotfile { source: b("/dots/zshrc"), dest: b("/home/u/.zshrc") };
    assert_eq!(zshrc.own(true, false, &mixed), vec![mixed[1].clone()]);
    assert_eq!(
        zshrc.install(&live, true, false, &mixed),
        vec![Step::Install { source: b("/dots/zshrc"), target: b("/home/u/.zshrc"), backup: false }]
    );
}

#[test]
fn a_dotfile_owns_the_links_it_asks_for() {
    let nvim = Dotfile { source: b("/dots/nvim"), dest: b("/home/u/.config/nvim") };
    for link in nvim.links(true, true, &vec![b("/dots/nvim/init.vim"), b("/dots/nvim/lua/x.lua")]) {
        assert!(nvim.owns(true, true, &link));
        assert!(!nvim.owns(false, true, &link));
        assert!(!nvim.owns(true, false, &link));
    }
    let zshrc = Dotfile { source: b("/dots/zshrc"), dest: b("/home/u/.zshrc") };
    for link in zshrc.links(true, false, &Vec::new()) {
        assert!(zshrc.owns(true, false, &link));
        assert!(!zshrc.owns(false, false, &link));
    }
    assert!(!zshrc.owns(true, false, &Symlink::new(b("/dots/zshrc"), b("/home/u/.bashrc"))));
    assert!(!zshrc.owns(true, false, &Symlink::new(b("/dots/bashrc"), b("/home/u/.zshrc"))));
    assert!(!nvim.owns(true, true, &Symlink::new(b("/dots/nvimx/a"), b("/home/u/.config/nvim/a"))));
}

#[test]
fn entries_and_slots_duplicate_themselves() {
    for entry in entries() {
        assert_eq!(entry.duplicate(), entry);
        assert_eq!(entry.slot.duplicate(), entry.slot);
    }
    for slot in [Slot::Absent, Slot::File, Slot::Directory, Slot::Other, Slot::Unreadable] {
        assert_eq!(slot.duplicate(), slot);
    }
}

fn args(dry_run: bool, no_confirm: bool, verbosity: u8, quiet: bool) -> Args {
    Args::parse_args(
        ActionType::Clean { source: b("/dots"), target: None },
        dry_run,
        no_confirm,
        verbosity,
        quiet,
    )
}

#[test]
fn parse_args_caps_the_verbosity() {
    assert_eq!(MAX_VERBOSITY, 3);
    assert_eq!(args(false, false, 0, false).verbosity, 0);
    assert_eq!(args(false, false, 3, false).verbosity, 3);
    assert_eq!(args(false, false, 4, false).verbosity, 3);
    assert_eq!(args(false, false, 255, false).verbosity, 3);
    let parsed = args(true, false, 1, true);
    assert!(parsed.dry_run && !parsed.no_confirm && parsed.quiet);
    assert_eq!(parsed.action, ActionType::Clean { source: b("/dots"), target: None });
}

#[test]
fn log_level_follows_the_flags() {
    assert_eq!(args(false, false, 0, false).log_level(), LogLevel::Warn);
    assert_eq!(args(false, false, 1, false).log_level(), LogLevel::Info);
    assert_eq!(args(false, false, 2, false).log_level(), LogLevel::Debug);
    assert_eq!(args(false, false, 3, false).log_level(), LogLevel::Trace);
    assert_eq!(args(false, false, 9, false).log_level(), LogLevel::Trace);
    assert_eq!(args(true, false, 0, false).log_level(), LogLevel::Debug);
    assert_eq!(args(true, false, 2, false).log_level(), LogLevel::Debug);
    assert_eq!(args(true, false, 3, false).log_level(), LogLevel::Trace);
    assert_eq!(args(true, false, 3, true).log_level(), LogLevel::Error);
    assert_eq!(args(false, false, 3, true).log_level(), LogLevel::Error);
}

#[test]
fn log_level_of_an_uncapped_verbosity_is_warn() {
    let raw = Args {
        action: ActionType::Clean { source: b("/dots"), target: None },
        dry_run: false,
        no_confirm: false,
        verbosity: 7,
        quiet: false,
    };
    assert_eq!(raw.log_level(), LogLevel::Warn);
}

#[test]
fn a_dry_run_skips_the_confirmation() {
    assert!(args(true, false, 0, false).skip_confirmation());
    assert!(args(false, true, 0, false).skip_confirmation());
    assert!(!args(false, false, 0, false).skip_confirmation());
}

#[test]
fn only_install_can_go_without_backups() {
    let install = |backup| {
        Args::parse_args(
            ActionType::Install { source: b("/dots"), target: Some(b("/t")), backup },
            false,
            false,
            0,
            false,
        )
    };
    assert!(install(true).backup());
    assert!(!install(false).backup());
    assert!(args(false, false, 0, false).backup());
    let uninstall = Args::parse_args(
        ActionType::Uninstall { source: b("/dots"), target: None },
        false,
        false,
        0,
        false,
    );
    assert!(uninstall.backup());
}
