use os::batch::{AppManager, LoadStep, APP_SIZE_LIMIT, MAX_APP_NUM};
use os::fs::{
    first_free, list_apps, open_file, pack_name, unlink_file, OSInode, OpenFlags, RootInode, O_CREATE,
    O_RDWR, O_TRUNC, O_WRONLY,
};
use os::loader::get_app_data_by_name;
use os::sbi::{shutdown, SbiCall, SBI_EXT_SRST};

fn name(s: &str) -> String {
    s.to_string()
}

#[test]
fn root_inode_create_refuses_a_taken_name() {
    let mut root = RootInode::new();
    assert_eq!(root.create(&name("a")), Some(0));
    assert_eq!(root.create(&name("b")), Some(1));
    assert_eq!(root.create(&name("a")), None);
    assert_eq!(root.find(&name("b")), Some(1));
    assert_eq!(root.find(&name("c")), None);
}

#[test]
fn root_inode_write_then_read_gives_the_bytes_back() {
    let mut root = RootInode::new();
    let i = root.create(&name("f")).unwrap();
    assert_eq!(root.write_at(i, 0, &vec![1, 2, 3, 4]), 4);
    assert_eq!(root.read_at(i, 1, 2), vec![2, 3]);
    assert_eq!(root.read_at(i, 2, 100), vec![3, 4]);
    assert_eq!(root.read_at(i, 9, 3), Vec::<u8>::new());
}

#[test]
fn root_inode_write_past_the_end_fills_the_gap_with_zeros() {
    let mut root = RootInode::new();
    let i = root.create(&name("f")).unwrap();
    root.write_at(i, 0, &vec![9, 9]);
    root.write_at(i, 4, &vec![5]);
    assert_eq!(root.read_at(i, 0, 10), vec![9, 9, 0, 0, 5]);
    root.write_at(i, 1, &vec![7, 7]);
    assert_eq!(root.read_at(i, 0, 10), vec![9, 7, 7, 0, 5]);
}

#[test]
fn root_inode_unlink_removes_only_the_named_file() {
    let mut root = RootInode::new();
    root.create(&name("a"));
    root.create(&name("b"));
    root.create(&name("c"));
    assert!(root.unlink(&name("b")));
    assert!(!root.unlink(&name("b")));
    assert_eq!(list_apps(&root), vec![name("a"), name("c")]);
    assert!(unlink_file(&mut root, &name("a")));
    assert_eq!(list_apps(&root), vec![name("c")]);
}

#[test]
fn open_flags_give_the_access_asked_for() {
    assert_eq!(OpenFlags::from_bits(0).unwrap().read_write(), (true, false));
    assert_eq!(OpenFlags::from_bits(O_WRONLY).unwrap().read_write(), (false, true));
    assert_eq!(OpenFlags::from_bits(O_RDWR).unwrap().read_write(), (true, true));
    assert_eq!(OpenFlags::from_bits(O_CREATE | O_WRONLY).unwrap().read_write(), (false, true));
    assert!(OpenFlags::from_bits(4).is_none());
}

#[test]
fn open_without_create_fails_on_a_missing_file() {
    let mut root = RootInode::new();
    assert!(open_file(&mut root, &name("x"), OpenFlags::from_bits(0).unwrap()).is_none());
    assert_eq!(root.entries.len(), 0);
}

#[test]
fn open_with_create_makes_the_file_and_truncates_an_existing_one() {
    let mut root = RootInode::new();
    let f = open_file(&mut root, &name("x"), OpenFlags::from_bits(O_CREATE | O_WRONLY).unwrap()).unwrap();
    assert_eq!(f.inode, 0);
    assert!(f.writeable && !f.readable);
    root.write_at(0, 0, &vec![1, 2, 3]);
    let mut g = open_file(&mut root, &name("x"), OpenFlags::from_bits(0).unwrap()).unwrap();
    assert_eq!(g.read_all(&root), vec![1, 2, 3]);
    assert_eq!(g.offset, 3);
    assert!(g.read_all(&root).is_empty());
    let t = open_file(&mut root, &name("x"), OpenFlags::from_bits(O_TRUNC).unwrap()).unwrap();
    assert_eq!(t.inode, 0);
    assert_eq!(root.read_at(0, 0, 10), Vec::<u8>::new());
}

#[test]
fn osinode_read_all_starts_at_the_position() {
    let mut root = RootInode::new();
    let i = root.create(&name("big")).unwrap();
    let data: Vec<u8> = (0..1200u32).map(|x| (x % 251) as u8).collect();
    root.write_at(i, 0, &data);
    let mut f = OSInode::new(true, false, i);
    f.offset = 100;
    let got = f.read_all(&root);
    assert_eq!(got, data[100..].to_vec());
    assert_eq!(f.offset, 1200);
}

#[test]
fn first_free_finds_the_first_empty_slot() {
    let v: Vec<Option<u8>> = vec![Some(1), None, Some(2), None];
    assert_eq!(first_free(&v), 1);
    let full: Vec<Option<u8>> = vec![Some(1), Some(2)];
    assert_eq!(first_free(&full), 2);
    let empty: Vec<Option<u8>> = Vec::new();
    assert_eq!(first_free(&empty), 0);
}

#[test]
fn app_lookup_by_name_returns_the_first_match() {
    let names = vec![name("initproc"), name("user_shell"), name("initproc")];
    assert_eq!(get_app_data_by_name(&names, &name("initproc")), Some(0));
    assert_eq!(get_app_data_by_name(&names, &name("user_shell")), Some(1));
    assert_eq!(get_app_data_by_name(&names, &name("nope")), None);
}

#[test]
fn batch_manager_loads_apps_in_turn_then_shuts_down() {
    let bounds = vec![0x1000usize, 0x1800, 0x2400];
    let mut m = AppManager::new(2, &bounds);
    assert_eq!(m.print_app_info(), vec![(0x1000, 0x1800), (0x1800, 0x2400)]);
    assert_eq!(m.get_current_app(), 0);
    assert_eq!(m.load_app(m.get_current_app()), LoadStep::Copy { src: 0x1000, len: 0x800 });
    m.move_to_next_app();
    assert_eq!(m.load_app(m.get_current_app()), LoadStep::Copy { src: 0x1800, len: 0xc00 });
    m.move_to_next_app();
    let step = m.load_app(m.get_current_app());
    assert_eq!(step, LoadStep::Shutdown(shutdown()));
    assert_eq!(
        step,
        LoadStep::Shutdown(SbiCall { extension: SBI_EXT_SRST, function: 0, arg0: 0, arg1: 0, arg2: 0 })
    );
    assert!(APP_SIZE_LIMIT > 0 && MAX_APP_NUM == 16);
}

#[test]
fn pack_name_cuts_the_extension_and_sorts_test_programs() {
    assert_eq!(pack_name(&name("initproc.bin")), (false, name("initproc")));
    assert_eq!(pack_name(&name("user_shell")), (false, name("user_shell")));
    assert_eq!(pack_name(&name("test_pipe.elf.bak")), (true, name("pipe")));
    assert_eq!(pack_name(&name("test_")), (true, name("")));
    assert_eq!(pack_name(&name("test.rs")), (false, name("test")));
    assert_eq!(pack_name(&name(".hidden")), (false, name("")));
}

#[test]
fn get_app_data_gives_start_and_length() {
    let table = vec![0x8040_0000usize, 0x8040_1200, 0x8040_1200, 0x8040_3000];
    assert_eq!(os::loader::get_app_data(&table, 0), (0x8040_0000, 0x1200));
    assert_eq!(os::loader::get_app_data(&table, 1), (0x8040_1200, 0));
    assert_eq!(os::loader::get_app_data(&table, 2), (0x8040_1200, 0x1e00));
}
