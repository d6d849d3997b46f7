//! The arena, the signatures and the index.

use optionsearch::arena::{Arena, MAX_NAME_LEN};
use optionsearch::index::{resident_bytes, DirNode, Index, Room};
use optionsearch::model::{signature, signature2};

#[test]
fn push_and_get_roundtrip() {
    let mut a = Arena::new();
    let (o1, l1) = a.push(b"hello");
    let (o2, l2) = a.push(b"world!");
    assert_eq!(a.get(o1, l1), b"hello");
    assert_eq!(a.get(o2, l2), b"world!");
    assert_eq!(a.len(), 11);
}

#[test]
fn empty_name_is_valid() {
    let mut a = Arena::new();
    let (o, l) = a.push(b"");
    assert_eq!(l, 0);
    assert_eq!(a.get(o, l), b"");
}

#[test]
fn long_names_are_truncated() {
    let mut a = Arena::new();
    let long = vec![b'x'; MAX_NAME_LEN + 100];
    let (o, l) = a.push(&long);
    assert_eq!(l as usize, MAX_NAME_LEN);
    assert_eq!(a.get(o, l).len(), MAX_NAME_LEN);
}

#[test]
fn get_str_handles_invalid_utf8() {
    let mut a = Arena::new();
    let (o, l) = a.push(&[0xff, 0xfe]);
    assert_eq!(a.get_str(o, l), "");
}

#[test]
fn get_str_reads_text() {
    let mut a = Arena::with_capacity(16);
    let (o, l) = a.push("ação".as_bytes());
    assert_eq!(a.get_str(o, l), "ação");
    assert!(a.capacity() >= a.len());
    a.shrink_to_fit();
    assert_eq!(a.get_str(o, l), "ação");
    a.clear();
    assert!(a.is_empty());
}

#[test]
fn signature_is_case_insensitive() {
    assert_eq!(signature(b"Cargo.TOML"), signature(b"cargo.toml"));
}

#[test]
fn signature_superset_property_holds_for_substrings() {
    let name = signature(b"report_2024_final.pdf");
    for term in [&b"pdf"[..], b"2024", b"report", b"_final."] {
        let t = signature(term);
        assert_eq!(name & t, t, "term {:?} must pass the prefilter", term);
    }
}

#[test]
fn signature_rejects_absent_bytes() {
    let name = signature(b"abc");
    let t = signature(b"z");
    assert_ne!(name & t, t);
}

#[test]
fn bigrams_reject_reordered_bytes() {
    let name = signature(b"song list");
    let t = signature(b"ss");
    assert_ne!(name & t, t, "no adjacent ss in the name");
    assert_eq!(name & signature(b"s"), signature(b"s"));
}

#[test]
fn substring_property_holds_for_random_names() {
    let alphabet = b"abcdefgHIJ._-019";
    let mut state = 0x12345678u32;
    let mut rand = move || {
        state ^= state << 13;
        state ^= state >> 17;
        state ^= state << 5;
        state
    };
    for _ in 0..2000 {
        let len = 4 + (rand() % 24) as usize;
        let name: Vec<u8> = (0..len)
            .map(|_| alphabet[(rand() % alphabet.len() as u32) as usize])
            .collect();
        let a = (rand() as usize) % len;
        let b = a + 1 + (rand() as usize) % (len - a);
        let sub = &name[a..b];
        let (ns, ss) = (signature(&name), signature(sub));
        assert_eq!(ns & ss, ss, "{:?} in {:?}", sub, name);
        let (n2, s2) = (signature2(&name), signature2(sub));
        assert_eq!(n2 & s2, s2, "{:?} in {:?}", sub, name);
    }
}

fn sample() -> (Index, u32) {
    let mut idx = Index::new();
    let home = idx.ensure_dir_path(b"/home/gabriel");
    let id = idx.push_entry(home, b"notes.md", 0, 42, 7);
    (idx, id)
}

#[test]
fn materializes_absolute_paths() {
    let (idx, id) = sample();
    assert_eq!(idx.path_of(id), b"/home/gabriel/notes.md");
}

#[test]
fn root_path_has_single_slash() {
    let mut idx = Index::new();
    let root = idx.ensure_dir_path(b"/");
    let id = idx.push_entry(root, b"vmlinuz", 0, 1, 1);
    assert_eq!(idx.dir_path_of(root), b"/");
    assert_eq!(idx.path_of(id), b"/vmlinuz");
}

#[test]
fn ensure_dir_path_is_idempotent() {
    let mut idx = Index::new();
    let a = idx.ensure_dir_path(b"/a/b/c");
    let b = idx.ensure_dir_path(b"/a/b/c");
    assert_eq!(a, b);
    assert_eq!(idx.dir_count(), 4); // "/", a, b, c
    assert_eq!(idx.dir_by_path(b"/a/b"), Some(2));
    assert_eq!(idx.dir_by_path(b"/a/x"), None);
}

#[test]
fn deep_paths_beyond_inline_stack() {
    let mut idx = Index::new();
    let mut p = String::new();
    for i in 0..90 {
        p.push_str(&format!("/d{i}"));
    }
    let dir = idx.ensure_dir_path(p.as_bytes());
    let id = idx.push_entry(dir, b"leaf", 0, 0, 0);
    assert_eq!(idx.path_of(id), format!("{p}/leaf").into_bytes());
}

#[test]
fn tombstoned_slots_are_reused_and_compaction_renumbers() {
    let mut idx = Index::new();
    let d = idx.ensure_dir_path(b"/x");
    let a = idx.push_entry(d, b"a", 0, 1, 1);
    let b = idx.push_entry(d, b"b", 0, 2, 2);
    idx.remove_entry(a);
    assert_eq!(idx.live_len(), 1);
    let (dead, total) = idx.garbage_ratio();
    assert!(dead as f64 / total as f64 > 0.4);
    let c = idx.push_entry(d, b"c", 0, 3, 3);
    assert_eq!(c, a, "free slot must be reused");
    assert_eq!(idx.live_len(), 2);

    idx.remove_entry(b);
    idx.compact();
    assert_eq!(idx.live_len(), 1);
    assert_eq!(idx.len(), 1);
    assert_eq!(idx.path_of(0), b"/x/c");
}

#[test]
fn find_batch_resolves_names() {
    let mut idx = Index::new();
    let d = idx.ensure_dir_path(b"/x");
    let a = idx.push_entry(d, b"a.txt", 0, 1, 1);
    idx.push_entry(d, b"b.txt", 0, 1, 1);
    let got = idx.find_batch(&[(d, b"a.txt".to_vec()), (d, b"zz".to_vec())]);
    assert_eq!(got, vec![Some(a), None]);
}

#[test]
fn dir_paths_are_cached_and_invalidated() {
    let mut idx = Index::new();
    let d = idx.ensure_dir_path(b"/home/gabriel/projects");
    let dp = idx.dir_paths();
    assert_eq!(dp.get(d), b"/home/gabriel/projects/");
    assert_eq!(dp.get(0), b"/");
    assert_eq!(dp.len(), idx.dir_count());

    let e = idx.ensure_dir_path(b"/home/gabriel/projects/optionsearch");
    let dp = idx.dir_paths();
    assert_eq!(dp.get(e), b"/home/gabriel/projects/optionsearch/");
}

#[test]
fn warmed_paths_are_shared_and_current() {
    let mut idx = Index::new();
    let d = idx.ensure_dir_path(b"/a/b");
    idx.warm();
    assert_eq!(idx.dir_paths().get(d), b"/a/b/");
    let e = idx.ensure_dir_path(b"/a/b/c");
    idx.warm();
    assert_eq!(idx.dir_paths().get(e), b"/a/b/c/");
    assert_eq!(idx.dir_paths().len(), 4);
}

#[test]
fn removing_a_subtree_returns_its_entries_and_detaches_it() {
    let mut idx = Index::new();
    let keep = idx.ensure_dir_path(b"/r");
    let gone = idx.ensure_dir_path(b"/r/x");
    let deep = idx.ensure_dir_path(b"/r/x/y");
    idx.push_entry(keep, b"keep", 0, 1, 1);
    let a = idx.push_entry(gone, b"a", 0, 1, 1);
    let b = idx.push_entry(deep, b"b", 0, 1, 1);
    assert_eq!(idx.remove_dir_subtree(gone), vec![a, b]);
    assert_eq!(idx.live_len(), 1);
    assert_eq!(idx.dir_by_path(b"/r/x"), None);
    assert_eq!(idx.dir_by_path(b"/r/x/y"), None);
    assert_eq!(idx.dir_by_path(b"/r"), Some(keep));
}

#[test]
fn compaction_keeps_what_is_live() {
    let mut idx = Index::new();
    let r = idx.ensure_dir_path(b"/r");
    let x = idx.ensure_dir_path(b"/r/x");
    idx.push_entry(x, b"one", 0, 1, 10);
    let two = idx.push_entry(r, b"two", 0, 2, 20);
    idx.push_entry(x, b"three", 1, 3, 30);
    idx.remove_entry(two);
    assert!(!idx.compact_if_needed(1, 2));
    assert!(idx.compact_if_needed(1, 4));
    assert_eq!(idx.dead_len(), 0);
    assert_eq!(idx.len(), 2);
    assert_eq!(idx.path_of(0), b"/r/x/one");
    assert_eq!(idx.path_of(1), b"/r/x/three");
    assert_eq!((idx.entry(1).size, idx.entry(1).mtime, idx.entry(1).flags), (3, 30, 1));
}

#[test]
fn signatures_of_stored_names_are_those_of_the_names() {
    let (idx, id) = sample();
    assert_eq!(idx.signatures(id), (signature(b"notes.md"), signature2(b"notes.md")));
    assert_eq!(idx.name(id), b"notes.md");
    assert_eq!(idx.find_in_dir(idx.entry(id).dir, b"notes.md"), Some(id));
    assert!(idx.memory_bytes() >= idx.name_bytes() + idx.dir_name_bytes() + 40 * idx.len());
}

#[test]
fn holes_are_never_handed_out() {
    let mut idx = Index::new();
    let d = idx.ensure_dir_path(b"/a");
    let first = idx.push_entry(d, b"x", 0, 1, 1);
    let hole = idx.push_hole();
    assert_eq!(hole, 1);
    assert_eq!((idx.len(), idx.live_len(), idx.dead_len()), (2, 1, 1));
    idx.remove_entry(first);
    assert_eq!(idx.push_entry(d, b"y", 0, 1, 1), first);
    assert_eq!(idx.push_entry(d, b"z", 0, 1, 1), 2);
    assert_eq!((idx.len(), idx.live_len(), idx.dead_len()), (3, 2, 1));
    assert_eq!(idx.name(first), b"y");
}

#[test]
fn a_name_stays_until_its_slot_is_handed_out_again() {
    let mut idx = Index::new();
    let d = idx.ensure_dir_path(b"/a");
    let id = idx.push_entry(d, b"kept", 0, 1, 1);
    idx.update_entry(id, 5, 6);
    idx.push_entry(d, b"other", 0, 1, 1);
    idx.ensure_dir_path(b"/a/b");
    assert_eq!(idx.name(id), b"kept");
    idx.remove_entry(id);
    assert_eq!(idx.name(id), b"kept");
}

#[test]
fn live_entries_are_counted() {
    let mut idx = Index::new();
    let d = idx.ensure_dir_path(b"/a");
    let sub = idx.ensure_dir_path(b"/a/b");
    let x = idx.push_entry(d, b"x", 0, 1, 1);
    idx.push_entry(sub, b"y", 0, 1, 1);
    idx.push_entry(sub, b"z", 0, 1, 1);
    assert_eq!(idx.live_len(), 3);
    idx.remove_entry(x);
    assert_eq!(idx.live_len(), 2);
    idx.remove_entry(x);
    assert_eq!(idx.live_len(), 2);
    let gone = idx.remove_dir_subtree(sub);
    assert_eq!((gone.len(), idx.live_len(), idx.dead_len()), (2, 0, 3));
}

#[test]
fn an_entry_is_found_until_it_is_removed() {
    let mut idx = Index::new();
    let d = idx.ensure_dir_path(b"/a");
    assert_eq!(idx.find_in_dir(d, b"x"), None);
    let id = idx.push_entry(d, b"x", 0, 1, 1);
    assert_eq!(idx.find_in_dir(d, b"x"), Some(id));
    assert_eq!(idx.find_batch(&[(d, b"x".to_vec()), (d, b"y".to_vec())]), vec![Some(id), None]);
    idx.remove_entry(id);
    assert_eq!(idx.find_in_dir(d, b"x"), None);
}

#[test]
fn resolving_a_path_adds_only_what_is_missing() {
    let mut idx = Index::new();
    let top = idx.ensure_dir_path(b"/a/b");
    let before = idx.dir_count();
    let deep = idx.ensure_dir_path(b"/a/b/c/d");
    assert_eq!(idx.dir_count(), before + 2);
    assert_eq!(idx.dir_path_of(deep), b"/a/b/c/d");
    assert_eq!(idx.dir_by_path(b"/a//b/c/d/"), Some(deep));
    assert_eq!(idx.dir_by_path(b"/a/b"), Some(top));
    assert_eq!(idx.ensure_dir_path(b"/a/b/c/d"), deep);
    assert_eq!(idx.dir_count(), before + 2);
}

#[test]
fn resident_bytes_add_up() {
    let node = std::mem::size_of::<DirNode>();
    let list = std::mem::size_of::<Vec<u32>>();
    let room = Room { names: 100, dir_names: 20, slots: 3, dirs: 2, lists: 2, links: vec![4, 1] };
    assert_eq!(resident_bytes(&room, 7), 100 + 20 + 3 * 40 + 2 * node + 7 + 4 * 5 + 2 * list);
    let full = Room { names: usize::MAX, ..room };
    assert_eq!(resident_bytes(&full, 0), usize::MAX);

    let mut idx = Index::new();
    let d = idx.ensure_dir_path(b"/a");
    idx.push_entry(d, b"name", 0, 1, 1);
    let least = 4 + 1 + 40 + 2 * node + 4 + 2 * list;
    assert!(idx.memory_bytes() >= least);
    let cold = idx.memory_bytes();
    idx.warm();
    assert_eq!(idx.memory_bytes(), cold + idx.dir_paths().bytes());
}

#[test]
fn arenas_are_cloned_with_their_names() {
    let mut a = Arena::new();
    let (o, l) = a.push(b"hello");
    let b = a.clone();
    a.clear();
    assert_eq!(b.get(o, l), b"hello");
    assert!(a.is_empty());
}

#[test]
fn directory_paths_are_built_once_and_kept() {
    let mut idx = Index::new();
    idx.ensure_dir_path(b"/a/b");
    let first = idx.dir_paths();
    let second = idx.dir_paths();
    assert!(std::sync::Arc::ptr_eq(&first, &second));
    idx.warm();
    assert!(std::sync::Arc::ptr_eq(&first, &idx.dir_paths()));
    idx.ensure_dir_path(b"/a/c");
    let third = idx.dir_paths();
    assert!(!std::sync::Arc::ptr_eq(&first, &third));
    assert_eq!(third.len(), 4);
}
