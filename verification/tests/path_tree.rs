use nectan::path::TreePath;
use nectan::path_tree::{CompressedPathTree, PathTree, TreeError};

fn path(text: &str) -> TreePath {
    TreePath::from_text(text)
}

fn text(path: &TreePath) -> String {
    String::from_utf8(path.to_bytes()).unwrap()
}

fn build(paths: &[&str]) -> PathTree {
    let entries: Vec<(TreePath, bool, u64)> = paths.iter().map(|p| (path(p), false, 0)).collect();
    PathTree::build(&entries)
}

fn children(tree: &PathTree, root: &str) -> Vec<String> {
    let mut kids: Vec<String> = tree.children_of(&path(root)).iter().map(|t| text(&t.0)).collect();
    kids.sort();
    kids
}

#[test]
fn tree_single_path() {
    let t = build(&["/a/b/c"]);
    assert_eq!(children(&t, "/a"), vec!["/a/b"]);
}

#[test]
fn tree_multi_children() {
    let t = build(&["/a/b", "/a/c", "/a/b/d"]);
    assert_eq!(children(&t, "/a"), vec!["/a/b", "/a/c"]);
}

#[test]
fn children_of_missing_root() {
    let t = build(&["/a/b"]);
    let kids = t.children_of(&path("/x/y"));
    assert!(kids.is_empty());
}

#[test]
fn children_of_leaf_returns_empty() {
    let t = build(&["/a/b"]);
    let kids = t.children_of(&path("/a/b"));
    assert!(kids.is_empty());
}

#[test]
fn roundtrip_compress_decompress() {
    let t = build(&["/a/b/c", "/a/b/d", "/a/e"]).compress();
    let restored = t.decompress().unwrap();
    assert_eq!(children(&restored, "/a/b"), vec!["/a/b/c", "/a/b/d"]);
}

#[test]
fn decompress_garbage_errs() {
    let bad = CompressedPathTree::from_bytes(vec![0u8, 1, 2, 3]);
    assert!(bad.decompress().is_err());
}

#[test]
fn common_parent() {
    let t = build(&["/a/b/c", "/a/b/d"]);
    assert_eq!(text(&t.common_parent()), "/a/b");
}

#[test]
fn common_parent_2() {
    let t = build(&["/a/b", "/x/y"]);
    assert_eq!(text(&t.common_parent()), "/");
}

#[test]
fn common_parent_3() {
    let t = build(&["/a/a/a/a", "/a/a/a/a"]);
    assert_eq!(text(&t.common_parent()), "/a/a/a/a");
}

#[test]
fn common_parent_4() {
    let t = build(&["/a/a/a/a", "/a/a/a/a/"]);
    assert_eq!(text(&t.common_parent()), "/a/a/a/a");
}

#[test]
fn merge_two_trees() {
    let t1 = build(&["/a/b/c"]);
    let t2 = build(&["/a/b/d", "/a/e"]);

    let merged = t1.merged(t2);

    assert_eq!(children(&merged, "/a"), vec!["/a/b", "/a/e"]);
    assert_eq!(children(&merged, "/a/b"), vec!["/a/b/c", "/a/b/d"]);
}

#[test]
fn merge_overlapping_paths_no_dup() {
    let t1 = build(&["/a/b"]);
    let t2 = build(&["/a/b"]);
    let merged = t1.merged(t2);
    assert_eq!(children(&merged, "/a"), vec!["/a/b"]);
}

#[test]
fn insert_tracks_file_size() {
    let mut t = PathTree::new();
    let mut next_id = 0u32;
    t.insert(&path("/a/b/c"), true, 1234, &mut next_id);
    let kids = t.children_of(&path("/a/b"));
    assert_eq!(kids.len(), 1);
    assert_eq!((text(&kids[0].0).as_str(), kids[0].1, kids[0].2), ("/a/b/c", true, 1234));
    assert_eq!(t.total_size(), 1234);
    assert_eq!(next_id, 4);
}

#[test]
fn ids_unique_and_deterministic() {
    let paths = ["/a/b/c", "/a/b/d", "/a/e"];
    let t1 = build(&paths);

    let mut reordered = paths;
    reordered.reverse();
    let t2 = build(&reordered);

    let mut ids1: Vec<u32> = t1.to_vec().iter().map(|(_, _, _, id)| *id).collect();
    let mut ids2: Vec<u32> = t2.to_vec().iter().map(|(_, _, _, id)| *id).collect();
    ids1.sort();
    ids2.sort();

    let unique: std::collections::HashSet<u32> = ids1.iter().cloned().collect();
    assert_eq!(unique.len(), ids1.len());

    assert_eq!(ids1, ids2);
    assert_eq!(ids1, vec![0, 1, 2, 3, 4, 5]);
}

#[test]
fn invalid_utf8() {
    let bad: Vec<u8> = vec![0x66, 0x6f, 0xff, 0x6f];
    let mut bad_path = b"/a/".to_vec();
    bad_path.extend_from_slice(&bad);
    let bad_path = TreePath::from_bytes(&bad_path);

    let t = PathTree::build(&[(bad_path.clone(), false, 0)]);

    assert!(String::from_utf8(bad_path.to_bytes()).is_err());

    let bytes = t.serialize();
    assert!(!bytes.is_empty());

    let compressed = t.compress();
    let restored = compressed.decompress().unwrap();

    let kids = restored.children_of(&path("/a"));
    assert_eq!(kids.len(), 1);
    let restored_path = &kids[0].0;

    assert!(!restored_path.same_as(&bad_path));

    let s = String::from_utf8(restored_path.to_bytes()).unwrap();
    assert!(s.contains('\u{FFFD}'));
}

#[test]
fn names_that_look_alike_once_replaced_are_one() {
    let one = TreePath::from_bytes(b"/a/\xff");
    let two = TreePath::from_bytes(b"/a/\xfe");
    let t = PathTree::build(&[(one, true, 1), (two, true, 2)]);
    assert_eq!(t.count(), 4);
    let restored = t.compress().decompress().unwrap();
    assert_eq!(restored.count(), 3);
}

#[test]
fn numbers_are_given_in_order() {
    let t = build(&["/x", "/a/b", "/a"]);
    let lines: Vec<(String, u32)> = t.to_vec().iter().map(|l| (text(&l.0), l.3)).collect();
    let expected: Vec<(String, u32)> =
        [("/", 0), ("/a", 1), ("/a/b", 2), ("/x", 3)].iter().map(|(p, i)| (p.to_string(), *i)).collect();
    assert_eq!(lines, expected);
    assert_eq!(t.id(), 0);
    assert_eq!(t.count(), 4);
}

#[test]
fn merging_keeps_the_first_and_numbers_anew() {
    let mut one = PathTree::new();
    let mut two = PathTree::new();
    let (mut a, mut b) = (0u32, 0u32);
    one.insert(&path("dir/file"), true, 10, &mut a);
    two.insert(&path("dir/file"), true, 20, &mut b);
    two.insert(&path("dir/other"), true, 5, &mut b);
    let merged = PathTree::merge_all(vec![one, two]);
    let lines: Vec<(String, bool, u64, u32)> =
        merged.to_vec().iter().map(|l| (text(&l.0), l.1, l.2, l.3)).collect();
    assert_eq!(
        lines,
        vec![
            ("dir".to_string(), false, 0, 0),
            ("dir/file".to_string(), true, 10, 1),
            ("dir/other".to_string(), true, 5, 2),
        ]
    );
    assert_eq!(merged.total_size(), 15);
}

#[test]
fn directories_have_no_size() {
    let mut t = PathTree::new();
    let mut next_id = 7u32;
    t.insert(&path("a"), false, 99, &mut next_id);
    t.insert(&path(""), true, 99, &mut next_id);
    assert_eq!(t.total_size(), 0);
    assert_eq!(t.to_vec()[0].3, 7);
    assert_eq!(next_id, 8);
}

#[test]
fn entries_beside_the_common_directory() {
    let t = build(&["/a/b/c", "/a/b/d"]);
    let listed: Vec<String> = t.get_depth_0().iter().map(|e| text(&e.0)).collect();
    assert_eq!(listed, vec!["/a/b"]);
    assert!(PathTree::default().get_depth_0().is_empty());
}

#[test]
fn walk_gives_each_entry_once() {
    let t = build(&["/a/b", "/c"]);
    let mut walk = t.into_iter();
    let mut seen = Vec::new();
    while let Some(line) = walk.next() {
        seen.push(text(&line.0));
    }
    assert_eq!(seen, vec!["/", "/a", "/a/b", "/c"]);
    assert!(walk.next().is_none());
}

#[test]
fn bytes_of_a_tree() {
    let mut t = PathTree::new();
    let mut next_id = 0u32;
    t.insert(&path("ab"), true, 300, &mut next_id);
    // One child, its name, then the child: no children, a file, its size and number;
    // then the top: no file, no size, number zero.
    assert_eq!(t.serialize(), vec![1, 2, b'a', b'b', 0, 1, 0xAC, 0x02, 0, 0, 0, 0]);
    type Leaf = (Vec<(String, ())>, bool, u64, u32);
    let leaf: Leaf = (Vec::new(), true, 300, 0);
    let whole = (vec![("ab".to_string(), leaf)], false, 0u64, 0u32);
    assert_eq!(t.serialize(), postcard::to_allocvec(&whole).unwrap());
}

#[test]
fn why_bytes_are_no_tree() {
    let bad = CompressedPathTree::from_bytes(vec![0u8, 1, 2, 3]);
    assert_eq!(bad.decompress().err(), Some(TreeError::Compression));
    let cut = CompressedPathTree::from_bytes(zstd::encode_all(&[1u8, 2, b'a'][..], 0).unwrap());
    assert_eq!(cut.decompress().err(), Some(TreeError::Encoding));
    assert!(cut.len() > 0);
    let more = CompressedPathTree::from_bytes(zstd::encode_all(&[0u8, 0, 0, 0, 9, 9][..], 0).unwrap());
    assert_eq!(more.decompress().unwrap().count(), 0);
}

#[test]
fn compressed_bytes_are_compressed() {
    let many: Vec<String> = (0..500).map(|i| format!("/data/some/long/directory/file{i}")).collect();
    let names: Vec<&str> = many.iter().map(|s| s.as_str()).collect();
    let t = build(&names);
    let compressed = t.compress();
    assert!(compressed.len() < t.serialize().len());
    assert_eq!(zstd::decode_all(compressed.as_bytes().as_slice()).unwrap(), t.serialize());
    let back = compressed.decompress().unwrap();
    let a: Vec<(Vec<u8>, u32)> = t.to_vec().iter().map(|l| (l.0.to_bytes(), l.3)).collect();
    let b: Vec<(Vec<u8>, u32)> = back.to_vec().iter().map(|l| (l.0.to_bytes(), l.3)).collect();
    assert_eq!(a, b);
}

#[test]
fn components_of_paths() {
    for p in ["", "/", "a", "./a", "a/./b", "a//b/", "/..", "../x", ".", "..", "/a/../b", "./.", "//", "a/."] {
        let ours: Vec<Vec<u8>> = {
            let t = path(p);
            (0..t.len()).map(|i| t.part(i).clone()).collect()
        };
        let theirs: Vec<Vec<u8>> = std::path::Path::new(p)
            .components()
            .map(|c| c.as_os_str().as_encoded_bytes().to_vec())
            .collect();
        assert_eq!(ours, theirs, "{p:?}");
    }
}

#[test]
fn paths_join_and_sort_like_paths() {
    let all = ["", "/", "a", "./a", "a/b", "/a", "/a/b", "..", "../a", ".", "a-b", "a/c", "b", "/a-b", "A"];
    for x in all {
        for y in all {
            let (p, q) = (std::path::Path::new(x), std::path::Path::new(y));
            let joined = path(x).join(&path(y));
            let std_joined = p.join(q);
            assert!(joined.same_as(&path(std_joined.to_str().unwrap())), "{x:?} {y:?}");
            assert_eq!(path(x).is_before(&path(y)), p <= q, "{x:?} {y:?}");
        }
        let mut popped = path(x);
        let mut std_popped = std::path::PathBuf::from(x);
        assert_eq!(popped.pop(), std_popped.pop(), "{x:?}");
        assert!(popped.same_as(&path(std_popped.to_str().unwrap())));
        let extended = std::path::Path::new(x).with_extension("json.tmp");
        assert!(path(x).with_extension("json.tmp").same_as(&path(extended.to_str().unwrap())), "{x:?}");
    }
}

#[test]
fn texts_of_paths_are_read_back() {
    for p in ["", "/", "a", "./a", "a/./b", "a//b/", "/..", "../x", ".", "/a/../b", "//a"] {
        let once = path(p);
        assert!(TreePath::from_bytes(&once.to_bytes()).same_as(&once), "{p:?}");
    }
}

#[test]
fn only_files_count_towards_the_size() {
    let mut one = PathTree::new();
    let mut two = PathTree::new();
    let (mut a, mut b) = (0u32, 0u32);
    one.insert(&path("x/y"), true, 3, &mut a);
    two.insert(&path("x"), false, 50, &mut b);
    two.insert(&path("z"), true, 4, &mut b);
    let merged = one.merged(two);
    assert!(merged.to_vec().iter().all(|l| l.1 || l.2 == 0));
    assert_eq!(merged.total_size(), 7);
}

#[test]
fn children_are_the_lines_below() {
    let t = build(&["/a/b/c", "/a/b/d", "/a/e", "x/y", "x"]);
    let lines: Vec<String> = t.to_vec().iter().map(|l| text(&l.0)).collect();
    for dir in ["/", "/a", "/a/b", "/a/b/c", "x", "nowhere"] {
        let mut expected: Vec<String> = lines
            .iter()
            .filter(|l| std::path::Path::new(l).parent() == Some(std::path::Path::new(dir)))
            .cloned()
            .collect();
        expected.sort();
        assert_eq!(children(&t, dir), expected, "{dir}");
    }
    for (i, line) in t.to_vec().iter().enumerate() {
        let parent = std::path::PathBuf::from(text(&line.0));
        let parent = parent.parent().map(|p| p.to_str().unwrap().to_string()).unwrap_or_default();
        if !parent.is_empty() {
            assert!(lines[..i].contains(&parent), "{parent}");
        }
    }
}

#[test]
fn numbers_of_directories_are_lower_after_a_merge() {
    let merged = build(&["/a/b/c", "/z"]).merged(build(&["/a/k", "/a/b/q/r"]));
    let lines: Vec<(String, u32)> = merged.to_vec().iter().map(|l| (text(&l.0), l.3)).collect();
    for (path, id) in &lines {
        let parent = std::path::Path::new(path).parent().map(|p| p.to_str().unwrap().to_string());
        for (other, other_id) in &lines {
            if Some(other) == parent.as_ref() {
                assert!(other_id < id);
            }
        }
    }
    assert_eq!(lines.iter().map(|l| l.1).collect::<Vec<u32>>(), (0..lines.len() as u32).collect::<Vec<u32>>());
}

#[test]
fn beside_the_common_directory_there_is_itself() {
    let single = build(&["/a/b/c"]);
    assert_eq!(text(&single.common_parent()), "/a/b/c");
    let listed: Vec<String> = single.get_depth_0().iter().map(|e| text(&e.0)).collect();
    assert_eq!(listed, vec!["/a/b/c"]);
    let two = build(&["/a", "/b"]);
    let listed: Vec<String> = two.get_depth_0().iter().map(|e| text(&e.0)).collect();
    assert_eq!(listed, vec!["/a", "/b"]);
    assert!(build(&["/"]).get_depth_0().is_empty());
}

#[test]
fn names_that_are_not_text_come_back_replaced() {
    let t = PathTree::build(&[
        (TreePath::from_bytes(b"/a/\xff"), true, 3),
        (TreePath::from_bytes(b"/a/ok"), true, 4),
    ]);
    let back = t.compress().decompress().unwrap();
    let before: Vec<(String, bool, u64, u32)> = t
        .to_vec()
        .iter()
        .map(|l| (String::from_utf8_lossy(&l.0.to_bytes()).into_owned(), l.1, l.2, l.3))
        .collect();
    let after: Vec<(String, bool, u64, u32)> =
        back.to_vec().iter().map(|l| (text(&l.0), l.1, l.2, l.3)).collect();
    assert_eq!(before, after);
}
