use path_tree::file_tree::{build_file_tree, file_extension, file_label};
use path_tree::time::format_time;
use path_tree::display_tree::{build_tree, do_build_tree, Node};
use path_tree::index_tree::{build_file_tree_index, do_build_file_tree_index, find_file_position, FileIdx};
use path_tree::record::File;
use path_tree::segments::{split_path, StringInterner};

fn file(length: u64, bytes_completed: u64, name: &str) -> File {
    File { length, bytes_completed, name: name.to_string() }
}

fn shape(nodes: &[Node]) -> String {
    let mut out = String::new();
    for n in nodes {
        out.push_str(&format!("{}|{}|{}|{}(", n.name, n.path, n.size, n.downloaded));
        out.push_str(&shape(&n.children));
        out.push(')');
    }
    out
}

fn idx_shape(nodes: &[FileIdx]) -> String {
    let mut out = String::new();
    for n in nodes {
        out.push_str(&format!("{}(", n.idx));
        out.push_str(&idx_shape(&n.children));
        out.push(')');
    }
    out
}

#[test]
fn split_keeps_empty_segments() {
    assert_eq!(split_path("a//b/"), vec!["a", "", "b", ""]);
    assert_eq!(split_path(""), vec![""]);
    assert_eq!(split_path("dir/file.txt"), vec!["dir", "file.txt"]);
}

#[test]
fn interning_gives_stable_distinct_ids() {
    let mut t = StringInterner::new();
    let a = t.intern("a");
    let b = t.intern("b");
    let a2 = t.intern("a");
    assert_eq!(a, 1);
    assert_eq!(b, 2);
    assert_eq!(a2, a);
    assert_ne!(a, b);
    assert_eq!(t.len(), 2);
    assert_eq!(t.resolve(a), Some("a".to_string()));
    assert_eq!(t.resolve(b), Some("b".to_string()));
    assert_eq!(t.resolve(0), None);
    assert_eq!(t.resolve(3), None);
}

#[test]
fn single_file_directory_collapses() {
    let tree = build_tree(&[file(10, 0, "a/x.txt")]);
    assert_eq!(tree.len(), 1);
    assert_eq!(tree[0].name, "a");
    assert_eq!(tree[0].path, "a");
    assert_eq!(tree[0].size, 10);
    assert!(tree[0].children.is_empty());
}

#[test]
fn two_file_directory_has_children() {
    let tree = build_tree(&[file(10, 1, "a/x.txt"), file(20, 2, "a/y.txt")]);
    assert_eq!(tree.len(), 1);
    assert_eq!(tree[0].name, "a");
    assert_eq!(tree[0].size, 30);
    assert_eq!(tree[0].downloaded, 3);
    assert_eq!(tree[0].children.len(), 2);
    assert_eq!(tree[0].children[0].name, "x.txt");
    assert_eq!(tree[0].children[0].path, "a/x.txt");
    assert_eq!(tree[0].children[0].size, 10);
    assert_eq!(tree[0].children[1].name, "y.txt");
    assert_eq!(tree[0].children[1].size, 20);
}

#[test]
fn root_sizes_add_up() {
    let files = [
        file(5, 1, "b/one"),
        file(7, 2, "a/two"),
        file(11, 3, "b/sub/three"),
        file(13, 4, "b/sub/four"),
        file(17, 5, "c"),
    ];
    let tree = build_tree(&files);
    let size: u64 = tree.iter().map(|n| n.size).sum();
    let downloaded: u64 = tree.iter().map(|n| n.downloaded).sum();
    assert_eq!(size, 53);
    assert_eq!(downloaded, 15);
    let b = &tree[1];
    assert_eq!(b.name, "b");
    assert_eq!(b.children.iter().map(|n| n.size).sum::<u64>(), b.size);
    assert_eq!(b.children[1].name, "sub");
    assert_eq!(b.children[1].path, "b/sub");
    assert_eq!(b.children[1].children[0].path, "b/sub/four");
}

#[test]
fn siblings_sorted_without_duplicates() {
    let files = [file(1, 0, "z/1"), file(1, 0, "b/1"), file(1, 0, "B/1"), file(1, 0, "b/2"), file(1, 0, "ab")];
    let tree = build_tree(&files);
    let names: Vec<&str> = tree.iter().map(|n| n.name.as_str()).collect();
    assert_eq!(names, vec!["B", "ab", "b", "z"]);
}

#[test]
fn build_ignores_input_order() {
    let one = [file(1, 1, "d/a"), file(2, 0, "d/b"), file(3, 3, "e"), file(4, 2, "d/c/x"), file(5, 0, "d/c/y")];
    let two = [file(5, 0, "d/c/y"), file(3, 3, "e"), file(2, 0, "d/b"), file(4, 2, "d/c/x"), file(1, 1, "d/a")];
    assert_eq!(shape(&build_tree(&one)), shape(&build_tree(&two)));
}

#[test]
fn do_build_tree_below_prefix() {
    let xs = vec![
        (3u64, 1u64, vec!["top".to_string(), "p".to_string()]),
        (4u64, 2u64, vec!["top".to_string(), "q".to_string()]),
        (9u64, 0u64, vec!["short".to_string()]),
    ];
    let tree = do_build_tree("root", 1, xs);
    assert_eq!(shape(&tree), "p|root/p|3|1()q|root/q|4|2()");
}

#[test]
fn index_tree_resolves_leaves() {
    let files = [file(1, 0, "d/b"), file(1, 0, "e"), file(1, 0, "d/a"), file(1, 0, "d/c/x"), file(1, 0, "d/c/y")];
    let index = build_file_tree_index(&files);
    // ids: d=1 b=2 e=3 a=4 c=5 x=6 y=7
    assert_eq!(idx_shape(&index), "0(0()2()3(3()4()))1()");
    assert_eq!(find_file_position(&[0, 0], &index), Some(0));
    assert_eq!(find_file_position(&[0, 1], &index), Some(2));
    assert_eq!(find_file_position(&[0, 2, 0], &index), Some(3));
    assert_eq!(find_file_position(&[0, 2, 1], &index), Some(4));
    assert_eq!(find_file_position(&[1], &index), Some(1));
}

#[test]
fn resolve_out_of_range_is_none() {
    let files = [file(1, 0, "d/b"), file(1, 0, "d/a"), file(1, 0, "e")];
    let index = build_file_tree_index(&files);
    assert_eq!(find_file_position(&[], &index), None);
    assert_eq!(find_file_position(&[0], &[]), None);
    assert_eq!(find_file_position(&[2], &index), None);
    assert_eq!(find_file_position(&[0, 2], &index), None);
    assert_eq!(find_file_position(&[1, 0], &index), None);
    assert_eq!(find_file_position(&[0, 0, 0], &index), None);
}

#[test]
fn index_node_keeps_first_entry() {
    let xs = vec![(7usize, vec![2u64, 5]), (3usize, vec![1u64]), (9usize, vec![2u64, 4])];
    let index = do_build_file_tree_index(0, xs);
    assert_eq!(idx_shape(&index), "3()7(9()7())");
}

#[test]
fn file_tree_uses_ids_and_names() {
    let files = [file(3, 1, "d/b"), file(4, 0, "e.txt"), file(5, 2, "d/a")];
    let items = build_file_tree(&files);
    // ids: d=1 b=2 e.txt=3 a=4
    assert_eq!(items.len(), 2);
    assert_eq!(items[0].identifier, 1);
    assert_eq!(items[0].name, "d");
    assert_eq!(items[0].size, 8);
    assert_eq!(items[0].children.len(), 2);
    assert_eq!(items[0].children[0].identifier, 2);
    assert_eq!(items[0].children[0].name, "b");
    assert_eq!(items[0].children[1].identifier, 4);
    assert_eq!(items[0].children[1].name, "a");
    assert_eq!(items[1].identifier, 3);
    assert_eq!(items[1].name, "e.txt");
    assert_eq!(items[1].size, 4);
    let index = build_file_tree_index(&files);
    assert_eq!(index.len(), items.len());
    assert_eq!(index[0].children.len(), items[0].children.len());
    assert_eq!(find_file_position(&[0, 1], &index), Some(2));
}

#[test]
fn extensions_and_labels() {
    assert_eq!(file_extension("movie.tar.gz"), Some("gz".to_string()));
    assert_eq!(file_extension("README"), None);
    assert_eq!(file_extension("dot."), Some(String::new()));
    assert_eq!(file_label(Some("*"), "a.txt", "1.0K"), "* a.txt - 1.0K");
    assert_eq!(file_label(None, "a.txt", ""), "a.txt - ");
}

#[test]
fn timestamps_render_in_utc() {
    assert_eq!(format_time(0), Some("1970-01-01 00:00:00".to_string()));
    assert_eq!(format_time(1_000_000_000), Some("2001-09-09 01:46:40".to_string()));
    assert_eq!(format_time(u64::MAX), None);
}

#[test]
fn empty_and_extreme_inputs() {
    assert!(build_tree(&[]).is_empty());
    assert!(build_file_tree_index(&[]).is_empty());
    assert!(build_file_tree(&[]).is_empty());
    let big = build_tree(&[file(u64::MAX - 1, u64::MAX, "x/a"), file(1, 0, "x/b")]);
    assert_eq!(big[0].size, u64::MAX);
    assert_eq!(big[0].downloaded, u64::MAX);
    let same = build_tree(&[file(2, 1, "x/a"), file(3, 1, "x/a")]);
    assert_eq!(same[0].size, 5);
    assert_eq!(same[0].children.len(), 1);
    assert_eq!(same[0].children[0].size, 5);
    assert!(same[0].children[0].children.is_empty());
}
