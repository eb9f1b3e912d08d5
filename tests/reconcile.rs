use prism::diff;

fn strings(xs: &[&str]) -> Vec<String> {
    xs.iter().map(|x| x.to_string()).collect()
}

fn sorted(mut v: Vec<String>) -> Vec<String> {
    v.sort();
    v
}

#[test]
fn diff_downloads_missing_and_archives_orphans() {
    let d = diff(&strings(&["a", "b", "c"]), &strings(&["b", "d"]));
    assert_eq!(d.to_download, strings(&["a", "c"]));
    assert_eq!(d.to_archive, strings(&["d"]));
}

#[test]
fn diff_with_no_local_files_downloads_everything() {
    let d = diff(&strings(&["x", "y"]), &Vec::new());
    assert_eq!(d.to_download, strings(&["x", "y"]));
    assert!(d.to_archive.is_empty());
}

#[test]
fn diff_of_identical_sets_is_empty() {
    let d = diff(&strings(&["a", "b", "c"]), &strings(&["c", "a", "b"]));
    assert!(d.to_download.is_empty());
    assert!(d.to_archive.is_empty());
}

#[test]
fn diff_keeps_remote_order() {
    let d = diff(&strings(&["z", "m", "a", "q"]), &strings(&["m"]));
    assert_eq!(d.to_download, strings(&["z", "a", "q"]));
}

#[test]
fn diff_archives_each_orphan_once() {
    let d = diff(&strings(&["a"]), &strings(&["o", "a", "p", "o"]));
    assert!(d.to_download.is_empty());
    assert_eq!(sorted(d.to_archive), strings(&["o", "p"]));
}

#[test]
fn diff_with_no_remote_archives_everything() {
    let d = diff(&Vec::new(), &strings(&["a", "b"]));
    assert!(d.to_download.is_empty());
    assert_eq!(sorted(d.to_archive), strings(&["a", "b"]));
}

#[test]
fn diff_run_twice_gives_the_same() {
    let remote = strings(&["a", "b"]);
    let local = strings(&["b", "c"]);
    let first = diff(&remote, &local);
    let second = diff(&remote, &local);
    assert_eq!(first.to_download, second.to_download);
    assert_eq!(sorted(first.to_archive), sorted(second.to_archive));
}
