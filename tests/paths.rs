use vidcompress::path::{display_label, get_output_filename, get_task_name, PathError};

#[test]
fn output_beside_bare_file_name() {
    assert_eq!(get_output_filename("clip.mov", "mp4").unwrap(), "clip_compressed.mp4");
}

#[test]
fn output_keeps_directory() {
    assert_eq!(
        get_output_filename("videos/2020/clip.mov", "mp4").unwrap(),
        "videos/2020/clip_compressed.mp4"
    );
    assert_eq!(get_output_filename("/abs/clip.avi", "webm").unwrap(), "/abs/clip_compressed.webm");
}

#[test]
fn output_strips_only_last_extension() {
    assert_eq!(get_output_filename("a/x.tar.gz", "mp4").unwrap(), "a/x.tar_compressed.mp4");
}

#[test]
fn output_for_name_without_extension() {
    assert_eq!(get_output_filename("movie", "mkv").unwrap(), "movie_compressed.mkv");
    assert_eq!(get_output_filename("d/.hidden", "mp4").unwrap(), "d/.hidden_compressed.mp4");
}

#[test]
fn output_refuses_paths_without_stem() {
    for p in ["", "/", "dir/", ".", "..", "a/..", "a/."] {
        assert_eq!(get_output_filename(p, "mp4"), Err(PathError::InvalidPath), "{}", p);
    }
}

#[test]
fn output_is_deterministic_and_resolvable_again() {
    let once = get_output_filename("dir/clip.mov", "mp4").unwrap();
    let again = get_output_filename("dir/clip.mov", "mp4").unwrap();
    assert_eq!(once, again);
    let twice = get_output_filename(&once, "mp4").unwrap();
    assert_eq!(twice, "dir/clip_compressed_compressed.mp4");
}

#[test]
fn task_name_shows_input_and_output() {
    assert_eq!(get_task_name("in/a.mov", "mp4").unwrap(), "in/a.mov -> in/a_compressed.mp4");
    assert_eq!(get_task_name("in/", "mp4"), Err(PathError::InvalidPath));
}

#[test]
fn display_label_falls_back_to_input() {
    assert_eq!(display_label("a.mov", "mp4"), "a.mov -> a_compressed.mp4");
    assert_eq!(display_label("dir/", "mp4"), "dir/");
}
