use overlay_music::path::{
    clean_path, extension_of, file_name_of, file_stem_of, join_paths, parent_of, path_below, set_extension,
    strip_base,
};
use std::path::{Path, PathBuf};

const PATHS: [&str; 26] = [
    "", "/", ".", "..", "a", "a/", "a//", "a/.", "a/./b", "a/..", "./a", "/a", "/a/b.c", "a/b.c.d",
    ".hidden", "a/.hidden", "a.", "a/b.", "..a", "a..", "/.", "./.", "x/y/z.tar.gz", "ä/ö.ü", "...", "a.b/",
];

fn text(p: Option<&Path>) -> Option<String> {
    p.map(|p| p.to_string_lossy().into_owned())
}

#[test]
fn names_are_those_of_the_standard_library() {
    for p in PATHS {
        let std_path = Path::new(p);
        let name = std_path.file_name().map(|s| s.to_string_lossy().into_owned());
        let stem = std_path.file_stem().map(|s| s.to_string_lossy().into_owned());
        let extension = std_path.extension().map(|s| s.to_string_lossy().into_owned());
        assert_eq!(file_name_of(p), name, "file_name {p:?}");
        assert_eq!(file_stem_of(p), stem, "file_stem {p:?}");
        assert_eq!(extension_of(p), extension, "extension {p:?}");
        assert_eq!(parent_of(p), text(std_path.parent()), "parent {p:?}");
    }
}

#[test]
fn new_extensions_are_those_of_the_standard_library() {
    for p in PATHS {
        for e in ["wav", "", "filter.txt"] {
            let mut expected = PathBuf::from(p);
            expected.set_extension(e);
            assert_eq!(set_extension(p, e), expected.to_string_lossy(), "{p:?} {e:?}");
        }
    }
}

#[test]
fn joining_and_stripping_are_those_of_the_standard_library() {
    for a in PATHS {
        for b in PATHS {
            let joined = Path::new(a).join(b).to_string_lossy().into_owned();
            assert_eq!(join_paths(a, b), joined, "{a:?} {b:?}");
            let stripped = text(Path::new(&joined).strip_prefix(a).ok());
            assert_eq!(strip_base(&joined, a), stripped, "{joined:?} {a:?}");
            assert_eq!(strip_base(a, b), text(Path::new(a).strip_prefix(b).ok()), "{a:?} {b:?}");
        }
    }
}

#[test]
fn what_is_not_below_stays_itself() {
    assert_eq!(path_below("/data/a.mp3", "/other"), "/data/a.mp3");
    assert_eq!(path_below("/data/x/a.mp3", "/data"), "x/a.mp3");
    assert_eq!(path_below("./music/ambient/t.mp3", "./music/"), "ambient/t.mp3");
    assert_eq!(path_below("music2/t.mp3", "music"), "music2/t.mp3");
}

#[test]
fn a_tree_is_preserved() {
    for dir in ["in", "./in", "/", "/data/in/", ".", "a/./b"] {
        for rel in ["x.png", "sub/x.png", "a/b/c.jpg"] {
            let source = join_paths(dir, rel);
            assert_eq!(path_below(&source, dir), rel);
            assert_eq!(join_paths("out", &path_below(&source, dir)), format!("out/{rel}"));
        }
    }
}

#[test]
fn cleaning_keeps_the_components() {
    for p in PATHS {
        let clean = clean_path(p);
        let parts = |p: &str| -> Vec<String> {
            Path::new(p)
                .components()
                .filter(|c| !matches!(c, std::path::Component::CurDir))
                .map(|c| c.as_os_str().to_string_lossy().into_owned())
                .collect()
        };
        assert_eq!(parts(&clean), parts(p), "{p:?}");
        assert_eq!(clean_path(&clean), clean, "{p:?}");
    }
    assert_eq!(clean_path("//a/./b//c/."), "/a/b/c");
    assert_eq!(clean_path("./a/../b/"), "a/../b");
}
