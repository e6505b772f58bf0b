use std::path::Path;

use zed_workspace_dock::paths::{
    extension_of, file_name_of, file_stem_of, join_path, parent_of, path_is_absolute,
    path_is_simple, paths_equal,
};

fn samples() -> Vec<String> {
    let alphabet = ['a', '.', '/', 'b'];
    let mut all = vec![String::new()];
    let mut layer = vec![String::new()];
    for _ in 0..5 {
        let mut next = Vec::new();
        for s in &layer {
            for c in alphabet {
                let mut t = s.clone();
                t.push(c);
                next.push(t);
            }
        }
        all.extend(next.iter().cloned());
        layer = next;
    }
    all
}

fn name_of(p: &Path) -> Option<String> {
    p.file_name().map(|s| s.to_string_lossy().into_owned())
}

fn extension_std(p: &Path) -> Option<String> {
    p.extension().map(|s| s.to_string_lossy().into_owned())
}

fn stem_of(p: &Path) -> Option<String> {
    p.file_stem().map(|s| s.to_string_lossy().into_owned())
}

#[test]
fn path_model_agrees_with_std_on_small_paths() {
    for s in samples() {
        let p = Path::new(&s);
        assert_eq!(file_name_of(&s), name_of(p), "file_name of {s:?}");
        assert_eq!(extension_of(&s), extension_std(p), "extension of {s:?}");
        assert_eq!(file_stem_of(&s), stem_of(p), "file_stem of {s:?}");
        assert_eq!(
            parent_of(&s),
            p.parent().map(|q| q.to_string_lossy().into_owned()),
            "parent of {s:?}"
        );
        assert_eq!(path_is_absolute(&s), p.is_absolute(), "is_absolute of {s:?}");
        assert_eq!(
            path_is_simple(&s),
            !p.is_absolute() && p.components().count() == 1,
            "simple of {s:?}"
        );
    }
}

#[test]
fn join_and_equality_agree_with_std() {
    let small: Vec<String> = samples().into_iter().filter(|s| s.len() <= 3).collect();
    for a in &small {
        for b in &small {
            assert_eq!(
                join_path(a, b),
                Path::new(a).join(b).to_string_lossy().into_owned(),
                "join of {a:?} and {b:?}"
            );
            assert_eq!(paths_equal(a, b), Path::new(a) == Path::new(b), "equality of {a:?} and {b:?}");
        }
    }
}
