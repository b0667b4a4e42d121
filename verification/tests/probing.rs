use overlay_music::cache::{
    cache_key, duration_probe_args, get_duration, lookup_duration, CacheEntry, DurationCache, Lookup,
};
use overlay_music::chapters::{chapter_probe_args, get_chapters};
use overlay_music::json::{parse_bytes, parse_text, Json};

fn format_with(duration: &str) -> Option<Vec<u8>> {
    Some(format!(r#"{{"format": {{"filename": "x", "duration": {duration}}}}}"#).into_bytes())
}

#[test]
fn probing_asks_for_json() {
    assert_eq!(
        duration_probe_args("a b.mp3"),
        ["-v", "quiet", "-print_format", "json", "-show_format", "a b.mp3"]
    );
    assert_eq!(
        chapter_probe_args("x.m4b"),
        ["-v", "quiet", "-print_format", "json", "-show_chapters", "x.m4b"]
    );
}

#[test]
fn documents_are_read() {
    let j = parse_text(r#"{"a": {"b": "c"}, "n": 1.5, "t": true, "z": null}"#).unwrap();
    assert_eq!(j.get("a").unwrap().text_at("b"), Some("c".to_string()));
    assert_eq!(j.text_at("n"), None);
    assert!(j.get("missing").is_none());
    assert!(matches!(parse_text("1e2"), Some(Json::Number(n)) if n == "100.0"));
    assert!(matches!(parse_text("12"), Some(Json::Number(n)) if n == "12"));
    assert!(parse_text("{").is_none());
    assert!(parse_bytes(&b"[1, 2]".to_vec()).unwrap().get("a").is_none());
    assert!(parse_bytes(&b"\xff".to_vec()).is_none());
}

#[test]
fn durations_are_probed_and_kept() {
    let mut cache = DurationCache::new();
    assert!(matches!(lookup_duration(&cache, "/a", None), Lookup::Unreadable));
    assert!(matches!(
        lookup_duration(&cache, "/a", Some((7, 9))),
        Lookup::Probe { modified: 7, size: 9 }
    ));
    let d = get_duration(&mut cache, "/a", 7, 9, &format_with("\"12.345678\""));
    assert_eq!(d, Some(12_345_678));
    assert!(matches!(lookup_duration(&cache, "/a", Some((7, 9))), Lookup::Cached(12_345_678)));
    assert!(matches!(lookup_duration(&cache, "/a", Some((8, 9))), Lookup::Probe { .. }));
    assert!(matches!(lookup_duration(&cache, "/a", Some((7, 10))), Lookup::Probe { .. }));
    assert!(matches!(lookup_duration(&cache, "/b", Some((7, 9))), Lookup::Probe { .. }));
}

#[test]
fn a_new_duration_replaces_the_old() {
    let mut cache = DurationCache::new();
    get_duration(&mut cache, "/a", 1, 1, &format_with("\"1\""));
    get_duration(&mut cache, "/b", 1, 1, &format_with("\"2\""));
    get_duration(&mut cache, "/a", 2, 2, &format_with("\"3\""));
    assert_eq!(cache.get("/a").unwrap().duration, 3_000_000);
    assert_eq!(cache.get("/b").unwrap().duration, 2_000_000);
    assert_eq!(cache.entries().len(), 2);
}

#[test]
fn failed_probes_leave_the_cache_alone() {
    let mut cache = DurationCache::new();
    for out in [
        None,
        Some(b"".to_vec()),
        Some(b"{}".to_vec()),
        Some(b"{\"format\": {}}".to_vec()),
        format_with("12.5"),
        format_with("\"N/A\""),
    ] {
        assert_eq!(get_duration(&mut cache, "/a", 1, 1, &out), None);
    }
    assert!(cache.get("/a").is_none());
}

#[test]
fn caches_are_rebuilt_from_their_entries() {
    let e = CacheEntry { duration: 5, modified: 6, size: 7 };
    let cache = DurationCache::from_entries(vec![("/x".to_string(), e)]);
    assert_eq!(cache.get("/x").unwrap().duration, 5);
    assert_eq!(cache.entries()[0].0, "/x");
}

#[test]
fn files_are_known_by_absolute_path() {
    assert_eq!(cache_key("/work", "music/a.mp3"), "/work/music/a.mp3");
    assert_eq!(cache_key("/work", "/music/a.mp3"), "/music/a.mp3");
}

#[test]
fn spellings_of_a_path_share_a_key() {
    for dir in ["/work", "/work/", "/work/."] {
        for file in ["a/x.mp3", "./a/x.mp3", "a//x.mp3", "a/./x.mp3", "/work/a/x.mp3", "/work//./a/x.mp3"] {
            assert_eq!(cache_key(dir, file), "/work/a/x.mp3", "{dir} {file}");
        }
    }
    assert_eq!(cache_key("/work", "../a"), "/work/../a");
    assert_eq!(cache_key("/", "./"), "/");
    assert_ne!(cache_key("/work", "a/x"), cache_key("/work", "ax"));
    let e = CacheEntry { duration: 5, modified: 6, size: 7 };
    let cache = DurationCache::from_entries(vec![(cache_key("/work", "./music/a.mp3"), e)]);
    let key = cache_key("/work", "music/a.mp3");
    assert!(matches!(lookup_duration(&cache, &key, Some((6, 7))), Lookup::Cached(5)));
}

#[test]
fn chapters_are_read() {
    let out = br#"{"chapters": [
        {"start_time": "0.000000", "end_time": "61.5", "tags": {"title": "Intro"}},
        {"start_time": "61.5", "end_time": "120"},
        {"start_time": "bad", "end_time": "130"},
        {"start_time": 120, "end_time": "140"},
        {"start_time": "140", "end_time": "150", "tags": {"title": 5}}
    ]}"#
    .to_vec();
    let c = get_chapters(&Some(out));
    let shown: Vec<(String, i64, i64)> = c.iter().map(|c| (c.title.clone(), c.start, c.end)).collect();
    assert_eq!(
        shown,
        [
            ("Intro".to_string(), 0, 61_500_000),
            ("Chapter 02".to_string(), 61_500_000, 120_000_000),
            ("Chapter 05".to_string(), 140_000_000, 150_000_000),
        ]
    );
}

#[test]
fn files_without_chapters() {
    for out in [None, Some(b"{}".to_vec()), Some(b"x".to_vec()), Some(b"{\"chapters\": 3}".to_vec())] {
        assert!(get_chapters(&out).is_empty());
    }
}
