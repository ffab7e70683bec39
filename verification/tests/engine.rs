use base64::engine::general_purpose::URL_SAFE_NO_PAD;
use base64::Engine;

use remote_cache::extension_of;
use remote_cache::Cache;
use remote_cache::CacheError;
use remote_cache::Registry;

#[test]
fn extension_from_content_type() {
    assert_eq!(extension_of("image/png"), "png");
    assert_eq!(extension_of("video/mp4"), "mp4");
    assert_eq!(extension_of("application/vnd.api+json"), "vnd.api+json");
    assert_eq!(extension_of("json"), "json");
    assert_eq!(extension_of("image/"), "");
    assert_eq!(extension_of(""), "");
    assert_eq!(extension_of("a/b/c"), "c");
}

#[test]
fn registry_insert_get_overwrite_clear() {
    let mut reg = Registry::new();
    let u1 = String::from("https://example.com/a.png");
    let u2 = String::from("https://example.com/b.png");
    assert_eq!(reg.get(&u1), None);
    assert_eq!(reg.snapshot_len(), 0);
    reg.insert(u1.clone(), String::from("/cache/a.png"));
    reg.insert(u2.clone(), String::from("/cache/b.png"));
    assert_eq!(reg.snapshot_len(), 2);
    assert_eq!(reg.get(&u1), Some(String::from("/cache/a.png")));
    assert_eq!(reg.get(&u2), Some(String::from("/cache/b.png")));
    reg.insert(u1.clone(), String::from("/cache/a2.png"));
    assert_eq!(reg.snapshot_len(), 2);
    assert_eq!(reg.get(&u1), Some(String::from("/cache/a2.png")));
    reg.clear();
    assert_eq!(reg.snapshot_len(), 0);
    assert_eq!(reg.get(&u1), None);
}

#[test]
fn response_path_is_root_token_extension() {
    let cache = Cache::new(String::from("/data/cache"));
    let url = String::from("https://example.com/a.png");
    let ct = Some(String::from("image/png"));
    let path = cache.on_response(&url, &ct).unwrap();
    let token = URL_SAFE_NO_PAD.encode(url.as_bytes());
    assert_eq!(path, format!("/data/cache/{}.png", token));
}

#[test]
fn missing_content_type_is_fatal_and_registers_nothing() {
    let cache = Cache::new(String::from("/data/cache"));
    let url = String::from("https://example.com/a.png");
    assert_eq!(cache.on_response(&url, &None), Err(CacheError::MissingContentType));
    // The operation never reaches the write step, so no store happens at all.
    assert_eq!(cache.lookup(&url), None);
    assert_eq!(cache.entry_count(), 0);
}

#[test]
fn transport_failure_falls_back_to_the_url() {
    let cache = Cache::new(String::from("/data/cache"));
    let url = String::from("https://unreachable.example/x.jpg");
    assert_eq!(cache.on_transport_failure(&url), Ok(url.clone()));
    assert_eq!(cache.lookup(&url), None);
    assert_eq!(cache.entry_count(), 0);
}

#[test]
fn failed_write_is_fatal_and_registers_nothing() {
    let mut cache = Cache::new(String::from("/data/cache"));
    let url = String::from("https://example.com/a.png");
    let ct = Some(String::from("image/png"));
    let path = cache.on_response(&url, &ct).unwrap();
    assert_eq!(cache.after_write(&url, path, false), Err(CacheError::Storage));
    assert_eq!(cache.lookup(&url), None);
    assert_eq!(cache.entry_count(), 0);
}

/// Drives one full `cached(url)` miss: fetch, classify, "write", register.
/// The fetch is mocked by handing the content type in and counting the call.
fn run_cached(
    cache: &mut Cache,
    url: &String,
    content_type: Option<&str>,
    fetch_count: &mut usize,
) -> Result<String, String> {
    if let Some(path) = cache.lookup(url) {
        return Ok(path);
    }
    *fetch_count += 1;
    let ct = content_type.map(String::from);
    if ct.is_none() {
        // A mocked transport failure: no response object at all.
        return Ok(cache.on_transport_failure(url).unwrap());
    }
    let path = match cache.on_response(url, &ct) {
        Ok(path) => path,
        Err(_) => return Err(String::from("missing content type")),
    };
    // The mocked write always succeeds here.
    match cache.after_write(url, path, true) {
        Ok(path) => Ok(path),
        Err(_) => Err(String::from("storage failure")),
    }
}

#[test]
fn cache_hit_is_idempotent_and_skips_the_fetch() {
    let mut cache = Cache::new(String::from("/data/cache"));
    let url = String::from("https://example.com/a.png");
    let mut fetches: usize = 0;
    let first = run_cached(&mut cache, &url, Some("image/png"), &mut fetches).unwrap();
    assert_eq!(fetches, 1);
    let second = run_cached(&mut cache, &url, Some("image/png"), &mut fetches).unwrap();
    assert_eq!(second, first);
    assert_eq!(fetches, 1, "a hit must not fetch again");
}

#[test]
fn reconciliation_registers_valid_stems_and_skips_the_rest() {
    let urls = [
        "https://example.com/a.png",
        "https://example.com/b.jpg",
        "https://exämple.com/\u{4e2d}.gif",
    ];
    let mut found: Vec<(String, String)> = Vec::new();
    for (i, url) in urls.iter().enumerate() {
        let stem = URL_SAFE_NO_PAD.encode(url.as_bytes());
        found.push((stem.clone(), format!("/data/cache/{}.x{}", stem, i)));
    }
    // Residue no instance of this system ever wrote: these must be skipped.
    found.push((String::from(".DS_Store"), String::from("/data/cache/.DS_Store")));
    found.push((String::from("zzz"), String::from("/data/cache/zzz.tmp")));
    let mut cache = Cache::new(String::from("/data/cache"));
    cache.reconcile(&found);
    assert_eq!(cache.entry_count(), urls.len());
    for (i, url) in urls.iter().enumerate() {
        let key = String::from(*url);
        let path = cache.lookup(&key);
        assert_eq!(path, Some(found[i].1.clone()));
    }
    assert_eq!(cache.lookup(&String::from(".DS_Store")), None);
}

#[test]
fn purge_clears_only_on_success() {
    let mut cache = Cache::new(String::from("/data/cache"));
    let url = String::from("https://example.com/a.png");
    let mut fetches: usize = 0;
    run_cached(&mut cache, &url, Some("image/png"), &mut fetches).unwrap();
    assert_eq!(cache.entry_count(), 1);
    cache.apply_purge(false);
    assert_eq!(cache.entry_count(), 1, "a failed removal must keep the registry");
    assert!(cache.lookup(&url).is_some());
    cache.apply_purge(true);
    assert_eq!(cache.entry_count(), 0);
    assert_eq!(cache.lookup(&url), None);
}

#[test]
fn scenario_fetch_hit_purge_refetch() {
    // Empty cache root; first access fetches and stores under a .png path.
    let mut cache = Cache::new(String::from("/data/cache"));
    let url = String::from("https://example.com/a.png");
    let mut fetches: usize = 0;
    let path = run_cached(&mut cache, &url, Some("image/png"), &mut fetches).unwrap();
    assert!(path.ends_with(".png"));
    assert_eq!(fetches, 1);
    // Second access: the identical path, with zero additional fetches.
    let again = run_cached(&mut cache, &url, Some("image/png"), &mut fetches).unwrap();
    assert_eq!(again, path);
    assert_eq!(fetches, 1);
    // Purge succeeds, the registry empties, and the next access fetches anew.
    cache.apply_purge(true);
    assert_eq!(cache.entry_count(), 0);
    let third = run_cached(&mut cache, &url, Some("image/png"), &mut fetches).unwrap();
    assert_eq!(third, path);
    assert_eq!(fetches, 2);
}
