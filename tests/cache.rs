use std::sync::{Arc, RwLock};
use std::time::Duration;

use futures::StreamExt;
use stream_cache::StreamCache;
use tokio::sync::Notify;

fn pair(city: &str, temperature: u64) -> (String, u64) {
    (city.to_string(), temperature)
}

#[test]
fn works() {
    let rt = tokio::runtime::Runtime::new().unwrap();
    rt.block_on(async {
        let cache = Arc::new(RwLock::new(StreamCache::new()));
        let signal = Arc::new(Notify::new());

        // The fetch is slow: it completes only after the stream has started.
        let fetch_cache = cache.clone();
        let fetch_signal = signal.clone();
        tokio::spawn(async move {
            fetch_signal.notified().await;
            fetch_cache.write().unwrap().apply_fetch(Ok(vec![pair("Berlin", 29), pair("Paris", 31)]));
        });

        let stream_cache = cache.clone();
        let stream_signal = signal.clone();
        tokio::spawn(async move {
            stream_signal.notify_one();
            let mut updates = futures::stream::iter(vec![
                Ok(pair("London", 27)),
                Ok(pair("Paris", 32)),
                Ok(pair("Riga", 20)),
                Ok(pair("Riga", 19)),
            ]);
            while let Some(update) = updates.next().await {
                stream_cache.write().unwrap().apply_update(update);
            }
        });

        // Allow cache to update
        tokio::time::sleep(Duration::from_millis(100)).await;

        assert_eq!(cache.read().unwrap().get("Berlin"), Some(29));
        assert_eq!(cache.read().unwrap().get("London"), Some(27));
        assert_eq!(cache.read().unwrap().get("Paris"), Some(32));
        assert_eq!(cache.read().unwrap().get("Riga"), Some(19));
        assert_eq!(cache.read().unwrap().get("Tallin"), None);
    });
}

#[test]
fn fresh_cache_is_empty() {
    let cache = StreamCache::new();
    assert_eq!(cache.get("Berlin"), None);
    assert_eq!(cache.get(""), None);
}

#[test]
fn snapshot_fills_absent_keys() {
    let mut cache = StreamCache::new();
    assert_eq!(cache.apply_fetch(Ok(vec![pair("Berlin", 29), pair("Paris", 31)])), None);
    assert_eq!(cache.get("Berlin"), Some(29));
    assert_eq!(cache.get("Paris"), Some(31));
    assert_eq!(cache.get("paris"), None);
}

#[test]
fn snapshot_after_stream_keeps_stream_value() {
    let mut cache = StreamCache::new();
    cache.apply_update(Ok(pair("Paris", 32)));
    cache.apply_snapshot(vec![pair("Berlin", 29), pair("Paris", 31)]);
    assert_eq!(cache.get("Paris"), Some(32));
    assert_eq!(cache.get("Berlin"), Some(29));
}

#[test]
fn stream_after_snapshot_overwrites() {
    let mut cache = StreamCache::new();
    cache.apply_snapshot(vec![pair("Paris", 31)]);
    cache.apply_update(Ok(pair("Paris", 32)));
    assert_eq!(cache.get("Paris"), Some(32));
}

#[test]
fn last_stream_value_wins() {
    let mut cache = StreamCache::new();
    cache.apply_update(Ok(pair("Riga", 20)));
    cache.apply_update(Ok(pair("Riga", 19)));
    assert_eq!(cache.get("Riga"), Some(19));
    cache.overwrite("Riga".to_string(), 20);
    assert_eq!(cache.get("Riga"), Some(20));
}

#[test]
fn failed_fetch_keeps_stream_keys() {
    let mut cache = StreamCache::new();
    cache.apply_update(Ok(pair("London", 27)));
    let reported = cache.apply_fetch(Err("unreachable".to_string()));
    assert_eq!(reported, Some("unreachable".to_string()));
    assert_eq!(cache.get("London"), Some(27));
    assert_eq!(cache.get("Berlin"), None);
}

#[test]
fn failed_element_does_not_stop_stream() {
    let mut cache = StreamCache::new();
    assert_eq!(cache.apply_update(Ok(pair("Riga", 20))), None);
    assert_eq!(cache.apply_update(Err("bad frame".to_string())), Some("bad frame".to_string()));
    assert_eq!(cache.get("Riga"), Some(20));
    assert_eq!(cache.apply_update(Ok(pair("Riga", 19))), None);
    assert_eq!(cache.get("Riga"), Some(19));
}

#[test]
fn insert_if_absent_keeps_first_value() {
    let mut cache = StreamCache::new();
    cache.insert_if_absent("Berlin".to_string(), 29);
    cache.insert_if_absent("Berlin".to_string(), 30);
    assert_eq!(cache.get("Berlin"), Some(29));
}

#[test]
fn snapshot_with_repeated_key_keeps_first_pair() {
    let mut cache = StreamCache::new();
    cache.apply_snapshot(vec![pair("Oslo", 3), pair("Oslo", 4)]);
    assert_eq!(cache.get("Oslo"), Some(3));
}

#[test]
fn empty_key_and_largest_value() {
    let mut cache = StreamCache::new();
    cache.apply_update(Ok(pair("", u64::MAX)));
    assert_eq!(cache.get(""), Some(u64::MAX));
    assert_eq!(cache.get(" "), None);
}

#[test]
fn concurrent_reads_see_only_written_values() {
    let rt = tokio::runtime::Runtime::new().unwrap();
    rt.block_on(async {
        let cache = Arc::new(RwLock::new(StreamCache::new()));
        let writer_cache = cache.clone();
        let writer = tokio::spawn(async move {
            for round in 0..200u64 {
                writer_cache.write().unwrap().apply_update(Ok(pair("Riga", 1000 + round)));
                tokio::task::yield_now().await;
            }
        });
        let snapshot_cache = cache.clone();
        let loader = tokio::spawn(async move {
            snapshot_cache.write().unwrap().apply_fetch(Ok(vec![pair("Riga", 5), pair("Oslo", 7)]));
        });
        for _ in 0..200 {
            let read = cache.read().unwrap().get("Riga");
            match read {
                None => {}
                Some(v) => assert!(v == 5 || (1000..1200).contains(&v)),
            }
            tokio::task::yield_now().await;
        }
        writer.await.unwrap();
        loader.await.unwrap();
        assert_eq!(cache.read().unwrap().get("Riga"), Some(1199));
        assert_eq!(cache.read().unwrap().get("Oslo"), Some(7));
    });
}
