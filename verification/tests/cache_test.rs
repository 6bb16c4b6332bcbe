use std::collections::BTreeSet;

use rusttimeanddatedotcomparser::cache::{cache_invalid, urls_from};
use rusttimeanddatedotcomparser::string_map::StringMap;
use rusttimeanddatedotcomparser::time_and_date_data::TimeData;

const TTL_SECONDS: i64 = 8 * 60 * 60;

fn entry(last_updated: String) -> TimeData {
    let mut td = TimeData::default();
    td.last_updated = last_updated;
    td
}

#[test]
fn cache_invalid_test() {
    //No cache, no urls...
    let data = &mut StringMap::new();
    let urls = &mut StringMap::new();

    assert_eq!(cache_invalid(data, urls, TTL_SECONDS), true);

    //1 cache; 0 urls: unequal count...
    data.insert(String::from("Key1"), entry(chrono::Utc::now().to_rfc3339()));
    assert_eq!(cache_invalid(data, urls, TTL_SECONDS), true);

    //1 cache; 1 urls: equal count, but url-key not found in cache...
    urls.insert(String::from("Key2"), String::from("Url1"));
    assert_eq!(cache_invalid(data, urls, TTL_SECONDS), true);

    //1 cache; 2 urls: unequal count, but url-key IS found in cache...
    urls.insert(String::from("Key1"), String::from("Url1"));
    assert_eq!(cache_invalid(data, urls, TTL_SECONDS), true);

    //2 cache; 2 urls: equal count, AND url-keys ARE all found in cache...
    data.insert(String::from("Key2"), entry(chrono::Utc::now().to_rfc3339()));
    assert_eq!(cache_invalid(data, urls, TTL_SECONDS), false);

    //3 cache; 2 urls: unequal count, AND url-keys ARE all found in cache...
    data.insert(String::from("Key3"), entry(chrono::Utc::now().to_rfc3339()));
    assert_eq!(cache_invalid(data, urls, TTL_SECONDS), true);

    //3 cache; 3 urls: equal count, AND url-keys ARE all found in cache...
    urls.insert(String::from("Key3"), String::from("Url1"));
    assert_eq!(cache_invalid(data, urls, TTL_SECONDS), false);

    //Invalidate cache by making the last_updated field in a cached item older than 480 minutes ago
    data.insert(
        String::from("Key3"),
        entry((chrono::Utc::now() - chrono::Duration::minutes(8 * 60 + 1)).to_rfc3339()),
    );
    assert_eq!(cache_invalid(data, urls, TTL_SECONDS), true);

    //Validate cache by making the last_updated field in a cached item one second less than 480 minutes ago
    data.insert(
        String::from("Key3"),
        entry(
            (chrono::Utc::now() - chrono::Duration::minutes(8 * 60) + chrono::Duration::seconds(1))
                .to_rfc3339(),
        ),
    );
    assert_eq!(cache_invalid(data, urls, TTL_SECONDS), false);
}

fn formatted(map: &StringMap<String>) -> String {
    map.entries()
        .iter()
        .map(|(k, v)| format!("{}={}|", k, v))
        .collect::<BTreeSet<String>>()
        .iter()
        .map(|s| s.as_str())
        .collect::<String>()
}

#[test]
fn urls_from_test() {
    let text = "Afrika=A\n\
                Asia=A\n\
                Australasia=A\n\
                Europa=E\n\
                North Americas=N\n\
                Popular Cities=P\n\
                South Americas=S\n";
    assert_eq!(
        formatted(&urls_from(text)),
        "Afrika=A|Asia=A|Australasia=A|Europa=E|North Americas=N|Popular Cities=P|South Americas=S|"
            .to_string()
    );
}

#[test]
fn some_urls_commented_out_test() {
    let text = "Afrika=A\n\
                Asia=A\n\
                # Australasia=A\n\
                Europa=E\n\
                \n\
                North Americas=N\n\
                // Popular Cities=P\n\
                South Americas=S\n";
    assert_eq!(
        formatted(&urls_from(text)),
        "Afrika=A|Asia=A|Europa=E|North Americas=N|South Americas=S|".to_string()
    );
}
