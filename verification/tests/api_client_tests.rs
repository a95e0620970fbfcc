use cr_data_collector::api_client::{
    battle_log_url, classify_failure, classify_status, encode_player_tag, FetchFailure,
    API_BASE_URL,
};
use cr_data_collector::config::Config;

#[test]
fn hash_mark_is_escaped() {
    assert_eq!(encode_player_tag("#RVCQ2CQGJ"), "%23RVCQ2CQGJ");
    assert_eq!(encode_player_tag("RVCQ2CQGJ"), "RVCQ2CQGJ");
    assert_eq!(encode_player_tag(""), "");
    assert_eq!(encode_player_tag("#"), "%23");
    assert_eq!(encode_player_tag("#A#B#"), "%23A%23B%23");
    assert_eq!(encode_player_tag("%23"), "%23");
    assert_eq!(encode_player_tag("#äö/?"), "%23äö/?");
}

#[test]
fn escaping_agrees_with_replace() {
    for tag in ["#RVCQ2CQGJ", "##", "a#b", "no mark", "ü#ü"] {
        assert_eq!(encode_player_tag(tag), tag.replace('#', "%23"));
    }
}

#[test]
fn url_of_a_battle_log() {
    assert_eq!(API_BASE_URL, "https://api.clashroyale.com/v1");
    assert_eq!(
        battle_log_url("#VCQUY9Y8U"),
        "https://api.clashroyale.com/v1/players/%23VCQUY9Y8U/battlelog"
    );
    assert_eq!(battle_log_url(""), "https://api.clashroyale.com/v1/players//battlelog");
}

#[test]
fn statuses_that_are_failures() {
    assert_eq!(classify_status(401), Some(FetchFailure::Unauthorized));
    assert_eq!(classify_status(403), Some(FetchFailure::Unauthorized));
    assert_eq!(classify_status(404), Some(FetchFailure::NotFound));
    assert_eq!(classify_status(429), Some(FetchFailure::RateLimited));
    assert_eq!(classify_status(400), Some(FetchFailure::Status(400)));
    assert_eq!(classify_status(499), Some(FetchFailure::Status(499)));
    assert_eq!(classify_status(500), Some(FetchFailure::Status(500)));
    assert_eq!(classify_status(503), Some(FetchFailure::Status(503)));
    assert_eq!(classify_status(599), Some(FetchFailure::Status(599)));
}

#[test]
fn statuses_that_are_no_failures() {
    for status in [0u16, 100, 200, 204, 301, 304, 399, 600, 999, u16::MAX] {
        assert_eq!(classify_status(status), None);
    }
}

#[test]
fn failure_of_a_failed_request() {
    assert_eq!(classify_failure(None), FetchFailure::Transport);
    assert_eq!(classify_failure(Some(200)), FetchFailure::Transport);
    assert_eq!(classify_failure(Some(404)), FetchFailure::NotFound);
    assert_eq!(classify_failure(Some(429)), FetchFailure::RateLimited);
    assert_eq!(classify_failure(Some(403)), FetchFailure::Unauthorized);
    assert_eq!(classify_failure(Some(502)), FetchFailure::Status(502));
}

#[test]
fn config_from_both_values() {
    let config = Config::from_env(Some("key".to_string()), Some("crawl.db".to_string()));
    assert_eq!(
        config,
        Config { api_key: "key".to_string(), database_url: "crawl.db".to_string() }
    );
}

#[test]
fn config_keeps_the_values_as_they_are() {
    let config = Config::from_env(Some(String::new()), Some(" a b ".to_string()));
    assert_eq!(config.api_key, "");
    assert_eq!(config.database_url, " a b ");
}
