use rust_graphql_sonic::items::{batch_full, last_word, like_pattern, tsquery, Item, MAX_PARAMS};
use rust_graphql_sonic::pub_sub::{results_channel, PubSub};
use rust_graphql_sonic::{BUCKET, COLLECTION};

#[test]
fn item_new_copies_its_texts() {
    let item = Item::new("2019-580:300", "some text");
    assert_eq!(item.id, "2019-580:300");
    assert_eq!(item.text, "some text");
}

#[test]
fn last_word_of_a_query() {
    assert_eq!(last_word("roger fed"), "fed");
    assert_eq!(last_word("  nadal  "), "nadal");
    assert_eq!(last_word(""), "");
    assert_eq!(last_word(" \t "), "");
}

#[test]
fn tsquery_joins_words_with_and() {
    assert_eq!(tsquery("  roger   federer "), "roger & federer");
    assert_eq!(tsquery("nadal"), "nadal");
    assert_eq!(tsquery(""), "");
}

#[test]
fn like_pattern_allows_anything_around_words() {
    assert_eq!(like_pattern("roger federer"), "%roger%federer%");
    assert_eq!(like_pattern(""), "%%");
    assert_eq!(like_pattern(" x "), "%x%");
}

#[test]
fn batches_fill_above_a_quarter_of_the_parameters() {
    assert_eq!(MAX_PARAMS, 65534);
    assert!(!batch_full(16383));
    assert!(batch_full(16384));
    assert!(!batch_full(0));
}

#[test]
fn search_index_names() {
    assert_eq!(COLLECTION, "search");
    assert_eq!(BUCKET, "default");
    assert_eq!(results_channel("sonic"), "results_sonic");
    assert_eq!(results_channel(""), "results_");
}

#[test]
fn subscribers_receive_published_messages() {
    let mut ps = PubSub::new();
    let (k1, mut rx1) = ps.subscribe("suggestions");
    let (k2, mut rx2) = ps.subscribe("suggestions");
    let (_k3, mut rx3) = ps.subscribe("results_sonic");
    assert_ne!(k1, k2);
    let mut handed = ps.publish("suggestions", vec!["a".to_string()]);
    handed.sort();
    let mut expected = vec![k1, k2];
    expected.sort();
    assert_eq!(handed, expected);
    assert_eq!(rx1.try_next().unwrap(), Some(vec!["a".to_string()]));
    assert_eq!(rx2.try_next().unwrap(), Some(vec!["a".to_string()]));
    assert!(rx3.try_next().is_err());
}

#[test]
fn unsubscribed_receivers_get_nothing_more() {
    let mut ps = PubSub::new();
    let (k1, mut rx1) = ps.subscribe("c");
    assert!(ps.unsubscribe("c", k1));
    assert!(!ps.unsubscribe("c", k1));
    assert!(ps.publish("c", vec![]).is_empty());
    assert!(rx1.try_next().is_err() || rx1.try_next().unwrap().is_none());
    let (k2, _rx2) = ps.subscribe("c");
    assert_eq!(ps.publish("c", vec![]), vec![k2]);
}

#[test]
fn publishing_to_a_new_channel_hands_to_nobody() {
    let mut ps = PubSub::new();
    assert!(ps.publish("nobody", vec!["x".to_string()]).is_empty());
    assert!(!ps.unsubscribe("nobody", 0));
}

#[test]
fn a_dropped_receiver_does_not_stop_publishing() {
    let mut ps = PubSub::new();
    let (_k1, rx1) = ps.subscribe("c");
    let (_k2, mut rx2) = ps.subscribe("c");
    drop(rx1);
    assert_eq!(ps.publish("c", vec!["m".to_string()]).len(), 2);
    assert_eq!(rx2.try_next().unwrap(), Some(vec!["m".to_string()]));
}

#[test]
fn messages_arrive_in_publish_order() {
    let mut ps = PubSub::new();
    let (_k, mut rx) = ps.subscribe("c");
    ps.publish("c", vec!["first".to_string()]);
    ps.publish("c", vec!["second".to_string(), "more".to_string()]);
    ps.publish("c", vec![]);
    assert_eq!(rx.try_next().unwrap(), Some(vec!["first".to_string()]));
    assert_eq!(rx.try_next().unwrap(), Some(vec!["second".to_string(), "more".to_string()]));
    assert_eq!(rx.try_next().unwrap(), Some(vec![]));
    assert!(rx.try_next().is_err());
}

#[test]
fn a_later_subscriber_gets_only_later_messages() {
    let mut ps = PubSub::new();
    let (_k1, mut rx1) = ps.subscribe("c");
    ps.publish("c", vec!["early".to_string()]);
    let (_k2, mut rx2) = ps.subscribe("c");
    assert!(rx2.try_next().is_err());
    ps.publish("c", vec!["late".to_string()]);
    assert_eq!(rx2.try_next().unwrap(), Some(vec!["late".to_string()]));
    assert!(rx2.try_next().is_err());
    assert_eq!(rx1.try_next().unwrap(), Some(vec!["early".to_string()]));
    assert_eq!(rx1.try_next().unwrap(), Some(vec!["late".to_string()]));
}

#[test]
fn unsubscribing_one_keeps_the_others() {
    let mut ps = PubSub::new();
    let (k1, _rx1) = ps.subscribe("c");
    let (k2, mut rx2) = ps.subscribe("c");
    let (k3, mut rx3) = ps.subscribe("d");
    assert!(ps.unsubscribe("c", k1));
    assert_eq!(ps.publish("c", vec!["m".to_string()]), vec![k2]);
    assert_eq!(rx2.try_next().unwrap(), Some(vec!["m".to_string()]));
    assert!(rx3.try_next().is_err());
    assert_eq!(ps.publish("d", vec![]), vec![k3]);
}
