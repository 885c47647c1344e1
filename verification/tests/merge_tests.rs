use discord_guild_crawler::entry::Entry;
use discord_guild_crawler::merge::merge;

fn entry(id: &str, observed_at: u64, payload: &[u8]) -> Entry {
    Entry::new(id.as_bytes().to_vec(), observed_at, payload.to_vec())
}

#[test]
fn merge_keeps_fresher_of_duplicate_id() {
    let prior = vec![entry("abc", 10, b"old")];
    let fresh = vec![entry("abc", 20, b"new")];
    let out = merge(prior, fresh);
    assert_eq!(out.len(), 1);
    assert_eq!(out[0].id, b"abc".to_vec());
    assert_eq!(out[0].observed_at, 20);
    assert_eq!(out[0].payload, b"new".to_vec());
}

#[test]
fn merge_keeps_fresher_prior_over_stale_fresh() {
    let prior = vec![entry("abc", 30, b"old")];
    let fresh = vec![entry("abc", 20, b"new")];
    let out = merge(prior, fresh);
    assert_eq!(out.len(), 1);
    assert_eq!(out[0].observed_at, 30);
    assert_eq!(out[0].payload, b"old".to_vec());
}

#[test]
fn merge_with_nothing_only_reorders_by_id() {
    let prior = vec![entry("bb", 5, b"2"), entry("aa", 7, b"1"), entry("cc", 3, b"3")];
    let out = merge(prior, Vec::new());
    assert_eq!(out.len(), 3);
    assert_eq!(out[0].id, b"aa".to_vec());
    assert_eq!(out[0].observed_at, 7);
    assert_eq!(out[1].id, b"bb".to_vec());
    assert_eq!(out[1].observed_at, 5);
    assert_eq!(out[2].id, b"cc".to_vec());
    assert_eq!(out[2].observed_at, 3);
}

#[test]
fn merge_of_sorted_catalog_with_nothing_is_identity() {
    let prior = vec![entry("aa", 1, b"1"), entry("bb", 2, b"2")];
    let out = merge(prior, Vec::new());
    assert_eq!(out.len(), 2);
    assert_eq!(out[0].id, b"aa".to_vec());
    assert_eq!(out[1].id, b"bb".to_vec());
}

#[test]
fn merge_result_has_unique_ids() {
    let prior = vec![entry("a", 1, b"p1"), entry("a", 3, b"p2"), entry("b", 2, b"p3")];
    let fresh = vec![entry("b", 9, b"f1"), entry("c", 4, b"f2")];
    let out = merge(prior, fresh);
    assert_eq!(out.len(), 3);
    for i in 0..out.len() {
        for j in 0..out.len() {
            if i != j {
                assert_ne!(out[i].id, out[j].id);
            }
        }
    }
    assert_eq!(out[0].id, b"a".to_vec());
    assert_eq!(out[0].observed_at, 3);
    assert_eq!(out[1].id, b"b".to_vec());
    assert_eq!(out[1].observed_at, 9);
    assert_eq!(out[2].id, b"c".to_vec());
    assert_eq!(out[2].observed_at, 4);
}

#[test]
fn merge_sorts_ascending_by_id() {
    let prior = vec![entry("zed", 1, b""), entry("alpha", 1, b"")];
    let fresh = vec![entry("mid", 1, b"")];
    let out = merge(prior, fresh);
    assert_eq!(out.len(), 3);
    for i in 0..out.len() - 1 {
        assert!(out[i].id < out[i + 1].id);
    }
}

#[test]
fn merge_timestamp_tie_prefers_later_arrival() {
    let prior = vec![entry("abc", 5, b"from-prior")];
    let fresh = vec![entry("abc", 5, b"from-fresh")];
    let out = merge(prior, fresh);
    assert_eq!(out.len(), 1);
    assert_eq!(out[0].payload, b"from-fresh".to_vec());
}

#[test]
fn merge_of_disjoint_sets_keeps_everything() {
    let prior = vec![entry("aa", 1, b"1")];
    let fresh = vec![entry("bb", 2, b"2")];
    let out = merge(prior, fresh);
    assert_eq!(out.len(), 2);
    assert_eq!(out[0].id, b"aa".to_vec());
    assert_eq!(out[1].id, b"bb".to_vec());
}

#[test]
fn merge_of_empty_inputs_is_empty() {
    let out = merge(Vec::new(), Vec::new());
    assert_eq!(out.len(), 0);
}
