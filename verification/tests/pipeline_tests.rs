use discord_guild_crawler::entry::Entry;
use discord_guild_crawler::merge::merge;
use discord_guild_crawler::pipeline::CycleState;
use discord_guild_crawler::pipeline::Discovery;
use discord_guild_crawler::pipeline::PageOutcome;

fn link(s: &str) -> Vec<u8> {
    s.as_bytes().to_vec()
}

#[test]
fn same_link_three_times_yields_one_claim() {
    // Three search pages all resolve to the same raw invite link; only the
    // first occurrence may reach the verifier, so only one entry is made.
    let mut cycle = CycleState::begin();
    let first = cycle.claim_unseen(&vec![link("dead-beef")]);
    assert_eq!(first, vec![link("dead-beef")]);
    let second = cycle.claim_unseen(&vec![link("dead-beef")]);
    assert!(second.is_empty());
    let third = cycle.claim_unseen(&vec![link("dead-beef"), link("other")]);
    assert_eq!(third, vec![link("other")]);
    for l in first.iter().chain(third.iter()) {
        let observed_at = 100;
        cycle.record_entry(Entry::new(l.clone(), observed_at, b"invite".to_vec()));
    }
    assert_eq!(cycle.found.len(), 2);
}

#[test]
fn duplicates_within_one_batch_are_claimed_once() {
    let mut cycle = CycleState::begin();
    let fresh = cycle.claim_unseen(&vec![link("a"), link("b"), link("a"), link("a")]);
    assert_eq!(fresh, vec![link("a"), link("b")]);
}

#[test]
fn verifier_failure_is_isolated_to_its_link() {
    // The verifier fails for link B but succeeds for A and C: the catalog
    // gets entries for A and C, none for B, and nothing aborts.
    let mut cycle = CycleState::begin();
    let fresh = cycle.claim_unseen(&vec![link("aaa"), link("bbb"), link("ccc")]);
    assert_eq!(fresh.len(), 3);
    for l in fresh {
        let verified = l != link("bbb"); // the platform rejects B
        if verified {
            cycle.record_entry(Entry::new(l, 50, b"ok".to_vec()));
        }
    }
    assert_eq!(cycle.found.len(), 2);
    let catalog = merge(Vec::new(), cycle.found);
    assert_eq!(catalog.len(), 2);
    assert_eq!(catalog[0].id, link("aaa"));
    assert_eq!(catalog[1].id, link("ccc"));
}

#[test]
fn discovery_collects_links_page_by_page() {
    let mut disc = Discovery::begin(3);
    assert!(!disc.done);
    disc.on_page(PageOutcome::Links(vec![link("one"), link("two")]));
    assert_eq!(disc.next_page, 1);
    assert!(!disc.done);
    disc.on_page(PageOutcome::Links(vec![link("three")]));
    disc.on_page(PageOutcome::Links(vec![link("four")]));
    assert!(disc.done);
    assert_eq!(disc.links, vec![link("one"), link("two"), link("three"), link("four")]);
}

#[test]
fn discovery_stops_early_on_empty_page() {
    let mut disc = Discovery::begin(20);
    disc.on_page(PageOutcome::Links(vec![link("one")]));
    disc.on_page(PageOutcome::Links(Vec::new()));
    assert!(disc.done);
    assert_eq!(disc.next_page, 1);
    assert_eq!(disc.links, vec![link("one")]);
}

#[test]
fn discovery_skips_failed_page_and_continues() {
    let mut disc = Discovery::begin(3);
    disc.on_page(PageOutcome::Links(vec![link("one")]));
    disc.on_page(PageOutcome::Failed);
    assert!(!disc.done);
    disc.on_page(PageOutcome::Links(vec![link("two")]));
    assert!(disc.done);
    assert_eq!(disc.links, vec![link("one"), link("two")]);
}
