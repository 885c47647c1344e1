use discord_guild_crawler::entry::bytes_eq;
use discord_guild_crawler::entry::bytes_lt;
use discord_guild_crawler::entry::entry_precedes;
use discord_guild_crawler::entry::Entry;

fn entry(id: &str, observed_at: u64) -> Entry {
    Entry::new(id.as_bytes().to_vec(), observed_at, Vec::new())
}

#[test]
fn ids_order_lexicographically() {
    assert!(bytes_lt(&b"abc".to_vec(), &b"abd".to_vec()));
    assert!(!bytes_lt(&b"abd".to_vec(), &b"abc".to_vec()));
    assert!(bytes_lt(&b"ab".to_vec(), &b"abc".to_vec()));
    assert!(!bytes_lt(&b"abc".to_vec(), &b"ab".to_vec()));
    assert!(bytes_lt(&b"".to_vec(), &b"a".to_vec()));
    assert!(!bytes_lt(&b"a".to_vec(), &b"a".to_vec()));
}

#[test]
fn id_equality_is_exact() {
    assert!(bytes_eq(&b"abc".to_vec(), &b"abc".to_vec()));
    assert!(!bytes_eq(&b"abc".to_vec(), &b"abd".to_vec()));
    assert!(!bytes_eq(&b"abc".to_vec(), &b"ab".to_vec()));
}

#[test]
fn entry_order_is_id_first_then_fresher_first() {
    assert!(entry_precedes(&entry("aa", 1), &entry("bb", 99)));
    assert!(!entry_precedes(&entry("bb", 99), &entry("aa", 1)));
    assert!(entry_precedes(&entry("aa", 9), &entry("aa", 5)));
    assert!(!entry_precedes(&entry("aa", 5), &entry("aa", 9)));
    assert!(!entry_precedes(&entry("aa", 5), &entry("aa", 5)));
}

#[test]
fn entry_keeps_what_it_was_built_from() {
    let e = Entry::new(b"code".to_vec(), 42, b"details".to_vec());
    assert_eq!(e.uid(), &b"code".to_vec());
    assert_eq!(e.observed_at, 42);
    assert_eq!(e.payload, b"details".to_vec());
    let d = e.duplicate();
    assert_eq!(d.id, e.id);
    assert_eq!(d.observed_at, e.observed_at);
    assert_eq!(d.payload, e.payload);
}
