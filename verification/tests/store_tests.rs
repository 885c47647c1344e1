use discord_guild_crawler::codec::decode;
use discord_guild_crawler::codec::encode;
use discord_guild_crawler::entry::Entry;
use discord_guild_crawler::merge::merge;
use discord_guild_crawler::store::decide_on_corruption;
use discord_guild_crawler::store::interpret_load;
use discord_guild_crawler::store::parse_answer;
use discord_guild_crawler::store::CorruptionDecision;
use discord_guild_crawler::store::CorruptionPolicy;
use discord_guild_crawler::store::LoadOutcome;
use discord_guild_crawler::store::StoredFile;

#[test]
fn missing_file_is_an_empty_catalog() {
    match interpret_load(StoredFile::Missing) {
        LoadOutcome::Catalog(c) => assert!(c.is_empty()),
        LoadOutcome::Corrupt => panic!("a missing file is not corruption"),
    }
}

#[test]
fn unreadable_file_is_corruption() {
    assert!(matches!(interpret_load(StoredFile::Unreadable), LoadOutcome::Corrupt));
}

#[test]
fn undecodable_bytes_are_corruption() {
    let f = StoredFile::Contents(b"garbage".to_vec());
    assert!(matches!(interpret_load(f), LoadOutcome::Corrupt));
}

#[test]
fn valid_bytes_load_as_their_catalog() {
    let catalog = vec![Entry::new(b"abc".to_vec(), 9, b"p".to_vec())];
    let bytes = encode(&catalog);
    match interpret_load(StoredFile::Contents(bytes)) {
        LoadOutcome::Catalog(c) => {
            assert_eq!(c.len(), 1);
            assert_eq!(c[0].id, b"abc".to_vec());
            assert_eq!(c[0].observed_at, 9);
        },
        LoadOutcome::Corrupt => panic!("a valid image must load"),
    }
}

#[test]
fn corruption_policy_decides_the_outcome() {
    assert_eq!(
        decide_on_corruption(&CorruptionPolicy::AbortOnCorruption, true),
        CorruptionDecision::Abort
    );
    assert_eq!(
        decide_on_corruption(&CorruptionPolicy::OverwriteOnCorruption, false),
        CorruptionDecision::ProceedEmpty
    );
    assert_eq!(
        decide_on_corruption(&CorruptionPolicy::PromptOperator, true),
        CorruptionDecision::ProceedEmpty
    );
    assert_eq!(
        decide_on_corruption(&CorruptionPolicy::PromptOperator, false),
        CorruptionDecision::Abort
    );
}

#[test]
fn corruption_then_continue_recovers_with_a_later_save() {
    // An unreadable catalog surfaces a decision point; continuing proceeds
    // with an empty catalog, and a later successful save replaces the
    // corrupt image with a decodable one.
    let stored = StoredFile::Contents(b"\xde\xad\xbe\xef not a catalog".to_vec());
    let outcome = interpret_load(stored);
    assert!(matches!(outcome, LoadOutcome::Corrupt));
    let decision = decide_on_corruption(&CorruptionPolicy::PromptOperator, true);
    assert_eq!(decision, CorruptionDecision::ProceedEmpty);
    let empty: Vec<Entry> = Vec::new();
    let found = vec![Entry::new(b"new".to_vec(), 77, b"inv".to_vec())];
    let catalog = merge(empty, found);
    let saved = encode(&catalog);
    let reloaded = decode(&saved).expect("the overwritten file must decode");
    assert_eq!(reloaded.len(), 1);
    assert_eq!(reloaded[0].id, b"new".to_vec());
}

#[test]
fn operator_answers_are_parsed_exactly() {
    for yes in ["y", "Y", "yes", "Yes", "YES"] {
        assert_eq!(parse_answer(&yes.as_bytes().to_vec()), Some(true), "answer {yes}");
    }
    for no in ["n", "N", "no", "No", "NO"] {
        assert_eq!(parse_answer(&no.as_bytes().to_vec()), Some(false), "answer {no}");
    }
    for bad in ["", "maybe", "yEs", "nO", "Nope", "q"] {
        assert_eq!(parse_answer(&bad.as_bytes().to_vec()), None, "answer {bad}");
    }
}
