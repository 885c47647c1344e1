use discord_guild_crawler::codec::decode;
use discord_guild_crawler::codec::encode;
use discord_guild_crawler::codec::CodecError;
use discord_guild_crawler::entry::Entry;

fn entry(id: &str, observed_at: u64, payload: &[u8]) -> Entry {
    Entry::new(id.as_bytes().to_vec(), observed_at, payload.to_vec())
}

#[test]
fn codec_round_trip_preserves_entries_exactly() {
    let catalog = vec![
        entry("alpha", 11, b"community one"),
        entry("beta", 22, b""),
        entry("gamma", u64::MAX, b"\x00\xff bytes"),
    ];
    let bytes = encode(&catalog);
    let back = decode(&bytes).expect("the encoding must decode");
    assert_eq!(back.len(), catalog.len());
    for (a, b) in catalog.iter().zip(back.iter()) {
        assert_eq!(a.id, b.id);
        assert_eq!(a.observed_at, b.observed_at);
        assert_eq!(a.payload, b.payload);
    }
}

#[test]
fn codec_round_trip_of_empty_catalog() {
    let catalog: Vec<Entry> = Vec::new();
    let bytes = encode(&catalog);
    assert_eq!(bytes.len(), 8);
    let back = decode(&bytes).expect("the empty catalog must decode");
    assert_eq!(back.len(), 0);
}

#[test]
fn decode_rejects_truncated_image() {
    let catalog = vec![entry("alpha", 1, b"details")];
    let mut bytes = encode(&catalog);
    bytes.pop();
    assert!(matches!(decode(&bytes), Err(CodecError::Malformed)));
}

#[test]
fn decode_rejects_trailing_bytes() {
    let catalog = vec![entry("alpha", 1, b"details")];
    let mut bytes = encode(&catalog);
    bytes.push(0);
    assert!(matches!(decode(&bytes), Err(CodecError::Malformed)));
}

#[test]
fn decode_rejects_short_input() {
    let bytes = vec![1u8, 2, 3];
    assert!(matches!(decode(&bytes), Err(CodecError::Malformed)));
}

#[test]
fn decode_rejects_arbitrary_garbage() {
    let bytes = b"this is not a catalog image at all".to_vec();
    assert!(matches!(decode(&bytes), Err(CodecError::Malformed)));
}
