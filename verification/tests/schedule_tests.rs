use discord_guild_crawler::publish::classify_publish;
use discord_guild_crawler::publish::PublishError;
use discord_guild_crawler::schedule::sleep_before_next_cycle;
use discord_guild_crawler::schedule::RateLimiter;

#[test]
fn cadence_sleep_is_the_remainder_of_the_cycle() {
    assert_eq!(sleep_before_next_cycle(3600, 50), 3550);
}

#[test]
fn overrunning_cycle_sleeps_zero() {
    assert_eq!(sleep_before_next_cycle(3600, 3600), 0);
    assert_eq!(sleep_before_next_cycle(3600, 5000), 0);
}

#[test]
fn rate_limiter_returns_its_configured_delay() {
    let search_pacing = RateLimiter::new(10);
    let link_pacing = RateLimiter::new(6);
    assert_eq!(search_pacing.wait_before_next_call(), 10);
    assert_eq!(link_pacing.wait_before_next_call(), 6);
}

#[test]
fn publish_failures_stay_distinguishable() {
    assert_eq!(classify_publish(false, true, true), Err(PublishError::IndexUnavailable));
    assert_eq!(classify_publish(true, false, true), Err(PublishError::DeleteFailed));
    assert_eq!(classify_publish(true, true, false), Err(PublishError::InsertFailed));
    assert_eq!(classify_publish(true, true, true), Ok(()));
}
