//! Claim graph behaviour: linking, orphan detection, staleness, cascade
//! deletion, and the review queue.

use engine::{ClaimCategory, Confidence, Database, LinkType, StoreError};

const DAY: i64 = 86_400;

fn db_with_two_claims() -> Database {
    let mut db = Database::open_in_memory();
    let c1 = db.create_claim(
        "rivers shaped early trade",
        "vid-a",
        None,
        "trade followed the rivers",
        ClaimCategory::Factual,
        Confidence::High,
        1_000,
    );
    let c2 = db.create_claim(
        "trade shaped early cities",
        "vid-a",
        None,
        "cities grew at the crossings",
        ClaimCategory::CausalClaim,
        Confidence::Medium,
        1_001,
    );
    assert_eq!(c1.id, 1);
    assert_eq!(c2.id, 2);
    db
}

#[test]
fn unlinked_claims_are_orphans_until_two_edges() {
    let mut db = db_with_two_claims();

    let orphans = db.get_orphan_claims();
    assert_eq!(orphans.len(), 2);

    db.create_claim_link(1, 2, LinkType::Supports, 2_000).unwrap();
    assert_eq!(db.get_claim_link_count(1), 1);
    assert_eq!(db.get_claim_link_count(2), 1);
    let orphans = db.get_orphan_claims();
    assert_eq!(orphans.len(), 2, "one edge still leaves both below the threshold");

    db.create_claim_link(1, 2, LinkType::Related, 2_001).unwrap();
    assert_eq!(db.get_claim_link_count(1), 2);
    assert_eq!(db.get_claim_link_count(2), 2);
    let orphans = db.get_orphan_claims();
    assert_eq!(orphans.len(), 0, "two edges take both endpoints out of the orphan set");
}

#[test]
fn relinking_same_triple_is_a_no_op() {
    let mut db = db_with_two_claims();
    let first = db.create_claim_link(1, 2, LinkType::Supports, 2_000).unwrap();
    let again = db.create_claim_link(1, 2, LinkType::Supports, 9_999).unwrap();
    assert_eq!(first.id, again.id);
    assert_eq!(db.get_claim_link_count(1), 1);
}

#[test]
fn linking_missing_claim_reports_not_found() {
    let mut db = db_with_two_claims();
    assert_eq!(
        db.create_claim_link(1, 77, LinkType::Causes, 2_000),
        Err(StoreError::NotFound)
    );
    assert_eq!(
        db.create_claim_link(77, 1, LinkType::Causes, 2_000),
        Err(StoreError::NotFound)
    );
}

#[test]
fn self_loop_is_rejected_as_invalid_input() {
    let mut db = db_with_two_claims();
    assert_eq!(
        db.create_claim_link(1, 1, LinkType::Related, 2_000),
        Err(StoreError::InvalidInput)
    );
    assert_eq!(db.get_claim_link_count(1), 0);
}

#[test]
fn unlink_removes_every_type_between_the_pair() {
    let mut db = db_with_two_claims();
    db.create_claim_link(1, 2, LinkType::Supports, 2_000).unwrap();
    db.create_claim_link(1, 2, LinkType::Related, 2_001).unwrap();
    assert!(db.delete_claim_link(1, 2));
    assert_eq!(db.get_claim_link_count(1), 0);
    assert!(!db.delete_claim_link(1, 2), "nothing left to remove");
}

#[test]
fn neighbors_list_both_directions() {
    let mut db = db_with_two_claims();
    db.create_claim_link(1, 2, LinkType::Causes, 2_000).unwrap();
    let cw1 = db.get_claim_with_links(1).unwrap();
    assert_eq!(cw1.outgoing_links.len(), 1);
    assert_eq!(cw1.incoming_links.len(), 0);
    assert_eq!(cw1.outgoing_links[0].1.id, 2);
    let cw2 = db.get_claim_with_links(2).unwrap();
    assert_eq!(cw2.outgoing_links.len(), 0);
    assert_eq!(cw2.incoming_links.len(), 1);
    assert_eq!(cw2.incoming_links[0].1.id, 1);
    assert!(db.get_claim_with_links(42).is_none());
}

#[test]
fn never_accessed_claim_is_always_stale() {
    let now = 100 * DAY;
    let db = db_with_two_claims();
    for days in [0i64, 1, 30, 10_000] {
        let stale = db.get_stale_claims(days, now);
        assert_eq!(stale.len(), 2, "never-accessed claims are stale for any window");
    }
}

#[test]
fn access_refreshes_staleness_until_the_window_passes() {
    let now = 100 * DAY;
    let mut db = db_with_two_claims();
    db.record_claim_access(1, now);

    let stale = db.get_stale_claims(30, now);
    assert_eq!(stale.len(), 1, "the freshly accessed claim left the stale set");
    assert_eq!(stale[0].id, 2);

    let much_later = now + 31 * DAY;
    let stale = db.get_stale_claims(30, much_later);
    assert_eq!(stale.len(), 2, "past the window the claim is stale again");
}

#[test]
fn deleting_a_claim_cascades_to_links_and_access() {
    let mut db = db_with_two_claims();
    db.create_claim_link(1, 2, LinkType::Supports, 2_000).unwrap();
    db.create_claim_link(2, 1, LinkType::Elaborates, 2_001).unwrap();
    db.record_claim_access(1, 3_000);

    assert!(db.delete_claim(1));
    assert!(db.get_claim(1).is_none());
    assert_eq!(db.get_claim_link_count(2), 0, "links touching the dead claim are gone");
    let cw2 = db.get_claim_with_links(2).unwrap();
    assert!(cw2.outgoing_links.is_empty());
    assert!(cw2.incoming_links.is_empty());

    // The access record went with the claim: a re-created claim under a new
    // id starts never-accessed, and claim 2 was never accessed at all.
    let stale = db.get_stale_claims(0, 1_000_000 * DAY);
    assert_eq!(stale.len(), 1);
    assert!(!db.delete_claim(1), "already gone");
}

#[test]
fn update_claim_edits_only_given_fields() {
    let mut db = db_with_two_claims();
    assert!(!db.update_claim(1, None, None, None), "no change requested");
    assert!(!db.update_claim(42, Some("x"), None, None), "no such claim");
    assert!(db.update_claim(1, Some("rivers shaped all trade"), None, Some(Confidence::Low)));
    let c = db.get_claim(1).unwrap();
    assert_eq!(c.text, "rivers shaped all trade");
    assert_eq!(c.category, ClaimCategory::Factual);
    assert_eq!(c.confidence, Confidence::Low);
}

#[test]
fn claim_listing_and_stats() {
    let mut db = db_with_two_claims();
    db.create_claim(
        "a memetic note",
        "vid-b",
        Some(12_000),
        "as heard",
        ClaimCategory::MemeticTransmission,
        Confidence::Low,
        1_002,
    );
    assert_eq!(db.list_all_claims().len(), 3);
    assert_eq!(db.list_claims_for_video("vid-a").len(), 2);
    assert_eq!(db.list_claims_by_category(ClaimCategory::MemeticTransmission).len(), 1);

    db.create_claim_link(1, 2, LinkType::Supports, 2_000).unwrap();
    db.create_claim_link(1, 2, LinkType::Related, 2_001).unwrap();
    let (total, linked, links) = db.get_claim_stats();
    assert_eq!(total, 3);
    assert_eq!(linked, 2);
    assert_eq!(links, 2);
}

#[test]
fn review_queue_samples_distinct_claims_and_records_access() {
    let now = 50 * DAY;
    let mut db = db_with_two_claims();
    db.create_claim(
        "third claim",
        "vid-b",
        None,
        "quoted",
        ClaimCategory::Factual,
        Confidence::Medium,
        1_002,
    );

    let queue = db.get_review_queue(30, 2, now, 7);
    assert_eq!(queue.stale_claims.len(), 3, "nothing was accessed before the queue");
    assert_eq!(queue.orphan_claims.len(), 3);
    assert_eq!(queue.random_suggestions.len(), 2);
    assert_ne!(queue.random_suggestions[0].id, queue.random_suggestions[1].id);

    // Surfacing the sample counted as access.
    let stale_after = db.get_stale_claims(30, now);
    assert_eq!(stale_after.len(), 1);

    let queue = db.get_review_queue(30, 99, now, 11);
    assert_eq!(queue.random_suggestions.len(), 3, "the sample is capped by the claim count");
}

#[test]
fn claim_listings_come_newest_first() {
    let mut db = Database::open_in_memory();
    let a = db.create_claim("a", "v", None, "q", ClaimCategory::Factual, Confidence::High, 100);
    let b = db.create_claim("b", "v", None, "q", ClaimCategory::Factual, Confidence::High, 300);
    let c = db.create_claim("c", "w", None, "q", ClaimCategory::Factual, Confidence::High, 200);

    let all: Vec<i64> = db.list_all_claims().iter().map(|x| x.id).collect();
    assert_eq!(all, vec![b.id, c.id, a.id], "descending creation time");

    let by_cat: Vec<i64> =
        db.list_claims_by_category(ClaimCategory::Factual).iter().map(|x| x.id).collect();
    assert_eq!(by_cat, vec![b.id, c.id, a.id]);

    let orphans: Vec<i64> = db.get_orphan_claims().iter().map(|x| x.id).collect();
    assert_eq!(orphans, vec![b.id, c.id, a.id]);
}

#[test]
fn video_claims_order_by_timestamp_then_creation() {
    let mut db = Database::open_in_memory();
    let untimed =
        db.create_claim("untimed", "v", None, "q", ClaimCategory::Factual, Confidence::High, 100);
    let late = db.create_claim(
        "late",
        "v",
        Some(9_000),
        "q",
        ClaimCategory::Factual,
        Confidence::High,
        200,
    );
    let tie_young = db.create_claim(
        "tied, created later",
        "v",
        Some(2_000),
        "q",
        ClaimCategory::Factual,
        Confidence::High,
        300,
    );
    let tie_old = db.create_claim(
        "tied, created earlier",
        "v",
        Some(2_000),
        "q",
        ClaimCategory::Factual,
        Confidence::High,
        250,
    );

    let order: Vec<i64> = db.list_claims_for_video("v").iter().map(|x| x.id).collect();
    assert_eq!(
        order,
        vec![tie_old.id, tie_young.id, late.id, untimed.id],
        "ascending timestamp, untimed last, ties by creation time"
    );
}

#[test]
fn stale_listing_is_stalest_first() {
    let now = 100 * DAY;
    let mut db = Database::open_in_memory();
    let c1 = db.create_claim("one", "v", None, "q", ClaimCategory::Factual, Confidence::High, 500);
    let c2 = db.create_claim("two", "v", None, "q", ClaimCategory::Factual, Confidence::High, 100);
    let c3 =
        db.create_claim("three", "v", None, "q", ClaimCategory::Factual, Confidence::High, 300);
    db.record_claim_access(c2.id, 800);

    let order: Vec<i64> = db.get_stale_claims(0, now).iter().map(|x| x.id).collect();
    assert_eq!(
        order,
        vec![c3.id, c1.id, c2.id],
        "ascending last access, never-accessed claims by creation time"
    );
}

#[test]
fn random_sample_is_deterministic_for_a_seed() {
    let mut db = db_with_two_claims();
    db.create_claim(
        "third claim",
        "vid-b",
        None,
        "quoted",
        ClaimCategory::Factual,
        Confidence::Medium,
        1_002,
    );
    let a = db.get_random_claims(2, 42);
    let b = db.get_random_claims(2, 42);
    assert_eq!(a.len(), 2);
    let ids_a: Vec<i64> = a.iter().map(|c| c.id).collect();
    let ids_b: Vec<i64> = b.iter().map(|c| c.id).collect();
    assert_eq!(ids_a, ids_b);
}
