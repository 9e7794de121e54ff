use librarian::study::{
    due_items, new_item, update_after_review, StudyItem, StudyItemKind,
};

fn fresh(id: i64, now: i64) -> StudyItem {
    new_item(
        id,
        None,
        StudyItemKind::Flashcard,
        "Q".to_string(),
        "A".to_string(),
        now,
    )
}

#[test]
fn sm2_easy_first_review_sets_one_day() {
    let now = 1_700_000_000;
    let item = fresh(1, now);
    let after = update_after_review(&item, 5, now);
    assert_eq!(after.review_count, 1);
    assert_eq!(after.interval_centi, 100); // one day
    assert!(after.ease_centi >= 250);
    assert_eq!(after.next_review_at, now + 100 * 864); // one day in seconds
}

#[test]
fn sm2_second_easy_review_sets_six_days() {
    let now = 1_700_000_000;
    let item = fresh(1, now);
    let once = update_after_review(&item, 5, now);
    let twice = update_after_review(&once, 5, now + 86_400);
    assert_eq!(twice.review_count, 2);
    assert_eq!(twice.interval_centi, 600); // six days
}

#[test]
fn sm2_failure_resets_interval_and_count() {
    let now = 1_700_000_000;
    let item = fresh(1, now);
    let a = update_after_review(&item, 5, now);
    let b = update_after_review(&a, 5, now);
    let c = update_after_review(&b, 4, now);
    assert!(c.interval_centi > 600); // grew multiplicatively
    let failed = update_after_review(&c, 1, now);
    assert_eq!(failed.review_count, 0);
    assert_eq!(failed.interval_centi, 100); // back to one day
}

#[test]
fn sm2_ease_never_falls_below_floor() {
    let now = 1_700_000_000;
    let mut item = fresh(1, now);
    for _ in 0..20 {
        item = update_after_review(&item, 0, now);
        assert!(item.ease_centi >= 130);
    }
}

#[test]
fn due_items_sorted_oldest_first_and_capped() {
    let now = 1_000_000;
    let mut items = Vec::new();
    let mut a = fresh(1, now - 50);
    a.next_review_at = now - 50;
    let mut b = fresh(2, now - 500);
    b.next_review_at = now - 500;
    let mut c = fresh(3, now + 100); // not due yet
    c.next_review_at = now + 100;
    let mut d = fresh(4, now - 5);
    d.next_review_at = now - 5;
    items.push(a);
    items.push(b);
    items.push(c);
    items.push(d);

    let due = due_items(&items, now, 10);
    assert_eq!(due.len(), 3);
    assert_eq!(due[0].id, 2); // oldest overdue first
    assert_eq!(due[1].id, 1);
    assert_eq!(due[2].id, 4);

    let capped = due_items(&items, now, 2);
    assert_eq!(capped.len(), 2);
    assert_eq!(capped[0].id, 2);
}
