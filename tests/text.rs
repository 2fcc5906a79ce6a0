use chrono::Datelike;
use srs::card::Card;
use srs::date::CardDate;
use srs::util::{ellipsis, ellipsis_from, sort, TEXT_WIDTH};

#[test]
fn ellipsis_cuts_long_text() {
    assert_eq!(ellipsis("hello world", 5), "hello...");
}

#[test]
fn ellipsis_keeps_short_text() {
    assert_eq!(ellipsis("hello", 5), "hello");
    assert_eq!(ellipsis("", 0), "");
}

#[test]
fn ellipsis_counts_display_width() {
    assert_eq!(ellipsis("日本語", 4), "日本...");
    assert_eq!(ellipsis("日本語", 6), "日本語");
}

#[test]
fn ellipsis_from_truncated_part() {
    assert_eq!(ellipsis_from("abc", "ab"), "ab...");
    assert_eq!(ellipsis_from("abc", "abc"), "abc");
    assert_eq!(ellipsis_from("abc", ""), "...");
}

#[test]
fn card_label_shows_both_sides() {
    let card = Card::new("manger", "to eat");
    assert_eq!(card.display_name(), "🃏 manger / to eat");
}

#[test]
fn card_label_cuts_long_sides() {
    let long = "a".repeat(TEXT_WIDTH + 5);
    let card = Card::new(&long, "b");
    assert_eq!(
        card.display_name(),
        format!("🃏 {}... / b", "a".repeat(TEXT_WIDTH))
    );
}

#[test]
fn new_card_is_due_on_a_real_day() {
    let card = Card::new("front", "back");
    assert_eq!(card.front, "front");
    assert_eq!(card.back, "back");
    let d = card.due;
    assert!(CardDate::from_ymd(d.year, d.month, d.day).is_some());
}

#[test]
fn dates_follow_the_calendar() {
    assert!(CardDate::from_ymd(2024, 2, 29).is_some());
    assert!(CardDate::from_ymd(2023, 2, 29).is_none());
    assert!(CardDate::from_ymd(1900, 2, 29).is_none());
    assert!(CardDate::from_ymd(2000, 2, 29).is_some());
    assert!(CardDate::from_ymd(2023, 4, 31).is_none());
    assert!(CardDate::from_ymd(2023, 12, 31).is_some());
    assert!(CardDate::from_ymd(2023, 13, 1).is_none());
    assert!(CardDate::from_ymd(2023, 1, 0).is_none());
    assert_eq!(
        CardDate::from_ymd(2023, 5, 17),
        Some(CardDate {
            year: 2023,
            month: 5,
            day: 17
        })
    );
}

#[test]
fn sort_orders_numbers() {
    let mut v = vec![3, 1, 2, 1];
    sort(&mut v);
    assert_eq!(v, vec![1, 1, 2, 3]);
    let mut e: Vec<usize> = vec![];
    sort(&mut e);
    assert!(e.is_empty());
}

#[test]
fn new_card_is_due_today() {
    let before = chrono::Utc::now().date_naive();
    let card = Card::new("front", "back");
    let after = chrono::Utc::now().date_naive();
    let due = (card.due.year, card.due.month, card.due.day);
    let b = (before.year(), before.month(), before.day());
    let a = (after.year(), after.month(), after.day());
    assert!(due == b || due == a);
}

#[test]
fn ellipsis_on_arabic_ligature_text() {
    assert_eq!(ellipsis("لا", 30), "لا");
    let card = Card::new("لا", "no");
    assert_eq!(card.display_name(), "🃏 لا / no");
}
