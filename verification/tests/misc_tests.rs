use macroquad_toolkit::assets::path_candidates;
use macroquad_toolkit::events::EventBus;
use macroquad_toolkit::fx::typewriter::{prefix_chars, reveal_block_budget, total_chars};
use macroquad_toolkit::notifications::NotificationType;
use macroquad_toolkit::states::Transition;
use macroquad_toolkit::notifications::trim_to_newest;
use macroquad_toolkit::ui::wrap::{is_white_space, wrap_lines};
use macroquad_toolkit::ui::{button_activated, button_look, stepper_direction, toggled, ButtonLook, ButtonTrigger};
use macroquad_toolkit::ui::{capitalize, compact_money_text, display_name, format_money};

#[test]
fn formats_money_with_commas() {
    assert_eq!(format_money(0), "$0");
    assert_eq!(format_money(1_234), "$1,234");
    assert_eq!(format_money(-1_234_567), "-$1,234,567");
}

#[test]
fn money_groups_exactly_by_three() {
    assert_eq!(format_money(999), "$999");
    assert_eq!(format_money(1_000), "$1,000");
    assert_eq!(format_money(-100_000), "-$100,000");
    assert_eq!(format_money(i64::MAX), "$9,223,372,036,854,775,807");
}

#[test]
fn compact_money_below_a_million() {
    assert_eq!(compact_money_text(999), Some("$999".to_string()));
    assert_eq!(compact_money_text(12_000), Some("$12k".to_string()));
    assert_eq!(compact_money_text(-12_999), Some("-$12k".to_string()));
    assert_eq!(compact_money_text(999_999), Some("$999k".to_string()));
    assert_eq!(compact_money_text(1_240_000), None);
    assert_eq!(compact_money_text(-1_000_000), None);
}

#[test]
fn display_names_are_title_case() {
    assert_eq!(display_name("health_potion"), "Health Potion");
    assert_eq!(display_name("a__b"), "A  B");
    assert_eq!(display_name(""), "");
    assert_eq!(capitalize("élan"), "élan");
    assert_eq!(capitalize("xyz"), "Xyz");
}

#[test]
fn event_bus_drains_in_push_order() {
    let mut bus = EventBus::new();
    assert!(bus.is_empty());
    bus.push(1);
    bus.push(2);
    bus.push(3);
    assert_eq!(bus.len(), 3);
    assert_eq!(bus.drain(), vec![1, 2, 3]);
    assert!(bus.is_empty());
    bus.push(4);
    bus.clear();
    assert_eq!(bus.len(), 0);
    let default_bus: EventBus<u8> = EventBus::default();
    assert!(default_bus.is_empty());
}

#[test]
fn prefix_chars_counts_chars_not_bytes() {
    assert_eq!(prefix_chars("café⚙ok", 3), "caf");
    assert_eq!(prefix_chars("café⚙ok", 5), "café⚙");
    assert_eq!(prefix_chars("abc", 10), "abc");
    assert_eq!(prefix_chars("", 0), "");
}

#[test]
fn block_budget_streams_across_lines() {
    let lines = ["abc", "de", "fghi"];
    assert_eq!(total_chars(&lines), 9);
    let r = reveal_block_budget(&lines, 4);
    assert_eq!(r.shown, vec![3, 1, 0]);
    assert_eq!(r.cursor_line, 1);
    assert!(!r.complete);
    let done = reveal_block_budget(&lines, 100);
    assert_eq!(done.shown, vec![3, 2, 4]);
    assert_eq!(done.cursor_line, 2);
    assert!(done.complete);
}

#[test]
fn block_budget_five_and_two_of_nine() {
    let lines = ["abc", "de", "fghi"];
    let r = reveal_block_budget(&lines, 5);
    assert_eq!(r.shown, vec![3, 2, 0]);
    assert_eq!(r.cursor_line, 2);
    assert!(!r.complete);
    let r = reveal_block_budget(&lines, 2);
    assert_eq!(r.shown, vec![2, 0, 0]);
    assert_eq!(r.cursor_line, 0);
}

#[test]
fn block_budget_completes_and_parks_cursor_on_last_line() {
    let lines = ["one", "two"];
    let r = reveal_block_budget(&lines, 100);
    assert_eq!(r.shown, vec![3, 3]);
    assert!(r.complete);
    assert_eq!(r.cursor_line, 1);
    let instant = reveal_block_budget(&lines, total_chars(&lines));
    assert!(instant.complete);
    assert_eq!(instant.shown, vec![3, 3]);
}

#[test]
fn block_budget_skips_empty_lines() {
    let lines = ["ab", "", "cd"];
    let r = reveal_block_budget(&lines, 3);
    assert_eq!(r.shown, vec![2, 0, 1]);
    assert_eq!(r.cursor_line, 2);
    assert!(!r.complete);
}

#[test]
fn block_budget_prefix_stays_on_char_boundaries() {
    let lines = ["café", "⚙ok"];
    let r = reveal_block_budget(&lines, 3);
    assert_eq!(prefix_chars(lines[0], r.shown[0]), "caf");
    assert_eq!(prefix_chars(lines[1], r.shown[1]), "");
}

#[test]
fn block_budget_empty_block_has_valid_cursor() {
    let r = reveal_block_budget(&[], 10);
    assert!(r.complete);
    assert_eq!(r.cursor_line, 0);
    assert!(r.shown.is_empty());
}

#[test]
fn block_budget_steps_over_empty_lines() {
    let lines = ["ab", "", "cd"];
    let r = reveal_block_budget(&lines, 2);
    assert_eq!(r.shown, vec![2, 0, 0]);
    assert_eq!(r.cursor_line, 2);
    assert!(!r.complete);
    let empty = reveal_block_budget(&[], 5);
    assert!(empty.shown.is_empty());
    assert_eq!(empty.cursor_line, 0);
    assert!(empty.complete);
}

#[test]
fn enums_have_their_defaults() {
    assert_eq!(NotificationType::default(), NotificationType::Info);
    assert_ne!(Transition::Push, Transition::Pop);
    assert_eq!(Transition::Stay, Transition::Stay);
}

#[test]
fn block_budget_is_spent_exactly() {
    let lines = ["abc", "", "de", "f"];
    for budget in 0..10 {
        let r = reveal_block_budget(&lines, budget);
        let shown: usize = r.shown.iter().sum();
        assert_eq!(shown, budget.min(6));
        assert_eq!(r.complete, budget >= 6);
    }
}

#[test]
fn shared_random_draws_stay_in_range() {
    for _ in 0..100 {
        assert!(macroquad_toolkit::rng::random_u32() < u32::MAX);
        let wide = macroquad_toolkit::rng::random_u64();
        assert!(wide < u64::MAX);
        assert_eq!(wide % (1u64 << 32), 0);
    }
    macroquad_toolkit::rng::srand(7);
    let a = macroquad_toolkit::rng::random_u64();
    macroquad_toolkit::rng::srand(7);
    assert_eq!(macroquad_toolkit::rng::random_u64(), a);
}

#[test]
fn asset_paths_try_stripped_prefixes_in_order() {
    assert_eq!(
        path_candidates("assets/img/hero.png", &["assets/", "x/", "assets/img/"]),
        vec![
            "assets/img/hero.png".to_string(),
            "img/hero.png".to_string(),
            "hero.png".to_string()
        ]
    );
    assert_eq!(path_candidates("a.png", &[]), vec!["a.png".to_string()]);
}

fn width_at_most(n: usize) -> impl Fn(&str) -> bool {
    move |s: &str| s.chars().count() <= n
}

#[test]
fn wrap_lines_joins_words_while_they_fit() {
    assert_eq!(wrap_lines("hello world", width_at_most(5)), vec!["hello", "world"]);
    assert_eq!(wrap_lines("a b c", width_at_most(5)), vec!["a b c"]);
    assert_eq!(wrap_lines("  a   b  ", width_at_most(10)), vec!["a b"]);
}

#[test]
fn wrap_lines_breaks_long_words_char_by_char() {
    assert_eq!(wrap_lines("abcdefgh", width_at_most(3)), vec!["abc", "def", "gh"]);
    assert_eq!(
        wrap_lines("hi verylongword", width_at_most(4)),
        vec!["hi", "very", "long", "word"]
    );
    assert_eq!(wrap_lines("xy", width_at_most(0)), vec!["x", "y"]);
}

#[test]
fn wrap_lines_keeps_paragraphs_and_blank_lines() {
    assert_eq!(wrap_lines("one\n\ntwo", width_at_most(10)), vec!["one", "", "two"]);
    assert_eq!(wrap_lines("  \n x", width_at_most(10)), vec!["", "x"]);
    assert_eq!(wrap_lines("", width_at_most(10)), vec![""]);
    assert_eq!(wrap_lines("a\n", width_at_most(10)), vec!["a", ""]);
}

#[test]
fn release_buttons_fire_on_release_over_them() {
    assert!(button_activated(true, true, false, true, ButtonTrigger::Release));
    assert!(!button_activated(true, true, true, false, ButtonTrigger::Release));
    // Moving away before releasing cancels the click.
    assert!(!button_activated(true, false, false, true, ButtonTrigger::Release));
}

#[test]
fn press_buttons_fire_on_press_and_disabled_never_fire() {
    assert!(button_activated(true, true, true, false, ButtonTrigger::Press));
    assert!(!button_activated(true, true, false, true, ButtonTrigger::Press));
    for trigger in [ButtonTrigger::Press, ButtonTrigger::Release] {
        assert!(!button_activated(false, true, true, true, trigger));
    }
}

#[test]
fn button_looks_follow_state() {
    assert_eq!(button_look(false, true, true), ButtonLook::Disabled);
    assert_eq!(button_look(true, true, true), ButtonLook::Pressed);
    assert_eq!(button_look(true, true, false), ButtonLook::Hovered);
    assert_eq!(button_look(true, false, true), ButtonLook::Normal);
    assert_eq!(button_look(true, false, false), ButtonLook::Normal);
}

#[test]
fn clicks_flip_toggles_and_steppers_cancel() {
    assert!(toggled(false, true));
    assert!(!toggled(true, true));
    assert!(toggled(true, false));
    assert!(!toggled(false, false));
    assert_eq!(stepper_direction(true, false), -1);
    assert_eq!(stepper_direction(false, true), 1);
    assert_eq!(stepper_direction(true, true), 0);
    assert_eq!(stepper_direction(false, false), 0);
}

#[test]
fn notification_queue_keeps_the_newest() {
    let mut items = vec![1, 2, 3, 4, 5];
    trim_to_newest(&mut items, 3);
    assert_eq!(items, vec![3, 4, 5]);
    trim_to_newest(&mut items, 10);
    assert_eq!(items, vec![3, 4, 5]);
    trim_to_newest(&mut items, 0);
    assert!(items.is_empty());
}

#[test]
fn white_space_matches_char_is_whitespace() {
    for code in 0u32..=0x10FFFF {
        if let Some(c) = char::from_u32(code) {
            assert_eq!(is_white_space(c), c.is_whitespace(), "U+{code:04X}");
        }
    }
}
