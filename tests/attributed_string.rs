use matsu::attributed_string::byte_range_lies_on_char_boundary;
use matsu::{Attribute, AttributedString, EscapeCode};

#[test]
fn it_works() {
    let mut s = AttributedString::new("it works!!!");
    s.add_attr(Attribute::Bold, 3..5);
    s.add_attr(Attribute::Bold, 5..8);
    s.add_attr(Attribute::Underline, 0..2);
    s.add_attr(Attribute::Underline, 3..11);
    assert_eq!(s.len(), 11);
    assert_eq!(
        s.to_string(),
        "\x1B[4mit\x1B[24m \x1B[1m\x1B[4mworks\x1B[22m!!!\x1B[24m".to_string()
    );
}

#[test]
fn bold_and_underlined() {
    let mut s = AttributedString::new("bold and underlined");
    s.add_attr(Attribute::Bold, 0..4);
    s.add_attr(Attribute::Underline, 9..19);
    assert_eq!(s.to_string(), "\x1B[1mbold\x1B[22m and \x1B[4munderlined\x1B[24m");
}

#[test]
fn len_counts_bytes_not_characters() {
    let s = AttributedString::new("\u{7aef}\u{672b}");
    assert_eq!(s.len(), 6);
}

#[test]
fn plain_str_is_unaffected_by_attributes() {
    let mut s = AttributedString::new("abc");
    s.add_attr(Attribute::Bold, 0..2);
    assert_eq!(s.as_plain_str(), "abc");
}

#[test]
fn range_past_the_end_is_rejected() {
    assert!(!byte_range_lies_on_char_boundary(&(0..99), "abc"));
}

#[test]
fn range_inside_a_character_is_rejected() {
    assert!(!byte_range_lies_on_char_boundary(&(0..1), "\u{1F604}"));
    assert!(byte_range_lies_on_char_boundary(&(0..4), "\u{1F604}"));
}

#[test]
fn reversed_range_is_rejected() {
    assert!(!byte_range_lies_on_char_boundary(&(2..1), "abc"));
    assert!(byte_range_lies_on_char_boundary(&(1..1), "abc"));
    assert!(byte_range_lies_on_char_boundary(&(0..3), "abc"));
}

#[test]
fn empty_range_renders_as_plain_text() {
    let mut s = AttributedString::new("plain text");
    s.add_attr(Attribute::Bold, 3..3);
    s.add_attr(Attribute::Underline, 10..10);
    assert_eq!(s.to_string(), "plain text");
}

#[test]
fn adjacent_attaches_render_as_union() {
    let mut two = AttributedString::new("abcdefgh");
    two.add_attr(Attribute::Inverse, 1..4);
    two.add_attr(Attribute::Inverse, 4..6);
    let mut one = AttributedString::new("abcdefgh");
    one.add_attr(Attribute::Inverse, 1..6);
    assert_eq!(two.to_string(), one.to_string());
    assert_eq!(one.to_string(), "a\x1B[7mbcdef\x1B[27mgh");
}

#[test]
fn overlapping_attaches_render_as_union() {
    let mut two = AttributedString::new("abcdefgh");
    two.add_attr(Attribute::Blink, 2..6);
    two.add_attr(Attribute::Blink, 0..3);
    let mut one = AttributedString::new("abcdefgh");
    one.add_attr(Attribute::Blink, 0..6);
    assert_eq!(two.to_string(), one.to_string());
    assert_eq!(one.to_string(), "\x1B[5mabcdef\x1B[25mgh");
}

#[test]
fn render_twice_gives_the_same_string() {
    let mut s = AttributedString::new("twice");
    s.add_attr(Attribute::FgColor256(9), 0..3);
    s.add_attr(Attribute::Bold, 2..5);
    let first = s.to_string();
    let second = s.to_string();
    assert_eq!(first, second);
    assert_eq!(first, "\x1B[38;5;9mtw\x1B[1mi\x1B[39mce\x1B[22m");
}

#[test]
fn whole_text_attribute() {
    let mut s = AttributedString::new("all");
    s.add_attr(Attribute::Underline, 0..3);
    assert_eq!(s.to_string(), "\x1B[4mall\x1B[24m");
}

#[test]
fn close_comes_before_open_at_one_offset() {
    let mut s = AttributedString::new("abcd");
    s.add_attr(Attribute::Underline, 2..4);
    s.add_attr(Attribute::Bold, 0..2);
    assert_eq!(s.to_string(), "\x1B[1mab\x1B[22m\x1B[4mcd\x1B[24m");
}

#[test]
fn bridging_range_folds_both_entries() {
    let mut s = AttributedString::new("abcdef");
    s.add_attr(Attribute::Bold, 0..2);
    s.add_attr(Attribute::Bold, 4..6);
    s.add_attr(Attribute::Bold, 2..4);
    assert_eq!(s.to_string(), "\x1B[1mabcdef\x1B[22m");
}

#[test]
fn two_attaches_render_as_union_over_stored_entries() {
    let mut two = AttributedString::new("abcdef");
    two.add_attr(Attribute::Bold, 0..2);
    two.add_attr(Attribute::Bold, 4..6);
    two.add_attr(Attribute::Bold, 3..4);
    two.add_attr(Attribute::Bold, 2..3);
    let mut one = AttributedString::new("abcdef");
    one.add_attr(Attribute::Bold, 0..2);
    one.add_attr(Attribute::Bold, 4..6);
    one.add_attr(Attribute::Bold, 2..4);
    assert_eq!(two.to_string(), one.to_string());
    assert_eq!(one.to_string(), "\x1B[1mabcdef\x1B[22m");
}

#[test]
fn clone_keeps_text_and_attributes() {
    let mut s = AttributedString::new("copy");
    s.add_attr(Attribute::Underline, 1..3);
    let c = s.clone();
    s.add_attr(Attribute::Bold, 0..4);
    assert_eq!(c.to_string(), "c\x1B[4mop\x1B[24my");
}

#[test]
fn multibyte_text_keeps_characters_whole() {
    let mut s = AttributedString::new("\u{7aef}\u{672b}");
    s.add_attr(Attribute::BgColor256(200), 3..6);
    assert_eq!(s.to_string(), "\u{7aef}\x1B[48;5;200m\u{672b}\x1B[49m");
}

#[test]
fn initiators() {
    assert_eq!(Attribute::Bold.initiator(), "\x1B[1m".to_string());
    assert_eq!(Attribute::Underline.initiator(), "\x1B[4m");
    assert_eq!(Attribute::Blink.initiator(), "\x1B[5m");
    assert_eq!(Attribute::Inverse.initiator(), "\x1B[7m");
    assert_eq!(Attribute::FgColor256(0).initiator(), "\x1B[38;5;0m");
    assert_eq!(Attribute::FgColor256(42).initiator(), "\x1B[38;5;42m");
    assert_eq!(Attribute::FgColor256(255).initiator(), "\x1B[38;5;255m");
    assert_eq!(Attribute::FgColorDefault.initiator(), "\x1B[39m");
    assert_eq!(Attribute::BgColor256(7).initiator(), "\x1B[48;5;7m");
    assert_eq!(Attribute::BgColor256(100).initiator(), "\x1B[48;5;100m");
    assert_eq!(Attribute::BgColorDefault.initiator(), "\x1B[49m");
}

#[test]
fn terminators() {
    assert_eq!(Attribute::Bold.terminator(), "\x1B[22m".to_string());
    assert_eq!(Attribute::Underline.terminator(), "\x1B[24m");
    assert_eq!(Attribute::Blink.terminator(), "\x1B[25m");
    assert_eq!(Attribute::Inverse.terminator(), "\x1B[27m");
    assert_eq!(Attribute::FgColor256(12).terminator(), "\x1B[39m");
    assert_eq!(Attribute::FgColorDefault.terminator(), "\x1B[39m");
    assert_eq!(Attribute::BgColor256(12).terminator(), "\x1B[49m");
    assert_eq!(Attribute::BgColorDefault.terminator(), "\x1B[49m");
}

#[test]
fn escape_code_strings() {
    assert_eq!(EscapeCode::Reset.to_string(), "\x1B[0m");
    assert_eq!(EscapeCode::NoBlink.to_string(), "\x1B[25m");
    assert_eq!(EscapeCode::FgColor256(99).to_string(), "\x1B[38;5;99m");
}
