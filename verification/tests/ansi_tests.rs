use selecta::ansi::ANSI;
use selecta::ansi::ANSIColor;

#[test]
fn test_escape_sequences_are_prefixed_with_esc_bracket() {
    let ansi = ANSI::new();
    assert_eq!(ansi.clear(), "\u{1b}[23");
    assert_eq!(ansi.hide_cursor(), "\u{1b}[?25l");
    assert_eq!(ansi.show_cursor(), "\u{1b}[?25h");
    assert_eq!(ansi.inverse(), "\u{1b}[7m");
    assert_eq!(ansi.reset(), "\u{1b}[0m");
}

#[test]
fn test_setpos_sends_one_based_coordinates() {
    let ansi = ANSI::new();
    assert_eq!(ansi.setpos(0, 0), "\u{1b}[1;1H");
    assert_eq!(ansi.setpos(4, 9), "\u{1b}[5;10H");
}

#[test]
fn test_setpos_formats_multi_digit_numbers() {
    let ansi = ANSI::new();
    assert_eq!(ansi.setpos(122, 9999), "\u{1b}[123;10000H");
}

#[test]
fn test_color_pairs_foreground_and_background_codes() {
    let ansi = ANSI::new();
    assert_eq!(ansi.color(ANSIColor::Black, ANSIColor::Default), "\u{1b}[30;49m");
    assert_eq!(ansi.color(ANSIColor::White, ANSIColor::Red), "\u{1b}[37;41m");
    assert_eq!(ansi.color(ANSIColor::Default, ANSIColor::Cyan), "\u{1b}[39;46m");
}
