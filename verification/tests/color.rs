use seahorse::color;

#[test]
fn colours_wrap_the_text_in_escape_sequences() {
    assert_eq!(color::black("Hello"), "\x1b[30mHello\x1b[0m");
    assert_eq!(color::red("Hello"), "\x1b[31mHello\x1b[0m");
    assert_eq!(color::green("Hello"), "\x1b[32mHello\x1b[0m");
    assert_eq!(color::yellow("Hello"), "\x1b[33mHello\x1b[0m");
    assert_eq!(color::blue("Hello"), "\x1b[34mHello\x1b[0m");
    assert_eq!(color::magenta("Hello"), "\x1b[35mHello\x1b[0m");
    assert_eq!(color::cyan("Hello"), "\x1b[36mHello\x1b[0m");
    assert_eq!(color::white("Hello"), "\x1b[37mHello\x1b[0m");
}

#[test]
fn background_colours_wrap_the_text_in_escape_sequences() {
    assert_eq!(color::bg_black("Hello"), "\x1b[40mHello\x1b[0m");
    assert_eq!(color::bg_red("Hello"), "\x1b[41mHello\x1b[0m");
    assert_eq!(color::bg_green("Hello"), "\x1b[42mHello\x1b[0m");
    assert_eq!(color::bg_yellow("Hello"), "\x1b[43mHello\x1b[0m");
    assert_eq!(color::bg_blue("Hello"), "\x1b[44mHello\x1b[0m");
    assert_eq!(color::bg_magenta("Hello"), "\x1b[45mHello\x1b[0m");
    assert_eq!(color::bg_cyan("Hello"), "\x1b[46mHello\x1b[0m");
    assert_eq!(color::bg_white("Hello"), "\x1b[47mHello\x1b[0m");
}

#[test]
fn colouring_an_empty_text_gives_the_two_sequences() {
    assert_eq!(color::red(""), "\x1b[31m\x1b[0m");
}
