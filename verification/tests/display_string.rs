//! Behaviour of the rich-text buffer and its ANSI renderer.

use citemark::numbers::format_range;
use citemark::numbers::usize_to_string;
use citemark::DisplayString;
use citemark::FormatSpan;
use citemark::Formatting;

#[test]
fn new_is_empty() {
    let d = DisplayString::new();
    assert!(d.is_empty());
    assert_eq!(d.len(), 0);
    assert_eq!(d.last(), None);
    assert_eq!(d.value, "");
}

#[test]
fn from_str_and_from_string() {
    let a = DisplayString::from_str("hello");
    let b = DisplayString::from_string("hello".to_string());
    assert_eq!(a.value, "hello");
    assert_eq!(b.value, "hello");
    assert_eq!(a.len(), 5);
    assert_eq!(a.last(), Some('o'));
}

#[test]
fn push_appends_one_character() {
    let mut d = DisplayString::from_str("ab");
    d.push('c');
    assert_eq!(d.value, "abc");
    assert_eq!(d.last(), Some('c'));
}

#[test]
fn commit_closes_every_pending_span() {
    let mut d = DisplayString::new();
    d.push_str("plain ");
    d.start_format(Formatting::Bold);
    d.push_str("bold");
    d.commit_formats();
    assert_eq!(d.value, "plain bold");
    assert_eq!(
        d.formatting,
        vec![FormatSpan { start: 6, end: 10, kind: Formatting::Bold }]
    );
    assert!(d.pending_formatting.is_empty());
}

#[test]
fn append_offsets_the_other_spans() {
    let mut a = DisplayString::new();
    a.push_str("one ");
    a.start_format(Formatting::Italic);
    a.push_str("x");
    a.commit_formats();

    let mut b = DisplayString::new();
    b.start_format(Formatting::Bold);
    b.push_str("two");
    b.commit_formats();

    let a_len_before = a.len();
    let b_spans_before = b.formatting.clone();
    a.append(&b);

    assert_eq!(a.value, "one xtwo");
    // Spans of the receiver are unchanged, spans of the operand are shifted
    // by the receiver's length before the call.
    assert_eq!(a.formatting[0], FormatSpan { start: 4, end: 5, kind: Formatting::Italic });
    assert_eq!(
        a.formatting[1],
        FormatSpan {
            start: b_spans_before[0].start + a_len_before,
            end: b_spans_before[0].end + a_len_before,
            kind: Formatting::Bold,
        }
    );
}

#[test]
fn concatenation_is_associative_on_text() {
    let parts = ["ab", "", "cde"];
    let mut left = DisplayString::from_str(parts[0]);
    left.append(&DisplayString::from_str(parts[1]));
    left.append(&DisplayString::from_str(parts[2]));

    let mut right_tail = DisplayString::from_str(parts[1]);
    right_tail.append(&DisplayString::from_str(parts[2]));
    let mut right = DisplayString::from_str(parts[0]);
    right.append(&right_tail);

    assert_eq!(left.value, right.value);
}

#[test]
fn add_if_some_wraps_present_items() {
    let mut d = DisplayString::from_str("x");
    d.add_if_some(Some("7"), Some(" ("), Some(")"));
    assert_eq!(d.value, "x (7)");
    d.add_if_some(None, Some("-"), Some("-"));
    assert_eq!(d.value, "x (7)");
    d.add_if_some(Some("!"), None, None);
    assert_eq!(d.value, "x (7)!");
}

#[test]
fn join_inserts_separator_between_non_empty_items() {
    let items = vec![
        DisplayString::from_str("a"),
        DisplayString::new(),
        DisplayString::from_str("b"),
    ];
    let j = DisplayString::join(&items, ", ");
    assert_eq!(j.value, "a, b");
    let empty: Vec<DisplayString> = vec![];
    assert_eq!(DisplayString::join(&empty, ", ").value, "");
}

#[test]
fn render_without_spans_is_plain_text() {
    let mut d = DisplayString::from_str("nothing fancy");
    d.start_format(Formatting::Bold);
    // The span is never committed, so it must not render.
    assert_eq!(d.print_ansi_vt100(), "nothing fancy");
}

#[test]
fn render_full_bold_span() {
    let mut d = DisplayString::new();
    d.start_format(Formatting::Bold);
    d.push_str("loud");
    d.commit_formats();
    assert_eq!(d.print_ansi_vt100(), "\x1b[1mloud\x1b[0m");
}

#[test]
fn render_italic_and_no_hyphenation() {
    let mut d = DisplayString::new();
    d.push_str("a ");
    d.start_format(Formatting::Italic);
    d.push_str("b");
    d.commit_formats();
    // NoHyphenation spans are filtered out before rendering.
    d.start_format(Formatting::NoHyphenation);
    d.push_str(" c");
    d.commit_formats();
    assert_eq!(d.print_ansi_vt100(), "a \x1b[3mb\x1b[0m c");
}

#[test]
fn render_overlapping_spans_reset_early() {
    // Bold over the whole text, italic over the middle: the italic end
    // event prints a full reset, which also switches bold off.
    let mut d = DisplayString::new();
    d.start_format(Formatting::Bold);
    d.push_str("ab");
    d.start_format(Formatting::Italic);
    d.push_str("cd");
    d.commit_formats();
    d.push_str("ef");
    let rendered = d.print_ansi_vt100();
    assert_eq!(
        d.formatting,
        vec![
            FormatSpan { start: 0, end: 4, kind: Formatting::Bold },
            FormatSpan { start: 2, end: 4, kind: Formatting::Italic },
        ]
    );
    assert_eq!(rendered, "\x1b[1mab\x1b[3mcd\x1b[0m\x1b[0mef");
}

#[test]
fn rendering_twice_is_identical() {
    let mut d = DisplayString::new();
    d.start_format(Formatting::Bold);
    d.push_str("same");
    d.commit_formats();
    let first = d.print_ansi_vt100();
    let second = d.print_ansi_vt100();
    assert_eq!(first, second);
}

#[test]
fn decimal_rendering() {
    assert_eq!(usize_to_string(0), "0");
    assert_eq!(usize_to_string(7), "7");
    assert_eq!(usize_to_string(10), "10");
    assert_eq!(usize_to_string(90217), "90217");
}

#[test]
fn format_range_singular_and_plural() {
    assert_eq!(format_range("p.", "pp.", 4, 4), "p. 4");
    assert_eq!(format_range("p.", "pp.", 4, 7), "pp. 4\u{2013}7");
    assert_eq!(format_range("", "", 3, 3), "3");
    assert_eq!(format_range("", "", 3, 5), "3\u{2013}5");
}

#[test]
fn offset_format_range_shifts_both_ends() {
    let s = FormatSpan { start: 2, end: 5, kind: Formatting::Bold };
    let shifted = citemark::display::offset_format_range(s, 10);
    assert_eq!(shifted, FormatSpan { start: 12, end: 15, kind: Formatting::Bold });
}

#[test]
fn join_shifts_spans_of_later_items() {
    let mut a = DisplayString::new();
    a.start_format(Formatting::Bold);
    a.push_str("abc");
    a.commit_formats();
    let mut b = DisplayString::new();
    b.start_format(Formatting::Italic);
    b.push_str("de");
    b.commit_formats();
    let j = DisplayString::join(&vec![a, b], "; ");
    assert_eq!(j.value, "abc; de");
    assert_eq!(
        j.formatting,
        vec![
            FormatSpan { start: 0, end: 3, kind: Formatting::Bold },
            FormatSpan { start: 5, end: 7, kind: Formatting::Italic },
        ]
    );
}
