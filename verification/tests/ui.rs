use jview::cards::{help_card, highlight_type_line, marks_card, peek_card, schema_card, Card};
use jview::control::process_key;
use jview::input::{KeyCode, TextInput};
use jview::layout::{content_height, pane_at, pane_layout, pane_parts, panes_area, Part};
use jview::overlay::{peek_layout, wrap_for_peek, Area};
use jview::paint::{
    breadcrumb_spans, footer, pane_lines, pane_title, prompt_line, spinner_frame, value_tone,
    Piece, Tone,
};
use jview::pane::Pane;
use jview::scanner::Kind;
use jview::session::App;
use std::time::{Duration, Instant};

const SCREEN: Area = Area {
    x: 0,
    y: 0,
    width: 80,
    height: 24,
};

fn text(line: &[Piece]) -> String {
    line.iter().map(|p| p.text.as_str()).collect()
}

fn tones(line: &[Piece]) -> Vec<Tone> {
    line.iter().map(|p| p.tone).collect()
}

fn shown(b: &[u8]) -> Pane {
    let mut v = Pane::new(b, "doc.json", false);
    v.flatten_window(b, 20, Instant::now() + Duration::from_secs(5));
    v
}

fn segs(labels: &[(&str, bool)]) -> Vec<(String, bool)> {
    labels.iter().map(|(l, i)| (l.to_string(), *i)).collect()
}

#[test]
fn the_breadcrumb_is_cut_off_on_the_left() {
    let path = segs(&[("users", false), ("2", true), ("city", false)]);
    assert_eq!(text(&breadcrumb_spans(&path, 80)), "users › [2] › city");
    assert_eq!(text(&breadcrumb_spans(&path, 18)), "users › [2] › city");
    assert_eq!(text(&breadcrumb_spans(&path, 17)), "… › [2] › city");
    assert_eq!(text(&breadcrumb_spans(&path, 14)), "… › [2] › city");
    assert_eq!(text(&breadcrumb_spans(&path, 13)), "… › city");
    assert_eq!(text(&breadcrumb_spans(&path, 7)), "…");
    assert_eq!(text(&breadcrumb_spans(&path, 0)), "");
    assert_eq!(
        tones(&breadcrumb_spans(&path, 80)),
        vec![
            Tone::Key,
            Tone::Punct,
            Tone::Index,
            Tone::Punct,
            Tone::KeyBold
        ]
    );
}

#[test]
fn the_prompt_shows_its_caret() {
    let mut input = TextInput::default();
    input.set("héllo".to_string());
    let line = prompt_line('/', &input, "hint");
    assert_eq!(text(&line), " /héllo    hint");
    assert_eq!(line[1].text, " ");
    for _ in 0..4 {
        input.edit(KeyCode::Left, false);
    }
    let line = prompt_line('/', &input, "hint");
    assert_eq!(line[0].text, " /h");
    assert_eq!((line[1].text.as_str(), line[1].tone), ("é", Tone::Caret));
    assert_eq!(line[2].text, "llo   hint");
}

#[test]
fn the_footer_follows_the_mode() {
    let b = br#"{"a":{"x":"hit"}}"#;
    let mut v = shown(b);
    assert!(text(&footer(&v, &None, b)).starts_with(" ↑/↓ move"));
    assert_eq!(
        text(&footer(&v, &Some("copied".to_string()), b)),
        " copied"
    );
    v.mode = jview::pane::Mode::Search;
    v.query.set("hit".to_string());
    v.start_search(b).expect("a job");
    assert_eq!(
        text(&footer(&v, &None, b)),
        " /hit    0+ matches · ↵/↓ next · esc close"
    );
    v.receive_matches(vec![vec![0, 0]], true);
    v.index_matches();
    v.nav_match(true, b);
    v.search_scope = v.scope_of_focus(b);
    assert_eq!(
        text(&footer(&v, &None, b)),
        " /hit    1/1 · ⇥ scope · ↵/↓ next · esc close"
    );
    v.scoped = true;
    assert_eq!(
        text(&footer(&v, &None, b)),
        " /hit    1/1 · in doc.json · ⇥ all · ↵/↓ next · esc close"
    );
    v.mode = jview::pane::Mode::Filter;
    v.filter_error = Some("why".to_string());
    assert_eq!(text(&footer(&v, &None, b)), " |    (why)");
    v.mode = jview::pane::Mode::Goto;
    assert_eq!(text(&footer(&v, &None, b)), " :    ↵ jump · esc cancel");
}

#[test]
fn the_title_tells_where_the_focus_is() {
    let b = br#"{"a":{"x":1},"b":2}"#;
    let mut v = shown(b);
    assert_eq!(text(&pane_title(&v, true, false, 80, b)), " doc.json   1/3+");
    v.focus = 2;
    let title = pane_title(&v, true, true, 80, b);
    assert_eq!(text(&title), " doc.json   3/3+   ⟳ streaming   b");
    assert_eq!(title[0].tone, Tone::TitleActive);
    assert_eq!(pane_title(&v, false, false, 80, b)[0].tone, Tone::TitleIdle);
    v.derived = true;
    assert_eq!(text(&pane_title(&v, true, false, 19, b)), " ↳ doc.json   3/3+");
}

#[test]
fn rows_show_their_parts() {
    let b = br#"{"a":{"x":1},"b":"s"}"#;
    let mut v = shown(b);
    v.bookmarks = vec![vec![1]];
    let lines = pane_lines(&v, 20, true, '⠋', b);
    assert_eq!(lines.len(), 3);
    assert_eq!(tones(&lines[0]), vec![Tone::Selected]);
    assert_eq!(text(&lines[0]), " ▼ doc.json: {");
    assert_eq!(text(&lines[1]), "   ▶ a: { x: 1 }");
    assert_eq!(text(&lines[2]), "★    b: \"s\"");
    assert_eq!(
        tones(&lines[2]),
        vec![
            Tone::Bookmark,
            Tone::Plain,
            Tone::Punct,
            Tone::Plain,
            Tone::Key,
            Tone::Punct,
            Tone::Str
        ]
    );
    // An inactive pane shows no bar; a match is in its own tone.
    v.query.set("s".to_string());
    v.start_search(b).expect("a job");
    v.receive_matches(vec![vec![1], vec![0]], true);
    v.index_matches();
    let lines = pane_lines(&v, 20, false, '⠋', b);
    assert_eq!(lines[0].len(), 7);
    assert_eq!(tones(&lines[1]), vec![Tone::Match]);
    assert_eq!(tones(&lines[2]), vec![Tone::CurrentMatch]);
    // Only what fits is drawn, from the scroll position on.
    v.scroll = 1;
    assert_eq!(pane_lines(&v, 1, false, '⠋', b).len(), 1);
}

#[test]
fn values_have_the_tone_of_their_kind() {
    assert_eq!(value_tone(Kind::Str), Tone::Str);
    assert_eq!(value_tone(Kind::Number), Tone::Num);
    assert_eq!(value_tone(Kind::Bool), Tone::Bool);
    assert_eq!(value_tone(Kind::Null), Tone::Punct);
    assert_eq!(value_tone(Kind::Array), Tone::Punct);
}

#[test]
fn the_spinner_turns() {
    assert_eq!(spinner_frame(0), '⠋');
    assert_eq!(spinner_frame(79), '⠋');
    assert_eq!(spinner_frame(80), '⠙');
    assert_eq!(spinner_frame(799), '⠏');
    assert_eq!(spinner_frame(800), '⠋');
}

#[test]
fn the_help_card_lists_keys_and_examples() {
    let card = help_card(SCREEN);
    let all: Vec<String> = card.lines.iter().map(|l| text(l)).collect();
    assert_eq!(all.len(), 22);
    assert!(all[0].starts_with("  ↑/↓  k/j  move focus "), "{}", all[0]);
    assert!(all.iter().any(|l| l.contains("#  aggregate numbers")));
    assert!(all[14].is_empty());
    assert!(all[16].starts_with(" / re:^id_\\d+$"));
    assert_eq!((card.area.width, card.area.height), (80, 24));
    assert_eq!(card.title, " keyboard shortcuts · any key to close ");
}

#[test]
fn the_picker_lists_the_bookmarks() {
    let b = br#"{"a":1,"b":2}"#;
    let mut v = shown(b);
    v.bookmarks = vec![vec![0], vec![1]];
    v.mark_idx = 1;
    let card = marks_card(&v, SCREEN, b);
    assert_eq!(card.lines.len(), 2);
    assert!(text(&card.lines[0]).starts_with(" a "));
    assert_eq!(card.lines[0][0].tone, Tone::Item);
    assert_eq!(card.lines[1][0].tone, Tone::Picked);
    assert_eq!(text(&card.lines[1]).chars().count(), card.area.width as usize - 2);
    assert_eq!(card.area.height, 4);
}

fn pressed(b: &[u8], keys: &str) -> App {
    let mut app = App::single(Pane::new(b, "t", false));
    for c in keys.chars() {
        app.views[0].flatten_window(b, 20, Instant::now() + Duration::from_secs(5));
        process_key(&mut app, KeyCode::Char(c), false, false, b, 20, SCREEN);
    }
    app
}

fn lines_of(card: &Card) -> Vec<String> {
    card.lines.iter().map(|l| text(l)).collect()
}

#[test]
fn the_peek_card_wraps_and_scrolls() {
    let doc = format!("[\"{}\"]", "x".repeat(72 * 20 + 5));
    let b = doc.as_bytes();
    let app = pressed(b, "j jj");
    let (rect, w, h) = peek_layout(SCREEN);
    assert_eq!((w, h), (72, 18));
    let card = peek_card(app.active_view(), SCREEN, b).expect("a card");
    assert_eq!(card.area, rect);
    assert_eq!(card.lines.len(), 18);
    assert_eq!(card.title, " peek · 0 · lines 3–20/21 · j/k scroll · esc ");
    assert!(lines_of(&card).iter().all(|l| l.len() == 72));
    assert!(schema_card(app.active_view(), SCREEN, b).is_none());
}

#[test]
fn the_schema_card_fits_its_type() {
    let b = br#"[{"a":1},{"a":2,"b":"x"}]"#;
    let app = pressed(b, "t");
    let card = schema_card(app.active_view(), SCREEN, b).expect("a card");
    assert_eq!(card.title, " type · t · lines 1–4/4 · y copy · esc ");
    assert_eq!(card.area.height, 6);
    assert_eq!(lines_of(&card)[1].trim(), "a: number");
    assert!(peek_card(app.active_view(), SCREEN, b).is_none());
}

#[test]
fn a_line_of_a_type_is_highlighted() {
    let line = highlight_type_line("  name?: string[]  // 66%");
    assert_eq!(text(&line), "  name?: string[]  // 66%");
    assert_eq!(
        tones(&line),
        vec![
            Tone::Punct,
            Tone::Key,
            Tone::Punct,
            Tone::Str,
            Tone::Punct,
            Tone::Comment
        ]
    );
    assert_eq!(tones(&highlight_type_line("")), vec![]);
}

#[test]
fn wrapping_breaks_lines_and_drops_controls() {
    assert_eq!(wrap_for_peek("ab\ncdef", 3), ["ab", "cde", "f"]);
    assert_eq!(wrap_for_peek("a\tb\r", 80), ["a    b"]);
    assert_eq!(wrap_for_peek("", 5), [""]);
    assert_eq!(wrap_for_peek("abc", 0), [""]);
    assert_eq!(wrap_for_peek("abc\n", 3), ["abc", ""]);
}

#[test]
fn panes_and_separators_alternate() {
    assert_eq!(
        pane_parts(&[4, 0]),
        vec![Part::Fill(4), Part::Length(1), Part::Fill(1)]
    );
    let area = panes_area(SCREEN);
    assert_eq!(area.height, 23);
    let rects = pane_layout(area, &[1, 3], false);
    assert_eq!(rects.len(), 3);
    assert_eq!(rects.iter().map(|r| r.width).sum::<u16>(), 80);
    assert_eq!(rects[1].width, 1);
    assert!(rects[2].width > rects[0].width);
    assert_eq!(content_height(rects[0]), 22);
    assert_eq!(pane_at(&rects, 2, 0, 0), Some(0));
    assert_eq!(pane_at(&rects, 2, rects[1].x, 0), None);
    assert_eq!(pane_at(&rects, 2, 79, 22), Some(1));
    assert_eq!(pane_at(&rects, 2, 79, 23), None);
}

#[test]
fn the_current_match_of_a_scoped_search_is_marked() {
    let b = br#"{"c":"hit","a":{"x":"hit","y":"hit"}}"#;
    let mut v = shown(b);
    v.focus = 2;
    v.toggle_focus(b);
    v.flatten_window(b, 20, Instant::now() + Duration::from_secs(5));
    v.search_scope = v.scope_of_focus(b);
    v.scoped = true;
    v.query.set("hit".to_string());
    v.start_search(b).expect("a job");
    // Paths below the scope.
    v.receive_matches(vec![vec![0], vec![1]], true);
    v.index_matches();
    let lines = pane_lines(&v, 20, false, '⠋', b);
    let whole: Vec<Tone> = lines.iter().map(|l| l[0].tone).collect();
    assert_eq!(tones(&lines[3]), vec![Tone::CurrentMatch]);
    assert_eq!(tones(&lines[4]), vec![Tone::Match]);
    assert_eq!(whole.iter().filter(|t| **t == Tone::CurrentMatch).count(), 1);
    v.nav_match(true, b);
    v.flatten_window(b, 20, Instant::now() + Duration::from_secs(5));
    let lines = pane_lines(&v, 20, false, '⠋', b);
    let at = v.rows.iter().position(|r| r.path == [1, 0]).expect("a row");
    assert_eq!(tones(&lines[at]), vec![Tone::CurrentMatch]);
}
