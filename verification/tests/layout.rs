use worklog::idle::{IdleMonitor, WaylandIdle};
use worklog::md_layout::{layout_events, layout_markdown, Block, MdEvent, MdPdf, TextColor};

fn lay_out(events: Vec<MdEvent>) -> Vec<Block> {
    let mut md = MdPdf::new();
    for ev in events {
        assert!(md.can_take(&ev));
        md.step(ev);
    }
    md.finish()
}

fn text(runs: &[worklog::md_layout::Run]) -> String {
    runs.iter().flat_map(|r| r.text.iter()).collect()
}

#[test]
fn headings_and_paragraphs_get_their_styles() {
    let blocks = lay_out(vec![
        MdEvent::HeadingStart(2),
        MdEvent::Text("plan".to_string()),
        MdEvent::HeadingEnd,
        MdEvent::ParagraphStart,
        MdEvent::Text("watch the ".to_string()),
        MdEvent::StrongStart,
        MdEvent::Text("edge case".to_string()),
        MdEvent::StrongEnd,
        MdEvent::ParagraphEnd,
    ]);
    match &blocks[0] {
        Block::Para { runs, .. } => {
            assert_eq!(text(runs), "plan");
            assert_eq!(runs[0].style.size, Some(12));
            assert!(runs[0].style.bold);
        }
        _ => panic!("heading expected"),
    }
    assert!(matches!(blocks[1], Block::Space { tenths: 4 }));
    match &blocks[2] {
        Block::Para { runs, lists: 0, quotes: 0 } => {
            assert_eq!(text(runs), "watch the edge case");
            assert!(!runs[0].style.bold);
            assert!(runs[1].style.bold);
            assert_eq!(runs[1].style.size, Some(10));
        }
        _ => panic!("paragraph expected"),
    }
    assert!(matches!(blocks[3], Block::Space { tenths: 5 }));
    assert_eq!(blocks.len(), 4);
}

#[test]
fn numbered_lists_count_on_and_indent() {
    let blocks = lay_out(vec![
        MdEvent::ListStart(Some(3)),
        MdEvent::ItemStart,
        MdEvent::Text("a".to_string()),
        MdEvent::ItemEnd,
        MdEvent::ItemStart,
        MdEvent::Text("b".to_string()),
        MdEvent::ItemEnd,
        MdEvent::ListEnd,
    ]);
    let paras: Vec<(String, usize)> = blocks
        .iter()
        .filter_map(|b| match b {
            Block::Para { runs, lists, .. } => Some((text(runs), *lists)),
            _ => None,
        })
        .collect();
    assert_eq!(paras, vec![("3. a".to_string(), 1), ("4. b".to_string(), 1)]);
    assert!(matches!(blocks.last(), Some(Block::Space { tenths: 4 })));
}

#[test]
fn code_blocks_become_gray_lines_and_quotes_go_gray() {
    let blocks = lay_out(vec![
        MdEvent::CodeBlockStart,
        MdEvent::Text("let x = 1;\nlet y = 2;\n\n".to_string()),
        MdEvent::CodeBlockEnd,
        MdEvent::QuoteStart,
        MdEvent::ParagraphStart,
        MdEvent::Text("said".to_string()),
        MdEvent::ParagraphEnd,
        MdEvent::QuoteEnd,
    ]);
    let code: Vec<String> = blocks
        .iter()
        .filter_map(|b| match b {
            Block::Code { text } => Some(text.iter().collect()),
            _ => None,
        })
        .collect();
    assert_eq!(code, vec!["let x = 1;", "let y = 2;"]);
    let quoted = blocks.iter().find_map(|b| match b {
        Block::Para { runs, quotes: 1, .. } => Some(runs[0].style),
        _ => None,
    });
    let st = quoted.unwrap();
    assert!(st.italic);
    assert_eq!(st.color, TextColor::Gray);
}

#[test]
fn tables_keep_their_grid() {
    let blocks = lay_out(vec![
        MdEvent::TableStart(2),
        MdEvent::TableHeadStart,
        MdEvent::TableCellStart,
        MdEvent::Text("Col 1".to_string()),
        MdEvent::TableCellEnd,
        MdEvent::TableCellStart,
        MdEvent::TableCellEnd,
        MdEvent::TableHeadEnd,
        MdEvent::TableRowStart,
        MdEvent::TableCellStart,
        MdEvent::Text("x".to_string()),
        MdEvent::TableCellEnd,
        MdEvent::TableCellStart,
        MdEvent::Text("y".to_string()),
        MdEvent::TableCellEnd,
        MdEvent::TableRowEnd,
        MdEvent::TableEnd,
    ]);
    match &blocks[0] {
        Block::Table { table } => {
            assert_eq!(table.columns, 2);
            assert_eq!(table.rows.len(), 2);
            assert!(table.rows[0][0][0].style.bold);
            assert_eq!(text(&table.rows[0][1]), " ");
            assert_eq!(text(&table.rows[1][1]), "y");
        }
        _ => panic!("table expected"),
    }
    assert!(matches!(blocks[1], Block::Space { tenths: 5 }));
}

#[test]
fn unbalanced_ends_are_refused() {
    let md = MdPdf::new();
    assert!(!md.can_take(&MdEvent::StrongEnd));
    assert!(!md.can_take(&MdEvent::QuoteEnd));
    assert!(md.can_take(&MdEvent::Rule));
}

#[test]
fn idle_sources_report_seconds() {
    let w = WaylandIdle { alive: true, idle_for_secs: Some(12) };
    assert_eq!(w.idle_secs(), Some(42));
    assert_eq!(WaylandIdle { alive: true, idle_for_secs: None }.idle_secs(), Some(0));
    assert_eq!(WaylandIdle { alive: false, idle_for_secs: Some(5) }.idle_secs(), None);
    assert_eq!(IdleMonitor::Wayland(w).idle_secs(Some(7)), Some(42));
    assert_eq!(IdleMonitor::Poll.idle_secs(Some(7)), Some(7));
    assert_eq!(IdleMonitor::Poll.idle_secs(None), None);
}

#[test]
fn notes_text_is_parsed_then_laid_out() {
    let blocks = layout_markdown("## plan\nwatch the **edge case**").unwrap();
    assert_eq!(blocks.len(), 4);
    match &blocks[0] {
        Block::Para { runs, .. } => {
            assert_eq!(text(runs), "plan");
            assert_eq!(runs[0].style.size, Some(12));
        }
        _ => panic!("heading expected"),
    }
    match &blocks[2] {
        Block::Para { runs, .. } => {
            assert_eq!(text(runs), "watch the edge case");
            assert!(runs[1].style.bold);
        }
        _ => panic!("paragraph expected"),
    }
}

#[test]
fn task_lists_show_their_checkboxes() {
    let blocks = layout_markdown("- [x] done\n- [ ] open").unwrap();
    let paras: Vec<String> = blocks
        .iter()
        .filter_map(|b| match b {
            Block::Para { runs, .. } => Some(text(runs)),
            _ => None,
        })
        .collect();
    assert_eq!(paras, vec!["[x] done".to_string(), "[  ] open".to_string()]);
}

#[test]
fn empty_notes_lay_out_nothing() {
    assert!(layout_markdown("").unwrap().is_empty());
}

#[test]
fn events_out_of_balance_give_no_layout() {
    assert!(layout_events(vec![MdEvent::Text("x".to_string()), MdEvent::StrongEnd]).is_none());
    let rule = layout_events(vec![MdEvent::Rule]).unwrap();
    assert!(rule.iter().any(|b| matches!(b, Block::Rule)));
}
