//! Laying out task notes (markdown) for the PDF exports: the notes are
//! parsed by pulldown-cmark, and a machine takes the parser's events one
//! by one and builds the blocks the PDF shows — styled paragraphs indented per list and quote depth, code
//! lines, spacers, rules and tables.
use vstd::prelude::*;

use pulldown_cmark::{Event, Options, Parser, Tag, TagEnd};

use crate::notes::split_lines;
use crate::text::{append_chars, chars_of, nat_text, u64_text};

verus! {

// ---------------------------------------------------------------- output

/// Text colour of a run.
#[derive(Clone, Copy, PartialEq, Eq, Structural, Debug)]
pub enum TextColor {
    Default,
    Gray,
    CodeGray,
}

/// How a run of text is set: its font size (`None`: the document's), bold,
/// italic, colour.
#[derive(Clone, Copy, PartialEq, Eq, Structural, Debug)]
pub struct TextStyle {
    pub size: Option<u8>,
    pub bold: bool,
    pub italic: bool,
    pub color: TextColor,
}

/// A run of text in one style.
#[derive(Clone, Debug)]
pub struct Run {
    pub text: Vec<char>,
    pub style: TextStyle,
}

/// A table: its column count and its rows of cells, each cell a paragraph.
#[derive(Clone, Debug)]
pub struct Table {
    pub columns: usize,
    pub rows: Vec<Vec<Vec<Run>>>,
}

/// One block of the laid-out notes.
#[derive(Clone, Debug)]
pub enum Block {
    /// A paragraph, indented one step per enclosing list and quote.
    Para { runs: Vec<Run>, lists: usize, quotes: usize },
    /// One line of a code block.
    Code { text: Vec<char> },
    /// Vertical space, in tenths of a line.
    Space { tenths: u64 },
    /// A horizontal rule.
    Rule,
    /// A table.
    Table { table: Table },
}

/// A run, as plain values.
pub struct RunV {
    pub text: Seq<char>,
    pub style: TextStyle,
}

/// A table, as plain values.
pub struct TableV {
    pub columns: nat,
    pub rows: Seq<Seq<Seq<RunV>>>,
}

/// A block, as plain values.
pub enum BlockV {
    Para { runs: Seq<RunV>, lists: nat, quotes: nat },
    Code { text: Seq<char> },
    Space { tenths: nat },
    Rule,
    Table { table: TableV },
}

pub open spec fn run_v(r: Run) -> RunV {
    RunV { text: r.text@, style: r.style }
}

pub open spec fn runs_v(v: Seq<Run>) -> Seq<RunV> {
    v.map_values(|r: Run| run_v(r))
}

pub open spec fn cells_v(v: Seq<Vec<Run>>) -> Seq<Seq<RunV>> {
    v.map_values(|c: Vec<Run>| runs_v(c@))
}

pub open spec fn table_v(t: Table) -> TableV {
    TableV { columns: t.columns as nat, rows: t.rows@.map_values(|r: Vec<Vec<Run>>| cells_v(r@)) }
}

pub open spec fn block_v(b: Block) -> BlockV {
    match b {
        Block::Para { runs, lists, quotes } => BlockV::Para {
            runs: runs_v(runs@),
            lists: lists as nat,
            quotes: quotes as nat,
        },
        Block::Code { text } => BlockV::Code { text: text@ },
        Block::Space { tenths } => BlockV::Space { tenths: tenths as nat },
        Block::Rule => BlockV::Rule,
        Block::Table { table } => BlockV::Table { table: table_v(table) },
    }
}

pub open spec fn blocks_v(v: Seq<Block>) -> Seq<BlockV> {
    v.map_values(|b: Block| block_v(b))
}

// ---------------------------------------------------------------- input

/// The markdown parser's events the layout reacts to.
#[derive(Debug)]
pub enum MdEvent {
    HeadingStart(u8),
    HeadingEnd,
    ParagraphStart,
    ParagraphEnd,
    StrongStart,
    StrongEnd,
    EmphasisStart,
    EmphasisEnd,
    QuoteStart,
    QuoteEnd,
    /// A list; numbered from the given number, or bulleted.
    ListStart(Option<u64>),
    ListEnd,
    ItemStart,
    ItemEnd,
    /// A task list checkbox, ticked or not.
    TaskMarker(bool),
    CodeBlockStart,
    CodeBlockEnd,
    /// A table with this many column alignments.
    TableStart(usize),
    TableEnd,
    TableHeadStart,
    TableHeadEnd,
    TableRowStart,
    TableRowEnd,
    TableCellStart,
    TableCellEnd,
    Text(String),
    Code(String),
    SoftBreak,
    HardBreak,
    Rule,
    /// Anything else (ignored).
    Other,
}

/// An event as the layout reads it: its text as characters.
pub enum MdEventV {
    HeadingStart(u8),
    HeadingEnd,
    ParagraphStart,
    ParagraphEnd,
    StrongStart,
    StrongEnd,
    EmphasisStart,
    EmphasisEnd,
    QuoteStart,
    QuoteEnd,
    ListStart(Option<u64>),
    ListEnd,
    ItemStart,
    ItemEnd,
    TaskMarker(bool),
    CodeBlockStart,
    CodeBlockEnd,
    TableStart(usize),
    TableEnd,
    TableHeadStart,
    TableHeadEnd,
    TableRowStart,
    TableRowEnd,
    TableCellStart,
    TableCellEnd,
    Text(Seq<char>),
    Code(Seq<char>),
    SoftBreak,
    HardBreak,
    Rule,
    Other,
}

impl View for MdEvent {
    type V = MdEventV;

    open spec fn view(&self) -> MdEventV {
        match *self {
            MdEvent::HeadingStart(l) => MdEventV::HeadingStart(l),
            MdEvent::HeadingEnd => MdEventV::HeadingEnd,
            MdEvent::ParagraphStart => MdEventV::ParagraphStart,
            MdEvent::ParagraphEnd => MdEventV::ParagraphEnd,
            MdEvent::StrongStart => MdEventV::StrongStart,
            MdEvent::StrongEnd => MdEventV::StrongEnd,
            MdEvent::EmphasisStart => MdEventV::EmphasisStart,
            MdEvent::EmphasisEnd => MdEventV::EmphasisEnd,
            MdEvent::QuoteStart => MdEventV::QuoteStart,
            MdEvent::QuoteEnd => MdEventV::QuoteEnd,
            MdEvent::ListStart(s) => MdEventV::ListStart(s),
            MdEvent::ListEnd => MdEventV::ListEnd,
            MdEvent::ItemStart => MdEventV::ItemStart,
            MdEvent::ItemEnd => MdEventV::ItemEnd,
            MdEvent::TaskMarker(c) => MdEventV::TaskMarker(c),
            MdEvent::CodeBlockStart => MdEventV::CodeBlockStart,
            MdEvent::CodeBlockEnd => MdEventV::CodeBlockEnd,
            MdEvent::TableStart(n) => MdEventV::TableStart(n),
            MdEvent::TableEnd => MdEventV::TableEnd,
            MdEvent::TableHeadStart => MdEventV::TableHeadStart,
            MdEvent::TableHeadEnd => MdEventV::TableHeadEnd,
            MdEvent::TableRowStart => MdEventV::TableRowStart,
            MdEvent::TableRowEnd => MdEventV::TableRowEnd,
            MdEvent::TableCellStart => MdEventV::TableCellStart,
            MdEvent::TableCellEnd => MdEventV::TableCellEnd,
            MdEvent::Text(t) => MdEventV::Text(t@),
            MdEvent::Code(t) => MdEventV::Code(t@),
            MdEvent::SoftBreak => MdEventV::SoftBreak,
            MdEvent::HardBreak => MdEventV::HardBreak,
            MdEvent::Rule => MdEventV::Rule,
            MdEvent::Other => MdEventV::Other,
        }
    }
}

// ---------------------------------------------------------------- state

/// The layout so far, as plain values.
pub struct MdState {
    pub out: Seq<BlockV>,
    pub para: Seq<RunV>,
    pub para_used: bool,
    pub bold: nat,
    pub italic: nat,
    pub quote: nat,
    pub heading: bool,
    pub size: u8,
    pub lists: Seq<Option<u64>>,
    pub prefix: Option<Seq<char>>,
    pub code_block: bool,
    pub table: Option<TableV>,
    pub in_table_head: bool,
    pub cells: Seq<Seq<RunV>>,
}

/// The text size outside headings.
pub const BASE_SIZE: u8 = 10;

/// The layout machine: the blocks laid out so far and what the open
/// markdown elements make of the text to come.
pub struct MdPdf {
    pub out: Vec<Block>,
    pub para: Vec<Run>,
    pub para_used: bool,
    pub bold: usize,
    pub italic: usize,
    pub quote: usize,
    pub heading: bool,
    pub size: u8,
    pub lists: Vec<Option<u64>>,
    pub prefix: Option<Vec<char>>,
    pub code_block: bool,
    pub table: Option<Table>,
    pub in_table_head: bool,
    pub cells: Vec<Vec<Run>>,
}

impl View for MdPdf {
    type V = MdState;

    open spec fn view(&self) -> MdState {
        MdState {
            out: blocks_v(self.out@),
            para: runs_v(self.para@),
            para_used: self.para_used,
            bold: self.bold as nat,
            italic: self.italic as nat,
            quote: self.quote as nat,
            heading: self.heading,
            size: self.size,
            lists: self.lists@,
            prefix: match self.prefix {
                Some(p) => Some(p@),
                None => None,
            },
            code_block: self.code_block,
            table: match self.table {
                Some(t) => Some(table_v(t)),
                None => None,
            },
            in_table_head: self.in_table_head,
            cells: cells_v(self.cells@),
        }
    }
}

// ---------------------------------------------------------------- transitions

/// The style text takes now: the current size; bold inside strong text,
/// headings and the table head; italic inside emphasis and quotes; gray
/// inside quotes.
pub open spec fn style_of(s: MdState) -> TextStyle {
    TextStyle {
        size: Some(s.size),
        bold: s.bold > 0 || s.heading || s.in_table_head,
        italic: s.italic > 0 || s.quote > 0,
        color: if s.quote > 0 {
            TextColor::Gray
        } else {
            TextColor::Default
        },
    }
}

/// Unstyled text at `size`.
pub open spec fn plain(size: u8) -> TextStyle {
    TextStyle { size: Some(size), bold: false, italic: false, color: TextColor::Default }
}

/// A pending list marker goes into the paragraph, unstyled.
pub open spec fn took_prefix(s: MdState) -> MdState {
    match s.prefix {
        Some(p) => MdState {
            para: s.para.push(RunV { text: p, style: plain(s.size) }),
            para_used: true,
            prefix: None,
            ..s
        },
        None => s,
    }
}

/// `tenths` of a line of space, if any.
pub open spec fn spaced(s: MdState, tenths: nat) -> MdState {
    if tenths > 0 {
        MdState { out: s.out.push(BlockV::Space { tenths }), ..s }
    } else {
        s
    }
}

/// The current paragraph closes: dropped when nothing was written in it,
/// made a table cell inside a table, else laid out (indented per list and
/// quote depth) and followed by `after` tenths of space.
pub open spec fn flushed(s: MdState, after: nat) -> MdState {
    if !s.para_used {
        MdState { para: Seq::empty(), ..s }
    } else if s.table is Some {
        MdState { cells: s.cells.push(s.para), para: Seq::empty(), para_used: false, ..s }
    } else {
        spaced(
            MdState {
                out: s.out.push(BlockV::Para { runs: s.para, lists: s.lists.len(), quotes: s.quote }),
                para: Seq::empty(),
                para_used: false,
                ..s
            },
            after,
        )
    }
}

/// A table cell closes; an empty one gets a space so the grid stays
/// rectangular.
pub open spec fn cell_finished(s: MdState) -> MdState {
    flushed(
        if !s.para_used {
            MdState { para: s.para.push(RunV { text: seq![' '], style: plain(s.size) }), para_used: true, ..s }
        } else {
            s
        },
        0,
    )
}

/// A table row closes: its cells become a row of the open table (cells
/// outside a table are dropped).
pub open spec fn row_finished(s: MdState) -> MdState {
    match s.table {
        None => MdState { cells: Seq::empty(), ..s },
        Some(t) => if s.cells.len() == 0 {
            s
        } else {
            MdState { table: Some(TableV { rows: t.rows.push(s.cells), ..t }), cells: Seq::empty(), ..s }
        },
    }
}

/// The open table is laid out, followed by half a line of space.
pub open spec fn table_finished(s: MdState) -> MdState {
    match s.table {
        Some(t) => spaced(MdState { out: s.out.push(BlockV::Table { table: t }), table: None, ..s }, 5),
        None => s,
    }
}

/// `t` without the newlines at its end.
pub open spec fn trim_newlines_end(t: Seq<char>) -> Seq<char>
    decreases t.len(),
{
    if t.len() > 0 && t.last() == '\n' {
        trim_newlines_end(t.drop_last())
    } else {
        t
    }
}

/// Text arrives: inside a code block each of its lines becomes a code
/// line; elsewhere it joins the paragraph in the current style, after any
/// pending list marker.
pub open spec fn text_added(s: MdState, t: Seq<char>) -> MdState {
    if s.code_block {
        MdState {
            out: s.out + split_lines(trim_newlines_end(t)).map_values(|l: Seq<char>| BlockV::Code { text: l }),
            ..s
        }
    } else {
        let st = style_of(s);
        let s1 = took_prefix(s);
        MdState { para: s1.para.push(RunV { text: t, style: st }), para_used: true, ..s1 }
    }
}

/// The font size of a heading of `level`.
pub open spec fn heading_size(level: u8) -> u8 {
    if level == 1 {
        14
    } else if level == 2 {
        12
    } else {
        11
    }
}

/// The marker a new list item gets, and the lists after it: the next
/// number of a numbered list (which then counts on), else a bullet.
pub open spec fn item_marker(lists: Seq<Option<u64>>) -> (Option<Seq<char>>, Seq<Option<u64>>) {
    if lists.len() > 0 && lists.last() is Some {
        let n = lists.last()->0;
        (Some(nat_text(n as nat) + seq!['.', ' ']), lists.update(lists.len() - 1, Some((n + 1) as u64)))
    } else {
        (Some(seq!['•', ' ', ' ']), lists)
    }
}

/// Whether the machine can take `ev` in state `s`: an end never comes
/// without its start, and counters stay in range.
pub open spec fn can_take(s: MdState, ev: MdEventV) -> bool {
    match ev {
        MdEventV::StrongStart => s.bold < usize::MAX,
        MdEventV::StrongEnd => s.bold > 0,
        MdEventV::EmphasisStart => s.italic < usize::MAX,
        MdEventV::EmphasisEnd => s.italic > 0,
        MdEventV::QuoteStart => s.quote < usize::MAX,
        MdEventV::QuoteEnd => s.quote > 0,
        MdEventV::ItemStart => s.lists.len() > 0 && s.lists.last() is Some ==> s.lists.last()->0 < u64::MAX,
        _ => true,
    }
}

/// The state after event `ev`.
pub open spec fn md_step(s: MdState, ev: MdEventV) -> MdState {
    match ev {
        MdEventV::HeadingStart(level) => MdState { size: heading_size(level), heading: true, ..flushed(s, 2) },
        MdEventV::HeadingEnd => MdState { size: BASE_SIZE, heading: false, ..flushed(s, 4) },
        MdEventV::ParagraphStart => s,
        MdEventV::ParagraphEnd => flushed(s, 5),
        MdEventV::StrongStart => MdState { bold: s.bold + 1, ..s },
        MdEventV::StrongEnd => MdState { bold: (s.bold - 1) as nat, ..s },
        MdEventV::EmphasisStart => MdState { italic: s.italic + 1, ..s },
        MdEventV::EmphasisEnd => MdState { italic: (s.italic - 1) as nat, ..s },
        MdEventV::QuoteStart => {
            let f = flushed(s, 2);
            MdState { quote: f.quote + 1, ..f }
        },
        MdEventV::QuoteEnd => {
            let f = flushed(s, 4);
            MdState { quote: (f.quote - 1) as nat, ..f }
        },
        MdEventV::ListStart(start) => {
            let f = flushed(s, 1);
            MdState { lists: f.lists.push(start), ..f }
        },
        MdEventV::ListEnd => {
            let popped = MdState { lists: if s.lists.len() > 0 { s.lists.drop_last() } else { s.lists }, ..s };
            if popped.lists.len() == 0 {
                spaced(popped, 4)
            } else {
                popped
            }
        },
        MdEventV::ItemStart => {
            let (marker, lists) = item_marker(s.lists);
            MdState { prefix: marker, lists, ..s }
        },
        MdEventV::ItemEnd => flushed(s, 1),
        MdEventV::TaskMarker(checked) => MdState {
            prefix: Some(if checked { seq!['[', 'x', ']', ' '] } else { seq!['[', ' ', ' ', ']', ' '] }),
            ..s
        },
        MdEventV::CodeBlockStart => MdState { code_block: true, ..flushed(s, 2) },
        MdEventV::CodeBlockEnd => spaced(MdState { code_block: false, ..s }, 4),
        MdEventV::TableStart(n) => MdState {
            table: Some(TableV { columns: if n > 0 { n as nat } else { 1 }, rows: Seq::empty() }),
            ..flushed(s, 2)
        },
        MdEventV::TableEnd => table_finished(s),
        MdEventV::TableHeadStart => MdState { in_table_head: true, ..s },
        MdEventV::TableHeadEnd => row_finished(MdState { in_table_head: false, ..s }),
        MdEventV::TableRowStart => s,
        MdEventV::TableRowEnd => row_finished(s),
        MdEventV::TableCellStart => s,
        MdEventV::TableCellEnd => cell_finished(s),
        MdEventV::Text(t) => text_added(s, t),
        MdEventV::Code(t) => {
            let st = TextStyle { color: TextColor::CodeGray, ..style_of(s) };
            let s1 = took_prefix(s);
            MdState { para: s1.para.push(RunV { text: t, style: st }), ..s1 }
        },
        MdEventV::SoftBreak => text_added(s, seq![' ']),
        MdEventV::HardBreak => flushed(s, 0),
        MdEventV::Rule => spaced(MdState { out: flushed(s, 2).out.push(BlockV::Rule), ..flushed(s, 2) }, 2),
        MdEventV::Other => s,
    }
}

/// The empty layout the machine starts from.
pub open spec fn md_start() -> MdState {
    MdState {
        out: Seq::empty(),
        para: Seq::empty(),
        para_used: false,
        bold: 0,
        italic: 0,
        quote: 0,
        heading: false,
        size: BASE_SIZE,
        lists: Seq::empty(),
        prefix: None,
        code_block: false,
        table: None,
        in_table_head: false,
        cells: Seq::empty(),
    }
}

/// The state after taking `evs` in order from `s`; `None` when one of them
/// cannot be taken where it comes.
pub open spec fn md_run(s: MdState, evs: Seq<MdEventV>) -> Option<MdState>
    decreases evs.len(),
{
    if evs.len() == 0 {
        Some(s)
    } else if !can_take(s, evs[0]) {
        None
    } else {
        md_run(md_step(s, evs[0]), evs.drop_first())
    }
}

/// The blocks that `evs` lay out, from the empty layout, with the last
/// paragraph closed; `None` when an event comes where it cannot be taken.
pub open spec fn md_layout_of(evs: Seq<MdEventV>) -> Option<Seq<BlockV>> {
    match md_run(md_start(), evs) {
        Some(s) => Some(flushed(s, 0).out),
        None => None,
    }
}

/// The text of a paragraph's runs, run after run.
pub open spec fn para_text(runs: Seq<RunV>) -> Seq<char>
    decreases runs.len(),
{
    if runs.len() == 0 {
        Seq::empty()
    } else {
        para_text(runs.drop_last()) + runs.last().text
    }
}

proof fn lemma_para_text_push(runs: Seq<RunV>, r: RunV)
    ensures
        para_text(runs.push(r)) == para_text(runs) + r.text,
{
    assert(runs.push(r).drop_last() =~= runs);
}

/// A soft line break keeps the words apart: in running text (outside a
/// code block), text `a`, a soft break and text `b` add `a`, one space and
/// `b` to the paragraph, after any list marker still pending.
pub proof fn law_soft_break_keeps_words_apart(s: MdState, a: Seq<char>, b: Seq<char>)
    requires
        !s.code_block,
    ensures
        para_text(
            md_step(md_step(md_step(s, MdEventV::Text(a)), MdEventV::SoftBreak), MdEventV::Text(b)).para,
        ) == para_text(took_prefix(s).para) + a + seq![' '] + b,
{
    let s1 = md_step(s, MdEventV::Text(a));
    let s2 = md_step(s1, MdEventV::SoftBreak);
    let s3 = md_step(s2, MdEventV::Text(b));
    let p0 = took_prefix(s);
    assert(s1.para == p0.para.push(RunV { text: a, style: style_of(s) }));
    assert(s1.prefix is None && !s1.code_block);
    assert(took_prefix(s1) == s1);
    assert(s2.para == s1.para.push(RunV { text: seq![' '], style: style_of(s1) }));
    assert(took_prefix(s2) == s2);
    assert(s3.para == s2.para.push(RunV { text: b, style: style_of(s2) }));
    lemma_para_text_push(p0.para, RunV { text: a, style: style_of(s) });
    lemma_para_text_push(s1.para, RunV { text: seq![' '], style: style_of(s1) });
    lemma_para_text_push(s2.para, RunV { text: b, style: style_of(s2) });
    assert(para_text(p0.para) + a + seq![' '] + b =~= ((para_text(p0.para) + a) + seq![' ']) + b);
}

/// Numbered list items count on: an item of a list now at `n` is marked
/// "`n`. " and the next item of that list gets `n + 1`; an item of a
/// bulleted list is marked with a bullet, and a list's items keep the
/// nesting depth.
pub proof fn law_list_items_count_on(s: MdState)
    requires
        s.lists.len() > 0,
    ensures
        ({
            let t = md_step(s, MdEventV::ItemStart);
            &&& t.lists.len() == s.lists.len()
            &&& t.lists.drop_last() == s.lists.drop_last()
            &&& match s.lists.last() {
                Some(n) => t.prefix == Some(nat_text(n as nat) + seq!['.', ' ']) && t.lists.last() == Some((n + 1) as u64),
                None => t.prefix == Some(seq!['•', ' ', ' ']) && t.lists.last() is None,
            }
        }),
{
    let t = md_step(s, MdEventV::ItemStart);
    assert(t.lists.drop_last() =~= s.lists.drop_last());
}

/// Headings are set bold, larger the higher their level (14 for a level-1
/// heading, 12 for level 2, 11 below), and text goes back to the body size
/// after them.
pub proof fn law_headings_are_larger(s: MdState, level: u8)
    ensures
        ({
            let t = md_step(s, MdEventV::HeadingStart(level));
            &&& style_of(t).bold
            &&& t.size == (if level == 1 { 14u8 } else if level == 2 { 12u8 } else { 11u8 })
            &&& md_step(t, MdEventV::HeadingEnd).size == BASE_SIZE
            &&& !md_step(t, MdEventV::HeadingEnd).heading
        }),
{
}

// ---------------------------------------------------------------- machine

proof fn lemma_map_push<A, B>(v: Seq<A>, x: A, f: spec_fn(A) -> B)
    ensures
        v.push(x).map_values(f) == v.map_values(f).push(f(x)),
{
    assert(v.push(x).map_values(f) =~= v.map_values(f).push(f(x)));
}

proof fn lemma_map_empty<A, B>(f: spec_fn(A) -> B)
    ensures
        Seq::<A>::empty().map_values(f) == Seq::<B>::empty(),
{
    assert(Seq::<A>::empty().map_values(f) =~= Seq::<B>::empty());
}

impl MdPdf {
    /// An empty layout.
    pub fn new() -> (r: MdPdf)
        ensures
            r@ == md_start(),
    {
        let r = MdPdf {
            out: Vec::new(),
            para: Vec::new(),
            para_used: false,
            bold: 0,
            italic: 0,
            quote: 0,
            heading: false,
            size: BASE_SIZE,
            lists: Vec::new(),
            prefix: None,
            code_block: false,
            table: None,
            in_table_head: false,
            cells: Vec::new(),
        };
        proof {
            lemma_map_empty(|b: Block| block_v(b));
            lemma_map_empty(|r: Run| run_v(r));
            lemma_map_empty(|c: Vec<Run>| runs_v(c@));
        }
        r
    }

    /// The style text takes now.
    pub fn style(&self) -> (r: TextStyle)
        ensures
            r == style_of(self@),
    {
        TextStyle {
            size: Some(self.size),
            bold: self.bold > 0 || self.heading || self.in_table_head,
            italic: self.italic > 0 || self.quote > 0,
            color: if self.quote > 0 {
                TextColor::Gray
            } else {
                TextColor::Default
            },
        }
    }

    fn push_run(&mut self, text: Vec<char>, style: TextStyle)
        ensures
            final(self)@ == (MdState { para: old(self)@.para.push(RunV { text: text@, style }), ..old(self)@ }),
    {
        let ghost before = self.para@;
        self.para.push(Run { text, style });
        proof {
            lemma_map_push(before, self.para@.last(), |r: Run| run_v(r));
            assert(self.para@ == before.push(self.para@.last()));
        }
    }

    fn push_block(&mut self, b: Block)
        ensures
            final(self)@ == (MdState { out: old(self)@.out.push(block_v(b)), ..old(self)@ }),
    {
        let ghost before = self.out@;
        let ghost bv = block_v(b);
        self.out.push(b);
        proof {
            lemma_map_push(before, self.out@.last(), |b: Block| block_v(b));
            assert(self.out@ == before.push(self.out@.last()));
        }
    }

    /// A pending list marker goes into the paragraph.
    pub fn take_prefix(&mut self)
        ensures
            final(self)@ == took_prefix(old(self)@),
    {
        let p = self.prefix.take();
        match p {
            Some(p) => {
                let st = TextStyle { size: Some(self.size), bold: false, italic: false, color: TextColor::Default };
                self.push_run(p, st);
                self.para_used = true;
            },
            None => {},
        }
    }

    /// `tenths` of a line of space, if any.
    pub fn spacer(&mut self, tenths: u64)
        ensures
            final(self)@ == spaced(old(self)@, tenths as nat),
    {
        if tenths > 0 {
            self.push_block(Block::Space { tenths });
        }
    }

    /// Closes the current paragraph, indented per list and quote depth.
    pub fn flush(&mut self, after: u64)
        ensures
            final(self)@ == flushed(old(self)@, after as nat),
    {
        if !self.para_used {
            self.para = Vec::new();
            proof {
                lemma_map_empty(|r: Run| run_v(r));
            }
            return;
        }
        let mut para: Vec<Run> = Vec::new();
        std::mem::swap(&mut para, &mut self.para);
        self.para_used = false;
        proof {
            lemma_map_empty(|r: Run| run_v(r));
        }
        if self.table.is_some() {
            let ghost before = self.cells@;
            self.cells.push(para);
            proof {
                lemma_map_push(before, self.cells@.last(), |c: Vec<Run>| runs_v(c@));
                assert(self.cells@ == before.push(self.cells@.last()));
            }
            return;
        }
        let lists = self.lists.len();
        let quotes = self.quote;
        self.push_block(Block::Para { runs: para, lists, quotes });
        self.spacer(after);
    }

    /// Closes a table cell; an empty one gets a space.
    pub fn finish_cell(&mut self)
        ensures
            final(self)@ == cell_finished(old(self)@),
    {
        if !self.para_used {
            let mut sp: Vec<char> = Vec::new();
            sp.push(' ');
            proof {
                assert(sp@ =~= seq![' ']);
            }
            let st = TextStyle { size: Some(self.size), bold: false, italic: false, color: TextColor::Default };
            self.push_run(sp, st);
            self.para_used = true;
        }
        self.flush(0);
    }

    /// Closes a table row.
    pub fn finish_row(&mut self)
        ensures
            final(self)@ == row_finished(old(self)@),
    {
        if self.table.is_none() {
            self.cells = Vec::new();
            proof {
                lemma_map_empty(|c: Vec<Run>| runs_v(c@));
            }
            return;
        }
        if self.cells.len() == 0 {
            return;
        }
        let mut cells: Vec<Vec<Run>> = Vec::new();
        std::mem::swap(&mut cells, &mut self.cells);
        proof {
            lemma_map_empty(|c: Vec<Run>| runs_v(c@));
        }
        let mut t = self.table.take().unwrap();
        let ghost before = t.rows@;
        t.rows.push(cells);
        proof {
            lemma_map_push(before, t.rows@.last(), |r: Vec<Vec<Run>>| cells_v(r@));
            assert(t.rows@ == before.push(t.rows@.last()));
        }
        self.table = Some(t);
    }

    /// Lays out the open table.
    pub fn finish_table(&mut self)
        ensures
            final(self)@ == table_finished(old(self)@),
    {
        match self.table.take() {
            Some(t) => {
                self.push_block(Block::Table { table: t });
                self.spacer(5);
            },
            None => {},
        }
    }

    /// Text arrives.
    pub fn text(&mut self, t: Vec<char>)
        ensures
            final(self)@ == text_added(old(self)@, t@),
    {
        if self.code_block {
            let trimmed = trim_newlines(&t);
            let lines = crate::notes::split_lines_of(&trimmed);
            let ghost start = self.out@;
            let ghost want = split_lines(trim_newlines_end(t@)).map_values(|l: Seq<char>| BlockV::Code { text: l });
            let mut i: usize = 0;
            while i < lines.len()
                invariant
                    crate::notes::views(lines@) == split_lines(trim_newlines_end(t@)),
                    want == split_lines(trim_newlines_end(t@)).map_values(|l: Seq<char>| BlockV::Code { text: l }),
                    i <= lines.len(),
                    self@ == (MdState { out: blocks_v(start) + want.take(i as int), ..old(self)@ }),
                decreases lines.len() - i,
            {
                let line = copy_chars(&lines[i]);
                proof {
                    assert(crate::notes::views(lines@)[i as int] == lines@[i as int]@);
                }
                self.push_block(Block::Code { text: line });
                proof {
                    assert(want.take(i + 1) =~= want.take(i as int).push(want[i as int]));
                    assert(blocks_v(start) + want.take(i + 1) =~= (blocks_v(start) + want.take(i as int)).push(
                        want[i as int],
                    ));
                }
                i = i + 1;
            }
            proof {
                assert(want.take(lines.len() as int) =~= want);
            }
            return;
        }
        let st = self.style();
        self.take_prefix();
        self.push_run(t, st);
        self.para_used = true;
    }

    /// Whether the machine can take `ev` now.
    pub fn can_take(&self, ev: &MdEvent) -> (r: bool)
        ensures
            r == can_take(self@, ev@),
    {
        match ev {
            MdEvent::StrongStart => self.bold < usize::MAX,
            MdEvent::StrongEnd => self.bold > 0,
            MdEvent::EmphasisStart => self.italic < usize::MAX,
            MdEvent::EmphasisEnd => self.italic > 0,
            MdEvent::QuoteStart => self.quote < usize::MAX,
            MdEvent::QuoteEnd => self.quote > 0,
            MdEvent::ItemStart => {
                let n = self.lists.len();
                if n > 0 {
                    match self.lists[n - 1] {
                        Some(k) => k < u64::MAX,
                        None => true,
                    }
                } else {
                    true
                }
            },
            _ => true,
        }
    }

    /// Takes the next event.
    #[verifier::spinoff_prover]
    #[verifier::rlimit(60)]
    pub fn step(&mut self, ev: MdEvent)
        requires
            can_take(old(self)@, ev@),
        ensures
            final(self)@ == md_step(old(self)@, ev@),
    {
        match ev {
            MdEvent::HeadingStart(level) => {
                self.flush(2);
                self.size = if level == 1 {
                    14
                } else if level == 2 {
                    12
                } else {
                    11
                };
                self.heading = true;
            },
            MdEvent::HeadingEnd => {
                self.flush(4);
                self.size = BASE_SIZE;
                self.heading = false;
            },
            MdEvent::ParagraphStart => {},
            MdEvent::ParagraphEnd => self.flush(5),
            MdEvent::StrongStart => self.bold = self.bold + 1,
            MdEvent::StrongEnd => self.bold = self.bold - 1,
            MdEvent::EmphasisStart => self.italic = self.italic + 1,
            MdEvent::EmphasisEnd => self.italic = self.italic - 1,
            MdEvent::QuoteStart => {
                self.flush(2);
                self.quote = self.quote + 1;
            },
            MdEvent::QuoteEnd => {
                self.flush(4);
                self.quote = self.quote - 1;
            },
            MdEvent::ListStart(start) => {
                self.flush(1);
                self.lists.push(start);
            },
            MdEvent::ListEnd => {
                let _ = self.lists.pop();
                if self.lists.len() == 0 {
                    self.spacer(4);
                }
            },
            MdEvent::ItemStart => {
                let n = self.lists.len();
                let marker: Vec<char> = if n > 0 && self.lists[n - 1].is_some() {
                    let k = self.lists[n - 1].unwrap();
                    self.lists.set(n - 1, Some(k + 1));
                    let mut m = u64_text(k);
                    m.push('.');
                    m.push(' ');
                    proof {
                        assert(m@ =~= nat_text(k as nat) + seq!['.', ' ']);
                    }
                    m
                } else {
                    let mut m: Vec<char> = Vec::new();
                    m.push('•');
                    m.push(' ');
                    m.push(' ');
                    proof {
                        assert(m@ =~= seq!['•', ' ', ' ']);
                    }
                    m
                };
                self.prefix = Some(marker);
            },
            MdEvent::ItemEnd => self.flush(1),
            MdEvent::TaskMarker(checked) => {
                let m = if checked {
                    let mut m: Vec<char> = Vec::new();
                    m.push('[');
                    m.push('x');
                    m.push(']');
                    m.push(' ');
                    proof {
                        assert(m@ =~= seq!['[', 'x', ']', ' ']);
                    }
                    m
                } else {
                    let mut m: Vec<char> = Vec::new();
                    m.push('[');
                    m.push(' ');
                    m.push(' ');
                    m.push(']');
                    m.push(' ');
                    proof {
                        assert(m@ =~= seq!['[', ' ', ' ', ']', ' ']);
                    }
                    m
                };
                self.prefix = Some(m);
            },
            MdEvent::CodeBlockStart => {
                self.flush(2);
                self.code_block = true;
            },
            MdEvent::CodeBlockEnd => {
                self.code_block = false;
                self.spacer(4);
            },
            MdEvent::TableStart(n) => {
                self.flush(2);
                let columns = if n > 0 {
                    n
                } else {
                    1
                };
                self.table = Some(Table { columns, rows: Vec::new() });
                proof {
                    lemma_map_empty(|r: Vec<Vec<Run>>| cells_v(r@));
                }
            },
            MdEvent::TableEnd => self.finish_table(),
            MdEvent::TableHeadStart => self.in_table_head = true,
            MdEvent::TableHeadEnd => {
                self.in_table_head = false;
                self.finish_row();
            },
            MdEvent::TableRowStart => {},
            MdEvent::TableRowEnd => self.finish_row(),
            MdEvent::TableCellStart => {},
            MdEvent::TableCellEnd => self.finish_cell(),
            MdEvent::Text(t) => {
                let v = chars_of(t.as_str());
                self.text(v);
            },
            MdEvent::Code(t) => {
                let st = self.style();
                let st = TextStyle { color: TextColor::CodeGray, ..st };
                self.take_prefix();
                let v = chars_of(t.as_str());
                self.push_run(v, st);
            },
            MdEvent::SoftBreak => {
                let mut v: Vec<char> = Vec::new();
                v.push(' ');
                proof {
                    assert(v@ =~= seq![' ']);
                }
                self.text(v);
            },
            MdEvent::HardBreak => self.flush(0),
            MdEvent::Rule => {
                self.flush(2);
                self.push_block(Block::Rule);
                self.spacer(2);
            },
            MdEvent::Other => {},
        }
    }

    /// The blocks, once the last paragraph is closed.
    pub fn finish(self) -> (r: Vec<Block>)
        ensures
            blocks_v(r@) == flushed(self@, 0).out,
    {
        let mut me = self;
        me.flush(0);
        me.out
    }
}

/// A copy of `v`.
fn copy_chars(v: &Vec<char>) -> (r: Vec<char>)
    ensures
        r@ == v@,
{
    let mut r: Vec<char> = Vec::new();
    append_chars(&mut r, v);
    r
}

/// `t` without the newlines at its end.
fn trim_newlines(t: &Vec<char>) -> (r: Vec<char>)
    ensures
        r@ == trim_newlines_end(t@),
{
    let mut n = t.len();
    proof {
        assert(t@.take(n as int) =~= t@);
    }
    while n > 0 && t[n - 1] == '\n'
        invariant
            n <= t.len(),
            trim_newlines_end(t@) == trim_newlines_end(t@.take(n as int)),
        decreases n,
    {
        proof {
            assert(t@.take(n as int).drop_last() =~= t@.take(n - 1));
        }
        n = n - 1;
    }
    let mut r: Vec<char> = Vec::new();
    let mut i: usize = 0;
    while i < n
        invariant
            n <= t.len(),
            i <= n,
            r@ == t@.take(i as int),
        decreases n - i,
    {
        r.push(t[i]);
        proof {
            assert(t@.take(i + 1) =~= t@.take(i as int).push(t@[i as int]));
        }
        i = i + 1;
    }
    proof {
        if n > 0 {
            assert(t@.take(n as int).last() == t@[n - 1]);
        }
        assert(trim_newlines_end(t@.take(n as int)) == t@.take(n as int));
    }
    r
}

// ---------------------------------------------------------------- parsing

/// A markdown parser event (`pulldown_cmark::Event`), carried to the
/// conversion below.
#[verifier::external_type_specification]
#[verifier::external_body]
pub struct ExParserEvent<'a>(pulldown_cmark::Event<'a>);

/// A markdown element tag (`pulldown_cmark::Tag`).
#[verifier::external_type_specification]
#[verifier::external_body]
pub struct ExParserTag<'a>(pulldown_cmark::Tag<'a>);

/// The end of a markdown element (`pulldown_cmark::TagEnd`).
#[verifier::external_type_specification]
#[verifier::external_body]
pub struct ExParserTagEnd(pulldown_cmark::TagEnd);

/// The events `pulldown_cmark::Parser::new_ext` yields for `text` with
/// strikethrough, tables and task lists on, each read as the layout reads
/// it (`MdEvent`'s view).
pub uninterp spec fn md_events_of(text: Seq<char>) -> Seq<MdEventV>;

/// The views of `evs`, in order.
pub open spec fn md_event_views(evs: Seq<MdEvent>) -> Seq<MdEventV> {
    evs.map_values(|e: MdEvent| e@)
}

/// `pulldown_cmark::Parser::new_ext` with strikethrough, tables and task
/// lists on: its events, each converted to an `MdEvent`. Claimed: the
/// result is the parser's output for `text`, a function of `text` alone
/// (named `md_events_of`).
#[verifier::external_body]
fn parse_markdown(text: &str) -> (r: Vec<MdEvent>)
    ensures
        md_event_views(r@) == md_events_of(text@),
{
    let options = Options::ENABLE_STRIKETHROUGH | Options::ENABLE_TABLES | Options::ENABLE_TASKLISTS;
    let mut r = Vec::new();
    for event in Parser::new_ext(text, options) {
        r.push(md_event_of(event));
    }
    r
}

/// One `pulldown_cmark::Event` as an `MdEvent`, one arm per variant.
#[verifier::external_body]
fn md_event_of(event: Event<'_>) -> MdEvent {
    match event {
        Event::Start(tag) => md_start_of(tag),
        Event::End(tag) => md_end_of(tag),
        Event::Text(t) => MdEvent::Text(t.to_string()),
        Event::Code(t) => MdEvent::Code(t.to_string()),
        Event::SoftBreak => MdEvent::SoftBreak,
        Event::HardBreak => MdEvent::HardBreak,
        Event::Rule => MdEvent::Rule,
        Event::TaskListMarker(checked) => MdEvent::TaskMarker(checked),
        _ => MdEvent::Other,
    }
}

/// The start of a `pulldown_cmark::Tag` as an `MdEvent`, one arm per variant.
#[verifier::external_body]
fn md_start_of(tag: Tag<'_>) -> MdEvent {
    match tag {
        Tag::Heading { level, .. } => MdEvent::HeadingStart(level as u8),
        Tag::Paragraph => MdEvent::ParagraphStart,
        Tag::Strong => MdEvent::StrongStart,
        Tag::Emphasis => MdEvent::EmphasisStart,
        Tag::BlockQuote(_) => MdEvent::QuoteStart,
        Tag::List(start) => MdEvent::ListStart(start),
        Tag::Item => MdEvent::ItemStart,
        Tag::CodeBlock(_) => MdEvent::CodeBlockStart,
        Tag::Table(alignments) => MdEvent::TableStart(alignments.len()),
        Tag::TableHead => MdEvent::TableHeadStart,
        Tag::TableRow => MdEvent::TableRowStart,
        Tag::TableCell => MdEvent::TableCellStart,
        _ => MdEvent::Other,
    }
}

/// A `pulldown_cmark::TagEnd` as an `MdEvent`, one arm per variant.
#[verifier::external_body]
fn md_end_of(tag: TagEnd) -> MdEvent {
    match tag {
        TagEnd::Heading(_) => MdEvent::HeadingEnd,
        TagEnd::Paragraph => MdEvent::ParagraphEnd,
        TagEnd::Strong => MdEvent::StrongEnd,
        TagEnd::Emphasis => MdEvent::EmphasisEnd,
        TagEnd::BlockQuote(_) => MdEvent::QuoteEnd,
        TagEnd::List(_) => MdEvent::ListEnd,
        TagEnd::Item => MdEvent::ItemEnd,
        TagEnd::CodeBlock => MdEvent::CodeBlockEnd,
        TagEnd::Table => MdEvent::TableEnd,
        TagEnd::TableHead => MdEvent::TableHeadEnd,
        TagEnd::TableRow => MdEvent::TableRowEnd,
        TagEnd::TableCell => MdEvent::TableCellEnd,
        _ => MdEvent::Other,
    }
}

/// Lays out parser events: the blocks they give from the empty layout,
/// or `None` when one comes where it cannot be taken (an end without its
/// start, a counter out of range).
pub fn layout_events(events: Vec<MdEvent>) -> (r: Option<Vec<Block>>)
    ensures
        match md_layout_of(md_event_views(events@)) {
            Some(b) => r matches Some(v) && blocks_v(v@) == b,
            None => r is None,
        },
{
    let ghost all = md_event_views(events@);
    let mut evs = events;
    let mut md = MdPdf::new();
    while evs.len() > 0
        invariant
            all == md_event_views(events@),
            md_run(md_start(), all) == md_run(md@, md_event_views(evs@)),
        decreases evs.len(),
    {
        let ghost rest = md_event_views(evs@);
        let ev = evs.remove(0);
        proof {
            assert(rest[0] == ev@);
            assert(rest.drop_first() =~= md_event_views(evs@));
        }
        if !md.can_take(&ev) {
            proof {
                assert(md_run(md@, rest) is None);
            }
            return None;
        }
        let ghost before = md@;
        md.step(ev);
        proof {
            assert(md_run(before, rest) == md_run(md@, rest.drop_first()));
        }
    }
    proof {
        assert(md_event_views(evs@) =~= Seq::<MdEventV>::empty());
    }
    Some(md.finish())
}

/// Lays out a task's markdown notes: the parser's events for `text`, then
/// `layout_events` on them.
pub fn layout_markdown(text: &str) -> (r: Option<Vec<Block>>)
    ensures
        match md_layout_of(md_events_of(text@)) {
            Some(b) => r matches Some(v) && blocks_v(v@) == b,
            None => r is None,
        },
{
    layout_events(parse_markdown(text))
}

} // verus!
