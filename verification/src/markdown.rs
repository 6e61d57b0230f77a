//! Markdown event streams and the two conversions the export menu makes of
//! them: plain text and presentation slides.
//!
//! Events arrive in document order, as a CommonMark parser reports them:
//! text, breaks, rules, and the start and end of each block.
use vstd::prelude::*;
use crate::chars::{is_white, trim_end_by, white};
use crate::strs::{decimal, decimal_string, push_char};

verus! {

/// A block (or inline container) that events open and close.
#[derive(Debug, PartialEq, Eq, Structural)]
pub enum Block {
    Paragraph,
    /// A heading of level 1 to 6.
    Heading(u8),
    BlockQuote,
    CodeBlock,
    /// A list; `Some(n)` is an ordered list numbered from `n`.
    List(Option<u64>),
    Item,
    /// Any other container (emphasis, links, tables, ...).
    Other,
}

/// One event of a parsed Markdown document.
pub enum MdEvent {
    /// Literal text.
    Text(String),
    /// Inline code.
    Code(String),
    SoftBreak,
    HardBreak,
    /// A thematic break.
    Rule,
    Start(Block),
    End(Block),
    /// Anything else (HTML, footnote references, task markers, ...).
    Other,
}

#[verifier::external_type_specification]
#[verifier::external_body]
pub struct ExTagEnd(pulldown_cmark::TagEnd);

/// The events pulldown-cmark reports for `markdown` with every extension
/// enabled (`Parser::new_ext(markdown, Options::all())`), in the library's
/// event type. CommonMark parsing stays a name here.
pub uninterp spec fn markdown_events(markdown: Seq<char>) -> Seq<MdEvent>;

/// The block kind of a pulldown-cmark tag end: paragraphs, headings (with
/// the level's number), block quotes, code blocks, lists, items, and
/// `Other` for the rest. Only `parse_events` uses it, on each start and end
/// tag; the block of a list end is `List(None)`.
#[verifier::external_body]
fn block_of(tag: pulldown_cmark::TagEnd) -> Block {
    match tag {
        pulldown_cmark::TagEnd::Paragraph => Block::Paragraph,
        pulldown_cmark::TagEnd::Heading(level) => Block::Heading(level as u8),
        pulldown_cmark::TagEnd::BlockQuote(_) => Block::BlockQuote,
        pulldown_cmark::TagEnd::CodeBlock => Block::CodeBlock,
        pulldown_cmark::TagEnd::List(_) => Block::List(None),
        pulldown_cmark::TagEnd::Item => Block::Item,
        _ => Block::Other,
    }
}

/// Calls `pulldown_cmark::Parser::new_ext(markdown, Options::all())` and
/// collects its events, each converted one for one: text, inline code,
/// breaks and rules as they are, a list start with its first number, other
/// start tags through `Tag::to_end`, end tags as they are, and `Other` for
/// the remaining events. The result is named by `markdown_events`.
#[verifier::external_body]
pub(crate) fn parse_events(markdown: &str) -> (r: Vec<MdEvent>)
    ensures
        r@ == markdown_events(markdown@),
{
    pulldown_cmark::Parser::new_ext(markdown, pulldown_cmark::Options::all()).map(|event| match event {
        pulldown_cmark::Event::Text(t) => MdEvent::Text(t.into_string()),
        pulldown_cmark::Event::Code(t) => MdEvent::Code(t.into_string()),
        pulldown_cmark::Event::SoftBreak => MdEvent::SoftBreak,
        pulldown_cmark::Event::HardBreak => MdEvent::HardBreak,
        pulldown_cmark::Event::Rule => MdEvent::Rule,
        pulldown_cmark::Event::Start(pulldown_cmark::Tag::List(n)) => MdEvent::Start(Block::List(n)),
        pulldown_cmark::Event::Start(tag) => MdEvent::Start(block_of(tag.to_end())),
        pulldown_cmark::Event::End(tag) => MdEvent::End(block_of(tag)),
        _ => MdEvent::Other,
    }).collect()
}

/// The conversion state: output so far, and the open lists with their next
/// item numbers.
pub struct PlainState {
    pub out: Seq<char>,
    pub lists: Seq<Option<u64>>,
    pub numbers: Seq<u64>,
}

/// `s` repeated `n` times.
pub open spec fn repeat(s: Seq<char>, n: nat) -> Seq<char>
    decreases n,
{
    if n == 0 {
        Seq::empty()
    } else {
        repeat(s, (n - 1) as nat) + s
    }
}

/// The marker of a new list item at the current nesting.
pub open spec fn item_marker(st: PlainState) -> Seq<char> {
    let depth: nat = if st.lists.len() >= 1 { (st.lists.len() - 1) as nat } else { 0 };
    let indent = repeat("  "@, depth);
    if st.lists.len() > 0 && st.lists.last() is Some {
        indent + decimal(st.numbers.last() as nat) + ". "@
    } else {
        indent + "• "@
    }
}

/// The plain-text conversion of one event.
pub open spec fn plain_step(st: PlainState, e: MdEvent) -> PlainState {
    match e {
        MdEvent::Text(t) => PlainState { out: st.out + t@, ..st },
        MdEvent::Code(t) => PlainState { out: st.out + t@, ..st },
        MdEvent::SoftBreak => PlainState { out: st.out.push(' '), ..st },
        MdEvent::HardBreak => PlainState { out: st.out.push('\n'), ..st },
        MdEvent::Rule => PlainState { out: st.out + "\n---\n\n"@, ..st },
        MdEvent::Start(b) => match b {
            Block::BlockQuote => PlainState { out: st.out + "  "@, ..st },
            Block::CodeBlock => PlainState { out: st.out.push('\n'), ..st },
            Block::List(start) => PlainState {
                lists: st.lists.push(start),
                numbers: st.numbers.push(
                    match start {
                        Some(n) => n,
                        None => 1u64,
                    },
                ),
                ..st
            },
            Block::Item => if st.numbers.len() > 0 {
                if st.lists.len() > 0 && st.lists.last() is Some {
                    PlainState {
                        out: st.out + item_marker(st),
                        numbers: st.numbers.update(
                            st.numbers.len() - 1,
                            (st.numbers.last() + 1) as u64,
                        ),
                        ..st
                    }
                } else {
                    PlainState { out: st.out + item_marker(st), ..st }
                }
            } else {
                st
            },
            _ => st,
        },
        MdEvent::End(b) => match b {
            Block::Paragraph => PlainState { out: st.out + "\n\n"@, ..st },
            Block::Heading(_) => PlainState { out: st.out + "\n\n"@, ..st },
            Block::BlockQuote => PlainState { out: st.out.push('\n'), ..st },
            Block::CodeBlock => PlainState { out: st.out.push('\n'), ..st },
            Block::List(_) => PlainState {
                out: st.out.push('\n'),
                lists: if st.lists.len() > 0 { st.lists.drop_last() } else { st.lists },
                numbers: if st.numbers.len() > 0 { st.numbers.drop_last() } else { st.numbers },
            },
            Block::Item => PlainState { out: st.out.push('\n'), ..st },
            _ => st,
        },
        MdEvent::Other => st,
    }
}

/// The conversion state after the events `es`.
pub open spec fn plain_run(es: Seq<MdEvent>) -> PlainState
    decreases es.len(),
{
    if es.len() == 0 {
        PlainState { out: Seq::empty(), lists: Seq::empty(), numbers: Seq::empty() }
    } else {
        plain_step(plain_run(es.drop_last()), es.last())
    }
}

/// The plain text of a document: the converted events with trailing
/// whitespace trimmed and one newline appended.
pub open spec fn spec_plain_text(es: Seq<MdEvent>) -> Seq<char> {
    trim_end_by(plain_run(es).out, white()).push('\n')
}

/// Number of list items (`Start(Item)` events) in `es`.
pub open spec fn item_count(es: Seq<MdEvent>) -> nat
    decreases es.len(),
{
    if es.len() == 0 {
        0
    } else {
        item_count(es.drop_last()) + if es.last() matches MdEvent::Start(Block::Item) { 1nat } else { 0 }
    }
}

/// No item number can run past `u64::MAX`: every ordered list starts low
/// enough for one more number per list item of the document.
pub open spec fn numbers_fit(es: Seq<MdEvent>) -> bool {
    forall|k: int|
        0 <= k < es.len() ==> (#[trigger] es[k] matches MdEvent::Start(Block::List(Some(n))) ==> n
            + item_count(es) <= u64::MAX)
}

/// Item counts add up over concatenation.
proof fn lemma_item_count_concat(a: Seq<MdEvent>, b: Seq<MdEvent>)
    ensures
        item_count(a + b) == item_count(a) + item_count(b),
    decreases b.len(),
{
    if b.len() > 0 {
        assert((a + b).drop_last() =~= a + b.drop_last());
        lemma_item_count_concat(a, b.drop_last());
    } else {
        assert(a + b =~= a);
    }
}

/// There are no more items than events.
proof fn lemma_item_count_len(es: Seq<MdEvent>)
    ensures
        item_count(es) <= es.len(),
    decreases es.len(),
{
    if es.len() > 0 {
        lemma_item_count_len(es.drop_last());
    }
}

/// Trailing whitespace is trimmed from `s` by `trim_end_by`: what is left
/// ends in a character that is not whitespace.
proof fn lemma_trim_end_white(s: Seq<char>)
    ensures
        trim_end_by(s, white()).len() > 0 ==> !is_white(trim_end_by(s, white()).last()),
    decreases s.len(),
{
    if s.len() > 0 && white()(s.last()) {
        lemma_trim_end_white(s.drop_last());
    }
}

/// The plain text ends in exactly one newline: the character before it, if
/// any, is not whitespace.
pub proof fn law_plain_text_one_trailing_newline(es: Seq<MdEvent>)
    ensures
        spec_plain_text(es).len() >= 1,
        spec_plain_text(es).last() == '\n',
        spec_plain_text(es).len() >= 2 ==> !is_white(spec_plain_text(es)[spec_plain_text(es).len() - 2]),
{
    lemma_trim_end_white(plain_run(es).out);
}

/// Number of list items in `events`.
fn count_items(events: &Vec<MdEvent>) -> (c: usize)
    ensures
        c == item_count(events@),
{
    let mut c: usize = 0;
    let mut i: usize = 0;
    while i < events.len()
        invariant
            i <= events@.len(),
            c == item_count(events@.take(i as int)),
            c <= i,
        decreases events@.len() - i,
    {
        proof {
            assert(events@.take(i + 1).drop_last() =~= events@.take(i as int));
        }
        match &events[i] {
            MdEvent::Start(Block::Item) => {
                c = c + 1;
            },
            _ => {},
        }
        i = i + 1;
    }
    proof {
        assert(events@.take(events@.len() as int) =~= events@);
    }
    c
}

/// Whether every ordered list of `events` starts low enough for its item
/// numbers to stay within `u64` (the condition `plain_text_from_events`
/// needs).
pub fn item_numbers_fit(events: &Vec<MdEvent>) -> (r: bool)
    ensures
        r == numbers_fit(events@),
{
    let total = count_items(events) as u64;
    let mut i: usize = 0;
    while i < events.len()
        invariant
            i <= events@.len(),
            total == item_count(events@),
            forall|k: int|
                0 <= k < i ==> (#[trigger] events@[k] matches MdEvent::Start(Block::List(Some(n))) ==> n
                    + item_count(events@) <= u64::MAX),
        decreases events@.len() - i,
    {
        match &events[i] {
            MdEvent::Start(Block::List(Some(n))) => {
                if *n > u64::MAX - total {
                    return false;
                }
            },
            _ => {},
        }
        i = i + 1;
    }
    true
}

/// Appends `t` to `out`.
fn push_all(out: &mut String, t: &str)
    ensures
        final(out)@ == old(out)@ + t@,
{
    out.append(t);
}

/// Every open list's number leaves room for one more per remaining item.
spec fn numbers_bounded(rem: nat, st: PlainState) -> bool {
    &&& st.lists.len() == st.numbers.len()
    &&& forall|j: int| 0 <= j < st.numbers.len() ==> #[trigger] st.numbers[j] + rem <= u64::MAX
}

/// The items from `i` on are the item at `i`, if it is one, and those after.
proof fn lemma_items_from(all: Seq<MdEvent>, i: int)
    requires
        0 <= i < all.len(),
    ensures
        item_count(all.skip(i)) == item_count(all.skip(i + 1)) + if all[i] matches MdEvent::Start(Block::Item) {
            1nat
        } else {
            0
        },
{
    assert(all.skip(i) =~= seq![all[i]] + all.skip(i + 1));
    lemma_item_count_concat(seq![all[i]], all.skip(i + 1));
    let one = seq![all[i]];
    assert(one.drop_last() =~= Seq::<MdEvent>::empty());
    assert(one.last() == all[i]);
    assert(item_count(one) == item_count(one.drop_last()) + if one.last() matches MdEvent::Start(Block::Item) {
        1nat
    } else {
        0
    });
}

/// The item numbers stay in range while the events are converted.
proof fn lemma_numbers_bounded(all: Seq<MdEvent>, i: int)
    requires
        0 <= i <= all.len(),
        all.len() <= u64::MAX,
        numbers_fit(all),
    ensures
        numbers_bounded(item_count(all.skip(i)), plain_run(all.take(i))),
    decreases i,
{
    if i > 0 {
        let es = all.take(i);
        lemma_numbers_bounded(all, i - 1);
        lemma_items_from(all, i - 1);
        let rem = item_count(all.skip(i));
        assert(es.drop_last() =~= all.take(i - 1));
        assert(es.last() == all[i - 1]);
        let st = plain_run(all.take(i - 1));
        let st2 = plain_run(es);
        assert(st2 == plain_step(st, all[i - 1]));
        match all[i - 1] {
            MdEvent::Start(Block::List(start)) => {
                assert(all =~= es + all.skip(i));
                lemma_item_count_concat(es, all.skip(i));
                lemma_item_count_len(all.skip(i));
                assert forall|j: int| 0 <= j < st2.numbers.len() implies #[trigger] st2.numbers[j] + rem
                    <= u64::MAX by {
                    if j < st.numbers.len() {
                        assert(st2.numbers[j] == st.numbers[j]);
                    } else {
                        if let Some(n) = start {
                            assert(all[i - 1] matches MdEvent::Start(Block::List(Some(n))));
                            assert(st2.numbers[j] == n);
                        } else {
                            assert(st2.numbers[j] == 1);
                        }
                    }
                }
            },
            MdEvent::Start(Block::Item) => {
                assert forall|j: int| 0 <= j < st2.numbers.len() implies #[trigger] st2.numbers[j] + rem
                    <= u64::MAX by {
                    assert(st.numbers[j] + rem + 1 <= u64::MAX);
                    if st.numbers.len() > 0 && st.lists.len() > 0 && st.lists.last() is Some && j == st.numbers.len() - 1 {
                        assert(st2.numbers[j] == st.numbers[j] + 1);
                    } else {
                        assert(st2.numbers[j] == st.numbers[j]);
                    }
                }
            },
            MdEvent::End(Block::List(_)) => {
                assert forall|j: int| 0 <= j < st2.numbers.len() implies #[trigger] st2.numbers[j] + rem
                    <= u64::MAX by {
                    assert(st2.numbers[j] == st.numbers[j]);
                }
            },
            _ => {
                assert forall|j: int| 0 <= j < st2.numbers.len() implies #[trigger] st2.numbers[j] + rem
                    <= u64::MAX by {
                    assert(st2.numbers[j] == st.numbers[j]);
                }
            },
        }
    }
}

/// Strip Markdown formatting and return plain text.
pub fn plain_text_from_events(events: &Vec<MdEvent>) -> (r: String)
    requires
        numbers_fit(events@),
    ensures
        r@ == spec_plain_text(events@),
{
    let mut out = String::new();
    let mut list_stack: Vec<Option<u64>> = Vec::new();
    let mut item_index: Vec<u64> = Vec::new();
    let mut i: usize = 0;
    while i < events.len()
        invariant
            i <= events@.len(),
            numbers_fit(events@),
            plain_run(events@.take(i as int)) == (PlainState {
                out: out@,
                lists: list_stack@,
                numbers: item_index@,
            }),
        decreases events@.len() - i,
    {
        proof {
            lemma_numbers_bounded(events@, i as int);
            assert(events@.take(i + 1).drop_last() =~= events@.take(i as int));
        }
        let ghost st = PlainState { out: out@, lists: list_stack@, numbers: item_index@ };
        let total = events.len();
        match &events[i] {
            MdEvent::Text(t) => push_all(&mut out, t.as_str()),
            MdEvent::Code(t) => push_all(&mut out, t.as_str()),
            MdEvent::SoftBreak => push_char(&mut out, ' '),
            MdEvent::HardBreak => push_char(&mut out, '\n'),
            MdEvent::Rule => push_all(&mut out, "\n---\n\n"),
            MdEvent::Start(b) => match b {
                Block::BlockQuote => push_all(&mut out, "  "),
                Block::CodeBlock => push_char(&mut out, '\n'),
                Block::List(start) => {
                    list_stack.push(*start);
                    item_index.push(
                        match start {
                            Some(n) => *n,
                            None => 1,
                        },
                    );
                },
                Block::Item => {
                    let depth = if list_stack.len() >= 1 { list_stack.len() - 1 } else { 0 };
                    let l = item_index.len();
                    if l > 0 {
                        let mut marker = String::new();
                        let mut d: usize = 0;
                        while d < depth
                            invariant
                                d <= depth,
                                marker@ == repeat("  "@, d as nat),
                            decreases depth - d,
                        {
                            push_all(&mut marker, "  ");
                            d = d + 1;
                        }
                        let numbered = list_stack.len() > 0 && list_stack[list_stack.len() - 1].is_some();
                        if numbered {
                            let v = item_index[l - 1];
                            push_all(&mut marker, decimal_string(v).as_str());
                            push_all(&mut marker, ". ");
                            proof {
                                lemma_items_from(events@, i as int);
                                assert(v + item_count(events@.skip(i as int)) <= u64::MAX);
                            }
                            item_index.set(l - 1, v + 1);
                        } else {
                            push_all(&mut marker, "• ");
                        }
                        proof {
                            assert(marker@ == item_marker(st));
                        }
                        push_all(&mut out, marker.as_str());
                    }
                },
                _ => {},
            },
            MdEvent::End(b) => match b {
                Block::Paragraph => push_all(&mut out, "\n\n"),
                Block::Heading(_) => push_all(&mut out, "\n\n"),
                Block::BlockQuote => push_char(&mut out, '\n'),
                Block::CodeBlock => push_char(&mut out, '\n'),
                Block::List(_) => {
                    list_stack.pop();
                    item_index.pop();
                    push_char(&mut out, '\n');
                },
                Block::Item => push_char(&mut out, '\n'),
                _ => {},
            },
            MdEvent::Other => {},
        }
        proof {
            assert(plain_run(events@.take(i + 1)) == plain_step(st, events@[i as int]));
            assert(plain_step(st, events@[i as int]) == (PlainState {
                out: out@,
                lists: list_stack@,
                numbers: item_index@,
            }));
        }
        i = i + 1;
    }
    proof {
        assert(events@.take(events@.len() as int) =~= events@);
    }
    let t = crate::text_util::chars_of(out.as_str());
    let e = crate::chars::trim_end_white(&t, 0, t.len());
    let mut r = crate::chars::string_of_range(&t, 0, e);
    proof {
        assert(t@.subrange(0, t@.len() as int) =~= t@);
    }
    push_char(&mut r, '\n');
    r
}

/// Strip Markdown formatting and return plain text: `None` where an item
/// number of an ordered list would run past `u64::MAX`.
pub fn markdown_to_plain_text(markdown: &str) -> (r: Option<String>)
    ensures
        r is Some <==> numbers_fit(markdown_events(markdown@)),
        r matches Some(t) ==> t@ == spec_plain_text(markdown_events(markdown@)),
{
    let events = parse_events(markdown);
    if item_numbers_fit(&events) {
        Some(plain_text_from_events(&events))
    } else {
        None
    }
}

/// A hard line break becomes a line break of the plain text: the text so
/// far gets exactly one `\n` and nothing else changes; so a paragraph of
/// `a`, a hard break and `b` reads `a`, a newline, `b` (and the final
/// newline).
pub proof fn law_hard_break_is_newline(es: Seq<MdEvent>, a: String, b: String)
    ensures
        plain_run(es.push(MdEvent::HardBreak)).out == plain_run(es).out.push('\n'),
        plain_run(es.push(MdEvent::HardBreak)).lists == plain_run(es).lists,
        plain_run(es.push(MdEvent::HardBreak)).numbers == plain_run(es).numbers,
        b@.len() > 0 && !is_white(b@.last()) ==> spec_plain_text(
            seq![
                MdEvent::Start(Block::Paragraph),
                MdEvent::Text(a),
                MdEvent::HardBreak,
                MdEvent::Text(b),
                MdEvent::End(Block::Paragraph),
            ],
        ) == a@ + "\n"@ + b@ + "\n"@,
{
    assert(es.push(MdEvent::HardBreak).drop_last() =~= es);
    if b@.len() > 0 && !is_white(b@.last()) {
        let e0 = Seq::<MdEvent>::empty();
        let e1 = e0.push(MdEvent::Start(Block::Paragraph));
        let e2 = e1.push(MdEvent::Text(a));
        let e3 = e2.push(MdEvent::HardBreak);
        let e4 = e3.push(MdEvent::Text(b));
        let e5 = e4.push(MdEvent::End(Block::Paragraph));
        assert(e5 =~= seq![
            MdEvent::Start(Block::Paragraph),
            MdEvent::Text(a),
            MdEvent::HardBreak,
            MdEvent::Text(b),
            MdEvent::End(Block::Paragraph),
        ]);
        assert(e1.drop_last() =~= e0);
        assert(e2.drop_last() =~= e1);
        assert(e3.drop_last() =~= e2);
        assert(e4.drop_last() =~= e3);
        assert(e5.drop_last() =~= e4);
        reveal_strlit("\n\n");
        reveal_strlit("\n");
        let body = a@ + "\n"@ + b@;
        assert(plain_run(e0).out =~= Seq::<char>::empty());
        assert(e1.last() == MdEvent::Start(Block::Paragraph));
        assert(e2.last() == MdEvent::Text(a));
        assert(e3.last() == MdEvent::HardBreak);
        assert(e4.last() == MdEvent::Text(b));
        assert(e5.last() == MdEvent::End(Block::Paragraph));
        assert(plain_run(e1).out =~= Seq::<char>::empty());
        assert(plain_run(e2).out =~= a@);
        assert(plain_run(e3).out =~= a@.push('\n'));
        assert(plain_run(e4).out =~= body);
        let out = plain_run(e5).out;
        assert(out =~= body + "\n\n"@);
        assert(out.drop_last() =~= body.push('\n'));
        assert(body.push('\n').drop_last() =~= body);
        assert(body.last() == b@.last());
        assert(white()(out.last()));
        assert(white()(out.drop_last().last()));
        assert(!white()(body.last()));
        assert(trim_end_by(body, white()) == body);
        assert(trim_end_by(body.push('\n'), white()) == trim_end_by(body, white()));
        assert(trim_end_by(out, white()) == trim_end_by(out.drop_last(), white()));
        assert(trim_end_by(out, white()) == body);
    }
}

/// Inline events add to the plain text as they read: text and inline code
/// as they are, a soft break as a space, a rule as a line `---` with a
/// blank line after it; list numbering is left as it was.
pub proof fn law_inline_events(es: Seq<MdEvent>, t: String)
    ensures
        plain_run(es.push(MdEvent::Text(t))).out == plain_run(es).out + t@,
        plain_run(es.push(MdEvent::Code(t))).out == plain_run(es).out + t@,
        plain_run(es.push(MdEvent::SoftBreak)).out == plain_run(es).out.push(' '),
        plain_run(es.push(MdEvent::Rule)).out == plain_run(es).out + "\n---\n\n"@,
        plain_run(es.push(MdEvent::Text(t))).numbers == plain_run(es).numbers,
        plain_run(es.push(MdEvent::Rule)).numbers == plain_run(es).numbers,
{
    assert(es.push(MdEvent::Text(t)).drop_last() =~= es);
    assert(es.push(MdEvent::Code(t)).drop_last() =~= es);
    assert(es.push(MdEvent::SoftBreak).drop_last() =~= es);
    assert(es.push(MdEvent::Rule).drop_last() =~= es);
}

} // verus!
