//! Slides from a Markdown event stream: level-1 and level-2 headings open
//! slides, list items and paragraphs become bullets.
use vstd::prelude::*;
use crate::chars::{string_of_range, trim, trim_end_white, trim_start_white};
use crate::markdown::{markdown_events, parse_events, Block, MdEvent};
use crate::strs::{concat, push_char};
use crate::text_util::chars_of;

verus! {

/// One bullet of a slide; `numbered` bullets are numbered list items.
pub struct Bullet {
    pub text: String,
    pub numbered: bool,
}

/// One slide: a title and its bullets in order.
pub struct Slide {
    pub title: String,
    pub bullets: Vec<Bullet>,
}

impl View for Bullet {
    type V = (Seq<char>, bool);

    open spec fn view(&self) -> (Seq<char>, bool) {
        (self.text@, self.numbered)
    }
}

impl View for Slide {
    type V = (Seq<char>, Seq<(Seq<char>, bool)>);

    open spec fn view(&self) -> (Seq<char>, Seq<(Seq<char>, bool)>) {
        (self.title@, self.bullets@.map_values(|b: Bullet| b@))
    }
}

/// A slide read as its title and bullets.
pub type SlideView = (Seq<char>, Seq<(Seq<char>, bool)>);

/// The conversion state: finished slides, the slide being filled, the text
/// collected since the last block boundary, and the list context.
pub struct SlideState {
    pub slides: Seq<SlideView>,
    pub current: Option<SlideView>,
    pub buf: Seq<char>,
    pub in_item: bool,
    pub ordered: bool,
}

/// `sl` with one more bullet.
pub open spec fn with_bullet(sl: SlideView, text: Seq<char>, numbered: bool) -> SlideView {
    (sl.0, sl.1.push((text, numbered)))
}

/// The current slide, or a fresh one titled `title`.
pub open spec fn current_or(cur: Option<SlideView>, title: Seq<char>) -> SlideView {
    match cur {
        Some(sl) => sl,
        None => (title, Seq::empty()),
    }
}

/// Whether a heading level opens a slide.
pub open spec fn is_slide_level(level: u8) -> bool {
    level == 1 || level == 2
}

/// The slide conversion of one event.
pub open spec fn slide_step(st: SlideState, e: MdEvent) -> SlideState {
    let t = trim(st.buf);
    match e {
        MdEvent::Start(Block::Heading(l)) => if is_slide_level(l) {
            SlideState {
                slides: match st.current {
                    Some(sl) => st.slides.push(sl),
                    None => st.slides,
                },
                current: None,
                buf: Seq::empty(),
                ..st
            }
        } else {
            SlideState { buf: Seq::empty(), ..st }
        },
        MdEvent::End(Block::Heading(l)) => if is_slide_level(l) {
            SlideState { current: Some((t, Seq::empty())), buf: Seq::empty(), ..st }
        } else if t.len() > 0 {
            SlideState {
                current: Some(with_bullet(current_or(st.current, ""@), "▶ "@ + t, false)),
                buf: Seq::empty(),
                ..st
            }
        } else {
            SlideState { buf: Seq::empty(), ..st }
        },
        MdEvent::Start(Block::List(start)) => SlideState { ordered: start is Some, ..st },
        MdEvent::Start(Block::Item) => SlideState { buf: Seq::empty(), in_item: true, ..st },
        MdEvent::End(Block::Item) => if t.len() > 0 {
            SlideState {
                current: Some(with_bullet(current_or(st.current, "Slide"@), t, st.ordered)),
                buf: Seq::empty(),
                in_item: false,
                ..st
            }
        } else {
            SlideState { buf: Seq::empty(), in_item: false, ..st }
        },
        MdEvent::End(Block::Paragraph) => if st.in_item {
            st
        } else if t.len() > 0 && st.current is Some {
            SlideState { current: Some(with_bullet(st.current->0, t, false)), buf: Seq::empty(), ..st }
        } else {
            SlideState { buf: Seq::empty(), ..st }
        },
        MdEvent::Start(Block::CodeBlock) => SlideState { buf: Seq::empty(), ..st },
        MdEvent::End(Block::CodeBlock) => if t.len() > 0 && st.current is Some {
            SlideState {
                current: Some(with_bullet(st.current->0, "📋 "@ + t, false)),
                buf: Seq::empty(),
                ..st
            }
        } else {
            SlideState { buf: Seq::empty(), ..st }
        },
        MdEvent::Text(x) => SlideState { buf: st.buf + x@, ..st },
        MdEvent::Code(x) => SlideState { buf: st.buf + x@, ..st },
        MdEvent::SoftBreak => SlideState { buf: st.buf.push(' '), ..st },
        MdEvent::HardBreak => SlideState { buf: st.buf.push('\n'), ..st },
        _ => st,
    }
}

/// The conversion state after the events `es`.
pub open spec fn slide_run(es: Seq<MdEvent>) -> SlideState
    decreases es.len(),
{
    if es.len() == 0 {
        SlideState { slides: Seq::empty(), current: None, buf: Seq::empty(), in_item: false, ordered: false }
    } else {
        slide_step(slide_run(es.drop_last()), es.last())
    }
}

/// The slides of a document: the finished slides and the last one; a
/// document without any becomes one "Presentation" slide holding the whole
/// (trimmed) text.
pub open spec fn spec_slides(es: Seq<MdEvent>, markdown: Seq<char>) -> Seq<SlideView> {
    let st = slide_run(es);
    let all = match st.current {
        Some(sl) => st.slides.push(sl),
        None => st.slides,
    };
    if all.len() == 0 {
        seq![("Presentation"@, seq![(trim(markdown), false)])]
    } else {
        all
    }
}

/// Every document gives at least one slide.
pub proof fn law_at_least_one_slide(es: Seq<MdEvent>, markdown: Seq<char>)
    ensures
        spec_slides(es, markdown).len() >= 1,
{
}

/// A list item's bullet is numbered exactly when the list most recently
/// started is an ordered one: a list start sets it, whatever lists came
/// before; other events leave it; and an item of that list, with some
/// text, adds to the current (or a new "Slide") slide the bullet of its
/// trimmed text, numbered as its list.
pub proof fn law_item_numbered_as_its_list(es: Seq<MdEvent>, start: Option<u64>, x: String, e: MdEvent)
    ensures
        slide_run(es.push(MdEvent::Start(Block::List(start)))).ordered == (start is Some),
        !(e matches MdEvent::Start(Block::List(_))) ==> slide_run(es.push(e)).ordered == slide_run(es).ordered,
        ({
            let tail = seq![
                MdEvent::Start(Block::List(start)),
                MdEvent::Start(Block::Item),
                MdEvent::Text(x),
                MdEvent::End(Block::Item),
            ];
            let st = slide_run(es + tail);
            trim(x@).len() > 0 ==> (st.current matches Some(sl) && sl.1.len() > 0 && sl.1.last() == (
                trim(x@),
                start is Some,
            ))
        }),
{
    assert(es.push(MdEvent::Start(Block::List(start))).drop_last() =~= es);
    assert(es.push(e).drop_last() =~= es);
    let e1 = es.push(MdEvent::Start(Block::List(start)));
    let e2 = e1.push(MdEvent::Start(Block::Item));
    let e3 = e2.push(MdEvent::Text(x));
    let e4 = e3.push(MdEvent::End(Block::Item));
    assert(e4 =~= es + seq![
        MdEvent::Start(Block::List(start)),
        MdEvent::Start(Block::Item),
        MdEvent::Text(x),
        MdEvent::End(Block::Item),
    ]);
    assert(e2.drop_last() =~= e1);
    assert(e3.drop_last() =~= e2);
    assert(e4.drop_last() =~= e3);
    assert(e1.last() == MdEvent::Start(Block::List(start)));
    assert(e2.last() == MdEvent::Start(Block::Item));
    assert(e3.last() == MdEvent::Text(x));
    assert(e4.last() == MdEvent::End(Block::Item));
    assert(slide_run(e2).buf =~= Seq::<char>::empty());
    assert(slide_run(e3).buf =~= x@);
    assert(slide_run(e3).ordered == (start is Some));
}

/// The slides read as views.
pub open spec fn slide_views(v: Seq<Slide>) -> Seq<SlideView> {
    v.map_values(|s: Slide| s@)
}

/// `str::trim` of a string.
fn trimmed(s: &str) -> (r: String)
    ensures
        r@ == trim(s@),
{
    let cs = chars_of(s);
    let e = trim_end_white(&cs, 0, cs.len());
    let a = trim_start_white(&cs, 0, e);
    proof {
        assert(cs@.subrange(0, cs@.len() as int) =~= cs@);
    }
    string_of_range(&cs, a, e)
}

/// A slide with no bullets.
fn new_slide(title: String) -> (r: Slide)
    ensures
        r@ == (title@, Seq::<(Seq<char>, bool)>::empty()),
{
    let r = Slide { title, bullets: Vec::new() };
    proof {
        assert(r@.1 =~= Seq::<(Seq<char>, bool)>::empty());
    }
    r
}

/// `sl` with one more bullet.
fn add_bullet(sl: Slide, text: String, numbered: bool) -> (r: Slide)
    ensures
        r@ == with_bullet(sl@, text@, numbered),
{
    let mut sl = sl;
    let b = Bullet { text, numbered };
    let ghost old_bullets = sl.bullets@;
    sl.bullets.push(b);
    proof {
        assert(sl.bullets@.map_values(|b: Bullet| b@) =~= old_bullets.map_values(|b: Bullet| b@).push(b@));
    }
    sl
}

/// The current slide, or a fresh one titled `title`.
fn take_or_new(current: Option<Slide>, title: &str) -> (r: Slide)
    ensures
        r@ == current_or(
            match current {
                Some(sl) => Some(sl@),
                None => None,
            },
            title@,
        ),
{
    match current {
        Some(sl) => sl,
        None => new_slide(title.to_owned()),
    }
}

/// The slide being filled, read as a view.
pub open spec fn opt_view(o: Option<Slide>) -> Option<SlideView> {
    match o {
        Some(sl) => Some(sl@),
        None => None,
    }
}

/// Convert a Markdown event stream into slides. H1/H2 headings become slide
/// titles; list items and paragraphs become bullets.
pub fn slides_from_events(events: &Vec<MdEvent>, markdown: &str) -> (r: Vec<Slide>)
    ensures
        slide_views(r@) == spec_slides(events@, markdown@),
{
    let mut slides: Vec<Slide> = Vec::new();
    let mut current: Option<Slide> = None;
    let mut buf = String::new();
    let mut in_list_item = false;
    let mut ordered = false;
    let mut i: usize = 0;
    proof {
        assert(slide_views(slides@) =~= Seq::<SlideView>::empty());
        assert(events@.take(0) =~= Seq::<MdEvent>::empty());
    }
    while i < events.len()
        invariant
            i <= events@.len(),
            slide_run(events@.take(i as int)) == (SlideState {
                slides: slide_views(slides@),
                current: opt_view(current),
                buf: buf@,
                in_item: in_list_item,
                ordered,
            }),
        decreases events@.len() - i,
    {
        proof {
            assert(events@.take(i + 1).drop_last() =~= events@.take(i as int));
        }
        let ghost st = SlideState {
            slides: slide_views(slides@),
            current: opt_view(current),
            buf: buf@,
            in_item: in_list_item,
            ordered,
        };
        let ghost old_slides = slides@;
        match &events[i] {
            MdEvent::Start(Block::Heading(l)) => {
                if *l == 1 || *l == 2 {
                    match current {
                        Some(sl) => {
                            slides.push(sl);
                            proof {
                                assert(slide_views(slides@) =~= slide_views(old_slides).push(st.current->0));
                            }
                        },
                        None => {},
                    }
                    current = None;
                }
                buf = String::new();
            },
            MdEvent::End(Block::Heading(l)) => {
                let text = trimmed(buf.as_str());
                buf = String::new();
                if *l == 1 || *l == 2 {
                    current = Some(new_slide(text));
                } else if !text.as_str().is_empty() {
                    let sl = take_or_new(current, "");
                    current = Some(add_bullet(sl, concat("▶ ", text.as_str()), false));
                }
            },
            MdEvent::Start(Block::List(start)) => {
                ordered = start.is_some();
            },
            MdEvent::Start(Block::Item) => {
                buf = String::new();
                in_list_item = true;
            },
            MdEvent::End(Block::Item) => {
                let text = trimmed(buf.as_str());
                buf = String::new();
                in_list_item = false;
                if !text.as_str().is_empty() {
                    let sl = take_or_new(current, "Slide");
                    current = Some(add_bullet(sl, text, ordered));
                }
            },
            MdEvent::End(Block::Paragraph) => {
                if !in_list_item {
                    let text = trimmed(buf.as_str());
                    buf = String::new();
                    if !text.as_str().is_empty() {
                        match current {
                            Some(sl) => {
                                current = Some(add_bullet(sl, text, false));
                            },
                            None => {
                                current = None;
                            },
                        }
                    }
                }
            },
            MdEvent::Start(Block::CodeBlock) => {
                buf = String::new();
            },
            MdEvent::End(Block::CodeBlock) => {
                let text = trimmed(buf.as_str());
                buf = String::new();
                if !text.as_str().is_empty() {
                    match current {
                        Some(sl) => {
                            current = Some(add_bullet(sl, concat("📋 ", text.as_str()), false));
                        },
                        None => {
                            current = None;
                        },
                    }
                }
            },
            MdEvent::Text(x) => {
                buf.append(x.as_str());
            },
            MdEvent::Code(x) => {
                buf.append(x.as_str());
            },
            MdEvent::SoftBreak => push_char(&mut buf, ' '),
            MdEvent::HardBreak => push_char(&mut buf, '\n'),
            _ => {},
        }
        proof {
            assert(slide_run(events@.take(i + 1)) == slide_step(st, events@[i as int]));
            assert(slide_step(st, events@[i as int]) == (SlideState {
                slides: slide_views(slides@),
                current: opt_view(current),
                buf: buf@,
                in_item: in_list_item,
                ordered,
            }));
        }
        i = i + 1;
    }
    proof {
        assert(events@.take(events@.len() as int) =~= events@);
    }
    let ghost before = slide_views(slides@);
    match current {
        Some(sl) => {
            slides.push(sl);
            proof {
                assert(slide_views(slides@) =~= before.push(opt_view(current)->0));
            }
        },
        None => {},
    }
    if slides.len() == 0 {
        let text = trimmed(markdown);
        let first = add_bullet(new_slide("Presentation".to_owned()), text, false);
        slides.push(first);
        proof {
            assert(slide_views(slides@) =~= seq![first@]);
            assert(first@.1 =~= seq![(trim(markdown@), false)]);
        }
    }
    slides
}

/// The slides of a Markdown document: H1/H2 headings become slide titles;
/// list items and paragraphs become bullets.
pub fn parse(markdown: &str) -> (r: Vec<Slide>)
    ensures
        slide_views(r@) == spec_slides(markdown_events(markdown@), markdown@),
{
    let events = parse_events(markdown);
    slides_from_events(&events, markdown)
}

/// Calls `ppt_rs::create_pptx_with_content(title, contents)`, where each
/// slide becomes `SlideContent::new(title)` with its bullets added in order,
/// numbered ones by `add_numbered` and the others by `add_bullet`; an error
/// becomes its message. The archive carries the time it was made
/// (`docProps/core.xml`), so nothing is stated of its bytes.
#[verifier::external_body]
fn pptx_archive(title: &str, slides: &Vec<Slide>) -> (r: Result<Vec<u8>, String>) {
    let contents: Vec<ppt_rs::SlideContent> = slides.iter().map(|slide| {
        slide.bullets.iter().fold(ppt_rs::SlideContent::new(&slide.title), |c, b| {
            if b.numbered { c.add_numbered(&b.text) } else { c.add_bullet(&b.text) }
        })
    }).collect();
    ppt_rs::create_pptx_with_content(title, contents).map_err(|e| e.to_string())
}

/// A presentation titled `title` of the slides of `markdown`: the slides
/// handed to the PPTX writer, and the archive's bytes or the writer's error.
pub fn pptx_of_markdown(markdown: &str, title: &str) -> (r: (Vec<Slide>, Result<Vec<u8>, String>))
    ensures
        slide_views(r.0@) == spec_slides(markdown_events(markdown@), markdown@),
{
    let slides = parse(markdown);
    let bytes = pptx_archive(title, &slides);
    (slides, bytes)
}

} // verus!
