//! An XML reader, character by character: it follows start tags, attributes,
//! end tags, character data and entity references, keeps the stack of open
//! elements and counts the root elements, and reports what it read as a
//! sequence of events with the entities decoded.

use vstd::prelude::*;

use crate::escape::{escape_char, escaped};
use crate::xml::{attr, element, empty_element, wrapped};

verus! {

broadcast use vstd::seq::group_seq_axioms;

/// What the reader reports.
pub enum Event {
    /// A start tag (or an empty element) with this name.
    Start(Seq<char>),
    /// An attribute of the last start tag, with its value decoded.
    Attr(Seq<char>, Seq<char>),
    /// One character of character data, decoded (a one-character sequence).
    Text(Seq<char>),
    /// The end of the element with this name.
    End(Seq<char>),
}

/// Where the reader stands inside the markup.
pub enum Mode {
    /// In character data between tags.
    Content,
    /// Just after `<`.
    AfterLt,
    /// Reading the name of a start tag.
    StartName(Seq<char>),
    /// After a space inside the start tag of the named element.
    InTag(Seq<char>),
    /// Reading an attribute name: the element, the name so far.
    AttrName(Seq<char>, Seq<char>),
    /// After `=` of an attribute.
    AttrEq(Seq<char>, Seq<char>),
    /// Inside a quoted attribute value: element, attribute, decoded value so far.
    AttrValue(Seq<char>, Seq<char>, Seq<char>),
    /// Inside an entity reference in an attribute value: the letters so far.
    AttrEntity(Seq<char>, Seq<char>, Seq<char>, Seq<char>),
    /// After the closing quote of an attribute value.
    AfterAttr(Seq<char>),
    /// After the `/` of the named empty element.
    SlashEnd(Seq<char>),
    /// Reading the name of an end tag.
    EndName(Seq<char>),
    /// Inside an entity reference in character data: the letters so far.
    TextEntity(Seq<char>),
    /// The text is not well-formed.
    Error,
}

/// The reader's state: its mode, the names of the open elements (innermost
/// last), how many root elements it has closed, and what it has reported.
pub struct ScanState {
    pub mode: Mode,
    pub open: Seq<Seq<char>>,
    pub roots: nat,
    pub events: Seq<Event>,
}

/// A character that can stand in an element or attribute name.
pub open spec fn is_name_char(c: char) -> bool {
    c != ' ' && c != '/' && c != '>' && c != '<' && c != '=' && c != '"' && c != '&' && c != '\''
        && c != ';'
}

/// A non-empty run of name characters.
pub open spec fn valid_name(n: Seq<char>) -> bool {
    n.len() > 0 && forall|i: int| 0 <= i < n.len() ==> is_name_char(#[trigger] n[i])
}

/// Text that can stand verbatim inside a quoted attribute value: no `"`, `<`
/// or `&`.
pub open spec fn valid_value(s: Seq<char>) -> bool {
    forall|i: int| 0 <= i < s.len() ==> #[trigger] s[i] != '"' && s[i] != '<' && s[i] != '&'
}

/// The character a predefined entity stands for.
pub open spec fn entity_char(e: Seq<char>) -> Option<char> {
    if e == seq!['a', 'm', 'p'] {
        Some('&')
    } else if e == seq!['l', 't'] {
        Some('<')
    } else if e == seq!['g', 't'] {
        Some('>')
    } else if e == seq!['q', 'u', 'o', 't'] {
        Some('"')
    } else if e == seq!['a', 'p', 'o', 's'] {
        Some('\'')
    } else {
        None
    }
}

/// The state with the given parts.
pub open spec fn at(mode: Mode, open: Seq<Seq<char>>, roots: nat, events: Seq<Event>) -> ScanState {
    ScanState { mode, open, roots, events }
}

/// The root count after an element closes with `open` still open.
pub open spec fn root_count(open: Seq<Seq<char>>, roots: nat) -> nat {
    if open.len() == 0 {
        roots + 1
    } else {
        roots
    }
}

/// One step of the reader.
pub open spec fn step(st: ScanState, c: char) -> ScanState {
    let open = st.open;
    let roots = st.roots;
    let ev = st.events;
    let err = at(Mode::Error, open, roots, ev);
    match st.mode {
        Mode::Content => if c == '<' {
            at(Mode::AfterLt, open, roots, ev)
        } else if open.len() == 0 || c == '>' {
            err
        } else if c == '&' {
            at(Mode::TextEntity(Seq::empty()), open, roots, ev)
        } else {
            at(Mode::Content, open, roots, ev.push(Event::Text(seq![c])))
        },
        Mode::AfterLt => if c == '/' {
            at(Mode::EndName(Seq::empty()), open, roots, ev)
        } else if is_name_char(c) {
            at(Mode::StartName(seq![c]), open, roots, ev)
        } else {
            err
        },
        Mode::StartName(n) => if is_name_char(c) {
            at(Mode::StartName(n.push(c)), open, roots, ev)
        } else if c == ' ' {
            at(Mode::InTag(n), open, roots, ev.push(Event::Start(n)))
        } else if c == '>' {
            at(Mode::Content, open.push(n), roots, ev.push(Event::Start(n)))
        } else {
            err
        },
        Mode::InTag(n) => if c == '/' {
            at(Mode::SlashEnd(n), open, roots, ev)
        } else if is_name_char(c) {
            at(Mode::AttrName(n, seq![c]), open, roots, ev)
        } else {
            err
        },
        Mode::AttrName(n, a) => if is_name_char(c) {
            at(Mode::AttrName(n, a.push(c)), open, roots, ev)
        } else if c == '=' {
            at(Mode::AttrEq(n, a), open, roots, ev)
        } else {
            err
        },
        Mode::AttrEq(n, a) => if c == '"' {
            at(Mode::AttrValue(n, a, Seq::empty()), open, roots, ev)
        } else {
            err
        },
        Mode::AttrValue(n, a, v) => if c == '"' {
            at(Mode::AfterAttr(n), open, roots, ev.push(Event::Attr(a, v)))
        } else if c == '<' {
            err
        } else if c == '&' {
            at(Mode::AttrEntity(n, a, v, Seq::empty()), open, roots, ev)
        } else {
            at(Mode::AttrValue(n, a, v.push(c)), open, roots, ev)
        },
        Mode::AttrEntity(n, a, v, e) => if c == ';' {
            match entity_char(e) {
                Some(d) => at(Mode::AttrValue(n, a, v.push(d)), open, roots, ev),
                None => err,
            }
        } else if e.len() < 4 {
            at(Mode::AttrEntity(n, a, v, e.push(c)), open, roots, ev)
        } else {
            err
        },
        Mode::AfterAttr(n) => if c == ' ' {
            at(Mode::InTag(n), open, roots, ev)
        } else if c == '>' {
            at(Mode::Content, open.push(n), roots, ev)
        } else {
            err
        },
        Mode::SlashEnd(n) => if c == '>' {
            at(Mode::Content, open, root_count(open, roots), ev.push(Event::End(n)))
        } else {
            err
        },
        Mode::EndName(n) => if is_name_char(c) {
            at(Mode::EndName(n.push(c)), open, roots, ev)
        } else if c == '>' && open.len() > 0 && open.last() == n {
            at(
                Mode::Content,
                open.drop_last(),
                root_count(open.drop_last(), roots),
                ev.push(Event::End(n)),
            )
        } else {
            err
        },
        Mode::TextEntity(e) => if c == ';' {
            match entity_char(e) {
                Some(d) => at(Mode::Content, open, roots, ev.push(Event::Text(seq![d]))),
                None => err,
            }
        } else if e.len() < 4 {
            at(Mode::TextEntity(e.push(c)), open, roots, ev)
        } else {
            err
        },
        Mode::Error => st,
    }
}

/// The reader's state after reading `s` from `st`.
pub open spec fn scan(st: ScanState, s: Seq<char>) -> ScanState
    decreases s.len(),
{
    if s.len() == 0 {
        st
    } else {
        scan(step(st, s[0]), s.skip(1))
    }
}

/// The reader before any text.
pub open spec fn start() -> ScanState {
    at(Mode::Content, Seq::empty(), 0, Seq::empty())
}

/// `s` is a well-formed XML document of one root element: read from the
/// start it ends without error outside any element, having closed exactly
/// one root element; every element is closed, in order and by name; there is
/// no character data outside the root; attribute values are quoted; text
/// and values hold no `<` and use `&` only in one of the five predefined
/// entity references.
pub open spec fn well_formed(s: Seq<char>) -> bool {
    let end = scan(start(), s);
    end.mode == Mode::Content && end.open.len() == 0 && end.roots == 1
}

/// What the reader reports of `s`, read from the start.
pub open spec fn events_of(s: Seq<char>) -> Seq<Event> {
    scan(start(), s).events
}

/// One `Text` event per character.
pub open spec fn text_events(s: Seq<char>) -> Seq<Event>
    decreases s.len(),
{
    if s.len() == 0 {
        Seq::empty()
    } else {
        seq![Event::Text(seq![s[0]])] + text_events(s.skip(1))
    }
}

/// The events of an element: its start, its attributes, its content, its end.
pub open spec fn element_events(name: Seq<char>, attrs: Seq<Event>, content: Seq<Event>) -> Seq<
    Event,
> {
    seq![Event::Start(name)] + attrs + content + seq![Event::End(name)]
}

/// Read in content with `open` open (not at the top), `s` reports `new_events`
/// and leaves the reader in content with the same elements open.
pub open spec fn reads_as(
    s: Seq<char>,
    open: Seq<Seq<char>>,
    roots: nat,
    events: Seq<Event>,
    new_events: Seq<Event>,
) -> bool {
    scan(at(Mode::Content, open, roots, events), s) == at(
        Mode::Content,
        open,
        roots,
        events + new_events,
    )
}

/// The events a start tag has settled once its name is complete.
pub open spec fn settled(st: ScanState) -> Seq<Event> {
    match st.mode {
        Mode::StartName(n) => st.events.push(Event::Start(n)),
        _ => st.events,
    }
}

/// The states in which a start tag can take another attribute or be closed.
pub open spec fn in_start_tag(st: ScanState, name: Seq<char>, open: Seq<Seq<char>>, roots: nat) -> bool {
    (st.mode == Mode::StartName(name) || st.mode == Mode::AfterAttr(name)) && st.open == open
        && st.roots == roots
}

/// Reading two texts one after the other is reading the first, then the second.
pub proof fn lemma_scan_concat(st: ScanState, a: Seq<char>, b: Seq<char>)
    ensures
        scan(st, a + b) == scan(scan(st, a), b),
    decreases a.len(),
{
    if a.len() == 0 {
        assert(a + b =~= b);
    } else {
        assert((a + b)[0] == a[0]);
        assert((a + b).skip(1) =~= a.skip(1) + b);
        lemma_scan_concat(step(st, a[0]), a.skip(1), b);
    }
}

/// Reading nothing changes nothing.
pub proof fn lemma_scan_empty(st: ScanState)
    ensures
        scan(st, Seq::empty()) == st,
{
}

/// Reading one character is one step.
proof fn lemma_scan_one(st: ScanState, c: char)
    ensures
        scan(st, seq![c]) == step(st, c),
{
    assert(seq![c].skip(1) =~= Seq::<char>::empty());
    assert(scan(step(st, c), seq![c].skip(1)) == step(st, c));
}

/// Reading two characters is two steps.
proof fn lemma_scan_two(st: ScanState, c: char, d: char)
    ensures
        scan(st, seq![c, d]) == step(step(st, c), d),
{
    lemma_scan_concat(st, seq![c], seq![d]);
    assert(seq![c] + seq![d] =~= seq![c, d]);
    lemma_scan_one(st, c);
    lemma_scan_one(step(st, c), d);
}

proof fn lemma_tail_forall(q: Seq<char>)
    requires
        q.len() > 0,
    ensures
        forall|i: int| 0 <= i < q.skip(1).len() ==> #[trigger] q.skip(1)[i] == q[i + 1],
{
}

proof fn lemma_scan_text_entity_letters(p: Seq<char>, open: Seq<Seq<char>>, roots: nat, ev: Seq<Event>, q: Seq<char>)
    requires
        p.len() + q.len() <= 4,
        forall|i: int| 0 <= i < q.len() ==> #[trigger] q[i] != ';',
    ensures
        scan(at(Mode::TextEntity(p), open, roots, ev), q) == at(Mode::TextEntity(p + q), open, roots, ev),
    decreases q.len(),
{
    if q.len() == 0 {
        assert(p + q =~= p);
    } else {
        assert(q[0] != ';');
        lemma_tail_forall(q);
        lemma_scan_text_entity_letters(p.push(q[0]), open, roots, ev, q.skip(1));
        assert(p.push(q[0]) + q.skip(1) =~= p + q);
    }
}

proof fn lemma_scan_value_entity_letters(
    n: Seq<char>,
    a: Seq<char>,
    v: Seq<char>,
    p: Seq<char>,
    open: Seq<Seq<char>>,
    roots: nat,
    ev: Seq<Event>,
    q: Seq<char>,
)
    requires
        p.len() + q.len() <= 4,
        forall|i: int| 0 <= i < q.len() ==> #[trigger] q[i] != ';',
    ensures
        scan(at(Mode::AttrEntity(n, a, v, p), open, roots, ev), q) == at(
            Mode::AttrEntity(n, a, v, p + q),
            open,
            roots,
            ev,
        ),
    decreases q.len(),
{
    if q.len() == 0 {
        assert(p + q =~= p);
    } else {
        assert(q[0] != ';');
        lemma_tail_forall(q);
        lemma_scan_value_entity_letters(n, a, v, p.push(q[0]), open, roots, ev, q.skip(1));
        assert(p.push(q[0]) + q.skip(1) =~= p + q);
    }
}

/// The letters of the five entities, without `&` and `;`.
pub open spec fn entity_letters(c: char) -> Seq<char> {
    if c == '&' {
        seq!['a', 'm', 'p']
    } else if c == '<' {
        seq!['l', 't']
    } else if c == '>' {
        seq!['g', 't']
    } else if c == '"' {
        seq!['q', 'u', 'o', 't']
    } else {
        seq!['a', 'p', 'o', 's']
    }
}

proof fn lemma_entity_letters(c: char)
    requires
        c == '&' || c == '<' || c == '>' || c == '"' || c == '\'',
    ensures
        entity_letters(c).len() <= 4,
        forall|i: int| 0 <= i < entity_letters(c).len() ==> #[trigger] entity_letters(c)[i] != ';',
        entity_char(entity_letters(c)) == Some(c),
        escape_char(c) == seq!['&'] + entity_letters(c) + seq![';'],
{
    assert(escape_char(c) =~= seq!['&'] + entity_letters(c) + seq![';']);
    assert(seq!['l', 't'] != seq!['a', 'm', 'p']);
    assert(seq!['g', 't'] != seq!['l', 't']);
    assert(seq!['g', 't'] != seq!['a', 'm', 'p']);
    assert(seq!['q', 'u', 'o', 't'] != seq!['a', 'm', 'p']);
    assert(seq!['q', 'u', 'o', 't'] != seq!['l', 't']);
    assert(seq!['q', 'u', 'o', 't'] != seq!['g', 't']);
    assert(seq!['a', 'p', 'o', 's'] != seq!['a', 'm', 'p']);
    assert(seq!['a', 'p', 'o', 's'][1] != seq!['q', 'u', 'o', 't'][1]);
    assert(seq!['a', 'p', 'o', 's'] != seq!['l', 't']);
    assert(seq!['a', 'p', 'o', 's'] != seq!['g', 't']);
}

/// One escaped character read as character data reports that character.
proof fn lemma_scan_escape_char_text(open: Seq<Seq<char>>, roots: nat, ev: Seq<Event>, c: char)
    requires
        open.len() > 0,
    ensures
        scan(at(Mode::Content, open, roots, ev), escape_char(c)) == at(
            Mode::Content,
            open,
            roots,
            ev.push(Event::Text(seq![c])),
        ),
{
    let st = at(Mode::Content, open, roots, ev);
    if c == '&' || c == '<' || c == '>' || c == '"' || c == '\'' {
        let e = entity_letters(c);
        lemma_entity_letters(c);
        lemma_scan_concat(st, seq!['&'] + e, seq![';']);
        lemma_scan_concat(st, seq!['&'], e);
        lemma_scan_one(st, '&');
        lemma_scan_text_entity_letters(Seq::empty(), open, roots, ev, e);
        assert(Seq::<char>::empty() + e =~= e);
        lemma_scan_one(at(Mode::TextEntity(e), open, roots, ev), ';');
    } else {
        lemma_scan_one(st, c);
    }
}

proof fn lemma_text_events_cons(s: Seq<char>)
    requires
        s.len() > 0,
    ensures
        text_events(s) == seq![Event::Text(seq![s[0]])] + text_events(s.skip(1)),
{
}

proof fn lemma_push_concat(ev: Seq<Event>, x: Event, u: Seq<Event>)
    ensures
        ev.push(x) + u == ev + (seq![x] + u),
{
    assert(ev.push(x) + u =~= ev + (seq![x] + u));
}

/// Escaped text read as character data reports the text.
pub proof fn lemma_scan_escaped_text(open: Seq<Seq<char>>, roots: nat, ev: Seq<Event>, s: Seq<char>)
    requires
        open.len() > 0,
    ensures
        reads_as(escaped(s), open, roots, ev, text_events(s)),
    decreases s.len(),
{
    let st = at(Mode::Content, open, roots, ev);
    if s.len() == 0 {
        assert(escaped(s) =~= Seq::<char>::empty());
        assert(ev + text_events(s) =~= ev);
        lemma_scan_empty(st);
    } else {
        lemma_scan_concat(st, escape_char(s[0]), escaped(s.skip(1)));
        lemma_scan_escape_char_text(open, roots, ev, s[0]);
        lemma_scan_escaped_text(open, roots, ev.push(Event::Text(seq![s[0]])), s.skip(1));
        lemma_push_concat(ev, Event::Text(seq![s[0]]), text_events(s.skip(1)));
        assert(escaped(s) == escape_char(s[0]) + escaped(s.skip(1)));
        lemma_text_events_cons(s);
        assert(scan(st, escaped(s)) == scan(scan(st, escape_char(s[0])), escaped(s.skip(1))));
    }
}

/// One escaped character read in an attribute value adds that character.
proof fn lemma_scan_escape_char_value(
    n: Seq<char>,
    a: Seq<char>,
    v: Seq<char>,
    open: Seq<Seq<char>>,
    roots: nat,
    ev: Seq<Event>,
    c: char,
)
    ensures
        scan(at(Mode::AttrValue(n, a, v), open, roots, ev), escape_char(c)) == at(
            Mode::AttrValue(n, a, v.push(c)),
            open,
            roots,
            ev,
        ),
{
    let st = at(Mode::AttrValue(n, a, v), open, roots, ev);
    if c == '&' || c == '<' || c == '>' || c == '"' || c == '\'' {
        let e = entity_letters(c);
        lemma_entity_letters(c);
        lemma_scan_concat(st, seq!['&'] + e, seq![';']);
        lemma_scan_concat(st, seq!['&'], e);
        lemma_scan_one(st, '&');
        lemma_scan_value_entity_letters(n, a, v, Seq::empty(), open, roots, ev, e);
        assert(Seq::<char>::empty() + e =~= e);
        lemma_scan_one(at(Mode::AttrEntity(n, a, v, e), open, roots, ev), ';');
    } else {
        lemma_scan_one(st, c);
    }
}

/// An escaped attribute value decodes to the text it escapes.
pub proof fn lemma_scan_escaped_value(
    n: Seq<char>,
    a: Seq<char>,
    v: Seq<char>,
    open: Seq<Seq<char>>,
    roots: nat,
    ev: Seq<Event>,
    s: Seq<char>,
)
    ensures
        scan(at(Mode::AttrValue(n, a, v), open, roots, ev), escaped(s)) == at(
            Mode::AttrValue(n, a, v + s),
            open,
            roots,
            ev,
        ),
    decreases s.len(),
{
    let st = at(Mode::AttrValue(n, a, v), open, roots, ev);
    if s.len() == 0 {
        assert(escaped(s) =~= Seq::<char>::empty());
        assert(v + s =~= v);
    } else {
        lemma_scan_concat(st, escape_char(s[0]), escaped(s.skip(1)));
        lemma_scan_escape_char_value(n, a, v, open, roots, ev, s[0]);
        lemma_scan_escaped_value(n, a, v.push(s[0]), open, roots, ev, s.skip(1));
        assert(v.push(s[0]) + s.skip(1) =~= v + s);
    }
}

/// A value with no `"`, `<` or `&` is read as itself.
pub proof fn lemma_scan_plain_value(
    n: Seq<char>,
    a: Seq<char>,
    v: Seq<char>,
    open: Seq<Seq<char>>,
    roots: nat,
    ev: Seq<Event>,
    s: Seq<char>,
)
    requires
        valid_value(s),
    ensures
        scan(at(Mode::AttrValue(n, a, v), open, roots, ev), s) == at(
            Mode::AttrValue(n, a, v + s),
            open,
            roots,
            ev,
        ),
    decreases s.len(),
{
    if s.len() == 0 {
        assert(v + s =~= v);
    } else {
        assert(s[0] != '"' && s[0] != '<' && s[0] != '&');
        lemma_tail_forall(s);
        lemma_scan_plain_value(n, a, v.push(s[0]), open, roots, ev, s.skip(1));
        assert(v.push(s[0]) + s.skip(1) =~= v + s);
    }
}

proof fn lemma_name_tail(q: Seq<char>)
    requires
        forall|i: int| 0 <= i < q.len() ==> is_name_char(#[trigger] q[i]),
        q.len() > 0,
    ensures
        forall|i: int| 0 <= i < q.skip(1).len() ==> is_name_char(#[trigger] q.skip(1)[i]),
{
    assert forall|i: int| 0 <= i < q.skip(1).len() implies is_name_char(#[trigger] q.skip(1)[i]) by {
        assert(q.skip(1)[i] == q[i + 1]);
    }
}

proof fn lemma_scan_start_name(p: Seq<char>, open: Seq<Seq<char>>, roots: nat, ev: Seq<Event>, q: Seq<char>)
    requires
        forall|i: int| 0 <= i < q.len() ==> is_name_char(#[trigger] q[i]),
    ensures
        scan(at(Mode::StartName(p), open, roots, ev), q) == at(Mode::StartName(p + q), open, roots, ev),
    decreases q.len(),
{
    if q.len() == 0 {
        assert(p + q =~= p);
    } else {
        assert(is_name_char(q[0]));
        lemma_name_tail(q);
        lemma_scan_start_name(p.push(q[0]), open, roots, ev, q.skip(1));
        assert(p.push(q[0]) + q.skip(1) =~= p + q);
    }
}

proof fn lemma_scan_end_name(p: Seq<char>, open: Seq<Seq<char>>, roots: nat, ev: Seq<Event>, q: Seq<char>)
    requires
        forall|i: int| 0 <= i < q.len() ==> is_name_char(#[trigger] q[i]),
    ensures
        scan(at(Mode::EndName(p), open, roots, ev), q) == at(Mode::EndName(p + q), open, roots, ev),
    decreases q.len(),
{
    if q.len() == 0 {
        assert(p + q =~= p);
    } else {
        assert(is_name_char(q[0]));
        lemma_name_tail(q);
        lemma_scan_end_name(p.push(q[0]), open, roots, ev, q.skip(1));
        assert(p.push(q[0]) + q.skip(1) =~= p + q);
    }
}

proof fn lemma_scan_attr_name(
    n: Seq<char>,
    p: Seq<char>,
    open: Seq<Seq<char>>,
    roots: nat,
    ev: Seq<Event>,
    q: Seq<char>,
)
    requires
        forall|i: int| 0 <= i < q.len() ==> is_name_char(#[trigger] q[i]),
    ensures
        scan(at(Mode::AttrName(n, p), open, roots, ev), q) == at(Mode::AttrName(n, p + q), open, roots, ev),
    decreases q.len(),
{
    if q.len() == 0 {
        assert(p + q =~= p);
    } else {
        assert(is_name_char(q[0]));
        lemma_name_tail(q);
        lemma_scan_attr_name(n, p.push(q[0]), open, roots, ev, q.skip(1));
        assert(p.push(q[0]) + q.skip(1) =~= p + q);
    }
}

/// `<name` read in content leaves the reader in the start tag of `name`.
proof fn lemma_scan_tag_start(open: Seq<Seq<char>>, roots: nat, ev: Seq<Event>, name: Seq<char>)
    requires
        valid_name(name),
    ensures
        scan(at(Mode::Content, open, roots, ev), seq!['<'] + name) == at(
            Mode::StartName(name),
            open,
            roots,
            ev,
        ),
{
    let st = at(Mode::Content, open, roots, ev);
    lemma_scan_concat(st, seq!['<'], name);
    lemma_scan_one(st, '<');
    assert(is_name_char(name[0]));
    let s1 = at(Mode::AfterLt, open, roots, ev);
    lemma_scan_concat(s1, seq![name[0]], name.skip(1));
    assert(seq![name[0]] + name.skip(1) =~= name);
    lemma_scan_one(s1, name[0]);
    lemma_name_tail(name);
    lemma_scan_start_name(seq![name[0]], open, roots, ev, name.skip(1));
}

/// One attribute read inside a start tag reports it, with its value decoded
/// as `decoded`, and leaves the reader still in the tag.
pub proof fn lemma_scan_attr(
    st: ScanState,
    name: Seq<char>,
    open: Seq<Seq<char>>,
    roots: nat,
    attr_name: Seq<char>,
    value: Seq<char>,
    decoded: Seq<char>,
)
    requires
        in_start_tag(st, name, open, roots),
        valid_name(attr_name),
        scan(at(Mode::AttrValue(name, attr_name, Seq::empty()), open, roots, settled(st)), value)
            == at(Mode::AttrValue(name, attr_name, decoded), open, roots, settled(st)),
    ensures
        scan(st, attr(attr_name, value)) == at(
            Mode::AfterAttr(name),
            open,
            roots,
            settled(st).push(Event::Attr(attr_name, decoded)),
        ),
{
    let ev = settled(st);
    let a = seq![' '];
    let b = attr_name;
    let c = seq!['=', '"'];
    let d = value;
    let e = seq!['"'];
    lemma_scan_concat(st, a + b + c + d, e);
    lemma_scan_concat(st, a + b + c, d);
    lemma_scan_concat(st, a + b, c);
    lemma_scan_concat(st, a, b);
    lemma_scan_one(st, ' ');
    let s1 = at(Mode::InTag(name), open, roots, ev);
    assert(scan(st, a) == s1);
    lemma_scan_concat(s1, seq![b[0]], b.skip(1));
    assert(seq![b[0]] + b.skip(1) =~= b);
    assert(is_name_char(b[0]));
    lemma_scan_one(s1, b[0]);
    lemma_name_tail(b);
    lemma_scan_attr_name(name, seq![b[0]], open, roots, ev, b.skip(1));
    let s2 = at(Mode::AttrName(name, b), open, roots, ev);
    assert(scan(st, a + b) == s2);
    lemma_scan_two(s2, '=', '"');
    lemma_scan_one(at(Mode::AttrValue(name, b, decoded), open, roots, ev), '"');
}

/// `>` opens the element; ` />` ends it as an empty element.
proof fn lemma_scan_tag_close(st: ScanState, name: Seq<char>, open: Seq<Seq<char>>, roots: nat)
    requires
        in_start_tag(st, name, open, roots),
    ensures
        scan(st, seq!['>']) == at(Mode::Content, open.push(name), roots, settled(st)),
        scan(st, seq![' ', '/', '>']) == at(
            Mode::Content,
            open,
            root_count(open, roots),
            settled(st).push(Event::End(name)),
        ),
{
    lemma_scan_one(st, '>');
    lemma_scan_concat(st, seq![' '], seq!['/', '>']);
    assert(seq![' '] + seq!['/', '>'] =~= seq![' ', '/', '>']);
    lemma_scan_one(st, ' ');
    lemma_scan_two(at(Mode::InTag(name), open, roots, settled(st)), '/', '>');
}

/// `</name>` read with `name` innermost open closes it.
proof fn lemma_scan_end_tag(open: Seq<Seq<char>>, roots: nat, ev: Seq<Event>, name: Seq<char>)
    requires
        valid_name(name),
    ensures
        scan(at(Mode::Content, open.push(name), roots, ev), seq!['<', '/'] + name + seq!['>']) == at(
            Mode::Content,
            open,
            root_count(open, roots),
            ev.push(Event::End(name)),
        ),
{
    let st = at(Mode::Content, open.push(name), roots, ev);
    lemma_scan_concat(st, seq!['<', '/'] + name, seq!['>']);
    lemma_scan_concat(st, seq!['<', '/'], name);
    lemma_scan_two(st, '<', '/');
    lemma_scan_end_name(Seq::empty(), open.push(name), roots, ev, name);
    assert(Seq::<char>::empty() + name =~= name);
    assert(open.push(name).drop_last() =~= open);
    lemma_scan_one(at(Mode::EndName(name), open.push(name), roots, ev), '>');
}

/// The start of an element's tag, read up to its attributes, as the
/// element lemmas need it.
pub open spec fn attrs_read(
    open: Seq<Seq<char>>,
    roots: nat,
    ev: Seq<Event>,
    name: Seq<char>,
    attrs: Seq<char>,
    attr_events: Seq<Event>,
) -> bool {
    let st = scan(at(Mode::StartName(name), open, roots, ev), attrs);
    in_start_tag(st, name, open, roots) && settled(st) == ev.push(Event::Start(name)) + attr_events
}

/// An element written with both tags reports its start, attributes, content
/// and end.
pub proof fn lemma_wrapped_reads(
    open: Seq<Seq<char>>,
    roots: nat,
    ev: Seq<Event>,
    name: Seq<char>,
    attrs: Seq<char>,
    attr_events: Seq<Event>,
    content: Seq<char>,
    content_events: Seq<Event>,
)
    requires
        valid_name(name),
        attrs_read(open, roots, ev, name, attrs, attr_events),
        reads_as(content, open.push(name), roots, ev.push(Event::Start(name)) + attr_events, content_events),
    ensures
        scan(at(Mode::Content, open, roots, ev), wrapped(name, attrs, content)) == at(
            Mode::Content,
            open,
            root_count(open, roots),
            ev + element_events(name, attr_events, content_events),
        ),
{
    let st = at(Mode::Content, open, roots, ev);
    let head = seq!['<'] + name;
    lemma_scan_tag_start(open, roots, ev, name);
    lemma_scan_concat(st, head, attrs);
    let s1 = scan(at(Mode::StartName(name), open, roots, ev), attrs);
    lemma_scan_tag_close(s1, name, open, roots);
    let t = head + attrs + seq!['>'];
    lemma_scan_concat(st, head + attrs, seq!['>']);
    lemma_scan_concat(st, t, content);
    lemma_scan_concat(st, t + content, seq!['<', '/'] + name + seq!['>']);
    let ev2 = ev.push(Event::Start(name)) + attr_events + content_events;
    lemma_scan_end_tag(open, roots, ev2, name);
    assert(t + content + (seq!['<', '/'] + name + seq!['>']) =~= wrapped(name, attrs, content));
    assert(ev2.push(Event::End(name)) =~= ev + element_events(name, attr_events, content_events));
}

/// An element as the writer emits it reports its start, attributes, content
/// and end.
pub proof fn lemma_element_reads(
    open: Seq<Seq<char>>,
    roots: nat,
    ev: Seq<Event>,
    name: Seq<char>,
    attrs: Seq<char>,
    attr_events: Seq<Event>,
    content: Seq<char>,
    content_events: Seq<Event>,
)
    requires
        valid_name(name),
        attrs_read(open, roots, ev, name, attrs, attr_events),
        content.len() == 0 ==> content_events.len() == 0,
        content.len() > 0 ==> reads_as(
            content,
            open.push(name),
            roots,
            ev.push(Event::Start(name)) + attr_events,
            content_events,
        ),
    ensures
        scan(at(Mode::Content, open, roots, ev), element(name, attrs, content)) == at(
            Mode::Content,
            open,
            root_count(open, roots),
            ev + element_events(name, attr_events, content_events),
        ),
{
    if content.len() == 0 {
        let st = at(Mode::Content, open, roots, ev);
        let head = seq!['<'] + name;
        lemma_scan_tag_start(open, roots, ev, name);
        lemma_scan_concat(st, head, attrs);
        let s1 = scan(at(Mode::StartName(name), open, roots, ev), attrs);
        lemma_scan_tag_close(s1, name, open, roots);
        lemma_scan_concat(st, head + attrs, seq![' ', '/', '>']);
        assert(head + attrs + seq![' ', '/', '>'] =~= empty_element(name, attrs));
        assert(content_events =~= Seq::<Event>::empty());
        assert(settled(s1).push(Event::End(name)) =~= ev + element_events(
            name,
            attr_events,
            content_events,
        ));
    } else {
        lemma_wrapped_reads(open, roots, ev, name, attrs, attr_events, content, content_events);
    }
}

/// No attributes: the start tag reports just its start.
pub proof fn lemma_no_attrs_read(open: Seq<Seq<char>>, roots: nat, ev: Seq<Event>, name: Seq<char>)
    ensures
        attrs_read(open, roots, ev, name, Seq::empty(), Seq::empty()),
{
    lemma_scan_empty(at(Mode::StartName(name), open, roots, ev));
    assert(ev.push(Event::Start(name)) + Seq::<Event>::empty() =~= ev.push(Event::Start(name)));
}

/// One attribute whose value reads as `decoded`.
pub proof fn lemma_one_attr_read(
    open: Seq<Seq<char>>,
    roots: nat,
    ev: Seq<Event>,
    name: Seq<char>,
    attr_name: Seq<char>,
    value: Seq<char>,
    decoded: Seq<char>,
)
    requires
        valid_name(attr_name),
        scan(
            at(Mode::AttrValue(name, attr_name, Seq::empty()), open, roots, ev.push(Event::Start(name))),
            value,
        ) == at(Mode::AttrValue(name, attr_name, decoded), open, roots, ev.push(Event::Start(name))),
    ensures
        attrs_read(open, roots, ev, name, attr(attr_name, value), seq![Event::Attr(attr_name, decoded)]),
{
    let st = at(Mode::StartName(name), open, roots, ev);
    lemma_scan_attr(st, name, open, roots, attr_name, value, decoded);
    assert(ev.push(Event::Start(name)).push(Event::Attr(attr_name, decoded)) =~= ev.push(
        Event::Start(name),
    ) + seq![Event::Attr(attr_name, decoded)]);
}

/// An element without attributes inside other elements.
pub proof fn lemma_node_reads(
    open: Seq<Seq<char>>,
    roots: nat,
    ev: Seq<Event>,
    name: Seq<char>,
    content: Seq<char>,
    content_events: Seq<Event>,
)
    requires
        open.len() > 0,
        valid_name(name),
        content.len() == 0 ==> content_events.len() == 0,
        content.len() > 0 ==> reads_as(content, open.push(name), roots, ev.push(Event::Start(name)), content_events),
    ensures
        reads_as(element(name, Seq::empty(), content), open, roots, ev, element_events(name, Seq::empty(), content_events)),
{
    lemma_no_attrs_read(open, roots, ev, name);
    assert(ev.push(Event::Start(name)) + Seq::<Event>::empty() =~= ev.push(Event::Start(name)));
    lemma_element_reads(open, roots, ev, name, Seq::empty(), Seq::empty(), content, content_events);
}

/// Two texts read one after the other report their events one after the other.
pub proof fn lemma_reads_concat(
    a: Seq<char>,
    b: Seq<char>,
    open: Seq<Seq<char>>,
    roots: nat,
    ev: Seq<Event>,
    ea: Seq<Event>,
    eb: Seq<Event>,
)
    requires
        reads_as(a, open, roots, ev, ea),
        reads_as(b, open, roots, ev + ea, eb),
    ensures
        reads_as(a + b, open, roots, ev, ea + eb),
{
    lemma_scan_concat(at(Mode::Content, open, roots, ev), a, b);
    assert(ev + ea + eb =~= ev + (ea + eb));
}

} // verus!
