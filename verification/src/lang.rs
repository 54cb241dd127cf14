//! `w:lang`: the languages of a run's text.

use vstd::prelude::*;
use vstd::string::*;
use vstd::utf8::encode_utf8;

use crate::wellformed::{
    at, element_events, events_of, in_start_tag, lemma_element_reads, lemma_scan_attr,
    lemma_scan_concat, lemma_scan_empty, lemma_scan_plain_value, scan, settled, valid_name,
    valid_value, well_formed, Event, Mode, ScanState,
};
use crate::xml::{attr, element, push_attr, push_empty_close, push_tag_start};

verus! {

/// `w:lang`: the languages a run's text is in, one per script class. Word and
/// LibreOffice choose spelling, hyphenation and line-breaking rules by it.
/// Values are BCP 47 tags such as `en-US`, `de-DE` or `it-IT`.
#[derive(Debug, PartialEq)]
pub struct Lang {
    pub val: Option<String>,
    pub east_asia: Option<String>,
    pub bidi: Option<String>,
}

/// A copy of an optional value.
fn clone_optional(v: &Option<String>) -> (r: Option<String>)
    ensures
        r == *v,
{
    match v {
        Some(s) => Some(s.clone()),
        None => None,
    }
}

impl Clone for Lang {
    fn clone(&self) -> (r: Self)
        ensures
            r == *self,
    {
        Lang {
            val: clone_optional(&self.val),
            east_asia: clone_optional(&self.east_asia),
            bidi: clone_optional(&self.bidi),
        }
    }
}

impl Default for Lang {
    fn default() -> (r: Self)
        ensures
            r.val is None,
            r.east_asia is None,
            r.bidi is None,
    {
        Lang { val: None, east_asia: None, bidi: None }
    }
}

/// ` name="value"` when a value is set, nothing otherwise.
pub open spec fn optional_attr(name: Seq<char>, value: Option<String>) -> Seq<char> {
    match value {
        Some(v) => attr(name, v@),
        None => Seq::empty(),
    }
}

/// The XML of a `Lang`: `<w:lang />` with `w:val`, `w:eastAsia` and `w:bidi`
/// in that order, each only when it is set.
pub open spec fn lang_xml(l: Lang) -> Seq<char> {
    element(
        "w:lang"@,
        optional_attr("w:val"@, l.val) + optional_attr("w:eastAsia"@, l.east_asia)
            + optional_attr("w:bidi"@, l.bidi),
        Seq::empty(),
    )
}

impl Lang {
    /// The language of Latin (and other non-East-Asian, non-complex) text.
    pub fn new(val: &str) -> (r: Lang)
        ensures
            r.val matches Some(v) && v@ == val@,
            r.east_asia is None,
            r.bidi is None,
    {
        Lang { val: Some(String::from_str(val)), ..Default::default() }
    }

    /// Sets the language of East Asian text.
    pub fn east_asia(self, v: &str) -> (r: Self)
        ensures
            r.east_asia matches Some(s) && s@ == v@,
            r.val == self.val,
            r.bidi == self.bidi,
    {
        let mut l = self;
        l.east_asia = Some(String::from_str(v));
        l
    }

    /// Sets the language of complex-script (right-to-left) text.
    pub fn bidi(self, v: &str) -> (r: Self)
        ensures
            r.bidi matches Some(s) && s@ == v@,
            r.val == self.val,
            r.east_asia == self.east_asia,
    {
        let mut l = self;
        l.bidi = Some(String::from_str(v));
        l
    }

    /// Writes `<w:lang w:val="…" w:eastAsia="…" w:bidi="…" />`, leaving out
    /// the attributes that are not set.
    pub fn build_to(&self, out: &mut String)
        ensures
            final(out)@ == old(out)@ + lang_xml(*self),
    {
        let ghost start = out@;
        push_tag_start(out, "w:lang");
        match &self.val {
            Some(v) => push_attr(out, "w:val", v.as_str()),
            None => {},
        }
        match &self.east_asia {
            Some(v) => push_attr(out, "w:eastAsia", v.as_str()),
            None => {},
        }
        match &self.bidi {
            Some(v) => push_attr(out, "w:bidi", v.as_str()),
            None => {},
        }
        push_empty_close(out);
        assert(out@ =~= start + lang_xml(*self));
    }

    /// The element's XML, UTF-8 encoded.
    pub fn build(&self) -> (r: Vec<u8>)
        ensures
            r@ == encode_utf8(lang_xml(*self)),
    {
        let mut out = String::new();
        self.build_to(&mut out);
        out.as_str().as_bytes_vec()
    }
}

/// What reading an optional attribute reports.
pub open spec fn optional_attr_events(name: Seq<char>, value: Option<String>) -> Seq<Event> {
    match value {
        Some(v) => seq![Event::Attr(name, v@)],
        None => Seq::empty(),
    }
}

/// What reading a `Lang`'s XML reports: `w:lang` with its set languages.
pub open spec fn lang_events(l: Lang) -> Seq<Event> {
    element_events(
        "w:lang"@,
        optional_attr_events("w:val"@, l.val) + optional_attr_events("w:eastAsia"@, l.east_asia)
            + optional_attr_events("w:bidi"@, l.bidi),
        Seq::empty(),
    )
}

/// A language that can stand verbatim between quotes.
pub open spec fn valid_language(value: Option<String>) -> bool {
    value matches Some(v) ==> valid_value(v@)
}

/// An optional attribute with a valid value keeps the reader in the start tag
/// and reports the attribute when it is set.
proof fn lemma_optional_attr_read(st: ScanState, attr_name: Seq<char>, value: Option<String>)
    requires
        in_start_tag(st, "w:lang"@, Seq::empty(), 0),
        valid_name(attr_name),
        valid_language(value),
    ensures
        in_start_tag(scan(st, optional_attr(attr_name, value)), "w:lang"@, Seq::empty(), 0),
        settled(scan(st, optional_attr(attr_name, value))) == settled(st) + optional_attr_events(
            attr_name,
            value,
        ),
{
    match value {
        Some(v) => {
            lemma_scan_plain_value(
                "w:lang"@,
                attr_name,
                Seq::empty(),
                Seq::empty(),
                0,
                settled(st),
                v@,
            );
            assert(Seq::<char>::empty() + v@ =~= v@);
            lemma_scan_attr(st, "w:lang"@, Seq::empty(), 0, attr_name, v@, v@);
            assert(settled(st).push(Event::Attr(attr_name, v@)) =~= settled(st) + seq![
                Event::Attr(attr_name, v@),
            ]);
        },
        None => {
            lemma_scan_empty(st);
            assert(settled(st) + Seq::<Event>::empty() =~= settled(st));
        },
    }
}

/// A `Lang` whose languages hold no `"`, `<` or `&` is written as a
/// well-formed XML document of the one element `w:lang`, which reads back
/// with exactly the set languages. The values are written verbatim, so this
/// is owed to the values, not to the writer.
pub proof fn lemma_lang_well_formed(l: Lang)
    requires
        valid_language(l.val),
        valid_language(l.east_asia),
        valid_language(l.bidi),
    ensures
        well_formed(lang_xml(l)),
        events_of(lang_xml(l)) == lang_events(l),
{
    reveal_strlit("w:lang");
    reveal_strlit("w:val");
    reveal_strlit("w:eastAsia");
    reveal_strlit("w:bidi");
    let open = Seq::<Seq<char>>::empty();
    let ev0 = Seq::<Event>::empty();
    let name = "w:lang"@;
    let a = optional_attr("w:val"@, l.val);
    let b = optional_attr("w:eastAsia"@, l.east_asia);
    let c = optional_attr("w:bidi"@, l.bidi);
    let ea = optional_attr_events("w:val"@, l.val);
    let eb = optional_attr_events("w:eastAsia"@, l.east_asia);
    let ec = optional_attr_events("w:bidi"@, l.bidi);
    let s0 = at(Mode::StartName(name), open, 0, ev0);
    lemma_optional_attr_read(s0, "w:val"@, l.val);
    let s1 = scan(s0, a);
    lemma_optional_attr_read(s1, "w:eastAsia"@, l.east_asia);
    let s2 = scan(s1, b);
    lemma_optional_attr_read(s2, "w:bidi"@, l.bidi);
    lemma_scan_concat(s0, a, b);
    lemma_scan_concat(s0, a + b, c);
    assert(settled(s0) + ea + eb + ec =~= ev0.push(Event::Start(name)) + (ea + eb + ec));
    lemma_element_reads(open, 0, ev0, name, a + b + c, ea + eb + ec, Seq::empty(), Seq::empty());
    assert(ev0 + lang_events(l) =~= lang_events(l));
}

} // verus!
