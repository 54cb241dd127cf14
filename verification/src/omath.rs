//! Native Word equations: a tree of OMML (`m:`) elements and its XML form.

use vstd::prelude::*;
use vstd::string::*;
use vstd::utf8::encode_utf8;

use crate::escape::{escape, escaped};
use crate::wellformed::{
    at, element_events, events_of, lemma_element_reads, lemma_no_attrs_read, lemma_node_reads,
    lemma_one_attr_read, lemma_reads_concat, lemma_scan_empty, lemma_scan_escaped_text,
    lemma_scan_escaped_value, lemma_scan_plain_value, lemma_wrapped_reads, reads_as, text_events,
    valid_name, valid_value, well_formed, Event, Mode,
};
use crate::xml::{
    attr, element, push_attr, push_empty_close, push_empty_with_attr, push_end_tag,
    push_tag_close, push_tag_start, wrapped,
};

verus! {

/// A single node in an OMML (Office Math Markup Language) expression tree.
///
/// These map directly onto the `m:` elements Word uses for native equations.
/// Build a tree of these and wrap it in an [`OMath`] to emit a real Word
/// equation object (not just styled text), which Word's equation editor can
/// open and edit.
#[derive(Debug, PartialEq)]
pub enum OMathElement {
    /// A literal math run: `<m:r><m:t>…</m:t></m:r>`.
    Run(String),
    /// Superscript: `<m:sSup>` with base `<m:e>` and `<m:sup>`.
    SuperScript { base: Vec<OMathElement>, sup: Vec<OMathElement> },
    /// Subscript: `<m:sSub>` with base `<m:e>` and `<m:sub>`.
    SubScript { base: Vec<OMathElement>, sub: Vec<OMathElement> },
    /// Combined sub+superscript: `<m:sSubSup>`.
    SubSuperScript { base: Vec<OMathElement>, sub: Vec<OMathElement>, sup: Vec<OMathElement> },
    /// Fraction: `<m:f>` with `<m:num>` over `<m:den>`.
    Fraction { numerator: Vec<OMathElement>, denominator: Vec<OMathElement> },
    /// Radical: `<m:rad>` with optional `<m:deg>` and `<m:e>` (radicand).
    /// `degree == None` renders a plain square root (`degHide`).
    Radical { degree: Option<Vec<OMathElement>>, radicand: Vec<OMathElement> },
    /// N-ary operator (sum, product, integral): `<m:nary>` with an operator
    /// glyph, optional `<m:sub>`/`<m:sup>` limits, and a body `<m:e>`.
    Nary {
        operator: String,
        sub: Vec<OMathElement>,
        sup: Vec<OMathElement>,
        body: Vec<OMathElement>,
    },
    /// Delimited group (parentheses/brackets/braces): `<m:d>`.
    Delimited { begin: String, end: String, body: Vec<OMathElement> },
    /// Named function (`sin`, `lim`, …): `<m:func>` with `<m:fName>` and `<m:e>`.
    Function { name: Vec<OMathElement>, body: Vec<OMathElement> },
}

/// Two nodes are the same tree: the same variant, the same texts and the same
/// children, node for node.
pub open spec fn same_node(a: OMathElement, b: OMathElement) -> bool
    decreases a, 0int,
{
    match a {
        OMathElement::Run(x) => b matches OMathElement::Run(y) && x@ == y@,
        OMathElement::SuperScript { base, sup } => match b {
            OMathElement::SuperScript { base: base2, sup: sup2 } => same_nodes(base@, base2@)
                && same_nodes(sup@, sup2@),
            _ => false,
        },
        OMathElement::SubScript { base, sub } => match b {
            OMathElement::SubScript { base: base2, sub: sub2 } => same_nodes(base@, base2@)
                && same_nodes(sub@, sub2@),
            _ => false,
        },
        OMathElement::SubSuperScript { base, sub, sup } => match b {
            OMathElement::SubSuperScript { base: base2, sub: sub2, sup: sup2 } => same_nodes(
                base@,
                base2@,
            ) && same_nodes(sub@, sub2@) && same_nodes(sup@, sup2@),
            _ => false,
        },
        OMathElement::Fraction { numerator, denominator } => match b {
            OMathElement::Fraction { numerator: n2, denominator: d2 } => same_nodes(
                numerator@,
                n2@,
            ) && same_nodes(denominator@, d2@),
            _ => false,
        },
        OMathElement::Radical { degree, radicand } => match b {
            OMathElement::Radical { degree: degree2, radicand: radicand2 } => (match degree {
                Some(d) => degree2 matches Some(d2) && same_nodes(d@, d2@),
                None => degree2 is None,
            }) && same_nodes(radicand@, radicand2@),
            _ => false,
        },
        OMathElement::Nary { operator, sub, sup, body } => match b {
            OMathElement::Nary { operator: op2, sub: sub2, sup: sup2, body: body2 } => operator@
                == op2@ && same_nodes(sub@, sub2@) && same_nodes(sup@, sup2@) && same_nodes(
                body@,
                body2@,
            ),
            _ => false,
        },
        OMathElement::Delimited { begin, end, body } => match b {
            OMathElement::Delimited { begin: begin2, end: end2, body: body2 } => begin@ == begin2@
                && end@ == end2@ && same_nodes(body@, body2@),
            _ => false,
        },
        OMathElement::Function { name, body } => match b {
            OMathElement::Function { name: name2, body: body2 } => same_nodes(name@, name2@)
                && same_nodes(body@, body2@),
            _ => false,
        },
    }
}

/// Two sequences of nodes are the same trees, position for position.
pub open spec fn same_nodes(s: Seq<OMathElement>, t: Seq<OMathElement>) -> bool
    decreases s, s.len() + 1,
{
    s.len() == t.len() && same_prefix(s, t, s.len() as int)
}

/// The first `n` nodes of `s` and `t` are the same trees.
pub open spec fn same_prefix(s: Seq<OMathElement>, t: Seq<OMathElement>, n: int) -> bool
    decreases s, n,
{
    if n <= 0 {
        true
    } else if n > s.len() || n > t.len() {
        false
    } else {
        same_prefix(s, t, n - 1) && same_node(s[n - 1], t[n - 1])
    }
}

/// The relation on prefixes depends only on the nodes in them.
proof fn lemma_same_prefix_stable(
    s: Seq<OMathElement>,
    t: Seq<OMathElement>,
    s2: Seq<OMathElement>,
    t2: Seq<OMathElement>,
    n: int,
)
    requires
        0 <= n <= s.len(),
        n <= s2.len(),
        n <= t.len(),
        n <= t2.len(),
        forall|i: int| 0 <= i < n ==> s[i] == s2[i] && t[i] == t2[i],
    ensures
        same_prefix(s, t, n) == same_prefix(s2, t2, n),
    decreases n,
{
    if n > 0 {
        lemma_same_prefix_stable(s, t, s2, t2, n - 1);
    }
}

/// The same trees are written as the same XML.
pub proof fn lemma_same_node_xml(a: OMathElement, b: OMathElement)
    requires
        same_node(a, b),
    ensures
        element_xml(a) == element_xml(b),
    decreases a, 0int,
{
    match a {
        OMathElement::Run(x) => {},
        OMathElement::SuperScript { base, sup } => match b {
            OMathElement::SuperScript { base: base2, sup: sup2 } => {
                lemma_same_nodes_xml(base@, base2@);
                lemma_same_nodes_xml(sup@, sup2@);
            },
            _ => {},
        },
        OMathElement::SubScript { base, sub } => match b {
            OMathElement::SubScript { base: base2, sub: sub2 } => {
                lemma_same_nodes_xml(base@, base2@);
                lemma_same_nodes_xml(sub@, sub2@);
            },
            _ => {},
        },
        OMathElement::SubSuperScript { base, sub, sup } => match b {
            OMathElement::SubSuperScript { base: base2, sub: sub2, sup: sup2 } => {
                lemma_same_nodes_xml(base@, base2@);
                lemma_same_nodes_xml(sub@, sub2@);
                lemma_same_nodes_xml(sup@, sup2@);
            },
            _ => {},
        },
        OMathElement::Fraction { numerator, denominator } => match b {
            OMathElement::Fraction { numerator: n2, denominator: d2 } => {
                lemma_same_nodes_xml(numerator@, n2@);
                lemma_same_nodes_xml(denominator@, d2@);
            },
            _ => {},
        },
        OMathElement::Radical { degree, radicand } => match b {
            OMathElement::Radical { degree: degree2, radicand: radicand2 } => {
                match degree {
                    Some(d) => match degree2 {
                        Some(d2) => lemma_same_nodes_xml(d@, d2@),
                        None => {},
                    },
                    None => {},
                }
                lemma_same_nodes_xml(radicand@, radicand2@);
            },
            _ => {},
        },
        OMathElement::Nary { operator, sub, sup, body } => match b {
            OMathElement::Nary { operator: op2, sub: sub2, sup: sup2, body: body2 } => {
                lemma_same_nodes_xml(sub@, sub2@);
                lemma_same_nodes_xml(sup@, sup2@);
                lemma_same_nodes_xml(body@, body2@);
            },
            _ => {},
        },
        OMathElement::Delimited { begin, end, body } => match b {
            OMathElement::Delimited { begin: begin2, end: end2, body: body2 } => {
                lemma_same_nodes_xml(body@, body2@);
            },
            _ => {},
        },
        OMathElement::Function { name, body } => match b {
            OMathElement::Function { name: name2, body: body2 } => {
                lemma_same_nodes_xml(name@, name2@);
                lemma_same_nodes_xml(body@, body2@);
            },
            _ => {},
        },
    }
}

/// The same sequences of trees are written as the same XML, in every slot.
pub proof fn lemma_same_nodes_xml(s: Seq<OMathElement>, t: Seq<OMathElement>)
    requires
        same_nodes(s, t),
    ensures
        elements_xml(s) == elements_xml(t),
        forall|tag: Seq<char>| #[trigger] slot_xml(tag, s) == slot_xml(tag, t),
    decreases s, s.len() + 1,
{
    lemma_same_prefix_xml(s, t, s.len() as int);
}

/// Prefixes of the same trees are written as the same XML.
proof fn lemma_same_prefix_xml(s: Seq<OMathElement>, t: Seq<OMathElement>, n: int)
    requires
        same_prefix(s, t, n),
    ensures
        elements_prefix_xml(s, n) == elements_prefix_xml(t, n),
    decreases s, n,
{
    if n > 0 {
        lemma_same_prefix_xml(s, t, n - 1);
        lemma_same_node_xml(s[n - 1], t[n - 1]);
    }
}

/// Copies each node of `nodes`.
fn clone_nodes(nodes: &Vec<OMathElement>) -> (r: Vec<OMathElement>)
    ensures
        same_nodes(r@, nodes@),
    decreases nodes@, 1int,
{
    let mut r: Vec<OMathElement> = Vec::new();
    let n = nodes.len();
    let mut i: usize = 0;
    while i < n
        invariant
            n == nodes@.len(),
            0 <= i <= n,
            r@.len() == i,
            same_prefix(r@, nodes@, i as int),
        decreases n - i,
    {
        let ghost before = r@;
        let c = nodes[i].clone();
        r.push(c);
        proof {
            lemma_same_prefix_stable(before, nodes@, r@, nodes@, i as int);
        }
        i = i + 1;
    }
    r
}

impl Clone for OMathElement {
    /// A deep copy: the same tree, node for node.
    fn clone(&self) -> (r: Self)
        ensures
            same_node(r, *self),
            element_xml(r) == element_xml(*self),
        decreases self, 0int,
    {
        let r = match self {
            OMathElement::Run(t) => OMathElement::Run(t.clone()),
            OMathElement::SuperScript { base, sup } => OMathElement::SuperScript {
                base: clone_nodes(base),
                sup: clone_nodes(sup),
            },
            OMathElement::SubScript { base, sub } => OMathElement::SubScript {
                base: clone_nodes(base),
                sub: clone_nodes(sub),
            },
            OMathElement::SubSuperScript { base, sub, sup } => OMathElement::SubSuperScript {
                base: clone_nodes(base),
                sub: clone_nodes(sub),
                sup: clone_nodes(sup),
            },
            OMathElement::Fraction { numerator, denominator } => OMathElement::Fraction {
                numerator: clone_nodes(numerator),
                denominator: clone_nodes(denominator),
            },
            OMathElement::Radical { degree, radicand } => {
                let degree = match degree {
                    Some(deg) => Some(clone_nodes(deg)),
                    None => None,
                };
                OMathElement::Radical { degree, radicand: clone_nodes(radicand) }
            },
            OMathElement::Nary { operator, sub, sup, body } => OMathElement::Nary {
                operator: operator.clone(),
                sub: clone_nodes(sub),
                sup: clone_nodes(sup),
                body: clone_nodes(body),
            },
            OMathElement::Delimited { begin, end, body } => OMathElement::Delimited {
                begin: begin.clone(),
                end: end.clone(),
                body: clone_nodes(body),
            },
            OMathElement::Function { name, body } => OMathElement::Function {
                name: clone_nodes(name),
                body: clone_nodes(body),
            },
        };
        proof {
            lemma_same_node_xml(r, *self);
        }
        r
    }
}

/// `<tag>elements…</tag>`, an argument slot; `<tag />` when it holds nothing.
pub open spec fn slot_xml(tag: Seq<char>, elements: Seq<OMathElement>) -> Seq<char>
    decreases elements, elements.len() + 1,
{
    element(tag, Seq::empty(), elements_prefix_xml(elements, elements.len() as int))
}

/// The XML of the first `n` elements of a sequence, one after the other.
pub open spec fn elements_prefix_xml(elements: Seq<OMathElement>, n: int) -> Seq<char>
    decreases elements, n,
{
    if n <= 0 || n > elements.len() {
        Seq::empty()
    } else {
        elements_prefix_xml(elements, n - 1) + element_xml(elements[n - 1])
    }
}

/// `<m:hide m:val="1" />` when `hidden`, else with `"0"`.
pub open spec fn hide_flag(tag: Seq<char>, hidden: bool) -> Seq<char> {
    element(tag, attr("m:val"@, if hidden { "1"@ } else { "0"@ }), Seq::empty())
}

/// The XML of one node of an equation.
pub open spec fn element_xml(e: OMathElement) -> Seq<char>
    decreases e, 0int,
{
    match e {
        OMathElement::Run(text) => element(
            "m:r"@,
            Seq::empty(),
            wrapped("m:t"@, attr("xml:space"@, "preserve"@), escaped(text@)),
        ),
        OMathElement::SuperScript { base, sup } => element(
            "m:sSup"@,
            Seq::empty(),
            slot_xml("m:e"@, base@) + slot_xml("m:sup"@, sup@),
        ),
        OMathElement::SubScript { base, sub } => element(
            "m:sSub"@,
            Seq::empty(),
            slot_xml("m:e"@, base@) + slot_xml("m:sub"@, sub@),
        ),
        OMathElement::SubSuperScript { base, sub, sup } => element(
            "m:sSubSup"@,
            Seq::empty(),
            slot_xml("m:e"@, base@) + slot_xml("m:sub"@, sub@) + slot_xml("m:sup"@, sup@),
        ),
        OMathElement::Fraction { numerator, denominator } => element(
            "m:f"@,
            Seq::empty(),
            slot_xml("m:num"@, numerator@) + slot_xml("m:den"@, denominator@),
        ),
        OMathElement::Radical { degree, radicand } => element(
            "m:rad"@,
            Seq::empty(),
            element("m:radPr"@, Seq::empty(), hide_flag("m:degHide"@, degree is None))
                + match degree {
                Some(deg) => slot_xml("m:deg"@, deg@),
                None => element("m:deg"@, Seq::empty(), Seq::empty()),
            } + slot_xml("m:e"@, radicand@),
        ),
        OMathElement::Nary { operator, sub, sup, body } => element(
            "m:nary"@,
            Seq::empty(),
            element(
                "m:naryPr"@,
                Seq::empty(),
                element("m:chr"@, attr("m:val"@, escaped(operator@)), Seq::empty())
                    + hide_flag("m:subHide"@, sub@.len() == 0)
                    + hide_flag("m:supHide"@, sup@.len() == 0),
            ) + slot_xml("m:sub"@, sub@) + slot_xml("m:sup"@, sup@) + slot_xml("m:e"@, body@),
        ),
        OMathElement::Delimited { begin, end, body } => element(
            "m:d"@,
            Seq::empty(),
            element(
                "m:dPr"@,
                Seq::empty(),
                element("m:begChr"@, attr("m:val"@, escaped(begin@)), Seq::empty())
                    + element("m:endChr"@, attr("m:val"@, escaped(end@)), Seq::empty()),
            ) + slot_xml("m:e"@, body@),
        ),
        OMathElement::Function { name, body } => element(
            "m:func"@,
            Seq::empty(),
            slot_xml("m:fName"@, name@) + slot_xml("m:e"@, body@),
        ),
    }
}

/// The XML of a sequence of nodes, one after the other.
pub open spec fn elements_xml(elements: Seq<OMathElement>) -> Seq<char> {
    elements_prefix_xml(elements, elements.len() as int)
}

/// Every node is written as at least one tag.
pub proof fn lemma_element_xml_nonempty(e: OMathElement)
    ensures
        element_xml(e).len() > 0,
{
}

/// The nodes of a non-empty prefix are written as something non-empty.
proof fn lemma_prefix_xml_nonempty(elements: Seq<OMathElement>, n: int)
    requires
        0 < n <= elements.len(),
    ensures
        elements_prefix_xml(elements, n).len() > 0,
{
    lemma_element_xml_nonempty(elements[n - 1]);
}

/// Writes `elements`, one after the other.
fn build_elements(out: &mut String, elements: &[OMathElement])
    ensures
        final(out)@ == old(out)@ + elements_xml(elements@),
    decreases elements@, elements@.len() + 1,
{
    let ghost start = out@;
    let n = elements.len();
    let mut i: usize = 0;
    while i < n
        invariant
            n == elements@.len(),
            0 <= i <= n,
            out@ == start + elements_prefix_xml(elements@, i as int),
        decreases n - i,
    {
        let ghost before = out@;
        elements[i].build_to(out);
        proof {
            assert(elements_prefix_xml(elements@, i + 1) == elements_prefix_xml(elements@, i as int)
                + element_xml(elements@[i as int]));
            assert(out@ =~= start + elements_prefix_xml(elements@, i + 1));
        }
        i = i + 1;
    }
}

/// Writes `<tag>elements…</tag>`, an argument slot used by most OMML
/// elements; with no elements, `<tag />`.
fn build_arg(out: &mut String, tag: &str, elements: &[OMathElement])
    ensures
        final(out)@ == old(out)@ + slot_xml(tag@, elements@),
    decreases elements@, elements@.len() + 2,
{
    let ghost start = out@;
    if elements.len() == 0 {
        push_tag_start(out, tag);
        push_empty_close(out);
        assert(out@ =~= start + slot_xml(tag@, elements@));
    } else {
        push_tag_start(out, tag);
        push_tag_close(out);
        build_elements(out, elements);
        push_end_tag(out, tag);
        proof {
            lemma_prefix_xml_nonempty(elements@, elements@.len() as int);
        }
        assert(out@ =~= start + slot_xml(tag@, elements@));
    }
}

impl OMathElement {
    /// Writes this node as OMML.
    pub fn build_to(&self, out: &mut String)
        ensures
            final(out)@ == old(out)@ + element_xml(*self),
        decreases self, 1int,
    {
        match self {
            OMathElement::Run(..) => self.build_run(out),
            OMathElement::SuperScript { .. } => self.build_superscript(out),
            OMathElement::SubScript { .. } => self.build_subscript(out),
            OMathElement::SubSuperScript { .. } => self.build_sub_superscript(out),
            OMathElement::Fraction { .. } => self.build_fraction(out),
            OMathElement::Radical { .. } => self.build_radical(out),
            OMathElement::Nary { .. } => self.build_nary(out),
            OMathElement::Delimited { .. } => self.build_delimited(out),
            OMathElement::Function { .. } => self.build_function(out),
        }
    }

    /// Writes `<m:r><m:t xml:space="preserve">text</m:t></m:r>`, the text escaped.
    #[verifier::spinoff_prover]
    #[verifier::rlimit(50)]
    fn build_run(&self, out: &mut String)
        requires
            *self is Run,
        ensures
            final(out)@ == old(out)@ + element_xml(*self),
        decreases self, 0int,
    {
        let ghost start = out@;
        match self {
            OMathElement::Run(text) => {
                push_tag_start(out, "m:r");
                push_tag_close(out);
                push_tag_start(out, "m:t");
                push_attr(out, "xml:space", "preserve");
                push_tag_close(out);
                let t = escape(text.as_str());
                out.append(t.as_str());
                push_end_tag(out, "m:t");
                push_end_tag(out, "m:r");
                assert(out@ =~= start + element_xml(*self));
            },
            _ => {},
        }
    }

    /// Writes `<m:sSup>` with its base and superscript slots.
    #[verifier::spinoff_prover]
    #[verifier::rlimit(50)]
    fn build_superscript(&self, out: &mut String)
        requires
            *self is SuperScript,
        ensures
            final(out)@ == old(out)@ + element_xml(*self),
        decreases self, 0int,
    {
        let ghost start = out@;
        match self {
            OMathElement::SuperScript { base, sup } => {
                push_tag_start(out, "m:sSup");
                push_tag_close(out);
                build_arg(out, "m:e", base.as_slice());
                build_arg(out, "m:sup", sup.as_slice());
                push_end_tag(out, "m:sSup");
                assert(out@ =~= start + element_xml(*self));
            },
            _ => {},
        }
    }

    /// Writes `<m:sSub>` with its base and subscript slots.
    #[verifier::spinoff_prover]
    #[verifier::rlimit(50)]
    fn build_subscript(&self, out: &mut String)
        requires
            *self is SubScript,
        ensures
            final(out)@ == old(out)@ + element_xml(*self),
        decreases self, 0int,
    {
        let ghost start = out@;
        match self {
            OMathElement::SubScript { base, sub } => {
                push_tag_start(out, "m:sSub");
                push_tag_close(out);
                build_arg(out, "m:e", base.as_slice());
                build_arg(out, "m:sub", sub.as_slice());
                push_end_tag(out, "m:sSub");
                assert(out@ =~= start + element_xml(*self));
            },
            _ => {},
        }
    }

    /// Writes `<m:sSubSup>` with its base, subscript and superscript slots.
    #[verifier::spinoff_prover]
    #[verifier::rlimit(50)]
    fn build_sub_superscript(&self, out: &mut String)
        requires
            *self is SubSuperScript,
        ensures
            final(out)@ == old(out)@ + element_xml(*self),
        decreases self, 0int,
    {
        let ghost start = out@;
        match self {
            OMathElement::SubSuperScript { base, sub, sup } => {
                push_tag_start(out, "m:sSubSup");
                push_tag_close(out);
                build_arg(out, "m:e", base.as_slice());
                build_arg(out, "m:sub", sub.as_slice());
                build_arg(out, "m:sup", sup.as_slice());
                push_end_tag(out, "m:sSubSup");
                assert(out@ =~= start + element_xml(*self));
            },
            _ => {},
        }
    }

    /// Writes `<m:f>` with numerator and denominator slots.
    #[verifier::spinoff_prover]
    #[verifier::rlimit(50)]
    fn build_fraction(&self, out: &mut String)
        requires
            *self is Fraction,
        ensures
            final(out)@ == old(out)@ + element_xml(*self),
        decreases self, 0int,
    {
        let ghost start = out@;
        match self {
            OMathElement::Fraction { numerator, denominator } => {
                push_tag_start(out, "m:f");
                push_tag_close(out);
                build_arg(out, "m:num", numerator.as_slice());
                build_arg(out, "m:den", denominator.as_slice());
                push_end_tag(out, "m:f");
                assert(out@ =~= start + element_xml(*self));
            },
            _ => {},
        }
    }

    /// Writes `<m:rad>`: properties that hide the degree of a square root, the degree slot, the radicand.
    #[verifier::spinoff_prover]
    #[verifier::rlimit(50)]
    fn build_radical(&self, out: &mut String)
        requires
            *self is Radical,
        ensures
            final(out)@ == old(out)@ + element_xml(*self),
        decreases self, 0int,
    {
        let ghost start = out@;
        match self {
            OMathElement::Radical { degree, radicand } => {
                push_tag_start(out, "m:rad");
                push_tag_close(out);
                // radPr: hide the degree slot for a plain square root.
                push_tag_start(out, "m:radPr");
                push_tag_close(out);
                let hide = if degree.is_some() { "0" } else { "1" };
                push_empty_with_attr(out, "m:degHide", "m:val", hide);
                push_end_tag(out, "m:radPr");
                match degree {
                    Some(deg) => build_arg(out, "m:deg", deg.as_slice()),
                    // Word still expects an (empty) deg slot when hidden.
                    None => {
                        push_tag_start(out, "m:deg");
                        push_empty_close(out);
                    },
                }
                build_arg(out, "m:e", radicand.as_slice());
                push_end_tag(out, "m:rad");
                assert(out@ =~= start + element_xml(*self));
            },
            _ => {},
        }
    }

    /// Writes `<m:nary>`: the operator glyph and which limits are hidden, then the limit and body slots.
    #[verifier::spinoff_prover]
    #[verifier::rlimit(50)]
    fn build_nary(&self, out: &mut String)
        requires
            *self is Nary,
        ensures
            final(out)@ == old(out)@ + element_xml(*self),
        decreases self, 0int,
    {
        let ghost start = out@;
        match self {
            OMathElement::Nary { operator, sub, sup, body } => {
                push_tag_start(out, "m:nary");
                push_tag_close(out);
                // naryPr: operator glyph; hide unused sub/sup slots.
                let ghost props_start = out@;
                push_tag_start(out, "m:naryPr");
                push_tag_close(out);
                let chr = escape(operator.as_str());
                push_empty_with_attr(out, "m:chr", "m:val", chr.as_str());
                let sub_hide = if sub.len() == 0 { "1" } else { "0" };
                push_empty_with_attr(out, "m:subHide", "m:val", sub_hide);
                let sup_hide = if sup.len() == 0 { "1" } else { "0" };
                push_empty_with_attr(out, "m:supHide", "m:val", sup_hide);
                push_end_tag(out, "m:naryPr");
                let ghost chr_xml = element("m:chr"@, attr("m:val"@, escaped(operator@)), Seq::empty());
                let ghost props = chr_xml + hide_flag("m:subHide"@, sub@.len() == 0) + hide_flag(
                    "m:supHide"@,
                    sup@.len() == 0,
                );
                assert(out@ =~= props_start + element("m:naryPr"@, Seq::empty(), props));
                let ghost slots_start = out@;
                build_arg(out, "m:sub", sub.as_slice());
                build_arg(out, "m:sup", sup.as_slice());
                build_arg(out, "m:e", body.as_slice());
                push_end_tag(out, "m:nary");
                let ghost slots = slot_xml("m:sub"@, sub@) + slot_xml("m:sup"@, sup@) + slot_xml("m:e"@, body@);
                assert(out@ =~= slots_start + slots + seq!['<', '/'] + "m:nary"@ + seq!['>']);
                assert(out@ =~= start + element_xml(*self));
            },
            _ => {},
        }
    }

    /// Writes `<m:d>`: the escaped delimiter glyphs, then the body slot.
    #[verifier::spinoff_prover]
    #[verifier::rlimit(50)]
    fn build_delimited(&self, out: &mut String)
        requires
            *self is Delimited,
        ensures
            final(out)@ == old(out)@ + element_xml(*self),
        decreases self, 0int,
    {
        let ghost start = out@;
        match self {
            OMathElement::Delimited { begin, end, body } => {
                push_tag_start(out, "m:d");
                push_tag_close(out);
                push_tag_start(out, "m:dPr");
                push_tag_close(out);
                // An empty `m:val=""` means an invisible delimiter.
                let beg = escape(begin.as_str());
                let end_ = escape(end.as_str());
                push_empty_with_attr(out, "m:begChr", "m:val", beg.as_str());
                push_empty_with_attr(out, "m:endChr", "m:val", end_.as_str());
                push_end_tag(out, "m:dPr");
                build_arg(out, "m:e", body.as_slice());
                push_end_tag(out, "m:d");
                assert(out@ =~= start + element_xml(*self));
            },
            _ => {},
        }
    }

    /// Writes `<m:func>` with the function name and argument slots.
    #[verifier::spinoff_prover]
    #[verifier::rlimit(50)]
    fn build_function(&self, out: &mut String)
        requires
            *self is Function,
        ensures
            final(out)@ == old(out)@ + element_xml(*self),
        decreases self, 0int,
    {
        let ghost start = out@;
        match self {
            OMathElement::Function { name, body } => {
                push_tag_start(out, "m:func");
                push_tag_close(out);
                build_arg(out, "m:fName", name.as_slice());
                build_arg(out, "m:e", body.as_slice());
                push_end_tag(out, "m:func");
                assert(out@ =~= start + element_xml(*self));
            },
            _ => {},
        }
    }
}

/// A native Word math equation (`<m:oMath>`).
///
/// Holds a tree of [`OMathElement`]s. Construct directly with [`OMath::new`] for
/// a single literal run, or with [`OMath::from_elements`] for a structured
/// expression. Set [`OMath::display`] for a block (centred) equation wrapped in
/// `<m:oMathPara>`; otherwise it is inline.
#[derive(Debug, PartialEq)]
pub struct OMath {
    pub elements: Vec<OMathElement>,
    pub display: bool,
}

impl Clone for OMath {
    /// A deep copy: the same trees, and the same display flag.
    fn clone(&self) -> (r: Self)
        ensures
            same_nodes(r.elements@, self.elements@),
            r.display == self.display,
            omath_xml(r) == omath_xml(*self),
    {
        let r = OMath { elements: clone_nodes(&self.elements), display: self.display };
        proof {
            lemma_same_nodes_xml(r.elements@, self.elements@);
        }
        r
    }
}

/// `<m:oMath>elements…</m:oMath>`, the equation without its display wrapper.
pub open spec fn inline_xml(elements: Seq<OMathElement>) -> Seq<char> {
    element("m:oMath"@, Seq::empty(), elements_xml(elements))
}

/// The XML of an equation: a display equation is wrapped in `<m:oMathPara>`.
pub open spec fn omath_xml(m: OMath) -> Seq<char> {
    if m.display {
        element("m:oMathPara"@, Seq::empty(), inline_xml(m.elements@))
    } else {
        inline_xml(m.elements@)
    }
}

impl OMath {
    /// A single literal run of math text.
    pub fn new(content: &str) -> (r: Self)
        ensures
            r.elements@.len() == 1,
            r.elements@[0] matches OMathElement::Run(text) && text@ == content@,
            !r.display,
    {
        OMath { elements: vec![OMathElement::Run(String::from_str(content))], display: false }
    }

    /// A structured expression from an explicit element tree.
    pub fn from_elements(elements: Vec<OMathElement>) -> (r: Self)
        ensures
            r.elements == elements,
            !r.display,
    {
        OMath { elements, display: false }
    }

    /// Mark this as a display (block) equation.
    pub fn display(self) -> (r: Self)
        ensures
            r.elements == self.elements,
            r.display,
    {
        let mut m = self;
        m.display = true;
        m
    }

    /// Writes the equation as OMML: `<m:oMath>…</m:oMath>`, inside
    /// `<m:oMathPara>…</m:oMathPara>` for a display equation.
    pub fn build_to(&self, out: &mut String)
        ensures
            final(out)@ == old(out)@ + omath_xml(*self),
    {
        let ghost start = out@;
        if self.display {
            push_tag_start(out, "m:oMathPara");
            push_tag_close(out);
        }
        let ghost inner_start = out@;
        push_tag_start(out, "m:oMath");
        if self.elements.len() == 0 {
            push_empty_close(out);
        } else {
            push_tag_close(out);
            build_elements(out, self.elements.as_slice());
            push_end_tag(out, "m:oMath");
            proof {
                lemma_prefix_xml_nonempty(self.elements@, self.elements@.len() as int);
            }
        }
        assert(out@ =~= inner_start + inline_xml(self.elements@));
        if self.display {
            push_end_tag(out, "m:oMathPara");
        }
        assert(out@ =~= start + omath_xml(*self));
    }

    /// The equation's XML, UTF-8 encoded.
    pub fn build(&self) -> (r: Vec<u8>)
        ensures
            r@ == encode_utf8(omath_xml(*self)),
    {
        let mut out = String::new();
        self.build_to(&mut out);
        out.as_str().as_bytes_vec()
    }
}

/// The nodes of `a` then `b` are written as those of `a`, then those of `b`:
/// an equation's XML is assembled node by node, in order.
pub proof fn lemma_elements_xml_concat(a: Seq<OMathElement>, b: Seq<OMathElement>)
    ensures
        elements_xml(a + b) == elements_xml(a) + elements_xml(b),
    decreases b.len(),
{
    if b.len() == 0 {
        assert(a + b =~= a);
        assert(elements_xml(a) + elements_xml(b) =~= elements_xml(a));
    } else {
        let b0 = b.drop_last();
        lemma_elements_xml_concat(a, b0);
        lemma_prefix_xml_stable(a + b0, a + b, (a + b0).len() as int);
        lemma_prefix_xml_stable(b0, b, b0.len() as int);
        assert((a + b)[(a + b).len() - 1] == b[b.len() - 1]);
        assert(elements_xml(a) + elements_xml(b) =~= elements_xml(a) + elements_xml(b0)
            + element_xml(b[b.len() - 1]));
    }
}

/// Writing a prefix depends only on the elements in it.
proof fn lemma_prefix_xml_stable(s: Seq<OMathElement>, t: Seq<OMathElement>, n: int)
    requires
        0 <= n <= s.len(),
        n <= t.len(),
        forall|i: int| 0 <= i < n ==> s[i] == t[i],
    ensures
        elements_prefix_xml(s, n) == elements_prefix_xml(t, n),
    decreases n,
{
    if n > 0 {
        lemma_prefix_xml_stable(s, t, n - 1);
    }
}

/// `<m:r><m:t xml:space="preserve">`, what a run's text follows.
pub open spec fn run_text_open() -> Seq<char> {
    seq!['<'] + "m:r"@ + seq!['>'] + seq!['<'] + "m:t"@ + attr("xml:space"@, "preserve"@) + seq!['>']
}

/// `</m:t></m:r>`, what a run's text is followed by.
pub open spec fn run_text_close() -> Seq<char> {
    seq!['<', '/'] + "m:t"@ + seq!['>'] + seq!['<', '/'] + "m:r"@ + seq!['>']
}

/// A run writes its text escaped between fixed tags, and the escaped text
/// reads back as the text itself: math text is never lost or turned into markup.
pub proof fn lemma_run_text_reads_back(text: String)
    ensures
        element_xml(OMathElement::Run(text)) == run_text_open() + escaped(text@) + run_text_close(),
        crate::escape::unescaped(escaped(text@)) == text@,
{
    crate::escape::lemma_unescaped_escaped(text@);
    assert(element_xml(OMathElement::Run(text)) =~= run_text_open() + escaped(text@)
        + run_text_close());
}

/// A display equation is the inline equation wrapped in `<m:oMathPara>`.
pub proof fn lemma_display_wraps_inline(elements: Vec<OMathElement>)
    ensures
        omath_xml(OMath { elements, display: true }) == wrapped(
            "m:oMathPara"@,
            Seq::empty(),
            omath_xml(OMath { elements, display: false }),
        ),
{
}

/// A copy made display writes the original inline equation wrapped in
/// `<m:oMathPara>`.
pub proof fn lemma_display_of_copy(m: OMath, copy: Vec<OMathElement>)
    requires
        !m.display,
        same_nodes(copy@, m.elements@),
    ensures
        omath_xml(OMath { elements: copy, display: true }) == wrapped(
            "m:oMathPara"@,
            Seq::empty(),
            omath_xml(m),
        ),
{
    lemma_same_nodes_xml(copy@, m.elements@);
}

/// The root of an equation's XML is `m:oMathPara` exactly when it is a
/// display equation: the text begins `<m:oMathPara>` then, and `<m:oMath`
/// otherwise.
pub proof fn lemma_display_root(m: OMath)
    ensures
        m.display ==> omath_xml(m) == wrapped("m:oMathPara"@, Seq::empty(), inline_xml(m.elements@)),
        !m.display ==> omath_xml(m) == inline_xml(m.elements@),
        omath_xml(m).take(root_name(m.display).len() + 1int) == seq!['<'] + root_name(m.display),
{
    let r = root_name(m.display);
    let x = omath_xml(m);
    assert(x.take(r.len() + 1int) =~= seq!['<'] + r);
}

/// An argument slot with no elements is written as the empty element `<tag />`.
pub proof fn lemma_empty_slot(tag: Seq<char>)
    ensures
        slot_xml(tag, Seq::empty()) == crate::xml::empty_element(tag, Seq::empty()),
{
}

/// A square root (no degree) hides its degree slot and still writes it empty;
/// a root with a degree shows it.
pub proof fn lemma_radical_degree_flag(degree: Option<Vec<OMathElement>>, radicand: Vec<OMathElement>)
    ensures
        element_xml(OMathElement::Radical { degree, radicand }) == element(
            "m:rad"@,
            Seq::empty(),
            element(
                "m:radPr"@,
                Seq::empty(),
                crate::xml::empty_element(
                    "m:degHide"@,
                    attr("m:val"@, if degree is None { "1"@ } else { "0"@ }),
                ),
            ) + match degree {
                Some(deg) => slot_xml("m:deg"@, deg@),
                None => crate::xml::empty_element("m:deg"@, Seq::empty()),
            } + slot_xml("m:e"@, radicand@),
        ),
{
}

/// An n-ary operator hides exactly the limit slots it has no elements for.
pub proof fn lemma_nary_hides_missing_limits(
    operator: String,
    sub: Vec<OMathElement>,
    sup: Vec<OMathElement>,
    body: Vec<OMathElement>,
)
    ensures
        element_xml(OMathElement::Nary { operator, sub, sup, body }) == element(
            "m:nary"@,
            Seq::empty(),
            element(
                "m:naryPr"@,
                Seq::empty(),
                crate::xml::empty_element("m:chr"@, attr("m:val"@, escaped(operator@)))
                    + crate::xml::empty_element(
                    "m:subHide"@,
                    attr("m:val"@, if sub@.len() == 0 { "1"@ } else { "0"@ }),
                ) + crate::xml::empty_element(
                    "m:supHide"@,
                    attr("m:val"@, if sup@.len() == 0 { "1"@ } else { "0"@ }),
                ),
            ) + slot_xml("m:sub"@, sub@) + slot_xml("m:sup"@, sup@) + slot_xml("m:e"@, body@),
        ),
{
}


/// What reading an equation's XML reports for `<tag m:val="…" />`.
pub open spec fn flag_events(tag: Seq<char>, hidden: bool) -> Seq<Event> {
    element_events(
        tag,
        seq![Event::Attr("m:val"@, if hidden { "1"@ } else { "0"@ })],
        Seq::empty(),
    )
}

/// What reading an argument slot reports.
pub open spec fn slot_events(tag: Seq<char>, elements: Seq<OMathElement>) -> Seq<Event>
    decreases elements, elements.len() + 1,
{
    element_events(tag, Seq::empty(), prefix_events(elements, elements.len() as int))
}

/// What reading the first `n` nodes reports.
pub open spec fn prefix_events(elements: Seq<OMathElement>, n: int) -> Seq<Event>
    decreases elements, n,
{
    if n <= 0 || n > elements.len() {
        Seq::empty()
    } else {
        prefix_events(elements, n - 1) + node_events(elements[n - 1])
    }
}

/// What reading a node's XML reports: its elements in document order, with
/// the run texts and the operator and delimiter glyphs as they are in the
/// tree, unescaped.
pub open spec fn node_events(e: OMathElement) -> Seq<Event>
    decreases e, 0int,
{
    match e {
        OMathElement::Run(text) => element_events(
            "m:r"@,
            Seq::empty(),
            element_events(
                "m:t"@,
                seq![Event::Attr("xml:space"@, "preserve"@)],
                text_events(text@),
            ),
        ),
        OMathElement::SuperScript { base, sup } => element_events(
            "m:sSup"@,
            Seq::empty(),
            slot_events("m:e"@, base@) + slot_events("m:sup"@, sup@),
        ),
        OMathElement::SubScript { base, sub } => element_events(
            "m:sSub"@,
            Seq::empty(),
            slot_events("m:e"@, base@) + slot_events("m:sub"@, sub@),
        ),
        OMathElement::SubSuperScript { base, sub, sup } => element_events(
            "m:sSubSup"@,
            Seq::empty(),
            slot_events("m:e"@, base@) + slot_events("m:sub"@, sub@) + slot_events("m:sup"@, sup@),
        ),
        OMathElement::Fraction { numerator, denominator } => element_events(
            "m:f"@,
            Seq::empty(),
            slot_events("m:num"@, numerator@) + slot_events("m:den"@, denominator@),
        ),
        OMathElement::Radical { degree, radicand } => element_events(
            "m:rad"@,
            Seq::empty(),
            element_events("m:radPr"@, Seq::empty(), flag_events("m:degHide"@, degree is None))
                + match degree {
                Some(deg) => slot_events("m:deg"@, deg@),
                None => element_events("m:deg"@, Seq::empty(), Seq::empty()),
            } + slot_events("m:e"@, radicand@),
        ),
        OMathElement::Nary { operator, sub, sup, body } => element_events(
            "m:nary"@,
            Seq::empty(),
            element_events(
                "m:naryPr"@,
                Seq::empty(),
                element_events("m:chr"@, seq![Event::Attr("m:val"@, operator@)], Seq::empty())
                    + flag_events("m:subHide"@, sub@.len() == 0)
                    + flag_events("m:supHide"@, sup@.len() == 0),
            ) + slot_events("m:sub"@, sub@) + slot_events("m:sup"@, sup@) + slot_events(
                "m:e"@,
                body@,
            ),
        ),
        OMathElement::Delimited { begin, end, body } => element_events(
            "m:d"@,
            Seq::empty(),
            element_events(
                "m:dPr"@,
                Seq::empty(),
                element_events("m:begChr"@, seq![Event::Attr("m:val"@, begin@)], Seq::empty())
                    + element_events("m:endChr"@, seq![Event::Attr("m:val"@, end@)], Seq::empty()),
            ) + slot_events("m:e"@, body@),
        ),
        OMathElement::Function { name, body } => element_events(
            "m:func"@,
            Seq::empty(),
            slot_events("m:fName"@, name@) + slot_events("m:e"@, body@),
        ),
    }
}

/// The name of an equation's root element.
pub open spec fn root_name(display: bool) -> Seq<char> {
    if display {
        "m:oMathPara"@
    } else {
        "m:oMath"@
    }
}

/// What reading an equation's XML reports.
pub open spec fn omath_events(m: OMath) -> Seq<Event> {
    let inner = element_events(
        "m:oMath"@,
        Seq::empty(),
        prefix_events(m.elements@, m.elements@.len() as int),
    );
    if m.display {
        element_events("m:oMathPara"@, Seq::empty(), inner)
    } else {
        inner
    }
}

/// The element and attribute names an equation is written with are names, and
/// its fixed attribute values can stand verbatim between quotes.
proof fn lemma_names_valid()
    ensures
        valid_name("m:r"@),
        valid_name("m:t"@),
        valid_name("xml:space"@),
        valid_name("m:sSup"@),
        valid_name("m:e"@),
        valid_name("m:sup"@),
        valid_name("m:sSub"@),
        valid_name("m:sub"@),
        valid_name("m:sSubSup"@),
        valid_name("m:f"@),
        valid_name("m:num"@),
        valid_name("m:den"@),
        valid_name("m:rad"@),
        valid_name("m:radPr"@),
        valid_name("m:degHide"@),
        valid_name("m:val"@),
        valid_name("m:deg"@),
        valid_name("m:nary"@),
        valid_name("m:naryPr"@),
        valid_name("m:chr"@),
        valid_name("m:subHide"@),
        valid_name("m:supHide"@),
        valid_name("m:d"@),
        valid_name("m:dPr"@),
        valid_name("m:begChr"@),
        valid_name("m:endChr"@),
        valid_name("m:func"@),
        valid_name("m:fName"@),
        valid_name("m:oMath"@),
        valid_name("m:oMathPara"@),
        valid_value("preserve"@),
        valid_value("1"@),
        valid_value("0"@),
{
    reveal_strlit("m:r");
    reveal_strlit("m:t");
    reveal_strlit("xml:space");
    reveal_strlit("m:sSup");
    reveal_strlit("m:e");
    reveal_strlit("m:sup");
    reveal_strlit("m:sSub");
    reveal_strlit("m:sub");
    reveal_strlit("m:sSubSup");
    reveal_strlit("m:f");
    reveal_strlit("m:num");
    reveal_strlit("m:den");
    reveal_strlit("m:rad");
    reveal_strlit("m:radPr");
    reveal_strlit("m:degHide");
    reveal_strlit("m:val");
    reveal_strlit("m:deg");
    reveal_strlit("m:nary");
    reveal_strlit("m:naryPr");
    reveal_strlit("m:chr");
    reveal_strlit("m:subHide");
    reveal_strlit("m:supHide");
    reveal_strlit("m:d");
    reveal_strlit("m:dPr");
    reveal_strlit("m:begChr");
    reveal_strlit("m:endChr");
    reveal_strlit("m:func");
    reveal_strlit("m:fName");
    reveal_strlit("m:oMath");
    reveal_strlit("m:oMathPara");
    reveal_strlit("preserve");
    reveal_strlit("1");
    reveal_strlit("0");
}

/// `<tag m:val="value" />` with a value that stands verbatim.
proof fn lemma_flag_reads(open: Seq<Seq<char>>, roots: nat, ev: Seq<Event>, tag: Seq<char>, value: Seq<char>)
    requires
        open.len() > 0,
        valid_name(tag),
        valid_value(value),
    ensures
        reads_as(
            element(tag, attr("m:val"@, value), Seq::empty()),
            open,
            roots,
            ev,
            element_events(tag, seq![Event::Attr("m:val"@, value)], Seq::empty()),
        ),
{
    lemma_names_valid();
    let ev1 = ev.push(Event::Start(tag));
    lemma_scan_plain_value(tag, "m:val"@, Seq::empty(), open, roots, ev1, value);
    assert(Seq::<char>::empty() + value =~= value);
    lemma_one_attr_read(open, roots, ev, tag, "m:val"@, value, value);
    lemma_element_reads(
        open,
        roots,
        ev,
        tag,
        attr("m:val"@, value),
        seq![Event::Attr("m:val"@, value)],
        Seq::empty(),
        Seq::empty(),
    );
}

/// `<tag m:val="escaped text" />` reads back the text.
proof fn lemma_glyph_reads(open: Seq<Seq<char>>, roots: nat, ev: Seq<Event>, tag: Seq<char>, text: Seq<char>)
    requires
        open.len() > 0,
        valid_name(tag),
    ensures
        reads_as(
            element(tag, attr("m:val"@, escaped(text)), Seq::empty()),
            open,
            roots,
            ev,
            element_events(tag, seq![Event::Attr("m:val"@, text)], Seq::empty()),
        ),
{
    lemma_names_valid();
    let ev1 = ev.push(Event::Start(tag));
    lemma_scan_escaped_value(tag, "m:val"@, Seq::empty(), open, roots, ev1, text);
    assert(Seq::<char>::empty() + text =~= text);
    lemma_one_attr_read(open, roots, ev, tag, "m:val"@, escaped(text), text);
    lemma_element_reads(
        open,
        roots,
        ev,
        tag,
        attr("m:val"@, escaped(text)),
        seq![Event::Attr("m:val"@, text)],
        Seq::empty(),
        Seq::empty(),
    );
}

/// An argument slot reads as its events.
pub proof fn lemma_slot_reads(
    tag: Seq<char>,
    elements: Seq<OMathElement>,
    open: Seq<Seq<char>>,
    roots: nat,
    ev: Seq<Event>,
)
    requires
        open.len() > 0,
        valid_name(tag),
    ensures
        reads_as(slot_xml(tag, elements), open, roots, ev, slot_events(tag, elements)),
    decreases elements, elements.len() + 1,
{
    let n = elements.len() as int;
    lemma_prefix_reads(elements, n, open.push(tag), roots, ev.push(Event::Start(tag)));
    if n > 0 {
        lemma_prefix_xml_nonempty(elements, n);
    }
    lemma_node_reads(
        open,
        roots,
        ev,
        tag,
        elements_prefix_xml(elements, n),
        prefix_events(elements, n),
    );
}

/// The nodes of a prefix read as their events, one after the other.
pub proof fn lemma_prefix_reads(
    elements: Seq<OMathElement>,
    n: int,
    open: Seq<Seq<char>>,
    roots: nat,
    ev: Seq<Event>,
)
    requires
        open.len() > 0,
    ensures
        reads_as(elements_prefix_xml(elements, n), open, roots, ev, prefix_events(elements, n)),
    decreases elements, n,
{
    if n <= 0 || n > elements.len() {
        lemma_scan_empty(at(Mode::Content, open, roots, ev));
        assert(ev + Seq::<Event>::empty() =~= ev);
    } else {
        lemma_prefix_reads(elements, n - 1, open, roots, ev);
        lemma_element_xml_reads(
            elements[n - 1],
            open,
            roots,
            ev + prefix_events(elements, n - 1),
        );
        lemma_reads_concat(
            elements_prefix_xml(elements, n - 1),
            element_xml(elements[n - 1]),
            open,
            roots,
            ev,
            prefix_events(elements, n - 1),
            node_events(elements[n - 1]),
        );
    }
}

/// Every node's XML reads back as the node: its elements nest and close in
/// order, and its texts and glyphs decode to the strings in the tree.
pub proof fn lemma_element_xml_reads(e: OMathElement, open: Seq<Seq<char>>, roots: nat, ev: Seq<Event>)
    requires
        open.len() > 0,
    ensures
        reads_as(element_xml(e), open, roots, ev, node_events(e)),
    decreases e, 0int,
{
    lemma_names_valid();
    lemma_element_xml_nonempty(e);
    match e {
        OMathElement::Run(text) => {
            let o = open.push("m:r"@);
            let ev1 = ev.push(Event::Start("m:r"@));
            let ev2 = ev1.push(Event::Start("m:t"@));
            let attrs = attr("xml:space"@, "preserve"@);
            let attr_events = seq![Event::Attr("xml:space"@, "preserve"@)];
            lemma_scan_plain_value("m:t"@, "xml:space"@, Seq::empty(), o, roots, ev2, "preserve"@);
            assert(Seq::<char>::empty() + "preserve"@ =~= "preserve"@);
            lemma_one_attr_read(o, roots, ev1, "m:t"@, "xml:space"@, "preserve"@, "preserve"@);
            lemma_scan_escaped_text(o.push("m:t"@), roots, ev2 + attr_events, text@);
            lemma_wrapped_reads(o, roots, ev1, "m:t"@, attrs, attr_events, escaped(text@), text_events(text@));
            let inner = wrapped("m:t"@, attrs, escaped(text@));
            lemma_node_reads(
                open,
                roots,
                ev,
                "m:r"@,
                inner,
                element_events("m:t"@, attr_events, text_events(text@)),
            );
        },
        OMathElement::SuperScript { base, sup } => {
            let o = open.push("m:sSup"@);
            let ev1 = ev.push(Event::Start("m:sSup"@));
            let (a, ea) = (slot_xml("m:e"@, base@), slot_events("m:e"@, base@));
            let (b, eb) = (slot_xml("m:sup"@, sup@), slot_events("m:sup"@, sup@));
            lemma_slot_reads("m:e"@, base@, o, roots, ev1);
            lemma_slot_reads("m:sup"@, sup@, o, roots, ev1 + ea);
            lemma_reads_concat(a, b, o, roots, ev1, ea, eb);
            lemma_node_reads(open, roots, ev, "m:sSup"@, a + b, ea + eb);
        },
        OMathElement::SubScript { base, sub } => {
            let o = open.push("m:sSub"@);
            let ev1 = ev.push(Event::Start("m:sSub"@));
            let (a, ea) = (slot_xml("m:e"@, base@), slot_events("m:e"@, base@));
            let (b, eb) = (slot_xml("m:sub"@, sub@), slot_events("m:sub"@, sub@));
            lemma_slot_reads("m:e"@, base@, o, roots, ev1);
            lemma_slot_reads("m:sub"@, sub@, o, roots, ev1 + ea);
            lemma_reads_concat(a, b, o, roots, ev1, ea, eb);
            lemma_node_reads(open, roots, ev, "m:sSub"@, a + b, ea + eb);
        },
        OMathElement::SubSuperScript { base, sub, sup } => {
            let o = open.push("m:sSubSup"@);
            let ev1 = ev.push(Event::Start("m:sSubSup"@));
            let (a, ea) = (slot_xml("m:e"@, base@), slot_events("m:e"@, base@));
            let (b, eb) = (slot_xml("m:sub"@, sub@), slot_events("m:sub"@, sub@));
            let (c, ec) = (slot_xml("m:sup"@, sup@), slot_events("m:sup"@, sup@));
            lemma_slot_reads("m:e"@, base@, o, roots, ev1);
            lemma_slot_reads("m:sub"@, sub@, o, roots, ev1 + ea);
            lemma_slot_reads("m:sup"@, sup@, o, roots, ev1 + (ea + eb));
            lemma_reads_concat(a, b, o, roots, ev1, ea, eb);
            lemma_reads_concat(a + b, c, o, roots, ev1, ea + eb, ec);
            lemma_node_reads(open, roots, ev, "m:sSubSup"@, a + b + c, ea + eb + ec);
        },
        OMathElement::Fraction { numerator, denominator } => {
            let o = open.push("m:f"@);
            let ev1 = ev.push(Event::Start("m:f"@));
            let (a, ea) = (slot_xml("m:num"@, numerator@), slot_events("m:num"@, numerator@));
            let (b, eb) = (slot_xml("m:den"@, denominator@), slot_events("m:den"@, denominator@));
            lemma_slot_reads("m:num"@, numerator@, o, roots, ev1);
            lemma_slot_reads("m:den"@, denominator@, o, roots, ev1 + ea);
            lemma_reads_concat(a, b, o, roots, ev1, ea, eb);
            lemma_node_reads(open, roots, ev, "m:f"@, a + b, ea + eb);
        },
        OMathElement::Radical { degree, radicand } => {
            let o = open.push("m:rad"@);
            let ev1 = ev.push(Event::Start("m:rad"@));
            let p = o.push("m:radPr"@);
            let value = if degree is None { "1"@ } else { "0"@ };
            let flag = hide_flag("m:degHide"@, degree is None);
            let eflag = flag_events("m:degHide"@, degree is None);
            lemma_flag_reads(p, roots, ev1.push(Event::Start("m:radPr"@)), "m:degHide"@, value);
            let (a, ea) = (
                element("m:radPr"@, Seq::empty(), flag),
                element_events("m:radPr"@, Seq::empty(), eflag),
            );
            lemma_node_reads(o, roots, ev1, "m:radPr"@, flag, eflag);
            let b = match degree {
                Some(d) => slot_xml("m:deg"@, d@),
                None => element("m:deg"@, Seq::empty(), Seq::empty()),
            };
            let eb = match degree {
                Some(d) => slot_events("m:deg"@, d@),
                None => element_events("m:deg"@, Seq::empty(), Seq::empty()),
            };
            match degree {
                Some(d) => lemma_slot_reads("m:deg"@, d@, o, roots, ev1 + ea),
                None => lemma_node_reads(o, roots, ev1 + ea, "m:deg"@, Seq::empty(), Seq::empty()),
            }
            let (c, ec) = (slot_xml("m:e"@, radicand@), slot_events("m:e"@, radicand@));
            lemma_slot_reads("m:e"@, radicand@, o, roots, ev1 + (ea + eb));
            lemma_reads_concat(a, b, o, roots, ev1, ea, eb);
            lemma_reads_concat(a + b, c, o, roots, ev1, ea + eb, ec);
            lemma_node_reads(open, roots, ev, "m:rad"@, a + b + c, ea + eb + ec);
        },
        OMathElement::Nary { operator, sub, sup, body } => {
            let o = open.push("m:nary"@);
            let ev1 = ev.push(Event::Start("m:nary"@));
            let p = o.push("m:naryPr"@);
            let evp = ev1.push(Event::Start("m:naryPr"@));
            let (x, ex) = (
                element("m:chr"@, attr("m:val"@, escaped(operator@)), Seq::empty()),
                element_events("m:chr"@, seq![Event::Attr("m:val"@, operator@)], Seq::empty()),
            );
            let (y, ey) = (
                hide_flag("m:subHide"@, sub@.len() == 0),
                flag_events("m:subHide"@, sub@.len() == 0),
            );
            let (z, ez) = (
                hide_flag("m:supHide"@, sup@.len() == 0),
                flag_events("m:supHide"@, sup@.len() == 0),
            );
            lemma_glyph_reads(p, roots, evp, "m:chr"@, operator@);
            lemma_flag_reads(p, roots, evp + ex, "m:subHide"@, if sub@.len() == 0 { "1"@ } else { "0"@ });
            lemma_flag_reads(p, roots, evp + (ex + ey), "m:supHide"@, if sup@.len() == 0 { "1"@ } else { "0"@ });
            lemma_reads_concat(x, y, p, roots, evp, ex, ey);
            lemma_reads_concat(x + y, z, p, roots, evp, ex + ey, ez);
            let (a, ea) = (
                element("m:naryPr"@, Seq::empty(), x + y + z),
                element_events("m:naryPr"@, Seq::empty(), ex + ey + ez),
            );
            lemma_node_reads(o, roots, ev1, "m:naryPr"@, x + y + z, ex + ey + ez);
            let (b, eb) = (slot_xml("m:sub"@, sub@), slot_events("m:sub"@, sub@));
            let (c, ec) = (slot_xml("m:sup"@, sup@), slot_events("m:sup"@, sup@));
            let (d, ed) = (slot_xml("m:e"@, body@), slot_events("m:e"@, body@));
            lemma_slot_reads("m:sub"@, sub@, o, roots, ev1 + ea);
            lemma_slot_reads("m:sup"@, sup@, o, roots, ev1 + (ea + eb));
            lemma_slot_reads("m:e"@, body@, o, roots, ev1 + (ea + eb + ec));
            lemma_reads_concat(a, b, o, roots, ev1, ea, eb);
            lemma_reads_concat(a + b, c, o, roots, ev1, ea + eb, ec);
            lemma_reads_concat(a + b + c, d, o, roots, ev1, ea + eb + ec, ed);
            lemma_node_reads(open, roots, ev, "m:nary"@, a + b + c + d, ea + eb + ec + ed);
        },
        OMathElement::Delimited { begin, end, body } => {
            let o = open.push("m:d"@);
            let ev1 = ev.push(Event::Start("m:d"@));
            let p = o.push("m:dPr"@);
            let evp = ev1.push(Event::Start("m:dPr"@));
            let (x, ex) = (
                element("m:begChr"@, attr("m:val"@, escaped(begin@)), Seq::empty()),
                element_events("m:begChr"@, seq![Event::Attr("m:val"@, begin@)], Seq::empty()),
            );
            let (y, ey) = (
                element("m:endChr"@, attr("m:val"@, escaped(end@)), Seq::empty()),
                element_events("m:endChr"@, seq![Event::Attr("m:val"@, end@)], Seq::empty()),
            );
            lemma_glyph_reads(p, roots, evp, "m:begChr"@, begin@);
            lemma_glyph_reads(p, roots, evp + ex, "m:endChr"@, end@);
            lemma_reads_concat(x, y, p, roots, evp, ex, ey);
            let (a, ea) = (
                element("m:dPr"@, Seq::empty(), x + y),
                element_events("m:dPr"@, Seq::empty(), ex + ey),
            );
            lemma_node_reads(o, roots, ev1, "m:dPr"@, x + y, ex + ey);
            let (c, ec) = (slot_xml("m:e"@, body@), slot_events("m:e"@, body@));
            lemma_slot_reads("m:e"@, body@, o, roots, ev1 + ea);
            lemma_reads_concat(a, c, o, roots, ev1, ea, ec);
            lemma_node_reads(open, roots, ev, "m:d"@, a + c, ea + ec);
        },
        OMathElement::Function { name, body } => {
            let o = open.push("m:func"@);
            let ev1 = ev.push(Event::Start("m:func"@));
            let (a, ea) = (slot_xml("m:fName"@, name@), slot_events("m:fName"@, name@));
            let (b, eb) = (slot_xml("m:e"@, body@), slot_events("m:e"@, body@));
            lemma_slot_reads("m:fName"@, name@, o, roots, ev1);
            lemma_slot_reads("m:e"@, body@, o, roots, ev1 + ea);
            lemma_reads_concat(a, b, o, roots, ev1, ea, eb);
            lemma_node_reads(open, roots, ev, "m:func"@, a + b, ea + eb);
        },
    }
}

/// Every equation is written as a well-formed XML document whose one root
/// element is `m:oMathPara` for a display equation and `m:oMath` otherwise;
/// read back, it reports exactly the equation's tree: its elements in document
/// order, and its run texts and operator and delimiter glyphs as they are in
/// the tree, whatever `<`, `>`, `&`, `"` or `'` they hold.
pub proof fn lemma_omath_well_formed(m: OMath)
    ensures
        well_formed(omath_xml(m)),
        events_of(omath_xml(m)) == omath_events(m),
        omath_events(m)[0] == Event::Start(root_name(m.display)),
        omath_events(m).last() == Event::End(root_name(m.display)),
{
    lemma_names_valid();
    let elements = m.elements@;
    let n = elements.len() as int;
    let content = elements_prefix_xml(elements, n);
    let content_events = prefix_events(elements, n);
    if n > 0 {
        lemma_prefix_xml_nonempty(elements, n);
    }
    let none = Seq::<Seq<char>>::empty();
    let ev0 = Seq::<Event>::empty();
    let inner_events = element_events("m:oMath"@, Seq::empty(), content_events);
    if m.display {
        let o = none.push("m:oMathPara"@);
        let ev1 = ev0.push(Event::Start("m:oMathPara"@));
        lemma_prefix_reads(elements, n, o.push("m:oMath"@), 0, ev1.push(Event::Start("m:oMath"@)));
        lemma_node_reads(o, 0, ev1, "m:oMath"@, content, content_events);
        lemma_no_attrs_read(none, 0, ev0, "m:oMathPara"@);
        assert(ev1 + Seq::<Event>::empty() =~= ev1);
        lemma_element_reads(
            none,
            0,
            ev0,
            "m:oMathPara"@,
            Seq::empty(),
            Seq::empty(),
            inline_xml(elements),
            inner_events,
        );
        assert(ev0 + element_events("m:oMathPara"@, Seq::empty(), inner_events) =~= omath_events(m));
    } else {
        let ev1 = ev0.push(Event::Start("m:oMath"@));
        assert(ev1 + Seq::<Event>::empty() =~= ev1);
        lemma_prefix_reads(elements, n, none.push("m:oMath"@), 0, ev1);
        lemma_no_attrs_read(none, 0, ev0, "m:oMath"@);
        lemma_element_reads(
            none,
            0,
            ev0,
            "m:oMath"@,
            Seq::empty(),
            Seq::empty(),
            content,
            content_events,
        );
        assert(ev0 + inner_events =~= omath_events(m));
    }
}

/// No event in `s` is `x`.
pub open spec fn lacks(s: Seq<Event>, x: Event) -> bool {
    forall|i: int| 0 <= i < s.len() ==> s[i] != x
}

/// An event that starts or ends an `m:oMathPara` element.
pub open spec fn is_para_tag(x: Event) -> bool {
    x == Event::Start("m:oMathPara"@) || x == Event::End("m:oMathPara"@)
}

proof fn lemma_lacks_concat(a: Seq<Event>, b: Seq<Event>, x: Event)
    requires
        lacks(a, x),
        lacks(b, x),
    ensures
        lacks(a + b, x),
{
    assert forall|i: int| 0 <= i < (a + b).len() implies (a + b)[i] != x by {
        if i >= a.len() {
            assert((a + b)[i] == b[i - a.len()]);
        }
    }
}

proof fn lemma_lacks_element(name: Seq<char>, attrs: Seq<Event>, content: Seq<Event>, x: Event)
    requires
        lacks(attrs, x),
        lacks(content, x),
        is_para_tag(x),
        name != "m:oMathPara"@,
    ensures
        lacks(element_events(name, attrs, content), x),
{
    lemma_lacks_concat(seq![Event::Start(name)], attrs, x);
    lemma_lacks_concat(seq![Event::Start(name)] + attrs, content, x);
    lemma_lacks_concat(seq![Event::Start(name)] + attrs + content, seq![Event::End(name)], x);
}

proof fn lemma_text_lacks(s: Seq<char>, x: Event)
    requires
        is_para_tag(x),
    ensures
        lacks(text_events(s), x),
    decreases s.len(),
{
    if s.len() > 0 {
        lemma_text_lacks(s.skip(1), x);
        lemma_lacks_concat(seq![Event::Text(seq![s[0]])], text_events(s.skip(1)), x);
    }
}

/// No element inside an equation is named `m:oMathPara`.
proof fn lemma_names_not_para()
    ensures
        "m:r"@ != "m:oMathPara"@,
        "m:t"@ != "m:oMathPara"@,
        "m:sSup"@ != "m:oMathPara"@,
        "m:e"@ != "m:oMathPara"@,
        "m:sup"@ != "m:oMathPara"@,
        "m:sSub"@ != "m:oMathPara"@,
        "m:sub"@ != "m:oMathPara"@,
        "m:sSubSup"@ != "m:oMathPara"@,
        "m:f"@ != "m:oMathPara"@,
        "m:num"@ != "m:oMathPara"@,
        "m:den"@ != "m:oMathPara"@,
        "m:rad"@ != "m:oMathPara"@,
        "m:radPr"@ != "m:oMathPara"@,
        "m:degHide"@ != "m:oMathPara"@,
        "m:deg"@ != "m:oMathPara"@,
        "m:nary"@ != "m:oMathPara"@,
        "m:naryPr"@ != "m:oMathPara"@,
        "m:chr"@ != "m:oMathPara"@,
        "m:subHide"@ != "m:oMathPara"@,
        "m:supHide"@ != "m:oMathPara"@,
        "m:d"@ != "m:oMathPara"@,
        "m:dPr"@ != "m:oMathPara"@,
        "m:begChr"@ != "m:oMathPara"@,
        "m:endChr"@ != "m:oMathPara"@,
        "m:func"@ != "m:oMathPara"@,
        "m:fName"@ != "m:oMathPara"@,
        "m:oMath"@ != "m:oMathPara"@,
{
    reveal_strlit("m:oMathPara");
    reveal_strlit("m:r");
    reveal_strlit("m:t");
    reveal_strlit("m:sSup");
    reveal_strlit("m:e");
    reveal_strlit("m:sup");
    reveal_strlit("m:sSub");
    reveal_strlit("m:sub");
    reveal_strlit("m:sSubSup");
    reveal_strlit("m:f");
    reveal_strlit("m:num");
    reveal_strlit("m:den");
    reveal_strlit("m:rad");
    reveal_strlit("m:radPr");
    reveal_strlit("m:degHide");
    reveal_strlit("m:deg");
    reveal_strlit("m:nary");
    reveal_strlit("m:naryPr");
    reveal_strlit("m:chr");
    reveal_strlit("m:subHide");
    reveal_strlit("m:supHide");
    reveal_strlit("m:d");
    reveal_strlit("m:dPr");
    reveal_strlit("m:begChr");
    reveal_strlit("m:endChr");
    reveal_strlit("m:func");
    reveal_strlit("m:fName");
    reveal_strlit("m:oMath");
    assert("m:r"@.len() != "m:oMathPara"@.len());
    assert("m:t"@.len() != "m:oMathPara"@.len());
    assert("m:sSup"@.len() != "m:oMathPara"@.len());
    assert("m:e"@.len() != "m:oMathPara"@.len());
    assert("m:sup"@.len() != "m:oMathPara"@.len());
    assert("m:sSub"@.len() != "m:oMathPara"@.len());
    assert("m:sub"@.len() != "m:oMathPara"@.len());
    assert("m:sSubSup"@.len() != "m:oMathPara"@.len());
    assert("m:f"@.len() != "m:oMathPara"@.len());
    assert("m:num"@.len() != "m:oMathPara"@.len());
    assert("m:den"@.len() != "m:oMathPara"@.len());
    assert("m:rad"@.len() != "m:oMathPara"@.len());
    assert("m:radPr"@.len() != "m:oMathPara"@.len());
    assert("m:degHide"@.len() != "m:oMathPara"@.len());
    assert("m:deg"@.len() != "m:oMathPara"@.len());
    assert("m:nary"@.len() != "m:oMathPara"@.len());
    assert("m:naryPr"@.len() != "m:oMathPara"@.len());
    assert("m:chr"@.len() != "m:oMathPara"@.len());
    assert("m:subHide"@.len() != "m:oMathPara"@.len());
    assert("m:supHide"@.len() != "m:oMathPara"@.len());
    assert("m:d"@.len() != "m:oMathPara"@.len());
    assert("m:dPr"@.len() != "m:oMathPara"@.len());
    assert("m:begChr"@.len() != "m:oMathPara"@.len());
    assert("m:endChr"@.len() != "m:oMathPara"@.len());
    assert("m:func"@.len() != "m:oMathPara"@.len());
    assert("m:fName"@.len() != "m:oMathPara"@.len());
    assert("m:oMath"@.len() != "m:oMathPara"@.len());
}

proof fn lemma_flag_lacks(tag: Seq<char>, hidden: bool, x: Event)
    requires
        is_para_tag(x),
        tag != "m:oMathPara"@,
    ensures
        lacks(flag_events(tag, hidden), x),
{
    lemma_lacks_element(
        tag,
        seq![Event::Attr("m:val"@, if hidden { "1"@ } else { "0"@ })],
        Seq::empty(),
        x,
    );
}

proof fn lemma_slot_lacks(tag: Seq<char>, elements: Seq<OMathElement>, x: Event)
    requires
        is_para_tag(x),
        tag != "m:oMathPara"@,
    ensures
        lacks(slot_events(tag, elements), x),
    decreases elements, elements.len() + 1,
{
    lemma_prefix_lacks(elements, elements.len() as int, x);
    lemma_lacks_element(tag, Seq::empty(), prefix_events(elements, elements.len() as int), x);
}

proof fn lemma_prefix_lacks(elements: Seq<OMathElement>, n: int, x: Event)
    requires
        is_para_tag(x),
    ensures
        lacks(prefix_events(elements, n), x),
    decreases elements, n,
{
    if n > 0 && n <= elements.len() {
        lemma_prefix_lacks(elements, n - 1, x);
        lemma_node_lacks(elements[n - 1], x);
        lemma_lacks_concat(prefix_events(elements, n - 1), node_events(elements[n - 1]), x);
    }
}

/// Reading a node never reports an `m:oMathPara` element, whatever its texts hold.
proof fn lemma_node_lacks(e: OMathElement, x: Event)
    requires
        is_para_tag(x),
    ensures
        lacks(node_events(e), x),
    decreases e, 0int,
{
    lemma_names_not_para();
    let none = Seq::<Event>::empty();
    match e {
        OMathElement::Run(text) => {
            lemma_text_lacks(text@, x);
            lemma_lacks_element("m:t"@, seq![Event::Attr("xml:space"@, "preserve"@)], text_events(text@), x);
            lemma_lacks_element(
                "m:r"@,
                none,
                element_events("m:t"@, seq![Event::Attr("xml:space"@, "preserve"@)], text_events(text@)),
                x,
            );
        },
        OMathElement::SuperScript { base, sup } => {
            lemma_slot_lacks("m:e"@, base@, x);
            lemma_slot_lacks("m:sup"@, sup@, x);
            lemma_lacks_concat(slot_events("m:e"@, base@), slot_events("m:sup"@, sup@), x);
            lemma_lacks_element("m:sSup"@, none, slot_events("m:e"@, base@) + slot_events("m:sup"@, sup@), x);
        },
        OMathElement::SubScript { base, sub } => {
            lemma_slot_lacks("m:e"@, base@, x);
            lemma_slot_lacks("m:sub"@, sub@, x);
            lemma_lacks_concat(slot_events("m:e"@, base@), slot_events("m:sub"@, sub@), x);
            lemma_lacks_element("m:sSub"@, none, slot_events("m:e"@, base@) + slot_events("m:sub"@, sub@), x);
        },
        OMathElement::SubSuperScript { base, sub, sup } => {
            let (a, b, c) = (slot_events("m:e"@, base@), slot_events("m:sub"@, sub@), slot_events("m:sup"@, sup@));
            lemma_slot_lacks("m:e"@, base@, x);
            lemma_slot_lacks("m:sub"@, sub@, x);
            lemma_slot_lacks("m:sup"@, sup@, x);
            lemma_lacks_concat(a, b, x);
            lemma_lacks_concat(a + b, c, x);
            lemma_lacks_element("m:sSubSup"@, none, a + b + c, x);
        },
        OMathElement::Fraction { numerator, denominator } => {
            let (a, b) = (slot_events("m:num"@, numerator@), slot_events("m:den"@, denominator@));
            lemma_slot_lacks("m:num"@, numerator@, x);
            lemma_slot_lacks("m:den"@, denominator@, x);
            lemma_lacks_concat(a, b, x);
            lemma_lacks_element("m:f"@, none, a + b, x);
        },
        OMathElement::Radical { degree, radicand } => {
            let flag = flag_events("m:degHide"@, degree is None);
            lemma_flag_lacks("m:degHide"@, degree is None, x);
            lemma_lacks_element("m:radPr"@, none, flag, x);
            let a = element_events("m:radPr"@, none, flag);
            let b = match degree {
                Some(deg) => slot_events("m:deg"@, deg@),
                None => element_events("m:deg"@, none, none),
            };
            match degree {
                Some(deg) => lemma_slot_lacks("m:deg"@, deg@, x),
                None => lemma_lacks_element("m:deg"@, none, none, x),
            }
            let c = slot_events("m:e"@, radicand@);
            lemma_slot_lacks("m:e"@, radicand@, x);
            lemma_lacks_concat(a, b, x);
            lemma_lacks_concat(a + b, c, x);
            lemma_lacks_element("m:rad"@, none, a + b + c, x);
        },
        OMathElement::Nary { operator, sub, sup, body } => {
            let chr = element_events("m:chr"@, seq![Event::Attr("m:val"@, operator@)], none);
            lemma_lacks_element("m:chr"@, seq![Event::Attr("m:val"@, operator@)], none, x);
            let f1 = flag_events("m:subHide"@, sub@.len() == 0);
            let f2 = flag_events("m:supHide"@, sup@.len() == 0);
            lemma_flag_lacks("m:subHide"@, sub@.len() == 0, x);
            lemma_flag_lacks("m:supHide"@, sup@.len() == 0, x);
            lemma_lacks_concat(chr, f1, x);
            lemma_lacks_concat(chr + f1, f2, x);
            lemma_lacks_element("m:naryPr"@, none, chr + f1 + f2, x);
            let a = element_events("m:naryPr"@, none, chr + f1 + f2);
            let (b, c, d) = (slot_events("m:sub"@, sub@), slot_events("m:sup"@, sup@), slot_events("m:e"@, body@));
            lemma_slot_lacks("m:sub"@, sub@, x);
            lemma_slot_lacks("m:sup"@, sup@, x);
            lemma_slot_lacks("m:e"@, body@, x);
            lemma_lacks_concat(a, b, x);
            lemma_lacks_concat(a + b, c, x);
            lemma_lacks_concat(a + b + c, d, x);
            lemma_lacks_element("m:nary"@, none, a + b + c + d, x);
        },
        OMathElement::Delimited { begin, end, body } => {
            let b1 = element_events("m:begChr"@, seq![Event::Attr("m:val"@, begin@)], none);
            let b2 = element_events("m:endChr"@, seq![Event::Attr("m:val"@, end@)], none);
            lemma_lacks_element("m:begChr"@, seq![Event::Attr("m:val"@, begin@)], none, x);
            lemma_lacks_element("m:endChr"@, seq![Event::Attr("m:val"@, end@)], none, x);
            lemma_lacks_concat(b1, b2, x);
            lemma_lacks_element("m:dPr"@, none, b1 + b2, x);
            let a = element_events("m:dPr"@, none, b1 + b2);
            let c = slot_events("m:e"@, body@);
            lemma_slot_lacks("m:e"@, body@, x);
            lemma_lacks_concat(a, c, x);
            lemma_lacks_element("m:d"@, none, a + c, x);
        },
        OMathElement::Function { name, body } => {
            let (a, b) = (slot_events("m:fName"@, name@), slot_events("m:e"@, body@));
            lemma_slot_lacks("m:fName"@, name@, x);
            lemma_slot_lacks("m:e"@, body@, x);
            lemma_lacks_concat(a, b, x);
            lemma_lacks_element("m:func"@, none, a + b, x);
        },
    }
}

/// Reading an equation's XML reports an `m:oMathPara` element exactly when it
/// is a display equation, whatever its texts and glyphs hold.
pub proof fn lemma_para_iff_display(m: OMath)
    ensures
        (exists|i: int|
            0 <= i < events_of(omath_xml(m)).len() && events_of(omath_xml(m))[i] == Event::Start(
                "m:oMathPara"@,
            )) <==> m.display,
{
    lemma_omath_well_formed(m);
    lemma_names_not_para();
    let x = Event::Start("m:oMathPara"@);
    let n = m.elements@.len() as int;
    lemma_prefix_lacks(m.elements@, n, x);
    lemma_lacks_element("m:oMath"@, Seq::empty(), prefix_events(m.elements@, n), x);
    let ev = omath_events(m);
    if m.display {
        assert(ev[0] == x);
    } else {
        assert(lacks(ev, x));
    }
}

} // verus!
