//! The shape of the XML text that the elements are written as: start tags
//! with attributes, end tags, and empty elements written as `<name ... />`.

use vstd::prelude::*;
use vstd::string::*;

verus! {

/// ` name="value"`: one attribute, written verbatim.
pub open spec fn attr(name: Seq<char>, value: Seq<char>) -> Seq<char> {
    seq![' '] + name + seq!['=', '"'] + value + seq!['"']
}

/// `<name attrs />`: an element without content.
pub open spec fn empty_element(name: Seq<char>, attrs: Seq<char>) -> Seq<char> {
    seq!['<'] + name + attrs + seq![' ', '/', '>']
}

/// `<name attrs>content</name>`: an element written with both tags.
pub open spec fn wrapped(name: Seq<char>, attrs: Seq<char>, content: Seq<char>) -> Seq<char> {
    seq!['<'] + name + attrs + seq!['>'] + content + seq!['<', '/'] + name + seq!['>']
}

/// An element as the writer emits it: with no content it collapses into the
/// empty-element form, otherwise it gets a start and an end tag.
pub open spec fn element(name: Seq<char>, attrs: Seq<char>, content: Seq<char>) -> Seq<char> {
    if content.len() == 0 {
        empty_element(name, attrs)
    } else {
        wrapped(name, attrs, content)
    }
}

/// Appends `<name`, the beginning of a start tag.
pub fn push_tag_start(out: &mut String, name: &str)
    ensures
        final(out)@ == old(out)@ + seq!['<'] + name@,
{
    proof {
        reveal_strlit("<");
    }
    out.append("<");
    out.append(name);
}

/// Appends ` name="value"`.
pub fn push_attr(out: &mut String, name: &str, value: &str)
    ensures
        final(out)@ == old(out)@ + attr(name@, value@),
{
    let ghost start = out@;
    proof {
        reveal_strlit(" ");
        reveal_strlit("=\"");
        reveal_strlit("\"");
    }
    out.append(" ");
    out.append(name);
    out.append("=\"");
    out.append(value);
    out.append("\"");
    assert(out@ =~= start + attr(name@, value@));
}

/// Appends `>`, which ends a start tag.
pub fn push_tag_close(out: &mut String)
    ensures
        final(out)@ == old(out)@ + seq!['>'],
{
    proof {
        reveal_strlit(">");
    }
    out.append(">");
}

/// Appends ` />`, which ends an empty element.
pub fn push_empty_close(out: &mut String)
    ensures
        final(out)@ == old(out)@ + seq![' ', '/', '>'],
{
    proof {
        reveal_strlit(" />");
    }
    out.append(" />");
}

/// Appends `</name>`, an end tag.
pub fn push_end_tag(out: &mut String, name: &str)
    ensures
        final(out)@ == old(out)@ + seq!['<', '/'] + name@ + seq!['>'],
{
    proof {
        reveal_strlit("</");
        reveal_strlit(">");
    }
    out.append("</");
    out.append(name);
    out.append(">");
}

/// Appends `<name attr="value" />`, an empty element with one attribute.
pub fn push_empty_with_attr(out: &mut String, name: &str, attr_name: &str, value: &str)
    ensures
        final(out)@ == old(out)@ + element(name@, attr(attr_name@, value@), Seq::empty()),
{
    let ghost start = out@;
    push_tag_start(out, name);
    push_attr(out, attr_name, value);
    push_empty_close(out);
    assert(out@ =~= start + element(name@, attr(attr_name@, value@), Seq::empty()));
}

} // verus!
