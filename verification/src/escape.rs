//! Escaping of XML character data and attribute values.

use vstd::prelude::*;
use vstd::string::*;

verus! {

broadcast use vstd::string::group_string_axioms;

/// What one character of text becomes in the XML output: the five XML
/// metacharacters become their predefined entities, every other character
/// stands for itself.
pub open spec fn escape_char(c: char) -> Seq<char> {
    if c == '&' {
        seq!['&', 'a', 'm', 'p', ';']
    } else if c == '<' {
        seq!['&', 'l', 't', ';']
    } else if c == '>' {
        seq!['&', 'g', 't', ';']
    } else if c == '"' {
        seq!['&', 'q', 'u', 'o', 't', ';']
    } else if c == '\'' {
        seq!['&', 'a', 'p', 'o', 's', ';']
    } else {
        seq![c]
    }
}

/// The escaped form of a text: each character escaped in turn.
pub open spec fn escaped(s: Seq<char>) -> Seq<char>
    decreases s.len(),
{
    if s.len() == 0 {
        Seq::empty()
    } else {
        escape_char(s[0]) + escaped(s.skip(1))
    }
}

/// Escaping a text that ends in `c` escapes the rest, then `c`.
pub proof fn lemma_escaped_push(s: Seq<char>, c: char)
    ensures
        escaped(s.push(c)) == escaped(s) + escape_char(c),
    decreases s.len(),
{
    let t = s.push(c);
    if s.len() == 0 {
        assert(t.skip(1) =~= Seq::<char>::empty());
        assert(escaped(t.skip(1)) == Seq::<char>::empty());
        assert(t[0] == c);
        assert(escaped(t) =~= escape_char(c));
        assert(escaped(s) == Seq::<char>::empty());
        assert(escaped(s) + escape_char(c) =~= escape_char(c));
    } else {
        assert(s.push(c).skip(1) =~= s.skip(1).push(c));
        lemma_escaped_push(s.skip(1), c);
        assert(s.push(c)[0] == s[0]);
    }
}

/// Escaping works character by character: escaping two texts written one
/// after the other gives their escaped forms one after the other.
pub proof fn lemma_escaped_concat(a: Seq<char>, b: Seq<char>)
    ensures
        escaped(a + b) == escaped(a) + escaped(b),
    decreases b.len(),
{
    if b.len() == 0 {
        assert(a + b =~= a);
        assert(escaped(b) =~= Seq::<char>::empty());
        assert(escaped(a) + escaped(b) =~= escaped(a));
    } else {
        let c = b.last();
        let b0 = b.drop_last();
        lemma_escaped_concat(a, b0);
        assert(a + b =~= (a + b0).push(c));
        assert(b =~= b0.push(c));
        lemma_escaped_push(a + b0, c);
        lemma_escaped_push(b0, c);
        assert(escaped(a) + escaped(b) =~= escaped(a) + escaped(b0) + escape_char(c));
    }
}

/// Reads XML text back: each of the five predefined entities becomes the
/// character it stands for, every other character stands for itself.
pub open spec fn unescaped(s: Seq<char>) -> Seq<char>
    decreases s.len(),
{
    if s.len() == 0 {
        Seq::empty()
    } else if s.len() >= 5 && s.take(5) == seq!['&', 'a', 'm', 'p', ';'] {
        seq!['&'] + unescaped(s.skip(5))
    } else if s.len() >= 4 && s.take(4) == seq!['&', 'l', 't', ';'] {
        seq!['<'] + unescaped(s.skip(4))
    } else if s.len() >= 4 && s.take(4) == seq!['&', 'g', 't', ';'] {
        seq!['>'] + unescaped(s.skip(4))
    } else if s.len() >= 6 && s.take(6) == seq!['&', 'q', 'u', 'o', 't', ';'] {
        seq!['"'] + unescaped(s.skip(6))
    } else if s.len() >= 6 && s.take(6) == seq!['&', 'a', 'p', 'o', 's', ';'] {
        seq!['\''] + unescaped(s.skip(6))
    } else {
        seq![s[0]] + unescaped(s.skip(1))
    }
}

/// Escaping loses nothing: reading the escaped text back gives the text.
pub proof fn lemma_unescaped_escaped(s: Seq<char>)
    ensures
        unescaped(escaped(s)) == s,
    decreases s.len(),
{
    if s.len() > 0 {
        let c = s[0];
        let e = escape_char(c);
        let r = escaped(s.skip(1));
        let t = e + r;
        assert(escaped(s) == t);
        lemma_unescaped_escaped(s.skip(1));
        let n = e.len() as int;
        assert(t.take(n) =~= e);
        assert(t.skip(n) =~= r);
        if c != '&' && c != '<' && c != '>' && c != '"' && c != '\'' {
            assert(t[0] == c);
            assert(t.len() >= 5 ==> t.take(5)[0] == c);
            assert(t.len() >= 4 ==> t.take(4)[0] == c);
            assert(t.len() >= 6 ==> t.take(6)[0] == c);
            assert(!(t.len() >= 5 && t.take(5) == seq!['&', 'a', 'm', 'p', ';']));
            assert(!(t.len() >= 4 && t.take(4) == seq!['&', 'l', 't', ';']));
            assert(!(t.len() >= 4 && t.take(4) == seq!['&', 'g', 't', ';']));
            assert(!(t.len() >= 6 && t.take(6) == seq!['&', 'q', 'u', 'o', 't', ';']));
            assert(!(t.len() >= 6 && t.take(6) == seq!['&', 'a', 'p', 'o', 's', ';']));
            assert(unescaped(t) == seq![c] + unescaped(r));
        } else if c == '&' {
            assert(unescaped(t) == seq!['&'] + unescaped(r));
        } else if c == '<' {
            assert(t.len() >= 5 ==> t.take(5)[1] == 'l');
            assert(unescaped(t) == seq!['<'] + unescaped(r));
        } else if c == '>' {
            assert(t.len() >= 5 ==> t.take(5)[1] == 'g');
            assert(t.len() >= 4 ==> t.take(4)[1] == 'g');
            assert(unescaped(t) == seq!['>'] + unescaped(r));
        } else if c == '"' {
            assert(t.len() >= 5 ==> t.take(5)[1] == 'q');
            assert(t.len() >= 4 ==> t.take(4)[1] == 'q');
            assert(unescaped(t) == seq!['"'] + unescaped(r));
        } else {
            assert(t.len() >= 5 ==> t.take(5)[1] == 'a');
            assert(t.len() >= 5 ==> t.take(5)[2] == 'p');
            assert(t.len() >= 4 ==> t.take(4)[1] == 'a');
            assert(t.len() >= 6 ==> t.take(6)[1] == 'a');
            assert(unescaped(t) == seq!['\''] + unescaped(r));
        }
        assert(s =~= seq![c] + s.skip(1));
    }
}

/// The escaped text holds none of `<`, `>`, `"`, `'`: markup written around
/// it cannot be closed or opened early by what the user typed.
pub proof fn lemma_escaped_has_no_markup(s: Seq<char>)
    ensures
        forall|i: int|
            0 <= i < escaped(s).len() ==> {
                let x = #[trigger] escaped(s)[i];
                x != '<' && x != '>' && x != '"' && x != '\''
            },
    decreases s.len(),
{
    if s.len() > 0 {
        lemma_escaped_has_no_markup(s.skip(1));
        let e = escape_char(s[0]);
        let r = escaped(s.skip(1));
        assert forall|i: int| 0 <= i < escaped(s).len() implies {
            let x = #[trigger] escaped(s)[i];
            x != '<' && x != '>' && x != '"' && x != '\''
        } by {
            if i >= e.len() {
                assert(escaped(s)[i] == r[i - e.len()]);
            }
        }
    }
}

/// Calls `String::push`, which appends one character to the end of the string.
#[verifier::external_body]
fn push_char(s: &mut String, c: char)
    ensures
        final(s)@ == old(s)@.push(c),
{
    s.push(c);
}

/// Escapes `&`, `<`, `>`, `"` and `'` so that `s` can stand as character data
/// or as an attribute value in XML.
pub fn escape(s: &str) -> (r: String)
    ensures
        r@ == escaped(s@),
{
    let mut out = String::new();
    for c in it: s.chars()
        invariant
            it.seq() == s@,
            out@ == escaped(s@.take(it.index() as int)),
    {
        let ghost before = s@.take(it.index() as int);
        proof {
            assert(s@.take(it.index() + 1) =~= before.push(c));
            lemma_escaped_push(before, c);
            reveal_strlit("&amp;");
            reveal_strlit("&lt;");
            reveal_strlit("&gt;");
            reveal_strlit("&quot;");
            reveal_strlit("&apos;");
        }
        if c == '&' {
            out.append("&amp;");
        } else if c == '<' {
            out.append("&lt;");
        } else if c == '>' {
            out.append("&gt;");
        } else if c == '"' {
            out.append("&quot;");
        } else if c == '\'' {
            out.append("&apos;");
        } else {
            push_char(&mut out, c);
        }
    }
    proof {
        assert(s@.take(s@.len() as int) =~= s@);
    }
    out
}

} // verus!
