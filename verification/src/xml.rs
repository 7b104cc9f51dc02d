//! Writing XML elements as text: start tags with attributes, text, end tags and self-closing
//! elements, as in an SVG document. Names and values are written as given.
use vstd::prelude::*;
use vstd::string::*;

use crate::text::{push_signed, signed_decimal};

verus! {

/// The numbers written in decimal and joined by commas.
pub open spec fn joined_numbers(list: Seq<i64>) -> Seq<char>
    decreases list.len(),
{
    if list.len() == 0 {
        Seq::empty()
    } else if list.len() == 1 {
        signed_decimal(list[0] as int)
    } else {
        joined_numbers(list.drop_last()) + seq![','] + signed_decimal(list.last() as int)
    }
}

/// XML text being written.
pub struct XmlText {
    text: String,
}

impl View for XmlText {
    type V = Seq<char>;

    /// The characters written so far.
    closed spec fn view(&self) -> Seq<char> {
        self.text@
    }
}

impl XmlText {
    /// Nothing written yet.
    pub fn new() -> (x: XmlText)
        ensures
            x@ == Seq::<char>::empty(),
    {
        XmlText { text: String::new() }
    }

    /// Starts a tag: `<name`.
    pub fn start_tag(&mut self, name: &str)
        ensures
            final(self)@ == old(self)@ + seq!['<'] + name@,
    {
        proof {
            reveal_strlit("<");
        }
        self.text.append("<");
        self.text.append(name);
    }

    /// An attribute with a value: ` name="value"`.
    pub fn attr(&mut self, name: &str, value: &str)
        ensures
            final(self)@ == old(self)@ + seq![' '] + name@ + seq!['=', '"'] + value@ + seq!['"'],
    {
        proof {
            reveal_strlit(" ");
            reveal_strlit("=\"");
            reveal_strlit("\"");
        }
        self.text.append(" ");
        self.text.append(name);
        self.text.append("=\"");
        self.text.append(value);
        self.text.append("\"");
    }

    /// An attribute whose value is a list of numbers separated by commas.
    pub fn attr_list(&mut self, name: &str, list: &[i64])
        ensures
            final(self)@ == old(self)@ + seq![' '] + name@ + seq!['=', '"'] + joined_numbers(list@) + seq!['"'],
    {
        proof {
            reveal_strlit(" ");
            reveal_strlit("=\"");
            reveal_strlit("\"");
            reveal_strlit(",");
        }
        self.text.append(" ");
        self.text.append(name);
        self.text.append("=\"");
        let ghost start = self.text@;
        let mut i: usize = 0;
        while i < list.len()
            invariant
                i <= list@.len(),
                self.text@ == start + joined_numbers(list@.take(i as int)),
            decreases list@.len() - i,
        {
            if i > 0 {
                proof {
                    reveal_strlit(",");
                }
                self.text.append(",");
            }
            push_signed(&mut self.text, list[i]);
            proof {
                let t = list@.take(i + 1);
                assert(t.drop_last() =~= list@.take(i as int));
                assert(t.last() == list@[i as int]);
                if i == 0 {
                    assert(joined_numbers(t) == signed_decimal(list@[0] as int));
                    assert(self.text@ =~= start + joined_numbers(t));
                } else {
                    assert(joined_numbers(t) == joined_numbers(list@.take(i as int)) + seq![','] + signed_decimal(
                        list@[i as int] as int,
                    ));
                    assert(self.text@ =~= start + joined_numbers(t));
                }
            }
            i = i + 1;
        }
        assert(list@.take(i as int) =~= list@);
        self.text.append("\"");
    }

    /// Ends a start tag: `>`.
    pub fn end_start_tag(&mut self)
        ensures
            final(self)@ == old(self)@ + seq!['>'],
    {
        proof {
            reveal_strlit(">");
        }
        self.text.append(">");
    }

    /// Ends a self-closing element: ` />`.
    pub fn self_close(&mut self)
        ensures
            final(self)@ == old(self)@ + seq![' ', '/', '>'],
    {
        proof {
            reveal_strlit(" />");
        }
        self.text.append(" />");
    }

    /// An end tag: `</name>`.
    pub fn end_tag(&mut self, name: &str)
        ensures
            final(self)@ == old(self)@ + seq!['<', '/'] + name@ + seq!['>'],
    {
        proof {
            reveal_strlit("</");
            reveal_strlit(">");
        }
        self.text.append("</");
        self.text.append(name);
        self.text.append(">");
    }

    /// Text inside an element, written as given.
    pub fn text(&mut self, text: &str)
        ensures
            final(self)@ == old(self)@ + text@,
    {
        self.text.append(text);
    }

    /// The text written.
    pub fn into_string(self) -> (s: String)
        ensures
            s@ == self@,
    {
        self.text
    }

    /// The text written, ended by a newline, as a line of a document.
    pub fn into_line(self) -> (s: String)
        ensures
            s@ == self@ + seq!['\n'],
    {
        proof {
            reveal_strlit("\n");
        }
        let mut text = self.text;
        text.append("\n");
        text
    }
}

} // verus!
