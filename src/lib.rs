use vstd::prelude::*;

pub mod extract;
pub mod laws;
pub mod options;
pub mod text;

use vstd::utf8::{decode_utf8, encode_utf8, encode_utf8_decode_utf8};

use crate::extract::{
    bytes_output,
    chars_output,
    extract_bytes,
    extract_chars,
    graphemes_of,
    select_fields,
    select_fields_spec,
};
use crate::options::Options;
use crate::text::{join_spec, join_with, line_split_point, split_at_newline, split_spec, to_fields};

verus! {

/// The content of a raw line: everything before its terminator.
pub open spec fn raw_content(s: Seq<char>) -> Seq<char> {
    let b = encode_utf8(s);
    decode_utf8(b.subrange(0, line_split_point(b)))
}

/// The terminator of a raw line: `"\n"`, `"\r\n"`, or empty.
pub open spec fn raw_terminator(s: Seq<char>) -> Seq<char> {
    let b = encode_utf8(s);
    decode_utf8(b.subrange(line_split_point(b), b.len() as int))
}

/// Field mode on a line's content.
pub open spec fn fields_spec(o: &Options, c: Seq<char>) -> Seq<char> {
    match o.fields {
        Some(f) => join_spec(select_fields_spec(f@, split_spec(c, o.delimiter)), o.delimiter),
        None => seq![],
    }
}

/// Byte mode on a line's content.
pub open spec fn bytes_spec(o: &Options, c: Seq<char>) -> Seq<char> {
    match o.bytes {
        Some(b) => bytes_output(b@, encode_utf8(c)),
        None => seq![],
    }
}

/// Character mode on a line's content.
pub open spec fn chars_spec(o: &Options, c: Seq<char>) -> Seq<char> {
    match o.characters {
        Some(ch) => chars_output(ch@, graphemes_of(c)),
        None => seq![],
    }
}

pub open spec fn has_mode(o: &Options) -> bool {
    o.fields is Some || o.bytes is Some || o.characters is Some
}

/// A line's content rewritten by the active mode (fields, then bytes, then characters).
pub open spec fn content_spec(o: &Options, c: Seq<char>) -> Seq<char> {
    if o.fields is Some {
        fields_spec(o, c)
    } else if o.bytes is Some {
        bytes_spec(o, c)
    } else {
        chars_spec(o, c)
    }
}

/// What is written for one raw line: the rewritten content and the line's own
/// terminator; nothing at all when no mode is active.
pub open spec fn line_output(o: &Options, s: Seq<char>) -> Seq<char> {
    if has_mode(o) {
        content_spec(o, raw_content(s)) + raw_terminator(s)
    } else {
        seq![]
    }
}

/// What becomes of one item of the input: a line read, or the message of a failed read.
pub open spec fn item_output(o: &Options, item: Result<Seq<char>, Seq<char>>) -> Result<
    Seq<char>,
    Seq<char>,
> {
    match item {
        Ok(s) => Ok(line_output(o, s)),
        Err(m) => Err(m),
    }
}

/// The line pipeline over fixed options.
pub struct Command<'a> {
    pub options: &'a Options,
}

impl<'a> Command<'a> {
    /// Field mode on a line's content.
    pub fn process_fields(&self, line: &str) -> (r: String)
        ensures
            r@ == fields_spec(self.options, line@),
    {
        match &self.options.fields {
            Some(ranges) => {
                let words = to_fields(line, self.options.delimiter);
                let picked = select_fields(ranges, &words);
                join_with(&picked, self.options.delimiter)
            },
            None => String::new(),
        }
    }

    /// Byte mode on a line's content.
    pub fn process_bytes(&self, line: &str) -> (r: String)
        ensures
            r@ == bytes_spec(self.options, line@),
    {
        match &self.options.bytes {
            Some(ranges) => extract_bytes(ranges, line),
            None => String::new(),
        }
    }

    /// Character mode on a line's content.
    pub fn process_chars(&self, line: &str) -> (r: String)
        ensures
            r@ == chars_spec(self.options, line@),
            self.options.characters is Some ==> graphemes_of(line@).flatten() == line@,
    {
        match &self.options.characters {
            Some(ranges) => extract_chars(ranges, line),
            None => String::new(),
        }
    }

    /// A line's content rewritten by the active mode; empty when no mode is active.
    pub fn process_content(&self, content: &str) -> (r: String)
        ensures
            has_mode(self.options) ==> r@ == content_spec(self.options, content@),
            !has_mode(self.options) ==> r@ == Seq::<char>::empty(),
            self.options.fields is None && self.options.bytes is None
                && self.options.characters is Some ==> graphemes_of(content@).flatten()
                == content@,
    {
        if self.options.fields.is_some() {
            self.process_fields(content)
        } else if self.options.bytes.is_some() {
            self.process_bytes(content)
        } else if self.options.characters.is_some() {
            self.process_chars(content)
        } else {
            String::new()
        }
    }

    /// One raw line, as read with its terminator, turned into what is written for it.
    pub fn process_line(&self, raw: &str) -> (r: String)
        ensures
            r@ == line_output(self.options, raw@),
    {
        let (content, newline) = split_at_newline(raw);
        proof {
            encode_utf8_decode_utf8(content@);
            encode_utf8_decode_utf8(newline@);
        }
        assert(content@ == raw_content(raw@));
        assert(newline@ == raw_terminator(raw@));
        if !(self.options.fields.is_some() || self.options.bytes.is_some()
            || self.options.characters.is_some()) {
            return String::new();
        }
        let mut out = self.process_content(content);
        out.append(newline);
        out
    }

    /// One item of the input: a line is processed; a failed read becomes a
    /// diagnostic and leaves the lines after it untouched.
    pub fn process_item(&self, item: Result<&str, &str>) -> (r: Result<String, String>)
        ensures
            item is Ok <==> r is Ok,
            item is Ok ==> r->Ok_0@ == line_output(self.options, item->Ok_0@),
            item is Err ==> r->Err_0@ == item->Err_0@,
    {
        match item {
            Ok(s) => Ok(self.process_line(s)),
            Err(m) => Err(m.to_owned()),
        }
    }
}

impl<'a> From<&'a Options> for Command<'a> {
    fn from(options: &'a Options) -> (r: Self)
        ensures
            r.options == options,
    {
        Self { options }
    }
}

impl<'a> vstd::std_specs::convert::FromSpecImpl<&'a Options> for Command<'a> {
    open spec fn obeys_from_spec() -> bool {
        true
    }

    open spec fn from_spec(v: &'a Options) -> Self {
        Command { options: v }
    }
}

} // verus!
