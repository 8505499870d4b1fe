//! Parses the raw tag of a custom component: `<name attr="value" ...>` when
//! the component takes children, `<name attr="value" .../>` when it does not.
use vstd::prelude::*;

verus! {

broadcast use vstd::string::next_postcondition;

/// What is wrong with a component tag.
#[derive(Debug, Clone, Copy, PartialEq, Eq, Structural)]
pub enum TagError {
    /// the tag does not start with `<`
    MissingOpen,
    /// an attribute value does not start with `"`
    UnquotedValue,
    /// an attribute value has no closing `"`
    UnterminatedValue,
    /// an attribute name is not followed by `=`
    MissingEquals,
    /// the tag ends before its `>`
    UnterminatedTag,
}

impl TagError {
    pub fn message(&self) -> (r: String)
        ensures
            r@ == tag_error_text(*self),
    {
        match self {
            TagError::MissingOpen => "expected <".to_owned(),
            TagError::UnquotedValue => "please use `\"` to wrap your attribute values".to_owned(),
            TagError::UnterminatedValue => "expected attribute value".to_owned(),
            TagError::MissingEquals => "expected equal sign after attribute name".to_owned(),
            TagError::UnterminatedTag => "expected end of tag".to_owned(),
        }
    }
}

pub open spec fn tag_error_text(e: TagError) -> Seq<char> {
    match e {
        TagError::MissingOpen => "expected <"@,
        TagError::UnquotedValue => "please use `\"` to wrap your attribute values"@,
        TagError::UnterminatedValue => "expected attribute value"@,
        TagError::MissingEquals => "expected equal sign after attribute name"@,
        TagError::UnterminatedTag => "expected end of tag"@,
    }
}

#[derive(Debug)]
pub struct ComponentCall {
    pub name: String,
    pub attributes: Vec<(String, String)>,
    /// whether the component encloses children, closed later by `</name>`
    pub children: bool,
}

/// A component call as plain values.
pub struct CallSpec {
    pub name: Seq<char>,
    pub attributes: Seq<(Seq<char>, Seq<char>)>,
    pub children: bool,
}

/// The first index at or after `i` whose character is not a space.
pub open spec fn skip_spaces(s: Seq<char>, i: int) -> int
    decreases s.len() - i,
{
    if i < 0 || i >= s.len() || s[i] != ' ' {
        i
    } else {
        skip_spaces(s, i + 1)
    }
}

/// The first index at or after `i` whose character is in `stops`.
pub open spec fn find_any(s: Seq<char>, i: int, stops: Seq<char>) -> int
    decreases s.len() - i,
{
    if i < 0 || i >= s.len() || stops.contains(s[i]) {
        i
    } else {
        find_any(s, i + 1, stops)
    }
}

pub open spec fn attr_pair(a: (String, String)) -> (Seq<char>, Seq<char>) {
    (a.0@, a.1@)
}

proof fn lemma_find_bounds(s: Seq<char>, i: int, stops: Seq<char>)
    requires
        0 <= i <= s.len(),
    ensures
        i <= find_any(s, i, stops) <= s.len(),
        i <= skip_spaces(s, i) <= s.len(),
        find_any(s, i, stops) < s.len() ==> stops.contains(s[find_any(s, i, stops)]),
        skip_spaces(s, i) < s.len() ==> s[skip_spaces(s, i)] != ' ',
    decreases s.len() - i,
{
    if i < s.len() {
        lemma_find_bounds(s, i + 1, stops);
    }
}

#[via_fn]
proof fn attrs_from_decreases(s: Seq<char>, i: int) {
    if 0 <= i <= s.len() {
        lemma_find_bounds(s, i, seq!['=']);
        let j = skip_spaces(s, i);
        lemma_find_bounds(s, j, seq!['=']);
        let e = find_any(s, j, seq!['=']);
        if e < s.len() {
            lemma_find_bounds(s, e + 1, seq!['"']);
            let v = skip_spaces(s, e + 1);
            if v < s.len() {
                lemma_find_bounds(s, v + 1, seq!['"']);
            }
        }
    }
}

/// The attributes that start at index `i`, and the index of the `>` or `/`
/// that follows them.
pub open spec fn attrs_from(s: Seq<char>, i: int) -> Result<
    (Seq<(Seq<char>, Seq<char>)>, int),
    TagError,
>
    decreases s.len() - i,
    via attrs_from_decreases
{
    if i < 0 || i > s.len() {
        Err(TagError::UnterminatedTag)
    } else {
        let j = skip_spaces(s, i);
        if j >= s.len() {
            Err(TagError::UnterminatedTag)
        } else if s[j] == '>' || s[j] == '/' {
            Ok((seq![], j))
        } else {
            let e = find_any(s, j, seq!['=']);
            if e >= s.len() {
                Err(TagError::MissingEquals)
            } else {
                let v = skip_spaces(s, e + 1);
                if v >= s.len() || s[v] != '"' {
                    Err(TagError::UnquotedValue)
                } else {
                    let q = find_any(s, v + 1, seq!['"']);
                    if q >= s.len() {
                        Err(TagError::UnterminatedValue)
                    } else {
                        match attrs_from(s, q + 1) {
                            Ok((rest, k)) => Ok(
                                (seq![(s.subrange(j, e), s.subrange(v + 1, q))] + rest, k),
                            ),
                            Err(err) => Err(err),
                        }
                    }
                }
            }
        }
    }
}

/// The component call that the tag `s` describes.
pub open spec fn parse_call(s: Seq<char>) -> Result<CallSpec, TagError> {
    if s.len() == 0 || s[0] != '<' {
        Err(TagError::MissingOpen)
    } else {
        let n = find_any(s, 1, seq![' ', '/', '>']);
        if n >= s.len() {
            Err(TagError::UnterminatedTag)
        } else {
            match attrs_from(s, n) {
                Ok((attributes, k)) => if s[k] == '/' && !(k + 1 < s.len() && s[k + 1] == '>') {
                    Err(TagError::UnterminatedTag)
                } else {
                    Ok(CallSpec { name: s.subrange(1, n), attributes, children: s[k] != '/' })
                },
                Err(e) => Err(e),
            }
        }
    }
}

/// The characters of a tag, read one at a time.
pub struct CharStream {
    chars: Vec<char>,
    pos: usize,
}

impl CharStream {
    pub closed spec fn text(&self) -> Seq<char> {
        self.chars@
    }

    pub closed spec fn position(&self) -> int {
        self.pos as int
    }

    pub closed spec fn wf(&self) -> bool {
        self.pos <= self.chars@.len()
    }

    pub fn new(s: &str) -> (r: CharStream)
        ensures
            r.wf(),
            r.text() == s@,
            r.position() == 0,
    {
        CharStream { chars: chars_of(s), pos: 0 }
    }

    pub fn peek(&self) -> (r: Option<char>)
        requires
            self.wf(),
        ensures
            self.position() < self.text().len() ==> r == Some(self.text()[self.position()]),
            self.position() >= self.text().len() ==> r is None,
    {
        if self.pos < self.chars.len() {
            Some(self.chars[self.pos])
        } else {
            None
        }
    }

    pub fn next(&mut self) -> (r: Option<char>)
        requires
            old(self).wf(),
        ensures
            final(self).wf(),
            final(self).text() == old(self).text(),
            old(self).position() < old(self).text().len() ==> r == Some(
                old(self).text()[old(self).position()],
            ) && final(self).position() == old(self).position() + 1,
            old(self).position() >= old(self).text().len() ==> r is None && final(self).position()
                == old(self).position(),
    {
        if self.pos < self.chars.len() {
            let c = self.chars[self.pos];
            self.pos = self.pos + 1;
            Some(c)
        } else {
            None
        }
    }

    /// Reads characters up to the first one in `stops` (left unread) or to
    /// the end; returns the characters read.
    fn take_until(&mut self, stops: &Vec<char>) -> (r: Vec<char>)
        requires
            old(self).wf(),
        ensures
            final(self).wf(),
            final(self).text() == old(self).text(),
            final(self).position() == find_any(old(self).text(), old(self).position(), stops@),
            r@ == old(self).text().subrange(old(self).position(), final(self).position()),
    {
        let ghost s = self.text();
        let ghost i = self.position();
        let mut out: Vec<char> = Vec::new();
        while self.pos < self.chars.len() && !contains_char(stops, self.chars[self.pos])
            invariant
                self.wf(),
                self.text() == s,
                s == old(self).text(),
                i == old(self).position(),
                i <= self.pos,
                find_any(s, self.pos as int, stops@) == find_any(s, i, stops@),
                out@ == s.subrange(i, self.pos as int),
            decreases self.chars@.len() - self.pos,
        {
            out.push(self.chars[self.pos]);
            self.pos = self.pos + 1;
            assert(out@ =~= s.subrange(i, self.pos as int));
        }
        out
    }

    /// Skips spaces.
    fn skip_spaces(&mut self)
        requires
            old(self).wf(),
        ensures
            final(self).wf(),
            final(self).text() == old(self).text(),
            final(self).position() == skip_spaces(old(self).text(), old(self).position()),
    {
        while self.pos < self.chars.len() && self.chars[self.pos] == ' '
            invariant
                self.wf(),
                self.text() == old(self).text(),
                skip_spaces(self.text(), self.pos as int) == skip_spaces(
                    old(self).text(),
                    old(self).position(),
                ),
            decreases self.chars@.len() - self.pos,
        {
            self.pos = self.pos + 1;
        }
    }
}

fn contains_char(stops: &Vec<char>, c: char) -> (r: bool)
    ensures
        r == stops@.contains(c),
{
    let mut k: usize = 0;
    while k < stops.len()
        invariant
            k <= stops@.len(),
            forall|j: int| 0 <= j < k ==> stops@[j] != c,
        decreases stops@.len() - k,
    {
        if stops[k] == c {
            return true;
        }
        k = k + 1;
    }
    false
}

/// The characters of `s`, in order.
pub fn chars_of(s: &str) -> (r: Vec<char>)
    ensures
        r@ == s@,
{
    let mut it = s.chars();
    proof {
        vstd::string::axiom_spec_iter(s);
    }
    let mut v: Vec<char> = Vec::new();
    loop
        invariant
            v@ + vstd::std_specs::iter::IteratorSpec::remaining(&it) == s@,
            vstd::std_specs::iter::IteratorSpec::decrease(&it) is Some,
        decreases vstd::std_specs::iter::IteratorSpec::decrease(&it)->0,
    {
        let ghost before = vstd::std_specs::iter::IteratorSpec::remaining(&it);
        match it.next() {
            Some(c) => {
                v.push(c);
                assert(v@ + vstd::std_specs::iter::IteratorSpec::remaining(&it) =~= s@);
            },
            None => {
                assert(v@ =~= s@);
                return v;
            },
        }
    }
}

/// Relies on std's `FromIterator<&char>` for `String`: the string holds the
/// given characters, in order.
#[verifier::external_body]
fn string_of(cs: &Vec<char>) -> (r: String)
    ensures
        r@ == cs@,
{
    String::from_iter(cs.iter())
}

/// Reads `"value"`, quotes included.
pub fn parse_attribute_value(stream: &mut CharStream) -> (r: Result<String, TagError>)
    requires
        old(stream).wf(),
    ensures
        final(stream).wf(),
        final(stream).text() == old(stream).text(),
        ({
            let s = old(stream).text();
            let v = old(stream).position();
            let q = find_any(s, v + 1, seq!['"']);
            if v >= s.len() || s[v] != '"' {
                &&& r == Err::<String, TagError>(TagError::UnquotedValue)
                &&& final(stream).position() == if v < s.len() {
                    v + 1
                } else {
                    v
                }
            } else if q >= s.len() {
                &&& r == Err::<String, TagError>(TagError::UnterminatedValue)
                &&& final(stream).position() == s.len()
            } else {
                r matches Ok(x) && x@ == s.subrange(v + 1, q) && final(stream).position() == q + 1
            }
        }),
{
    if stream.next() != Some('"') {
        return Err(TagError::UnquotedValue);
    }
    let quote = vec!['"'];
    assert(quote@ =~= seq!['"']);
    let value = stream.take_until(&quote);
    if stream.peek().is_none() {
        return Err(TagError::UnterminatedValue);
    }
    stream.next();
    Ok(string_of(&value))
}

/// Reads an attribute name, after optional spaces, up to the `=` (left
/// unread).
pub fn parse_attribute_name(stream: &mut CharStream) -> (r: Result<String, TagError>)
    requires
        old(stream).wf(),
    ensures
        final(stream).wf(),
        final(stream).text() == old(stream).text(),
        ({
            let s = old(stream).text();
            let j = skip_spaces(s, old(stream).position());
            let e = find_any(s, j, seq!['=']);
            if e >= s.len() {
                &&& r == Err::<String, TagError>(TagError::MissingEquals)
                &&& final(stream).position() == s.len()
            } else {
                r matches Ok(x) && x@ == s.subrange(j, e) && final(stream).position() == e
            }
        }),
{
    stream.skip_spaces();
    let equal = vec!['='];
    assert(equal@ =~= seq!['=']);
    let name = stream.take_until(&equal);
    if stream.peek().is_none() {
        return Err(TagError::MissingEquals);
    }
    Ok(string_of(&name))
}

/// Reads `name="value"`, with optional spaces before the name and the value.
pub fn parse_attribute(stream: &mut CharStream) -> (r: Result<(String, String), TagError>)
    requires
        old(stream).wf(),
    ensures
        final(stream).wf(),
        final(stream).text() == old(stream).text(),
        ({
            let s = old(stream).text();
            let j = skip_spaces(s, old(stream).position());
            let e = find_any(s, j, seq!['=']);
            let v = skip_spaces(s, e + 1);
            let q = find_any(s, v + 1, seq!['"']);
            if e >= s.len() {
                &&& r == Err::<(String, String), TagError>(TagError::MissingEquals)
                &&& final(stream).position() == s.len()
            } else if v >= s.len() || s[v] != '"' {
                &&& r == Err::<(String, String), TagError>(TagError::UnquotedValue)
                &&& final(stream).position() == if v < s.len() {
                    v + 1
                } else {
                    v
                }
            } else if q >= s.len() {
                &&& r == Err::<(String, String), TagError>(TagError::UnterminatedValue)
                &&& final(stream).position() == s.len()
            } else {
                r matches Ok(x) && attr_pair(x) == (s.subrange(j, e), s.subrange(v + 1, q))
                    && final(stream).position() == q + 1
            }
        }),
{
    let name = match parse_attribute_name(stream) {
        Ok(n) => n,
        Err(e) => {
            return Err(e);
        },
    };
    // the equal sign
    stream.next();
    stream.skip_spaces();
    let value = match parse_attribute_value(stream) {
        Ok(v) => v,
        Err(e) => {
            return Err(e);
        },
    };
    Ok((name, value))
}

} // verus!

verus! {

/// `xs` followed by the attributes of `r`, when `r` is a success.
pub open spec fn prepend(
    xs: Seq<(Seq<char>, Seq<char>)>,
    r: Result<(Seq<(Seq<char>, Seq<char>)>, int), TagError>,
) -> Result<(Seq<(Seq<char>, Seq<char>)>, int), TagError> {
    match r {
        Ok((rest, k)) => Ok((xs + rest, k)),
        Err(e) => Err(e),
    }
}

/// The call `c` holds the values of `spec`.
pub open spec fn call_is(c: ComponentCall, spec: CallSpec) -> bool {
    &&& c.name@ == spec.name
    &&& c.attributes@.map_values(|a: (String, String)| attr_pair(a)) == spec.attributes
    &&& c.children == spec.children
}

impl ComponentCall {
    /// Reads a component tag.
    pub fn parse(s: &str) -> (r: Result<ComponentCall, TagError>)
        ensures
            match parse_call(s@) {
                Ok(c) => r matches Ok(x) && call_is(x, c),
                Err(e) => r matches Err(x) && x == e,
            },
    {
        let ghost t = s@;
        let mut stream = CharStream::new(s);
        if stream.next() != Some('<') {
            return Err(TagError::MissingOpen);
        }
        let stops = vec![' ', '/', '>'];
        assert(stops@ =~= seq![' ', '/', '>']);
        let name = stream.take_until(&stops);
        let ghost n = stream.position();
        proof {
            lemma_find_bounds(t, 1, stops@);
        }
        if stream.peek().is_none() {
            return Err(TagError::UnterminatedTag);
        }
        let mut attributes: Vec<(String, String)> = Vec::new();
        loop
            invariant
                stream.wf(),
                stream.text() == t,
                t == s@,
                t.len() > 0 && t[0] == '<',
                n == find_any(t, 1, seq![' ', '/', '>']),
                n < t.len(),
                name@ == t.subrange(1, n),
                n <= stream.position() <= t.len(),
                attrs_from(t, n) == prepend(
                    attributes@.map_values(|a: (String, String)| attr_pair(a)),
                    attrs_from(t, stream.position()),
                ),
            ensures
                stream.position() < t.len(),
                t[stream.position()] == '>' || t[stream.position()] == '/',
            decreases t.len() - stream.position(),
        {
            let ghost pos = stream.position();
            proof {
                lemma_find_bounds(t, pos, seq!['=']);
            }
            stream.skip_spaces();
            let ghost j = stream.position();
            proof {
                lemma_find_bounds(t, j, seq!['=']);
                assert(skip_spaces(t, j) == j);
            }
            match stream.peek() {
                None => {
                    return Err(TagError::UnterminatedTag);
                },
                Some(c) => {
                    if c == '>' || c == '/' {
                        break;
                    }
                    let ghost before = attributes@.map_values(|a: (String, String)| attr_pair(a));
                    match parse_attribute(&mut stream) {
                        Ok(a) => {
                            proof {
                                let e = find_any(t, j, seq!['=']);
                                lemma_find_bounds(t, e + 1, seq!['"']);
                                let v = skip_spaces(t, e + 1);
                                lemma_find_bounds(t, v + 1, seq!['"']);
                            }
                            attributes.push(a);
                            proof {
                                let after = attributes@.map_values(
                                    |a: (String, String)| attr_pair(a),
                                );
                                assert(after =~= before.push(attr_pair(a)));
                                match attrs_from(t, stream.position()) {
                                    Ok((rest, k)) => {
                                        assert(before + (seq![attr_pair(a)] + rest) =~= after
                                            + rest);
                                    },
                                    Err(_) => {},
                                }
                            }
                        },
                        Err(e) => {
                            return Err(e);
                        },
                    }
                },
            }
        }
        let ghost k = stream.position();
        proof {
            assert(attrs_from(t, k) == Ok::<(Seq<(Seq<char>, Seq<char>)>, int), TagError>(
                (seq![], k),
            ));
            assert(attributes@.map_values(|a: (String, String)| attr_pair(a)) + seq![]
                =~= attributes@.map_values(|a: (String, String)| attr_pair(a)));
        }
        let first = stream.next();
        let mut children = true;
        if first == Some('/') {
            if stream.next() != Some('>') {
                return Err(TagError::UnterminatedTag);
            }
            children = false;
        }
        Ok(ComponentCall { name: string_of(&name), attributes, children })
    }
}

impl core::str::FromStr for ComponentCall {
    type Err = String;

    fn from_str(s: &str) -> (r: Result<ComponentCall, String>)
        ensures
            match parse_call(s@) {
                Ok(c) => r matches Ok(x) && call_is(x, c),
                Err(e) => r matches Err(m) && m@ == tag_error_text(e),
            },
    {
        match ComponentCall::parse(s) {
            Ok(c) => Ok(c),
            Err(e) => Err(e.message()),
        }
    }
}

} // verus!
