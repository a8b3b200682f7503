//! Validated symbolic names and the spelling under which they are emitted.

use vstd::prelude::*;
use crate::text::{push_char, string_of, to_chars};

verus! {

/// A lower-case ASCII letter.
pub open spec fn is_lower(c: char) -> bool {
    'a' <= c && c <= 'z'
}

/// An upper-case ASCII letter.
pub open spec fn is_upper(c: char) -> bool {
    'A' <= c && c <= 'Z'
}

/// An ASCII digit.
pub open spec fn is_digit(c: char) -> bool {
    '0' <= c && c <= '9'
}

/// A character that may stand inside a declared name.
pub open spec fn is_name_char(c: char) -> bool {
    is_lower(c) || is_digit(c) || c == '_'
}

/// The spelling rule of declared names: a lower-case letter, then lower-case
/// letters, digits and underscores.
pub open spec fn is_name(s: Seq<char>) -> bool {
    &&& s.len() > 0
    &&& is_lower(s[0])
    &&& forall|i: int| 0 <= i < s.len() ==> is_name_char(#[trigger] s[i])
}

/// The upper-case form of a lower-case letter; any other character unchanged.
pub open spec fn to_upper(c: char) -> char {
    if is_lower(c) {
        ((c as u8) - 32) as u8 as char
    } else {
        c
    }
}

/// The spelling under which a name is emitted: underscores are dropped, and
/// the first character and each character after an underscore is put in
/// upper case (`logical_screen` becomes `LogicalScreen`).
pub open spec fn emitted(s: Seq<char>) -> Seq<char>
    decreases s.len(),
{
    if s.len() == 0 {
        Seq::empty()
    } else {
        let before = emitted(s.drop_last());
        let c = s.last();
        if c == '_' {
            before
        } else if s.len() == 1 || s[s.len() - 2] == '_' {
            before.push(to_upper(c))
        } else {
            before.push(c)
        }
    }
}

pub fn char_is_lower(c: char) -> (b: bool)
    ensures
        b == is_lower(c),
{
    'a' <= c && c <= 'z'
}

pub fn char_is_name_char(c: char) -> (b: bool)
    ensures
        b == is_name_char(c),
{
    ('a' <= c && c <= 'z') || ('0' <= c && c <= '9') || c == '_'
}

pub fn char_to_upper(c: char) -> (r: char)
    ensures
        r == to_upper(c),
{
    if 'a' <= c && c <= 'z' {
        ((c as u8) - 32) as char
    } else {
        c
    }
}

/// Whether `chars[from..to]` follows the spelling rule of declared names.
pub fn check_name(chars: &Vec<char>, from: usize, to: usize) -> (b: bool)
    requires
        from <= to <= chars.len(),
    ensures
        b == is_name(chars@.subrange(from as int, to as int)),
{
    let ghost s = chars@.subrange(from as int, to as int);
    if from == to || !char_is_lower(chars[from]) {
        assert(s.len() > 0 ==> s[0] == chars@[from as int]);
        return false;
    }
    let mut i: usize = from;
    while i < to
        invariant
            from <= i <= to <= chars.len(),
            s == chars@.subrange(from as int, to as int),
            forall|j: int| 0 <= j < i - from ==> is_name_char(#[trigger] s[j]),
        decreases to - i,
    {
        if !char_is_name_char(chars[i]) {
            assert(s[i - from] == chars@[i as int]);
            return false;
        }
        assert(s[i - from] == chars@[i as int]);
        i += 1;
    }
    assert(s[0] == chars@[from as int]);
    true
}

/// A declared name that follows the spelling rule.
#[derive(Debug, PartialEq, Eq, Hash)]
pub struct Identifier {
    name: String,
}

impl View for Identifier {
    type V = Seq<char>;

    closed spec fn view(&self) -> Seq<char> {
        self.name@
    }
}

impl Identifier {
    /// Every identifier follows the spelling rule.
    #[verifier::type_invariant]
    pub open spec fn spelled(&self) -> bool {
        is_name(self@)
    }

    /// The identifier spelled `text`, if `text` follows the spelling rule.
    pub fn new(text: &str) -> (r: Option<Identifier>)
        ensures
            r is Some <==> is_name(text@),
            r matches Some(id) ==> id@ == text@,
    {
        let chars = to_chars(text);
        assert(chars@.subrange(0, chars@.len() as int) =~= chars@);
        if check_name(&chars, 0, chars.len()) {
            Some(Identifier { name: text.to_owned() })
        } else {
            None
        }
    }

    /// The identifier spelled `chars[from..to]`, if that follows the
    /// spelling rule.
    pub fn from_chars(chars: &Vec<char>, from: usize, to: usize) -> (r: Option<Identifier>)
        requires
            from <= to <= chars.len(),
        ensures
            r is Some <==> is_name(chars@.subrange(from as int, to as int)),
            r matches Some(id) ==> id@ == chars@.subrange(from as int, to as int),
    {
        if check_name(chars, from, to) {
            Some(Identifier { name: string_of(chars, from, to) })
        } else {
            None
        }
    }

    /// The spelling of the name.
    pub fn as_str(&self) -> (s: &str)
        ensures
            s@ == self@,
            is_name(self@),
    {
        proof {
            use_type_invariant(self);
        }
        self.name.as_str()
    }

    /// Whether two identifiers are spelled alike.
    pub fn same(&self, other: &Identifier) -> (b: bool)
        ensures
            b == (self@ == other@),
    {
        self.name == other.name
    }

    /// Whether the identifier is spelled `text`.
    pub fn spells(&self, text: &String) -> (b: bool)
        ensures
            b == (self@ == text@),
    {
        self.name == *text
    }

    /// The spelling under which the name is emitted.
    pub fn emitted_name(&self) -> (s: String)
        ensures
            s@ == emitted(self@),
    {
        let chars = to_chars(self.name.as_str());
        let mut out = String::new();
        let mut i: usize = 0;
        while i < chars.len()
            invariant
                i <= chars.len(),
                chars@ == self@,
                out@ == emitted(chars@.take(i as int)),
            decreases chars.len() - i,
        {
            let c = chars[i];
            let ghost prefix = chars@.take(i as int + 1);
            assert(prefix.drop_last() =~= chars@.take(i as int));
            assert(prefix.last() == c);
            if c == '_' {
            } else if i == 0 || chars[i - 1] == '_' {
                push_char(&mut out, char_to_upper(c));
            } else {
                push_char(&mut out, c);
            }
            i += 1;
        }
        assert(chars@.take(i as int) =~= chars@);
        out
    }
}

impl Clone for Identifier {
    fn clone(&self) -> (r: Self)
        ensures
            r@ == self@,
    {
        proof {
            use_type_invariant(self);
        }
        Identifier { name: self.name.clone() }
    }
}

} // verus!
