//! References from an expression upwards: to a value of the root of the
//! document, or to a value of the immediate parent.

use vstd::prelude::*;
use crate::ident::{is_digit, is_lower, is_name, is_name_char, is_upper, Identifier};

verus! {

/// Whose value an expression asks for.
#[derive(Debug, Clone, Copy, PartialEq, Eq, Structural)]
pub enum Context {
    /// The root of the document.
    Root,
    /// The value that holds the one in which the expression stands.
    Parent,
}

/// One reference found in an expression.
#[derive(Debug, PartialEq, Eq)]
pub struct Reference {
    pub context: Context,
    /// The name of the value asked for.
    pub name: Identifier,
    /// Where in the expression the reference starts, counted in characters.
    pub offset: usize,
}

/// The word that names a context in an expression.
pub open spec fn keyword(context: Context) -> Seq<char> {
    match context {
        Context::Root => seq!['_', 'r', 'o', 'o', 't'],
        Context::Parent => seq!['_', 'p', 'a', 'r', 'e', 'n', 't'],
    }
}

/// A character of which words are made.
pub open spec fn is_word_char(c: char) -> bool {
    is_lower(c) || is_upper(c) || is_digit(c) || c == '_'
}

/// Whether a word can start at `i`: nothing stands before it, or a character
/// that is neither part of a word nor the dot of a longer path.
pub open spec fn starts_word(s: Seq<char>, i: int) -> bool {
    i == 0 || (0 < i <= s.len() && !is_word_char(s[i - 1]) && s[i - 1] != '.')
}

/// Whether `s` holds, from `i` on, a reference to the value `name` of
/// `context`: the context's word standing free, a dot, and then `name` as a
/// whole word that follows the spelling rule of declared names.
pub open spec fn refers_at(s: Seq<char>, i: int, context: Context, name: Seq<char>) -> bool {
    let dot = i + keyword(context).len();
    let end = dot + 1 + name.len();
    &&& 0 <= i
    &&& starts_word(s, i)
    &&& end <= s.len()
    &&& s.subrange(i, dot) == keyword(context)
    &&& s[dot] == '.'
    &&& is_name(name)
    &&& s.subrange(dot + 1, end) == name
    &&& (end == s.len() || !is_word_char(s[end]))
}

pub fn char_is_word_char(c: char) -> (b: bool)
    ensures
        b == is_word_char(c),
{
    ('a' <= c && c <= 'z') || ('A' <= c && c <= 'Z') || ('0' <= c && c <= '9') || c == '_'
}

/// Whether the word of `context` stands at `i`.
fn has_keyword(text: &Vec<char>, i: usize, context: Context) -> (b: bool)
    ensures
        b == (i + keyword(context).len() <= text@.len() && text@.subrange(
            i as int,
            i + keyword(context).len(),
        ) == keyword(context)),
{
    let n = text.len();
    match context {
        Context::Root => {
            if n < 5 || i > n - 5 {
                return false;
            }
            let b = text[i] == '_' && text[i + 1] == 'r' && text[i + 2] == 'o' && text[i + 3] == 'o'
                && text[i + 4] == 't';
            proof {
                let sub = text@.subrange(i as int, i + 5);
                let kw = keyword(context);
                if b {
                    assert(sub =~= kw);
                } else {
                    assert(sub[0] == text@[i as int] && kw[0] == '_');
                    assert(sub[1] == text@[i + 1] && kw[1] == 'r');
                    assert(sub[2] == text@[i + 2] && kw[2] == 'o');
                    assert(sub[3] == text@[i + 3] && kw[3] == 'o');
                    assert(sub[4] == text@[i + 4] && kw[4] == 't');
                }
            }
            b
        },
        Context::Parent => {
            if n < 7 || i > n - 7 {
                return false;
            }
            let b = text[i] == '_' && text[i + 1] == 'p' && text[i + 2] == 'a' && text[i + 3] == 'r'
                && text[i + 4] == 'e' && text[i + 5] == 'n' && text[i + 6] == 't';
            proof {
                let sub = text@.subrange(i as int, i + 7);
                let kw = keyword(context);
                if b {
                    assert(sub =~= kw);
                } else {
                    assert(sub[0] == text@[i as int] && kw[0] == '_');
                    assert(sub[1] == text@[i + 1] && kw[1] == 'p');
                    assert(sub[2] == text@[i + 2] && kw[2] == 'a');
                    assert(sub[3] == text@[i + 3] && kw[3] == 'r');
                    assert(sub[4] == text@[i + 4] && kw[4] == 'e');
                    assert(sub[5] == text@[i + 5] && kw[5] == 'n');
                    assert(sub[6] == text@[i + 6] && kw[6] == 't');
                }
            }
            b
        },
    }
}

/// The reference to a value of `context` that starts at `i`, if there is one.
fn reference_to(text: &Vec<char>, i: usize, context: Context) -> (r: Option<Reference>)
    requires
        i < text@.len(),
    ensures
        match r {
            Some(found) => found.offset == i && found.context == context && refers_at(
                text@,
                i as int,
                context,
                found.name@,
            ),
            None => forall|name: Seq<char>| !refers_at(text@, i as int, context, name),
        },
{
    let n = text.len();
    let ghost s = text@;
    let free = i == 0 || (!char_is_word_char(text[i - 1]) && text[i - 1] != '.');
    if !free || !has_keyword(text, i, context) {
        return None;
    }
    let width: usize = match context {
        Context::Root => 5,
        Context::Parent => 7,
    };
    assert(width == keyword(context).len());
    let dot: usize = i + width;
    if dot >= n || text[dot] != '.' {
        return None;
    }
    let start: usize = dot + 1;
    let mut end: usize = start;
    while end < n && char_is_word_char(text[end])
        invariant
            start <= end <= n,
            n == text@.len(),
            forall|j: int| start <= j < end ==> is_word_char(#[trigger] text@[j]),
        decreases n - end,
    {
        end += 1;
    }
    let name = Identifier::from_chars(text, start, end);
    proof {
        assert forall|other: Seq<char>| refers_at(s, i as int, context, other) implies other == s.subrange(
            start as int,
            end as int,
        ) by {
            let stop = start + other.len();
            if stop < end {
                assert(is_word_char(s[stop]));
            }
            if stop > end {
                let at = end - start;
                assert(other[at] == s.subrange(start as int, stop)[at]);
                assert(is_name_char(other[at]));
            }
        }
    }
    match name {
        Some(id) => Some(Reference { context, name: id, offset: i }),
        None => None,
    }
}

/// The reference that starts at `i`, if there is one.
fn reference_at(text: &Vec<char>, i: usize) -> (r: Option<Reference>)
    requires
        i < text@.len(),
    ensures
        match r {
            Some(found) => found.offset == i && refers_at(text@, i as int, found.context, found.name@),
            None => forall|context: Context, name: Seq<char>| !refers_at(text@, i as int, context, name),
        },
{
    match reference_to(text, i, Context::Root) {
        Some(found) => Some(found),
        None => reference_to(text, i, Context::Parent),
    }
}

/// Whether `list` is what an expression `s` refers to: each entry is a
/// reference that `s` holds at its offset, the offsets grow, and no reference
/// of `s` is left out.
pub open spec fn lists_references(list: Seq<Reference>, s: Seq<char>) -> bool {
    &&& forall|k: int|
        0 <= k < list.len() ==> refers_at(
            s,
            (#[trigger] list[k]).offset as int,
            list[k].context,
            list[k].name@,
        )
    &&& forall|a: int, b: int|
        0 <= a < b < list.len() ==> (#[trigger] list[a]).offset < (#[trigger] list[b]).offset
    &&& forall|i: int, context: Context, name: Seq<char>| #[trigger]
        refers_at(s, i, context, name) ==> exists|k: int|
            0 <= k < list.len() && (#[trigger] list[k]).offset == i && list[k].context == context
                && list[k].name@ == name
}

/// The references of an expression, in the order in which they stand in it.
pub fn find_references(text: &Vec<char>) -> (out: Vec<Reference>)
    ensures
        lists_references(out@, text@),
{
    let mut out: Vec<Reference> = Vec::new();
    let n = text.len();
    let mut i: usize = 0;
    while i < n
        invariant
            i <= n,
            n == text@.len(),
            forall|k: int|
                0 <= k < out@.len() ==> (#[trigger] out@[k]).offset < i && refers_at(
                    text@,
                    out@[k].offset as int,
                    out@[k].context,
                    out@[k].name@,
                ),
            forall|a: int, b: int|
                0 <= a < b < out@.len() ==> (#[trigger] out@[a]).offset < (#[trigger] out@[b]).offset,
            forall|j: int, context: Context, name: Seq<char>| #[trigger]
                refers_at(text@, j, context, name) && j < i ==> exists|k: int|
                    0 <= k < out@.len() && (#[trigger] out@[k]).offset == j && out@[k].context == context
                        && out@[k].name@ == name,
        decreases n - i,
    {
        let ghost before = out@;
        match reference_at(text, i) {
            Some(found) => {
                let ghost f = found;
                out.push(found);
                proof {
                    assert forall|j: int, context: Context, name: Seq<char>| #[trigger]
                        refers_at(text@, j, context, name) && j < i + 1 implies exists|k: int|
                        0 <= k < out@.len() && (#[trigger] out@[k]).offset == j && out@[k].context
                            == context && out@[k].name@ == name by {
                        if j < i {
                            let k = choose|k: int|
                                0 <= k < before.len() && (#[trigger] before[k]).offset == j
                                    && before[k].context == context && before[k].name@ == name;
                            assert(out@[k] == before[k]);
                        } else {
                            lemma_one_reference(text@, j, context, name, f.context, f.name@);
                            assert(out@[before.len() as int] == f);
                        }
                    }
                }
            },
            None => {},
        }
        i += 1;
    }
    proof {
        assert forall|j: int, context: Context, name: Seq<char>| #[trigger]
            refers_at(text@, j, context, name) implies j < n by {}
    }
    out
}

/// At one place an expression holds at most one reference.
pub proof fn lemma_one_reference(
    s: Seq<char>,
    i: int,
    c1: Context,
    n1: Seq<char>,
    c2: Context,
    n2: Seq<char>,
)
    requires
        refers_at(s, i, c1, n1),
        refers_at(s, i, c2, n2),
    ensures
        c1 == c2,
        n1 == n2,
{
    assert(c1 == c2) by {
        if c1 != c2 {
            assert(s.subrange(i, i + 5)[1] == s[i + 1]);
            assert(s.subrange(i, i + 7)[1] == s[i + 1]);
        }
    }
    let start = i + keyword(c1).len() + 1;
    let e1 = start + n1.len();
    let e2 = start + n2.len();
    if e1 < e2 {
        let at = e1 - start;
        assert(n2[at] == s.subrange(start, e2)[at]);
        assert(is_name_char(n2[at]));
    }
    if e2 < e1 {
        let at = e2 - start;
        assert(n1[at] == s.subrange(start, e1)[at]);
        assert(is_name_char(n1[at]));
    }
    assert(n1 =~= n2);
}

} // verus!
