//! Schema coordinates (`Type`, `Type.field`, `Type.field(arg:)`, `@dir`,
//! `@dir(arg:)`), which name the parts of a schema that options refer to.

use vstd::prelude::*;
use crate::text::{str_chars, string_push};

verus! {

/// A schema coordinate.
pub enum SchemaCoordinate {
    Type { name: String },
    Member { ty: String, field: String },
    Argument { ty: String, field: String, argument: String },
    Directive { name: String },
    DirectiveArgument { name: String, argument: String },
}

/// A schema coordinate, over the characters of its names.
pub enum CoordinateView {
    Type(Seq<char>),
    Member(Seq<char>, Seq<char>),
    Argument(Seq<char>, Seq<char>, Seq<char>),
    Directive(Seq<char>),
    DirectiveArgument(Seq<char>, Seq<char>),
}

/// Text that is not a schema coordinate.
pub struct CoordinateSyntaxError {
    pub text: String,
}

impl SchemaCoordinate {
    pub open spec fn view(&self) -> CoordinateView {
        match self {
            SchemaCoordinate::Type { name } => CoordinateView::Type(name@),
            SchemaCoordinate::Member { ty, field } => CoordinateView::Member(ty@, field@),
            SchemaCoordinate::Argument { ty, field, argument } => CoordinateView::Argument(ty@, field@, argument@),
            SchemaCoordinate::Directive { name } => CoordinateView::Directive(name@),
            SchemaCoordinate::DirectiveArgument { name, argument } => CoordinateView::DirectiveArgument(
                name@,
                argument@,
            ),
        }
    }

    /// The coordinate of the field `field` of the type `ty`.
    pub fn member(ty: String, field: String) -> (r: SchemaCoordinate)
        ensures
            r.view() == CoordinateView::Member(ty@, field@),
    {
        SchemaCoordinate::Member { ty, field }
    }

    /// Whether the coordinate names a field (or an input field, or an enum value).
    pub fn is_member(&self) -> (r: bool)
        ensures
            r == (self.view() is Member),
    {
        match self {
            SchemaCoordinate::Member { .. } => true,
            _ => false,
        }
    }

    /// The coordinate as it is written.
    pub fn to_string(&self) -> (r: String)
        ensures
            r@ == coordinate_text(self.view()),
    {
        let mut r = String::new();
        match self {
            SchemaCoordinate::Type { name } => {
                r.append(name.as_str());
            },
            SchemaCoordinate::Member { ty, field } => {
                r.append(ty.as_str());
                string_push(&mut r, '.');
                r.append(field.as_str());
            },
            SchemaCoordinate::Argument { ty, field, argument } => {
                r.append(ty.as_str());
                string_push(&mut r, '.');
                r.append(field.as_str());
                string_push(&mut r, '(');
                r.append(argument.as_str());
                string_push(&mut r, ':');
                string_push(&mut r, ')');
            },
            SchemaCoordinate::Directive { name } => {
                string_push(&mut r, '@');
                r.append(name.as_str());
            },
            SchemaCoordinate::DirectiveArgument { name, argument } => {
                string_push(&mut r, '@');
                r.append(name.as_str());
                string_push(&mut r, '(');
                r.append(argument.as_str());
                string_push(&mut r, ':');
                string_push(&mut r, ')');
            },
        }
        r
    }
}

/// How a coordinate is written.
pub open spec fn coordinate_text(c: CoordinateView) -> Seq<char> {
    match c {
        CoordinateView::Type(n) => n,
        CoordinateView::Member(t, f) => t + seq!['.'] + f,
        CoordinateView::Argument(t, f, a) => t + seq!['.'] + f + seq!['('] + a + seq![':', ')'],
        CoordinateView::Directive(n) => seq!['@'] + n,
        CoordinateView::DirectiveArgument(n, a) => seq!['@'] + n + seq!['('] + a + seq![':', ')'],
    }
}

/// A character that may start a GraphQL name: a letter or `_`.
pub open spec fn is_name_start(c: char) -> bool {
    ('A' <= c && c <= 'Z') || ('a' <= c && c <= 'z') || c == '_'
}

/// A character that may continue a GraphQL name: a letter, digit or `_`.
pub open spec fn is_name_continue(c: char) -> bool {
    is_name_start(c) || ('0' <= c && c <= '9')
}

/// How many characters at the start of `s` may continue a name.
pub open spec fn continue_len(s: Seq<char>) -> nat
    decreases s.len(),
{
    if s.len() > 0 && is_name_continue(s[0]) {
        1 + continue_len(s.drop_first())
    } else {
        0
    }
}

/// The length of the name at the start of `s`; zero when there is none.
pub open spec fn name_len(s: Seq<char>) -> nat {
    if s.len() > 0 && is_name_start(s[0]) {
        1 + continue_len(s.drop_first())
    } else {
        0
    }
}

/// `s` is a GraphQL name.
pub open spec fn is_name(s: Seq<char>) -> bool {
    s.len() > 0 && name_len(s) == s.len()
}

/// The argument of a coordinate whose text goes on at `p` as `(arg:)` up
/// to its end.
pub open spec fn argument_suffix(s: Seq<char>, p: int) -> Option<Seq<char>> {
    if 0 <= p < s.len() && s[p] == '(' {
        let a = name_len(s.skip(p + 1));
        if a > 0 && p + a + 3 == s.len() && s[p + 1 + a] == ':' && s[p + 2 + a] == ')' {
            Some(s.subrange(p + 1, p + 1 + a))
        } else {
            None
        }
    } else {
        None
    }
}

/// The coordinate that `s` writes, if it writes one.
#[verifier::opaque]
pub open spec fn parse_coordinate(s: Seq<char>) -> Option<CoordinateView> {
    if s.len() > 0 && s[0] == '@' {
        let n = name_len(s.skip(1)) as int;
        let name = s.subrange(1, 1 + n);
        if n == 0 {
            None
        } else if 1 + n == s.len() {
            Some(CoordinateView::Directive(name))
        } else {
            match argument_suffix(s, 1 + n) {
                Some(a) => Some(CoordinateView::DirectiveArgument(name, a)),
                None => None,
            }
        }
    } else {
        let n = name_len(s) as int;
        let ty = s.take(n);
        if n == 0 {
            None
        } else if n == s.len() {
            Some(CoordinateView::Type(ty))
        } else if s[n] != '.' {
            None
        } else {
            let m = name_len(s.skip(n + 1)) as int;
            let field = s.subrange(n + 1, n + 1 + m);
            if m == 0 {
                None
            } else if n + 1 + m == s.len() {
                Some(CoordinateView::Member(ty, field))
            } else {
                match argument_suffix(s, n + 1 + m) {
                    Some(a) => Some(CoordinateView::Argument(ty, field, a)),
                    None => None,
                }
            }
        }
    }
}

proof fn lemma_continue_concat(y: Seq<char>, r: Seq<char>)
    requires
        continue_len(y) == y.len(),
        r.len() == 0 || !is_name_continue(r[0]),
    ensures
        continue_len(y + r) == y.len(),
    decreases y.len(),
{
    if y.len() == 0 {
        assert(y + r == r);
    } else {
        lemma_continue_concat(y.drop_first(), r);
        assert((y + r).drop_first() == y.drop_first() + r);
        assert((y + r)[0] == y[0]);
    }
}

proof fn lemma_name_concat(x: Seq<char>, r: Seq<char>)
    requires
        is_name(x),
        r.len() == 0 || !is_name_continue(r[0]),
    ensures
        name_len(x + r) == x.len(),
{
    lemma_continue_concat(x.drop_first(), r);
    assert((x + r).drop_first() == x.drop_first() + r);
    assert((x + r)[0] == x[0]);
}

/// All names of the coordinate are GraphQL names.
pub open spec fn coordinate_names_valid(c: CoordinateView) -> bool {
    match c {
        CoordinateView::Type(n) => is_name(n),
        CoordinateView::Member(t, f) => is_name(t) && is_name(f),
        CoordinateView::Argument(t, f, a) => is_name(t) && is_name(f) && is_name(a),
        CoordinateView::Directive(n) => is_name(n),
        CoordinateView::DirectiveArgument(n, a) => is_name(n) && is_name(a),
    }
}

proof fn lemma_reads_back_type(n: Seq<char>)
    requires
        is_name(n),
    ensures
        parse_coordinate(coordinate_text(CoordinateView::Type(n))) == Some(CoordinateView::Type(n)),
{
    reveal(parse_coordinate);
    let s = coordinate_text(CoordinateView::Type(n));
    lemma_name_concat(n, Seq::empty());
    assert(n + Seq::<char>::empty() == n);
    assert(s.take(n.len() as int) == n);
}

proof fn lemma_reads_back_member(t: Seq<char>, f: Seq<char>)
    requires
        is_name(t),
        is_name(f),
    ensures
        parse_coordinate(coordinate_text(CoordinateView::Member(t, f))) == Some(
            CoordinateView::Member(t, f),
        ),
{
    reveal(parse_coordinate);
    let s = coordinate_text(CoordinateView::Member(t, f));
    let tl = t.len() as int;
    let fl = f.len() as int;
    let rest = seq!['.'] + f;
    assert(s == t + rest);
    lemma_name_concat(t, rest);
    assert(s[tl] == '.');
    assert(s.take(tl) == t);
    assert(s.skip(tl + 1) == f);
    lemma_name_concat(f, Seq::empty());
    assert(f + Seq::<char>::empty() == f);
    assert(s.subrange(tl + 1, tl + 1 + fl) == f);
}

proof fn lemma_reads_back_argument(t: Seq<char>, f: Seq<char>, a: Seq<char>)
    requires
        is_name(t),
        is_name(f),
        is_name(a),
    ensures
        parse_coordinate(coordinate_text(CoordinateView::Argument(t, f, a))) == Some(
            CoordinateView::Argument(t, f, a),
        ),
{
    reveal(parse_coordinate);
    let s = coordinate_text(CoordinateView::Argument(t, f, a));
    let tl = t.len() as int;
    let fl = f.len() as int;
    let al = a.len() as int;
    let tail = seq![':', ')'];
    let after = seq!['('] + a + tail;
    let rest = seq!['.'] + f + after;
    assert(s == t + rest);
    lemma_name_concat(t, rest);
    assert(s[tl] == '.');
    assert(s.take(tl) == t);
    assert(s.skip(tl + 1) == f + after);
    lemma_name_concat(f, after);
    assert(s.subrange(tl + 1, tl + 1 + fl) == f);
    let p = tl + 1 + fl;
    assert(s[p] == '(');
    assert(s.skip(p + 1) == a + tail);
    lemma_name_concat(a, tail);
    assert(s.subrange(p + 1, p + 1 + al) == a);
    assert(s[p + 1 + al] == ':');
    assert(s[p + 2 + al] == ')');
}

proof fn lemma_reads_back_directive(n: Seq<char>)
    requires
        is_name(n),
    ensures
        parse_coordinate(coordinate_text(CoordinateView::Directive(n))) == Some(
            CoordinateView::Directive(n),
        ),
{
    reveal(parse_coordinate);
    let s = coordinate_text(CoordinateView::Directive(n));
    assert(s.skip(1) == n);
    lemma_name_concat(n, Seq::empty());
    assert(n + Seq::<char>::empty() == n);
    assert(s.subrange(1, 1 + n.len() as int) == n);
}

proof fn lemma_reads_back_directive_argument(n: Seq<char>, a: Seq<char>)
    requires
        is_name(n),
        is_name(a),
    ensures
        parse_coordinate(coordinate_text(CoordinateView::DirectiveArgument(n, a))) == Some(
            CoordinateView::DirectiveArgument(n, a),
        ),
{
    reveal(parse_coordinate);
    let s = coordinate_text(CoordinateView::DirectiveArgument(n, a));
    let nl = n.len() as int;
    let al = a.len() as int;
    let tail = seq![':', ')'];
    let after = seq!['('] + a + tail;
    assert(s.skip(1) == n + after);
    lemma_name_concat(n, after);
    assert(s.subrange(1, 1 + nl) == n);
    let p = 1 + nl;
    assert(s[p] == '(');
    assert(s.skip(p + 1) == a + tail);
    lemma_name_concat(a, tail);
    assert(s.subrange(p + 1, p + 1 + al) == a);
    assert(s[p + 1 + al] == ':');
    assert(s[p + 2 + al] == ')');
}

/// Reading the text of a coordinate made of GraphQL names gives the
/// coordinate back.
pub proof fn law_coordinate_text_reads_back(c: CoordinateView)
    requires
        coordinate_names_valid(c),
    ensures
        parse_coordinate(coordinate_text(c)) == Some(c),
{
    match c {
        CoordinateView::Type(n) => lemma_reads_back_type(n),
        CoordinateView::Member(t, f) => lemma_reads_back_member(t, f),
        CoordinateView::Argument(t, f, a) => lemma_reads_back_argument(t, f, a),
        CoordinateView::Directive(n) => lemma_reads_back_directive(n),
        CoordinateView::DirectiveArgument(n, a) => lemma_reads_back_directive_argument(n, a),
    }
}

fn char_is_name_start(c: char) -> (r: bool)
    ensures
        r == is_name_start(c),
{
    ('A' <= c && c <= 'Z') || ('a' <= c && c <= 'z') || c == '_'
}

fn char_is_name_continue(c: char) -> (r: bool)
    ensures
        r == is_name_continue(c),
{
    char_is_name_start(c) || ('0' <= c && c <= '9')
}

proof fn lemma_continue_step(s: Seq<char>, j: int)
    requires
        0 <= j < s.len(),
    ensures
        is_name_continue(s[j]) ==> continue_len(s.skip(j)) == 1 + continue_len(s.skip(j + 1)),
        !is_name_continue(s[j]) ==> continue_len(s.skip(j)) == 0,
{
    assert(s.skip(j).drop_first() == s.skip(j + 1));
    assert(s.skip(j)[0] == s[j]);
}

/// The length of the name that starts at `start`.
fn name_length_at(chars: &Vec<char>, start: usize) -> (r: usize)
    requires
        start <= chars@.len(),
    ensures
        r == name_len(chars@.skip(start as int)),
        start + r <= chars@.len(),
{
    let ghost s = chars@;
    if start >= chars.len() || !char_is_name_start(chars[start]) {
        if start < chars.len() {
            assert(s.skip(start as int)[0] == s[start as int]);
        }
        return 0;
    }
    assert(s.skip(start as int)[0] == s[start as int]);
    assert(s.skip(start as int).drop_first() == s.skip(start + 1));
    let mut j: usize = start + 1;
    while j < chars.len() && char_is_name_continue(chars[j])
        invariant
            start < j <= s.len(),
            s == chars@,
            continue_len(s.skip(start + 1)) == (j - start - 1) + continue_len(s.skip(j as int)),
        decreases s.len() - j,
    {
        proof {
            lemma_continue_step(s, j as int);
        }
        j = j + 1;
    }
    proof {
        if j < s.len() {
            lemma_continue_step(s, j as int);
        } else {
            assert(s.skip(j as int).len() == 0);
        }
    }
    j - start
}

/// A string of the characters `chars[from..to]`.
fn chars_range(chars: &Vec<char>, from: usize, to: usize) -> (r: String)
    requires
        from <= to <= chars@.len(),
    ensures
        r@ == chars@.subrange(from as int, to as int),
{
    let mut r = String::new();
    let mut i = from;
    while i < to
        invariant
            from <= i <= to <= chars@.len(),
            r@ == chars@.subrange(from as int, i as int),
        decreases to - i,
    {
        string_push(&mut r, chars[i]);
        i = i + 1;
        assert(chars@.subrange(from as int, i as int) == chars@.subrange(from as int, i - 1).push(chars@[i - 1]));
    }
    r
}

/// Reads `(arg:)` from position `p` to the end.
fn parse_argument_suffix(chars: &Vec<char>, p: usize) -> (r: Option<String>)
    requires
        p <= chars@.len(),
    ensures
        match argument_suffix(chars@, p as int) {
            Some(a) => r matches Some(x) && x@ == a,
            None => r is None,
        },
{
    if p < chars.len() && chars[p] == '(' {
        let a = name_length_at(chars, p + 1);
        let end = p + 1 + a;
        if a > 0 && chars.len() - end == 2 && chars[end] == ':' && chars[end + 1] == ')' {
            return Some(chars_range(chars, p + 1, p + 1 + a));
        }
    }
    None
}

/// Reads a schema coordinate.
pub fn parse_schema_coordinate(text: &str) -> (r: Result<SchemaCoordinate, CoordinateSyntaxError>)
    ensures
        match parse_coordinate(text@) {
            Some(c) => r matches Ok(x) && x.view() == c,
            None => r matches Err(e) && e.text@ == text@,
        },
{
    reveal(parse_coordinate);
    let chars = str_chars(text);
    let ghost s = chars@;
    assert(s.skip(0) == s);
    if chars.len() > 0 && chars[0] == '@' {
        let n = name_length_at(&chars, 1);
        if n == 0 {
            return Err(CoordinateSyntaxError { text: text.to_owned() });
        }
        let name = chars_range(&chars, 1, 1 + n);
        if 1 + n == chars.len() {
            return Ok(SchemaCoordinate::Directive { name });
        }
        match parse_argument_suffix(&chars, 1 + n) {
            Some(argument) => Ok(SchemaCoordinate::DirectiveArgument { name, argument }),
            None => Err(CoordinateSyntaxError { text: text.to_owned() }),
        }
    } else {
        let n = name_length_at(&chars, 0);
        if n == 0 {
            return Err(CoordinateSyntaxError { text: text.to_owned() });
        }
        let ty = chars_range(&chars, 0, n);
        assert(s.subrange(0, n as int) == s.take(n as int));
        if n == chars.len() {
            return Ok(SchemaCoordinate::Type { name: ty });
        }
        if chars[n] != '.' {
            return Err(CoordinateSyntaxError { text: text.to_owned() });
        }
        let m = name_length_at(&chars, n + 1);
        if m == 0 {
            return Err(CoordinateSyntaxError { text: text.to_owned() });
        }
        let field = chars_range(&chars, n + 1, n + 1 + m);
        if n + 1 + m == chars.len() {
            return Ok(SchemaCoordinate::Member { ty, field });
        }
        match parse_argument_suffix(&chars, n + 1 + m) {
            Some(argument) => Ok(SchemaCoordinate::Argument { ty, field, argument }),
            None => Err(CoordinateSyntaxError { text: text.to_owned() }),
        }
    }
}

} // verus!
