//! Conversion of GraphQL names into `snake_case`.

use vstd::prelude::*;
use crate::text::{
    ascii_lower_char, char_is_uppercase, char_to_lowercase, char_to_uppercase, is_ascii_upper, is_upper,
    lower_of, push_chars, str_chars, string_push, upper_of,
};

verus! {

/// What the character at `i` of `s` turns into: an uppercase character is
/// lowercased, with an underscore before it when the character before it
/// is not uppercase; any other character stays as it is.
pub open spec fn snake_piece(s: Seq<char>, i: int) -> Seq<char> {
    if is_upper(s[i]) {
        if i > 0 && !is_upper(s[i - 1]) {
            seq!['_'] + lower_of(s[i])
        } else {
            lower_of(s[i])
        }
    } else {
        seq![s[i]]
    }
}

/// The `snake_case` form of `s`: the pieces of its characters, in order.
pub open spec fn snake_case(s: Seq<char>) -> Seq<char>
    decreases s.len(),
{
    if s.len() == 0 {
        seq![]
    } else {
        snake_case(s.drop_last()) + snake_piece(s, s.len() - 1)
    }
}

proof fn lemma_snake_piece_prefix(s: Seq<char>, n: int, i: int)
    requires
        0 <= i < n <= s.len(),
    ensures
        snake_piece(s.take(n), i) == snake_piece(s, i),
{
}

/// Converts a name to `snake_case`: an underscore goes before each
/// uppercase character that follows a character that is not uppercase,
/// and each uppercase character is replaced by its lowercase form.
pub fn to_snake_case(s: &str) -> (r: String)
    ensures
        r@ == snake_case(s@),
{
    let chars = str_chars(s);
    let mut buf = String::new();
    // Starting as if an uppercase character came before keeps a leading underscore out.
    let mut prev_is_upper = true;
    let mut i: usize = 0;
    while i < chars.len()
        invariant
            chars@ == s@,
            i <= chars.len(),
            buf@ == snake_case(s@.take(i as int)),
            prev_is_upper == (i == 0 || is_upper(s@[i - 1])),
        decreases chars.len() - i,
    {
        let c = chars[i];
        let upper = char_is_uppercase(c);
        proof {
            let t = s@.take(i + 1);
            assert(t.drop_last() == s@.take(i as int));
            lemma_snake_piece_prefix(s@, i + 1, i as int);
        }
        if upper && !prev_is_upper {
            string_push(&mut buf, '_');
            let lower = char_to_lowercase(c);
            push_chars(&mut buf, &lower);
            prev_is_upper = true;
        } else if upper {
            let lower = char_to_lowercase(c);
            push_chars(&mut buf, &lower);
        } else {
            prev_is_upper = false;
            string_push(&mut buf, c);
        }
        i = i + 1;
    }
    assert(s@.take(chars.len() as int) == s@);
    buf
}

/// A name without uppercase characters is its own `snake_case` form.
pub proof fn law_snake_case_keeps_names_without_uppercase(s: Seq<char>)
    requires
        forall|i: int| 0 <= i < s.len() ==> !is_upper(#[trigger] s[i]),
    ensures
        snake_case(s) == s,
    decreases s.len(),
{
    if s.len() > 0 {
        let d = s.drop_last();
        assert forall|i: int| 0 <= i < d.len() implies !is_upper(#[trigger] d[i]) by {
            assert(d[i] == s[i]);
        }
        law_snake_case_keeps_names_without_uppercase(d);
        assert(!is_upper(s[s.len() - 1]));
        assert(d.push(s[s.len() - 1]) == s);
    }
}

/// Every character of `s` is ASCII.
pub open spec fn is_ascii_text(s: Seq<char>) -> bool {
    forall|i: int| 0 <= i < s.len() ==> (#[trigger] s[i] as u32) < 128
}

/// `s` with each ASCII capital letter replaced by its small letter.
pub open spec fn ascii_lowercase(s: Seq<char>) -> Seq<char> {
    s.map_values(|c: char| ascii_lower_char(c))
}

/// `s` with every underscore taken out.
pub open spec fn without_underscores(s: Seq<char>) -> Seq<char>
    decreases s.len(),
{
    if s.len() == 0 {
        seq![]
    } else if s.last() == '_' {
        without_underscores(s.drop_last())
    } else {
        without_underscores(s.drop_last()).push(s.last())
    }
}

proof fn lemma_without_underscores_concat(a: Seq<char>, b: Seq<char>)
    ensures
        without_underscores(a + b) == without_underscores(a) + without_underscores(b),
    decreases b.len(),
{
    if b.len() == 0 {
        assert(a + b == a);
        assert(without_underscores(a) + without_underscores(b) == without_underscores(a));
    } else {
        lemma_without_underscores_concat(a, b.drop_last());
        assert((a + b).drop_last() == a + b.drop_last());
        assert((a + b).last() == b.last());
    }
}

proof fn lemma_snake_case_of_ascii(s: Seq<char>)
    requires
        is_ascii_text(s),
    ensures
        is_ascii_text(snake_case(s)),
        forall|j: int| 0 <= j < snake_case(s).len() ==> !is_ascii_upper(#[trigger] snake_case(s)[j]),
        without_underscores(snake_case(s)) == without_underscores(ascii_lowercase(s)),
    decreases s.len(),
{
    if s.len() > 0 {
        let d = s.drop_last();
        let c = s.last();
        assert forall|i: int| 0 <= i < d.len() implies (#[trigger] d[i] as u32) < 128 by {
            assert(d[i] == s[i]);
        }
        lemma_snake_case_of_ascii(d);
        assert((c as u32) < 128) by {
            assert(c == s[s.len() - 1]);
        }
        let p = snake_piece(s, s.len() - 1);
        let l = ascii_lower_char(c);
        assert((l as u32) < 128 && !is_ascii_upper(l));
        assert(ascii_lowercase(s) == ascii_lowercase(d) + seq![l]);
        lemma_without_underscores_concat(ascii_lowercase(d), seq![l]);
        lemma_without_underscores_concat(snake_case(d), p);
        if is_upper(c) && s.len() - 1 > 0 && !is_upper(s[s.len() - 2]) {
            assert(p == seq!['_', l]);
            assert(l != '_');
            assert(p.drop_last() == seq!['_']);
            assert(seq!['_'].drop_last() == Seq::<char>::empty());
            assert(seq![l].drop_last() == Seq::<char>::empty());
            assert(p.last() == l);
            assert(seq!['_'].last() == '_');
            assert(seq![l].last() == l);
            assert(without_underscores(Seq::<char>::empty()) == Seq::<char>::empty());
            assert(without_underscores(seq!['_']) == Seq::<char>::empty());
            assert(without_underscores(seq![l]) == seq![l]);
            assert(without_underscores(p) == without_underscores(seq!['_']).push(l));
        } else {
            assert(p == seq![l]);
        }
        let r = snake_case(s);
        assert(r == snake_case(d) + p);
        assert forall|j: int| 0 <= j < r.len() implies (#[trigger] r[j] as u32) < 128 && !is_ascii_upper(r[j]) by {
            if j < snake_case(d).len() {
                assert(r[j] == snake_case(d)[j]);
            } else {
                assert(r[j] == p[j - snake_case(d).len()]);
            }
        }
    }
}

/// The `snake_case` form of an ASCII name: it is ASCII and holds no capital
/// letter, it is its own `snake_case` form, and it differs from the name in
/// lowercase only by the underscores put in.
pub proof fn law_snake_case_of_ascii_names(s: Seq<char>)
    requires
        is_ascii_text(s),
    ensures
        is_ascii_text(snake_case(s)),
        forall|j: int| 0 <= j < snake_case(s).len() ==> !is_ascii_upper(#[trigger] snake_case(s)[j]),
        snake_case(snake_case(s)) == snake_case(s),
        without_underscores(snake_case(s)) == without_underscores(ascii_lowercase(s)),
{
    lemma_snake_case_of_ascii(s);
    let r = snake_case(s);
    assert forall|i: int| 0 <= i < r.len() implies !is_upper(#[trigger] r[i]) by {
        assert((r[i] as u32) < 128);
        assert(!is_ascii_upper(r[i]));
    }
    law_snake_case_keeps_names_without_uppercase(r);
}

/// Where `to_pascal_case` stands after some characters: whether none was
/// read yet, whether only underscores were read, and whether the last
/// character read was uppercase, or an underscore after the start.
pub struct PascalState {
    pub first: bool,
    pub leading: bool,
    pub prev_upper: bool,
    pub prev_underscore: bool,
}

/// The state before any character is read.
pub open spec fn pascal_start() -> PascalState {
    PascalState { first: true, leading: false, prev_upper: false, prev_underscore: false }
}

/// What `to_pascal_case` writes for the character `c`, and its next state.
/// Leading underscores are kept; the first other character is capitalized
/// (an uppercase one is kept); later, an underscore is dropped and the
/// character after it capitalized, and an uppercase character right after
/// an uppercase one is lowercased, as is a character right after one.
pub open spec fn pascal_step(st: PascalState, c: char) -> (Seq<char>, PascalState) {
    if st.first {
        if c == '_' {
            (seq!['_'], PascalState { first: false, leading: true, prev_upper: false, prev_underscore: false })
        } else if is_upper(c) {
            (seq![c], PascalState { first: false, leading: false, prev_upper: true, prev_underscore: false })
        } else {
            (upper_of(c), PascalState { first: false, leading: false, prev_upper: false, prev_underscore: false })
        }
    } else if st.leading && c == '_' {
        (seq!['_'], st)
    } else if is_upper(c) {
        (
            if st.prev_upper {
                lower_of(c)
            } else {
                seq![c]
            },
            PascalState { first: false, leading: false, prev_upper: true, prev_underscore: st.prev_underscore },
        )
    } else if c == '_' {
        (Seq::empty(), PascalState { first: false, leading: false, prev_upper: false, prev_underscore: true })
    } else {
        (
            if st.prev_upper {
                lower_of(c)
            } else if st.prev_underscore {
                upper_of(c)
            } else {
                seq![c]
            },
            PascalState { first: false, leading: false, prev_upper: false, prev_underscore: false },
        )
    }
}

/// What `to_pascal_case` has written after reading all of `s`, and its state.
pub open spec fn pascal_run(s: Seq<char>) -> (Seq<char>, PascalState)
    decreases s.len(),
{
    if s.len() == 0 {
        (Seq::empty(), pascal_start())
    } else {
        let (out, st) = pascal_run(s.drop_last());
        let (piece, next) = pascal_step(st, s.last());
        (out + piece, next)
    }
}

/// The `PascalCase` form of `s`.
pub open spec fn pascal_case(s: Seq<char>) -> Seq<char> {
    pascal_run(s).0
}

/// Converts a name to `PascalCase`: the words that underscores separate
/// are joined with their first letters capitalized, a run of uppercase
/// letters keeps only its first one uppercase, and leading underscores are
/// kept.
pub fn to_pascal_case(s: &str) -> (r: String)
    ensures
        r@ == pascal_case(s@),
{
    let chars = str_chars(s);
    let mut buf = String::new();
    let mut first = true;
    let mut leading = false;
    let mut prev_upper = false;
    let mut prev_underscore = false;
    let mut i: usize = 0;
    while i < chars.len()
        invariant
            chars@ == s@,
            i <= chars.len(),
            pascal_run(s@.take(i as int)) == (
                buf@,
                PascalState { first, leading, prev_upper, prev_underscore },
            ),
        decreases chars.len() - i,
    {
        let c = chars[i];
        proof {
            assert(s@.take(i + 1).drop_last() == s@.take(i as int));
            assert(s@.take(i + 1).last() == c);
        }
        if first {
            first = false;
            if c == '_' {
                string_push(&mut buf, '_');
                leading = true;
            } else if char_is_uppercase(c) {
                prev_upper = true;
                string_push(&mut buf, c);
            } else {
                let up = char_to_uppercase(c);
                push_chars(&mut buf, &up);
            }
        } else if leading && c == '_' {
            string_push(&mut buf, '_');
        } else {
            leading = false;
            if char_is_uppercase(c) {
                if prev_upper {
                    let low = char_to_lowercase(c);
                    push_chars(&mut buf, &low);
                } else {
                    string_push(&mut buf, c);
                }
                prev_upper = true;
            } else if c == '_' {
                prev_underscore = true;
                prev_upper = false;
            } else {
                if prev_upper {
                    let low = char_to_lowercase(c);
                    push_chars(&mut buf, &low);
                } else if prev_underscore {
                    let up = char_to_uppercase(c);
                    push_chars(&mut buf, &up);
                } else {
                    string_push(&mut buf, c);
                }
                prev_upper = false;
                prev_underscore = false;
            }
        }
        i = i + 1;
    }
    assert(s@.take(chars.len() as int) == s@);
    buf
}

/// The `camelCase` form of `s`: its `PascalCase` form with the first
/// character lowercased.
pub open spec fn camel_case(s: Seq<char>) -> Seq<char> {
    let p = pascal_case(s);
    if p.len() == 0 {
        p
    } else {
        lower_of(p[0]) + p.drop_first()
    }
}

/// Converts a name to `camelCase`: its `PascalCase` form with the first
/// character lowercased.
pub fn to_camel_case(s: &str) -> (r: String)
    ensures
        r@ == camel_case(s@),
{
    let pascal = to_pascal_case(s);
    let chars = str_chars(pascal.as_str());
    let mut buf = String::new();
    if chars.len() == 0 {
        return buf;
    }
    let low = char_to_lowercase(chars[0]);
    push_chars(&mut buf, &low);
    let mut i: usize = 1;
    while i < chars.len()
        invariant
            chars@ == pascal@,
            chars@.len() > 0,
            1 <= i <= chars@.len(),
            buf@ == lower_of(chars@[0]) + chars@.subrange(1, i as int),
        decreases chars.len() - i,
    {
        string_push(&mut buf, chars[i]);
        proof {
            assert(chars@.subrange(1, i + 1) == chars@.subrange(1, i as int).push(chars@[i as int]));
        }
        i = i + 1;
    }
    assert(chars@.subrange(1, chars@.len() as int) == chars@.drop_first());
    buf
}

} // verus!
