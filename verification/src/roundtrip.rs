use vstd::prelude::*;
use vstd::utf8::char_u32_cast;
use crate::text::{escape_char, escaped, hex_digit, quoted};

verus! {

/// The value of a lowercase hexadecimal digit character, or a negative
/// number for any other character.
pub open spec fn hex_val(c: char) -> int {
    if 48 <= (c as u32) && (c as u32) <= 57 {
        (c as u32) - 48
    } else if 97 <= (c as u32) && (c as u32) <= 102 {
        (c as u32) - 87
    } else {
        -1
    }
}

/// Prepend a character to a successfully unescaped remainder.
pub open spec fn cons_unescaped(c: char, rest: Option<Seq<char>>) -> Option<Seq<char>> {
    match rest {
        Some(t) => Some(seq![c] + t),
        None => None,
    }
}

/// Parse the interior of a canonical quoted string token: a backslash opens
/// one of the escapes the canonical writer emits, a raw quote or raw
/// control character is malformed, and any other character stands for
/// itself.  A conforming reader of string tokens agrees with this parse on
/// every token the canonical writer produces.
pub open spec fn unescape(s: Seq<char>) -> Option<Seq<char>>
    decreases s.len(),
{
    if s.len() == 0 {
        Some(Seq::empty())
    } else if s[0] == '\\' {
        if s.len() < 2 {
            None
        } else {
            let c = s[1];
            if c == '"' {
                cons_unescaped('"', unescape(s.skip(2)))
            } else if c == '\\' {
                cons_unescaped('\\', unescape(s.skip(2)))
            } else if c == 'b' {
                cons_unescaped('\u{8}', unescape(s.skip(2)))
            } else if c == 't' {
                cons_unescaped('\t', unescape(s.skip(2)))
            } else if c == 'n' {
                cons_unescaped('\n', unescape(s.skip(2)))
            } else if c == 'f' {
                cons_unescaped('\u{c}', unescape(s.skip(2)))
            } else if c == 'r' {
                cons_unescaped('\r', unescape(s.skip(2)))
            } else if c == 'u' {
                if s.len() < 6 {
                    None
                } else if s[2] == '0' && s[3] == '0' && hex_val(s[4]) >= 0 && hex_val(s[5])
                    >= 0 {
                    cons_unescaped(
                        ((16 * hex_val(s[4]) + hex_val(s[5])) as u32) as char,
                        unescape(s.skip(6)),
                    )
                } else {
                    None
                }
            } else {
                None
            }
        }
    } else if s[0] == '"' || (s[0] as u32) < 32 {
        None
    } else {
        cons_unescaped(s[0], unescape(s.skip(1)))
    }
}

/// Parse a whole quoted string token back into the character sequence it
/// denotes.
pub open spec fn unquote(t: Seq<char>) -> Option<Seq<char>> {
    if t.len() >= 2 && t[0] == '"' && t[t.len() - 1] == '"' {
        unescape(t.subrange(1, t.len() - 1))
    } else {
        None
    }
}

/// Reading a hex digit back gives the value it was written from.
proof fn lemma_hex_digit_val(n: int)
    requires
        0 <= n < 16,
    ensures
        hex_val(hex_digit(n)) == n,
{
}

/// The escape of a sequence splits at its first character.
proof fn lemma_escaped_cons(s: Seq<char>)
    requires
        s.len() > 0,
    ensures
        escaped(s) == escape_char(s[0]) + escaped(s.drop_first()),
    decreases s.len(),
{
    if s.len() == 1 {
        assert(s.drop_last().len() == 0);
        assert(s.drop_first().len() == 0);
        assert(escaped(s.drop_last()) =~= Seq::<char>::empty());
        assert(escaped(s.drop_first()) =~= Seq::<char>::empty());
        assert(escaped(s) == escaped(s.drop_last()) + escape_char(s[0]));
        assert(escaped(s) =~= escape_char(s[0]) + escaped(s.drop_first()));
    } else {
        let t = s.drop_last();
        lemma_escaped_cons(t);
        assert(t[0] == s[0]);
        assert(t.drop_first() =~= s.drop_first().drop_last());
        assert(s.drop_first()[s.drop_first().len() - 1] == s[s.len() - 1]);
        assert(escaped(s) == escaped(t) + escape_char(s[s.len() - 1]));
        assert(escaped(s.drop_first()) == escaped(s.drop_first().drop_last()) + escape_char(
            s[s.len() - 1],
        ));
        assert(escaped(s) =~= escape_char(s[0]) + escaped(s.drop_first()));
    }
}

/// Unescaping undoes escaping: the canonical escape of any character
/// sequence parses back to exactly that sequence.
pub proof fn lemma_unescape_escaped(s: Seq<char>)
    ensures
        unescape(escaped(s)) == Some(s),
    decreases s.len(),
{
    if s.len() == 0 {
        assert(unescape(escaped(s)) =~= Some(s));
    } else {
        let c = s[0];
        let tail = s.drop_first();
        let e = escaped(s);
        let ec = escape_char(c);
        lemma_escaped_cons(s);
        lemma_unescape_escaped(tail);
        assert(e == ec + escaped(tail));
        assert(e.len() == ec.len() + escaped(tail).len());
        assert(forall|i: int| 0 <= i < ec.len() ==> e[i] == ec[i]);
        assert(e.skip(ec.len() as int) =~= escaped(tail));
        if c == '"' || c == '\\' || c == '\u{8}' || c == '\t' || c == '\n' || c == '\u{c}'
            || c == '\r' {
            assert(ec.len() == 2);
            assert(e[0] == '\\');
            assert(unescape(e) == cons_unescaped(c, unescape(e.skip(2))));
            assert(Some(seq![c] + tail) =~= Some(s)) by {
                assert(seq![c] + tail =~= s);
            }
        } else if (c as u32) < 32 {
            assert(ec.len() == 6);
            assert(e[0] == '\\' && e[1] == 'u' && e[2] == '0' && e[3] == '0');
            let code = c as u32;
            lemma_hex_digit_val(code as int / 16);
            lemma_hex_digit_val(code as int % 16);
            assert(e[4] == hex_digit(code as int / 16));
            assert(e[5] == hex_digit(code as int % 16));
            assert(hex_val(e[4]) == code as int / 16);
            assert(hex_val(e[5]) == code as int % 16);
            assert(16 * hex_val(e[4]) + hex_val(e[5]) == code);
            char_u32_cast(c, code);
            assert(((16 * hex_val(e[4]) + hex_val(e[5])) as u32) as char == c);
            assert(unescape(e) == cons_unescaped(c, unescape(e.skip(6))));
            assert(seq![c] + tail =~= s);
        } else {
            assert(ec.len() == 1);
            assert(e[0] == c);
            assert(e[0] != '\\' && e[0] != '"' && !((e[0] as u32) < 32));
            assert(unescape(e) == cons_unescaped(c, unescape(e.skip(1))));
            assert(seq![c] + tail =~= s);
        }
    }
}

/// String escaping round-trip: the quoted token that canonicalization
/// writes for any character sequence, read back by a conforming parser of
/// such tokens, yields the original sequence.
pub proof fn lemma_quoted_round_trip(s: Seq<char>)
    ensures
        unquote(quoted(s)) == Some(s),
{
    let t = quoted(s);
    assert(t.len() == escaped(s).len() + 2);
    assert(t[0] == '"');
    assert(t[t.len() - 1] == '"');
    assert(t.subrange(1, t.len() - 1) =~= escaped(s));
    lemma_unescape_escaped(s);
}

} // verus!
