use vstd::prelude::*;

use crate::text::push_char;

verus! {

/// Why an escaped text does not unescape.
#[derive(Debug, Clone, Copy, PartialEq, Eq, Structural)]
pub enum EscapeError {
    /// A backslash followed by a character that no escape starts with.
    Invalid(char),
    /// A backslash at the very end.
    Trailing,
}

/// The escape of one character: backslash, tab, line feed and carriage
/// return (and, where `comma` holds, the comma) become a backslash and a
/// letter; any other character stands for itself.
pub open spec fn escape_char(c: char, comma: bool) -> Seq<char> {
    if c == '\\' {
        seq!['\\', '\\']
    } else if comma && c == ',' {
        seq!['\\', ',']
    } else if c == '\t' {
        seq!['\\', 't']
    } else if c == '\n' {
        seq!['\\', 'n']
    } else if c == '\r' {
        seq!['\\', 'r']
    } else {
        seq![c]
    }
}

/// The escape of a text, character by character.
pub open spec fn escaped(s: Seq<char>, comma: bool) -> Seq<char>
    decreases s.len(),
{
    if s.len() == 0 {
        Seq::empty()
    } else {
        escape_char(s[0], comma) + escaped(s.skip(1), comma)
    }
}

/// The character that a backslash followed by `c` stands for.
pub open spec fn unescape_char(c: char, comma: bool) -> Option<char> {
    if c == '\\' {
        Some('\\')
    } else if comma && c == ',' {
        Some(',')
    } else if c == 't' {
        Some('\t')
    } else if c == 'n' {
        Some('\n')
    } else if c == 'r' {
        Some('\r')
    } else {
        None
    }
}

/// `r` with `prefix` in front of its text.
pub open spec fn prepend(prefix: Seq<char>, r: Result<Seq<char>, EscapeError>) -> Result<
    Seq<char>,
    EscapeError,
> {
    match r {
        Ok(t) => Ok(prefix + t),
        Err(e) => Err(e),
    }
}

/// The text an escaped text stands for, or the first bad escape in it.
pub open spec fn unescaped(s: Seq<char>, comma: bool) -> Result<Seq<char>, EscapeError>
    decreases s.len(),
{
    if s.len() == 0 {
        Ok(Seq::empty())
    } else if s[0] != '\\' {
        prepend(seq![s[0]], unescaped(s.skip(1), comma))
    } else if s.len() == 1 {
        Err(EscapeError::Trailing)
    } else {
        match unescape_char(s[1], comma) {
            Some(c) => prepend(seq![c], unescaped(s.skip(2), comma)),
            None => Err(EscapeError::Invalid(s[1])),
        }
    }
}

/// Escaping a concatenation escapes each part.
pub proof fn lemma_escaped_concat(a: Seq<char>, b: Seq<char>, comma: bool)
    ensures
        escaped(a + b, comma) == escaped(a, comma) + escaped(b, comma),
    decreases a.len(),
{
    if a.len() == 0 {
        assert(a + b =~= b);
        assert(escaped(a, comma) + escaped(b, comma) =~= escaped(b, comma));
    } else {
        assert((a + b).skip(1) =~= a.skip(1) + b);
        lemma_escaped_concat(a.skip(1), b, comma);
        assert((a + b)[0] == a[0]);
        assert(escaped(a + b, comma) =~= escape_char(a[0], comma) + (escaped(a.skip(1), comma)
            + escaped(b, comma)));
    }
}

/// Unescaping what was escaped gives the text back.
pub proof fn lemma_unescape_escaped(s: Seq<char>, comma: bool)
    ensures
        unescaped(escaped(s, comma), comma) == Ok::<Seq<char>, EscapeError>(s),
    decreases s.len(),
{
    if s.len() > 0 {
        lemma_unescape_escaped(s.skip(1), comma);
        let e = escaped(s, comma);
        let rest = escaped(s.skip(1), comma);
        let c = s[0];
        let head = escape_char(c, comma);
        assert(e == head + rest);
        assert(seq![c] + s.skip(1) =~= s);
        if c == '\\' || (comma && c == ',') || c == '\t' || c == '\n' || c == '\r' {
            assert(head.len() == 2);
            assert(e[0] == '\\');
            assert(e[1] == head[1]);
            assert(unescape_char(e[1], comma) == Some(c));
            assert(e.skip(2) =~= rest);
            assert(unescaped(e, comma) == prepend(seq![c], unescaped(e.skip(2), comma)));
        } else {
            assert(head.len() == 1);
            assert(e[0] == c);
            assert(e.skip(1) =~= rest);
            assert(unescaped(e, comma) == prepend(seq![c], unescaped(e.skip(1), comma)));
        }
    } else {
        assert(s =~= Seq::<char>::empty());
    }
}

/// An escaped text holds no tab, line feed or carriage return (and, where
/// `comma` holds, every comma in it follows a backslash).
pub proof fn lemma_escaped_has_no_breaks(s: Seq<char>, comma: bool)
    ensures
        forall|i: int|
            0 <= i < escaped(s, comma).len() ==> {
                let c = #[trigger] escaped(s, comma)[i];
                c != '\t' && c != '\n' && c != '\r'
            },
    decreases s.len(),
{
    if s.len() > 0 {
        lemma_escaped_has_no_breaks(s.skip(1), comma);
        let head = escape_char(s[0], comma);
        let rest = escaped(s.skip(1), comma);
        assert forall|i: int| 0 <= i < escaped(s, comma).len() implies {
            let c = #[trigger] escaped(s, comma)[i];
            c != '\t' && c != '\n' && c != '\r'
        } by {
            if i >= head.len() {
                assert(escaped(s, comma)[i] == rest[i - head.len()]);
            }
        }
    }
}

/// Escapes `input`.
pub fn escape_text(input: &str, comma: bool) -> (s: String)
    ensures
        s@ == escaped(input@, comma),
{
    let mut out = String::new();
    let n = input.unicode_len();
    let mut i: usize = 0;
    while i < n
        invariant
            n == input@.len(),
            i <= n,
            out@ == escaped(input@.take(i as int), comma),
        decreases n - i,
    {
        let c = input.get_char(i);
        if c == '\\' {
            out.append("\\\\");
        } else if comma && c == ',' {
            out.append("\\,");
        } else if c == '\t' {
            out.append("\\t");
        } else if c == '\n' {
            out.append("\\n");
        } else if c == '\r' {
            out.append("\\r");
        } else {
            push_char(&mut out, c);
        }
        proof {
            reveal_strlit("\\\\");
            reveal_strlit("\\,");
            reveal_strlit("\\t");
            reveal_strlit("\\n");
            reveal_strlit("\\r");
            assert(input@.take(i as int + 1) =~= input@.take(i as int) + seq![c]);
            lemma_escaped_concat(input@.take(i as int), seq![c], comma);
            assert(seq![c].skip(1) =~= Seq::<char>::empty());
            assert(escaped(Seq::<char>::empty(), comma) =~= Seq::<char>::empty());
            assert(escape_char(c, comma) + Seq::<char>::empty() =~= escape_char(c, comma));
            assert(escaped(seq![c], comma) =~= escape_char(c, comma));
        }
        i = i + 1;
    }
    proof {
        assert(input@.take(n as int) =~= input@);
    }
    out
}

/// Unescapes `input`, or reports its first bad escape.
pub fn unescape_text(input: &str, comma: bool) -> (r: Result<String, EscapeError>)
    ensures
        match r {
            Ok(s) => unescaped(input@, comma) == Ok::<Seq<char>, EscapeError>(s@),
            Err(e) => unescaped(input@, comma) == Err::<Seq<char>, EscapeError>(e),
        },
{
    let mut out = String::new();
    let n = input.unicode_len();
    let mut i: usize = 0;
    proof {
        assert(input@.skip(0) =~= input@);
        assert(forall|t: Seq<char>| out@ + t =~= t);
    }
    while i < n
        invariant
            n == input@.len(),
            i <= n,
            unescaped(input@, comma) == prepend(out@, unescaped(input@.skip(i as int), comma)),
        decreases n - i,
    {
        let ghost rest = input@.skip(i as int);
        let c = input.get_char(i);
        if c != '\\' {
            proof {
                assert(rest[0] == c);
                assert(rest.skip(1) =~= input@.skip(i as int + 1));
                assert(out@.push(c) =~= out@ + seq![c]);
                assert(forall|t: Seq<char>| out@ + (seq![c] + t) =~= out@.push(c) + t);
            }
            push_char(&mut out, c);
            i = i + 1;
        } else {
            if i + 1 >= n {
                return Err(EscapeError::Trailing);
            }
            let d = input.get_char(i + 1);
            let u = if d == '\\' {
                Some('\\')
            } else if comma && d == ',' {
                Some(',')
            } else if d == 't' {
                Some('\t')
            } else if d == 'n' {
                Some('\n')
            } else if d == 'r' {
                Some('\r')
            } else {
                None
            };
            match u {
                None => {
                    return Err(EscapeError::Invalid(d));
                },
                Some(e) => {
                    proof {
                        assert(rest[1] == d);
                        assert(rest.skip(2) =~= input@.skip(i as int + 2));
                        assert(forall|t: Seq<char>| out@ + (seq![e] + t) =~= out@.push(e) + t);
                    }
                    push_char(&mut out, e);
                    i = i + 2;
                },
            }
        }
    }
    proof {
        assert(input@.skip(n as int) =~= Seq::<char>::empty());
        assert(out@ + Seq::<char>::empty() =~= out@);
    }
    Ok(out)
}

} // verus!
