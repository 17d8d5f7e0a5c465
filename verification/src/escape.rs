//! How a name stands in a line of the history's text. A tab ends the name
//! and a line feed ends the line, so in a name these two, and the backslash
//! that marks them, are written as a backslash and a letter.

use crate::text::to_chars;
use vstd::prelude::*;
use vstd::string::*;

verus! {

/// What is written for one character of a name: `\\` for a backslash, `\t`
/// for a tab, `\n` for a line feed (each as two characters), and any other
/// character as it is.
pub open spec fn escape_of(c: char) -> Seq<char> {
    if c == '\\' {
        seq!['\\', '\\']
    } else if c == '\t' {
        seq!['\\', 't']
    } else if c == '\n' {
        seq!['\\', 'n']
    } else {
        seq![c]
    }
}

/// What is written for a name.
pub open spec fn escaped(name: Seq<char>) -> Seq<char>
    decreases name.len(),
{
    if name.len() == 0 {
        Seq::empty()
    } else {
        escape_of(name[0]) + escaped(name.drop_first())
    }
}

/// The character that a backslash and `letter` stand for, if they stand
/// for one.
pub open spec fn marked(letter: char) -> Option<char> {
    if letter == '\\' {
        Some('\\')
    } else if letter == 't' {
        Some('\t')
    } else if letter == 'n' {
        Some('\n')
    } else {
        None
    }
}

/// `first`, followed by what `rest` holds, if both hold anything.
pub open spec fn joined(first: Option<char>, rest: Option<Seq<char>>) -> Option<Seq<char>> {
    match (first, rest) {
        (Some(c), Some(more)) => Some(seq![c] + more),
        _ => None,
    }
}

/// The name that a written field stands for; `None` where a backslash is
/// followed by nothing or by a letter that marks no character.
pub open spec fn unescaped(field: Seq<char>) -> Option<Seq<char>>
    decreases field.len(),
{
    if field.len() == 0 {
        Some(Seq::empty())
    } else if field[0] != '\\' {
        joined(Some(field[0]), unescaped(field.skip(1)))
    } else if field.len() < 2 {
        None
    } else {
        joined(marked(field[1]), unescaped(field.skip(2)))
    }
}

/// `text` behind `front`, if there is a text.
pub open spec fn behind(front: Seq<char>, text: Option<Seq<char>>) -> Option<Seq<char>> {
    match text {
        Some(more) => Some(front + more),
        None => None,
    }
}

/// What is written for a name holds no tab and no line feed.
pub proof fn lemma_escaped_unbroken(name: Seq<char>)
    ensures
        forall|i: int|
            0 <= i < escaped(name).len() ==> (#[trigger] escaped(name)[i]) != '\t' && escaped(
                name,
            )[i] != '\n',
    decreases name.len(),
{
    if name.len() > 0 {
        lemma_escaped_unbroken(name.drop_first());
        let head = escape_of(name[0]);
        let tail = escaped(name.drop_first());
        assert forall|i: int| 0 <= i < escaped(name).len() implies (#[trigger] escaped(name)[i])
            != '\t' && escaped(name)[i] != '\n' by {
            if i >= head.len() {
                assert(escaped(name)[i] == tail[i - head.len()]);
            }
        }
    }
}

/// What is written for a name is read back as that name.
pub proof fn lemma_unescape_escaped(name: Seq<char>)
    ensures
        unescaped(escaped(name)) == Some(name),
    decreases name.len(),
{
    if name.len() > 0 {
        let c = name[0];
        let tail = escaped(name.drop_first());
        let field = escaped(name);
        lemma_unescape_escaped(name.drop_first());
        if c == '\\' || c == '\t' || c == '\n' {
            assert(field[0] == '\\');
            assert(field.skip(2) =~= tail);
            assert(marked(field[1]) == Some(c));
        } else {
            assert(field[0] == c);
            assert(field.skip(1) =~= tail);
        }
        assert(seq![c] + name.drop_first() =~= name);
    }
}

/// Writes a name as it stands in a line.
pub fn escape(name: &str) -> (text: String)
    ensures
        text@ == escaped(name@),
{
    proof {
        reveal_strlit("\\\\");
        reveal_strlit("\\t");
        reveal_strlit("\\n");
    }
    let chars = to_chars(name);
    let mut text = String::new();
    let mut k: usize = 0;
    assert(name@.skip(0) =~= name@);
    assert(text@ + escaped(name@) =~= escaped(name@));
    while k < chars.len()
        invariant
            chars@ == name@,
            k <= chars@.len(),
            text@ + escaped(name@.skip(k as int)) == escaped(name@),
            "\\\\"@ == seq!['\\', '\\'],
            "\\t"@ == seq!['\\', 't'],
            "\\n"@ == seq!['\\', 'n'],
        decreases chars@.len() - k,
    {
        let c = chars[k];
        let ghost before = text@;
        let ghost rest = name@.skip(k as int);
        proof {
            assert(rest[0] == c);
            assert(rest.drop_first() =~= name@.skip(k + 1));
        }
        if c == '\\' {
            text.append("\\\\");
        } else if c == '\t' {
            text.append("\\t");
        } else if c == '\n' {
            text.append("\\n");
        } else {
            let one = name.substring_char(k, k + 1);
            assert(one@ =~= seq![c]);
            text.append(one);
        }
        proof {
            assert(text@ == before + escape_of(c));
            assert(text@ + escaped(name@.skip(k + 1)) =~= before + (escape_of(c) + escaped(
                rest.drop_first(),
            )));
        }
        k = k + 1;
    }
    proof {
        assert(name@.skip(k as int) =~= Seq::<char>::empty());
        assert(text@ + Seq::<char>::empty() =~= text@);
    }
    text
}

/// Reads a name from the field of a line; `None` where the field is not
/// what is written for any name.
pub fn unescape(field: &str) -> (name: Option<String>)
    ensures
        match name {
            Some(text) => unescaped(field@) == Some(text@),
            None => unescaped(field@) is None,
        },
{
    proof {
        reveal_strlit("\\");
        reveal_strlit("\t");
        reveal_strlit("\n");
    }
    let chars = to_chars(field);
    let mut text = String::new();
    let mut k: usize = 0;
    assert(field@.skip(0) =~= field@);
    assert(Seq::<char>::empty() + unescaped(field@)->0 =~= unescaped(field@)->0);
    while k < chars.len()
        invariant
            chars@ == field@,
            k <= chars@.len(),
            unescaped(field@) == behind(text@, unescaped(field@.skip(k as int))),
            "\\"@ == seq!['\\'],
            "\t"@ == seq!['\t'],
            "\n"@ == seq!['\n'],
        decreases chars@.len() - k,
    {
        let c = chars[k];
        let ghost before = text@;
        let ghost rest = field@.skip(k as int);
        assert(rest[0] == c);
        if c != '\\' {
            let one = field.substring_char(k, k + 1);
            assert(one@ =~= seq![c]);
            text.append(one);
            proof {
                assert(rest.skip(1) =~= field@.skip(k + 1));
                let more = unescaped(rest.skip(1));
                if more is Some {
                    assert(before + (seq![c] + more->0) =~= (before + seq![c]) + more->0);
                }
            }
            k = k + 1;
        } else {
            if k + 1 >= chars.len() {
                return None;
            }
            let letter = chars[k + 1];
            assert(rest[1] == letter);
            if letter == '\\' {
                text.append("\\");
            } else if letter == 't' {
                text.append("\t");
            } else if letter == 'n' {
                text.append("\n");
            } else {
                return None;
            }
            proof {
                assert(rest.skip(2) =~= field@.skip(k + 2));
                let more = unescaped(rest.skip(2));
                if more is Some {
                    assert(before + (seq![marked(letter)->0] + more->0) =~= (before + seq![
                        marked(letter)->0,
                    ]) + more->0);
                }
            }
            k = k + 2;
        }
    }
    proof {
        assert(field@.skip(k as int) =~= Seq::<char>::empty());
        assert(text@ + Seq::<char>::empty() =~= text@);
    }
    Some(text)
}

} // verus!
