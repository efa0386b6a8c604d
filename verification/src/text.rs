use vstd::prelude::*;
use vstd::std_specs::iter::IteratorSpec;

verus! {

/// The keys that the editor tells apart.
#[derive(Clone, Copy, PartialEq, Eq, Debug)]
pub enum KeyCode {
    Char(char),
    Backspace,
    Enter,
    Esc,
    Tab,
    /// Any other key.
    Other,
}

/// The text after `key` is typed into `text`: a character is appended,
/// Backspace drops the last character (if any), other keys change nothing.
pub open spec fn edit_text(text: Seq<char>, key: KeyCode) -> Seq<char> {
    match key {
        KeyCode::Char(c) => text.push(c),
        KeyCode::Backspace => if text.len() > 0 {
            text.drop_last()
        } else {
            text
        },
        _ => text,
    }
}

/// Whether `c` has the Unicode White_Space property.
pub open spec fn is_white_space(c: char) -> bool {
    ||| '\u{9}' <= c <= '\u{d}'
    ||| c == ' '
    ||| c == '\u{85}'
    ||| c == '\u{a0}'
    ||| c == '\u{1680}'
    ||| '\u{2000}' <= c <= '\u{200a}'
    ||| c == '\u{2028}'
    ||| c == '\u{2029}'
    ||| c == '\u{202f}'
    ||| c == '\u{205f}'
    ||| c == '\u{3000}'
}

/// Whether a text is empty once leading and trailing white space is trimmed,
/// that is, whether it holds white space only.
pub open spec fn is_blank(text: Seq<char>) -> bool {
    forall|i: int| 0 <= i < text.len() ==> is_white_space(#[trigger] text[i])
}

/// Whether `c` has the Unicode White_Space property (as `char::is_whitespace`
/// tells).
fn char_is_whitespace(c: char) -> (r: bool)
    ensures
        r == is_white_space(c),
{
    ('\u{9}' <= c && c <= '\u{d}') || c == ' ' || c == '\u{85}' || c == '\u{a0}' || c
        == '\u{1680}' || ('\u{2000}' <= c && c <= '\u{200a}') || c == '\u{2028}' || c
        == '\u{2029}' || c == '\u{202f}' || c == '\u{205f}' || c == '\u{3000}'
}

/// `String::push`: appends the character to the end of the string.
#[verifier::external_body]
fn string_push(s: &mut String, c: char)
    ensures
        final(s)@ == old(s)@.push(c),
{
    s.push(c)
}

/// `String::pop`: removes the last character and gives it back, or gives
/// `None` and leaves the string as it is when it is empty.
#[verifier::external_body]
fn string_pop(s: &mut String) -> (r: Option<char>)
    ensures
        old(s)@.len() == 0 ==> r is None && final(s)@ == old(s)@,
        old(s)@.len() > 0 ==> r == Some(old(s)@.last()) && final(s)@ == old(s)@.drop_last(),
{
    s.pop()
}

/// Types `key` into `text`.
pub fn handle_text_manip(key: KeyCode, text: &mut String)
    ensures
        final(text)@ == edit_text(old(text)@, key),
{
    match key {
        KeyCode::Char(c) => {
            string_push(text, c);
        },
        KeyCode::Backspace => {
            string_pop(text);
        },
        _ => {},
    }
}

/// Whether `text` holds white space only (so that trimming leaves nothing).
pub fn is_blank_text(text: &String) -> (r: bool)
    ensures
        r == is_blank(text@),
{
    let mut it = text.as_str().chars();
    let ghost all = text@;
    let ghost mut seen: int = 0;
    proof {
        broadcast use vstd::string::axiom_spec_iter;
    }
    loop
        invariant
            0 <= seen <= all.len(),
            all == text@,
            it.remaining() == all.skip(seen),
            forall|i: int| 0 <= i < seen ==> is_white_space(#[trigger] all[i]),
            it.obeys_prophetic_iter_laws(),
        decreases all.len() - seen,
    {
        match it.next() {
            Some(c) => {
                proof {
                    broadcast use vstd::string::next_postcondition;
                    assert(c == all[seen]);
                }
                if !char_is_whitespace(c) {
                    assert(!is_white_space(text@[seen]));
                    return false;
                }
                proof {
                    seen = seen + 1;
                    assert(all.skip(seen - 1).drop_first() =~= all.skip(seen));
                }
            },
            None => {
                proof {
                    broadcast use vstd::string::next_postcondition;
                }
                assert(seen == all.len());
                assert(is_blank(text@)) by {
                    assert forall|i: int| 0 <= i < text@.len() implies is_white_space(#[trigger] text@[i]) by {
                        assert(all[i] == text@[i]);
                    }
                }
                return true;
            },
        }
    }
}

} // verus!
