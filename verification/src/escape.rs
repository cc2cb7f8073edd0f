//! Text with control characters made visible.
use vstd::prelude::*;

use crate::text::chars_of;

verus! {

/// Whether `c` is one of the control characters of ASCII.
pub open spec fn is_control(c: char) -> bool {
    ('\x00' <= c <= '\x1f') || c == '\x7f'
}

/// How a character is shown: a control character as a caret and the character sixty-four above
/// it, or a question mark for the last, and any other as it is.
pub open spec fn escaped_char(c: char) -> Seq<char> {
    if c == '\x7f' {
        seq!['^', '?']
    } else if is_control(c) {
        seq!['^', (c as int + 64) as char]
    } else {
        seq![c]
    }
}

/// How a text is shown.
pub open spec fn escaped(s: Seq<char>) -> Seq<char>
    decreases s.len(),
{
    if s.len() == 0 {
        Seq::empty()
    } else {
        escaped(s.drop_last()) + escaped_char(s.last())
    }
}

/// Text that can be shown with its control characters made visible.
pub trait Escapable {
    /// The text.
    spec fn text(&self) -> Seq<char>;

    /// The text with its control characters made visible: control-A as `^A`, delete as `^?`.
    fn escape_control(&self) -> (out: String)
        ensures
            out@ == escaped(self.text()),
    ;
}

fn escape_text(s: &str) -> (out: String)
    ensures
        out@ == escaped(s@),
{
    let chars = chars_of(s);
    let mut out = String::new();
    let mut i: usize = 0;
    assert(out@ =~= escaped(chars@.take(0)));
    while i < chars.len()
        invariant
            i <= chars.len(),
            out@ == escaped(chars@.take(i as int)),
        decreases chars.len() - i,
    {
        let c: char = chars[i];
        assert(chars@.take(i + 1).drop_last() =~= chars@.take(i as int));
        if c == '\x7f' {
            out.push('^');
            out.push('?');
        } else if '\x00' <= c && c <= '\x1f' {
            let code: u8 = c as u8 + 64u8;
            out.push('^');
            out.push(code as char);
        } else {
            out.push(c);
        }
        assert(out@ =~= escaped(chars@.take(i as int)) + escaped_char(c));
        i = i + 1;
    }
    assert(chars@.take(i as int) =~= chars@);
    out
}

impl Escapable for str {
    open spec fn text(&self) -> Seq<char> {
        self@
    }

    fn escape_control(&self) -> (out: String) {
        escape_text(self)
    }
}

impl Escapable for String {
    open spec fn text(&self) -> Seq<char> {
        self@
    }

    fn escape_control(&self) -> (out: String) {
        escape_text(self.as_str())
    }
}

/// What is shown has no control character.
pub proof fn law_escaped_has_no_control(s: Seq<char>, i: int)
    requires
        0 <= i < escaped(s).len(),
    ensures
        !is_control(escaped(s)[i]),
    decreases s.len(),
{
    if s.len() > 0 {
        let front = escaped(s.drop_last());
        if i < front.len() {
            law_escaped_has_no_control(s.drop_last(), i);
        } else {
            assert(escaped(s)[i] == escaped_char(s.last())[i - front.len()]);
        }
    }
}

/// A text without control characters is shown as it is.
pub proof fn law_plain_text_unchanged(s: Seq<char>)
    requires
        forall|i: int| 0 <= i < s.len() ==> !is_control(#[trigger] s[i]),
    ensures
        escaped(s) == s,
    decreases s.len(),
{
    if s.len() > 0 {
        assert forall|i: int| 0 <= i < s.drop_last().len() implies !is_control(
            #[trigger] s.drop_last()[i],
        ) by {
            assert(s.drop_last()[i] == s[i]);
        }
        law_plain_text_unchanged(s.drop_last());
        assert(!is_control(s[s.len() - 1]));
        assert(escaped(s) =~= s);
    } else {
        assert(escaped(s) =~= s);
    }
}

/// Showing what is shown changes nothing more.
pub proof fn law_escape_twice(s: Seq<char>)
    ensures
        escaped(escaped(s)) == escaped(s),
{
    assert forall|i: int| 0 <= i < escaped(s).len() implies !is_control(#[trigger] escaped(s)[i]) by {
        law_escaped_has_no_control(s, i);
    }
    law_plain_text_unchanged(escaped(s));
}

proof fn lemma_escaped_parts(a: Seq<char>, b: Seq<char>)
    ensures
        escaped(a + b) == escaped(a) + escaped(b),
    decreases b.len(),
{
    if b.len() == 0 {
        assert(a + b =~= a);
        assert(escaped(a) + escaped(b) =~= escaped(a));
    } else {
        lemma_escaped_parts(a, b.drop_last());
        assert((a + b).drop_last() =~= a + b.drop_last());
        assert(escaped(a + b) =~= escaped(a) + escaped(b));
    }
}

/// Each character is shown by itself, wherever it stands: control-A as `^A` and so on through
/// thirty-two of them, delete as `^?`, and any other as it is.
pub proof fn law_shown_one_by_one(before: Seq<char>, c: char, after: Seq<char>)
    ensures
        escaped(before.push(c) + after) == escaped(before) + (if c as int == 127 {
            seq!['^', '?']
        } else if (c as int) < 32 {
            seq!['^', (c as int + 64) as char]
        } else {
            seq![c]
        }) + escaped(after),
{
    lemma_escaped_parts(before.push(c), after);
    assert(before.push(c).drop_last() =~= before);
}

} // verus!
