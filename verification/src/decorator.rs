//! Message decorators: anything printable can be wrapped to come out
//! underlined, or indented by four spaces on every line.

use vstd::prelude::*;
use crate::text::repeat_char;

verus! {

/// Something that renders itself to text, with the rendering also stated as
/// a specification so wrappers can speak about it.
pub trait Printable {
    /// The text the rendering yields.
    spec fn spec_print(&self) -> Seq<char>;

    /// Renders the text.
    fn print(&self) -> (r: String)
        ensures
            r@ == self.spec_print(),
    ;
}

/// A plain message.
pub struct Message {
    pub message: String,
}

impl Printable for Message {
    open spec fn spec_print(&self) -> Seq<char> {
        self.message@
    }

    fn print(&self) -> (r: String) {
        self.message.clone()
    }
}

/// A decorated message: whatever the inner one prints, underlined by a run
/// of equals signs, one per character of the inner text.
pub struct UnderlinedMessage<T> {
    pub decorated: T,
}

impl<T: Printable> Printable for UnderlinedMessage<T> {
    open spec fn spec_print(&self) -> Seq<char> {
        self.decorated.spec_print() + seq!['\n'] + repeat_char(
            '=',
            self.decorated.spec_print().len() as nat,
        )
    }

    fn print(&self) -> (r: String) {
        let mut message = self.decorated.print();
        let length = message.as_str().unicode_len();
        message.append("\n");
        proof {
            reveal_strlit("\n");
            assert(message@ =~= self.decorated.spec_print() + seq!['\n']);
        }
        let ghost head = message@;
        let mut k: usize = 0;
        while k < length
            invariant
                k <= length,
                message@ == head + repeat_char('=', k as nat),
            decreases length - k,
        {
            message.append("=");
            proof {
                reveal_strlit("=");
                assert(message@ =~= head + repeat_char('=', (k + 1) as nat));
            }
            k = k + 1;
        }
        message
    }
}

/// The text with four spaces slipped in after every newline.
pub open spec fn indent_newlines(s: Seq<char>) -> Seq<char>
    decreases s.len(),
{
    if s.len() == 0 {
        s
    } else if s[0] == '\n' {
        seq!['\n', ' ', ' ', ' ', ' '] + indent_newlines(s.skip(1))
    } else {
        seq![s[0]] + indent_newlines(s.skip(1))
    }
}

/// Up to the first newline, indenting changes nothing.
proof fn lemma_indent_prefix(s: Seq<char>, i: int)
    requires
        0 <= i <= s.len(),
        forall|j: int| 0 <= j < i ==> s[j] != '\n',
    ensures
        indent_newlines(s) == s.take(i) + indent_newlines(s.skip(i)),
    decreases i,
{
    if i == 0 {
        assert(s.take(0) =~= Seq::<char>::empty());
        assert(s.skip(0) =~= s);
        assert(indent_newlines(s) =~= s.take(0) + indent_newlines(s.skip(0)));
    } else {
        assert(forall|j: int| 0 <= j < i - 1 ==> s.skip(1)[j] == s[j + 1]);
        lemma_indent_prefix(s.skip(1), i - 1);
        assert(s.skip(1).take(i - 1) =~= s.take(i).skip(1));
        assert(s.skip(1).skip(i - 1) =~= s.skip(i));
        assert(indent_newlines(s) =~= s.take(i) + indent_newlines(s.skip(i)));
    }
}

/// A decorated message: the inner text indented by four spaces, at the
/// start and after every newline.
pub struct IndentedMessage<T> {
    pub decorated: T,
}

impl<T: Printable> Printable for IndentedMessage<T> {
    open spec fn spec_print(&self) -> Seq<char> {
        seq![' ', ' ', ' ', ' '] + indent_newlines(self.decorated.spec_print())
    }

    fn print(&self) -> (r: String) {
        let inner = self.decorated.print();
        let n = inner.as_str().unicode_len();
        let mut out = String::from_str("    ");
        proof {
            reveal_strlit("    ");
            assert(out@ =~= seq![' ', ' ', ' ', ' ']);
            assert(inner@.skip(0) =~= inner@);
        }
        let mut pos: usize = 0;
        while pos < n
            invariant
                pos <= n,
                n == inner@.len(),
                out@ + indent_newlines(inner@.skip(pos as int)) == seq![' ', ' ', ' ', ' ']
                    + indent_newlines(inner@),
            decreases n - pos,
        {
            let mut i: usize = pos;
            while i < n
                invariant
                    pos <= i <= n,
                    n == inner@.len(),
                    forall|j: int| pos <= j < i ==> inner@[j] != '\n',
                ensures
                    pos <= i <= n,
                    forall|j: int| pos <= j < i ==> inner@[j] != '\n',
                    i < n ==> inner@[i as int] == '\n',
                decreases n - i,
            {
                if inner.as_str().get_char(i) == '\n' {
                    break;
                }
                i = i + 1;
            }
            let seg = inner.as_str().substring_char(pos, i);
            out.append(seg);
            proof {
                let rem = inner@.skip(pos as int);
                assert(forall|j: int| 0 <= j < i - pos ==> rem[j] == inner@[pos + j]);
                lemma_indent_prefix(rem, i - pos);
                assert(rem.take(i - pos) =~= seg@);
                assert(rem.skip(i - pos) =~= inner@.skip(i as int));
            }
            if i < n {
                out.append("\n    ");
                proof {
                    reveal_strlit("\n    ");
                    let tail = inner@.skip(i as int);
                    assert(tail[0] == '\n');
                    assert(tail.skip(1) =~= inner@.skip(i + 1 as int));
                    assert(out@ + indent_newlines(inner@.skip(i + 1 as int)) =~= seq![
                        ' ', ' ', ' ', ' '
                    ] + indent_newlines(inner@));
                }
                pos = i + 1;
            } else {
                proof {
                    assert(inner@.skip(n as int).len() == 0);
                }
                pos = n;
            }
        }
        proof {
            assert(inner@.skip(n as int).len() == 0);
            assert(indent_newlines(inner@.skip(pos as int)) =~= Seq::<char>::empty());
            assert(out@ =~= seq![' ', ' ', ' ', ' '] + indent_newlines(inner@));
        }
        out
    }
}

} // verus!
