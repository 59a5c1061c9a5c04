//! Two textual forms of a shape: a bracketed one on a single line, and an
//! indented one with a line for every node.

use vstd::prelude::*;
use vstd::string::StringExecFns;
use crate::tree::Tree;

verus! {

/// The bracketed form of what a slot holds: nothing for an empty slot.
pub open spec fn slot_simple_text(slot: Option<Box<Tree>>) -> Seq<char>
    decreases slot,
{
    match slot {
        None => Seq::empty(),
        Some(child) => child.simple_text(),
    }
}

/// `n` tab characters.
pub open spec fn tabs(n: nat) -> Seq<char> {
    Seq::new(n, |i: int| '\t')
}

impl Tree {
    /// The bracketed form: `{A,B}` for children `A` and `B`, an empty slot
    /// leaving nothing on its side of the comma.
    pub open spec fn simple_text(self) -> Seq<char>
        decreases self,
    {
        seq!['{'] + slot_simple_text(self.first) + seq![','] + slot_simple_text(self.second)
            + seq!['}']
    }

    /// The indented form, with the root `depth` tabs in. A leaf is a line
    /// `*`. Any other node is a line `1->`, the first child one tab further
    /// in, and for a second child a line `2->` at the node's own indentation
    /// and that child one tab further in.
    pub open spec fn fancy_text(self, depth: nat) -> Seq<char>
        decreases self,
    {
        if self.first is None && self.second is None {
            tabs(depth) + seq!['*', '\n']
        } else {
            tabs(depth) + seq!['1', '-', '>', '\n'] + (match self.first {
                None => Seq::empty(),
                Some(a) => a.fancy_text(depth + 1),
            }) + (match self.second {
                None => Seq::empty(),
                Some(b) => tabs(depth) + seq!['2', '-', '>', '\n'] + b.fancy_text(depth + 1),
            })
        }
    }

    /// Appends the bracketed form of the shape to `out`.
    pub fn print_simple(&self, out: &mut String)
        ensures
            final(out)@ == old(out)@ + self.simple_text(),
        decreases self,
    {
        proof {
            reveal_strlit("{");
            reveal_strlit(",");
            reveal_strlit("}");
        }
        out.append("{");
        if let Some(n) = &self.first {
            n.print_simple(out);
        }
        out.append(",");
        if let Some(n) = &self.second {
            n.print_simple(out);
        }
        out.append("}");
        assert(out@ =~= old(out)@ + self.simple_text());
    }

    /// Appends the indented form of the shape to `out`, the root `depth` tabs in.
    pub fn print_fancy(&self, depth: usize, out: &mut String)
        requires
            depth + self.height() <= usize::MAX,
        ensures
            final(out)@ == old(out)@ + self.fancy_text(depth as nat),
        decreases self,
    {
        let ghost before = out@;
        let ghost indent = tabs(depth as nat);
        print_tabs(depth, out);
        if self.first.is_none() && self.second.is_none() {
            out.append("*\n");
            proof {
                lemma_markers();
                lemma_concat_assoc(before, indent, "*\n"@);
            }
            return;
        }
        out.append("1->\n");
        let ghost head = indent + "1->\n"@;
        proof {
            lemma_markers();
            lemma_concat_assoc(before, indent, "1->\n"@);
        }
        let ghost first_text = Seq::<char>::empty();
        if let Some(n) = &self.first {
            n.print_fancy(depth + 1, out);
            proof {
                first_text = n.fancy_text((depth + 1) as nat);
            }
        }
        proof {
            assert(out@ =~= (before + head) + first_text);
            lemma_concat_assoc(before, head, first_text);
        }
        let ghost second_text = Seq::<char>::empty();
        if let Some(n) = &self.second {
            print_tabs(depth, out);
            out.append("2->\n");
            n.print_fancy(depth + 1, out);
            proof {
                let child = n.fancy_text((depth + 1) as nat);
                second_text = indent + "2->\n"@ + child;
                let sofar = before + (head + first_text);
                lemma_concat_assoc(sofar, indent, "2->\n"@);
                lemma_concat_assoc(sofar, indent + "2->\n"@, child);
            }
        }
        proof {
            assert(out@ =~= (before + (head + first_text)) + second_text);
            lemma_concat_assoc(before, head + first_text, second_text);
        }
    }
}

/// What the three markers of the indented form are made of.
proof fn lemma_markers()
    ensures
        "*\n"@ == seq!['*', '\n'],
        "1->\n"@ == seq!['1', '-', '>', '\n'],
        "2->\n"@ == seq!['2', '-', '>', '\n'],
{
    reveal_strlit("*\n");
    reveal_strlit("1->\n");
    reveal_strlit("2->\n");
    assert("*\n"@ =~= seq!['*', '\n']);
    assert("1->\n"@ =~= seq!['1', '-', '>', '\n']);
    assert("2->\n"@ =~= seq!['2', '-', '>', '\n']);
}

/// Concatenation may be bracketed either way.
proof fn lemma_concat_assoc(a: Seq<char>, b: Seq<char>, c: Seq<char>)
    ensures
        (a + b) + c == a + (b + c),
{
    assert((a + b) + c =~= a + (b + c));
}

/// Appends `n` tab characters to `out`.
fn print_tabs(n: usize, out: &mut String)
    ensures
        final(out)@ == old(out)@ + tabs(n as nat),
{
    let mut i: usize = 0;
    while i < n
        invariant
            i <= n,
            out@ == old(out)@ + tabs(i as nat),
        decreases n - i,
    {
        out.append("\t");
        i += 1;
        proof {
            reveal_strlit("\t");
            assert(out@ =~= old(out)@ + tabs(i as nat));
        }
    }
}

} // verus!
