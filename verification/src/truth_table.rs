use crate::text::{push_char, push_repeated, repeated};
use crate::variables::names;
use vstd::prelude::*;

verus! {

/// A truth table: a header with the names of the variables and the text of
/// the proposition, and one line for each assignment, with the values of
/// the variables and of the proposition.
#[derive(Debug)]
pub struct TruthTable {
    pub header: Vec<String>,
    pub lines: Vec<Vec<bool>>,
}

/// The width of a column: the number of bytes of its heading.
pub open spec fn width(heading: Seq<char>) -> nat {
    (vstd::utf8::encode_utf8(heading).len() as usize) as nat
}

/// The text of a truth value in a column: `T` or `F`, filled up with blanks
/// to the width of the column.
pub open spec fn cell(value: bool, width: nat) -> Seq<char> {
    seq![if value {
        'T'
    } else {
        'F'
    }] + repeated(' ', if width > 0 {
        (width - 1) as nat
    } else {
        0
    })
}

/// The first `upto` headings, each followed by a bar.
pub open spec fn heading_text(header: Seq<Seq<char>>, upto: int) -> Seq<char>
    decreases upto,
{
    if upto <= 0 {
        Seq::empty()
    } else {
        heading_text(header, upto - 1) + header[upto - 1] + seq![' ', '|', ' ']
    }
}

/// The rule below the first `upto` headings.
pub open spec fn rule_text(header: Seq<Seq<char>>, upto: int) -> Seq<char>
    decreases upto,
{
    if upto <= 0 {
        Seq::empty()
    } else {
        rule_text(header, upto - 1) + repeated('-', width(header[upto - 1]) + 3)
    }
}

/// The first `upto` cells of a line, each followed by a bar.
pub open spec fn line_text(header: Seq<Seq<char>>, line: Seq<bool>, upto: int) -> Seq<char>
    decreases upto,
{
    if upto <= 0 {
        Seq::empty()
    } else {
        line_text(header, line, upto - 1) + cell(line[upto - 1], width(header[upto - 1])) + seq![
            ' ',
            '|',
            ' ',
        ]
    }
}

/// The first `upto` lines, each followed by a line break.
pub open spec fn lines_text(header: Seq<Seq<char>>, lines: Seq<Vec<bool>>, upto: int) -> Seq<char>
    decreases upto,
{
    if upto <= 0 {
        Seq::empty()
    } else {
        lines_text(header, lines, upto - 1) + line_text(
            header,
            lines[upto - 1]@,
            header.len() as int,
        ) + seq!['\n']
    }
}

impl TruthTable {
    /// Every line has a value for every column.
    pub open spec fn wf(&self) -> bool {
        forall|i: int| 0 <= i < self.lines.len() ==> (#[trigger] self.lines[i]).len() == self.header.len()
    }

    /// The text of the table: the headings, a rule below them, and the
    /// lines.
    pub open spec fn render(&self) -> Seq<char> {
        heading_text(names(self.header@), self.header.len() as int) + seq!['\n'] + rule_text(
            names(self.header@),
            self.header.len() as int,
        ) + seq!['\n'] + lines_text(names(self.header@), self.lines@, self.lines.len() as int)
    }

    /// Renders the table as text.
    pub fn to_text(&self) -> (text: String)
        requires
            self.wf(),
        ensures
            text@ == self.render(),
    {
        let ghost header = names(self.header@);
        let mut text = String::new();
        let mut i: usize = 0;
        while i < self.header.len()
            invariant
                i <= self.header.len(),
                header == names(self.header@),
                text@ == heading_text(header, i as int),
            decreases self.header.len() - i,
        {
            text.append(self.header[i].as_str());
            push_char(&mut text, ' ');
            push_char(&mut text, '|');
            push_char(&mut text, ' ');
            proof {
                assert(header[i as int] == self.header@[i as int]@);
                assert(text@ =~= heading_text(header, i as int) + header[i as int] + seq![
                    ' ',
                    '|',
                    ' ',
                ]);
            }
            i += 1;
        }
        push_char(&mut text, '\n');
        let ghost first = text@;
        i = 0;
        while i < self.header.len()
            invariant
                i <= self.header.len(),
                header == names(self.header@),
                text@ == first + rule_text(header, i as int),
            decreases self.header.len() - i,
        {
            let ghost before = text@;
            let columns: usize = self.header[i].as_str().len();
            proof {
                assert(header[i as int] == self.header@[i as int]@);
                assert(columns == width(header[i as int]));
            }
            push_repeated(&mut text, '-', columns);
            push_char(&mut text, '-');
            push_char(&mut text, '-');
            push_char(&mut text, '-');
            proof {
                assert(text@ =~= before + repeated('-', width(header[i as int]) + 3));
                assert(text@ =~= first + (rule_text(header, i as int) + repeated(
                    '-',
                    width(header[i as int]) + 3,
                )));
            }
            i += 1;
        }
        push_char(&mut text, '\n');
        let ghost second = text@;
        let mut l: usize = 0;
        while l < self.lines.len()
            invariant
                l <= self.lines.len(),
                self.wf(),
                header == names(self.header@),
                text@ == second + lines_text(header, self.lines@, l as int),
            decreases self.lines.len() - l,
        {
            let ghost start = text@;
            let line = &self.lines[l];
            i = 0;
            while i < self.header.len()
                invariant
                    i <= self.header.len(),
                    line.len() == self.header.len(),
                    header == names(self.header@),
                    text@ == start + line_text(header, line@, i as int),
                decreases self.header.len() - i,
            {
                let ghost before = text@;
                let columns: usize = self.header[i].as_str().len();
                proof {
                    assert(header[i as int] == self.header@[i as int]@);
                    assert(columns == width(header[i as int]));
                }
                push_char(
                    &mut text,
                    if line[i] {
                        'T'
                    } else {
                        'F'
                    },
                );
                if columns > 0 {
                    push_repeated(&mut text, ' ', columns - 1);
                }
                push_char(&mut text, ' ');
                push_char(&mut text, '|');
                push_char(&mut text, ' ');
                proof {
                    assert(repeated(' ', 0) =~= Seq::<char>::empty());
                    assert(text@ =~= before + cell(line@[i as int], width(header[i as int])) + seq![
                        ' ',
                        '|',
                        ' ',
                    ]);
                    assert(text@ =~= start + (line_text(header, line@, i as int) + cell(
                        line@[i as int],
                        width(header[i as int]),
                    ) + seq![' ', '|', ' ']));
                }
                i += 1;
            }
            push_char(&mut text, '\n');
            proof {
                assert(text@ =~= second + (lines_text(header, self.lines@, l as int) + line_text(
                    header,
                    self.lines@[l as int]@,
                    header.len() as int,
                ) + seq!['\n']));
            }
            l += 1;
        }
        proof {
            assert(text@ =~= self.render());
        }
        text
    }
}

} // verus!
