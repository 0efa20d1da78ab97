use vstd::prelude::*;

verus! {

/// How a piece of output text is emphasised on the terminal.
#[derive(Clone, Copy, PartialEq, Eq, Structural, Debug)]
pub enum Tone {
    Plain,
    /// Bold.
    Strong,
    /// Bold and underlined, for column headings.
    Heading,
    /// Bold and green, for a winner or a leading value.
    Highlight,
}

/// A piece of a line with one emphasis.
pub struct Span {
    pub text: String,
    pub tone: Tone,
}

/// One line of output, without its line break.
pub struct Line {
    pub spans: Vec<Span>,
}

/// What a line shows: its pieces of text, each with its emphasis.
pub open spec fn line_view(l: Line) -> Seq<(Seq<char>, Tone)> {
    l.spans@.map_values(|s: Span| (s.text@, s.tone))
}

/// What a sequence of lines shows.
pub open spec fn lines_view(ls: Seq<Line>) -> Seq<Seq<(Seq<char>, Tone)>> {
    ls.map_values(|l: Line| line_view(l))
}

/// A line of one piece.
pub open spec fn single(text: Seq<char>, tone: Tone) -> Seq<(Seq<char>, Tone)> {
    seq![(text, tone)]
}

/// An empty line.
pub open spec fn blank() -> Seq<(Seq<char>, Tone)> {
    Seq::empty()
}

/// Blocks of lines, one after another.
pub open spec fn concat_lines(s: Seq<Seq<Seq<(Seq<char>, Tone)>>>) -> Seq<Seq<(Seq<char>, Tone)>>
    decreases s.len(),
{
    if s.len() == 0 {
        Seq::empty()
    } else {
        concat_lines(s.drop_last()) + s.last()
    }
}

impl Line {
    /// A line of one piece.
    pub fn single(text: String, tone: Tone) -> (l: Line)
        ensures
            line_view(l) == single(text@, tone),
    {
        let mut spans: Vec<Span> = Vec::new();
        spans.push(Span { text, tone });
        let l = Line { spans };
        assert(line_view(l) =~= single(text@, tone));
        l
    }

    /// An empty line.
    pub fn blank() -> (l: Line)
        ensures
            line_view(l) == blank(),
    {
        let l = Line { spans: Vec::new() };
        assert(line_view(l) =~= blank());
        l
    }

    /// Appends a piece.
    pub fn push(&mut self, text: String, tone: Tone)
        ensures
            line_view(*final(self)) == line_view(*old(self)).push((text@, tone)),
    {
        self.spans.push(Span { text, tone });
        assert(line_view(*self) =~= line_view(*old(self)).push((text@, tone)));
    }
}

/// Appends a line.
pub fn push_line(out: &mut Vec<Line>, l: Line)
    ensures
        lines_view(final(out)@) == lines_view(old(out)@).push(line_view(l)),
{
    out.push(l);
    assert(lines_view(out@) =~= lines_view(old(out)@).push(line_view(l)));
}

} // verus!
