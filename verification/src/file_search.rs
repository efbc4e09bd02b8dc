//! Matching a pattern against the lines of a file that has already been
//! read. Reading the file is the front end's business; this module holds
//! the selection logic: which lines match, in order.

use vstd::prelude::*;

use crate::ast::Pattern;
use crate::model::{view_pattern, PatternModel};
use crate::parse_spec::spec_parse;
use crate::semantics::pattern_matches;

verus! {

/// One line of text.
pub struct Line {
    content: String,
}

impl View for Line {
    type V = Seq<char>;

    closed spec fn view(&self) -> Seq<char> {
        self.content@
    }
}

impl Line {
    /// A line holding the given text.
    pub fn new(content: String) -> (l: Line)
        ensures
            l@ == content@,
    {
        Line { content }
    }

    /// Whether the pattern matches this line.
    fn match_line(&self, pattern: &Pattern) -> (r: bool)
        requires
            crate::model::wf_pattern(*pattern),
        ensures
            r == pattern_matches(view_pattern(*pattern), self@),
    {
        pattern.matches(self.content.as_str())
    }
}

/// The lines a matching scan selects: those whose text the pattern matches,
/// in their original order.
pub open spec fn matching_lines(lines: Seq<Seq<char>>, m: PatternModel) -> Seq<Seq<char>>
    decreases lines.len(),
{
    if lines.len() == 0 {
        Seq::empty()
    } else if pattern_matches(m, lines[0]) {
        seq![lines[0]] + matching_lines(lines.skip(1), m)
    } else {
        matching_lines(lines.skip(1), m)
    }
}

/// The contents of the given lines, in order.
fn get_lines_content<'a>(lines: &Vec<&'a Line>) -> (r: Vec<&'a String>)
    ensures
        r@.len() == lines@.len(),
        forall|k: int| 0 <= k < r@.len() ==> (#[trigger] r@[k])@ == lines@[k]@,
{
    let mut file_content: Vec<&'a String> = Vec::new();
    let mut i: usize = 0;
    while i < lines.len()
        invariant
            i <= lines@.len(),
            file_content@.len() == i,
            forall|k: int| 0 <= k < i ==> (#[trigger] file_content@[k])@ == lines@[k]@,
        decreases lines@.len() - i,
    {
        let line: &'a Line = lines[i];
        let ghost prev = file_content@;
        file_content.push(&line.content);
        proof {
            assert(file_content@ == prev.push(&line.content));
        }
        i += 1;
    }
    file_content
}

/// A named file, already split into lines.
pub struct _File {
    name: String,
    lines: Vec<Line>,
}

impl _File {
    /// A file with the given name and lines.
    pub fn from_lines(name: String, lines: Vec<Line>) -> (f: _File)
        ensures
            f.spec_name() == name@,
            f.spec_lines() == lines@.map_values(|l: Line| l@),
    {
        _File { name, lines }
    }

    /// The file's name.
    pub closed spec fn spec_name(&self) -> Seq<char> {
        self.name@
    }

    /// The text of the file's lines, in order.
    pub closed spec fn spec_lines(&self) -> Seq<Seq<char>> {
        self.lines@.map_values(|l: Line| l@)
    }

    /// The lines of this file that the pattern matches, in order.
    pub fn match_file<'a>(&'a self, pattern: &Pattern) -> (r: Vec<&'a String>)
        requires
            crate::model::wf_pattern(*pattern),
        ensures
            r@.map_values(|s: &String| s@) == matching_lines(
                self.spec_lines(),
                view_pattern(*pattern),
            ),
    {
        let ghost m = view_pattern(*pattern);
        let mut file_lines: Vec<&Line> = Vec::new();
        let mut i: usize = 0;
        proof {
            assert(self.lines@.skip(0) =~= self.lines@);
            assert(self.spec_lines() =~= self.lines@.map_values(|l: Line| l@));
        }
        while i < self.lines.len()
            invariant
                i <= self.lines@.len(),
                crate::model::wf_pattern(*pattern),
                m == view_pattern(*pattern),
                matching_lines(self.spec_lines(), m) == file_lines@.map_values(|l: &Line| l@)
                    + matching_lines(self.lines@.skip(i as int).map_values(|l: Line| l@), m),
            decreases self.lines@.len() - i,
        {
            let line: &Line = &self.lines[i];
            let ghost prev = file_lines@;
            let ghost rest = self.lines@.skip(i as int).map_values(|l: Line| l@);
            proof {
                assert(rest[0] == self.lines@[i as int]@);
                assert(rest.skip(1) =~= self.lines@.skip(i as int + 1).map_values(|l: Line| l@));
            }
            if line.match_line(pattern) {
                file_lines.push(line);
                proof {
                    assert(file_lines@ == prev.push(line));
                    assert(file_lines@.map_values(|l: &Line| l@) =~= prev.map_values(|l: &Line| l@)
                        .push(line@));
                    assert(matching_lines(rest, m) == seq![rest[0]] + matching_lines(
                        rest.skip(1),
                        m,
                    ));
                    assert(prev.map_values(|l: &Line| l@).push(line@) + matching_lines(
                        rest.skip(1),
                        m,
                    ) =~= prev.map_values(|l: &Line| l@) + (seq![rest[0]] + matching_lines(
                        rest.skip(1),
                        m,
                    )));
                }
            } else {
                proof {
                    assert(matching_lines(rest, m) == matching_lines(rest.skip(1), m));
                }
            }
            i += 1;
        }
        proof {
            assert(self.lines@.skip(self.lines@.len() as int) =~= Seq::<Line>::empty());
            assert(self.lines@.skip(self.lines@.len() as int).map_values(|l: Line| l@)
                =~= Seq::<Seq<char>>::empty());
            assert(file_lines@.map_values(|l: &Line| l@) + Seq::<Seq<char>>::empty()
                =~= file_lines@.map_values(|l: &Line| l@));
        }
        let contents = get_lines_content(&file_lines);
        proof {
            assert(contents@.map_values(|s: &String| s@) =~~= file_lines@.map_values(
                |l: &Line| l@,
            ));
        }
        contents
    }
}

} // verus!
