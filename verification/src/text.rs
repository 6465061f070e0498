use itertools::Itertools;
use vstd::prelude::*;
use vstd::string::StringExecFns;

verus! {

/// The parts one after the other, with the separator between each two of them.
pub open spec fn joined(parts: Seq<Seq<char>>, separator: Seq<char>) -> Seq<char>
    decreases parts.len(),
{
    if parts.len() == 0 {
        Seq::empty()
    } else if parts.len() == 1 {
        parts[0]
    } else {
        joined(parts.drop_last(), separator) + separator + parts.last()
    }
}

/// The characters of each string.
pub open spec fn texts(strings: Seq<String>) -> Seq<Seq<char>> {
    strings.map_values(|string: String| string@)
}

/// The text holds no line break.
pub open spec fn one_line(text: Seq<char>) -> bool {
    forall|i: int| 0 <= i < text.len() ==> #[trigger] text[i] != '\n'
}

/// What follows a line break in an indented text: the break and two spaces.
pub open spec fn broken() -> Seq<char> {
    seq!['\n', ' ', ' ']
}

/// The text with two spaces put behind each of its line breaks.
pub open spec fn indented(text: Seq<char>) -> Seq<char>
    decreases text.len(),
{
    if text.len() == 0 {
        Seq::empty()
    } else if text.last() == '\n' {
        indented(text.drop_last()) + broken()
    } else {
        indented(text.drop_last()).push(text.last())
    }
}

/// Indenting goes through a text piece by piece.
pub proof fn lemma_indented_concat(a: Seq<char>, b: Seq<char>)
    ensures
        indented(a + b) == indented(a) + indented(b),
    decreases b.len(),
{
    if b.len() > 0 {
        lemma_indented_concat(a, b.drop_last());
        assert((a + b).drop_last() =~= a + b.drop_last());
    }
}

/// Indenting leaves a text without line breaks as it is.
pub proof fn lemma_indented_one_line(text: Seq<char>)
    requires
        one_line(text),
    ensures
        indented(text) == text,
    decreases text.len(),
{
    if text.len() > 0 {
        assert forall|i: int| 0 <= i < text.drop_last().len() implies #[trigger] text.drop_last()[i]
            != '\n' by {}
        lemma_indented_one_line(text.drop_last());
    }
}

/// Lines joined by a line break and two spaces are the indented form of the lines joined
/// by a line break.
pub proof fn lemma_joined_lines_indented(lines: Seq<Seq<char>>)
    requires
        forall|i: int| 0 <= i < lines.len() ==> one_line(#[trigger] lines[i]),
    ensures
        joined(lines, broken()) == indented(joined(lines, seq!['\n'])),
    decreases lines.len(),
{
    if lines.len() == 1 {
        lemma_indented_one_line(lines[0]);
    } else if lines.len() > 1 {
        let init = lines.drop_last();
        assert forall|i: int| 0 <= i < init.len() implies one_line(#[trigger] init[i]) by {}
        lemma_joined_lines_indented(init);
        let head = joined(init, seq!['\n']);
        lemma_indented_concat(head + seq!['\n'], lines.last());
        lemma_indented_concat(head, seq!['\n']);
        lemma_indented_one_line(lines.last());
        let single = seq!['\n'];
        assert(indented(single.drop_last()) =~= Seq::<char>::empty());
    }
}

/// `str::split` of std, with a line break as the pattern. Trusted: the parts are at least
/// one, none of them holds a line break, and with line breaks between them they are the
/// text again.
#[verifier::external_body]
fn split_lines(text: &str) -> (lines: Vec<String>)
    ensures
        lines@.len() >= 1,
        forall|i: int| 0 <= i < lines@.len() ==> one_line(#[trigger] texts(lines@)[i]),
        joined(texts(lines@), seq!['\n']) == text@,
{
    text.split("\n").map(String::from).collect()
}

/// `Itertools::join` of itertools, on strings. Trusted: the result is the parts one after
/// the other with the separator between each two, and empty where there is no part.
#[verifier::external_body]
fn join_with(lines: &Vec<String>, separator: &str) -> (text: String)
    ensures
        text@ == joined(texts(lines@), separator@),
{
    lines.iter().join(separator)
}

/// Puts two spaces in front of every line of the text but the first.
pub fn indent(text: &str) -> (out: String)
    ensures
        out@ == indented(text@),
{
    let lines = split_lines(text);
    proof {
        reveal_strlit("\n  ");
        assert("\n  "@ =~= broken());
        lemma_joined_lines_indented(texts(lines@));
    }
    join_with(&lines, "\n  ")
}

/// What is said of a failure: the error and a full stop, and behind them in brackets, where
/// there are any, the causes with a full stop and a space between each two.
pub open spec fn reported(error: Seq<char>, causes: Seq<Seq<char>>) -> Seq<char> {
    let chain = joined(causes, ". "@);
    if chain.len() == 0 {
        error + "."@
    } else {
        error + ". ("@ + chain + ")"@
    }
}

/// Puts an error and its causes into one line.
pub fn report(error: &str, causes: &Vec<String>) -> (line: String)
    ensures
        line@ == reported(error@, texts(causes@)),
{
    let chain = join_with(causes, ". ");
    if chain.as_str().is_empty() {
        String::from_str(error).concat(".")
    } else {
        String::from_str(error).concat(". (").concat(chain.as_str()).concat(")")
    }
}

/// The lines that list the tasks: a heading, then each description, indented by two
/// spaces throughout.
pub fn tasks(descriptions: &Vec<String>) -> (lines: Vec<String>)
    ensures
        lines@.len() == descriptions@.len() + 1,
        lines@[0]@ == "Tasks:"@,
        forall|i: int|
            0 <= i < descriptions@.len() ==> (#[trigger] lines@[i + 1])@ == "  "@ + indented(
                descriptions@[i]@,
            ),
{
    let mut lines: Vec<String> = Vec::new();
    lines.push(String::from_str("Tasks:"));
    let mut i: usize = 0;
    while i < descriptions.len()
        invariant
            i <= descriptions.len(),
            lines@.len() == i + 1,
            lines@[0]@ == "Tasks:"@,
            forall|j: int|
                0 <= j < i ==> (#[trigger] lines@[j + 1])@ == "  "@ + indented(descriptions@[j]@),
        decreases descriptions.len() - i,
    {
        let body = indent(descriptions[i].as_str());
        lines.push(String::from_str("  ").concat(body.as_str()));
        i += 1;
    }
    lines
}

} // verus!
