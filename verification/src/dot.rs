//! Reading the textual form of a graph: a heading, an opening brace, the
//! statements, each ended by a semicolon, and a closing brace.

use vstd::prelude::*;
use crate::element::values_of;
use crate::rugraph::{paths_of, steps_of};
use crate::text::{
    chars_of, string_of, first_index, position, slice, split, split_on, lines_of, trim, trimmed,
    replace_all, replace,
};

verus! {

/// What is wrong with a text that describes no graph.
#[derive(Debug, Clone, Copy, PartialEq, Eq)]
pub enum Malformed {
    /// The text has no `{`.
    NoOpeningBrace,
    /// The text has no `}`.
    NoClosingBrace,
    /// The first `}` stands before the first `{`, or right behind it.
    BracesOutOfOrder,
    /// A statement of a graph with labels has no `[`.
    NoLabel,
    /// A statement of a graph with labels does not name two nodes.
    NotOneEdge,
}

/// Why a text could not be read.
#[derive(Debug, Clone, Copy, PartialEq, Eq)]
pub enum ParseError {
    /// The text does not describe a graph.
    MalformedInput(Malformed),
}

impl ParseError {
    /// The reason in words.
    pub open spec fn reason_text(self) -> Seq<char> {
        match self {
            ParseError::MalformedInput(Malformed::NoOpeningBrace) => "Dot file not correct. { not found."@,
            ParseError::MalformedInput(Malformed::NoClosingBrace) => "Dot file not correct. } not found."@,
            ParseError::MalformedInput(Malformed::BracesOutOfOrder) => "Dot file not correct. } before {"@,
            ParseError::MalformedInput(Malformed::NoLabel) => "Dot file not correct. [ not found."@,
            ParseError::MalformedInput(Malformed::NotOneEdge) => "Dot file not correct."@,
        }
    }

    /// The reason in words.
    pub fn reason(&self) -> (s: &'static str)
        ensures
            s@ == self.reason_text(),
    {
        match self {
            ParseError::MalformedInput(Malformed::NoOpeningBrace) => "Dot file not correct. { not found.",
            ParseError::MalformedInput(Malformed::NoClosingBrace) => "Dot file not correct. } not found.",
            ParseError::MalformedInput(Malformed::BracesOutOfOrder) => "Dot file not correct. } before {",
            ParseError::MalformedInput(Malformed::NoLabel) => "Dot file not correct. [ not found.",
            ParseError::MalformedInput(Malformed::NotOneEdge) => "Dot file not correct.",
        }
    }
}

/// The statements of a text: what stands between the first `{` and the
/// character before the first `}`.  That character, the line break in front
/// of the brace, belongs to no statement.  The first `}` must stand at least
/// two places behind the first `{`.
pub open spec fn body_of(text: Seq<char>) -> Result<Seq<char>, ParseError> {
    if !text.contains('{') {
        Err(ParseError::MalformedInput(Malformed::NoOpeningBrace))
    } else if !text.contains('}') {
        Err(ParseError::MalformedInput(Malformed::NoClosingBrace))
    } else if first_index(text, '}') < first_index(text, '{') + 2 {
        Err(ParseError::MalformedInput(Malformed::BracesOutOfOrder))
    } else {
        Ok(text.subrange(first_index(text, '{') + 1, first_index(text, '}') - 1))
    }
}

/// Cuts the statements out of a text.
pub fn body(text: &Vec<char>) -> (r: Result<Vec<char>, ParseError>)
    ensures
        match r {
            Ok(b) => body_of(text@) == Ok::<Seq<char>, ParseError>(b@),
            Err(e) => body_of(text@) == Err::<Seq<char>, ParseError>(e),
        },
{
    let open = match position(text, '{') {
        Some(i) => i,
        None => { return Err(ParseError::MalformedInput(Malformed::NoOpeningBrace)); },
    };
    let close = match position(text, '}') {
        Some(i) => i,
        None => { return Err(ParseError::MalformedInput(Malformed::NoClosingBrace)); },
    };
    let n = text.len();
    assert(open < n);
    if close <= open + 1 {
        return Err(ParseError::MalformedInput(Malformed::BracesOutOfOrder));
    }
    Ok(slice(text, open + 1, close - 1))
}

/// The names in a statement: the pieces between its arrows, each without
/// the white space around it.
pub open spec fn tokens_of(statement: Seq<char>) -> Seq<Seq<char>> {
    split(statement, "->"@).map_values(|t: Seq<char>| trim(t))
}

/// The statements of a body, each as its names.
pub open spec fn chains_of(body: Seq<char>) -> Seq<Seq<Seq<char>>> {
    split(body, ";"@).map_values(|statement: Seq<char>| tokens_of(statement))
}

/// The chains of names that a text holds.
pub open spec fn parsed_chains(text: Seq<char>) -> Result<Seq<Seq<Seq<char>>>, ParseError> {
    match body_of(text) {
        Ok(b) => Ok(chains_of(b)),
        Err(e) => Err(e),
    }
}

/// The names in a statement.
fn tokens(statement: &Vec<char>) -> (names: Vec<String>)
    ensures
        values_of(names@) == tokens_of(statement@),
{
    let arrow = chars_of("->");
    proof {
        reveal_strlit("->");
    }
    let pieces = split_on(statement, &arrow);
    let ghost all = split(statement@, "->"@);
    let mut names: Vec<String> = Vec::new();
    let mut q: usize = 0;
    while q < pieces.len()
        invariant
            all == lines_of(pieces@),
            q <= pieces@.len(),
            values_of(names@) == all.subrange(0, q as int).map_values(
                |t: Seq<char>| trim(t),
            ),
        decreases pieces@.len() - q,
    {
        let ghost before = values_of(names@);
        let name = string_of(&trimmed(&pieces[q]));
        assert(name@ == trim(all[q as int]));
        names.push(name);
        q += 1;
        assert(values_of(names@) =~= before.push(trim(all[q - 1])));
        assert(values_of(names@) =~= all.subrange(0, q as int).map_values(
            |t: Seq<char>| trim(t),
        ));
    }
    assert(all.subrange(0, q as int) =~= all);
    names
}

/// Reads the chains of names of a graph without labels.  The text is
/// refused where it has no `{`, no `}`, or the two in the wrong order.
pub fn parse_chains(content: &str) -> (r: Result<Vec<Vec<String>>, ParseError>)
    ensures
        match r {
            Ok(c) => parsed_chains(content@) == Ok::<Seq<Seq<Seq<char>>>, ParseError>(
                paths_of(c@),
            ),
            Err(e) => parsed_chains(content@) == Err::<Seq<Seq<Seq<char>>>, ParseError>(e),
        },
{
    let text = chars_of(content);
    let inner = match body(&text) {
        Ok(b) => b,
        Err(e) => { return Err(e); },
    };
    let semicolon = chars_of(";");
    proof {
        reveal_strlit(";");
    }
    let statements = split_on(&inner, &semicolon);
    let ghost all = split(inner@, ";"@);
    let mut chains: Vec<Vec<String>> = Vec::new();
    let mut m: usize = 0;
    while m < statements.len()
        invariant
            all == lines_of(statements@),
            m <= statements@.len(),
            paths_of(chains@) == all.subrange(0, m as int).map_values(
                |statement: Seq<char>| tokens_of(statement),
            ),
        decreases statements@.len() - m,
    {
        let ghost before = paths_of(chains@);
        let names = tokens(&statements[m]);
        chains.push(names);
        m += 1;
        assert(paths_of(chains@) =~= before.push(tokens_of(all[m - 1])));
        assert(paths_of(chains@) =~= all.subrange(0, m as int).map_values(
            |statement: Seq<char>| tokens_of(statement),
        ));
    }
    assert(all.subrange(0, m as int) =~= all);
    Ok(chains)
}

/// The place at which the part of a statement that names the nodes ends:
/// one character before the first `[`.
pub open spec fn label_cut(statement: Seq<char>) -> int {
    if first_index(statement, '[') > 0 {
        first_index(statement, '[') - 1
    } else {
        0
    }
}

/// The label of a statement: what stands behind the names, without
/// `[label="` and `"]` and without the white space around it.
pub open spec fn label_of(statement: Seq<char>) -> Seq<char> {
    trim(
        replace_all(
            replace_all(
                statement.subrange(label_cut(statement), statement.len() as int),
                "[label=\""@,
                ""@,
            ),
            "\"]"@,
            ""@,
        ),
    )
}

/// The two names in front of the label of a statement.
pub open spec fn ends_of(statement: Seq<char>) -> Seq<Seq<char>> {
    split(trim(statement.subrange(0, label_cut(statement))), "->"@)
}

/// The edge that a statement of a graph with labels describes: source,
/// destination and label.
pub open spec fn arc_of(statement: Seq<char>) -> Result<
    (Seq<char>, Seq<char>, Seq<char>),
    ParseError,
> {
    if !statement.contains('[') {
        Err(ParseError::MalformedInput(Malformed::NoLabel))
    } else if ends_of(statement).len() != 2 {
        Err(ParseError::MalformedInput(Malformed::NotOneEdge))
    } else {
        Ok((trim(ends_of(statement)[0]), trim(ends_of(statement)[1]), label_of(statement)))
    }
}

/// The edges that the first `n` statements describe, or what is wrong with
/// the first statement among them that describes none.  Empty statements
/// are passed over.
pub open spec fn arcs_upto(statements: Seq<Seq<char>>, n: int) -> Result<
    Seq<(Seq<char>, Seq<char>, Seq<char>)>,
    ParseError,
>
    decreases n,
{
    if n <= 0 {
        Ok(Seq::empty())
    } else {
        match arcs_upto(statements, n - 1) {
            Err(e) => Err(e),
            Ok(arcs) => if statements[n - 1].len() == 0 {
                Ok(arcs)
            } else {
                match arc_of(statements[n - 1]) {
                    Err(e) => Err(e),
                    Ok(arc) => Ok(arcs.push(arc)),
                }
            },
        }
    }
}

/// The edges that a text holds.
pub open spec fn parsed_arcs(text: Seq<char>) -> Result<
    Seq<(Seq<char>, Seq<char>, Seq<char>)>,
    ParseError,
> {
    match body_of(text) {
        Ok(b) => arcs_upto(split(b, ";"@), split(b, ";"@).len() as int),
        Err(e) => Err(e),
    }
}

/// Reads one statement of a graph with labels.
fn arc(statement: &Vec<char>) -> (r: Result<(String, String, String), ParseError>)
    ensures
        match r {
            Ok(a) => arc_of(statement@) == Ok::<(Seq<char>, Seq<char>, Seq<char>), ParseError>(
                (a.0@, a.1@, a.2@),
            ),
            Err(e) => arc_of(statement@) == Err::<(Seq<char>, Seq<char>, Seq<char>), ParseError>(
                e,
            ),
        },
{
    let at = match position(statement, '[') {
        Some(i) => i,
        None => { return Err(ParseError::MalformedInput(Malformed::NoLabel)); },
    };
    let cut: usize = if at > 0 {
        at - 1
    } else {
        0
    };
    let arrow = chars_of("->");
    let opening = chars_of("[label=\"");
    let closing = chars_of("\"]");
    let nothing = chars_of("");
    proof {
        reveal_strlit("->");
        reveal_strlit("[label=\"");
        reveal_strlit("\"]");
    }
    let ends = split_on(&trimmed(&slice(statement, 0, cut)), &arrow);
    assert(lines_of(ends@) == ends_of(statement@));
    if ends.len() != 2 {
        return Err(ParseError::MalformedInput(Malformed::NotOneEdge));
    }
    let from = string_of(&trimmed(&ends[0]));
    let to = string_of(&trimmed(&ends[1]));
    assert(lines_of(ends@)[0] == ends@[0]@);
    assert(lines_of(ends@)[1] == ends@[1]@);
    let tail = slice(statement, cut, statement.len());
    let label = string_of(&trimmed(&replace(&replace(&tail, &opening, &nothing), &closing, &nothing)));
    Ok((from, to, label))
}

/// Reads the edges of a graph with labels.  The text is refused where it
/// has no `{`, no `}`, or the two in the wrong order, and where a statement
/// that is not empty has no `[` or does not name two nodes in front of it.
pub fn parse_arcs(content: &str) -> (r: Result<Vec<(String, String, String)>, ParseError>)
    ensures
        match r {
            Ok(a) => parsed_arcs(content@) == Ok::<
                Seq<(Seq<char>, Seq<char>, Seq<char>)>,
                ParseError,
            >(steps_of(a@)),
            Err(e) => parsed_arcs(content@) == Err::<
                Seq<(Seq<char>, Seq<char>, Seq<char>)>,
                ParseError,
            >(e),
        },
{
    let text = chars_of(content);
    let inner = match body(&text) {
        Ok(b) => b,
        Err(e) => { return Err(e); },
    };
    let semicolon = chars_of(";");
    proof {
        reveal_strlit(";");
    }
    let statements = split_on(&inner, &semicolon);
    let ghost all = split(inner@, ";"@);
    let mut arcs: Vec<(String, String, String)> = Vec::new();
    let mut m: usize = 0;
    assert(steps_of(arcs@) =~= Seq::empty());
    while m < statements.len()
        invariant
            body_of(content@) == Ok::<Seq<char>, ParseError>(inner@),
            all == split(inner@, ";"@),
            all == lines_of(statements@),
            m <= statements@.len(),
            arcs_upto(all, m as int) == Ok::<Seq<(Seq<char>, Seq<char>, Seq<char>)>, ParseError>(
                steps_of(arcs@),
            ),
        decreases statements@.len() - m,
    {
        let statement = &statements[m];
        assert(all[m as int] == statement@);
        if statement.len() > 0 {
            let ghost before = steps_of(arcs@);
            match arc(statement) {
                Ok(a) => {
                    let ghost one = (a.0@, a.1@, a.2@);
                    arcs.push(a);
                    assert(steps_of(arcs@) =~= before.push(one));
                },
                Err(e) => {
                    proof {
                        assert(arcs_upto(all, m as int + 1) == Err::<
                            Seq<(Seq<char>, Seq<char>, Seq<char>)>,
                            ParseError,
                        >(e));
                        lemma_arcs_upto_err(all, m as int + 1, all.len() as int);
                    }
                    return Err(e);
                },
            }
        }
        m += 1;
    }
    Ok(arcs)
}

/// Once a statement is refused, the statements behind it change nothing.
pub proof fn lemma_arcs_upto_err(statements: Seq<Seq<char>>, n: int, m: int)
    requires
        arcs_upto(statements, n) is Err,
        n <= m,
    ensures
        arcs_upto(statements, m) == arcs_upto(statements, n),
    decreases m - n,
{
    if n < m {
        lemma_arcs_upto_err(statements, n, m - 1);
    }
}

} // verus!
