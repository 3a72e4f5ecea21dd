//! The lines of the optional debug trace: one line per event of the
//! search, put together from fixed texts, numbers and clause texts.

use vstd::prelude::*;
use vstd::string::StringExecFns;

verus! {

/// The character of one decimal digit.
pub open spec fn digit(d: nat) -> char {
    if d == 0 {
        '0'
    } else if d == 1 {
        '1'
    } else if d == 2 {
        '2'
    } else if d == 3 {
        '3'
    } else if d == 4 {
        '4'
    } else if d == 5 {
        '5'
    } else if d == 6 {
        '6'
    } else if d == 7 {
        '7'
    } else if d == 8 {
        '8'
    } else {
        '9'
    }
}

/// The decimal digits of a number, without leading zeros.
pub open spec fn digits(n: nat) -> Seq<char>
    decreases n,
{
    if n < 10 {
        seq![digit(n)]
    } else {
        digits(n / 10).push(digit(n % 10))
    }
}

/// A number as text: its decimal digits, after a minus sign where it is
/// negative.
pub open spec fn decimal(number: int) -> Seq<char> {
    if number < 0 {
        seq!['-'] + digits((-number) as nat)
    } else {
        digits(number as nat)
    }
}

/// The text that `format!` gives for the debug form of a text: the text
/// between double quotes, its special characters escaped.
pub uninterp spec fn debug_form(text: Seq<char>) -> Seq<char>;

/// The first `n` of the texts, with `between` between them.
pub open spec fn glued(texts: Seq<String>, n: int, between: Seq<char>) -> Seq<char>
    decreases n,
{
    if n <= 0 {
        Seq::empty()
    } else if n == 1 {
        texts[0]@
    } else {
        glued(texts, n - 1, between) + between + texts[n - 1]@
    }
}

/// Calls `format!` on one number. The claim is what the standard
/// library says of how it displays an integer: the decimal digits
/// without leading zeros, after a minus sign where it is negative.
#[verifier::external_body]
pub(crate) fn number_text(number: i128) -> (r: String)
    ensures
        r@ == decimal(number as int),
{
    format!("{}", number)
}

/// Calls `format!` with the debug form of the text. The claim is that
/// the result depends on the text alone: it is the text named
/// `debug_form`.
#[verifier::external_body]
pub(crate) fn quoted(text: &String) -> (r: String)
    ensures
        r@ == debug_form(text@),
{
    format!("{:?}", text)
}

/// Calls `join` of the standard library on the texts. The claim is what
/// its documentation says: the texts in their order, with `between`
/// between each two of them.
#[verifier::external_body]
pub(crate) fn joined_by(texts: &Vec<String>, between: &str) -> (r: String)
    ensures
        r@ == glued(texts@, texts@.len() as int, between@),
{
    texts.join(between)
}

/// The text of the trace, where there is one.
pub open spec fn text_of(trace: Option<String>) -> Option<Seq<char>> {
    match trace {
        Some(w) => Some(w@),
        None => None,
    }
}

/// Whether the trace `after` is the trace `before` with lines added at
/// its end: where there was none there is none.
pub open spec fn grown(before: Option<Seq<char>>, after: Option<Seq<char>>) -> bool {
    after == before || match before {
        Some(b) => after matches Some(a) && b.len() <= a.len() && a.subrange(0, b.len() as int)
            == b,
        None => false,
    }
}

/// A trace that has grown twice has grown.
pub proof fn lemma_grown(a: Option<Seq<char>>, b: Option<Seq<char>>, c: Option<Seq<char>>)
    requires
        grown(a, b),
        grown(b, c),
    ensures
        grown(a, c),
{
    if a is Some && a != b && b != c {
        let x = a.unwrap();
        let y = b.unwrap();
        let z = c.unwrap();
        assert(z.subrange(0, x.len() as int) =~= y.subrange(0, x.len() as int));
    }
}

/// Appends `line` to the trace where there is one.
pub(crate) fn log(trace: &mut Option<String>, line: String)
    ensures
        match *old(trace) {
            Some(w) => *final(trace) matches Some(v) && v@ == w@ + line@,
            None => *final(trace) is None,
        },
        grown(text_of(*old(trace)), text_of(*final(trace))),
{
    match trace {
        Some(w) => {
            let ghost before = w@;
            w.append(line.as_str());
            assert(w@.subrange(0, before.len() as int) =~= before);
        },
        None => {},
    }
}

/// Appends the decimal text of `number` to `out`.
fn put_number(out: &mut String, number: i128)
    ensures
        final(out)@ == old(out)@ + decimal(number as int),
{
    let text = number_text(number);
    out.append(text.as_str());
}

/// The clause text between round brackets and double quotes.
pub open spec fn shown(clause: Seq<char>) -> Seq<char> {
    "("@ + debug_form(clause) + ")"@
}

/// Appends the clause text between round brackets and double quotes to
/// `out`.
fn put_clause(out: &mut String, clause: &String)
    ensures
        final(out)@ == old(out)@ + shown(clause@),
{
    let text = quoted(clause);
    out.append("(");
    out.append(text.as_str());
    out.append(")");
}

/// The texts joined by a semicolon and a space.
pub(crate) fn joined(texts: &Vec<String>) -> (r: String)
    ensures
        r@ == glued(texts@, texts@.len() as int, "; "@),
{
    joined_by(texts, "; ")
}

/// The decimal texts of the first `n` of the numbers, a space between
/// them.
pub open spec fn spaced(numbers: Seq<int>, n: int) -> Seq<char>
    decreases n,
{
    if n <= 0 {
        Seq::empty()
    } else if n == 1 {
        decimal(numbers[0])
    } else {
        spaced(numbers, n - 1) + " "@ + decimal(numbers[n - 1])
    }
}

/// A clause as text: the decimal texts of its literals in round
/// brackets, a space between them.
pub open spec fn clause_form(literals: Seq<int>) -> Seq<char> {
    "("@ + spaced(literals, literals.len() as int) + ")"@
}

/// Texts that are the decimal texts of the numbers, glued with a space,
/// are the numbers spaced.
pub proof fn lemma_spaced(texts: Seq<String>, numbers: Seq<int>, n: int)
    requires
        0 <= n <= texts.len(),
        texts.len() == numbers.len(),
        forall|i: int| 0 <= i < texts.len() ==> (#[trigger] texts[i])@ == decimal(numbers[i]),
    ensures
        glued(texts, n, " "@) == spaced(numbers, n),
    decreases n,
{
    if n > 1 {
        lemma_spaced(texts, numbers, n - 1);
    }
}

/// The clause as text: its literals in round brackets, a space between
/// them.
pub(crate) fn clause_text(literals: &Vec<isize>) -> (r: String)
    ensures
        r@ == clause_form(literals@.map_values(|l: isize| l as int)),
{
    let mut texts: Vec<String> = Vec::new();
    let mut i: usize = 0;
    while i < literals.len()
        invariant
            i <= literals@.len(),
            texts@.len() == i,
            forall|j: int| 0 <= j < i ==> (#[trigger] texts@[j])@ == decimal(literals@[j] as int),
        decreases literals@.len() - i,
    {
        texts.push(number_text(literals[i] as i128));
        i = i + 1;
    }
    let inner = joined_by(&texts, " ");
    proof {
        lemma_spaced(texts@, literals@.map_values(|l: isize| l as int), texts@.len() as int);
    }
    let mut out = String::new();
    out.append("(");
    out.append(inner.as_str());
    out.append(")");
    out
}

/// The line for a clause that two literals watch.
pub(crate) fn line_watch_two(a: isize, b: isize, clause: &String) -> (r: String)
    ensures
        r@ == "adding watched literals "@ + decimal(a as int) + " and "@ + decimal(b as int) + " for clause "@ + shown(clause@) + "\n"@,
{
    let mut out = String::new();
    out.append("adding watched literals ");
    put_number(&mut out, a as i128);
    out.append(" and ");
    put_number(&mut out, b as i128);
    out.append(" for clause ");
    put_clause(&mut out, clause);
    out.append("\n");
    out
}

/// The line for a clause that one literal watches, ready to force it.
pub(crate) fn line_watch_unit(a: isize, clause: &String) -> (r: String)
    ensures
        r@ == "adding watched literal "@ + decimal(a as int) + " for unit clause "@ + shown(clause@) + "\n"@,
{
    let mut out = String::new();
    out.append("adding watched literal ");
    put_number(&mut out, a as i128);
    out.append(" for unit clause ");
    put_clause(&mut out, clause);
    out.append("\n");
    out
}

/// The line for a decision at a level.
pub(crate) fn line_decide(literal: isize, level: usize) -> (r: String)
    ensures
        r@ == "reacting to action: Continue(Literal { value: "@ + decimal(literal as int) + " }) at decision level "@ + decimal(level as int) + "\n"@,
{
    let mut out = String::new();
    out.append("reacting to action: Continue(Literal { value: ");
    put_number(&mut out, literal as i128);
    out.append(" }) at decision level ");
    put_number(&mut out, level as i128);
    out.append("\n");
    out
}

/// The line for a conflict in a clause at a level.
pub(crate) fn line_conflict(clause_idx: usize, level: usize) -> (r: String)
    ensures
        r@ == "reacting to action: Contradiction("@ + decimal(clause_idx as int) + ") at decision level "@ + decimal(level as int) + "\n"@,
{
    let mut out = String::new();
    out.append("reacting to action: Contradiction(");
    put_number(&mut out, clause_idx as i128);
    out.append(") at decision level ");
    put_number(&mut out, level as i128);
    out.append("\n");
    out
}

/// The line for a literal put on the trail at a level.
pub(crate) fn line_push(level: usize, literal: isize) -> (r: String)
    ensures
        r@ == "adding to trail at decision level "@ + decimal(level as int) + ": "@ + decimal(literal as int) + "\n"@,
{
    let mut out = String::new();
    out.append("adding to trail at decision level ");
    put_number(&mut out, level as i128);
    out.append(": ");
    put_number(&mut out, literal as i128);
    out.append("\n");
    out
}

/// The line that opens the visit of the clauses watching a literal.
pub(crate) fn line_update(literal: isize) -> (r: String)
    ensures
        r@ == "updating watched clauses for literal "@ + decimal(literal as int) + "\n"@,
{
    let mut out = String::new();
    out.append("updating watched clauses for literal ");
    put_number(&mut out, literal as i128);
    out.append("\n");
    out
}

/// The line for a watched literal exchanged for another.
pub(crate) fn line_replace(from: isize, to: isize, clause: &String) -> (r: String)
    ensures
        r@ == "replacing watched literal "@ + decimal(from as int) + " with "@ + decimal(to as int) + " in clause "@ + shown(clause@) + "\n"@,
{
    let mut out = String::new();
    out.append("replacing watched literal ");
    put_number(&mut out, from as i128);
    out.append(" with ");
    put_number(&mut out, to as i128);
    out.append(" in clause ");
    put_clause(&mut out, clause);
    out.append("\n");
    out
}

/// The line for a clause found with one literal left during that
/// visit.
pub(crate) fn line_found_unit(unit: isize, literal: isize, clause: &String) -> (r: String)
    ensures
        r@ == "found unit literal ("@ + decimal(unit as int) + ") while updating watched clauses for literal "@ + decimal(literal as int) + " in clause "@ + shown(clause@) + "\n"@,
{
    let mut out = String::new();
    out.append("found unit literal (");
    put_number(&mut out, unit as i128);
    out.append(") while updating watched clauses for literal ");
    put_number(&mut out, literal as i128);
    out.append(" in clause ");
    put_clause(&mut out, clause);
    out.append("\n");
    out
}

/// The line for a ready clause taken up, with the clauses still ready.
pub(crate) fn line_unit_clause(literal: isize, clause: &String, ready: &String) -> (r: String)
    ensures
        r@ == "found unit clause: Literal { value: "@ + decimal(literal as int) + " } in clause "@ + shown(clause@) + " unit clauses rn: "@ + ready@ + "\n"@,
{
    let mut out = String::new();
    out.append("found unit clause: Literal { value: ");
    put_number(&mut out, literal as i128);
    out.append(" } in clause ");
    put_clause(&mut out, clause);
    out.append(" unit clauses rn: ");
    out.append(ready.as_str());
    out.append("\n");
    out
}

/// The line for a trail entry undone.
pub(crate) fn line_undo(literal: isize, level: usize) -> (r: String)
    ensures
        r@ == "undoing trail entry: "@ + decimal(literal as int) + " at decision level "@ + decimal(level as int) + "\n"@,
{
    let mut out = String::new();
    out.append("undoing trail entry: ");
    put_number(&mut out, literal as i128);
    out.append(" at decision level ");
    put_number(&mut out, level as i128);
    out.append("\n");
    out
}

/// The line for a restart.
pub(crate) fn line_restart() -> (r: String)
    ensures
        r@ == "Restarting\n"@,
{
    let mut out = String::new();
    out.append("Restarting\n");
    out
}

/// The line for a clause of one literal found after a restart.
pub(crate) fn line_unit_after_restart(clause: &String) -> (r: String)
    ensures
        r@ == "Found unit after restart in clause "@ + clause@ + "\n"@,
{
    let mut out = String::new();
    out.append("Found unit after restart in clause ");
    out.append(clause.as_str());
    out.append("\n");
    out
}

} // verus!
