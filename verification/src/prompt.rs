//! What is typed at the pool prompt.

use vstd::prelude::*;

verus! {

/// What a key stands for where an operation is asked for.
#[derive(Clone, Copy, PartialEq, Eq, Structural, Debug)]
pub enum KeyChoice {
    /// Create a pool.
    Create,
    /// Release a pool.
    Release,
    /// Nothing was chosen yet.
    Ignore,
    /// The key stands for nothing.
    Invalid,
}

/// What a key stands for.
pub open spec fn chosen(key: char) -> KeyChoice {
    if key == 'c' || key == 'C' {
        KeyChoice::Create
    } else if key == 'r' || key == 'R' {
        KeyChoice::Release
    } else if key == '\n' {
        KeyChoice::Ignore
    } else {
        KeyChoice::Invalid
    }
}

/// What a key stands for: `c` and `r` in either case choose an operation, an empty line does
/// nothing.
pub fn choose_operation(key: char) -> (choice: KeyChoice)
    ensures
        choice == chosen(key),
{
    if key == 'c' || key == 'C' {
        KeyChoice::Create
    } else if key == 'r' || key == 'R' {
        KeyChoice::Release
    } else if key == '\n' {
        KeyChoice::Ignore
    } else {
        KeyChoice::Invalid
    }
}

/// A line that is being typed.
pub struct LineInput {
    pub text: Vec<char>,
    pub complete: bool,
}

/// A line after the next key: what was typed, and whether it is complete.
pub open spec fn fed(text: Seq<char>, complete: bool, key: char) -> (Seq<char>, bool) {
    if complete || key == '\n' {
        (text, true)
    } else {
        (text.push(key), false)
    }
}

/// A line after some keys.
pub open spec fn fed_all(text: Seq<char>, complete: bool, keys: Seq<char>) -> (Seq<char>, bool)
    decreases keys.len(),
{
    if keys.len() == 0 {
        (text, complete)
    } else {
        let before = fed_all(text, complete, keys.drop_last());
        fed(before.0, before.1, keys.last())
    }
}

impl LineInput {
    /// Nothing was typed yet.
    pub fn new() -> (line: Self)
        ensures
            line.text@ == Seq::<char>::empty(),
            !line.complete,
    {
        LineInput { text: Vec::new(), complete: false }
    }

    /// Takes the next key. The end of the line completes it and is not part of it; what comes
    /// then is not taken.
    pub fn feed(&mut self, key: char)
        ensures
            (final(self).text@, final(self).complete) == fed(
                old(self).text@,
                old(self).complete,
                key,
            ),
    {
        if self.complete {
            return;
        }
        if key == '\n' {
            self.complete = true;
        } else {
            self.text.push(key);
        }
    }
}

/// Operations are chosen by their first letter in either case, and by no other key.
pub proof fn law_operations_are_chosen_by_letter(key: char)
    ensures
        chosen(key) is Create <==> key == 'c' || key == 'C',
        chosen(key) is Release <==> key == 'r' || key == 'R',
        chosen(key) is Ignore <==> key == '\n',
{
}

/// A line is what was typed up to its end, whatever is typed then.
pub proof fn law_line_is_what_was_typed(line: Seq<char>, rest: Seq<char>)
    requires
        forall|i: int| 0 <= i < line.len() ==> line[i] != '\n',
    ensures
        fed_all(Seq::empty(), false, line) == (line, false),
        fed_all(Seq::empty(), false, line.push('\n') + rest) == (line, true),
    decreases line.len() + rest.len(),
{
    if rest.len() > 0 {
        let fewer = rest.drop_last();
        law_line_is_what_was_typed(line, fewer);
        let keys = line.push('\n') + rest;
        assert(keys.drop_last() =~= line.push('\n') + fewer);
    } else {
        lemma_typed(line);
        let keys = line.push('\n') + rest;
        assert(keys =~= line.push('\n'));
        assert(keys.drop_last() =~= line);
    }
}

proof fn lemma_typed(line: Seq<char>)
    requires
        forall|i: int| 0 <= i < line.len() ==> line[i] != '\n',
    ensures
        fed_all(Seq::empty(), false, line) == (line, false),
    decreases line.len(),
{
    if line.len() > 0 {
        lemma_typed(line.drop_last());
        assert(line.drop_last().push(line.last()) =~= line);
    } else {
        assert(line =~= Seq::empty());
    }
}

} // verus!
