//! One line of the command protocol: `<register> <verb> <operand>`,
//! `print <register>`, or `quit`.
use crate::calculator::{enqueue, eval_model, resolve_spec, Calculator};
use crate::components::{
    RegModel, is_register_name, kind_of, operand_of, same_text, EvalError, OpModel, ParseError, RegID,
};
use vstd::prelude::*;

verus! {

/// What `str::to_lowercase` makes of a string.
pub uninterp spec fn lower_of(s: Seq<char>) -> Seq<char>;

/// What `str::trim` makes of a string.
pub uninterp spec fn trimmed_of(s: Seq<char>) -> Seq<char>;

/// Relies on `str::to_lowercase`: the result depends on the characters alone.
#[verifier::external_body]
fn lowercase(s: &str) -> (r: String)
    ensures
        r@ == lower_of(s@),
{
    s.to_lowercase()
}

/// Relies on `str::trim`: the result depends on the characters alone.
#[verifier::external_body]
fn trim(s: &str) -> (r: &str)
    ensures
        r@ == trimmed_of(s@),
{
    s.trim()
}

/// The pieces of `s` between single spaces, empty pieces kept.
pub open spec fn split_spaces(s: Seq<char>) -> Seq<Seq<char>>
    decreases s.len(),
{
    if s.len() == 0 {
        seq![Seq::empty()]
    } else {
        let t = split_spaces(s.drop_last());
        if s.last() == ' ' {
            t.push(Seq::empty())
        } else {
            t.update(t.len() - 1, t.last().push(s.last()))
        }
    }
}

proof fn lemma_split_nonempty(s: Seq<char>)
    ensures
        split_spaces(s).len() >= 1,
    decreases s.len(),
{
    if s.len() > 0 {
        lemma_split_nonempty(s.drop_last());
    }
}

/// Splits `s` at every space.
pub fn split_spaces_of(s: &str) -> (r: Vec<&str>)
    ensures
        r@.map_values(|t: &str| t@) == split_spaces(s@),
{
    let n = s.unicode_len();
    let mut parts: Vec<&str> = Vec::new();
    let mut start: usize = 0;
    let mut k: usize = 0;
    assert(s@.subrange(0, 0) =~= Seq::<char>::empty());
    assert(parts@.map_values(|t: &str| t@).push(s@.subrange(0, 0)) =~= seq![Seq::<char>::empty()]);
    while k < n
        invariant
            n == s@.len(),
            start <= k <= n,
            parts@.map_values(|t: &str| t@).push(s@.subrange(start as int, k as int))
                == split_spaces(s@.subrange(0, k as int)),
        decreases n - k,
    {
        let c = s.get_char(k);
        let ghost pre = s@.subrange(0, k as int);
        let ghost now = s@.subrange(0, k + 1);
        assert(now.drop_last() =~= pre);
        assert(now.last() == c);
        proof {
            lemma_split_nonempty(pre);
        }
        if c == ' ' {
            let piece = s.substring_char(start, k);
            let ghost before = parts@.map_values(|t: &str| t@);
            parts.push(piece);
            assert(parts@.map_values(|t: &str| t@) =~= before.push(piece@));
            start = k + 1;
            assert(s@.subrange(start as int, k + 1) =~= Seq::<char>::empty());
        } else {
            let ghost before = parts@.map_values(|t: &str| t@);
            assert(s@.subrange(start as int, k + 1) =~= s@.subrange(start as int, k as int).push(c));
            assert(before.push(s@.subrange(start as int, k + 1)) =~= before.push(
                s@.subrange(start as int, k as int),
            ).update(before.len() as int, s@.subrange(start as int, k as int).push(c)));
        }
        k = k + 1;
    }
    let piece = s.substring_char(start, n);
    let ghost before = parts@.map_values(|t: &str| t@);
    parts.push(piece);
    assert(parts@.map_values(|t: &str| t@) =~= before.push(piece@));
    assert(s@.subrange(0, n as int) =~= s@);
    parts
}

/// What one line did.
#[derive(Debug, PartialEq, Eq)]
pub enum LineOutcome {
    /// The line was `quit`: no further lines are to be read.
    Quit,
    /// An operation was queued.
    Queued,
    /// A register's value, asked for by `print`.
    Printed(i32),
    /// Asking for a register's value found a register that depends on itself.
    Failed(EvalError),
    /// The operation or the register name was refused.
    Rejected(ParseError),
    /// Two words, but the first was not `print`.
    NotPrint,
    /// Neither two nor three words.
    Unexpected,
}

/// What carrying out `line`, already trimmed and in lower case, does: the
/// registers go from `before` to `after`, and `r` is reported.
pub open spec fn line_effect(
    before: Seq<RegModel>,
    line: Seq<char>,
    after: Seq<RegModel>,
    r: LineOutcome,
) -> bool {
    &&& line == "quit"@ ==> r == LineOutcome::Quit && after == before
    &&& line != "quit"@ ==> ({
            let words = split_spaces(line);
            &&& words.len() == 3 ==> ({
                let ok = kind_of(words[1]) is Some && is_register_name(words[0]);
                &&& ok ==> r == LineOutcome::Queued && after == enqueue(
                    before,
                    OpModel {
                        kind: kind_of(words[1])->Some_0,
                        target: words[0],
                        operand: operand_of(words[2]),
                    },
                )
                &&& !ok ==> r is Rejected && after == before
                &&& kind_of(words[1]) is None ==> (r matches LineOutcome::Rejected(
                    ParseError::UnknownVerb(v),
                ) && v@ == words[1])
                &&& kind_of(words[1]) is Some && !is_register_name(words[0]) ==> (
                r matches LineOutcome::Rejected(ParseError::InvalidRegisterName(t)) && t@
                    == words[0])
            })
            &&& words.len() == 2 && words[0] != "print"@ ==> r == LineOutcome::NotPrint
                && after == before
            &&& words.len() == 2 && words[0] == "print"@ && !is_register_name(words[1]) ==> (
            r matches LineOutcome::Rejected(ParseError::InvalidRegisterName(t)) && t@ == words[1]
                && after == before)
            &&& words.len() == 2 && words[0] == "print"@ && is_register_name(words[1]) ==> ({
                let (next, res) = resolve_spec(before, words[1]);
                &&& after == next
                &&& res matches Ok(v) ==> r == LineOutcome::Printed(v)
                &&& res is Err ==> (r matches LineOutcome::Failed(e) && eval_model(Err(e)) == res)
            })
            &&& words.len() != 2 && words.len() != 3 ==> r == LineOutcome::Unexpected
                && after == before
        })
}

/// Carries out one line that is already trimmed and in lower case.
pub fn execute_normalized(calc: &mut Calculator, line: &str) -> (r: LineOutcome)
    requires
        old(calc).wf(),
    ensures
        final(calc).wf(),
        line_effect(old(calc)@, line@, final(calc)@, r),
{
    if same_text(line, "quit") {
        return LineOutcome::Quit;
    }
    let parts = split_spaces_of(line);
    let ghost words = split_spaces(line@);
    assert(parts@.len() == words.len());
    if parts.len() == 2 {
        assert(parts@[0]@ == words[0] && parts@[1]@ == words[1]);
        if !same_text(parts[0], "print") {
            return LineOutcome::NotPrint;
        }
        let reg_id = match RegID::new(parts[1].to_owned()) {
            Ok(id) => id,
            Err(e) => return LineOutcome::Rejected(e),
        };
        match calc.get_register_value(reg_id) {
            Ok(v) => LineOutcome::Printed(v),
            Err(e) => LineOutcome::Failed(e),
        }
    } else if parts.len() == 3 {
        assert(parts@[0]@ == words[0] && parts@[1]@ == words[1] && parts@[2]@ == words[2]);
        match calc.operation(parts[0], parts[1], parts[2]) {
            Ok(()) => LineOutcome::Queued,
            Err(e) => LineOutcome::Rejected(e),
        }
    } else {
        LineOutcome::Unexpected
    }
}

/// Carries out one line as read: it is trimmed and put in lower case first.
pub fn execute_line(calc: &mut Calculator, line: &str) -> (r: LineOutcome)
    requires
        old(calc).wf(),
    ensures
        final(calc).wf(),
        line_effect(old(calc)@, lower_of(trimmed_of(line@)), final(calc)@, r),
{
    let t = trim(line);
    let lowered = lowercase(t);
    execute_normalized(calc, lowered.as_str())
}

} // verus!
