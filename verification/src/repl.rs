//! The decisions of the interactive console: which input lines are skipped,
//! when a (possibly multi-line) command is complete and runs, when the
//! session ends, when a prompt is due, and how result values are printed.
//! Reading lines, printing and running commands is done by the caller.
use vstd::prelude::*;
use crate::graph::types::{Value, ValueV};
use crate::query::datalog::executor::QueryResult;
use crate::ids::{spec_uuid_text, uuid_text};
use crate::text::{
    str_chars, trim, trim_chars, spec_to_uppercase, to_uppercase, int_text, i64_to_string, concat3,
    to_owned_string, push_str, string_from_chars, chars_eq, nat_text, u64_to_string, usize_to_string,
};

verus! {

/// The state of the bracket scan of a command: parenthesis depth outside
/// string literals, whether inside a string literal, and whether the next
/// character is escaped.
pub struct ScanState {
    pub depth: int,
    pub in_string: bool,
    pub escape_next: bool,
}

/// The scan state after one more character.
pub open spec fn scan_step(s: ScanState, ch: char) -> ScanState {
    if s.escape_next {
        ScanState { escape_next: false, ..s }
    } else if ch == '\\' && s.in_string {
        ScanState { escape_next: true, ..s }
    } else if ch == '"' {
        ScanState { in_string: !s.in_string, ..s }
    } else if ch == '(' && !s.in_string {
        ScanState { depth: s.depth + 1, ..s }
    } else if ch == ')' && !s.in_string {
        ScanState { depth: s.depth - 1, ..s }
    } else {
        s
    }
}

/// The scan state after all characters of `s`.
pub open spec fn scan(s: Seq<char>) -> ScanState
    decreases s.len(),
{
    if s.len() == 0 {
        ScanState { depth: 0, in_string: false, escape_next: false }
    } else {
        scan_step(scan(s.drop_last()), s.last())
    }
}

/// A command is complete when it has an opening parenthesis and its
/// parentheses outside string literals balance.
pub open spec fn command_complete(s: Seq<char>) -> bool {
    scan(s).depth == 0 && s.contains('(')
}

/// How a value is shown in query output.
pub open spec fn value_display(v: ValueV) -> Seq<char> {
    match v {
        ValueV::String(s) => "\""@ + s + "\""@,
        ValueV::Integer(i) => int_text(i as int),
        ValueV::Float(t) => t,
        ValueV::Boolean(b) => if b { "true"@ } else { "false"@ },
        ValueV::Ref(u) => "#uuid "@ + spec_uuid_text(u),
        ValueV::Keyword(k) => k,
        ValueV::Null => "nil"@,
    }
}

/// What the console does with one input line.
#[derive(Debug, PartialEq)]
pub enum ReplAction {
    /// Blank or comment line: nothing happens.
    Skip,
    /// `EXIT` (in any case): the session ends.
    Exit,
    /// The command so far is incomplete: more lines are read.
    Continue,
    /// The command is complete and is run.
    Run(String),
}

/// Whether a trimmed line is skipped: blank, or a `#` or `;` comment.
pub open spec fn skipped_line(line: Seq<char>) -> bool {
    line.len() == 0 || line[0] == '#' || line[0] == ';'
}

/// An interactive console session: the command read so far, whether it
/// spans several lines, and whether a prompt is due.
pub struct Repl {
    buffer: String,
    multiline: bool,
    prompt_needed: bool,
}

impl Repl {
    /// The command text read so far.
    pub closed spec fn pending(&self) -> Seq<char> {
        self.buffer@
    }

    /// Whether the command read so far spans several lines.
    pub closed spec fn is_multiline(&self) -> bool {
        self.multiline
    }

    /// Whether a prompt is due before the next command.
    pub closed spec fn prompt_due(&self) -> bool {
        self.prompt_needed
    }

    /// A new session: nothing read, a prompt due.
    pub fn new() -> (r: Self)
        ensures
            r.pending().len() == 0,
            !r.is_multiline(),
            r.prompt_due(),
    {
        Repl { buffer: String::new(), multiline: false, prompt_needed: true }
    }

    /// Whether to print the prompt before reading the next line; it is
    /// printed once per command, only when interactive and not inside a
    /// multi-line command.
    pub fn take_prompt(&mut self, interactive: bool) -> (r: bool)
        ensures
            r == (interactive && !old(self).is_multiline() && old(self).prompt_due()),
            final(self).pending() == old(self).pending(),
            final(self).is_multiline() == old(self).is_multiline(),
            final(self).prompt_due() == (old(self).prompt_due() && !r),
    {
        if interactive && !self.multiline && self.prompt_needed {
            self.prompt_needed = false;
            true
        } else {
            false
        }
    }

    /// Takes one input line. Blank and comment lines are skipped; `EXIT` ends
    /// the session; any other line is added to the command (after a newline
    /// when the command is not empty), and a complete command is handed out
    /// to run, leaving an empty command and a prompt due.
    pub fn on_line(&mut self, raw: &str) -> (r: ReplAction)
        ensures
            ({
                let line = trim(raw@);
                let joined = if old(self).pending().len() == 0 { line } else { old(self).pending() + seq!['\n'] + line };
                if skipped_line(line) {
                    r == ReplAction::Skip && *final(self) == *old(self)
                } else if spec_to_uppercase(line) == "EXIT"@ {
                    r == ReplAction::Exit && *final(self) == *old(self)
                } else if command_complete(joined) {
                    &&& r matches ReplAction::Run(c) && c@ == joined
                    &&& final(self).pending().len() == 0
                    &&& !final(self).is_multiline()
                    &&& final(self).prompt_due()
                } else {
                    &&& r == ReplAction::Continue
                    &&& final(self).pending() == joined
                    &&& final(self).is_multiline()
                    &&& final(self).prompt_due() == old(self).prompt_due()
                }
            }),
    {
        let rc = str_chars(raw);
        let lc = trim_chars(rc.as_slice());
        if lc.len() == 0 || lc[0] == '#' || lc[0] == ';' {
            return ReplAction::Skip;
        }
        let line = string_from_chars(lc.as_slice());
        let up = to_uppercase(line.as_str());
        let upc = str_chars(up.as_str());
        let exit = str_chars("EXIT");
        if chars_eq(upc.as_slice(), exit.as_slice()) {
            return ReplAction::Exit;
        }
        let ghost line_v = trim(raw@);
        assert(line@ == line_v);
        let mut joined = self.buffer.clone();
        if self.buffer.unicode_len() != 0 {
            push_str(&mut joined, "\n");
            proof { reveal_strlit("\n"); }
            assert(joined@ == self.buffer@ + seq!['\n']);
        }
        push_str(&mut joined, line.as_str());
        assert(joined@ == (if self.buffer@.len() == 0 { line_v } else { self.buffer@ + seq!['\n'] + line_v }));
        if Self::is_command_complete(joined.as_str()) {
            self.buffer = String::new();
            self.multiline = false;
            self.prompt_needed = true;
            ReplAction::Run(joined)
        } else {
            self.buffer = joined;
            self.multiline = true;
            ReplAction::Continue
        }
    }

    /// Whether a command is complete: it has an opening parenthesis and its
    /// parentheses outside string literals (where `\` escapes the next
    /// character) balance.
    pub fn is_command_complete(input: &str) -> (r: bool)
        ensures
            r == command_complete(input@),
    {
        let cs = str_chars(input);
        let mut depth: i128 = 0;
        let mut in_string = false;
        let mut escape_next = false;
        let mut has_open = false;
        let mut i: usize = 0;
        while i < cs.len()
            invariant
                i <= cs@.len(),
                cs@ == input@,
                scan(cs@.subrange(0, i as int)) == (ScanState { depth: depth as int, in_string, escape_next }),
                -(i as int) <= depth <= i,
                has_open == cs@.subrange(0, i as int).contains('('),
            decreases cs.len() - i,
        {
            let ch = cs[i];
            proof {
                assert(cs@.subrange(0, i + 1).drop_last() =~= cs@.subrange(0, i as int));
            }
            if ch == '(' {
                has_open = true;
            }
            if escape_next {
                escape_next = false;
            } else if ch == '\\' && in_string {
                escape_next = true;
            } else if ch == '"' {
                in_string = !in_string;
            } else if ch == '(' && !in_string {
                depth = depth + 1;
            } else if ch == ')' && !in_string {
                depth = depth - 1;
            }
            i = i + 1;
            proof {
                let p = cs@.subrange(0, i as int);
                let q = cs@.subrange(0, i - 1);
                assert(p =~= q.push(ch));
                if ch == '(' {
                    assert(p[i - 1] == '(');
                }
                if p.contains('(') && !q.contains('(') {
                    let k = choose|k: int| 0 <= k < p.len() && p[k] == '(';
                    assert(k == i - 1);
                }
                if q.contains('(') {
                    let k = choose|k: int| 0 <= k < q.len() && q[k] == '(';
                    assert(p[k] == '(');
                }
            }
        }
        assert(cs@.subrange(0, cs.len() as int) =~= cs@);
        depth == 0 && has_open
    }

    /// The text of a value in query output: strings quoted, entity
    /// references as `#uuid <uuid>`, `nil` for null.
    pub fn format_value(value: &Value) -> (r: String)
        ensures
            r@ == value_display(value@),
    {
        match value {
            Value::String(s) => concat3("\"", s.as_str(), "\""),
            Value::Integer(i) => i64_to_string(*i),
            Value::Float(t) => t.clone(),
            Value::Boolean(b) => if *b { to_owned_string("true") } else { to_owned_string("false") },
            Value::Ref(u) => {
                let t = uuid_text(*u);
                let mut s = to_owned_string("#uuid ");
                push_str(&mut s, t.as_str());
                s
            },
            Value::Keyword(k) => k.clone(),
            Value::Null => to_owned_string("nil"),
        }
    }

    /// The text printed for the result of a command: a confirmation with
    /// the transaction id, `No results found.`, or a table: the headers
    /// joined by tabs, a rule of dashes (20 per column), one line per row
    /// (values joined by tabs), a blank line and the count.
    pub fn result_text(result: &QueryResult) -> (r: String)
        ensures
            r@ == result_display(*result),
    {
        match result {
            QueryResult::Transacted(tx) => {
                let mut s = to_owned_string("✓ Transacted successfully (tx: ");
                push_str(&mut s, u64_to_string(*tx).as_str());
                push_str(&mut s, ")\n");
                s
            },
            QueryResult::Retracted(tx) => {
                let mut s = to_owned_string("✓ Retracted successfully (tx: ");
                push_str(&mut s, u64_to_string(*tx).as_str());
                push_str(&mut s, ")\n");
                s
            },
            QueryResult::QueryResults { vars, results } => {
                if results.len() == 0 {
                    return to_owned_string("No results found.\n");
                }
                let mut s = join_tabs(vars);
                push_str(&mut s, "\n");
                let n: usize = match vars.len().checked_mul(20) {
                    Some(m) => m,
                    None => usize::MAX,
                };
                let ghost top = s@;
                let mut k: usize = 0;
                assert(s@ =~= top + dashes(0));
                while k < n
                    invariant
                        k <= n,
                        s@ == top + dashes(k as nat),
                    decreases n - k,
                {
                    push_str(&mut s, "-");
                    proof {
                        reveal_strlit("-");
                        assert(dashes((k + 1) as nat) =~= dashes(k as nat) + "-"@);
                    }
                    k = k + 1;
                }
                push_str(&mut s, "\n");
                let ghost head = s@;
                let mut i: usize = 0;
                assert(s@ =~= head + rows_text(rows_view(results@).subrange(0, 0)));
                while i < results.len()
                    invariant
                        i <= results@.len(),
                        s@ == head + rows_text(rows_view(results@).subrange(0, i as int)),
                    decreases results.len() - i,
                {
                    let row = &results[i];
                    let mut cells: Vec<String> = Vec::new();
                    let mut c: usize = 0;
                    assert(strings_view(cells@) =~= row@.subrange(0, 0).map_values(|v: Value| value_display(v@)));
                    while c < row.len()
                        invariant
                            c <= row@.len(),
                            strings_view(cells@) == row@.subrange(0, c as int).map_values(|v: Value| value_display(v@)),
                        decreases row.len() - c,
                    {
                        let ghost before = strings_view(cells@);
                        let t = Self::format_value(&row[c]);
                        cells.push(t);
                        assert(strings_view(cells@) =~= before.push(value_display(row@[c as int]@)));
                        assert(row@.subrange(0, c + 1).map_values(|v: Value| value_display(v@)) =~= row@.subrange(0, c as int).map_values(
                            |v: Value| value_display(v@),
                        ).push(value_display(row@[c as int]@)));
                        c = c + 1;
                    }
                    assert(row@.subrange(0, row@.len() as int) =~= row@);
                    let line = join_tabs(&cells);
                    let ghost before = s@;
                    push_str(&mut s, line.as_str());
                    push_str(&mut s, "\n");
                    proof {
                        let rv = rows_view(results@);
                        assert(rv.subrange(0, i + 1).drop_last() =~= rv.subrange(0, i as int));
                        assert(rv[i as int].map_values(|v: ValueV| value_display(v)) =~= strings_view(cells@));
                        assert(s@ =~= before + row_display(rv[i as int]) + "\n"@);
                    }
                    i = i + 1;
                }
                assert(rows_view(results@).subrange(0, results@.len() as int) =~= rows_view(results@));
                push_str(&mut s, "\n");
                push_str(&mut s, usize_to_string(results.len()).as_str());
                push_str(&mut s, " result(s) found.\n");
                s
            },
            QueryResult::Done => to_owned_string("✓ OK\n"),
        }
    }
}

/// The texts of some strings.
pub open spec fn strings_view(v: Seq<String>) -> Seq<Seq<char>> {
    v.map_values(|x: String| x@)
}

/// `parts` with `sep` between consecutive parts.
pub open spec fn joined(parts: Seq<Seq<char>>, sep: Seq<char>) -> Seq<char>
    decreases parts.len(),
{
    if parts.len() == 0 {
        seq![]
    } else if parts.len() == 1 {
        parts[0]
    } else {
        joined(parts.drop_last(), sep) + sep + parts.last()
    }
}

/// `n` dashes.
pub open spec fn dashes(n: nat) -> Seq<char> {
    Seq::new(n, |i: int| '-')
}

/// The models of the rows of a result.
pub open spec fn rows_view(rows: Seq<Vec<Value>>) -> Seq<Seq<ValueV>> {
    rows.map_values(|row: Vec<Value>| row@.map_values(|v: Value| v@))
}

/// A row's values, as printed, joined by tabs.
pub open spec fn row_display(row: Seq<ValueV>) -> Seq<char> {
    joined(row.map_values(|v: ValueV| value_display(v)), "\t"@)
}

/// The lines of some rows, each followed by a newline.
pub open spec fn rows_text(rows: Seq<Seq<ValueV>>) -> Seq<char>
    decreases rows.len(),
{
    if rows.len() == 0 {
        seq![]
    } else {
        rows_text(rows.drop_last()) + row_display(rows.last()) + "\n"@
    }
}

/// The text printed for a command's result (see [`Repl::result_text`]).
pub open spec fn result_display(r: QueryResult) -> Seq<char> {
    match r {
        QueryResult::Transacted(t) => "✓ Transacted successfully (tx: "@ + nat_text(t as nat) + ")\n"@,
        QueryResult::Retracted(t) => "✓ Retracted successfully (tx: "@ + nat_text(t as nat) + ")\n"@,
        QueryResult::QueryResults { vars, results } => if results@.len() == 0 {
            "No results found.\n"@
        } else {
            let n = if vars@.len() * 20 > usize::MAX { usize::MAX as nat } else { (vars@.len() * 20) as nat };
            joined(strings_view(vars@), "\t"@) + "\n"@ + dashes(n) + "\n"@ + rows_text(rows_view(results@)) + "\n"@
                + nat_text(results@.len()) + " result(s) found.\n"@
        },
        QueryResult::Done => "✓ OK\n"@,
    }
}

/// Some strings joined by tabs.
fn join_tabs(parts: &Vec<String>) -> (r: String)
    ensures
        r@ == joined(strings_view(parts@), "\t"@),
{
    let ghost pv = strings_view(parts@);
    let mut s = String::new();
    let mut i: usize = 0;
    assert(s@ =~= joined(pv.subrange(0, 0), "\t"@));
    while i < parts.len()
        invariant
            i <= parts@.len(),
            pv == strings_view(parts@),
            s@ == joined(pv.subrange(0, i as int), "\t"@),
        decreases parts.len() - i,
    {
        let ghost before = s@;
        if i > 0 {
            push_str(&mut s, "\t");
        }
        push_str(&mut s, parts[i].as_str());
        proof {
            assert(pv.subrange(0, i + 1).drop_last() =~= pv.subrange(0, i as int));
            if i == 0 {
                assert(s@ =~= pv[0]);
            }
        }
        i = i + 1;
    }
    assert(pv.subrange(0, pv.len() as int) =~= pv);
    s
}

} // verus!
