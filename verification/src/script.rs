//! Plans as shell scripts.

use vstd::prelude::*;
use vstd::string::*;

use crate::plan::{OpModel, Plan, PlannedAction, PlannedOp};
use crate::text::{
    ascii_digit, ascii_letter, chars_of, copy_of, is_digit, is_letter, string_of,
};

verus! {

/// A character that means nothing else to a shell.
pub open spec fn is_safe(c: char) -> bool {
    ascii_digit(c) || ascii_letter(c) || c == '/' || c == '-' || c == '_' || c == '=' || c == '.'
        || c == ',' || c == ':' || c == '@' || c == '%' || c == '+'
}

/// Every character of `s` is safe.
pub open spec fn all_safe(s: Seq<char>) -> bool {
    forall|i: int| 0 <= i < s.len() ==> is_safe(#[trigger] s[i])
}

/// `s` as it stands between single quotes: each single quote ends the quotation, is
/// escaped and begins it anew.
pub open spec fn escaped(s: Seq<char>) -> Seq<char>
    decreases s.len(),
{
    if s.len() == 0 {
        Seq::empty()
    } else if s.last() == '\'' {
        escaped(s.drop_last()) + seq!['\'', '\\', '\'', '\'']
    } else {
        escaped(s.drop_last()).push(s.last())
    }
}

/// `s` as a word of a shell.
pub open spec fn quoted(s: Seq<char>) -> Seq<char> {
    if all_safe(s) {
        s
    } else {
        seq!['\''] + escaped(s) + seq!['\'']
    }
}

/// How far a shell has read a word: what it has taken in, whether it is within single
/// quotes, and whether the next character is escaped.
pub struct Reading {
    pub word: Seq<char>,
    pub quoted: bool,
    pub escaped: bool,
}

impl Reading {
    /// The reading after one more character.
    pub open spec fn after(self, c: char) -> Reading {
        if self.quoted {
            if c == '\'' {
                Reading { quoted: false, ..self }
            } else {
                Reading { word: self.word.push(c), ..self }
            }
        } else if self.escaped {
            Reading { word: self.word.push(c), escaped: false, ..self }
        } else if c == '\'' {
            Reading { quoted: true, ..self }
        } else if c == '\\' {
            Reading { escaped: true, ..self }
        } else {
            Reading { word: self.word.push(c), ..self }
        }
    }

    /// The reading after the characters of `s`.
    pub open spec fn after_all(self, s: Seq<char>) -> Reading
        decreases s.len(),
    {
        if s.len() == 0 {
            self
        } else {
            self.after_all(s.drop_last()).after(s.last())
        }
    }
}

/// What a shell takes a word to mean.
pub open spec fn shell_reads(s: Seq<char>) -> Reading {
    Reading { word: Seq::empty(), quoted: false, escaped: false }.after_all(s)
}

proof fn lemma_after_concat(r: Reading, a: Seq<char>, b: Seq<char>)
    ensures
        r.after_all(a + b) == r.after_all(a).after_all(b),
    decreases b.len(),
{
    if b.len() == 0 {
        assert(a + b =~= a);
    } else {
        lemma_after_concat(r, a, b.drop_last());
        assert((a + b).drop_last() =~= a + b.drop_last());
        assert((a + b).last() == b.last());
    }
}

proof fn lemma_reads_safe(s: Seq<char>)
    requires
        all_safe(s),
    ensures
        shell_reads(s) == (Reading { word: s, quoted: false, escaped: false }),
    decreases s.len(),
{
    if s.len() > 0 {
        let t = s.drop_last();
        assert forall|i: int| 0 <= i < t.len() implies is_safe(#[trigger] t[i]) by {
            assert(t[i] == s[i]);
        }
        lemma_reads_safe(t);
        assert(is_safe(s[s.len() - 1]));
        assert(t.push(s.last()) =~= s);
    } else {
        assert(s =~= Seq::empty());
    }
}

proof fn lemma_reads_escaped(s: Seq<char>)
    ensures
        (Reading { word: Seq::empty(), quoted: true, escaped: false }).after_all(escaped(s)) == (
        Reading { word: s, quoted: true, escaped: false }),
    decreases s.len(),
{
    let start = Reading { word: Seq::empty(), quoted: true, escaped: false };
    if s.len() == 0 {
        assert(s =~= Seq::empty());
    } else {
        let t = s.drop_last();
        let mid = Reading { word: t, quoted: true, escaped: false };
        lemma_reads_escaped(t);
        assert(t.push(s.last()) =~= s);
        if s.last() == '\'' {
            let q = seq!['\'', '\\', '\'', '\''];
            lemma_after_concat(start, escaped(t), q);
            assert(q.drop_last() =~= q.take(3));
            assert(q.take(3).drop_last() =~= q.take(2));
            assert(q.take(2).drop_last() =~= q.take(1));
            assert(q.take(1).drop_last() =~= q.take(0));
            assert(mid.after_all(q.take(0)) == mid);
            assert(mid.after_all(q.take(1)) == mid.after('\''));
            assert(mid.after_all(q.take(2)) == mid.after('\'').after('\\'));
            assert(mid.after_all(q.take(3)) == mid.after('\'').after('\\').after('\''));
        } else {
            assert(escaped(s).drop_last() =~= escaped(t));
        }
    }
}

/// A shell reads a quoted string that is not empty as the string itself, and is then
/// outside of any quotation.
pub proof fn law_quote_round_trip(s: Seq<char>)
    requires
        s.len() > 0,
    ensures
        shell_reads(quoted(s)) == (Reading { word: s, quoted: false, escaped: false }),
{
    if all_safe(s) {
        lemma_reads_safe(s);
    } else {
        let start = Reading { word: Seq::empty(), quoted: false, escaped: false };
        let one = seq!['\''];
        lemma_after_concat(start, one + escaped(s), one);
        lemma_after_concat(start, one, escaped(s));
        assert(one.drop_last() =~= Seq::empty());
        assert(start.after_all(one.drop_last()) == start);
        assert(start.after_all(one) == start.after('\''));
        lemma_reads_escaped(s);
        let end = Reading { word: s, quoted: true, escaped: false };
        assert(end.after_all(one.drop_last()) == end);
        assert(end.after_all(one) == end.after('\''));
    }
}

/// Whether the character means nothing else to a shell.
fn safe(c: char) -> (r: bool)
    ensures
        r == is_safe(c),
{
    is_digit(c) || is_letter(c) || c == '/' || c == '-' || c == '_' || c == '=' || c == '.' || c
        == ',' || c == ':' || c == '@' || c == '%' || c == '+'
}

/// `s` as a word of a shell: as it stands where no character means something else, or
/// else in single quotes.
pub fn shell_quote(s: &str) -> (r: String)
    ensures
        r@ == quoted(s@),
{
    let c = chars_of(s);
    let mut plain = true;
    let mut out: Vec<char> = Vec::new();
    out.push('\'');
    let mut i: usize = 0;
    assert(out@ =~= seq!['\''] + escaped(s@.take(0)));
    while i < c.len()
        invariant
            c@ == s@,
            i <= c@.len(),
            plain ==> forall|j: int| 0 <= j < i ==> is_safe(#[trigger] s@[j]),
            !plain ==> !all_safe(s@),
            out@ == seq!['\''] + escaped(s@.take(i as int)),
        decreases c@.len() - i,
    {
        proof {
            assert(s@.take(i + 1).drop_last() =~= s@.take(i as int));
            assert(s@.take(i + 1).last() == s@[i as int]);
        }
        if !safe(c[i]) {
            assert(!is_safe(s@[i as int]));
            plain = false;
        }
        if c[i] == '\'' {
            out.push('\'');
            out.push('\\');
            out.push('\'');
            out.push('\'');
        } else {
            out.push(c[i]);
        }
        assert(out@ =~= seq!['\''] + escaped(s@.take(i + 1)));
        i += 1;
    }
    assert(s@.take(i as int) =~= s@);
    if plain {
        return copy_of(s);
    }
    out.push('\'');
    assert(out@ =~= quoted(s@));
    string_of(&out)
}

/// The command of an operation.
pub open spec fn command_of(op: OpModel) -> Seq<char> {
    (match op.action {
        PlannedAction::Rename => "mv"@,
        PlannedAction::Copy => "cp"@,
    }) + " "@ + quoted(op.subtitle.path) + " "@ + quoted(op.target_path) + "\n"@
}

/// The commands of the operations, one behind the other.
pub open spec fn commands(ops: Seq<OpModel>) -> Seq<char>
    decreases ops.len(),
{
    if ops.len() == 0 {
        Seq::empty()
    } else {
        commands(ops.drop_last()) + command_of(ops.last())
    }
}

/// The script that does what the plan does.
pub open spec fn script_of(ops: Seq<OpModel>) -> Seq<char> {
    "#!/bin/sh\n# generated by subtitle-renamer\n"@ + commands(ops)
}

/// The command of an operation.
fn command(op: &PlannedOp) -> (r: String)
    ensures
        r@ == command_of(op@),
{
    let mut s = match op.action {
        PlannedAction::Rename => copy_of("mv"),
        PlannedAction::Copy => copy_of("cp"),
    };
    s.append(" ");
    s.append(shell_quote(op.subtitle.path.as_str()).as_str());
    s.append(" ");
    s.append(shell_quote(op.target_path.as_str()).as_str());
    s.append("\n");
    s
}

/// The script that does what the plan does.
pub fn mv_script(plan: &Plan) -> (r: String)
    ensures
        r@ == script_of(plan@),
{
    let ghost all = plan@;
    let ghost head = "#!/bin/sh\n# generated by subtitle-renamer\n"@;
    let mut s = copy_of("#!/bin/sh\n# generated by subtitle-renamer\n");
    let mut i: usize = 0;
    assert(s@ =~= head + commands(all.take(0)));
    while i < plan.ops.len()
        invariant
            all == plan@,
            i <= plan.ops@.len(),
            s@ == head + commands(all.take(i as int)),
        decreases plan.ops@.len() - i,
    {
        proof {
            assert(all.take(i + 1).drop_last() =~= all.take(i as int));
            assert(all.take(i + 1).last() == plan.ops@[i as int]@);
        }
        s.append(command(&plan.ops[i]).as_str());
        assert(s@ =~= head + commands(all.take(i + 1)));
        i += 1;
    }
    assert(all.take(i as int) =~= all);
    s
}

/// A script has a line for each operation, in their order: it moves what is renamed and
/// copies what is copied, from the subtitle to the target.
pub proof fn law_script(ops: Seq<OpModel>, op: OpModel)
    ensures
        script_of(Seq::empty()) == "#!/bin/sh\n# generated by subtitle-renamer\n"@,
        script_of(ops.push(op)) == script_of(ops) + ((if op.action == PlannedAction::Rename {
            "mv"@
        } else {
            "cp"@
        }) + " "@ + quoted(op.subtitle.path) + " "@ + quoted(op.target_path) + "\n"@),
{
    assert(ops.push(op).drop_last() =~= ops);
    let head = "#!/bin/sh\n# generated by subtitle-renamer\n"@;
    assert(head + commands(Seq::empty()) =~= head);
    assert(script_of(ops.push(op)) =~= script_of(ops) + command_of(op));
}

/// A string stands as it is if it has no characters but ASCII letters, digits and
/// `/-_=.,:@%+`. Any other is put into single quotes.
pub proof fn law_quoted_when_needed(s: Seq<char>)
    ensures
        quoted(s) == s <==> forall|i: int|
            0 <= i < s.len() ==> {
                let c = #[trigger] s[i];
                ||| '0' <= c <= '9' || 'a' <= c <= 'z' || 'A' <= c <= 'Z'
                ||| c == '/' || c == '-' || c == '_' || c == '=' || c == '.' || c == ','
                ||| c == ':' || c == '@' || c == '%' || c == '+'
            },
        quoted(s) != s ==> quoted(s)[0] == '\'' && quoted(s).last() == '\'',
{
    lemma_escaped_len(s);
    if all_safe(s) {
        assert forall|i: int| 0 <= i < s.len() implies ({
            let c = #[trigger] s[i];
            ||| '0' <= c <= '9' || 'a' <= c <= 'z' || 'A' <= c <= 'Z'
            ||| c == '/' || c == '-' || c == '_' || c == '=' || c == '.' || c == ','
            ||| c == ':' || c == '@' || c == '%' || c == '+'
        }) by {
            assert(is_safe(s[i]));
        }
    } else {
        assert(quoted(s).len() > s.len());
        let i = choose|i: int| 0 <= i < s.len() && !is_safe(#[trigger] s[i]);
        assert(!is_safe(s[i]));
    }
}

proof fn lemma_escaped_len(s: Seq<char>)
    ensures
        escaped(s).len() >= s.len(),
    decreases s.len(),
{
    if s.len() > 0 {
        lemma_escaped_len(s.drop_last());
    }
}

} // verus!
